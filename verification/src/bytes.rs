//! Integers as bytes, in both byte orders.

use vstd::prelude::*;
use vstd::arithmetic::div_mod::{lemma_div_denominator, lemma_mod_breakdown};
use vstd::arithmetic::power::{lemma_pow0, lemma_pow1, lemma_pow_adds, lemma_pow_positive, pow};

verus! {

/// The low `k` bytes of `n`, least significant first.
pub open spec fn le(n: nat, k: nat) -> Seq<u8>
    decreases k,
{
    if k == 0 {
        Seq::empty()
    } else {
        seq![(n % 256) as u8] + le(n / 256, (k - 1) as nat)
    }
}

/// The low `k` bytes of `n`, most significant first.
pub open spec fn be(n: nat, k: nat) -> Seq<u8>
    decreases k,
{
    if k == 0 {
        Seq::empty()
    } else {
        be(n / 256, (k - 1) as nat).push((n % 256) as u8)
    }
}

/// The number that bytes spell, least significant first.
pub open spec fn le_value(s: Seq<u8>) -> nat
    decreases s.len(),
{
    if s.len() == 0 {
        0
    } else {
        s[0] as nat + 256 * le_value(s.skip(1))
    }
}

/// `le` yields exactly `k` bytes.
pub broadcast proof fn lemma_le_len(n: nat, k: nat)
    ensures
        #[trigger] le(n, k).len() == k,
    decreases k,
{
    if k > 0 {
        lemma_le_len(n / 256, (k - 1) as nat);
    }
}

/// A number that fits in `k` bytes is recovered from them.
pub proof fn le_is_read_back(n: nat, k: nat)
    requires
        n < pow(256, k),
    ensures
        le(n, k).len() == k,
        le_value(le(n, k)) == n,
    decreases k,
{
    if k == 0 {
        lemma_pow0(256);
    } else {
        lemma_pow_adds(256, 1, (k - 1) as nat);
        lemma_pow1(256);
        let p = pow(256, (k - 1) as nat);
        assert(n / 256 < p) by (nonlinear_arith)
            requires
                n < 256 * p,
        ;
        le_is_read_back(n / 256, (k - 1) as nat);
        assert(le(n, k).skip(1) =~= le(n / 256, (k - 1) as nat));
    }
}

/// Only the low sixteen bits of a number reach a two-byte field.
pub proof fn lemma_le2_wraps(n: nat)
    ensures
        le(n, 2) == le(n % 0x1_0000, 2),
{
    let r = n % 0x1_0000;
    lemma_mod_breakdown(n as int, 256, 256);
    let (a, b) = ((n / 256) % 256, n % 256);
    assert(r == 256 * a + b);
    assert(r % 256 == b && r / 256 == a);
    assert(le(n / 256, 1) =~= le(r / 256, 1)) by {
        reveal_with_fuel(le, 2);
    }
    assert(le(n, 2) =~= le(r, 2));
}

proof fn lemma_le4_halves(n: nat)
    ensures
        le(n, 4) == le(n, 2) + le(n / 0x1_0000, 2),
{
    reveal_with_fuel(le, 3);
    lemma_div_denominator(n as int, 256, 256);
    assert(le(n, 4) =~= le(n, 2) + le(n / 0x1_0000, 2));
}

/// How many numbers two, four and eight bytes can hold.
pub proof fn lemma_pow256()
    ensures
        pow(256, 2) == 0x1_0000,
        pow(256, 4) == 0x1_0000_0000,
        pow(256, 8) == 0x1_0000_0000_0000_0000,
{
    reveal_with_fuel(pow, 9);
}

/// Only the low 32 bits of a number reach a four-byte field.
pub proof fn lemma_le4_wraps(n: nat)
    ensures
        le(n, 4) == le(n % 0x1_0000_0000, 4),
{
    let r = n % 0x1_0000_0000;
    lemma_le4_halves(n);
    lemma_le4_halves(r);
    lemma_le2_wraps(n);
    lemma_le2_wraps(r);
    lemma_le2_wraps(n / 0x1_0000);
    lemma_mod_breakdown(n as int, 0x1_0000, 0x1_0000);
    let (a, b) = ((n / 0x1_0000) % 0x1_0000, n % 0x1_0000);
    assert(r == 0x1_0000 * a + b);
    assert(r % 0x1_0000 == b && r / 0x1_0000 == a);
}

/// Append the `k` low bytes of a number, least significant first.
fn push_le(v: &mut Vec<u8>, n: u64, k: u32)
    ensures
        final(v)@ == old(v)@ + le(n as nat, k as nat),
    decreases k,
{
    if k > 0 {
        v.push((n % 256) as u8);
        push_le(v, n / 256, k - 1);
        assert(v@ =~= old(v)@ + le(n as nat, k as nat));
    }
}

/// Append a 16-bit number, least significant byte first.
pub fn push_u16(v: &mut Vec<u8>, n: u16)
    ensures
        final(v)@ == old(v)@ + le(n as nat, 2),
{
    push_le(v, n as u64, 2);
}

/// Append a 32-bit number, least significant byte first.
pub fn push_u32(v: &mut Vec<u8>, n: u32)
    ensures
        final(v)@ == old(v)@ + le(n as nat, 4),
{
    push_le(v, n as u64, 4);
}

/// Append a 64-bit number, least significant byte first.
pub fn push_u64(v: &mut Vec<u8>, n: u64)
    ensures
        final(v)@ == old(v)@ + le(n as nat, 8),
{
    push_le(v, n, 8);
}

/// Append a 32-bit number, most significant byte first.
pub fn push_be32(v: &mut Vec<u8>, n: u32)
    ensures
        final(v)@ == old(v)@ + be(n as nat, 4),
{
    let a: u32 = n / 256;
    let b: u32 = a / 256;
    let c: u32 = b / 256;
    v.push((c % 256) as u8);
    v.push((b % 256) as u8);
    v.push((a % 256) as u8);
    v.push((n % 256) as u8);
    proof {
        reveal_with_fuel(be, 5);
    }
    assert(v@ =~= old(v)@ + be(n as nat, 4));
}

/// Append a slice of bytes.
pub fn push_bytes(v: &mut Vec<u8>, b: &[u8])
    ensures
        final(v)@ == old(v)@ + b@,
{
    let mut i: usize = 0;
    while i < b.len()
        invariant
            i <= b@.len(),
            v@ == old(v)@ + b@.take(i as int),
        decreases b@.len() - i,
    {
        v.push(b[i]);
        i = i + 1;
    }
}

proof fn lemma_le_value_bound(s: Seq<u8>)
    ensures
        le_value(s) < pow(256, s.len()),
    decreases s.len(),
{
    if s.len() == 0 {
        lemma_pow0(256);
    } else {
        lemma_le_value_bound(s.skip(1));
        lemma_pow_adds(256, 1, (s.len() - 1) as nat);
        lemma_pow1(256);
    }
}

/// The number that up to eight bytes spell, least significant first.
pub fn read_le(b: &[u8]) -> (n: u64)
    requires
        b@.len() <= 8,
    ensures
        n == le_value(b@),
{
    let mut n: u64 = 0;
    let mut i: usize = b.len();
    proof {
        lemma_pow0(256);
    }
    while i > 0
        invariant
            i <= b@.len() <= 8,
            n == le_value(b@.skip(i as int)),
        decreases i,
    {
        i = i - 1;
        proof {
            let rest = b@.skip(i as int);
            assert(rest.skip(1) =~= b@.skip(i + 1));
            lemma_le_value_bound(rest);
            reveal(pow);
            vstd::arithmetic::power::lemma_pow_increases(256, rest.len(), 8);
            assert(pow(256, 8) == 0x1_0000_0000_0000_0000) by {
                reveal_with_fuel(pow, 9);
            }
        }
        n = b[i] as u64 + 256 * n;
    }
    assert(b@.skip(0) =~= b@);
    n
}

/// Whether two byte strings are the same.
pub fn same_bytes(a: &[u8], b: &[u8]) -> (r: bool)
    ensures
        r == (a@ == b@),
{
    if a.len() != b.len() {
        return false;
    }
    let mut i: usize = 0;
    while i < a.len()
        invariant
            i <= a@.len(),
            a@.len() == b@.len(),
            forall|j: int| 0 <= j < i ==> a@[j] == b@[j],
        decreases a@.len() - i,
    {
        if a[i] != b[i] {
            return false;
        }
        i = i + 1;
    }
    assert(a@ =~= b@);
    true
}

/// Copy of a part of a byte string.
pub fn bytes_part(s: &[u8], from: usize, to: usize) -> (v: Vec<u8>)
    requires
        from <= to <= s@.len(),
    ensures
        v@ == s@.subrange(from as int, to as int),
{
    let mut v: Vec<u8> = Vec::new();
    let mut i: usize = from;
    while i < to
        invariant
            from <= i <= to <= s@.len(),
            v@ == s@.subrange(from as int, i as int),
        decreases to - i,
    {
        v.push(s[i]);
        i = i + 1;
    }
    v
}

// ---- Laws ----

/// Each byte of a number stands at its place: counted from the front in one byte order, from the
/// back in the other.
pub proof fn bytes_stand_by_place(n: nat, k: nat, i: nat)
    requires
        i < k,
    ensures
        le(n, k).len() == k,
        be(n, k).len() == k,
        le(n, k)[i as int] == ((n as int) / pow(256, i)) % 256,
        be(n, k)[k - 1 - i] == ((n as int) / pow(256, i)) % 256,
    decreases k,
{
    lemma_le_len(n, k);
    lemma_be_len(n, k);
    lemma_le_len(n / 256, (k - 1) as nat);
    lemma_be_len(n / 256, (k - 1) as nat);
    if i == 0 {
        lemma_pow0(256);
    } else {
        bytes_stand_by_place(n / 256, (k - 1) as nat, (i - 1) as nat);
        lemma_pow_adds(256, 1, (i - 1) as nat);
        lemma_pow1(256);
        lemma_pow_positive(256, (i - 1) as nat);
        lemma_div_denominator(n as int, 256, pow(256, (i - 1) as nat));
        assert(le(n, k)[i as int] == le(n / 256, (k - 1) as nat)[i - 1]);
        assert(be(n, k)[k - 1 - i] == be(n / 256, (k - 1) as nat)[k - 1 - i]);
    }
}

proof fn lemma_be_len(n: nat, k: nat)
    ensures
        be(n, k).len() == k,
    decreases k,
{
    if k > 0 {
        lemma_be_len(n / 256, (k - 1) as nat);
    }
}

/// The number that bytes spell, most significant first.
pub open spec fn be_value(s: Seq<u8>) -> nat
    decreases s.len(),
{
    if s.len() == 0 {
        0
    } else {
        256 * be_value(s.drop_last()) + s.last() as nat
    }
}

/// A number that fits in `k` bytes is recovered from them, in this byte order too.
pub proof fn be_is_read_back(n: nat, k: nat)
    requires
        n < pow(256, k),
    ensures
        be(n, k).len() == k,
        be_value(be(n, k)) == n,
    decreases k,
{
    if k == 0 {
        lemma_pow0(256);
    } else {
        lemma_pow_adds(256, 1, (k - 1) as nat);
        lemma_pow1(256);
        assert(n / 256 < pow(256, (k - 1) as nat)) by (nonlinear_arith)
            requires
                n < pow(256, k),
                pow(256, k) == 256 * pow(256, (k - 1) as nat),
        ;
        be_is_read_back(n / 256, (k - 1) as nat);
        assert(be(n, k).drop_last() =~= be(n / 256, (k - 1) as nat));
    }
}

} // verus!
