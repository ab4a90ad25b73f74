//! Base64.

use vstd::prelude::*;
use vstd::string::*;
use crate::text::chars_of;

verus! {

/// The Base64 character of a number below 64.
pub open spec fn b64_char(n: nat) -> char {
    if n < 26 {
        ('A' as u32 + n) as char
    } else if n < 52 {
        ('a' as u32 + (n - 26)) as char
    } else if n < 62 {
        ('0' as u32 + (n - 52)) as char
    } else if n == 62 {
        '+'
    } else {
        '/'
    }
}

/// The number that a Base64 character stands for.
pub open spec fn b64_value(c: char) -> Option<nat> {
    if 'A' <= c <= 'Z' {
        Some((c as u32 - 'A' as u32) as nat)
    } else if 'a' <= c <= 'z' {
        Some((c as u32 - 'a' as u32 + 26) as nat)
    } else if '0' <= c <= '9' {
        Some((c as u32 - '0' as u32 + 52) as nat)
    } else if c == '+' {
        Some(62)
    } else if c == '/' {
        Some(63)
    } else {
        None
    }
}

/// The Base64 form of bytes: four characters for three bytes, with `=` for what is missing.
pub open spec fn b64(d: Seq<u8>) -> Seq<char>
    decreases d.len(),
{
    if d.len() == 0 {
        Seq::empty()
    } else if d.len() == 1 {
        seq![b64_char(d[0] as nat / 4), b64_char((d[0] as nat % 4) * 16), '=', '=']
    } else if d.len() == 2 {
        seq![
            b64_char(d[0] as nat / 4),
            b64_char((d[0] as nat % 4) * 16 + d[1] as nat / 16),
            b64_char((d[1] as nat % 16) * 4),
            '=',
        ]
    } else {
        seq![
            b64_char(d[0] as nat / 4),
            b64_char((d[0] as nat % 4) * 16 + d[1] as nat / 16),
            b64_char((d[1] as nat % 16) * 4 + d[2] as nat / 64),
            b64_char(d[2] as nat % 64),
        ] + b64(d.skip(3))
    }
}

/// Whether a character carries no value: white space and padding.
pub open spec fn is_filler(c: char) -> bool {
    c == ' ' || c == '\t' || c == '\n' || c == '\r' || c == '\x0C' || c == '='
}

/// The characters that carry a value.
pub open spec fn meat(s: Seq<char>) -> Seq<char>
    decreases s.len(),
{
    if s.len() == 0 {
        Seq::empty()
    } else if is_filler(s.last()) {
        meat(s.drop_last())
    } else {
        meat(s.drop_last()).push(s.last())
    }
}

/// Whether every character is a Base64 character.
pub open spec fn all_b64(s: Seq<char>) -> bool {
    forall|i: int| 0 <= i < s.len() ==> b64_value(#[trigger] s[i]) is Some
}

/// Value of a Base64 character at a position.
pub open spec fn sextet(s: Seq<char>, i: int) -> nat {
    b64_value(s[i]).unwrap_or(0)
}

/// The bytes that Base64 characters stand for: three for each four characters. Of a shorter last
/// group, as many bytes as it holds in full; a single character gives a byte too.
pub open spec fn unb64(s: Seq<char>) -> Seq<u8>
    decreases s.len(),
{
    if s.len() == 0 {
        Seq::empty()
    } else if s.len() == 1 {
        seq![(sextet(s, 0) * 4) as u8]
    } else if s.len() == 2 {
        seq![(sextet(s, 0) * 4 + sextet(s, 1) / 16) as u8]
    } else if s.len() == 3 {
        seq![
            (sextet(s, 0) * 4 + sextet(s, 1) / 16) as u8,
            ((sextet(s, 1) % 16) * 16 + sextet(s, 2) / 4) as u8,
        ]
    } else {
        seq![
            (sextet(s, 0) * 4 + sextet(s, 1) / 16) as u8,
            ((sextet(s, 1) % 16) * 16 + sextet(s, 2) / 4) as u8,
            ((sextet(s, 2) % 4) * 64 + sextet(s, 3)) as u8,
        ] + unb64(s.skip(4))
    }
}

/// The bytes that a Base64 text stands for, unless it holds something else.
pub open spec fn b64_bytes(s: Seq<char>) -> Option<Seq<u8>> {
    if all_b64(meat(s)) {
        Some(unb64(meat(s)))
    } else {
        None
    }
}

fn digit(n: u8) -> (c: char)
    requires
        n < 64,
    ensures
        c == b64_char(n as nat),
{
    if n < 26 {
        (65 + n) as char
    } else if n < 52 {
        (71 + n) as char
    } else if n < 62 {
        (n - 4) as char
    } else if n == 62 {
        '+'
    } else {
        '/'
    }
}

fn value(c: char) -> (r: Option<u8>)
    ensures
        match r {
            Some(v) => b64_value(c) == Some(v as nat) && v < 64,
            None => b64_value(c) is None,
        },
{
    if 'A' <= c && c <= 'Z' {
        Some(c as u8 - 65)
    } else if 'a' <= c && c <= 'z' {
        Some(c as u8 - 71)
    } else if '0' <= c && c <= '9' {
        Some(c as u8 + 4)
    } else if c == '+' {
        Some(62)
    } else if c == '/' {
        Some(63)
    } else {
        None
    }
}

/// Encode bytes as Base64.
pub fn b64_encode(data: &[u8]) -> (r: String)
    ensures
        r@ == b64(data@),
{
    let mut out = String::new();
    let len: usize = data.len();
    let mut i: usize = 0;
    assert(data@.skip(0) =~= data@);
    while len - i >= 3
        invariant
            len == data@.len(),
            i <= len,
            out@ + b64(data@.skip(i as int)) == b64(data@),
        decreases len - i,
    {
        let ghost rest = data@.skip(i as int);
        let ghost before = out@;
        let (a, b, c): (u8, u8, u8) = (data[i], data[i + 1], data[i + 2]);
        assert(rest[0] == a && rest[1] == b && rest[2] == c);
        assert(rest.skip(3) =~= data@.skip(i + 3));
        out.push(digit(a / 4));
        out.push(digit((a % 4) * 16 + b / 16));
        out.push(digit((b % 16) * 4 + c / 64));
        out.push(digit(c % 64));
        assert(out@ + b64(data@.skip(i + 3)) =~= before + b64(rest));
        i = i + 3;
    }
    let ghost rest = data@.skip(i as int);
    let ghost before = out@;
    if len - i == 1 {
        let a: u8 = data[i];
        assert(rest[0] == a);
        out.push(digit(a / 4));
        out.push(digit((a % 4) * 16));
        out.push('=');
        out.push('=');
    } else if len - i == 2 {
        let (a, b): (u8, u8) = (data[i], data[i + 1]);
        assert(rest[0] == a && rest[1] == b);
        out.push(digit(a / 4));
        out.push(digit((a % 4) * 16 + b / 16));
        out.push(digit((b % 16) * 4));
        out.push('=');
    }
    assert(out@ =~= before + b64(rest));
    out
}

fn values_of(s: &str) -> (r: Option<Vec<u8>>)
    ensures
        match r {
            Some(v) => {
                &&& all_b64(meat(s@))
                &&& v@.len() == meat(s@).len()
                &&& forall|i: int| 0 <= i < v@.len() ==> #[trigger] v@[i] == sextet(meat(s@), i) && v@[i] < 64
            },
            None => !all_b64(meat(s@)),
        },
{
    let t = chars_of(s);
    let mut v: Vec<u8> = Vec::new();
    let mut good: bool = true;
    let mut i: usize = 0;
    while i < t.len()
        invariant
            i <= t@.len(),
            t@ == s@,
            good == all_b64(meat(t@.take(i as int))),
            good ==> v@.len() == meat(t@.take(i as int)).len(),
            good ==> forall|j: int|
                0 <= j < v@.len() ==> #[trigger] v@[j] == sextet(meat(t@.take(i as int)), j) && v@[j] < 64,
        decreases t@.len() - i,
    {
        let c: char = t[i];
        let ghost before = meat(t@.take(i as int));
        let ghost now = meat(t@.take(i + 1));
        assert(t@.take(i + 1).drop_last() =~= t@.take(i as int));
        let filler: bool = c == ' ' || c == '\t' || c == '\n' || c == '\r' || c == '\x0C' || c
            == '=';
        if !filler {
            assert(now == before.push(c));
            assert(now[before.len() as int] == c);
            proof {
                assert(all_b64(now) == (all_b64(before) && b64_value(c) is Some)) by {
                    if all_b64(before) && b64_value(c) is Some {
                        assert forall|j: int| 0 <= j < now.len() implies b64_value(
                            #[trigger] now[j],
                        ) is Some by {
                            if j < before.len() {
                                assert(now[j] == before[j]);
                            }
                        }
                    }
                    if all_b64(now) {
                        assert forall|j: int| 0 <= j < before.len() implies b64_value(
                            #[trigger] before[j],
                        ) is Some by {
                            assert(now[j] == before[j]);
                        }
                    }
                }
            }
            match value(c) {
                Some(n) => {
                    if good {
                        v.push(n);
                    }
                },
                None => {
                    good = false;
                },
            }
        }
        i = i + 1;
    }
    assert(t@.take(i as int) =~= t@);
    if good {
        Some(v)
    } else {
        None
    }
}

/// Decode Base64. White space and padding are passed over wherever they stand.
pub fn b64_decode(s: &str) -> (r: Option<Vec<u8>>)
    ensures
        match r {
            Some(d) => b64_bytes(s@) == Some(d@),
            None => b64_bytes(s@) is None,
        },
{
    let v = match values_of(s) {
        Some(v) => v,
        None => {
            return None;
        },
    };
    let ghost m = meat(s@);
    let mut out: Vec<u8> = Vec::new();
    let len: usize = v.len();
    let mut i: usize = 0;
    assert(m.skip(0) =~= m);
    while len - i >= 4
        invariant
            len == v@.len(),
            i <= len,
            m.len() == len,
            forall|j: int| 0 <= j < v@.len() ==> #[trigger] v@[j] == sextet(m, j) && v@[j] < 64,
            out@ + unb64(m.skip(i as int)) == unb64(m),
        decreases len - i,
    {
        let ghost rest = m.skip(i as int);
        let ghost before = out@;
        let (a, b, c, d): (u8, u8, u8, u8) = (v[i], v[i + 1], v[i + 2], v[i + 3]);
        proof {
            assert(rest[0] == m[i as int] && rest[1] == m[i + 1] && rest[2] == m[i + 2] && rest[3]
                == m[i + 3]);
            assert(rest.skip(4) =~= m.skip(i + 4));
        }
        out.push(a * 4 + b / 16);
        out.push((b % 16) * 16 + c / 4);
        out.push((c % 4) * 64 + d);
        assert(out@ + unb64(m.skip(i + 4)) =~= before + unb64(rest));
        i = i + 4;
    }
    let ghost rest = m.skip(i as int);
    let ghost before = out@;
    let left: usize = len - i;
    if left == 1 {
        let a: u8 = v[i];
        assert(rest[0] == m[i as int]);
        out.push(a * 4);
    } else if left == 2 {
        let (a, b): (u8, u8) = (v[i], v[i + 1]);
        assert(rest[0] == m[i as int] && rest[1] == m[i + 1]);
        out.push(a * 4 + b / 16);
    } else if left == 3 {
        let (a, b, c): (u8, u8, u8) = (v[i], v[i + 1], v[i + 2]);
        assert(rest[0] == m[i as int] && rest[1] == m[i + 1] && rest[2] == m[i + 2]);
        out.push(a * 4 + b / 16);
        out.push((b % 16) * 16 + c / 4);
    }
    assert(out@ =~= before + unb64(rest));
    Some(out)
}

// ---- Laws ----

proof fn lemma_char_value(n: nat)
    requires
        n < 64,
    ensures
        b64_value(b64_char(n)) == Some(n),
        !is_filler(b64_char(n)),
{
}

proof fn lemma_meat_append(a: Seq<char>, b: Seq<char>)
    ensures
        meat(a + b) == meat(a) + meat(b),
    decreases b.len(),
{
    if b.len() == 0 {
        assert(a + b =~= a);
        assert(meat(a) + meat(b) =~= meat(a));
    } else {
        lemma_meat_append(a, b.drop_last());
        assert((a + b).drop_last() =~= a + b.drop_last());
        assert(meat(a + b) =~= meat(a) + meat(b));
    }
}

proof fn lemma_meat_four(a: char, b: char, c: char, d: char)
    requires
        !is_filler(a),
        !is_filler(b),
    ensures
        meat(seq![a, b, c, d]) == (seq![a, b] + (if is_filler(c) {
            Seq::empty()
        } else {
            seq![c]
        }) + (if is_filler(d) {
            Seq::empty()
        } else {
            seq![d]
        })),
{
    let s = seq![a, b, c, d];
    let s3 = seq![a, b, c];
    let s2 = seq![a, b];
    let s1 = seq![a];
    assert(s.drop_last() =~= s3);
    assert(s3.drop_last() =~= s2);
    assert(s2.drop_last() =~= s1);
    assert(s1.drop_last() =~= Seq::<char>::empty());
    assert(meat(s1.drop_last()) =~= Seq::<char>::empty());
    assert(meat(s1) =~= s1);
    assert(meat(s2) =~= s2);
    assert(meat(s3) =~= s2 + (if is_filler(c) {
        Seq::empty()
    } else {
        seq![c]
    }));
    assert(meat(s) =~= s2 + (if is_filler(c) {
        Seq::empty()
    } else {
        seq![c]
    }) + (if is_filler(d) {
        Seq::empty()
    } else {
        seq![d]
    }));
}

proof fn lemma_sextets(x: nat, y: nat, z: nat)
    requires
        x < 256,
        y < 256,
        z < 256,
    ensures
        x / 4 < 64,
        (x % 4) * 16 + y / 16 < 64,
        (y % 16) * 4 + z / 64 < 64,
        z % 64 < 64,
        (x / 4) * 4 + ((x % 4) * 16 + y / 16) / 16 == x,
        (((x % 4) * 16 + y / 16) % 16) * 16 + ((y % 16) * 4 + z / 64) / 4 == y,
        (((y % 16) * 4 + z / 64) % 4) * 64 + z % 64 == z,
{
}

proof fn lemma_short_groups(d: Seq<u8>)
    requires
        0 < d.len() < 3,
    ensures
        b64_bytes(b64(d)) == Some(d),
{
    let x = d[0] as nat;
    let y: nat = if d.len() > 1 {
        d[1] as nat
    } else {
        0
    };
    lemma_sextets(x, y, 0);
    let n0 = x / 4;
    let n1 = (x % 4) * 16 + y / 16;
    let n2 = (y % 16) * 4;
    lemma_char_value(n0);
    lemma_char_value(n1);
    lemma_char_value(n2);
    let c0 = b64_char(n0);
    let c1 = b64_char(n1);
    let c2 = b64_char(n2);
    let m = meat(b64(d));
    if d.len() == 1 {
        lemma_meat_four(c0, c1, '=', '=');
        assert(m =~= seq![c0, c1]);
    } else {
        lemma_meat_four(c0, c1, c2, '=');
        assert(m =~= seq![c0, c1, c2]);
    }
    assert(sextet(m, 0) == n0 && sextet(m, 1) == n1);
    assert(unb64(m) =~= d);
}

/// Decoding gives back the bytes that were encoded.
pub proof fn b64_is_read_back(d: Seq<u8>)
    ensures
        b64_bytes(b64(d)) == Some(d),
    decreases d.len(),
{
    if d.len() == 0 {
        assert(meat(b64(d)) =~= Seq::<char>::empty());
        assert(unb64(Seq::<char>::empty()) =~= d);
    } else if d.len() < 3 {
        lemma_short_groups(d);
    } else {
        let (x, y, z) = (d[0] as nat, d[1] as nat, d[2] as nat);
        lemma_sextets(x, y, z);
        let n0 = x / 4;
        let n1 = (x % 4) * 16 + y / 16;
        let n2 = (y % 16) * 4 + z / 64;
        let n3 = z % 64;
        lemma_char_value(n0);
        lemma_char_value(n1);
        lemma_char_value(n2);
        lemma_char_value(n3);
        let head = seq![b64_char(n0), b64_char(n1), b64_char(n2), b64_char(n3)];
        let tail = b64(d.skip(3));
        b64_is_read_back(d.skip(3));
        lemma_meat_four(b64_char(n0), b64_char(n1), b64_char(n2), b64_char(n3));
        lemma_meat_append(head, tail);
        assert(meat(head) =~= head);
        let m = meat(b64(d));
        assert(m == head + meat(tail));
        lemma_group(m, meat(tail), n0, n1, n2, n3);
        assert(seq![d[0], d[1], d[2]] + d.skip(3) =~= d);
    }
}

proof fn lemma_group(m: Seq<char>, tail: Seq<char>, n0: nat, n1: nat, n2: nat, n3: nat)
    requires
        n0 < 64,
        n1 < 64,
        n2 < 64,
        n3 < 64,
        m == seq![b64_char(n0), b64_char(n1), b64_char(n2), b64_char(n3)] + tail,
        all_b64(tail),
    ensures
        all_b64(m),
        unb64(m) == seq![
            (n0 * 4 + n1 / 16) as u8,
            ((n1 % 16) * 16 + n2 / 4) as u8,
            ((n2 % 4) * 64 + n3) as u8,
        ] + unb64(tail),
{
    lemma_char_value(n0);
    lemma_char_value(n1);
    lemma_char_value(n2);
    lemma_char_value(n3);
    assert(m.skip(4) =~= tail);
    assert forall|i: int| 0 <= i < m.len() implies b64_value(#[trigger] m[i]) is Some by {
        if i >= 4 {
            assert(m[i] == tail[i - 4]);
        }
    }
    assert(sextet(m, 0) == n0 && sextet(m, 1) == n1 && sextet(m, 2) == n2 && sextet(m, 3) == n3);
}

/// The 64 characters of Base64, in the order of their values.
pub open spec fn alphabet() -> Seq<char> {
    "ABCDEFGHIJKLMNOPQRSTUVWXYZabcdefghijklmnopqrstuvwxyz0123456789+/"@
}

/// A byte, or zero behind the end.
pub open spec fn byte_or_zero(d: Seq<u8>, i: int) -> int {
    if i < d.len() {
        d[i] as int
    } else {
        0
    }
}

/// Three bytes as one number, the first one foremost.
pub open spec fn triple(d: Seq<u8>, i: int) -> int {
    65536 * byte_or_zero(d, i) + 256 * byte_or_zero(d, i + 1) + byte_or_zero(d, i + 2)
}

/// The value that the last of `j + 1` characters for three bytes has.
pub open spec fn six_bits(v: int, j: int) -> int {
    if j == 0 {
        v / 262144
    } else if j == 1 {
        (v / 4096) % 64
    } else if j == 2 {
        (v / 64) % 64
    } else {
        v % 64
    }
}

proof fn lemma_alphabet(n: nat)
    requires
        n < 64,
    ensures
        b64_char(n) == alphabet()[n as int],
{
    reveal_strlit("ABCDEFGHIJKLMNOPQRSTUVWXYZabcdefghijklmnopqrstuvwxyz0123456789+/");
}

proof fn lemma_six_bits(x: nat, y: nat, z: nat)
    requires
        x < 256,
        y < 256,
        z < 256,
    ensures
        ({
            let v = (65536 * x + 256 * y + z) as int;
            &&& six_bits(v, 0) == x / 4
            &&& six_bits(v, 1) == (x % 4) * 16 + y / 16
            &&& six_bits(v, 2) == (y % 16) * 4 + z / 64
            &&& six_bits(v, 3) == z % 64
        }),
{
    let v = (65536 * x + 256 * y + z) as int;
    let (a, b) = (x / 4, x % 4);
    let (c, d) = (y / 16, y % 16);
    let (e, f) = (z / 64, z % 64);
    assert(v == 262144 * a + 4096 * (16 * b + c) + 64 * (4 * d + e) + f);
    let (p, q) = (16 * b + c, 4 * d + e);
    assert(p < 64 && q < 64 && f < 64);
    assert(v / 262144 == a);
    assert(v / 4096 == 64 * a + p);
    assert(v / 64 == 4096 * a + 64 * p + q);
}

/// Every three bytes are four characters, each of which stands for six bits, from the front; what
/// no byte fills at the end is an equals sign.
#[verifier::rlimit(40)]
pub proof fn characters_stand_for_six_bits(d: Seq<u8>, g: nat, j: int)
    requires
        3 * g < d.len(),
        0 <= j < 4,
    ensures
        b64(d).len() == 4 * ((d.len() + 2) / 3),
        b64(d)[4 * g + j] == (if 3 * g + j <= d.len() {
            alphabet()[six_bits(triple(d, 3 * g as int), j)]
        } else {
            '='
        }),
    decreases d.len(),
{
    lemma_b64_len(d);
    if g == 0 {
        let (x, y, z) = (
            byte_or_zero(d, 0) as nat,
            byte_or_zero(d, 1) as nat,
            byte_or_zero(d, 2) as nat,
        );
        lemma_six_bits(x, y, z);
        lemma_sextets(x, y, z);
        lemma_alphabet(x / 4);
        lemma_alphabet((x % 4) * 16 + y / 16);
        lemma_alphabet((y % 16) * 4 + z / 64);
        lemma_alphabet(z % 64);
    } else {
        let rest = d.skip(3);
        characters_stand_for_six_bits(rest, (g - 1) as nat, j);
        assert(b64(d)[4 * g + j] == b64(rest)[4 * (g - 1) + j]);
        let i = 3 * (g - 1);
        assert(byte_or_zero(rest, i) == byte_or_zero(d, i + 3));
        assert(byte_or_zero(rest, i + 1) == byte_or_zero(d, i + 4));
        assert(byte_or_zero(rest, i + 2) == byte_or_zero(d, i + 5));
    }
}

proof fn lemma_b64_len(d: Seq<u8>)
    ensures
        b64(d).len() == 4 * ((d.len() + 2) / 3),
    decreases d.len(),
{
    if d.len() >= 3 {
        lemma_b64_len(d.skip(3));
    }
}

/// White space and equals signs are passed over wherever they stand, and nothing else is.
pub proof fn fillers_are_passed_over(a: Seq<char>, c: char, b: Seq<char>)
    requires
        seq![' ', '\t', '\n', '\r', '\x0C', '='].contains(c),
    ensures
        b64_bytes(a + seq![c] + b) == b64_bytes(a + b),
{
    let all = seq![' ', '\t', '\n', '\r', '\x0C', '='];
    let k = choose|k: int| 0 <= k < all.len() && all[k] == c;
    assert(is_filler(c));
    let one = seq![c];
    let none = Seq::<char>::empty();
    assert(one.drop_last() =~= none);
    assert(meat(none) =~= none);
    assert(one.last() == c);
    assert(meat(one) == meat(one.drop_last()));
    lemma_meat_append(a, one);
    lemma_meat_append(a + one, b);
    lemma_meat_append(a, b);
    assert(meat(a) + none =~= meat(a));
}

/// A text with any other character than those of Base64, white space and equals signs is refused.
pub proof fn foreign_characters_are_refused(s: Seq<char>)
    ensures
        b64_bytes(s) is Some <==> forall|i: int|
            0 <= i < s.len() ==> alphabet().contains(#[trigger] s[i]) || is_filler(s[i]),
    decreases s.len(),
{
    reveal_strlit("ABCDEFGHIJKLMNOPQRSTUVWXYZabcdefghijklmnopqrstuvwxyz0123456789+/");
    if s.len() > 0 {
        let rest = s.drop_last();
        let c = s.last();
        foreign_characters_are_refused(rest);
        lemma_value_of(c);
        let m = meat(s);
        if b64_bytes(s) is Some {
            assert forall|i: int| 0 <= i < meat(rest).len() implies b64_value(
                #[trigger] meat(rest)[i],
            ) is Some by {
                assert(m[i] == meat(rest)[i]);
            }
            if !is_filler(c) {
                assert(m[m.len() - 1] == c);
            }
            assert forall|i: int| 0 <= i < s.len() implies alphabet().contains(#[trigger] s[i])
                || is_filler(s[i]) by {
                if i < rest.len() {
                    assert(rest[i] == s[i]);
                }
            }
        }
        if forall|i: int|
            0 <= i < s.len() ==> alphabet().contains(#[trigger] s[i]) || is_filler(s[i]) {
            assert forall|i: int| 0 <= i < rest.len() implies alphabet().contains(#[trigger] rest[i])
                || is_filler(rest[i]) by {
                assert(rest[i] == s[i]);
            }
            assert(alphabet().contains(s[s.len() - 1]) || is_filler(c));
            assert forall|i: int| 0 <= i < m.len() implies b64_value(#[trigger] m[i]) is Some by {
                if i < meat(rest).len() {
                    assert(m[i] == meat(rest)[i]);
                }
            }
        }
    }
}

proof fn lemma_value_of(c: char)
    ensures
        b64_value(c) is Some <==> alphabet().contains(c),
{
    reveal_strlit("ABCDEFGHIJKLMNOPQRSTUVWXYZabcdefghijklmnopqrstuvwxyz0123456789+/");
    if b64_value(c) is Some {
        let n = b64_value(c)->0;
        assert(alphabet()[n as int] == c) by {
            lemma_alphabet(n);
            assert(b64_char(n) == c);
        }
    }
    if alphabet().contains(c) {
        let k = choose|k: int| 0 <= k < alphabet().len() && alphabet()[k] == c;
        lemma_alphabet(k as nat);
        lemma_char_value(k as nat);
    }
}

/// The value of a character, or zero behind the end.
pub open spec fn value_or_zero(s: Seq<char>, i: int) -> int {
    if i < s.len() {
        b64_value(s[i]).unwrap_or(0) as int
    } else {
        0
    }
}

/// Four characters as one number, the first one foremost.
pub open spec fn quad(s: Seq<char>, i: int) -> int {
    262144 * value_or_zero(s, i) + 4096 * value_or_zero(s, i + 1) + 64 * value_or_zero(s, i + 2)
        + value_or_zero(s, i + 3)
}

/// The byte that the last of `j + 1` bytes of four characters is.
pub open spec fn eight_bits(v: int, j: int) -> int {
    if j == 0 {
        v / 65536
    } else if j == 1 {
        (v / 256) % 256
    } else {
        v % 256
    }
}

proof fn lemma_eight_bits(a: nat, b: nat, c: nat, d: nat)
    requires
        a < 64,
        b < 64,
        c < 64,
        d < 64,
    ensures
        ({
            let v = (262144 * a + 4096 * b + 64 * c + d) as int;
            &&& eight_bits(v, 0) == (a * 4 + b / 16) as u8
            &&& eight_bits(v, 1) == ((b % 16) * 16 + c / 4) as u8
            &&& eight_bits(v, 2) == ((c % 4) * 64 + d) as u8
        }),
{
    let v = (262144 * a + 4096 * b + 64 * c + d) as int;
    let (p, q) = (b / 16, b % 16);
    let (r, t) = (c / 4, c % 4);
    let (x, y, z) = (a * 4 + p, q * 16 + r, t * 64 + d);
    assert(v == 65536 * x + 256 * y + z);
    assert(x < 256 && y < 256 && z < 256);
    assert(v / 65536 == x);
    assert(v / 256 == 256 * x + y);
}

/// Every four characters are three bytes, of eight bits each, from the front. Of a shorter last
/// group come as many bytes as it fills, and one from a single character.
#[verifier::rlimit(40)]
pub proof fn bytes_stand_for_eight_bits(s: Seq<char>, g: nat, j: int)
    requires
        0 <= j < 3,
        4 * g < s.len(),
        j == 0 || 4 * g + j + 1 < s.len(),
    ensures
        3 * g + j < unb64(s).len(),
        unb64(s)[3 * g + j] == eight_bits(quad(s, 4 * g as int), j),
        unb64(s).len() == 3 * (s.len() / 4) + (if s.len() % 4 <= 1 {
            s.len() as int % 4
        } else {
            s.len() % 4 - 1
        }),
    decreases s.len(),
{
    lemma_unb64_len(s);
    if g == 0 {
        let (a, b, c, d) = (
            value_or_zero(s, 0) as nat,
            value_or_zero(s, 1) as nat,
            value_or_zero(s, 2) as nat,
            value_or_zero(s, 3) as nat,
        );
        lemma_eight_bits(a, b, c, d);
    } else {
        let rest = s.skip(4);
        bytes_stand_for_eight_bits(rest, (g - 1) as nat, j);
        let i = 4 * (g - 1);
        assert(value_or_zero(rest, i) == value_or_zero(s, i + 4));
        assert(value_or_zero(rest, i + 1) == value_or_zero(s, i + 5));
        assert(value_or_zero(rest, i + 2) == value_or_zero(s, i + 6));
        assert(value_or_zero(rest, i + 3) == value_or_zero(s, i + 7));
        assert(unb64(s)[3 * g + j] == unb64(rest)[3 * (g - 1) + j]);
    }
}

proof fn lemma_unb64_len(s: Seq<char>)
    ensures
        unb64(s).len() == 3 * (s.len() / 4) + (if s.len() % 4 <= 1 {
            s.len() as int % 4
        } else {
            s.len() % 4 - 1
        }),
    decreases s.len(),
{
    if s.len() >= 4 {
        lemma_unb64_len(s.skip(4));
    }
}

} // verus!
