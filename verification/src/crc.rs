//! CRC-32 (IEEE), bit by bit in the specification and table-driven in the code.

use vstd::prelude::*;

verus! {

/// One bit of the CRC-32 division.
pub open spec fn crc_bit(c: u32) -> u32 {
    if c & 1 != 0 {
        0xEDB8_8320u32 ^ (c >> 1)
    } else {
        c >> 1
    }
}

/// Eight bits of the CRC-32 division.
pub open spec fn crc_octet(c: u32) -> u32 {
    crc_bit(crc_bit(crc_bit(crc_bit(crc_bit(crc_bit(crc_bit(crc_bit(c))))))))
}

/// The running remainder `c` after the bytes `data`.
pub open spec fn crc_run(c: u32, data: Seq<u8>) -> u32
    decreases data.len(),
{
    if data.len() == 0 {
        c
    } else {
        crc_octet(crc_run(c, data.drop_last()) ^ (data.last() as u32))
    }
}

/// The CRC-32 of `data`.
pub open spec fn crc32_of(data: Seq<u8>) -> u32 {
    !crc_run(0xFFFF_FFFF, data)
}

/// Running over two pieces in turn is running over both together.
pub proof fn crc_runs_in_pieces(c: u32, a: Seq<u8>, b: Seq<u8>)
    ensures
        crc_run(crc_run(c, a), b) == crc_run(c, a + b),
    decreases b.len(),
{
    if b.len() == 0 {
        assert(a + b =~= a);
    } else {
        crc_runs_in_pieces(c, a, b.drop_last());
        assert((a + b).drop_last() =~= a + b.drop_last());
    }
}

proof fn lemma_table_step(c: u32, b: u32)
    requires
        b < 256,
    ensures
        crc_octet(c ^ b) == (c >> 8) ^ crc_octet((c ^ b) & 0xff),
        (c ^ b) & 0xff < 256,
{
    assert(crc_octet(c ^ b) == (c >> 8) ^ crc_octet((c ^ b) & 0xff)) by (bit_vector)
        requires
            b < 256,
    ;
    assert((c ^ b) & 0xff < 256) by (bit_vector);
}

/// The table of the 256 one-byte remainders.
pub open spec fn is_crc_table(t: Seq<u32>) -> bool {
    t.len() == 256 && forall|i: int| 0 <= i < 256 ==> #[trigger] t[i] == crc_octet(i as u32)
}

fn step(c: u32) -> (r: u32)
    ensures
        r == crc_bit(c),
{
    if c & 1 != 0 {
        0xEDB8_8320 ^ (c >> 1)
    } else {
        c >> 1
    }
}

/// Build the 256-entry lookup table.
pub fn crc32_table() -> (t: Vec<u32>)
    ensures
        is_crc_table(t@),
{
    let mut t: Vec<u32> = Vec::new();
    let mut i: u32 = 0;
    while i < 256
        invariant
            i <= 256,
            t@.len() == i,
            forall|j: int| 0 <= j < i ==> #[trigger] t@[j] == crc_octet(j as u32),
        decreases 256 - i,
    {
        t.push(step(step(step(step(step(step(step(step(i)))))))));
        i = i + 1;
    }
    t
}

/// A CRC-32 in progress: the bytes seen so far, as their remainder.
pub struct Crc32 {
    table: Vec<u32>,
    state: u32,
}

impl Crc32 {
    /// The lookup table is complete.
    pub closed spec fn wf(&self) -> bool {
        is_crc_table(self.table@)
    }

    /// The running remainder.
    pub closed spec fn remainder(&self) -> u32 {
        self.state
    }

    /// Start with no bytes.
    pub fn new() -> (r: Crc32)
        ensures
            r.wf(),
            r.remainder() == crc_run(0xFFFF_FFFF, Seq::empty()),
    {
        Crc32 { table: crc32_table(), state: 0xFFFF_FFFF }
    }

    /// Take in more bytes.
    pub fn update(&mut self, data: &[u8])
        requires
            old(self).wf(),
        ensures
            final(self).wf(),
            final(self).remainder() == crc_run(old(self).remainder(), data@),
    {
        let mut i: usize = 0;
        while i < data.len()
            invariant
                i <= data@.len(),
                self.wf(),
                self.state == crc_run(old(self).state, data@.take(i as int)),
            decreases data@.len() - i,
        {
            let b: u32 = data[i] as u32;
            proof {
                assert(data@.take(i + 1).drop_last() =~= data@.take(i as int));
                lemma_table_step(self.state, b);
            }
            let at: u32 = (self.state ^ b) & 0xff;
            self.state = (self.state >> 8) ^ self.table[at as usize];
            i = i + 1;
        }
        assert(data@.take(i as int) =~= data@);
    }

    /// The CRC-32 of the bytes seen.
    pub fn finish(&self) -> (r: u32)
        ensures
            r == !self.remainder(),
    {
        !self.state
    }
}

/// The CRC-32 of a byte string.
pub fn crc32(data: &[u8]) -> (r: u32)
    ensures
        r == crc32_of(data@),
{
    let mut c = Crc32::new();
    c.update(data);
    c.finish()
}

// ---- Laws ----

proof fn lemma_octet_tells_apart(c: u32, d: u32)
    requires
        c != d,
    ensures
        crc_octet(c) != crc_octet(d),
{
    assert(forall|x: u32, y: u32| x != y ==> #[trigger] crc_bit(x) != #[trigger] crc_bit(y)) by {
        assert forall|x: u32, y: u32| x != y implies #[trigger] crc_bit(x) != #[trigger] crc_bit(y) by {
            assert(x != y ==> crc_bit(x) != crc_bit(y)) by (bit_vector);
        }
    }
}

proof fn lemma_run_tells_apart(c: u32, d: u32, data: Seq<u8>)
    requires
        c != d,
    ensures
        crc_run(c, data) != crc_run(d, data),
    decreases data.len(),
{
    if data.len() > 0 {
        lemma_run_tells_apart(c, d, data.drop_last());
        let (x, y, b) = (crc_run(c, data.drop_last()), crc_run(d, data.drop_last()), data.last() as u32);
        assert(x != y ==> x ^ b != y ^ b) by (bit_vector);
        lemma_octet_tells_apart(x ^ b, y ^ b);
    }
}

/// Two contents that differ in one byte, wherever it stands, have different checksums.
pub proof fn a_changed_byte_is_noticed(a: Seq<u8>, x: u8, y: u8, b: Seq<u8>)
    requires
        x != y,
    ensures
        crc32_of(a + seq![x] + b) != crc32_of(a + seq![y] + b),
{
    let init: u32 = 0xFFFF_FFFF;
    let (p, q) = (a + seq![x], a + seq![y]);
    crc_runs_in_pieces(init, p, b);
    crc_runs_in_pieces(init, q, b);
    assert(p.drop_last() =~= a && q.drop_last() =~= a);
    let c = crc_run(init, a);
    let (m, n) = (x as u32, y as u32);
    assert(m != n ==> c ^ m != c ^ n) by (bit_vector);
    lemma_octet_tells_apart(c ^ m, c ^ n);
    let (u, v) = (crc_run(init, p), crc_run(init, q));
    lemma_run_tells_apart(u, v, b);
    let (s, t) = (crc_run(u, b), crc_run(v, b));
    assert(s != t ==> !s != !t) by (bit_vector);
}

proof fn lemma_residue(s: u32)
    ensures
        crc_octet(
            crc_octet(
                crc_octet(crc_octet(s ^ (!s & 0xff)) ^ ((!s >> 8) & 0xff)) ^ ((!s >> 16) & 0xff),
            ) ^ ((!s >> 24) & 0xff),
        ) == 0xDEBB_20E3,
{
    assert(crc_octet(s ^ (!s & 0xff)) == (s >> 8) ^ crc_octet(0xff)) by (bit_vector);
    assert(crc_octet(((s >> 8) ^ crc_octet(0xff)) ^ ((!s >> 8) & 0xff)) == (s >> 16) ^ crc_octet(
        crc_octet(0xff) ^ 0xff,
    )) by (bit_vector);
    assert(crc_octet(
        ((s >> 16) ^ crc_octet(crc_octet(0xff) ^ 0xff)) ^ ((!s >> 16) & 0xff),
    ) == (s >> 24) ^ crc_octet(crc_octet(crc_octet(0xff) ^ 0xff) ^ 0xff)) by (bit_vector);
    assert(crc_octet(
        ((s >> 24) ^ crc_octet(crc_octet(crc_octet(0xff) ^ 0xff) ^ 0xff)) ^ ((!s >> 24) & 0xff),
    ) == 0xDEBB_20E3) by (bit_vector);
}

/// Contents followed by their own checksum, least significant byte first, leave the same remainder
/// whatever they are: the one that belongs to CRC-32.
pub proof fn checksums_leave_the_residue(data: Seq<u8>, b: Seq<u8>)
    requires
        b.len() == 4,
        forall|i: int|
            0 <= i < 4 ==> #[trigger] b[i] as u32 == (crc32_of(data) >> ((8 * i) as u32)) & 0xff,
    ensures
        crc_run(0xFFFF_FFFF, data + b) == 0xDEBB_20E3,
{
    let init: u32 = 0xFFFF_FFFF;
    let s = crc_run(init, data);
    crc_runs_in_pieces(init, data, b);
    let none = Seq::<u8>::empty();
    let (b1, b2, b3) = (b.take(1), b.take(2), b.take(3));
    assert(b.drop_last() =~= b3 && b3.drop_last() =~= b2 && b2.drop_last() =~= b1 && b1.drop_last()
        =~= none);
    let x = !s;
    assert(x >> 0u32 == x) by (bit_vector);
    assert(b[0] as u32 == x & 0xff);
    assert(b[1] as u32 == (x >> 8) & 0xff);
    assert(b[2] as u32 == (x >> 16) & 0xff);
    assert(b[3] as u32 == (x >> 24) & 0xff);
    assert(crc_run(s, none) == s);
    assert(b1.last() == b[0] && b2.last() == b[1] && b3.last() == b[2] && b.last() == b[3]);
    assert(crc_run(s, b1) == crc_octet(s ^ (x & 0xff)));
    assert(crc_run(s, b2) == crc_octet(crc_run(s, b1) ^ ((x >> 8) & 0xff)));
    assert(crc_run(s, b3) == crc_octet(crc_run(s, b2) ^ ((x >> 16) & 0xff)));
    assert(crc_run(s, b) == crc_octet(crc_run(s, b3) ^ ((x >> 24) & 0xff)));
    lemma_residue(s);
}

} // verus!
