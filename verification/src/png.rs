//! PNG files without compression, for window captures.

use vstd::prelude::*;
use vstd::arithmetic::div_mod::{lemma_add_mod_noop, lemma_mod_breakdown, lemma_mod_twice};
use crate::bytes::{
    be, be_is_read_back, be_value, bytes_part, le, le_is_read_back, le_value, lemma_le_len,
    lemma_pow256, push_be32, push_bytes, push_u16,
};
use crate::crc::{crc32, crc32_of};

verus! {

// ---- Stored zlib streams ----

/// The two sums of Adler-32: of the bytes, and of the sums so far.
pub open spec fn adler(d: Seq<u8>) -> (nat, nat)
    decreases d.len(),
{
    if d.len() == 0 {
        (1, 0)
    } else {
        let (a, b) = adler(d.drop_last());
        let a2 = (a + d.last() as nat) % 65521;
        (a2, (b + a2) % 65521)
    }
}

/// The Adler-32 checksum.
pub open spec fn adler32(d: Seq<u8>) -> nat {
    adler(d).1 * 0x1_0000 + adler(d).0
}

/// The header of a stored block: whether it is the last, its length, and the length inverted.
pub open spec fn block_head(last: bool, len: nat) -> Seq<u8> {
    seq![if last {
        1u8
    } else {
        0u8
    }] + le(len, 2) + le((0xFFFF - len) as nat, 2)
}

/// Bytes as stored blocks of at most 65535 bytes.
pub open spec fn stored_blocks(d: Seq<u8>) -> Seq<u8>
    decreases d.len(),
{
    if d.len() == 0 {
        Seq::empty()
    } else if d.len() <= 0xFFFF {
        block_head(true, d.len()) + d
    } else {
        block_head(false, 0xFFFF) + d.take(0xFFFF) + stored_blocks(d.skip(0xFFFF))
    }
}

/// Bytes as a zlib stream without compression.
pub open spec fn zlib(d: Seq<u8>) -> Seq<u8> {
    seq![0x78u8, 0x01u8] + stored_blocks(d) + be(adler32(d), 4)
}

/// Write bytes as a zlib stream without compression.
pub fn zlib_stored(data: &[u8]) -> (out: Vec<u8>)
    ensures
        out@ == zlib(data@),
{
    let mut out: Vec<u8> = Vec::new();
    out.push(0x78);
    out.push(0x01);
    let ghost head = seq![0x78u8, 0x01u8];
    assert(out@ =~= head);
    let len: usize = data.len();
    let mut i: usize = 0;
    assert(data@.skip(0) =~= data@);
    assert(out@ + stored_blocks(data@) =~= head + stored_blocks(data@));
    while i < len
        invariant
            len == data@.len(),
            i <= len,
            out@ + stored_blocks(data@.skip(i as int)) == head + stored_blocks(data@),
        decreases len - i,
    {
        let ghost rest = data@.skip(i as int);
        let ghost before = out@;
        let n: usize = if len - i <= 0xFFFF {
            len - i
        } else {
            0xFFFF
        };
        let last: bool = len - i <= 0xFFFF;
        out.push(
            if last {
                1
            } else {
                0
            },
        );
        push_u16(&mut out, n as u16);
        push_u16(&mut out, 0xFFFF - n as u16);
        let block = bytes_part(data, i, i + n);
        push_bytes(&mut out, &block);
        proof {
            assert(block@ =~= rest.take(n as int));
            assert(rest.skip(n as int) =~= data@.skip(i + n));
            if last {
                assert(rest.take(n as int) =~= rest);
                assert(data@.skip(i + n) =~= Seq::<u8>::empty());
            }
            assert(out@ =~= before + (block_head(last, n as nat) + block@));
            assert(out@ + stored_blocks(data@.skip(i + n)) =~= before + stored_blocks(rest));
        }
        i = i + n;
    }
    assert(data@.skip(i as int) =~= Seq::<u8>::empty());
    assert(out@ =~= head + stored_blocks(data@));
    let mut a: u32 = 1;
    let mut b: u32 = 0;
    let mut k: usize = 0;
    while k < len
        invariant
            len == data@.len(),
            k <= len,
            a < 65521,
            b < 65521,
            (a as nat, b as nat) == adler(data@.take(k as int)),
        decreases len - k,
    {
        assert(data@.take(k + 1).drop_last() =~= data@.take(k as int));
        a = (a + data[k] as u32) % 65521;
        b = (b + a) % 65521;
        k = k + 1;
    }
    assert(data@.take(k as int) =~= data@);
    push_be32(&mut out, b * 0x1_0000 + a);
    assert(out@ =~= zlib(data@));
    out
}

// ---- PNG ----

/// A PNG chunk: length, type, data, and the CRC-32 of type and data.
pub open spec fn chunk(typ: Seq<u8>, data: Seq<u8>) -> Seq<u8> {
    be(data.len(), 4) + (typ + data) + be(crc32_of(typ + data) as nat, 4)
}

proof fn lemma_be4_wraps(n: nat)
    ensures
        be(n, 4) == be(n % 0x1_0000_0000, 4),
{
    let r = n % 0x1_0000_0000;
    let n1 = n / 256;
    let n2 = n1 / 256;
    let n3 = n2 / 256;
    lemma_mod_breakdown(n as int, 256, 0x100_0000);
    lemma_mod_breakdown(n1 as int, 256, 0x1_0000);
    lemma_mod_breakdown(n2 as int, 256, 256);
    let r3 = n3 % 256;
    let r2 = n2 % 0x1_0000;
    let r1 = n1 % 0x100_0000;
    assert(r2 == 256 * r3 + n2 % 256);
    assert(r1 == 256 * r2 + n1 % 256);
    assert(r == 256 * r1 + n % 256);
    assert(r % 256 == n % 256 && r / 256 == r1);
    assert(r1 % 256 == n1 % 256 && r1 / 256 == r2);
    assert(r2 % 256 == n2 % 256 && r2 / 256 == r3);
    reveal_with_fuel(be, 5);
    assert(be(n, 4) =~= be(r, 4));
}

/// Append a PNG chunk.
pub fn write_chunk(out: &mut Vec<u8>, typ: &[u8; 4], data: &[u8])
    ensures
        final(out)@ == old(out)@ + chunk(typ@, data@),
{
    let len: u64 = data.len() as u64;
    proof {
        lemma_be4_wraps(len as nat);
    }
    push_be32(out, (len % 0x1_0000_0000) as u32);
    let mut cd: Vec<u8> = Vec::new();
    push_bytes(&mut cd, typ);
    push_bytes(&mut cd, data);
    assert(cd@ =~= typ@ + data@);
    push_bytes(out, &cd);
    push_be32(out, crc32(&cd));
    assert(out@ =~= old(out)@ + chunk(typ@, data@));
}

/// The first `h` rows of pixels, each behind a byte that says it is not filtered.
pub open spec fn unfiltered(stride: nat, rgba: Seq<u8>, h: nat) -> Seq<u8>
    decreases h,
{
    if h == 0 {
        Seq::empty()
    } else {
        unfiltered(stride, rgba, (h - 1) as nat) + seq![0u8] + rgba.subrange(
            stride * (h - 1),
            (stride * h) as int,
        )
    }
}

/// What a PNG file starts with.
pub open spec fn signature() -> Seq<u8> {
    seq![0x89u8, 0x50u8, 0x4Eu8, 0x47u8, 0x0Du8, 0x0Au8, 0x1Au8, 0x0Au8]
}

/// A PNG file of RGBA pixels, eight bits a channel.
pub open spec fn png_file(w: nat, h: nat, rgba: Seq<u8>) -> Seq<u8> {
    signature() + chunk(
        seq![0x49u8, 0x48u8, 0x44u8, 0x52u8],
        be(w, 4) + be(h, 4) + seq![8u8, 6u8, 0u8, 0u8, 0u8],
    ) + chunk(seq![0x49u8, 0x44u8, 0x41u8, 0x54u8], zlib(unfiltered(4 * w, rgba, h))) + chunk(
        seq![0x49u8, 0x45u8, 0x4Eu8, 0x44u8],
        Seq::empty(),
    )
}

fn rows(w: usize, h: usize, rgba: &[u8]) -> (raw: Vec<u8>)
    requires
        4 * w * h <= rgba@.len(),
    ensures
        raw@ == unfiltered((4 * w) as nat, rgba@, h as nat),
{
    let mut raw: Vec<u8> = Vec::new();
    let len: usize = rgba.len();
    let mut y: usize = 0;
    let mut at: usize = 0;
    while y < h
        invariant
            y <= h,
            len == rgba@.len(),
            at == (4 * w) * y,
            4 * w * h <= len,
            raw@ == unfiltered((4 * w) as nat, rgba@, y as nat),
        decreases h - y,
    {
        proof {
            assert((4 * w) * (y + 1) == (4 * w) * y + 4 * w) by (nonlinear_arith);
            assert((4 * w) * (y + 1) <= 4 * w * h) by (nonlinear_arith)
                requires
                    y + 1 <= h,
                    0 <= w,
            ;
        }
        raw.push(0);
        let row = bytes_part(rgba, at, at + 4 * w);
        push_bytes(&mut raw, &row);
        at = at + 4 * w;
        y = y + 1;
        assert(raw@ =~= unfiltered((4 * w) as nat, rgba@, y as nat));
    }
    raw
}

/// Write RGBA pixels as a PNG file.
pub fn png_bytes(w: usize, h: usize, rgba: &[u8]) -> (png: Vec<u8>)
    requires
        4 * w * h <= rgba@.len(),
    ensures
        png@ == png_file(w as nat, h as nat, rgba@),
{
    let raw = rows(w, h, rgba);
    let mut png: Vec<u8> = vec![0x89, 0x50, 0x4E, 0x47, 0x0D, 0x0A, 0x1A, 0x0A];
    assert(png@ =~= signature());
    let mut ihdr: Vec<u8> = Vec::new();
    let w64: u64 = w as u64;
    let h64: u64 = h as u64;
    proof {
        lemma_be4_wraps(w as nat);
        lemma_be4_wraps(h as nat);
    }
    push_be32(&mut ihdr, (w64 % 0x1_0000_0000) as u32);
    push_be32(&mut ihdr, (h64 % 0x1_0000_0000) as u32);
    ihdr.push(8);
    ihdr.push(6);
    ihdr.push(0);
    ihdr.push(0);
    ihdr.push(0);
    assert(ihdr@ =~= be(w as nat, 4) + be(h as nat, 4) + seq![8u8, 6u8, 0u8, 0u8, 0u8]);
    let t1: [u8; 4] = [0x49, 0x48, 0x44, 0x52];
    let t2: [u8; 4] = [0x49, 0x44, 0x41, 0x54];
    let t3: [u8; 4] = [0x49, 0x45, 0x4E, 0x44];
    let none: Vec<u8> = Vec::new();
    proof {
        assert(t1@ =~= seq![0x49u8, 0x48u8, 0x44u8, 0x52u8]);
        assert(t2@ =~= seq![0x49u8, 0x44u8, 0x41u8, 0x54u8]);
        assert(t3@ =~= seq![0x49u8, 0x45u8, 0x4Eu8, 0x44u8]);
        assert(none@ =~= Seq::<u8>::empty());
    }
    write_chunk(&mut png, &t1, &ihdr);
    write_chunk(&mut png, &t2, &zlib_stored(&raw));
    write_chunk(&mut png, &t3, &none);
    png
}

// ---- Laws ----

/// The bytes that stored blocks hold, up to the last block, and what follows them.
pub open spec fn unstored(s: Seq<u8>) -> Option<(Seq<u8>, Seq<u8>)>
    decreases s.len(),
{
    if s.len() < 5 {
        None
    } else {
        let len = le_value(s.subrange(1, 3)) as int;
        if le_value(s.subrange(3, 5)) != 0xFFFF - len || s.len() < 5 + len {
            None
        } else if s[0] == 1 {
            Some((s.subrange(5, 5 + len), s.skip(5 + len)))
        } else {
            match unstored(s.skip(5 + len)) {
                Some((rest, tail)) => Some((s.subrange(5, 5 + len) + rest, tail)),
                None => None,
            }
        }
    }
}

proof fn lemma_block(last: bool, body: Seq<u8>, tail: Seq<u8>)
    requires
        body.len() <= 0xFFFF,
    ensures
        ({
            let s = block_head(last, body.len()) + body + tail;
            &&& s.len() >= 5 + body.len()
            &&& s[0] == (if last {
                1u8
            } else {
                0u8
            })
            &&& le_value(s.subrange(1, 3)) == body.len()
            &&& le_value(s.subrange(3, 5)) == 0xFFFF - body.len()
            &&& s.subrange(5, 5 + body.len() as int) == body
            &&& s.skip(5 + body.len() as int) == tail
        }),
{
    broadcast use lemma_le_len;

    let n = body.len();
    assert(vstd::arithmetic::power::pow(256, 2) == 0x1_0000) by {
        reveal_with_fuel(vstd::arithmetic::power::pow, 3);
    }
    le_is_read_back(n, 2);
    le_is_read_back((0xFFFF - n) as nat, 2);
    let s = block_head(last, n) + body + tail;
    assert(s.subrange(1, 3) =~= le(n, 2));
    assert(s.subrange(3, 5) =~= le((0xFFFF - n) as nat, 2));
    assert(s.subrange(5, 5 + n as int) =~= body);
    assert(s.skip(5 + n as int) =~= tail);
}

/// A zlib stream without compression unpacks to the bytes it was made from.
pub proof fn stored_blocks_unpack(d: Seq<u8>, tail: Seq<u8>)
    requires
        d.len() > 0,
    ensures
        unstored(stored_blocks(d) + tail) == Some((d, tail)),
    decreases d.len(),
{
    if d.len() <= 0xFFFF {
        lemma_block(true, d, tail);
    } else {
        let body = d.take(0xFFFF);
        let rest = d.skip(0xFFFF);
        let more = stored_blocks(rest) + tail;
        stored_blocks_unpack(rest, tail);
        lemma_block(false, body, more);
        assert(stored_blocks(d) + tail =~= block_head(false, 0xFFFF) + body + more);
        assert(body + rest =~= d);
    }
}

/// The sum of bytes.
pub open spec fn plain_sum(d: Seq<u8>) -> nat
    decreases d.len(),
{
    if d.len() == 0 {
        0
    } else {
        d[0] as nat + plain_sum(d.skip(1))
    }
}

/// The sum of bytes, each counted once for every byte from it to the end.
pub open spec fn weighted_sum(d: Seq<u8>) -> nat
    decreases d.len(),
{
    if d.len() == 0 {
        0
    } else {
        d.len() * (d[0] as nat) + weighted_sum(d.skip(1))
    }
}

proof fn lemma_sums_push(d: Seq<u8>, x: u8)
    ensures
        plain_sum(d.push(x)) == plain_sum(d) + x,
        weighted_sum(d.push(x)) == weighted_sum(d) + plain_sum(d) + x,
    decreases d.len(),
{
    let t = d.push(x);
    if d.len() == 0 {
        assert(t.skip(1) =~= d);
        assert(t[0] == x);
    } else {
        lemma_sums_push(d.skip(1), x);
        assert(t.skip(1) =~= d.skip(1).push(x));
        assert(t[0] == d[0]);
        let (n, b) = (d.len(), d[0] as nat);
        assert((n + 1) * b == n * b + b) by (nonlinear_arith);
    }
}

/// Adler-32 in closed form: one more than the sum of the bytes, and the sum of what that is after
/// each byte, both modulo 65521.
pub proof fn adler_is_two_sums(d: Seq<u8>)
    ensures
        adler(d).0 == (1 + plain_sum(d)) % 65521,
        adler(d).1 == (d.len() + weighted_sum(d)) % 65521,
    decreases d.len(),
{
    if d.len() > 0 {
        let rest = d.drop_last();
        let x = d.last();
        adler_is_two_sums(rest);
        lemma_sums_push(rest, x);
        assert(rest.push(x) =~= d);
        let (s, w) = (1 + plain_sum(rest) as int, rest.len() + weighted_sum(rest) as int);
        lemma_add_mod_noop(s, x as int, 65521);
        assert((s % 65521 + x as int) % 65521 == (s + x) % 65521) by {
            lemma_add_mod_noop(s % 65521, x as int, 65521);
            lemma_mod_twice(s, 65521);
        }
        let a = (s + x) % 65521;
        assert((w % 65521 + a) % 65521 == (w + (s + x)) % 65521) by {
            lemma_add_mod_noop(w, s + x, 65521);
        }
    }
}

/// The type and the data of the chunk that a PNG file goes on with, and what follows it; none unless
/// its checksum is right.
#[verifier::opaque]
pub open spec fn read_chunk(s: Seq<u8>) -> Option<(Seq<u8>, Seq<u8>, Seq<u8>)> {
    let n = be_value(s.take(4)) as int;
    if s.len() < 12 || s.len() < 12 + n {
        None
    } else if be_value(s.subrange(8 + n, 12 + n)) != crc32_of(s.subrange(4, 8 + n)) {
        None
    } else {
        Some((s.subrange(4, 8), s.subrange(8, 8 + n), s.skip(12 + n)))
    }
}

/// A chunk is read back, whatever follows it.
pub proof fn chunks_are_read_back(typ: Seq<u8>, data: Seq<u8>, rest: Seq<u8>)
    requires
        typ.len() == 4,
        data.len() < 0x1_0000_0000,
    ensures
        read_chunk(chunk(typ, data) + rest) == Some((typ, data, rest)),
{
    reveal(read_chunk);
    lemma_pow256();
    be_is_read_back(data.len(), 4);
    be_is_read_back(crc32_of(typ + data) as nat, 4);
    let s = chunk(typ, data) + rest;
    let n = data.len() as int;
    assert(s.take(4) =~= be(data.len(), 4));
    assert(s.subrange(8 + n, 12 + n) =~= be(crc32_of(typ + data) as nat, 4));
    assert(s.subrange(4, 8 + n) =~= typ + data);
    assert(s.subrange(4, 8) =~= typ);
    assert(s.subrange(8, 8 + n) =~= data);
    assert(s.skip(12 + n) =~= rest);
}

/// The rows of a picture in order: each is a zero, for no filter, and its bytes.
#[verifier::rlimit(40)]
pub proof fn rows_stand_in_order(stride: nat, rgba: Seq<u8>, h: nat, y: nat)
    requires
        y < h,
        stride * h <= rgba.len(),
    ensures
        unfiltered(stride, rgba, h).len() == (stride + 1) * h,
        (stride + 1) * y + stride + 1 <= (stride + 1) * h,
        unfiltered(stride, rgba, h).subrange(
            ((stride + 1) * y) as int,
            ((stride + 1) * y + stride + 1) as int,
        ) == seq![0u8] + rgba.subrange((stride * y) as int, (stride * y + stride) as int),
    decreases h,
{
    let g = (h - 1) as nat;
    let (p, q) = ((stride + 1) * g, (stride + 1) * y);
    assert((stride + 1) * h == p + stride + 1 && stride * h == stride * g + stride) by (nonlinear_arith)
        requires
            h == g + 1,
            p == (stride + 1) * g,
    ;
    lemma_rows_len(stride, rgba, g);
    let front = unfiltered(stride, rgba, g);
    let row = rgba.subrange((stride * g) as int, (stride * h) as int);
    let all = unfiltered(stride, rgba, h);
    assert(all == front + seq![0u8] + row);
    if y == g {
        assert(all.subrange(q as int, (q + stride + 1) as int) =~= seq![0u8] + row);
    } else {
        rows_stand_in_order(stride, rgba, g, y);
        assert(all.subrange(q as int, (q + stride + 1) as int) =~= front.subrange(
            q as int,
            (q + stride + 1) as int,
        ));
    }
}

proof fn lemma_rows_len(stride: nat, rgba: Seq<u8>, h: nat)
    requires
        stride * h <= rgba.len(),
    ensures
        unfiltered(stride, rgba, h).len() == (stride + 1) * h,
    decreases h,
{
    if h > 0 {
        let g = (h - 1) as nat;
        assert((stride + 1) * h == (stride + 1) * g + stride + 1 && stride * h == stride * g + stride)
            by (nonlinear_arith)
            requires
                h == g + 1,
        ;
        lemma_rows_len(stride, rgba, g);
        let row = rgba.subrange((stride * g) as int, (stride * h) as int);
        assert(unfiltered(stride, rgba, h) == unfiltered(stride, rgba, g) + seq![0u8] + row);
        assert(row.len() == stride);
    } else {
        assert((stride + 1) * h == 0) by (nonlinear_arith)
            requires
                h == 0,
        ;
    }
}

/// The bytes in a zlib stream of stored blocks; none unless its checksum is right.
#[verifier::opaque]
pub open spec fn read_zlib(z: Seq<u8>) -> Option<Seq<u8>> {
    if z.len() < 2 || z[0] != 0x78 || z[1] != 1 {
        None
    } else {
        match unstored(z.skip(2)) {
            Some((raw, sum)) => if sum.len() == 4 && be_value(sum) == told_sum(raw) {
                Some(raw)
            } else {
                None
            },
            None => None,
        }
    }
}

/// The checksum of bytes, by its two sums.
pub open spec fn told_sum(raw: Seq<u8>) -> nat {
    ((raw.len() + weighted_sum(raw)) % 65521) * 0x1_0000 + (1 + plain_sum(raw)) % 65521
}

proof fn lemma_sum_field(raw: Seq<u8>)
    ensures
        be(adler32(raw), 4).len() == 4,
        be_value(be(adler32(raw), 4)) == told_sum(raw),
{
    adler_is_two_sums(raw);
    lemma_pow256();
    assert(adler32(raw) == told_sum(raw));
    assert(told_sum(raw) < 0x1_0000_0000);
    be_is_read_back(adler32(raw), 4);
}

/// Bytes are read back from their zlib stream.
pub proof fn streams_are_read_back(raw: Seq<u8>)
    requires
        raw.len() > 0,
    ensures
        read_zlib(zlib(raw)) == Some(raw),
{
    reveal(read_zlib);
    let sum = be(adler32(raw), 4);
    lemma_sum_field(raw);
    stored_blocks_unpack(raw, sum);
    assert(zlib(raw).skip(2) =~= stored_blocks(raw) + sum);
    assert(zlib(raw)[0] == 0x78 && zlib(raw)[1] == 1);
}

/// Width, height and rows of a PNG file as its reader finds them: behind the signature a header
/// chunk that tells of eight bits a channel and four channels, a data chunk and an end chunk, all
/// with the right checksums.
pub open spec fn read_png(s: Seq<u8>) -> Option<(nat, nat, Seq<u8>)> {
    if s.take(8) != seq![137u8, 80, 78, 71, 13, 10, 26, 10] {
        None
    } else {
        match read_chunk(s.skip(8)) {
            Some((head, h, rest)) => match read_chunk(rest) {
                Some((body, z, last)) => if head == seq![73u8, 72, 68, 82] && body == seq![
                    73u8,
                    68,
                    65,
                    84,
                ] && h.len() == 13 && h.skip(8) == seq![8u8, 6, 0, 0, 0] && read_chunk(last) == Some(
                    (seq![73u8, 69, 78, 68], Seq::<u8>::empty(), Seq::<u8>::empty()),
                ) {
                    match read_zlib(z) {
                        Some(raw) => Some((be_value(h.take(4)), be_value(h.subrange(4, 8)), raw)),
                        None => None,
                    }
                } else {
                    None
                },
                None => None,
            },
            None => None,
        }
    }
}

proof fn lemma_header_fields(w: nat, h: nat)
    requires
        w < 0x1_0000_0000,
        h < 0x1_0000_0000,
    ensures
        ({
            let head = be(w, 4) + be(h, 4) + seq![8u8, 6u8, 0u8, 0u8, 0u8];
            &&& head.len() == 13
            &&& be_value(head.take(4)) == w
            &&& be_value(head.subrange(4, 8)) == h
            &&& head.skip(8) == seq![8u8, 6u8, 0u8, 0u8, 0u8]
        }),
{
    let head = be(w, 4) + be(h, 4) + seq![8u8, 6u8, 0u8, 0u8, 0u8];
    lemma_pow256();
    be_is_read_back(w, 4);
    be_is_read_back(h, 4);
    assert(head.take(4) =~= be(w, 4));
    assert(head.subrange(4, 8) =~= be(h, 4));
    assert(head.skip(8) =~= seq![8u8, 6u8, 0u8, 0u8, 0u8]);
}

proof fn lemma_three_chunks(head: Seq<u8>, z: Seq<u8>)
    requires
        head.len() < 0x1_0000_0000,
        z.len() < 0x1_0000_0000,
    ensures
        ({
            let e = Seq::<u8>::empty();
            let c1 = chunk(seq![0x49u8, 0x48u8, 0x44u8, 0x52u8], head);
            let c2 = chunk(seq![0x49u8, 0x44u8, 0x41u8, 0x54u8], z);
            let c3 = chunk(seq![0x49u8, 0x45u8, 0x4Eu8, 0x44u8], e);
            let s = signature() + c1 + c2 + c3;
            &&& s.take(8) == signature()
            &&& read_chunk(s.skip(8)) == Some((seq![0x49u8, 0x48u8, 0x44u8, 0x52u8], head, c2 + c3))
            &&& read_chunk(c2 + c3) == Some((seq![0x49u8, 0x44u8, 0x41u8, 0x54u8], z, c3))
            &&& read_chunk(c3) == Some((seq![0x49u8, 0x45u8, 0x4Eu8, 0x44u8], e, e))
        }),
{
    let e = Seq::<u8>::empty();
    let (t1, t2, t3) = (
        seq![0x49u8, 0x48u8, 0x44u8, 0x52u8],
        seq![0x49u8, 0x44u8, 0x41u8, 0x54u8],
        seq![0x49u8, 0x45u8, 0x4Eu8, 0x44u8],
    );
    let (c1, c2, c3) = (chunk(t1, head), chunk(t2, z), chunk(t3, e));
    let s = signature() + c1 + c2 + c3;
    assert(s.take(8) =~= signature());
    assert(s.skip(8) =~= c1 + (c2 + c3));
    chunks_are_read_back(t1, head, c2 + c3);
    chunks_are_read_back(t2, z, c3);
    chunks_are_read_back(t3, e, e);
    assert(c3 + e =~= c3);
}

/// A PNG file is read back: its width, its height and its rows.
pub proof fn pictures_are_read_back(w: nat, h: nat, rgba: Seq<u8>)
    requires
        w < 0x1_0000_0000,
        0 < h < 0x1_0000_0000,
        4 * w * h <= rgba.len(),
        zlib(unfiltered(4 * w, rgba, h)).len() < 0x1_0000_0000,
    ensures
        read_png(png_file(w, h, rgba)) == Some((w, h, unfiltered(4 * w, rgba, h))),
{
    let raw = unfiltered(4 * w, rgba, h);
    rows_stand_in_order(4 * w, rgba, h, 0);
    assert(raw.len() > 0) by (nonlinear_arith)
        requires
            raw.len() == (4 * w + 1) * h,
            h > 0,
            w >= 0,
    ;
    streams_are_read_back(raw);
    lemma_header_fields(w, h);
    let head = be(w, 4) + be(h, 4) + seq![8u8, 6u8, 0u8, 0u8, 0u8];
    lemma_three_chunks(head, zlib(raw));
}

} // verus!
