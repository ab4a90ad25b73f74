//! The wire format of the fast lane: handshakes and replies, all integers little-endian.

use vstd::prelude::*;
use vstd::string::*;
use vstd::utf8::*;
use crate::bytes::{
    bytes_part, le, le_is_read_back, le_value, lemma_le2_wraps, lemma_le4_wraps, lemma_le_len,
    lemma_pow256, push_bytes, push_u16, push_u32, push_u64, read_le, same_bytes,
};
use crate::text::{bytes_text, lemma_bytes_text, text_of_bytes};

verus! {

/// The version that this build speaks.
pub const VERSION: u16 = 1;

/// Handshake operation: download a byte range.
pub const OP_GET: u8 = 1;

/// Handshake operation: upload. It is reserved, and refused in this version.
pub const OP_PUT: u8 = 2;

/// Reply status: success.
pub const ST_OK: u8 = 0;

/// Reply status: bad magic, unsupported version or malformed handshake.
pub const ST_BAD_REQUEST: u8 = 1;

/// Reply status: the token did not match.
pub const ST_UNAUTHORIZED: u8 = 2;

/// Reply status: the path names no readable file.
pub const ST_NOT_FOUND: u8 = 3;

/// Reply status: unsupported operation.
pub const ST_UNSUPPORTED: u8 = 4;

/// Longest path in a handshake, in bytes.
pub const MAX_PATH_LEN: usize = 65536;

/// What every handshake starts with.
pub open spec fn magic() -> Seq<u8> {
    seq![0x5Au8, 0x41u8, 0x50u8, 0x58u8]
}

// ---- Handshakes ----

/// A handshake: what a client asks for.
pub struct Handshake {
    pub op: u8,
    /// The pairing token, as bytes.
    pub token: Vec<u8>,
    /// The file, relative to the shared folder.
    pub path: String,
    /// First byte wanted.
    pub offset: u64,
    /// Number of bytes wanted; 0 for all the rest.
    pub range_len: u64,
}

/// The same, as mathematical values, with the path in bytes.
#[verifier::ext_equal]
pub struct Request {
    pub op: u8,
    pub token: Seq<u8>,
    pub path: Seq<u8>,
    pub offset: nat,
    pub range_len: nat,
}

/// A handshake on the wire.
pub open spec fn handshake_bytes(r: Request) -> Seq<u8> {
    magic() + le(VERSION as nat, 2) + seq![r.op] + le(r.token.len(), 2) + r.token + le(
        r.path.len(),
        4,
    ) + r.path + le(r.offset, 8) + le(r.range_len, 8)
}

/// How far the reading of a handshake has come, given the bytes received so far.
pub ghost enum Progress {
    /// This many more bytes are needed before anything can be decided.
    Need(nat),
    /// The handshake is refused with a status and a message.
    Refuse(u8, Seq<char>),
    /// The handshake is complete.
    Done(Request),
}

/// The length of the token in a handshake.
pub open spec fn token_len(b: Seq<u8>) -> int {
    le_value(b.subrange(7, 9)) as int
}

/// The length of the path in a handshake.
pub open spec fn path_len(b: Seq<u8>) -> int {
    le_value(b.subrange(9 + token_len(b), 13 + token_len(b))) as int
}

/// How far the reading of a handshake has come. Bad magic, an unsupported version and an overlong
/// path are refused as soon as they are seen.
pub open spec fn progress(b: Seq<u8>) -> Progress {
    if b.len() < 4 {
        Progress::Need((4 - b.len()) as nat)
    } else if b.subrange(0, 4) != magic() {
        Progress::Refuse(ST_BAD_REQUEST, "bad magic"@)
    } else if b.len() < 6 {
        Progress::Need((6 - b.len()) as nat)
    } else if le_value(b.subrange(4, 6)) != VERSION {
        Progress::Refuse(ST_BAD_REQUEST, "unsupported version"@)
    } else if b.len() < 9 {
        Progress::Need((9 - b.len()) as nat)
    } else if b.len() < 13 + token_len(b) {
        Progress::Need((13 + token_len(b) - b.len()) as nat)
    } else if path_len(b) > MAX_PATH_LEN {
        Progress::Refuse(ST_BAD_REQUEST, "path too long"@)
    } else {
        let p = 13 + token_len(b);
        let o = p + path_len(b);
        if b.len() < o + 16 {
            Progress::Need((o + 16 - b.len()) as nat)
        } else {
            Progress::Done(
                Request {
                    op: b[6],
                    token: b.subrange(9, 9 + token_len(b)),
                    path: b.subrange(p, o),
                    offset: le_value(b.subrange(o, o + 8)),
                    range_len: le_value(b.subrange(o + 8, o + 16)),
                },
            )
        }
    }
}

/// The next step in reading a handshake.
pub enum HandshakeStep {
    /// Read exactly this many more bytes.
    Need(usize),
    /// Refuse with a status and a message.
    Refuse(u8, String),
    /// The handshake is complete.
    Done(Handshake),
}

fn field(b: &[u8], from: usize, to: usize) -> (n: u64)
    requires
        from <= to <= b@.len(),
        to - from <= 8,
    ensures
        n == le_value(b@.subrange(from as int, to as int)),
{
    let p = bytes_part(b, from, to);
    read_le(&p)
}

proof fn lemma_le_value_small(s: Seq<u8>)
    ensures
        s.len() == 2 ==> le_value(s) < 0x1_0000,
        s.len() == 4 ==> le_value(s) < 0x1_0000_0000,
{
    reveal_with_fuel(le_value, 5);
}

/// Look at the bytes of a handshake received so far and decide how to go on. The path is decoded
/// as UTF-8; the token is kept as bytes.
pub fn read_handshake(b: &[u8]) -> (r: HandshakeStep)
    ensures
        match r {
            HandshakeStep::Need(n) => progress(b@) == Progress::Need(n as nat) && n > 0,
            HandshakeStep::Refuse(status, msg) => progress(b@) == Progress::Refuse(status, msg@),
            HandshakeStep::Done(h) => {
                &&& progress(b@) is Done
                &&& h.op == progress(b@)->Done_0.op
                &&& h.token@ == progress(b@)->Done_0.token
                &&& h.path@ == bytes_text(progress(b@)->Done_0.path)
                &&& h.offset == progress(b@)->Done_0.offset
                &&& h.range_len == progress(b@)->Done_0.range_len
            },
        },
{
    let len: usize = b.len();
    if len < 4 {
        return HandshakeStep::Need(4 - len);
    }
    let want: [u8; 4] = [0x5A, 0x41, 0x50, 0x58];
    assert(want@ =~= magic());
    let head = bytes_part(b, 0, 4);
    if !same_bytes(&head, &want) {
        return HandshakeStep::Refuse(ST_BAD_REQUEST, "bad magic".to_owned());
    }
    if len < 6 {
        return HandshakeStep::Need(6 - len);
    }
    if field(b, 4, 6) != VERSION as u64 {
        return HandshakeStep::Refuse(ST_BAD_REQUEST, "unsupported version".to_owned());
    }
    if len < 9 {
        return HandshakeStep::Need(9 - len);
    }
    proof {
        lemma_le_value_small(b@.subrange(7, 9));
    }
    let t: usize = field(b, 7, 9) as usize;
    if len < 13 + t {
        return HandshakeStep::Need(13 + t - len);
    }
    proof {
        lemma_le_value_small(b@.subrange(9 + t, 13 + t));
    }
    let path_len: u64 = field(b, 9 + t, 13 + t);
    if path_len > MAX_PATH_LEN as u64 {
        return HandshakeStep::Refuse(ST_BAD_REQUEST, "path too long".to_owned());
    }
    let p: usize = 13 + t;
    let o: usize = p + path_len as usize;
    if len < o + 16 {
        return HandshakeStep::Need(o + 16 - len);
    }
    let path = bytes_part(b, p, o);
    HandshakeStep::Done(
        Handshake {
            op: b[6],
            token: bytes_part(b, 9, 9 + t),
            path: text_of_bytes(&path),
            offset: field(b, o, o + 8),
            range_len: field(b, o + 8, o + 16),
        },
    )
}

/// The handshake that asks for a range of a file: without a token, an empty one is sent.
pub open spec fn get_request(token: Option<&str>, path: Seq<char>, offset: nat, len: nat) -> Request {
    Request {
        op: OP_GET,
        token: match token {
            Some(t) => encode_utf8(t@),
            None => Seq::empty(),
        },
        path: encode_utf8(path),
        offset,
        range_len: len,
    }
}

/// Build the handshake that asks for a range of a file.
pub fn write_handshake(token: Option<&str>, path: &str, offset: u64, range_len: u64) -> (hs: Vec<
    u8,
>)
    ensures
        hs@ == handshake_bytes(get_request(token, path@, offset as nat, range_len as nat)),
{
    let empty: Vec<u8> = Vec::new();
    let token_bytes: &[u8] = match token {
        Some(t) => t.as_bytes(),
        None => empty.as_slice(),
    };
    assert(empty@ =~= Seq::<u8>::empty());
    let path_bytes = path.as_bytes();
    let mut hs: Vec<u8> = Vec::new();
    hs.push(0x5A);
    hs.push(0x41);
    hs.push(0x50);
    hs.push(0x58);
    assert(hs@ =~= magic());
    push_u16(&mut hs, VERSION);
    hs.push(OP_GET);
    let t: usize = token_bytes.len();
    let p: u64 = path_bytes.len() as u64;
    proof {
        lemma_le2_wraps(t as nat);
        lemma_le4_wraps(p as nat);
    }
    push_u16(&mut hs, (t % 0x1_0000) as u16);
    push_bytes(&mut hs, token_bytes);
    push_u32(&mut hs, (p % 0x1_0000_0000) as u32);
    push_bytes(&mut hs, path_bytes);
    push_u64(&mut hs, offset);
    push_u64(&mut hs, range_len);
    assert(hs@ =~= handshake_bytes(
        get_request(token, path@, offset as nat, range_len as nat),
    ));
    hs
}

// ---- Replies ----

/// A successful reply: the file's size and, where it is known, its CRC-32.
pub open spec fn ok_reply(total: nat, crc: Option<u32>) -> Seq<u8> {
    seq![ST_OK] + le(total, 8) + (match crc {
        Some(c) => seq![1u8] + le(c as nat, 4),
        None => seq![0u8],
    })
}

/// Build a successful reply.
pub fn reply_ok(total: u64, crc: Option<u32>) -> (v: Vec<u8>)
    ensures
        v@ == ok_reply(total as nat, crc),
{
    let mut v: Vec<u8> = Vec::new();
    v.push(ST_OK);
    push_u64(&mut v, total);
    match crc {
        Some(c) => {
            v.push(1);
            push_u32(&mut v, c);
        },
        None => {
            v.push(0);
        },
    }
    assert(v@ =~= ok_reply(total as nat, crc));
    v
}

/// The bytes of a message, cut to the longest that the format can carry.
pub open spec fn message_bytes(msg: Seq<char>) -> Seq<u8> {
    let b = encode_utf8(msg);
    if b.len() > 0xFFFF {
        b.take(0xFFFF)
    } else {
        b
    }
}

/// A refusal: its status and a message.
pub open spec fn err_reply(status: u8, msg: Seq<char>) -> Seq<u8> {
    seq![status] + le(message_bytes(msg).len(), 2) + message_bytes(msg)
}

/// Build a refusal.
pub fn reply_err(status: u8, msg: &str) -> (v: Vec<u8>)
    ensures
        v@ == err_reply(status, msg@),
{
    let bytes = msg.as_bytes();
    let n: usize = if bytes.len() > 0xFFFF {
        0xFFFF
    } else {
        bytes.len()
    };
    let body = bytes_part(bytes, 0, n);
    assert(body@ =~= message_bytes(msg@));
    let mut v: Vec<u8> = Vec::new();
    v.push(status);
    push_u16(&mut v, n as u16);
    push_bytes(&mut v, &body);
    assert(v@ =~= err_reply(status, msg@));
    v
}

/// How far the reading of a reply has come.
pub ghost enum ReplyProgress {
    /// This many more bytes are needed.
    Need(nat),
    /// The server refused; what follows is its message of this length.
    Refused(nat),
    /// The size and the CRC-32 of the file.
    Ready(nat, Option<nat>),
}

/// How far the reading of a reply has come.
pub open spec fn reply_progress(b: Seq<u8>) -> ReplyProgress {
    if b.len() < 1 {
        ReplyProgress::Need(1)
    } else if b[0] != ST_OK {
        if b.len() < 3 {
            ReplyProgress::Need((3 - b.len()) as nat)
        } else {
            ReplyProgress::Refused(le_value(b.subrange(1, 3)))
        }
    } else if b.len() < 10 {
        ReplyProgress::Need((10 - b.len()) as nat)
    } else if b[9] != 1 {
        ReplyProgress::Ready(le_value(b.subrange(1, 9)), None)
    } else if b.len() < 14 {
        ReplyProgress::Need((14 - b.len()) as nat)
    } else {
        ReplyProgress::Ready(le_value(b.subrange(1, 9)), Some(le_value(b.subrange(10, 14))))
    }
}

/// The next step in reading a reply.
pub enum ReplyStep {
    /// Read exactly this many more bytes.
    Need(usize),
    /// The server refused: read its message of this length.
    Refused(usize),
    /// The size and the CRC-32 of the file.
    Ready(u64, Option<u32>),
}

/// Look at the bytes of a reply received so far and decide how to go on.
pub fn read_reply(b: &[u8]) -> (r: ReplyStep)
    ensures
        match r {
            ReplyStep::Need(n) => reply_progress(b@) == ReplyProgress::Need(n as nat) && n > 0,
            ReplyStep::Refused(n) => reply_progress(b@) == ReplyProgress::Refused(n as nat),
            ReplyStep::Ready(total, crc) => reply_progress(b@) == ReplyProgress::Ready(
                total as nat,
                match crc {
                    Some(c) => Some(c as nat),
                    None => None,
                },
            ),
        },
{
    let len: usize = b.len();
    if len < 1 {
        return ReplyStep::Need(1);
    }
    if b[0] != ST_OK {
        if len < 3 {
            return ReplyStep::Need(3 - len);
        }
        proof {
            lemma_le_value_small(b@.subrange(1, 3));
        }
        return ReplyStep::Refused(field(b, 1, 3) as usize);
    }
    if len < 10 {
        return ReplyStep::Need(10 - len);
    }
    let total: u64 = field(b, 1, 9);
    if b[9] != 1 {
        return ReplyStep::Ready(total, None);
    }
    if len < 14 {
        return ReplyStep::Need(14 - len);
    }
    proof {
        lemma_le_value_small(b@.subrange(10, 14));
    }
    ReplyStep::Ready(total, Some(field(b, 10, 14) as u32))
}

/// The text of a refusal, for an error message.
pub fn refusal_text(msg: &[u8]) -> (r: String)
    ensures
        r@ == "server said: "@ + bytes_text(msg@),
{
    let mut r = String::new();
    r.append("server said: ");
    r.append(text_of_bytes(msg).as_str());
    assert(r@ =~= "server said: "@ + bytes_text(msg@));
    r
}

// ---- Laws ----

/// Whether a handshake fits its length fields and the path limit.
pub open spec fn fits(r: Request) -> bool {
    &&& r.token.len() <= 0xFFFF
    &&& r.path.len() <= MAX_PATH_LEN
    &&& r.offset <= u64::MAX
    &&& r.range_len <= u64::MAX
}

/// A server reads a handshake exactly as the client wrote it.
pub proof fn handshake_is_read_back(r: Request)
    requires
        fits(r),
    ensures
        progress(handshake_bytes(r)) == Progress::Done(r),
{
    broadcast use lemma_le_len;

    lemma_pow256();
    le_is_read_back(VERSION as nat, 2);
    le_is_read_back(r.token.len(), 2);
    le_is_read_back(r.path.len(), 4);
    le_is_read_back(r.offset, 8);
    le_is_read_back(r.range_len, 8);
    let b = handshake_bytes(r);
    let t = r.token.len() as int;
    let p = r.path.len() as int;
    assert(b.subrange(0, 4) =~= magic());
    assert(b.subrange(4, 6) =~= le(VERSION as nat, 2));
    assert(b[6] == r.op);
    assert(b.subrange(7, 9) =~= le(r.token.len(), 2));
    assert(token_len(b) == t);
    assert(b.subrange(9, 9 + t) =~= r.token);
    assert(b.subrange(9 + t, 13 + t) =~= le(r.path.len(), 4));
    assert(path_len(b) == p);
    assert(b.subrange(13 + t, 13 + t + p) =~= r.path);
    assert(b.subrange(13 + t + p, 21 + t + p) =~= le(r.offset, 8));
    assert(b.subrange(21 + t + p, 29 + t + p) =~= le(r.range_len, 8));
    assert(b.len() == 29 + t + p);
}

/// While a handshake is still arriving, the server waits for more: nothing is refused early.
pub proof fn partial_handshake_is_awaited(r: Request, n: int)
    requires
        fits(r),
        0 <= n < handshake_bytes(r).len(),
    ensures
        progress(handshake_bytes(r).take(n)) is Need,
{
    broadcast use lemma_le_len;

    lemma_pow256();
    handshake_is_read_back(r);
    let b = handshake_bytes(r);
    let a = b.take(n);
    let t = r.token.len() as int;
    le_is_read_back(r.token.len(), 2);
    assert(b.subrange(7, 9) =~= le(r.token.len(), 2));
    if n >= 4 {
        assert(a.subrange(0, 4) =~= b.subrange(0, 4));
    }
    if n >= 6 {
        assert(a.subrange(4, 6) =~= b.subrange(4, 6));
    }
    if n >= 9 {
        assert(a.subrange(7, 9) =~= b.subrange(7, 9));
        assert(token_len(a) == t);
    }
    if n >= 13 + t {
        assert(a.subrange(9 + t, 13 + t) =~= b.subrange(9 + t, 13 + t));
        assert(path_len(a) == path_len(b));
        assert(b.len() == 29 + t + r.path.len());
        assert(path_len(b) == r.path.len()) by {
            le_is_read_back(r.path.len(), 4);
            assert(b.subrange(9 + t, 13 + t) =~= le(r.path.len(), 4));
        }
    }
}

/// A client reads a successful reply exactly as the server wrote it.
pub proof fn ok_reply_is_read_back(total: nat, crc: Option<u32>)
    requires
        total <= u64::MAX,
    ensures
        reply_progress(ok_reply(total, crc)) == ReplyProgress::Ready(
            total,
            match crc {
                Some(c) => Some(c as nat),
                None => None,
            },
        ),
{
    broadcast use lemma_le_len;

    lemma_pow256();
    le_is_read_back(total, 8);
    let b = ok_reply(total, crc);
    assert(b.subrange(1, 9) =~= le(total, 8));
    if crc is Some {
        le_is_read_back(crc->0 as nat, 4);
        assert(b.subrange(10, 14) =~= le(crc->0 as nat, 4));
    }
}

/// A client that was refused learns exactly the message that the server sent.
pub proof fn refusal_is_read_back(status: u8, msg: Seq<char>)
    requires
        status != ST_OK,
    ensures
        reply_progress(err_reply(status, msg)) == ReplyProgress::Refused(message_bytes(msg).len()),
        err_reply(status, msg).skip(3) == message_bytes(msg),
{
    broadcast use lemma_le_len;

    lemma_pow256();
    le_is_read_back(message_bytes(msg).len(), 2);
    let b = err_reply(status, msg);
    assert(b.subrange(1, 3) =~= le(message_bytes(msg).len(), 2));
    assert(b.skip(3) =~= message_bytes(msg));
}

/// Where the parts of a handshake stand: the four letters, the version, the operation, the token and
/// the path with their lengths before them, and the range, all numbers with the least significant
/// byte first.
pub proof fn handshakes_are_laid_out(r: Request)
    requires
        fits(r),
    ensures
        ({
            let b = handshake_bytes(r);
            let t = r.token.len() as int;
            let p = r.path.len() as int;
            &&& b.len() == 29 + t + p
            &&& b[0] == 'Z' as u8 && b[1] == 'A' as u8 && b[2] == 'P' as u8 && b[3] == 'X' as u8
            &&& le_value(b.subrange(4, 6)) == 1
            &&& b[6] == r.op
            &&& le_value(b.subrange(7, 9)) == t
            &&& b.subrange(9, 9 + t) == r.token
            &&& le_value(b.subrange(9 + t, 13 + t)) == p
            &&& b.subrange(13 + t, 13 + t + p) == r.path
            &&& le_value(b.subrange(13 + t + p, 21 + t + p)) == r.offset
            &&& le_value(b.subrange(21 + t + p, 29 + t + p)) == r.range_len
        }),
{
    broadcast use lemma_le_len;

    lemma_pow256();
    le_is_read_back(VERSION as nat, 2);
    le_is_read_back(r.token.len(), 2);
    le_is_read_back(r.path.len(), 4);
    le_is_read_back(r.offset, 8);
    le_is_read_back(r.range_len, 8);
    let b = handshake_bytes(r);
    let t = r.token.len() as int;
    let p = r.path.len() as int;
    assert(b.subrange(4, 6) =~= le(VERSION as nat, 2));
    assert(b.subrange(7, 9) =~= le(r.token.len(), 2));
    assert(b.subrange(9, 9 + t) =~= r.token);
    assert(b.subrange(9 + t, 13 + t) =~= le(r.path.len(), 4));
    assert(b.subrange(13 + t, 13 + t + p) =~= r.path);
    assert(b.subrange(13 + t + p, 21 + t + p) =~= le(r.offset, 8));
    assert(b.subrange(21 + t + p, 29 + t + p) =~= le(r.range_len, 8));
}

/// Where the parts of a reply stand: a status, and then the size of the file and its checksum if
/// there is one, or a message with its length before it.
pub proof fn replies_are_laid_out(total: nat, crc: Option<u32>, status: u8, msg: Seq<char>)
    requires
        total <= u64::MAX,
    ensures
        ({
            let b = ok_reply(total, crc);
            &&& b[0] == 0
            &&& le_value(b.subrange(1, 9)) == total
            &&& crc is None ==> b.len() == 10 && b[9] == 0
            &&& crc matches Some(c) ==> b.len() == 14 && b[9] == 1 && le_value(b.subrange(10, 14)) == c
        }),
        ({
            let b = err_reply(status, msg);
            let text = encode_utf8(msg);
            &&& b[0] == status
            &&& le_value(b.subrange(1, 3)) == b.len() - 3
            &&& text.len() <= 0xFFFF ==> b.skip(3) == text
            &&& text.len() > 0xFFFF ==> b.skip(3) == text.take(0xFFFF)
        }),
{
    broadcast use lemma_le_len;

    lemma_pow256();
    le_is_read_back(total, 8);
    let b = ok_reply(total, crc);
    assert(b.subrange(1, 9) =~= le(total, 8));
    if crc is Some {
        le_is_read_back(crc->0 as nat, 4);
        assert(b.subrange(10, 14) =~= le(crc->0 as nat, 4));
    }
    let e = err_reply(status, msg);
    let m = message_bytes(msg);
    le_is_read_back(m.len(), 2);
    assert(e.subrange(1, 3) =~= le(m.len(), 2));
    assert(e.skip(3) =~= m);
}

/// Whatever a handshake begins with that is not the four letters and this version is refused, and
/// so is a path that is too long; nothing else is.
pub proof fn only_bad_handshakes_are_refused(b: Seq<u8>)
    ensures
        progress(b) is Refuse <==> (b.len() >= 4 && !(b[0] == 'Z' as u8 && b[1] == 'A' as u8 && b[2]
            == 'P' as u8 && b[3] == 'X' as u8)) || (b.len() >= 6 && b[4] as int + 256 * b[5] != 1)
            || (b.len() >= 9 && b.len() >= 13 + token_len(b) && path_len(b) > 65536),
{
    if b.len() >= 4 {
        let a = b.subrange(0, 4);
        assert(a[0] == b[0] && a[1] == b[1] && a[2] == b[2] && a[3] == b[3]);
        if b[0] == 'Z' as u8 && b[1] == 'A' as u8 && b[2] == 'P' as u8 && b[3] == 'X' as u8 {
            assert(a =~= magic());
        }
    }
    if b.len() >= 6 {
        let v = b.subrange(4, 6);
        reveal_with_fuel(le_value, 3);
        assert(v[0] == b[4] && v.skip(1)[0] == b[5]);
        assert(le_value(v) == b[4] as nat + 256 * (b[5] as nat));
    }
}

/// A request for a range asks for just that: the server reads from its handshake the operation, the
/// token, the path and the range.
pub proof fn range_requests_are_read_back(token: Option<&str>, path: Seq<char>, offset: nat, len: nat)
    requires
        fits(get_request(token, path, offset, len)),
    ensures
        progress(handshake_bytes(get_request(token, path, offset, len))) matches Progress::Done(r)
            && r.op == 1 && r.token == (match token {
            Some(t) => encode_utf8(t@),
            None => Seq::empty(),
        }) && bytes_text(r.path) == path && r.offset == offset && r.range_len == len,
{
    handshake_is_read_back(get_request(token, path, offset, len));
    lemma_bytes_text(path);
}

/// While a handshake is still arriving, the server never asks for more bytes than are still to come.
pub proof fn never_more_is_asked_than_comes(r: Request, n: int)
    requires
        fits(r),
        0 <= n < handshake_bytes(r).len(),
    ensures
        progress(handshake_bytes(r).take(n)) matches Progress::Need(k) && 0 < k
            && n + k <= handshake_bytes(r).len(),
{
    partial_handshake_is_awaited(r, n);
    handshakes_are_laid_out(r);
    let b = handshake_bytes(r);
    let a = b.take(n);
    let t = r.token.len() as int;
    if n >= 9 {
        assert(a.subrange(7, 9) =~= b.subrange(7, 9));
        assert(token_len(a) == t);
    }
    if n >= 13 + t {
        assert(a.subrange(9 + t, 13 + t) =~= b.subrange(9 + t, 13 + t));
        assert(path_len(a) == r.path.len());
    }
}

/// While a reply is still arriving, the client asks for more, and never for more bytes than are
/// still to come of its numbers.
pub proof fn never_more_is_awaited_than_comes(total: nat, crc: Option<u32>, n: int)
    requires
        total <= u64::MAX,
        0 <= n < ok_reply(total, crc).len(),
    ensures
        reply_progress(ok_reply(total, crc).take(n)) matches ReplyProgress::Need(k) && 0 < k && n + k
            <= ok_reply(total, crc).len(),
{
    broadcast use lemma_le_len;

    let b = ok_reply(total, crc);
    let a = b.take(n);
    if n >= 10 {
        assert(a[9] == b[9]);
    }
}

} // verus!
