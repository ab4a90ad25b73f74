//! The server side of the fast lane: who is let in, which bytes are sent, and how they are counted.

use vstd::prelude::*;
use vstd::string::*;
use vstd::utf8::*;
use crate::auth::Auth;
use crate::bytes::same_bytes;
use crate::fast_wire::{Handshake, Request, OP_GET, ST_NOT_FOUND, ST_UNAUTHORIZED, ST_UNSUPPORTED};
use crate::paths::{plain_filename, resolve_within, resolved, resolved_stays_inside};
use crate::stats::{
    changed_holds, changed_in, held_done, hold_at, is_held, keyed, lemma_keyed_is_listed, row_done,
    Change, Direction, Hold, Stats,
};
use crate::text::{bytes_text, lemma_bytes_text, str_eq, texts};

verus! {

// ---- Admission ----

/// Why a handshake is refused: a status and a message.
pub struct Refusal {
    pub status: u8,
    pub message: String,
}

/// The decision on a handshake.
pub ghost enum Admission {
    /// The components of the file below the shared folder.
    File(Seq<Seq<char>>),
    Refused(u8, Seq<char>),
}

/// The decision on a handshake: the token must be the session token, byte for byte, where there
/// is one; then the operation must be a download, and the path must stay inside the shared folder.
pub open spec fn admission(
    op: u8,
    token: Seq<u8>,
    path: Seq<char>,
    expected: Option<Seq<char>>,
) -> Admission {
    if expected matches Some(t) && token != encode_utf8(t) {
        Admission::Refused(ST_UNAUTHORIZED, "unauthorized"@)
    } else if op != OP_GET {
        Admission::Refused(ST_UNSUPPORTED, "op not supported in v1"@)
    } else {
        match resolved(path) {
            Some(comps) => Admission::File(comps),
            None => Admission::Refused(ST_NOT_FOUND, "bad path"@),
        }
    }
}

/// Decide about a handshake.
pub fn let_in(h: &Handshake, auth: Option<&Auth>) -> (r: Result<Vec<String>, Refusal>)
    ensures
        match r {
            Ok(comps) => admission(h.op, h.token@, h.path@, crate::routes::token_of(auth))
                == Admission::File(texts(comps@)),
            Err(e) => admission(h.op, h.token@, h.path@, crate::routes::token_of(auth))
                == Admission::Refused(e.status, e.message@),
        },
{
    if let Some(a) = auth {
        if !same_bytes(&h.token, a.token.as_str().as_bytes()) {
            return Err(
                Refusal { status: ST_UNAUTHORIZED, message: "unauthorized".to_owned() },
            );
        }
    }
    if h.op != OP_GET {
        return Err(
            Refusal { status: ST_UNSUPPORTED, message: "op not supported in v1".to_owned() },
        );
    }
    match resolve_within(h.path.as_str()) {
        Some(comps) => Ok(comps),
        None => Err(Refusal { status: ST_NOT_FOUND, message: "bad path".to_owned() }),
    }
}

/// The refusal when there is no file at the path.
pub fn no_such_file() -> (e: Refusal)
    ensures
        e.status == ST_NOT_FOUND,
        e.message@ == "not found"@,
{
    Refusal { status: ST_NOT_FOUND, message: "not found".to_owned() }
}

// ---- Ranges ----

/// The smaller of two numbers.
pub open spec fn smaller(a: nat, b: nat) -> nat {
    if a < b {
        a
    } else {
        b
    }
}

/// The first byte and the number of bytes that are sent of a file of `total` bytes: the wanted
/// range, clamped to the file; a length of 0 wants all the rest.
pub open spec fn served(total: nat, offset: nat, range_len: nat) -> (nat, nat) {
    let start = smaller(offset, total);
    let rest = (total - start) as nat;
    (
        start,
        if range_len == 0 {
            rest
        } else {
            smaller(range_len, rest)
        },
    )
}

/// Clamp the wanted range to the file.
pub fn plan_range(total: u64, offset: u64, range_len: u64) -> (r: (u64, u64))
    ensures
        (r.0 as nat, r.1 as nat) == served(total as nat, offset as nat, range_len as nat),
        r.0 + r.1 <= total,
{
    let start: u64 = if offset < total {
        offset
    } else {
        total
    };
    let rest: u64 = total - start;
    let len: u64 = if range_len == 0 || range_len >= rest {
        rest
    } else {
        range_len
    };
    (start, len)
}

/// A run of bytes being moved: where it stands and how much is left.
pub struct RangeCursor {
    pub pos: u64,
    pub remaining: u64,
}

impl RangeCursor {
    /// The end of the run stays in range.
    pub open spec fn wf(&self) -> bool {
        self.pos + self.remaining <= u64::MAX
    }

    /// How many bytes to move next, with a buffer of a given size.
    pub fn want(&self, buffer: usize) -> (n: usize)
        ensures
            n == smaller(self.remaining as nat, buffer as nat),
    {
        if self.remaining < buffer as u64 {
            self.remaining as usize
        } else {
            buffer
        }
    }

    /// Bytes were moved.
    pub fn advance(&mut self, n: usize)
        requires
            old(self).wf(),
            n <= old(self).remaining,
        ensures
            final(self).wf(),
            final(self).pos == old(self).pos + n,
            final(self).remaining == old(self).remaining - n,
    {
        self.pos = self.pos + n as u64;
        self.remaining = self.remaining - n as u64;
    }
}

// ---- Bookkeeping ----

/// Begin to send a range: the ranges of one file share one row, whose total is the whole file and
/// which shows at least the bytes before the range. The row is marked as carried by the fast lane,
/// and held until `end_range` or, where sending fails, `Stats::release`.
pub fn begin_range(stats: &mut Stats, path: &str, name: &str, total: u64, start: u64) -> (id: u64)
    requires
        old(stats).wf(),
        old(stats).can_begin_spec(path@),
    ensures
        final(stats).wf(),
        ({
            let (i, list, next) = keyed(
                old(stats).list(),
                old(stats).next_id(),
                path@,
                name@,
                Direction::Download,
                Some(total),
                path@,
            );
            &&& id == i
            &&& final(stats).list() == changed_in(
                changed_in(list, i, Change::Raise(start)),
                i,
                Change::Fast,
            )
            &&& final(stats).next_id() == next
            &&& row_done(list, i) matches Some(done) && final(stats).holds() == changed_holds(
                old(stats).holds().push(Hold { id, done }),
                i,
                Change::Raise(start),
            )
        }),
        final(stats).bytes() == old(stats).bytes(),
        final(stats).requests() == old(stats).requests(),
{
    proof {
        lemma_keyed_is_listed(
            stats.list(),
            stats.next_id(),
            path@,
            name@,
            Direction::Download,
            Some(total),
            path@,
        );
    }
    let id: u64 = stats.begin_download(path, name, Some(total), path);
    stats.hold(id);
    stats.change(id, Change::Raise(start));
    stats.change(id, Change::Fast);
    id
}

/// A range was sent. The row is finished once the whole file has been delivered, by all its ranges
/// together; the result says whether it is, and the history is then to be saved. The bytes done
/// count even where the row has left the activity list since.
pub fn end_range(stats: &mut Stats, id: u64, total: u64) -> (complete: bool)
    requires
        old(stats).wf(),
        is_held(old(stats).holds(), id as nat),
    ensures
        final(stats).wf(),
        complete == (held_done(old(stats).holds(), id as nat) >= total),
        final(stats).list() == (if complete {
            changed_in(
                changed_in(old(stats).list(), id as nat, Change::Finish),
                id as nat,
                Change::Succeed,
            )
        } else {
            old(stats).list()
        }),
        final(stats).holds() == old(stats).holds().remove(
            hold_at(old(stats).holds(), id as nat),
        ),
        final(stats).next_id() == old(stats).next_id(),
        final(stats).bytes() == old(stats).bytes(),
        final(stats).requests() == old(stats).requests(),
{
    let complete: bool = stats.bytes_done(id) >= total;
    if complete {
        stats.change(id, Change::Finish);
        stats.change(id, Change::Succeed);
    }
    stats.release(id);
    complete
}

// ---- CRC cache ----

struct CacheEntry {
    path: String,
    size: u64,
    mtime: u128,
    crc: u32,
}

/// What a cached CRC-32 belongs to: a file, its size and its modification time.
pub ghost struct CacheKey {
    pub path: Seq<char>,
    pub size: u64,
    pub mtime: u128,
}

/// The CRC-32s of files already read.
pub struct CrcCache {
    entries: Vec<CacheEntry>,
}

spec fn entry_key(e: CacheEntry) -> CacheKey {
    CacheKey { path: e.path@, size: e.size, mtime: e.mtime }
}

spec fn cached(list: Seq<CacheEntry>, key: CacheKey) -> Option<u32>
    decreases list.len(),
{
    if list.len() == 0 {
        None
    } else if entry_key(list[0]) == key {
        Some(list[0].crc)
    } else {
        cached(list.skip(1), key)
    }
}

proof fn lemma_cached_push(list: Seq<CacheEntry>, e: CacheEntry, key: CacheKey)
    ensures
        cached(list.push(e), key) == (match cached(list, key) {
            Some(c) => Some(c),
            None => if entry_key(e) == key {
                Some(e.crc)
            } else {
                None
            },
        }),
    decreases list.len(),
{
    if list.len() == 0 {
        assert(list.push(e)[0] == e);
        assert(cached(list.push(e).skip(1), key) is None);
    } else {
        assert(list.push(e)[0] == list[0]);
        assert(list.push(e).skip(1) =~= list.skip(1).push(e));
        lemma_cached_push(list.skip(1), e, key);
    }
}

impl CrcCache {
    /// The CRC-32 cached under a key.
    pub closed spec fn at(&self, key: CacheKey) -> Option<u32> {
        cached(self.entries@, key)
    }

    /// An empty cache.
    pub fn new() -> (c: CrcCache)
        ensures
            forall|key: CacheKey| c.at(key) is None,
    {
        CrcCache { entries: Vec::new() }
    }

    /// Look a file up.
    pub fn get(&self, path: &str, size: u64, mtime: u128) -> (r: Option<u32>)
        ensures
            r == self.at(CacheKey { path: path@, size, mtime }),
    {
        let ghost key = CacheKey { path: path@, size, mtime };
        let mut i: usize = 0;
        assert(self.entries@.skip(0) =~= self.entries@);
        while i < self.entries.len()
            invariant
                i <= self.entries@.len(),
                key == (CacheKey { path: path@, size, mtime }),
                cached(self.entries@, key) == cached(self.entries@.skip(i as int), key),
            decreases self.entries@.len() - i,
        {
            assert(self.entries@.skip(i as int).skip(1) =~= self.entries@.skip(i + 1));
            let e = &self.entries[i];
            if e.size == size && e.mtime == mtime && str_eq(e.path.as_str(), path) {
                return Some(e.crc);
            }
            i = i + 1;
        }
        None
    }

    /// Keep a CRC-32. What is cached already stays.
    pub fn put(&mut self, path: &str, size: u64, mtime: u128, crc: u32)
        ensures
            forall|key: CacheKey|
                #![trigger final(self).at(key)]
                final(self).at(key) == (match old(self).at(key) {
                    Some(c) => Some(c),
                    None => if key == (CacheKey { path: path@, size, mtime }) {
                        Some(crc)
                    } else {
                        None
                    },
                }),
    {
        let ghost before = self.entries@;
        let e = CacheEntry { path: path.to_owned(), size, mtime, crc };
        self.entries.push(e);
        proof {
            assert forall|key: CacheKey|
                #![trigger self.at(key)]
                self.at(key) == (match cached(before, key) {
                    Some(c) => Some(c),
                    None => if key == (CacheKey { path: path@, size, mtime }) {
                        Some(crc)
                    } else {
                        None
                    },
                }) by {
                lemma_cached_push(before, e, key);
            }
        }
    }
}

// ---- Laws ----

/// A range that lies inside the file is sent as it was asked for.
pub proof fn inner_ranges_are_served_exactly(total: nat, offset: nat, len: nat)
    requires
        0 < len,
        offset + len <= total,
    ensures
        served(total, offset, len) == (offset, len),
{
}

/// A handshake from past the end of the file is sent nothing: it only asks for size and CRC-32.
pub proof fn past_the_end_is_a_stat(total: nat, offset: nat, len: nat)
    requires
        offset >= total,
    ensures
        served(total, offset, len).1 == 0,
{
}

/// On a secured server, a wrong token is refused before anything else is looked at.
pub proof fn wrong_token_is_refused(op: u8, token: Seq<u8>, path: Seq<char>, expected: Seq<char>)
    requires
        token != encode_utf8(expected),
    ensures
        admission(op, token, path, Some(expected)) == Admission::Refused(
            ST_UNAUTHORIZED,
            "unauthorized"@,
        ),
{
}

/// A client that was paired with a secured server, or meets an open one, is let in to every file
/// that a path inside the shared folder names.
pub proof fn paired_client_is_let_in(r: Request, path: Seq<char>, expected: Option<Seq<char>>)
    requires
        r.op == OP_GET,
        r.path == encode_utf8(path),
        expected matches Some(t) ==> r.token == encode_utf8(t),
        resolved(path) is Some,
    ensures
        admission(r.op, r.token, bytes_text(r.path), expected) == Admission::File(
            resolved(path)->0,
        ),
{
    lemma_bytes_text(path);
}

/// A range that reaches past the end of the file, or has no length of its own, is sent up to the
/// end.
pub proof fn open_ranges_reach_the_end(total: nat, offset: nat, len: nat)
    requires
        offset <= total,
        len == 0 || offset + len >= total,
    ensures
        served(total, offset, len) == (offset, (total - offset) as nat),
{
}

/// What is served of a file is a part of it that begins where it was asked for: no byte before, no
/// byte twice, and none left out before the wanted length or the end.
pub proof fn served_bytes_are_the_files(file: Seq<u8>, offset: nat, len: nat, i: int)
    requires
        offset <= file.len(),
    ensures
        ({
            let (start, n) = served(file.len(), offset, len);
            let sent = file.subrange(start as int, (start + n) as int);
            &&& start + n <= file.len()
            &&& 0 <= i < sent.len() <==> 0 <= i && offset + i < file.len() && (len == 0 || i < len)
            &&& 0 <= i < sent.len() ==> sent[i] == file[offset + i]
        }),
{
}

/// A request for anything but a file, and one for a path that leads out of the shared folder, are
/// refused, whatever token comes with them.
pub proof fn only_files_inside_are_served(
    op: u8,
    token: Seq<u8>,
    path: Seq<char>,
    expected: Option<Seq<char>>,
)
    ensures
        admission(op, token, path, expected) is File <==> op == OP_GET && resolved(path) is Some && (
        expected is Some ==> token == encode_utf8(expected->0)),
        admission(op, token, path, expected) matches Admission::File(comps) ==> forall|i: int|
            0 <= i < comps.len() ==> plain_filename(#[trigger] comps[i]),
{
    resolved_stays_inside(path);
}

} // verus!
