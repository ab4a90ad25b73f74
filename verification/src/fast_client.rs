//! The client side of the fast lane: a file is fetched in chunks over several connections.

use vstd::prelude::*;
use vstd::string::*;
use crate::num::{dec, fractions_are_read_back, push_dec};
use crate::text::split_once;

verus! {

// ---- Chunks ----

/// A byte range of the file: `len` bytes from `offset` on.
#[derive(Clone, Copy, Debug)]
pub struct Chunk {
    pub offset: u64,
    pub len: u64,
}

/// A chunk as mathematical values: its first byte and the byte behind it.
pub ghost struct Span {
    pub from: int,
    pub to: int,
}

impl View for Chunk {
    type V = Span;

    open spec fn view(&self) -> Span {
        Span { from: self.offset as int, to: self.offset + self.len }
    }
}

/// The spans of chunks.
pub open spec fn spans(v: Seq<Chunk>) -> Seq<Span> {
    v.map_values(|c: Chunk| c@)
}

/// The bytes from `start` to `total`, cut into pieces of `size`; the last one may be shorter.
pub open spec fn cut_up(start: int, total: int, size: int) -> Seq<Span>
    decreases total - start,
{
    if start >= total || size <= 0 {
        Seq::empty()
    } else if total - start <= size {
        seq![Span { from: start, to: total }]
    } else {
        seq![Span { from: start, to: start + size }] + cut_up(start + size, total, size)
    }
}

/// Split the bytes from `start` to `total` into chunks.
pub fn plan_chunks(start: u64, total: u64, chunk_size: u64) -> (r: Vec<Chunk>)
    requires
        start < total ==> chunk_size > 0,
    ensures
        spans(r@) == cut_up(start as int, total as int, chunk_size as int),
        forall|i: int| 0 <= i < r@.len() ==> (#[trigger] r@[i]).offset + r@[i].len <= total,
{
    let mut r: Vec<Chunk> = Vec::new();
    let mut off: u64 = start;
    assert(spans(r@) + cut_up(off as int, total as int, chunk_size as int) =~= cut_up(
        start as int,
        total as int,
        chunk_size as int,
    ));
    while off < total
        invariant
            off < total ==> chunk_size > 0,
            spans(r@) + cut_up(off as int, total as int, chunk_size as int) == cut_up(
                start as int,
                total as int,
                chunk_size as int,
            ),
            forall|i: int| 0 <= i < r@.len() ==> (#[trigger] r@[i]).offset + r@[i].len <= total,
        decreases total - off,
    {
        let rest: u64 = total - off;
        let len: u64 = if chunk_size < rest {
            chunk_size
        } else {
            rest
        };
        let ghost before = r@;
        let c = Chunk { offset: off, len };
        r.push(c);
        proof {
            assert(spans(r@) =~= spans(before).push(c@));
            let tail = cut_up(off + len, total as int, chunk_size as int);
            assert(cut_up(off as int, total as int, chunk_size as int) =~= seq![c@] + tail);
            assert(spans(r@) + tail =~= spans(before) + (seq![c@] + tail));
        }
        off = off + len;
    }
    assert(spans(r@) =~= spans(r@) + cut_up(off as int, total as int, chunk_size as int));
    r
}

/// The point up to which everything from `start` on is done without a gap.
pub open spec fn prefix_of(start: int, l: Seq<Span>, done: Seq<bool>) -> int
    decreases l.len(),
{
    if l.len() == 0 || done.len() == 0 || !done[0] {
        start
    } else {
        prefix_of(l[0].to, l.skip(1), done.skip(1))
    }
}

/// The end of the unbroken run of finished chunks from `start` on.
pub fn contiguous_prefix(start: u64, chunks: &[Chunk], done: &[bool]) -> (r: u64)
    requires
        chunks@.len() <= done@.len() || exists|k: int| 0 <= k < done@.len() && !done@[k],
        forall|i: int|
            0 <= i < chunks@.len() ==> (#[trigger] chunks@[i]).offset + chunks@[i].len <= u64::MAX,
    ensures
        r == prefix_of(start as int, spans(chunks@), done@),
{
    let mut prefix: u64 = start;
    let mut i: usize = 0;
    assert(spans(chunks@).skip(0) =~= spans(chunks@));
    assert(done@.skip(0) =~= done@);
    while i < chunks.len()
        invariant
            i <= chunks@.len(),
            i <= done@.len(),
            chunks@.len() <= done@.len() || exists|k: int| i <= k < done@.len() && !done@[k],
            forall|k: int|
                0 <= k < chunks@.len() ==> (#[trigger] chunks@[k]).offset + chunks@[k].len
                    <= u64::MAX,
            prefix_of(start as int, spans(chunks@), done@) == prefix_of(
                prefix as int,
                spans(chunks@).skip(i as int),
                done@.skip(i as int),
            ),
        decreases chunks@.len() - i,
    {
        proof {
            assert(spans(chunks@).skip(i as int)[0] == chunks@[i as int]@);
            assert(done@.skip(i as int)[0] == done@[i as int]);
            assert(spans(chunks@).skip(i as int).skip(1) =~= spans(chunks@).skip(i + 1));
            assert(done@.skip(i as int).skip(1) =~= done@.skip(i + 1));
        }
        if !done[i] {
            return prefix;
        }
        prefix = chunks[i].offset + chunks[i].len;
        i = i + 1;
    }
    prefix
}

// ---- Options and outcome ----

/// How the fast lane is used.
#[derive(Debug, Clone, Copy)]
pub struct GetOptions {
    /// Number of parallel connections.
    pub streams: usize,
    /// Bytes that each connection asks for at a time.
    pub chunk_size: u64,
}

impl Default for GetOptions {
    fn default() -> (o: GetOptions)
        ensures
            o.streams == 4,
            o.chunk_size == 0x40_0000,
    {
        GetOptions { streams: 4, chunk_size: 0x40_0000 }
    }
}

/// The outcome of a finished download.
#[derive(Debug, Clone)]
pub struct Report {
    /// Path that the file was written to.
    pub path: String,
    /// Whole size in bytes.
    pub total: u64,
    /// Whether the fast lane carried the transfer.
    pub used_fast: bool,
    /// Whether a whole-file CRC-32 was checked and matched.
    pub verified: bool,
    /// Bytes already on disk when the download started.
    pub resumed_from: u64,
    /// Number of parallel connections that the fast lane used.
    pub streams: usize,
}

/// What a finished fast-lane download has to say.
pub struct FastOutcome {
    pub total: u64,
    pub verified: bool,
    pub resumed_from: u64,
    pub streams: usize,
}

/// The outcome of a download over the fast lane.
pub fn fast_report(path: String, o: FastOutcome) -> (r: Report)
    ensures
        r == (Report {
            path,
            total: o.total,
            used_fast: true,
            verified: o.verified,
            resumed_from: o.resumed_from,
            streams: o.streams,
        }),
{
    Report {
        path,
        total: o.total,
        used_fast: true,
        verified: o.verified,
        resumed_from: o.resumed_from,
        streams: o.streams,
    }
}

/// The outcome of a download over HTTP.
pub fn http_report(path: String, total: u64, resumed_from: u64) -> (r: Report)
    ensures
        r == (Report {
            path,
            total,
            used_fast: false,
            verified: false,
            resumed_from,
            streams: 0,
        }),
{
    Report { path, total, used_fast: false, verified: false, resumed_from, streams: 0 }
}

/// Where a download stands on the way from its link to its report.
pub enum GetStep {
    /// Fetch over the fast lane on this port.
    Fast(u16),
    /// Fetch over HTTP, from whatever is on disk.
    Http,
    /// Rename the temporary file into place and report.
    Finish(Report),
    /// Give up.
    Fail,
}

/// The first step: the fast lane where the server advertises one, else HTTP. A failed probe means
/// that there is none.
pub fn first_step(fast_port: Option<u16>) -> (s: GetStep)
    ensures
        s == (match fast_port {
            Some(p) => GetStep::Fast(p),
            None => GetStep::Http,
        }),
{
    match fast_port {
        Some(p) => GetStep::Fast(p),
        None => GetStep::Http,
    }
}

/// The step after the fast lane was tried: any failure falls back to HTTP.
pub fn after_fast(path: String, outcome: Option<FastOutcome>) -> (s: GetStep)
    ensures
        match outcome {
            Some(o) => s == GetStep::Finish(
                Report {
                    path,
                    total: o.total,
                    used_fast: true,
                    verified: o.verified,
                    resumed_from: o.resumed_from,
                    streams: o.streams,
                },
            ),
            None => s is Http,
        },
{
    match outcome {
        Some(o) => GetStep::Finish(fast_report(path, o)),
        None => GetStep::Http,
    }
}

/// The step after HTTP was tried, given the size and the offset it resumed from.
pub fn after_http(path: String, outcome: Option<(u64, u64)>) -> (s: GetStep)
    ensures
        match outcome {
            Some((total, resumed_from)) => s == GetStep::Finish(
                Report {
                    path,
                    total,
                    used_fast: false,
                    verified: false,
                    resumed_from,
                    streams: 0,
                },
            ),
            None => s is Fail,
        },
{
    match outcome {
        Some((total, resumed_from)) => GetStep::Finish(http_report(path, total, resumed_from)),
        None => GetStep::Fail,
    }
}

// ---- Integrity ----

/// What comparing a file with the CRC-32 that the server declared says.
#[derive(Clone, Copy, Debug, PartialEq, Eq, Structural)]
pub enum Integrity {
    /// It matches.
    Verified,
    /// The server declared none.
    Unchecked,
    /// It does not match: the file is to be deleted.
    Corrupt,
    /// The file could not be read.
    Unreadable,
}

/// Compare a file's CRC-32 with the one that the server declared.
pub fn verify_crc(expected: Option<u32>, got: Option<u32>) -> (r: Integrity)
    ensures
        r == (match (expected, got) {
            (None, _) => Integrity::Unchecked,
            (Some(_), None) => Integrity::Unreadable,
            (Some(want), Some(have)) => if want == have {
                Integrity::Verified
            } else {
                Integrity::Corrupt
            },
        }),
{
    match (expected, got) {
        (None, _) => Integrity::Unchecked,
        (Some(_), None) => Integrity::Unreadable,
        (Some(want), Some(have)) => if want == have {
            Integrity::Verified
        } else {
            Integrity::Corrupt
        },
    }
}

/// Where a download resumes: at the end of the bytes on disk, or at the start if there are more
/// than the file has.
pub fn resume_start(on_disk: u64, total: u64) -> (r: u64)
    ensures
        r == (if on_disk > total {
            0
        } else {
            on_disk
        }),
        r <= total,
{
    if on_disk > total {
        0
    } else {
        on_disk
    }
}

// ---- The pool ----

/// How often one chunk may fail before the fast lane gives up.
pub const MAX_CHUNK_ATTEMPTS: u32 = 4;

/// Smallest chunk that is asked for.
pub const MIN_CHUNK: u64 = 65536;

/// The chunks of a download, shared by its workers: which are waiting, handed out or done.
pub struct ChunkPool {
    start: u64,
    total: u64,
    chunks: Vec<Chunk>,
    done: Vec<bool>,
    out: Vec<bool>,
    attempts: Vec<u32>,
    pending: Vec<usize>,
    aborted: bool,
}

/// A pool as mathematical values.
pub ghost struct Pool {
    pub start: int,
    pub total: int,
    pub chunks: Seq<Span>,
    pub done: Seq<bool>,
    pub out: Seq<bool>,
    pub attempts: Seq<u32>,
    pub pending: Seq<usize>,
    pub aborted: bool,
}

impl View for ChunkPool {
    type V = Pool;

    closed spec fn view(&self) -> Pool {
        Pool {
            start: self.start as int,
            total: self.total as int,
            chunks: spans(self.chunks@),
            done: self.done@,
            out: self.out@,
            attempts: self.attempts@,
            pending: self.pending@,
            aborted: self.aborted,
        }
    }
}

impl Pool {
    /// Whether a chunk is waiting.
    pub open spec fn waits(&self, i: int) -> bool {
        exists|k: int| 0 <= k < self.pending.len() && #[trigger] self.pending[k] == i
    }

    /// Every chunk is in one place: waiting, handed out, done, or given up, and only an aborted
    /// pool has given one up. No chunk waits twice, and one that can still be fetched has
    /// attempts left.
    pub open spec fn wf(&self) -> bool {
        &&& self.done.len() == self.chunks.len()
        &&& self.out.len() == self.chunks.len()
        &&& self.attempts.len() == self.chunks.len()
        &&& forall|k: int|
            0 <= k < self.pending.len() ==> (#[trigger] self.pending[k]) < self.chunks.len()
        &&& forall|k: int, m: int|
            0 <= k < m < self.pending.len() ==> (#[trigger] self.pending[k]) != (
            #[trigger] self.pending[m])
        &&& forall|k: int|
            0 <= k < self.pending.len() ==> !self.done[(#[trigger] self.pending[k]) as int]
                && !self.out[self.pending[k] as int] && self.attempts[self.pending[k] as int]
                < MAX_CHUNK_ATTEMPTS
        &&& forall|i: int|
            0 <= i < self.chunks.len() && #[trigger] self.out[i] ==> !self.done[i]
                && self.attempts[i] < MAX_CHUNK_ATTEMPTS
        &&& forall|i: int|
            0 <= i < self.chunks.len() ==> self.aborted || #[trigger] self.done[i] || self.out[i]
                || self.waits(i)
    }

    /// Whether every chunk is done.
    pub open spec fn complete(&self) -> bool {
        forall|i: int| 0 <= i < self.chunks.len() ==> #[trigger] self.done[i]
    }
}

proof fn lemma_out_is_not_waiting(p: Pool, i: int)
    requires
        p.wf(),
        0 <= i < p.chunks.len(),
        p.out[i],
    ensures
        !p.waits(i),
{
    if p.waits(i) {
        let k = choose|k: int| 0 <= k < p.pending.len() && #[trigger] p.pending[k] == i;
        assert(!p.out[p.pending[k] as int]);
    }
}

/// Moving one chunk from one place to another keeps a pool well-formed, where the chunk is in one
/// place afterwards.
proof fn lemma_one_moved(before: Pool, now: Pool, i: usize)
    requires
        before.wf(),
        i < before.chunks.len(),
        now.chunks == before.chunks,
        now.done.len() == now.chunks.len(),
        now.out.len() == now.chunks.len(),
        now.attempts.len() == now.chunks.len(),
        forall|m: int|
            0 <= m < now.chunks.len() && m != i ==> #[trigger] now.done[m] == before.done[m]
                && now.out[m] == before.out[m] && now.attempts[m] == before.attempts[m],
        before.aborted ==> now.aborted,
        now.pending == before.pending || (now.pending == before.pending.push(i)
            && !before.waits(i as int)) || (before.pending.len() > 0 && now.pending
            == before.pending.drop_last() && before.pending.last() == i),
        now.out[i as int] ==> !now.done[i as int] && now.attempts[i as int] < MAX_CHUNK_ATTEMPTS,
        now.waits(i as int) ==> !now.done[i as int] && !now.out[i as int] && now.attempts[i as int] < MAX_CHUNK_ATTEMPTS,
        now.aborted || now.done[i as int] || now.out[i as int] || now.waits(i as int),
    ensures
        now.wf(),
{
    let n = before.pending.len();
    assert forall|k: int| 0 <= k < now.pending.len() implies (#[trigger] now.pending[k])
        < now.chunks.len() && !now.done[now.pending[k] as int] && !now.out[now.pending[k] as int]
        && now.attempts[now.pending[k] as int] < MAX_CHUNK_ATTEMPTS by {
        if now.pending[k] == i {
            assert(now.waits(i as int));
        } else {
            assert(now.pending[k] == before.pending[k]);
            let m = before.pending[k] as int;
            assert(now.done[m] == before.done[m]);
        }
    }
    assert forall|k: int, m: int| 0 <= k < m < now.pending.len() implies (#[trigger] now.pending[k])
        != (#[trigger] now.pending[m]) by {
        assert(now.pending[k] == before.pending[k]);
        if m < n {
            assert(now.pending[m] == before.pending[m]);
        } else if before.pending[k] == i {
            assert(before.waits(i as int));
        }
    }
    assert forall|m: int| 0 <= m < now.chunks.len() && #[trigger] now.out[m] implies !now.done[m]
        && now.attempts[m] < MAX_CHUNK_ATTEMPTS by {
        if m != i {
            assert(now.done[m] == before.done[m]);
            assert(before.out[m]);
        }
    }
    assert forall|m: int| 0 <= m < now.chunks.len() implies now.aborted || #[trigger] now.done[m]
        || now.out[m] || now.waits(m) by {
        if m != i {
            assert(before.aborted || before.done[m] || before.out[m] || before.waits(m));
            if before.waits(m) {
                let k = choose|k: int| 0 <= k < n && #[trigger] before.pending[k] == m;
                assert(now.pending[k] == m);
            }
        }
    }
}

/// The larger of two numbers.
pub open spec fn larger(a: int, b: int) -> int {
    if a > b {
        a
    } else {
        b
    }
}

fn fill(n: usize, b: bool) -> (v: Vec<bool>)
    ensures
        v@.len() == n,
        forall|i: int| 0 <= i < n ==> #[trigger] v@[i] == b,
{
    let mut v: Vec<bool> = Vec::new();
    let mut i: usize = 0;
    while i < n
        invariant
            i <= n,
            v@.len() == i,
            forall|j: int| 0 <= j < i ==> #[trigger] v@[j] == b,
        decreases n - i,
    {
        v.push(b);
        i = i + 1;
    }
    v
}

impl ChunkPool {
    /// The chunks are where the pool says, inside the file.
    pub closed spec fn sound(&self) -> bool {
        &&& self@.wf()
        &&& forall|i: int|
            0 <= i < self.chunks@.len() ==> (#[trigger] self.chunks@[i]).offset
                + self.chunks@[i].len <= self.total
    }

    /// Cut up what is left of a file. Chunks are never smaller than the minimum, and wait in the
    /// order of the file.
    pub fn new(start: u64, total: u64, chunk_size: u64) -> (p: ChunkPool)
        ensures
            p.sound(),
            p@.wf(),
            p@.start == start,
            p@.total == total,
            p@.chunks == cut_up(
                start as int,
                total as int,
                larger(chunk_size as int, MIN_CHUNK as int),
            ),
            forall|i: int| 0 <= i < p@.chunks.len() ==> !(#[trigger] p@.done[i]),
            forall|i: int| 0 <= i < p@.chunks.len() ==> !(#[trigger] p@.out[i]),
            forall|i: int| 0 <= i < p@.chunks.len() ==> #[trigger] p@.attempts[i] == 0,
            p@.pending.len() == p@.chunks.len(),
            forall|k: int|
                0 <= k < p@.pending.len() ==> #[trigger] p@.pending[k] == p@.chunks.len() - 1 - k,
            !p@.aborted,
    {
        let size: u64 = if chunk_size > MIN_CHUNK {
            chunk_size
        } else {
            MIN_CHUNK
        };
        let chunks = plan_chunks(start, total, size);
        let n: usize = chunks.len();
        let mut attempts: Vec<u32> = Vec::new();
        let mut pending: Vec<usize> = Vec::new();
        let mut i: usize = 0;
        while i < n
            invariant
                i <= n,
                attempts@.len() == i,
                pending@.len() == i,
                forall|j: int| 0 <= j < i ==> #[trigger] attempts@[j] == 0,
                forall|j: int| 0 <= j < i ==> #[trigger] pending@[j] == n - 1 - j,
            decreases n - i,
        {
            attempts.push(0);
            pending.push(n - 1 - i);
            i = i + 1;
        }
        let p = ChunkPool {
            start,
            total,
            chunks,
            done: fill(n, false),
            out: fill(n, false),
            attempts,
            pending,
            aborted: false,
        };
        proof {
            assert forall|i: int| 0 <= i < n implies p@.waits(i) by {
                assert(p@.pending[n - 1 - i] == i);
            }
        }
        p
    }

    /// How many connections to use: at least one, and no more than there are chunks.
    pub fn streams(&self, wanted: usize) -> (n: usize)
        requires
            self.sound(),
        ensures
            n == ({
                let w = larger(wanted as int, 1);
                if w < self@.chunks.len() {
                    w
                } else {
                    self@.chunks.len() as int
                }
            }),
    {
        let w: usize = if wanted > 1 {
            wanted
        } else {
            1
        };
        if w < self.chunks.len() {
            w
        } else {
            self.chunks.len()
        }
    }

    /// Hand out the next chunk to a worker, if there is one and the pool goes on.
    pub fn next(&mut self) -> (r: Option<(usize, Chunk)>)
        requires
            old(self).sound(),
        ensures
            final(self).sound(),
            match r {
                Some((i, c)) => {
                    &&& !old(self)@.aborted
                    &&& old(self)@.pending.len() > 0
                    &&& i == old(self)@.pending.last()
                    &&& i < old(self)@.chunks.len()
                    &&& c@ == old(self)@.chunks[i as int]
                    &&& final(self)@ == (Pool {
                        pending: old(self)@.pending.drop_last(),
                        out: old(self)@.out.update(i as int, true),
                        ..old(self)@
                    })
                },
                None => {
                    &&& old(self)@.aborted || old(self)@.pending.len() == 0
                    &&& final(self)@ == old(self)@
                },
            },
    {
        if self.aborted {
            return None;
        }
        let ghost before = self@;
        match self.pending.pop() {
            Some(i) => {
                assert(before.pending[before.pending.len() - 1] == i);
                self.out.set(i, true);
                proof {
                    assert(self@.pending =~= before.pending.drop_last());
                    assert forall|k: int| 0 <= k < self@.pending.len() implies self@.pending[k]
                        != i by {
                        assert(self@.pending[k] == before.pending[k]);
                    }
                    lemma_one_moved(before, self@, i);
                }
                Some((i, self.chunks[i]))
            },
            None => None,
        }
    }

    /// A worker has fetched a chunk.
    pub fn succeeded(&mut self, i: usize)
        requires
            old(self).sound(),
            i < old(self)@.chunks.len(),
            old(self)@.out[i as int],
        ensures
            final(self).sound(),
            final(self)@ == (Pool {
                done: old(self)@.done.update(i as int, true),
                out: old(self)@.out.update(i as int, false),
                ..old(self)@
            }),
    {
        let ghost before = self@;
        self.done.set(i, true);
        self.out.set(i, false);
        proof {
            lemma_out_is_not_waiting(before, i as int);
            lemma_one_moved(before, self@, i);
        }
    }

    /// A worker failed to fetch a chunk. It is queued again, unless it has failed too often: then
    /// the pool gives up, and the result says so.
    pub fn failed(&mut self, i: usize) -> (over: bool)
        requires
            old(self).sound(),
            i < old(self)@.chunks.len(),
            old(self)@.out[i as int],
        ensures
            final(self).sound(),
            over == (old(self)@.attempts[i as int] + 1 >= MAX_CHUNK_ATTEMPTS),
            final(self)@ == (Pool {
                attempts: old(self)@.attempts.update(
                    i as int,
                    (old(self)@.attempts[i as int] + 1) as u32,
                ),
                out: old(self)@.out.update(i as int, false),
                pending: if over {
                    old(self)@.pending
                } else {
                    old(self)@.pending.push(i)
                },
                aborted: old(self)@.aborted || over,
                ..old(self)@
            }),
    {
        let ghost before = self@;
        assert(before.out[i as int]);
        let n: u32 = self.attempts[i] + 1;
        self.attempts.set(i, n);
        self.out.set(i, false);
        let over: bool = n >= MAX_CHUNK_ATTEMPTS;
        if over {
            self.aborted = true;
        } else {
            self.pending.push(i);
        }
        proof {
            lemma_out_is_not_waiting(before, i as int);
            if over {
                assert(self@.pending =~= before.pending);
            } else {
                assert(self@.pending =~= before.pending.push(i));
                assert(self@.pending[before.pending.len() as int] == i);
            }
            lemma_one_moved(before, self@, i);
        }
        over
    }

    /// Give up, for a worker that cannot work.
    pub fn abort(&mut self)
        requires
            old(self).sound(),
        ensures
            final(self).sound(),
            final(self)@ == (Pool { aborted: true, ..old(self)@ }),
    {
        let ghost before = self@;
        self.aborted = true;
        proof {
            if before.chunks.len() > 0 {
                lemma_one_moved(before, self@, 0);
            }
        }
    }

    /// Whether the pool gave up.
    pub fn is_aborted(&self) -> (r: bool)
        ensures
            r == self@.aborted,
    {
        self.aborted
    }

    /// Once the workers have ended: nothing if every chunk is done, else the length to cut the
    /// temporary file to, so that it is an unbroken beginning of the file.
    pub fn unfinished(&self) -> (r: Option<u64>)
        requires
            self.sound(),
        ensures
            match r {
                Some(n) => !self@.complete() && n == prefix_of(
                    self@.start,
                    self@.chunks,
                    self@.done,
                ),
                None => self@.complete(),
            },
    {
        let mut i: usize = 0;
        while i < self.done.len()
            invariant
                i <= self.done@.len(),
                self.sound(),
                forall|j: int| 0 <= j < i ==> #[trigger] self.done@[j],
            decreases self.done@.len() - i,
        {
            if !self.done[i] {
                assert(!self@.done[i as int]);
                return Some(contiguous_prefix(self.start, &self.chunks, &self.done));
            }
            i = i + 1;
        }
        None
    }
}

// ---- From start to end ----

/// Why a fast-lane download failed.
#[derive(Clone, Copy, Debug, PartialEq, Eq, Structural)]
pub enum FastError {
    /// Chunks are missing; the temporary file is to be cut to the given length.
    Incomplete(u64, u64),
    /// The temporary file has a wrong size.
    SizeMismatch(u64, u64),
    /// The CRC-32 does not match; the temporary file is to be deleted.
    Corrupt,
    /// The temporary file could not be read again.
    Unreadable,
}

/// The text of a failure.
pub open spec fn error_text(e: FastError) -> Seq<char> {
    match e {
        FastError::Incomplete(prefix, total) =>
            "fast lane incomplete after retries (contiguous prefix "@ + dec(prefix as nat) + "/"@
                + dec(total as nat) + ")"@,
        FastError::SizeMismatch(got, total) => "fast lane size mismatch: "@ + dec(got as nat)
            + "/"@ + dec(total as nat),
        FastError::Corrupt => "integrity check failed (CRC mismatch)"@,
        FastError::Unreadable => "reading for CRC"@,
    }
}

impl FastError {
    /// The text of a failure.
    pub fn message(&self) -> (r: String)
        ensures
            r@ == error_text(*self),
    {
        let mut r = String::new();
        match *self {
            FastError::Incomplete(prefix, total) => {
                r.append("fast lane incomplete after retries (contiguous prefix ");
                push_dec(&mut r, prefix);
                r.append("/");
                push_dec(&mut r, total);
                r.append(")");
            },
            FastError::SizeMismatch(got, total) => {
                r.append("fast lane size mismatch: ");
                push_dec(&mut r, got);
                r.append("/");
                push_dec(&mut r, total);
            },
            FastError::Corrupt => {
                r.append("integrity check failed (CRC mismatch)");
            },
            FastError::Unreadable => {
                r.append("reading for CRC");
            },
        }
        assert(r@ =~= error_text(*self));
        r
    }
}

/// How a fast-lane download begins.
pub enum FastStart {
    /// Every byte is on disk already: only the CRC-32 is left to compare.
    Whole,
    /// Fetch the chunks of the pool over this many connections.
    Fetch(ChunkPool, usize),
}

/// Begin a fast-lane download of a file of `total` bytes, of which `on_disk` are here already.
/// The result holds the offset that the download resumes from.
pub fn fast_download(on_disk: u64, total: u64, opts: GetOptions) -> (r: (u64, FastStart))
    ensures
        r.0 == (if on_disk > total {
            0
        } else {
            on_disk
        }),
        match r.1 {
            FastStart::Whole => r.0 == total,
            FastStart::Fetch(pool, streams) => {
                &&& r.0 < total
                &&& pool.sound()
                &&& pool@.wf()
                &&& pool@.start == r.0
                &&& pool@.total == total
                &&& pool@.chunks == cut_up(
                    r.0 as int,
                    total as int,
                    larger(opts.chunk_size as int, MIN_CHUNK as int),
                )
                &&& pool@.pending.len() == pool@.chunks.len()
                &&& forall|k: int|
                    0 <= k < pool@.pending.len() ==> #[trigger] pool@.pending[k]
                        == pool@.chunks.len() - 1 - k
                &&& forall|i: int| 0 <= i < pool@.chunks.len() ==> !(#[trigger] pool@.done[i])
                &&& forall|i: int| 0 <= i < pool@.chunks.len() ==> !(#[trigger] pool@.out[i])
                &&& forall|i: int| 0 <= i < pool@.chunks.len() ==> #[trigger] pool@.attempts[i] == 0
                &&& !pool@.aborted
                &&& 1 <= streams <= pool@.chunks.len()
                &&& streams == larger(opts.streams as int, 1) || streams == pool@.chunks.len()
                    && streams < opts.streams
            },
        },
{
    let start: u64 = resume_start(on_disk, total);
    if start == total {
        return (start, FastStart::Whole);
    }
    let pool = ChunkPool::new(start, total, opts.chunk_size);
    proof {
        chunks_cover_the_file(
            start as int,
            total as int,
            larger(opts.chunk_size as int, MIN_CHUNK as int),
        );
    }
    let streams: usize = pool.streams(opts.streams);
    (start, FastStart::Fetch(pool, streams))
}

/// Judge a download whose bytes are all here by its CRC-32.
pub fn conclude(check: Integrity, total: u64, resumed_from: u64, streams: usize) -> (r: Result<
    FastOutcome,
    FastError,
>)
    ensures
        match check {
            Integrity::Verified | Integrity::Unchecked => r == Ok::<FastOutcome, FastError>(
                FastOutcome {
                    total,
                    verified: check == Integrity::Verified,
                    resumed_from,
                    streams,
                },
            ),
            Integrity::Corrupt => r == Err::<FastOutcome, FastError>(FastError::Corrupt),
            Integrity::Unreadable => r == Err::<FastOutcome, FastError>(FastError::Unreadable),
        },
{
    match check {
        Integrity::Verified => Ok(FastOutcome { total, verified: true, resumed_from, streams }),
        Integrity::Unchecked => Ok(FastOutcome { total, verified: false, resumed_from, streams }),
        Integrity::Corrupt => Err(FastError::Corrupt),
        Integrity::Unreadable => Err(FastError::Unreadable),
    }
}

/// Judge the work of the pool, once its workers have ended, and the size of the temporary file.
/// Nothing wrong means that the CRC-32 is left to compare.
pub fn assembled(pool: &ChunkPool, total: u64, size: u64) -> (r: Option<FastError>)
    requires
        pool.sound(),
    ensures
        match r {
            Some(FastError::Incomplete(prefix, t)) => !pool@.complete() && t == total && prefix
                == prefix_of(pool@.start, pool@.chunks, pool@.done),
            Some(FastError::SizeMismatch(got, t)) => pool@.complete() && got == size && t == total
                && size != total,
            Some(_) => false,
            None => pool@.complete() && size == total,
        },
{
    match pool.unfinished() {
        Some(prefix) => Some(FastError::Incomplete(prefix, total)),
        None => if size != total {
            Some(FastError::SizeMismatch(size, total))
        } else {
            None
        },
    }
}

// ---- Laws ----

/// Whether spans follow one another without a gap from `start` to `total`, each of them nonempty
/// and at most `size` long.
pub open spec fn tiles(l: Seq<Span>, start: int, total: int, size: int) -> bool {
    &&& l.len() > 0 ==> l[0].from == start && l.last().to == total
    &&& l.len() == 0 ==> start >= total
    &&& forall|i: int| 0 <= i < l.len() ==> 0 < (#[trigger] l[i]).to - l[i].from <= size
    &&& forall|i: int| 0 < i < l.len() ==> (#[trigger] l[i]).from == l[i - 1].to
}

/// Chunks cover the rest of the file exactly: no byte is left out and none is fetched twice.
pub proof fn chunks_cover_the_file(start: int, total: int, size: int)
    requires
        size > 0,
    ensures
        tiles(cut_up(start, total, size), start, total, size),
    decreases total - start,
{
    let l = cut_up(start, total, size);
    if start < total && total - start > size {
        chunks_cover_the_file(start + size, total, size);
        let rest = cut_up(start + size, total, size);
        assert(l.skip(1) =~= rest);
        assert(l.last() == rest.last());
        assert forall|i: int| 0 <= i < l.len() implies 0 < (#[trigger] l[i]).to - l[i].from
            <= size by {
            if i > 0 {
                assert(l[i] == rest[i - 1]);
            }
        }
        assert forall|i: int| 0 < i < l.len() implies (#[trigger] l[i]).from == l[i - 1].to by {
            assert(l[i] == rest[i - 1]);
            if i > 1 {
                assert(l[i - 1] == rest[i - 2]);
            }
        }
    }
}

/// The length of a nonempty tiling's parts up to and from a given span.
proof fn lemma_tiles_tail(l: Seq<Span>, start: int, total: int, size: int)
    requires
        tiles(l, start, total, size),
        l.len() > 0,
    ensures
        tiles(l.skip(1), l[0].to, total, size),
        start < l[0].to <= total,
    decreases l.len(),
{
    let rest = l.skip(1);
    assert forall|i: int| 0 <= i < rest.len() implies 0 < (#[trigger] rest[i]).to - rest[i].from
        <= size by {
        assert(rest[i] == l[i + 1]);
    }
    assert forall|i: int| 0 < i < rest.len() implies (#[trigger] rest[i]).from == rest[i
        - 1].to by {
        assert(rest[i] == l[i + 1] && rest[i - 1] == l[i]);
    }
    if rest.len() > 0 {
        assert(rest[0] == l[1]);
        assert(rest.last() == l.last());
        lemma_tiles_tail(rest, l[0].to, total, size);
    }
}

/// The file cut to the unbroken prefix holds nothing but finished chunks, and it is cut at the
/// first gap; it is the whole file exactly if every chunk is done.
pub proof fn prefix_is_a_resume_point(
    start: int,
    total: int,
    size: int,
    l: Seq<Span>,
    done: Seq<bool>,
)
    requires
        tiles(l, start, total, size),
        done.len() == l.len(),
        start <= total,
    ensures
        start <= prefix_of(start, l, done) <= total,
        forall|i: int|
            0 <= i < l.len() && (#[trigger] l[i]).from < prefix_of(start, l, done) ==> done[i]
                && l[i].to <= prefix_of(start, l, done),
        prefix_of(start, l, done) == total <==> forall|i: int|
            0 <= i < l.len() ==> #[trigger] done[i],
    decreases l.len(),
{
    let p = prefix_of(start, l, done);
    if l.len() > 0 {
        lemma_tiles_tail(l, start, total, size);
        let (rest, left) = (l.skip(1), done.skip(1));
        lemma_from_rises(l, start, total, size);
        if done[0] {
            prefix_is_a_resume_point(l[0].to, total, size, rest, left);
            assert forall|i: int| 0 <= i < l.len() && (#[trigger] l[i]).from < p implies done[i]
                && l[i].to <= p by {
                if i > 0 {
                    assert(rest[i - 1] == l[i]);
                    assert(left[i - 1] == done[i]);
                }
            }
            if p == total {
                assert forall|i: int| 0 <= i < l.len() implies #[trigger] done[i] by {
                    if i > 0 {
                        assert(left[i - 1] == done[i]);
                    }
                }
            }
            if forall|i: int| 0 <= i < l.len() ==> #[trigger] done[i] {
                assert forall|i: int| 0 <= i < rest.len() implies #[trigger] left[i] by {
                    assert(left[i] == done[i + 1]);
                }
            }
        }
    }
}

proof fn lemma_from_rises(l: Seq<Span>, start: int, total: int, size: int)
    requires
        tiles(l, start, total, size),
    ensures
        forall|i: int| 0 <= i < l.len() ==> start <= (#[trigger] l[i]).from,
    decreases l.len(),
{
    if l.len() > 0 {
        lemma_tiles_tail(l, start, total, size);
        lemma_from_rises(l.skip(1), l[0].to, total, size);
        assert forall|i: int| 0 <= i < l.len() implies start <= (#[trigger] l[i]).from by {
            if i > 0 {
                assert(l.skip(1)[i - 1] == l[i]);
            }
        }
    }
}

/// When the queue has run dry with nothing handed out, and the pool has not given up, every chunk
/// is done: no chunk is ever lost.
pub proof fn drained_pool_is_complete(p: Pool)
    requires
        p.wf(),
        !p.aborted,
        p.pending.len() == 0,
        forall|i: int| 0 <= i < p.chunks.len() ==> !(#[trigger] p.out[i]),
    ensures
        p.complete(),
{
    assert forall|i: int| 0 <= i < p.chunks.len() implies #[trigger] p.done[i] by {
        assert(p.done[i] || p.out[i] || p.waits(i));
    }
}

/// Whether the temporary file holds the file's bytes in a span.
pub open spec fn holds(part: Seq<u8>, file: Seq<u8>, s: Span) -> bool {
    forall|k: int| s.from <= k < s.to ==> #[trigger] part[k] == file[k]
}

proof fn lemma_some_chunk(l: Seq<Span>, start: int, total: int, size: int, k: int) -> (i: int)
    requires
        tiles(l, start, total, size),
        start <= k < total,
    ensures
        0 <= i < l.len(),
        l[i].from <= k < l[i].to,
    decreases l.len(),
{
    if k < l[0].to {
        0
    } else {
        lemma_tiles_tail(l, start, total, size);
        let i = lemma_some_chunk(l.skip(1), l[0].to, total, size, k);
        assert(l.skip(1)[i] == l[i + 1]);
        i + 1
    }
}

/// Downloads are byte-exact: where the temporary file began as a part of the file and every
/// finished chunk was written at its place, in whatever order, the unbroken prefix is the file's
/// own beginning, and with all chunks finished the temporary file is the file.
pub proof fn fetched_bytes_are_the_file(
    file: Seq<u8>,
    part: Seq<u8>,
    start: int,
    size: int,
    done: Seq<bool>,
)
    requires
        size > 0,
        0 <= start <= file.len(),
        part.len() == file.len(),
        part.take(start) == file.take(start),
        done.len() == cut_up(start, file.len() as int, size).len(),
        forall|i: int|
            0 <= i < done.len() && #[trigger] done[i] ==> holds(
                part,
                file,
                cut_up(start, file.len() as int, size)[i],
            ),
    ensures
        ({
            let prefix = prefix_of(start, cut_up(start, file.len() as int, size), done);
            &&& start <= prefix <= file.len()
            &&& part.take(prefix) == file.take(prefix)
        }),
        (forall|i: int| 0 <= i < done.len() ==> #[trigger] done[i]) ==> part == file,
{
    let total = file.len() as int;
    let l = cut_up(start, total, size);
    let prefix = prefix_of(start, l, done);
    chunks_cover_the_file(start, total, size);
    prefix_is_a_resume_point(start, total, size, l, done);
    assert forall|k: int| 0 <= k < prefix implies part[k] == file[k] by {
        if k < start {
            assert(part.take(start)[k] == part[k]);
            assert(file.take(start)[k] == file[k]);
        } else {
            let i = lemma_some_chunk(l, start, total, size, k);
            assert(l[i].from < prefix && done[i]);
            assert(holds(part, file, l[i]));
            assert(part[k] == file[k]);
        }
    }
    assert(part.take(prefix) =~= file.take(prefix));
    if forall|i: int| 0 <= i < done.len() ==> #[trigger] done[i] {
        assert(prefix == total);
        assert(part =~= file);
    }
}

/// How far a download came, and how large the file is, can be read back from the text of a failure.
pub proof fn failures_tell_how_far_it_came(prefix: u64, got: u64, total: u64)
    ensures
        ({
            let text = error_text(FastError::Incomplete(prefix, total));
            let front = "fast lane incomplete after retries (contiguous prefix "@.len() as int;
            let inner = text.subrange(front, text.len() - 1);
            inner == dec(prefix as nat) + seq!['/'] + dec(total as nat) && split_once(inner, '/') == Some(
                (dec(prefix as nat), dec(total as nat)),
            )
        }),
        ({
            let text = error_text(FastError::SizeMismatch(got, total));
            let inner = text.skip("fast lane size mismatch: "@.len() as int);
            inner == dec(got as nat) + seq!['/'] + dec(total as nat) && split_once(inner, '/') == Some(
                (dec(got as nat), dec(total as nat)),
            )
        }),
{
    reveal_strlit("fast lane incomplete after retries (contiguous prefix ");
    reveal_strlit("fast lane size mismatch: ");
    reveal_strlit("/");
    reveal_strlit(")");
    assert("/"@ =~= seq!['/']);
    fractions_are_read_back(prefix as nat, total as nat);
    fractions_are_read_back(got as nat, total as nat);
    let a = error_text(FastError::Incomplete(prefix, total));
    let front = "fast lane incomplete after retries (contiguous prefix "@.len() as int;
    assert(a.subrange(front, a.len() - 1) =~= dec(prefix as nat) + seq!['/'] + dec(total as nat));
    let b = error_text(FastError::SizeMismatch(got, total));
    assert(b.skip("fast lane size mismatch: "@.len() as int) =~= dec(got as nat) + seq!['/'] + dec(
        total as nat,
    ));
}

/// The unbroken run of finished chunks goes on to the first one that is not finished, and no
/// further.
pub proof fn prefix_ends_at_the_first_gap(start: int, l: Seq<Span>, done: Seq<bool>, i: int)
    requires
        done.len() == l.len(),
        0 <= i <= l.len(),
        forall|j: int| 0 <= j < i ==> #[trigger] done[j],
        i < l.len() ==> !done[i],
    ensures
        prefix_of(start, l, done) == (if i == 0 {
            start
        } else {
            l[i - 1].to
        }),
    decreases i,
{
    if i > 0 {
        assert(done[0]);
        let (rest, left) = (l.skip(1), done.skip(1));
        assert forall|j: int| 0 <= j < i - 1 implies #[trigger] left[j] by {
            assert(done[j + 1]);
        }
        prefix_ends_at_the_first_gap(l[0].to, rest, left, i - 1);
        if i > 1 {
            assert(rest[i - 2] == l[i - 1]);
        }
    }
}

/// Chunks are all of one size, but for the last one, which may be shorter.
pub proof fn chunks_are_of_one_size(start: int, total: int, size: int, i: int)
    requires
        size > 0,
        0 <= i < cut_up(start, total, size).len(),
    ensures
        cut_up(start, total, size)[i].from == start + size * i,
        i < cut_up(start, total, size).len() - 1 ==> cut_up(start, total, size)[i].to == start + size
            * (i + 1),
    decreases total - start,
{
    let l = cut_up(start, total, size);
    if total - start > size && i > 0 {
        let rest = cut_up(start + size, total, size);
        chunks_are_of_one_size(start + size, total, size, i - 1);
        assert(l[i] == rest[i - 1]);
        assert(size * i == size * (i - 1) + size && size * (i + 1) == size * i + size) by (nonlinear_arith);
    } else {
        assert(i == 0);
    }
}

/// The larger of two numbers is one of them, and below neither.
pub proof fn the_larger_is_below_neither(a: int, b: int)
    ensures
        larger(a, b) >= a,
        larger(a, b) >= b,
        larger(a, b) == a || larger(a, b) == b,
{
}

} // verus!
