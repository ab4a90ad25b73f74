//! Transfer bookkeeping: running totals, the activity list, and its persisted history.

use vstd::prelude::*;
use vstd::string::*;
use crate::num::{
    all_digits, dec, dec_is_read_back, dec_string, is_digit, lemma_dec_round_trip, parse_dec,
    parse_uint,
};
use crate::text::{
    chars_of, few_pieces_are_all_split, is_line, join, join_strings, lemma_lines_unlines,
    lemma_splitn_join, lines, lines_of, pieces_n, rows, same, splitn, string_of, texts, unlines,
};

verus! {

/// Direction of a transfer, from the server's point of view.
#[derive(Clone, Copy, Debug, PartialEq, Eq, Structural)]
pub enum Direction {
    /// A client is sending a file to this server.
    Upload,
    /// A client is downloading a file from this server.
    Download,
}

/// Live state of one transfer.
pub struct TransferState {
    pub id: u64,
    /// Stable identity of a resumable transfer. All chunks and resumes of the same file share one
    /// row. Empty for one-shot transfers.
    pub key: String,
    pub name: String,
    /// Absolute path of the file on this host; empty if unknown.
    pub path: String,
    pub direction: Direction,
    pub total: Option<u64>,
    pub done: u64,
    pub finished: bool,
    pub ok: bool,
    /// Set once a completed upload passed its CRC-32 check.
    pub verified: bool,
    /// Whether it went over the fast lane.
    pub fast: bool,
}

/// The same, as mathematical values.
#[verifier::ext_equal]
pub struct Transfer {
    pub id: nat,
    pub key: Seq<char>,
    pub name: Seq<char>,
    pub path: Seq<char>,
    pub direction: Direction,
    pub total: Option<u64>,
    pub done: u64,
    pub finished: bool,
    pub ok: bool,
    pub verified: bool,
    pub fast: bool,
}

impl View for TransferState {
    type V = Transfer;

    open spec fn view(&self) -> Transfer {
        Transfer {
            id: self.id as nat,
            key: self.key@,
            name: self.name@,
            path: self.path@,
            direction: self.direction,
            total: self.total,
            done: self.done,
            finished: self.finished,
            ok: self.ok,
            verified: self.verified,
            fast: self.fast,
        }
    }
}

/// The views of a list of transfers.
pub open spec fn transfers_of(v: Seq<TransferState>) -> Seq<Transfer> {
    v.map_values(|t: TransferState| t@)
}

/// How many transfers the activity list holds at most.
pub const MAX_TRANSFERS: usize = 50;

/// The most recent transfers of a list.
pub open spec fn recent(list: Seq<Transfer>) -> Seq<Transfer> {
    if list.len() > MAX_TRANSFERS {
        list.skip(list.len() - MAX_TRANSFERS)
    } else {
        list
    }
}

/// A transfer that has just begun.
pub open spec fn begun(
    id: nat,
    key: Seq<char>,
    name: Seq<char>,
    direction: Direction,
    total: Option<u64>,
    path: Seq<char>,
) -> Transfer {
    Transfer {
        id,
        key,
        name,
        path,
        direction,
        total,
        done: 0,
        finished: false,
        ok: false,
        verified: false,
        fast: false,
    }
}

/// The latest unfinished transfer with a given key.
pub open spec fn open_row(list: Seq<Transfer>, key: Seq<char>) -> Option<nat>
    decreases list.len(),
{
    if list.len() == 0 {
        None
    } else if list.last().key == key && !list.last().finished {
        Some(list.last().id)
    } else {
        open_row(list.drop_last(), key)
    }
}

/// Whether a transfer is an unfinished one with a given key.
pub open spec fn is_open(t: Transfer, key: Seq<char>) -> bool {
    t.key == key && !t.finished
}

/// Whether the row at a position is the newest unfinished one with a given key.
pub open spec fn newest_open(list: Seq<Transfer>, key: Seq<char>, i: int) -> bool {
    &&& 0 <= i < list.len()
    &&& is_open(list[i], key)
    &&& forall|j: int| i < j < list.len() ==> !is_open(#[trigger] list[j], key)
}

/// Whether no row is an unfinished one with a given key.
pub open spec fn none_open(list: Seq<Transfer>, key: Seq<char>) -> bool {
    forall|i: int| 0 <= i < list.len() ==> !is_open(#[trigger] list[i], key)
}

/// A change to one transfer.
pub enum Change {
    /// More bytes have moved.
    Add(u64),
    /// The number of bytes moved is this.
    Store(u64),
    /// The number of bytes moved is at least this.
    Raise(u64),
    /// It has ended.
    Finish,
    /// It has ended well.
    Succeed,
    /// It passed its integrity check.
    Verified,
    /// It goes over the fast lane.
    Fast,
}

/// A transfer after a change.
pub open spec fn changed(t: Transfer, c: Change) -> Transfer {
    match c {
        Change::Add(n) => Transfer { done: t.done.wrapping_add(n), ..t },
        Change::Store(n) => Transfer { done: n, ..t },
        Change::Raise(n) => Transfer {
            done: if n > t.done {
                n
            } else {
                t.done
            },
            ..t
        },
        Change::Finish => Transfer { finished: true, ..t },
        Change::Succeed => Transfer { ok: true, ..t },
        Change::Verified => Transfer { verified: true, ..t },
        Change::Fast => Transfer { fast: true, ..t },
    }
}

/// A list after a change to the transfer with the given id. An id that is no longer listed
/// changes nothing.
pub open spec fn changed_in(list: Seq<Transfer>, id: nat, c: Change) -> Seq<Transfer> {
    list.map_values(
        |t: Transfer|
            if t.id == id {
                changed(t, c)
            } else {
                t
            },
    )
}

// ---- History ----

/// A finished transfer as its history line keeps it.
#[verifier::ext_equal]
pub struct Record {
    pub direction: Direction,
    pub name: Seq<char>,
    pub total: Option<u64>,
    pub done: u64,
    pub ok: bool,
    pub verified: bool,
    pub path: Seq<char>,
}

/// A character that can stand in a history field: tabs and line ends become spaces.
pub open spec fn field_char(c: char) -> char {
    if c == '\t' || c == '\n' || c == '\r' {
        ' '
    } else {
        c
    }
}

/// A text that can stand in a history field.
pub open spec fn field_text(s: Seq<char>) -> Seq<char> {
    s.map_values(|c: char| field_char(c))
}

/// A flag in a history line.
pub open spec fn flag(b: bool) -> Seq<char> {
    if b {
        seq!['1']
    } else {
        seq!['0']
    }
}

/// A direction in a history line.
pub open spec fn direction_text(d: Direction) -> Seq<char> {
    match d {
        Direction::Upload => seq!['u', 'p'],
        Direction::Download => seq!['d', 'o', 'w', 'n'],
    }
}

/// The fields of a history line.
pub open spec fn fields(t: Transfer) -> Seq<Seq<char>> {
    seq![
        direction_text(t.direction),
        field_text(t.name),
        match t.total {
            Some(n) => dec(n as nat),
            None => seq!['-'],
        },
        dec(t.done as nat),
        flag(t.ok),
        flag(t.verified),
        field_text(t.path),
    ]
}

/// The history lines of a list: one for each finished transfer.
pub open spec fn history_lines(list: Seq<Transfer>) -> Seq<Seq<char>>
    decreases list.len(),
{
    if list.len() == 0 {
        Seq::empty()
    } else if list.last().finished {
        history_lines(list.drop_last()).push(join(fields(list.last()), seq!['\t']))
    } else {
        history_lines(list.drop_last())
    }
}

/// The number in a history field, if it is one.
pub open spec fn number_field(s: Seq<char>) -> Option<u64> {
    match parse_dec(s, u64::MAX as nat) {
        Some(n) => Some(n as u64),
        None => None,
    }
}

/// What a history line says. Lines with fewer than six fields say nothing.
pub open spec fn parsed(line: Seq<char>) -> Option<Record> {
    let f = splitn(line, '\t', 7);
    if f.len() < 6 {
        None
    } else {
        Some(
            Record {
                direction: if f[0] == seq!['d', 'o', 'w', 'n'] {
                    Direction::Download
                } else {
                    Direction::Upload
                },
                name: f[1],
                total: number_field(f[2]),
                done: match number_field(f[3]) {
                    Some(n) => n,
                    None => 0,
                },
                ok: f[4] == seq!['1'],
                verified: f[5] == seq!['1'],
                path: if f.len() > 6 {
                    f[6]
                } else {
                    Seq::empty()
                },
            },
        )
    }
}

/// The records of history lines.
pub open spec fn records(l: Seq<Seq<char>>) -> Seq<Record>
    decreases l.len(),
{
    if l.len() == 0 {
        Seq::empty()
    } else {
        match parsed(l.last()) {
            Some(r) => records(l.drop_last()).push(r),
            None => records(l.drop_last()),
        }
    }
}

/// The records of a history file; none where there is no file.
pub open spec fn history_of(history: Option<&str>) -> Seq<Record> {
    match history {
        Some(data) => records(lines(data@)),
        None => Seq::empty(),
    }
}

/// A record as a finished transfer.
pub open spec fn restored(r: Record, id: nat) -> Transfer {
    Transfer {
        id,
        key: Seq::empty(),
        name: r.name,
        path: r.path,
        direction: r.direction,
        total: r.total,
        done: r.done,
        finished: true,
        ok: r.ok,
        verified: r.verified,
        fast: false,
    }
}

/// Records as finished transfers, with ids from `first` on.
pub open spec fn restored_all(l: Seq<Record>, first: nat) -> Seq<Transfer> {
    Seq::new(l.len(), |i: int| restored(l[i], (first + i) as nat))
}

// ---- The bookkeeping itself ----

/// Running totals and the activity list.
pub struct Stats {
    bytes: u64,
    next_id: u64,
    requests: u64,
    transfers: Vec<TransferState>,
    holds: Vec<Hold>,
}

/// A worker's hold on a transfer: the bytes done of it are known as long as the hold lasts, even
/// after the transfer has left the activity list.
pub struct Hold {
    pub id: u64,
    pub done: u64,
}

/// The bytes done of a transfer after a change.
pub open spec fn done_after(done: u64, c: Change) -> u64 {
    match c {
        Change::Add(n) => done.wrapping_add(n),
        Change::Store(n) => n,
        Change::Raise(n) => if n > done {
            n
        } else {
            done
        },
        _ => done,
    }
}

/// Holds after a change to the transfer with the given id.
pub open spec fn changed_holds(holds: Seq<Hold>, id: nat, c: Change) -> Seq<Hold> {
    holds.map_values(
        |h: Hold|
            if h.id == id {
                Hold { done: done_after(h.done, c), ..h }
            } else {
                h
            },
    )
}

/// The bytes done of the transfer with the given id, by its row.
pub open spec fn row_done(list: Seq<Transfer>, id: nat) -> Option<u64>
    decreases list.len(),
{
    if list.len() == 0 {
        None
    } else if list.last().id == id {
        Some(list.last().done)
    } else {
        row_done(list.drop_last(), id)
    }
}

/// The position of the first hold on a transfer, or the number of holds.
pub open spec fn hold_at(holds: Seq<Hold>, id: nat) -> int
    decreases holds.len(),
{
    if holds.len() == 0 || holds[0].id == id {
        0
    } else {
        1 + hold_at(holds.skip(1), id)
    }
}

/// Whether a transfer is held.
pub open spec fn is_held(holds: Seq<Hold>, id: nat) -> bool {
    0 <= hold_at(holds, id) < holds.len()
}

/// The bytes done of a transfer that is held.
pub open spec fn held_done(holds: Seq<Hold>, id: nat) -> u64 {
    holds[hold_at(holds, id)].done
}

/// Holds agree with one another and with the rows about the bytes done, and are on transfers that
/// were registered.
pub open spec fn holds_agree(list: Seq<Transfer>, holds: Seq<Hold>, next: nat) -> bool {
    &&& forall|k: int| 0 <= k < holds.len() ==> (#[trigger] holds[k]).id < next
    &&& forall|k: int, m: int|
        0 <= k < holds.len() && 0 <= m < holds.len() && (#[trigger] holds[k]).id == (
        #[trigger] holds[m]).id ==> holds[k].done == holds[m].done
    &&& forall|k: int, i: int|
        0 <= k < holds.len() && 0 <= i < list.len() && (#[trigger] holds[k]).id == (
        #[trigger] list[i]).id ==> holds[k].done == list[i].done
}

impl Stats {
    /// Bytes moved in all.
    pub closed spec fn bytes(&self) -> u64 {
        self.bytes
    }

    /// Requests accepted.
    pub closed spec fn requests(&self) -> u64 {
        self.requests
    }

    /// The id that the next transfer gets.
    pub closed spec fn next_id(&self) -> nat {
        self.next_id as nat
    }

    /// The activity list, newest last.
    pub closed spec fn list(&self) -> Seq<Transfer> {
        transfers_of(self.transfers@)
    }

    /// The holds of workers on transfers.
    pub closed spec fn holds(&self) -> Seq<Hold> {
        self.holds@
    }

    /// The list is within its cap, ids rise along it and are all used up, and holds agree with it.
    pub open spec fn wf(&self) -> bool {
        &&& self.list().len() <= MAX_TRANSFERS
        &&& ids_rise(self.list(), self.next_id())
        &&& holds_agree(self.list(), self.holds(), self.next_id())
    }

    /// Whether a transfer with a key can begin: an unfinished one is taken up again, and else there
    /// must be an id for a new one.
    pub open spec fn can_begin_spec(&self, key: Seq<char>) -> bool {
        open_row(self.list(), key) is Some || self.next_id() < u64::MAX
    }

    /// Whether a transfer with a key can begin.
    pub fn can_begin(&self, key: &str) -> (r: bool)
        ensures
            r == self.can_begin_spec(key@),
    {
        self.next_id < u64::MAX || self.find_open(key).is_some()
    }

    /// Start counting anew, with the persisted transfers of an earlier run, where there are any,
    /// as the activity list.
    pub fn new(history: Option<&str>) -> (s: Stats)
        ensures
            s.wf(),
            s.bytes() == 0,
            s.requests() == 0,
            s.next_id() == history_of(history).len(),
            s.list() == recent(restored_all(history_of(history), 0)),
            s.holds() == Seq::<Hold>::empty(),
    {
        let mut s = Stats {
            bytes: 0,
            next_id: 0,
            requests: 0,
            transfers: Vec::new(),
            holds: Vec::new(),
        };
        assert(s.holds() =~= Seq::<Hold>::empty());
        let ghost none = Seq::<Transfer>::empty();
        assert(s.list() =~= none);
        match history {
            Some(data) => {
                let all = lines_of(&chars_of(data));
                proof {
                    lemma_no_more_records(rows(all@));
                    assert(all.len() <= usize::MAX);
                    let l = restored_all(records(lines(data@)), 0);
                    assert(none + l =~= l);
                }
                s.load_lines(&all);
            },
            None => {
                assert(restored_all(history_of(history), 0) =~= none);
            },
        }
        s
    }

    /// Whether `n` more transfers can still be numbered.
    pub fn has_ids(&self, n: usize) -> (r: bool)
        ensures
            r == (self.next_id() + n <= u64::MAX),
    {
        n as u64 <= u64::MAX - self.next_id
    }

    /// Bytes moved in all.
    pub fn bytes_transferred(&self) -> (n: u64)
        ensures
            n == self.bytes(),
    {
        self.bytes
    }

    /// Requests accepted since the start.
    pub fn requests_seen(&self) -> (n: u64)
        ensures
            n == self.requests(),
    {
        self.requests
    }

    /// The activity list, newest last.
    pub fn transfers(&self) -> (v: &Vec<TransferState>)
        ensures
            transfers_of(v@) == self.list(),
    {
        &self.transfers
    }

    /// Count one request.
    pub fn count_request(&mut self)
        ensures
            final(self).requests() == old(self).requests().wrapping_add(1),
            final(self).holds() == old(self).holds(),
            final(self).bytes() == old(self).bytes(),
            final(self).next_id() == old(self).next_id(),
            final(self).list() == old(self).list(),
    {
        self.requests = self.requests.wrapping_add(1);
    }

    fn push_recent(&mut self, t: TransferState)
        requires
            old(self).wf(),
            t.id == old(self).next_id(),
            old(self).next_id() < u64::MAX,
        ensures
            final(self).wf(),
            final(self).list() == recent(old(self).list().push(t@)),
            final(self).next_id() == old(self).next_id() + 1,
            final(self).bytes() == old(self).bytes(),
            final(self).requests() == old(self).requests(),
            final(self).holds() == old(self).holds(),
    {
        let ghost before = self.list();
        self.transfers.push(t);
        self.next_id = self.next_id + 1;
        assert(self.list() =~= before.push(t@));
        let len: usize = self.transfers.len();
        if len > MAX_TRANSFERS {
            let tail = self.transfers.split_off(len - MAX_TRANSFERS);
            self.transfers = tail;
        }
        assert(self.list() =~= recent(before.push(t@)));
        proof {
            let now = self.list();
            let holds = self.holds();
            assert forall|k: int, i: int|
                0 <= k < holds.len() && 0 <= i < now.len() && (#[trigger] holds[k]).id == (
                #[trigger] now[i]).id implies holds[k].done == now[i].done by {
                let at = i + before.len() + 1 - now.len();
                assert(now[i] == before.push(t@)[at]);
                if at < before.len() {
                    assert(now[i] == before[at]);
                }
            }
        }
    }

    /// Register a transfer under a key.
    pub fn create(
        &mut self,
        key: &str,
        name: &str,
        direction: Direction,
        total: Option<u64>,
        path: &str,
    ) -> (id: u64)
        requires
            old(self).wf(),
            old(self).next_id() < u64::MAX,
        ensures
            final(self).wf(),
            id == old(self).next_id(),
            final(self).list() == recent(
                old(self).list().push(begun(id as nat, key@, name@, direction, total, path@)),
            ),
            final(self).next_id() == old(self).next_id() + 1,
            final(self).bytes() == old(self).bytes(),
            final(self).requests() == old(self).requests(),
            final(self).holds() == old(self).holds(),
    {
        let id: u64 = self.next_id;
        let t = TransferState {
            id,
            key: key.to_owned(),
            name: name.to_owned(),
            path: path.to_owned(),
            direction,
            total,
            done: 0,
            finished: false,
            ok: false,
            verified: false,
            fast: false,
        };
        assert(t@ =~= begun(id as nat, key@, name@, direction, total, path@));
        self.push_recent(t);
        id
    }

    /// Register a one-shot transfer.
    pub fn begin(
        &mut self,
        name: &str,
        direction: Direction,
        total: Option<u64>,
        path: &str,
    ) -> (id: u64)
        requires
            old(self).wf(),
            old(self).next_id() < u64::MAX,
        ensures
            final(self).wf(),
            id == old(self).next_id(),
            final(self).list() == recent(
                old(self).list().push(
                    begun(id as nat, Seq::empty(), name@, direction, total, path@),
                ),
            ),
            final(self).next_id() == old(self).next_id() + 1,
            final(self).bytes() == old(self).bytes(),
            final(self).requests() == old(self).requests(),
            final(self).holds() == old(self).holds(),
    {
        let none = String::new();
        self.create(none.as_str(), name, direction, total, path)
    }

    fn find_open(&self, key: &str) -> (r: Option<u64>)
        ensures
            match r {
                Some(id) => open_row(self.list(), key@) == Some(id as nat),
                None => open_row(self.list(), key@) is None,
            },
    {
        let want = chars_of(key);
        let mut i: usize = self.transfers.len();
        assert(self.list().take(i as int) =~= self.list());
        while i > 0
            invariant
                i <= self.transfers@.len(),
                want@ == key@,
                open_row(self.list(), key@) == open_row(self.list().take(i as int), key@),
            decreases i,
        {
            let ghost now = self.list().take(i as int);
            i = i - 1;
            assert(now.drop_last() =~= self.list().take(i as int));
            assert(now.last() == self.transfers@[i as int]@);
            let have = chars_of(self.transfers[i].key.as_str());
            if same(&have, &want) && !self.transfers[i].finished {
                return Some(self.transfers[i].id);
            }
        }
        None
    }

    fn begin_keyed(
        &mut self,
        key: &str,
        name: &str,
        direction: Direction,
        total: Option<u64>,
        path: &str,
    ) -> (id: u64)
        requires
            old(self).wf(),
            old(self).can_begin_spec(key@),
        ensures
            final(self).wf(),
            (id as nat, final(self).list(), final(self).next_id()) == keyed(
                old(self).list(),
                old(self).next_id(),
                key@,
                name@,
                direction,
                total,
                path@,
            ),
            final(self).bytes() == old(self).bytes(),
            final(self).requests() == old(self).requests(),
            final(self).holds() == old(self).holds(),
    {
        match self.find_open(key) {
            Some(id) => id,
            None => self.create(key, name, direction, total, path),
        }
    }

    /// Begin or resume a keyed upload: an unfinished upload to the same destination is taken up
    /// again, so that all its chunks show as one row.
    pub fn begin_upload(&mut self, key: &str, name: &str, total: Option<u64>, path: &str) -> (id:
        u64)
        requires
            old(self).wf(),
            old(self).can_begin_spec(key@),
        ensures
            final(self).wf(),
            (id as nat, final(self).list(), final(self).next_id()) == keyed(
                old(self).list(),
                old(self).next_id(),
                key@,
                name@,
                Direction::Upload,
                total,
                path@,
            ),
            forall|i: int| #[trigger]
                newest_open(old(self).list(), key@, i) ==> {
                    &&& id == old(self).list()[i].id
                    &&& final(self).list() == old(self).list()
                    &&& final(self).next_id() == old(self).next_id()
                },
            none_open(old(self).list(), key@) ==> {
                let row = begun(id as nat, key@, name@, Direction::Upload, total, path@);
                &&& id == old(self).next_id()
                &&& final(self).next_id() == old(self).next_id() + 1
                &&& final(self).list() == recent(old(self).list().push(row))
            },
            final(self).bytes() == old(self).bytes(),
            final(self).requests() == old(self).requests(),
            final(self).holds() == old(self).holds(),
    {
        proof {
            keyed_transfers_share_or_append(
                self.list(),
                self.next_id(),
                key@,
                name@,
                Direction::Upload,
                total,
                path@,
            );
        }
        self.begin_keyed(key, name, Direction::Upload, total, path)
    }

    /// Begin or take up again a keyed download: the ranges of one file show as one row.
    pub fn begin_download(&mut self, key: &str, name: &str, total: Option<u64>, path: &str) -> (id:
        u64)
        requires
            old(self).wf(),
            old(self).can_begin_spec(key@),
        ensures
            final(self).wf(),
            (id as nat, final(self).list(), final(self).next_id()) == keyed(
                old(self).list(),
                old(self).next_id(),
                key@,
                name@,
                Direction::Download,
                total,
                path@,
            ),
            final(self).bytes() == old(self).bytes(),
            final(self).requests() == old(self).requests(),
            final(self).holds() == old(self).holds(),
    {
        self.begin_keyed(key, name, Direction::Download, total, path)
    }

    /// Change one transfer.
    pub fn change(&mut self, id: u64, c: Change)
        requires
            old(self).wf(),
        ensures
            final(self).wf(),
            final(self).list() == changed_in(old(self).list(), id as nat, c),
            final(self).next_id() == old(self).next_id(),
            final(self).bytes() == old(self).bytes(),
            final(self).requests() == old(self).requests(),
            final(self).holds() == changed_holds(old(self).holds(), id as nat, c),
            c is Finish || c is Succeed || c is Verified || c is Fast ==> final(self).holds() == old(
                self,
            ).holds(),
    {
        let ghost before = self.list();
        let mut i: usize = 0;
        while i < self.transfers.len()
            invariant
                i <= self.transfers@.len(),
                self.transfers@.len() == before.len(),
                self.bytes == old(self).bytes,
                self.next_id == old(self).next_id,
                self.requests == old(self).requests,
                self.holds == old(self).holds,
                forall|j: int|
                    0 <= j < i ==> (#[trigger] self.transfers@[j])@ == changed_in(
                        before,
                        id as nat,
                        c,
                    )[j],
                forall|j: int|
                    i <= j < before.len() ==> (#[trigger] self.transfers@[j])@ == before[j],
            decreases self.transfers@.len() - i,
        {
            assert(self.transfers@[i as int]@ == before[i as int]);
            if self.transfers[i].id == id {
                match c {
                    Change::Add(n) => {
                        let sum: u64 = self.transfers[i].done.wrapping_add(n);
                        self.transfers[i].done = sum;
                    },
                    Change::Store(n) => {
                        self.transfers[i].done = n;
                    },
                    Change::Raise(n) => {
                        if n > self.transfers[i].done {
                            self.transfers[i].done = n;
                        }
                    },
                    Change::Finish => {
                        self.transfers[i].finished = true;
                    },
                    Change::Succeed => {
                        self.transfers[i].ok = true;
                    },
                    Change::Verified => {
                        self.transfers[i].verified = true;
                    },
                    Change::Fast => {
                        self.transfers[i].fast = true;
                    },
                }
            }
            assert(self.transfers@[i as int]@ =~= changed_in(before, id as nat, c)[i as int]);
            i = i + 1;
        }
        assert(self.list() =~= changed_in(before, id as nat, c));
        let ghost now = self.transfers;
        let mut k: usize = 0;
        let ghost holds = self.holds@;
        while k < self.holds.len()
            invariant
                k <= self.holds@.len(),
                self.holds@.len() == holds.len(),
                self.transfers == now,
                self.bytes == old(self).bytes,
                self.next_id == old(self).next_id,
                self.requests == old(self).requests,
                forall|j: int|
                    0 <= j < k ==> (#[trigger] self.holds@[j]) == changed_holds(
                        holds,
                        id as nat,
                        c,
                    )[j],
                forall|j: int| k <= j < holds.len() ==> (#[trigger] self.holds@[j]) == holds[j],
            decreases self.holds@.len() - k,
        {
            assert(self.holds@[k as int] == holds[k as int]);
            if self.holds[k].id == id {
                let done: u64 = self.holds[k].done;
                let after: u64 = match c {
                    Change::Add(n) => done.wrapping_add(n),
                    Change::Store(n) => n,
                    Change::Raise(n) => if n > done {
                        n
                    } else {
                        done
                    },
                    _ => done,
                };
                self.holds[k].done = after;
            }
            assert(self.holds@[k as int] == changed_holds(holds, id as nat, c)[k as int]);
            k = k + 1;
        }
        assert(self.holds@ =~= changed_holds(holds, id as nat, c));
        proof {
            lemma_changed_agree(before, holds, self.next_id(), id as nat, c);
            if c is Finish || c is Succeed || c is Verified || c is Fast {
                assert(changed_holds(holds, id as nat, c) =~= holds);
            }
        }
    }

    /// Take hold of a transfer in the list.
    pub fn hold(&mut self, id: u64)
        requires
            old(self).wf(),
            row_done(old(self).list(), id as nat) is Some,
        ensures
            final(self).wf(),
            final(self).list() == old(self).list(),
            final(self).next_id() == old(self).next_id(),
            final(self).bytes() == old(self).bytes(),
            final(self).requests() == old(self).requests(),
            final(self).holds() == old(self).holds().push(
                Hold { id, done: row_done(old(self).list(), id as nat)->0 },
            ),
    {
        let ghost list = self.list();
        let mut i: usize = self.transfers.len() - 1;
        assert(list.take(i + 1) =~= list);
        while self.transfers[i].id != id
            invariant
                0 <= i < self.transfers@.len(),
                self == old(self),
                list == self.list(),
                row_done(list, id as nat) is Some,
                row_done(list.take(i + 1), id as nat) == row_done(list, id as nat),
            decreases i,
        {
            let ghost now = list.take(i + 1);
            assert(now.last() == self.transfers@[i as int]@);
            assert(now.drop_last() =~= list.take(i as int));
            assert(row_done(now.drop_last(), id as nat) is Some);
            assert(i > 0);
            i = i - 1;
        }
        assert(list.take(i + 1).last() == self.transfers@[i as int]@);
        let h = Hold { id, done: self.transfers[i].done };
        let ghost holds = self.holds@;
        self.holds.push(h);
        proof {
            let row = list[i as int];
            assert(row.id == id && row.done == h.done);
            let all = self.holds();
            assert forall|k: int, m: int|
                0 <= k < all.len() && 0 <= m < all.len() && (#[trigger] all[k]).id == (
                #[trigger] all[m]).id implies all[k].done == all[m].done by {
                if k < holds.len() {
                    assert(all[k] == holds[k]);
                }
                if m < holds.len() {
                    assert(all[m] == holds[m]);
                }
            }
            assert forall|k: int, j: int|
                0 <= k < all.len() && 0 <= j < list.len() && (#[trigger] all[k]).id == (
                #[trigger] list[j]).id implies all[k].done == list[j].done by {
                if k < holds.len() {
                    assert(all[k] == holds[k]);
                } else if j < i {
                    assert(list[j].id < list[i as int].id);
                } else if i < j {
                    assert(list[i as int].id < list[j].id);
                }
            }
        }
    }

    fn find_hold(&self, id: u64) -> (k: usize)
        ensures
            k == hold_at(self.holds(), id as nat),
            k <= self.holds@.len(),
    {
        let mut k: usize = 0;
        assert(self.holds@.skip(0) =~= self.holds@);
        while k < self.holds.len()
            invariant
                k <= self.holds@.len(),
                hold_at(self.holds@, id as nat) == k + hold_at(self.holds@.skip(k as int), id as nat),
            decreases self.holds@.len() - k,
        {
            assert(self.holds@.skip(k as int).skip(1) =~= self.holds@.skip(k + 1));
            if self.holds[k].id == id {
                return k;
            }
            k = k + 1;
        }
        k
    }

    /// The bytes done of a transfer that is held.
    pub fn bytes_done(&self, id: u64) -> (n: u64)
        requires
            is_held(self.holds(), id as nat),
        ensures
            n == held_done(self.holds(), id as nat),
    {
        self.holds[self.find_hold(id)].done
    }

    /// Let go of a transfer. One that is not held stays as it is.
    pub fn release(&mut self, id: u64)
        requires
            old(self).wf(),
        ensures
            final(self).wf(),
            final(self).list() == old(self).list(),
            final(self).next_id() == old(self).next_id(),
            final(self).bytes() == old(self).bytes(),
            final(self).requests() == old(self).requests(),
            final(self).holds() == (if is_held(old(self).holds(), id as nat) {
                old(self).holds().remove(hold_at(old(self).holds(), id as nat))
            } else {
                old(self).holds()
            }),
    {
        let k: usize = self.find_hold(id);
        if k < self.holds.len() {
            let ghost before = self.holds@;
            self.holds.remove(k);
            proof {
                let all = self.holds();
                assert(all =~= before.remove(k as int));
                assert forall|a: int| 0 <= a < all.len() implies exists|b: int|
                    0 <= b < before.len() && #[trigger] before[b] == #[trigger] all[a] by {
                    if a < k {
                        assert(before[a] == all[a]);
                    } else {
                        assert(before[a + 1] == all[a]);
                    }
                }
            }
        }
    }

    /// Count bytes that a transfer moved, into the total and into its row.
    pub fn count_bytes(&mut self, id: u64, n: u64)
        requires
            old(self).wf(),
        ensures
            final(self).wf(),
            final(self).bytes() == old(self).bytes().wrapping_add(n),
            final(self).list() == changed_in(old(self).list(), id as nat, Change::Add(n)),
            final(self).next_id() == old(self).next_id(),
            final(self).requests() == old(self).requests(),
            final(self).holds() == changed_holds(old(self).holds(), id as nat, Change::Add(n)),
    {
        self.bytes = self.bytes.wrapping_add(n);
        self.change(id, Change::Add(n));
    }

    /// Count bytes of a file that were sent up to an absolute position in it.
    pub fn count_sent(&mut self, id: u64, n: u64, upto: u64)
        requires
            old(self).wf(),
        ensures
            final(self).wf(),
            final(self).bytes() == old(self).bytes().wrapping_add(n),
            final(self).list() == changed_in(old(self).list(), id as nat, Change::Raise(upto)),
            final(self).next_id() == old(self).next_id(),
            final(self).requests() == old(self).requests(),
            final(self).holds() == changed_holds(old(self).holds(), id as nat, Change::Raise(upto)),
    {
        self.bytes = self.bytes.wrapping_add(n);
        self.change(id, Change::Raise(upto));
    }

    /// Drop a transfer from the activity list.
    pub fn remove_transfer(&mut self, id: u64)
        requires
            old(self).wf(),
        ensures
            final(self).wf(),
            final(self).list() == old(self).list().filter(|t: Transfer| t.id != id),
            final(self).next_id() == old(self).next_id(),
            final(self).bytes() == old(self).bytes(),
            final(self).requests() == old(self).requests(),
            final(self).holds() == old(self).holds(),
    {
        let ghost keep = |t: Transfer| t.id != id;
        let ghost before = self.list();
        let mut i: usize = 0;
        assert(before.take(0).filter(keep) =~= Seq::<Transfer>::empty()) by {
            reveal(Seq::filter);
        }
        assert(self.list() =~= before.take(0).filter(keep) + before.skip(0));
        let ghost mut seen: int = 0;
        while i < self.transfers.len()
            invariant
                0 <= seen <= before.len(),
                i == before.take(seen).filter(keep).len(),
                self.list() == before.take(seen).filter(keep) + before.skip(seen),
                self.list().len() == i + before.len() - seen,
                self.transfers@.len() == self.list().len(),
                keep == (|t: Transfer| t.id != id),
                self.bytes == old(self).bytes,
                self.next_id == old(self).next_id,
                self.requests == old(self).requests,
                self.holds == old(self).holds,
            decreases before.len() - seen,
        {
            let ghost list = self.list();
            assert(list[i as int] == before[seen]);
            assert(list[i as int] == self.transfers@[i as int]@);
            proof {
                lemma_filter_step(before, keep, seen);
            }
            if self.transfers[i].id == id {
                self.transfers.remove(i);
                assert(self.list() =~= list.remove(i as int));
                assert(self.list() =~= before.take(seen + 1).filter(keep) + before.skip(seen + 1));
            } else {
                assert(self.list() =~= before.take(seen + 1).filter(keep) + before.skip(seen + 1));
                i = i + 1;
            }
            proof {
                seen = seen + 1;
            }
        }
        assert(before.take(seen) =~= before);
        assert(self.list() =~= before.filter(keep));
        proof {
            lemma_filter_rises(before, keep, self.next_id());
            lemma_filter_agrees(before, keep, self.holds(), self.next_id());
        }
    }

    /// Drop the finished transfers from the activity list.
    pub fn clear_transfers(&mut self)
        requires
            old(self).wf(),
        ensures
            final(self).wf(),
            final(self).list() == old(self).list().filter(|t: Transfer| !t.finished),
            final(self).next_id() == old(self).next_id(),
            final(self).bytes() == old(self).bytes(),
            final(self).requests() == old(self).requests(),
            final(self).holds() == old(self).holds(),
    {
        let ghost keep = |t: Transfer| !t.finished;
        let ghost before = self.list();
        let mut i: usize = 0;
        assert(before.take(0).filter(keep) =~= Seq::<Transfer>::empty()) by {
            reveal(Seq::filter);
        }
        assert(self.list() =~= before.take(0).filter(keep) + before.skip(0));
        let ghost mut seen: int = 0;
        while i < self.transfers.len()
            invariant
                0 <= seen <= before.len(),
                i == before.take(seen).filter(keep).len(),
                self.list() == before.take(seen).filter(keep) + before.skip(seen),
                self.list().len() == i + before.len() - seen,
                self.transfers@.len() == self.list().len(),
                keep == (|t: Transfer| !t.finished),
                self.bytes == old(self).bytes,
                self.next_id == old(self).next_id,
                self.requests == old(self).requests,
                self.holds == old(self).holds,
            decreases before.len() - seen,
        {
            let ghost list = self.list();
            assert(list[i as int] == before[seen]);
            assert(list[i as int] == self.transfers@[i as int]@);
            proof {
                lemma_filter_step(before, keep, seen);
            }
            if self.transfers[i].finished {
                self.transfers.remove(i);
                assert(self.list() =~= list.remove(i as int));
                assert(self.list() =~= before.take(seen + 1).filter(keep) + before.skip(seen + 1));
            } else {
                assert(self.list() =~= before.take(seen + 1).filter(keep) + before.skip(seen + 1));
                i = i + 1;
            }
            proof {
                seen = seen + 1;
            }
        }
        assert(before.take(seen) =~= before);
        assert(self.list() =~= before.filter(keep));
        proof {
            lemma_filter_rises(before, keep, self.next_id());
            lemma_filter_agrees(before, keep, self.holds(), self.next_id());
        }
    }

    /// The persisted form of the finished transfers: one tab-separated line each.
    pub fn save_history(&self) -> (s: String)
        ensures
            s@ == unlines(history_lines(self.list())),
    {
        let mut s = String::new();
        let mut i: usize = 0;
        assert(self.list().take(0) =~= Seq::<Transfer>::empty());
        while i < self.transfers.len()
            invariant
                i <= self.transfers@.len(),
                s@ == unlines(history_lines(self.list().take(i as int))),
            decreases self.transfers@.len() - i,
        {
            let ghost before = history_lines(self.list().take(i as int));
            let ghost now = self.list().take(i + 1);
            assert(now.drop_last() =~= self.list().take(i as int));
            assert(now.last() == self.transfers@[i as int]@);
            if self.transfers[i].finished {
                let line = history_line(&self.transfers[i]);
                s.append(line.as_str());
                s.push('\n');
                assert(before.push(line@).drop_last() =~= before);
                assert(s@ =~= unlines(before.push(line@)));
            }
            i = i + 1;
        }
        assert(self.list().take(i as int) =~= self.list());
        s
    }

    /// Load persisted transfers as finished entries. Lines that do not parse are passed over, and
    /// only the most recent entries are kept.
    pub fn load_history(&mut self, data: &str)
        requires
            old(self).wf(),
            old(self).next_id() + records(lines(data@)).len() <= u64::MAX,
        ensures
            final(self).wf(),
            final(self).list() == recent(
                old(self).list() + restored_all(records(lines(data@)), old(self).next_id()),
            ),
            final(self).next_id() == old(self).next_id() + records(lines(data@)).len(),
            final(self).bytes() == old(self).bytes(),
            final(self).requests() == old(self).requests(),
            final(self).holds() == old(self).holds(),
    {
        let all = lines_of(&chars_of(data));
        self.load_lines(&all);
    }

    fn load_lines(&mut self, all: &Vec<Vec<char>>)
        requires
            old(self).wf(),
            old(self).next_id() + records(rows(all@)).len() <= u64::MAX,
        ensures
            final(self).wf(),
            final(self).list() == recent(
                old(self).list() + restored_all(records(rows(all@)), old(self).next_id()),
            ),
            final(self).next_id() == old(self).next_id() + records(rows(all@)).len(),
            final(self).bytes() == old(self).bytes(),
            final(self).requests() == old(self).requests(),
            final(self).holds() == old(self).holds(),
    {
        let ghost first = self.next_id();
        let ghost start = self.list();
        let ghost texts = rows(all@);
        let mut i: usize = 0;
        assert(texts.take(0) =~= Seq::<Seq<char>>::empty());
        assert(start + restored_all(Seq::empty(), first) =~= start);
        while i < all.len()
            invariant
                i <= all@.len(),
                texts == rows(all@),
                self.wf(),
                self.bytes == old(self).bytes,
                self.requests == old(self).requests,
                self.holds() == old(self).holds(),
                self.next_id() == first + records(texts.take(i as int)).len(),
                first + records(texts).len() <= u64::MAX,
                self.list() == recent(start + restored_all(records(texts.take(i as int)), first)),
            decreases all@.len() - i,
        {
            let ghost seen = records(texts.take(i as int));
            let ghost now = texts.take(i + 1);
            let ghost list = self.list();
            proof {
                assert(now.drop_last() =~= texts.take(i as int));
                assert(now.last() == all@[i as int]@);
                lemma_records_grow(texts, i + 1);
            }
            if let Some(t) = parse_line(&all[i], self.next_id) {
                let ghost r = parsed(now.last())->0;
                proof {
                    assert(records(now) == seen.push(r));
                    assert(restored_all(seen.push(r), first) =~= restored_all(seen, first).push(
                        restored(r, self.next_id()),
                    ));
                    lemma_recent_push(start + restored_all(seen, first), restored(r, self.next_id()));
                    assert((start + restored_all(seen, first)).push(restored(r, self.next_id()))
                        =~= start + restored_all(seen.push(r), first));
                }
                self.push_recent(t);
            }
            i = i + 1;
        }
        assert(texts.take(i as int) =~= texts);
    }
}

/// The outcome of beginning a keyed transfer: its id, the list and the next id.
pub open spec fn keyed(
    list: Seq<Transfer>,
    next_id: nat,
    key: Seq<char>,
    name: Seq<char>,
    direction: Direction,
    total: Option<u64>,
    path: Seq<char>,
) -> (nat, Seq<Transfer>, nat) {
    match open_row(list, key) {
        Some(id) => (id, list, next_id),
        None => (
            next_id,
            recent(list.push(begun(next_id, key, name, direction, total, path))),
            next_id + 1,
        ),
    }
}

/// The transfer that a keyed beginning leads to is in the list.
pub proof fn lemma_keyed_is_listed(
    list: Seq<Transfer>,
    next_id: nat,
    key: Seq<char>,
    name: Seq<char>,
    direction: Direction,
    total: Option<u64>,
    path: Seq<char>,
)
    ensures
        ({
            let (id, after, _) = keyed(list, next_id, key, name, direction, total, path);
            row_done(after, id) is Some
        }),
{
    let row = begun(next_id, key, name, direction, total, path);
    match open_row(list, key) {
        Some(_) => {
            lemma_open_is_listed(list, key);
        },
        None => {
            assert(recent(list.push(row)).last() == row);
        },
    }
}

proof fn lemma_open_is_listed(list: Seq<Transfer>, key: Seq<char>)
    requires
        open_row(list, key) is Some,
    ensures
        row_done(list, open_row(list, key)->0) is Some,
    decreases list.len(),
{
    if !(list.last().key == key && !list.last().finished) {
        lemma_open_is_listed(list.drop_last(), key);
    }
}

/// Ids rise along the list and stay below `next`.
pub open spec fn ids_rise(list: Seq<Transfer>, next: nat) -> bool {
    &&& forall|i: int, j: int|
        0 <= i < j < list.len() ==> (#[trigger] list[i]).id < (#[trigger] list[j]).id
    &&& forall|i: int| 0 <= i < list.len() ==> (#[trigger] list[i]).id < next
}

proof fn lemma_changed_agree(
    list: Seq<Transfer>,
    holds: Seq<Hold>,
    next: nat,
    id: nat,
    c: Change,
)
    requires
        ids_rise(list, next),
        holds_agree(list, holds, next),
    ensures
        ids_rise(changed_in(list, id, c), next),
        holds_agree(changed_in(list, id, c), changed_holds(holds, id, c), next),
{
    let l = changed_in(list, id, c);
    let h = changed_holds(holds, id, c);
    assert forall|i: int, j: int| 0 <= i < j < l.len() implies (#[trigger] l[i]).id < (
    #[trigger] l[j]).id by {
        assert(list[i].id < list[j].id);
    }
    assert forall|i: int| 0 <= i < l.len() implies (#[trigger] l[i]).id < next by {
        assert(list[i].id < next);
    }
    assert forall|k: int| 0 <= k < h.len() implies (#[trigger] h[k]).id < next by {
        assert(holds[k].id < next);
    }
    assert forall|k: int, m: int|
        0 <= k < h.len() && 0 <= m < h.len() && (#[trigger] h[k]).id == (
        #[trigger] h[m]).id implies h[k].done == h[m].done by {
        assert(holds[k].id == holds[m].id);
    }
    assert forall|k: int, i: int|
        0 <= k < h.len() && 0 <= i < l.len() && (#[trigger] h[k]).id == (
        #[trigger] l[i]).id implies h[k].done == l[i].done by {
        assert(holds[k].id == list[i].id);
    }
}

proof fn lemma_filter_agrees(
    list: Seq<Transfer>,
    keep: spec_fn(Transfer) -> bool,
    holds: Seq<Hold>,
    next: nat,
)
    requires
        ids_rise(list, next),
        holds_agree(list, holds, next),
    ensures
        holds_agree(list.filter(keep), holds, next),
{
    lemma_filter_rises(list, keep, next);
    let l = list.filter(keep);
    assert forall|k: int, i: int|
        0 <= k < holds.len() && 0 <= i < l.len() && (#[trigger] holds[k]).id == (
        #[trigger] l[i]).id implies holds[k].done == l[i].done by {
        assert(list.contains(l[i]));
        let m = choose|m: int| 0 <= m < list.len() && list[m] == l[i];
        assert(holds[k].id == list[m].id);
    }
}

proof fn lemma_filter_step(list: Seq<Transfer>, keep: spec_fn(Transfer) -> bool, i: int)
    requires
        0 <= i < list.len(),
    ensures
        list.take(i + 1).filter(keep) == (if keep(list[i]) {
            list.take(i).filter(keep).push(list[i])
        } else {
            list.take(i).filter(keep)
        }),
{
    reveal(Seq::filter);
    assert(list.take(i + 1).drop_last() =~= list.take(i));
}

proof fn lemma_filter_rises(list: Seq<Transfer>, keep: spec_fn(Transfer) -> bool, next: nat)
    requires
        ids_rise(list, next),
    ensures
        ids_rise(list.filter(keep), next),
        list.filter(keep).len() <= list.len(),
        forall|k: int| 0 <= k < list.filter(keep).len() ==> list.contains(#[trigger] list.filter(keep)[k]),
    decreases list.len(),
{
    reveal(Seq::filter);
    if list.len() > 0 {
        let rest = list.drop_last();
        assert forall|i: int, j: int| 0 <= i < j < rest.len() implies (#[trigger] rest[i]).id < (
        #[trigger] rest[j]).id by {
            assert(rest[i] == list[i] && rest[j] == list[j]);
        }
        assert forall|i: int| 0 <= i < rest.len() implies (#[trigger] rest[i]).id < next by {
            assert(rest[i] == list[i]);
        }
        lemma_filter_rises(rest, keep, next);
        let f = rest.filter(keep);
        let all = list.filter(keep);
        assert(list[list.len() - 1] == list.last());
        assert forall|k: int| 0 <= k < f.len() implies (#[trigger] f[k]).id < list.last().id
            && list.contains(f[k]) by {
            let m = choose|m: int| 0 <= m < rest.len() && rest[m] == f[k];
            assert(list[m] == f[k]);
        }
        if keep(list.last()) {
            assert(all =~= f.push(list.last()));
            assert forall|k: int| 0 <= k < all.len() implies list.contains(#[trigger] all[k]) by {
                if k < f.len() {
                    assert(all[k] == f[k]);
                }
            }
            assert forall|i: int, j: int| 0 <= i < j < all.len() implies (#[trigger] all[i]).id < (
            #[trigger] all[j]).id by {
                if j == f.len() {
                    assert(all[i] == f[i]);
                }
            }
        }
    }
}

proof fn lemma_no_more_records(l: Seq<Seq<char>>)
    ensures
        records(l).len() <= l.len(),
    decreases l.len(),
{
    if l.len() > 0 {
        lemma_no_more_records(l.drop_last());
    }
}

proof fn lemma_records_grow(l: Seq<Seq<char>>, i: int)
    requires
        0 <= i <= l.len(),
    ensures
        records(l.take(i)).len() <= records(l).len(),
    decreases l.len(),
{
    if i == l.len() {
        assert(l.take(i) =~= l);
    } else {
        lemma_records_grow(l.drop_last(), i);
        assert(l.drop_last().take(i) =~= l.take(i));
    }
}

proof fn lemma_recent_push(list: Seq<Transfer>, t: Transfer)
    ensures
        recent(recent(list).push(t)) == recent(list.push(t)),
{
    assert(recent(recent(list).push(t)) =~= recent(list.push(t)));
}

fn clean_field(s: &str) -> (r: String)
    ensures
        r@ == field_text(s@),
{
    let mut r = String::new();
    for c in it: s.chars()
        invariant
            it.seq() == s@,
            r@ == field_text(s@.take(it.index() as int)),
    {
        proof {
            let k = it.index() as int;
            assert(s@.take(k + 1) =~= s@.take(k).push(c));
            assert(field_text(s@.take(k + 1)) =~= field_text(s@.take(k)).push(field_char(c)));
        }
        if c == '\t' || c == '\n' || c == '\r' {
            r.push(' ');
        } else {
            r.push(c);
        }
    }
    assert(s@.take(s@.len() as int) =~= s@);
    r
}

fn flag_string(b: bool) -> (r: String)
    ensures
        r@ == flag(b),
{
    if b {
        string_of(&['1'])
    } else {
        string_of(&['0'])
    }
}

fn history_line(t: &TransferState) -> (r: String)
    ensures
        r@ == join(fields(t@), seq!['\t']),
{
    let mut f: Vec<String> = Vec::new();
    f.push(
        match t.direction {
            Direction::Upload => string_of(&['u', 'p']),
            Direction::Download => string_of(&['d', 'o', 'w', 'n']),
        },
    );
    f.push(clean_field(t.name.as_str()));
    f.push(
        match t.total {
            Some(n) => dec_string(n),
            None => string_of(&['-']),
        },
    );
    f.push(dec_string(t.done));
    f.push(flag_string(t.ok));
    f.push(flag_string(t.verified));
    f.push(clean_field(t.path.as_str()));
    proof {
        reveal_strlit("\t");
        assert("\t"@ =~= seq!['\t']);
        assert(f@[0]@ =~= direction_text(t.direction));
        assert(f@[2]@ =~= fields(t@)[2]);
        assert(texts(f@) =~= fields(t@));
    }
    join_strings(&f, "\t")
}

fn parse_number(s: &[char]) -> (r: Option<u64>)
    ensures
        r == number_field(s@),
{
    parse_uint(s, u64::MAX)
}

fn parse_line(line: &[char], id: u64) -> (r: Option<TransferState>)
    ensures
        match r {
            Some(t) => parsed(line@) is Some && t@ == restored(parsed(line@)->0, id as nat) && t.id == id,
            None => parsed(line@) is None,
        },
{
    let f = pieces_n(line, '\t', 7);
    let ghost g = splitn(line@, '\t', 7);
    assert(rows(f@) == g);
    if f.len() < 6 {
        return None;
    }
    assert(g[0] == f@[0]@ && g[1] == f@[1]@ && g[2] == f@[2]@ && g[3] == f@[3]@ && g[4] == f@[4]@
        && g[5] == f@[5]@);
    let direction = if same(&f[0], &['d', 'o', 'w', 'n']) {
        Direction::Download
    } else {
        Direction::Upload
    };
    assert(['d', 'o', 'w', 'n']@ =~= seq!['d', 'o', 'w', 'n']);
    assert(['1']@ =~= seq!['1']);
    let path = if f.len() > 6 {
        assert(g[6] == f@[6]@);
        string_of(&f[6])
    } else {
        String::new()
    };
    let t = TransferState {
        id,
        key: String::new(),
        name: string_of(&f[1]),
        path,
        direction,
        total: parse_number(&f[2]),
        done: match parse_number(&f[3]) {
            Some(n) => n,
            None => 0,
        },
        finished: true,
        ok: same(&f[4], &['1']),
        verified: same(&f[5], &['1']),
        fast: false,
    };
    assert(t@ =~= restored(parsed(line@)->0, id as nat));
    Some(t)
}

// ---- Laws ----

/// What a history keeps of a finished transfer.
pub open spec fn kept(t: Transfer) -> Record {
    Record {
        direction: t.direction,
        name: field_text(t.name),
        total: t.total,
        done: t.done,
        ok: t.ok,
        verified: t.verified,
        path: field_text(t.path),
    }
}

proof fn lemma_clean(s: Seq<char>)
    ensures
        !field_text(s).contains('\t'),
        !field_text(s).contains('\n'),
        !field_text(s).contains('\r'),
{
}

proof fn lemma_no_tab_in_digits(s: Seq<char>)
    requires
        all_digits(s),
    ensures
        !s.contains('\t'),
        !s.contains('\n'),
        !s.contains('\r'),
{
    assert forall|i: int| 0 <= i < s.len() implies s[i] != '\t' && s[i] != '\n' && s[i] != '\r' by {
        assert(is_digit(s[i]));
    }
}

/// Fields of a history line hold no tabs and no line ends.
proof fn lemma_fields(t: Transfer)
    ensures
        fields(t).len() == 7,
        forall|i: int|
            0 <= i < 7 ==> !(#[trigger] fields(t)[i]).contains('\t') && !fields(t)[i].contains('\n')
                && !fields(t)[i].contains('\r'),
{
    lemma_clean(t.name);
    lemma_clean(t.path);
    lemma_dec_round_trip(t.done as nat);
    lemma_no_tab_in_digits(dec(t.done as nat));
    if t.total is Some {
        lemma_dec_round_trip(t.total->0 as nat);
        lemma_no_tab_in_digits(dec(t.total->0 as nat));
    }
}

/// A history line says again what it was written from.
pub proof fn history_line_is_read_back(t: Transfer)
    ensures
        parsed(join(fields(t), seq!['\t'])) == Some(kept(t)),
{
    lemma_fields(t);
    lemma_splitn_join(fields(t), '\t');
    dec_is_read_back(t.done as nat, u64::MAX as nat);
    if t.total is Some {
        dec_is_read_back(t.total->0 as nat, u64::MAX as nat);
    } else {
        assert(seq!['-'][0] == '-');
        assert(!all_digits(seq!['-']));
    }
    assert(seq!['u', 'p'].len() != seq!['d', 'o', 'w', 'n'].len());
    assert(seq!['0'][0] != seq!['1'][0]);
    assert(parsed(join(fields(t), seq!['\t']))->0 =~= kept(t));
}

/// No newline or carriage return gets into a joined line from its pieces.
proof fn lemma_join_lacks(parts: Seq<Seq<char>>, c: char)
    requires
        c != '\t',
        forall|i: int| 0 <= i < parts.len() ==> !(#[trigger] parts[i]).contains(c),
    ensures
        !join(parts, seq!['\t']).contains(c),
    decreases parts.len(),
{
    if parts.len() > 1 {
        let rest = parts.drop_last();
        assert forall|i: int| 0 <= i < rest.len() implies !(#[trigger] rest[i]).contains(c) by {
            assert(rest[i] == parts[i]);
        }
        lemma_join_lacks(rest, c);
        assert(!parts[parts.len() - 1].contains(c));
        let a = join(rest, seq!['\t']);
        let s = a + seq!['\t'] + parts.last();
        assert forall|i: int| 0 <= i < s.len() implies s[i] != c by {
            if i < a.len() {
                assert(s[i] == a[i]);
            } else if i > a.len() {
                assert(s[i] == parts.last()[i - a.len() - 1]);
            }
        }
    }
}

/// The records kept of a list: one for each finished transfer.
pub open spec fn kept_all(list: Seq<Transfer>) -> Seq<Record>
    decreases list.len(),
{
    if list.len() == 0 {
        Seq::empty()
    } else if list.last().finished {
        kept_all(list.drop_last()).push(kept(list.last()))
    } else {
        kept_all(list.drop_last())
    }
}

proof fn lemma_history(list: Seq<Transfer>)
    ensures
        forall|i: int| 0 <= i < history_lines(list).len() ==> is_line(#[trigger] history_lines(list)[i]),
        records(history_lines(list)) == kept_all(list),
    decreases list.len(),
{
    if list.len() > 0 {
        lemma_history(list.drop_last());
        let t = list.last();
        if t.finished {
            let line = join(fields(t), seq!['\t']);
            let before = history_lines(list.drop_last());
            history_line_is_read_back(t);
            lemma_fields(t);
            lemma_join_lacks(fields(t), '\n');
            lemma_join_lacks(fields(t), '\r');
            if line.len() > 0 {
                assert(line.contains(line.last()));
            }
            assert(is_line(line));
            assert(before.push(line).drop_last() =~= before);
            assert forall|i: int| 0 <= i < before.push(line).len() implies is_line(
                #[trigger] before.push(line)[i],
            ) by {
                if i < before.len() {
                    assert(is_line(before[i]));
                }
            }
        }
    }
}

/// The history survives a restart: what was saved of the finished transfers is loaded again, up
/// to tabs and line ends in names and paths.
pub proof fn history_survives_a_restart(list: Seq<Transfer>)
    ensures
        records(lines(unlines(history_lines(list)))) == kept_all(list),
{
    lemma_history(list);
    lemma_lines_unlines(history_lines(list));
}

proof fn lemma_newest_open(list: Seq<Transfer>, key: Seq<char>, i: int)
    requires
        newest_open(list, key, i),
    ensures
        open_row(list, key) == Some(list[i].id),
    decreases list.len(),
{
    if i < list.len() - 1 {
        let rest = list.drop_last();
        assert(!is_open(list[list.len() - 1], key));
        assert forall|j: int| i < j < rest.len() implies !is_open(#[trigger] rest[j], key) by {
            assert(rest[j] == list[j]);
        }
        assert(newest_open(rest, key, i));
        lemma_newest_open(rest, key, i);
    }
}

proof fn lemma_none_open(list: Seq<Transfer>, key: Seq<char>)
    requires
        none_open(list, key),
    ensures
        open_row(list, key) is None,
    decreases list.len(),
{
    if list.len() > 0 {
        let rest = list.drop_last();
        assert(!is_open(list[list.len() - 1], key));
        assert forall|j: int| 0 <= j < rest.len() implies !is_open(#[trigger] rest[j], key) by {
            assert(rest[j] == list[j]);
        }
        lemma_none_open(rest, key);
    }
}

/// Beginning a keyed transfer takes up the newest unfinished row with its key and changes nothing;
/// where there is none, it adds exactly one row, with a fresh id and nothing done yet, and keeps
/// the most recent rows in order. One of the two always holds.
pub proof fn keyed_transfers_share_or_append(
    list: Seq<Transfer>,
    next_id: nat,
    key: Seq<char>,
    name: Seq<char>,
    direction: Direction,
    total: Option<u64>,
    path: Seq<char>,
)
    ensures
        ({
            let (id, after, next) = keyed(list, next_id, key, name, direction, total, path);
            let row = begun(next_id, key, name, direction, total, path);
            &&& forall|i: int| #[trigger]
                newest_open(list, key, i) ==> id == list[i].id && after == list && next == next_id
            &&& none_open(list, key) ==> {
                &&& id == next_id
                &&& next == next_id + 1
                &&& after == recent(list.push(row))
                &&& after.last() == row
                &&& after.len() <= MAX_TRANSFERS
            }
            &&& none_open(list, key) || exists|i: int| newest_open(list, key, i)
        }),
{
    assert forall|i: int| #[trigger] newest_open(list, key, i) implies open_row(list, key) == Some(
        list[i].id,
    ) by {
        lemma_newest_open(list, key, i);
    }
    if none_open(list, key) {
        lemma_none_open(list, key);
    } else {
        lemma_some_open(list, key);
    }
}

proof fn lemma_some_open(list: Seq<Transfer>, key: Seq<char>)
    requires
        !none_open(list, key),
    ensures
        exists|i: int| newest_open(list, key, i),
    decreases list.len(),
{
    let rest = list.drop_last();
    if is_open(list.last(), key) {
        assert(newest_open(list, key, list.len() - 1));
    } else {
        let k = choose|k: int| 0 <= k < list.len() && is_open(#[trigger] list[k], key);
        assert(is_open(rest[k], key));
        lemma_some_open(rest, key);
        let i = choose|i: int| newest_open(rest, key, i);
        assert forall|j: int| i < j < list.len() implies !is_open(#[trigger] list[j], key) by {
            if j < rest.len() {
                assert(rest[j] == list[j]);
            }
        }
        assert(newest_open(list, key, i));
    }
}

/// An upload that is begun again before it has finished is the same row: nothing is added.
pub proof fn chunks_share_one_row(
    list: Seq<Transfer>,
    next_id: nat,
    key: Seq<char>,
    name: Seq<char>,
    direction: Direction,
    total: Option<u64>,
    path: Seq<char>,
)
    ensures
        ({
            let (id, once, next) = keyed(list, next_id, key, name, direction, total, path);
            keyed(once, next, key, name, direction, total, path) == (id, once, next)
        }),
{
    if open_row(list, key) is None {
        let t = begun(next_id, key, name, direction, total, path);
        let once = recent(list.push(t));
        assert(once.last() == t);
    }
}

/// A change to one transfer leaves every other row, and the order of rows, alone.
pub proof fn changes_stay_in_their_row(list: Seq<Transfer>, id: nat, c: Change, i: int)
    requires
        0 <= i < list.len(),
    ensures
        changed_in(list, id, c).len() == list.len(),
        changed_in(list, id, c)[i].id == list[i].id,
        list[i].id != id ==> changed_in(list, id, c)[i] == list[i],
{
}

/// A change touches what it is about and nothing else: added bytes are counted up, stored ones
/// replace the count, a raised count never falls, and each flag is set by its own change alone.
pub proof fn changes_touch_one_thing(t: Transfer, c: Change)
    ensures
        ({
            let u = changed(t, c);
            &&& u.id == t.id && u.key == t.key && u.name == t.name && u.path == t.path
            &&& u.direction == t.direction && u.total == t.total
            &&& u.finished <==> t.finished || c is Finish
            &&& u.ok <==> t.ok || c is Succeed
            &&& u.verified <==> t.verified || c is Verified
            &&& u.fast <==> t.fast || c is Fast
            &&& c matches Change::Add(n) ==> u.done as int == (t.done + n) % 0x1_0000_0000_0000_0000
            &&& c matches Change::Store(n) ==> u.done == n
            &&& c matches Change::Raise(n) ==> u.done >= n && u.done >= t.done && (u.done == n
                || u.done == t.done)
            &&& !(c is Add) && !(c is Store) && !(c is Raise) ==> u.done == t.done
        }),
{
}

/// A hold counts the bytes of its transfer as the row does.
pub proof fn holds_count_like_rows(t: Transfer, c: Change)
    ensures
        done_after(t.done, c) == changed(t, c).done,
{
}

/// The activity list keeps the fifty newest transfers, in order.
pub proof fn the_newest_fifty_are_listed(list: Seq<Transfer>, t: Transfer)
    ensures
        recent(list).len() == (if list.len() < 50 {
            list.len()
        } else {
            50
        }),
        forall|i: int|
            0 <= i < recent(list).len() ==> #[trigger] recent(list)[recent(list).len() - 1 - i]
                == list[list.len() - 1 - i],
        recent(recent(list).push(t)) == recent(list.push(t)),
{
    assert(recent(recent(list).push(t)) =~= recent(list.push(t)));
}

/// A line of the history tells of a transfer its direction, its size, how far it came and how it
/// ended, and its name and path with tabs and line ends as spaces.
pub proof fn history_tells_what_counts(t: Transfer)
    ensures
        ({
            let r = parsed(join(fields(t), seq!['\t']));
            &&& r is Some
            &&& r->0.direction == t.direction
            &&& r->0.total == t.total
            &&& r->0.done == t.done
            &&& r->0.ok == t.ok
            &&& r->0.verified == t.verified
            &&& r->0.name.len() == t.name.len()
            &&& r->0.path.len() == t.path.len()
            &&& forall|i: int|
                0 <= i < t.name.len() ==> #[trigger] r->0.name[i] == (if t.name[i] == '\t' || t.name[i]
                    == '\n' || t.name[i] == '\r' {
                    ' '
                } else {
                    t.name[i]
                })
            &&& forall|i: int|
                0 <= i < t.path.len() ==> #[trigger] r->0.path[i] == (if t.path[i] == '\t' || t.path[i]
                    == '\n' || t.path[i] == '\r' {
                    ' '
                } else {
                    t.path[i]
                })
        }),
{
    history_line_is_read_back(t);
}

/// The history holds the finished transfers, in their order, and no others.
pub proof fn history_holds_the_finished(list: Seq<Transfer>)
    ensures
        records(lines(unlines(history_lines(list)))) == list.filter(
            |t: Transfer| t.finished,
        ).map_values(|t: Transfer| kept(t)),
{
    history_survives_a_restart(list);
    lemma_kept_all(list);
}

proof fn lemma_kept_all(list: Seq<Transfer>)
    ensures
        kept_all(list) == list.filter(|t: Transfer| t.finished).map_values(|t: Transfer| kept(t)),
    decreases list.len(),
{
    reveal(Seq::filter);
    if list.len() > 0 {
        lemma_kept_all(list.drop_last());
        let p = |t: Transfer| t.finished;
        let f = |t: Transfer| kept(t);
        let front = list.drop_last().filter(p);
        if list.last().finished {
            assert(list.filter(p) =~= front.push(list.last()));
            assert(front.push(list.last()).map_values(f) =~= front.map_values(f).push(
                kept(list.last()),
            ));
        } else {
            assert(list.filter(p) =~= front);
        }
    }
    assert(kept_all(list) =~= list.filter(|t: Transfer| t.finished).map_values(
        |t: Transfer| kept(t),
    ));
}

/// A transfer begins with nothing moved and nothing decided, under its own name.
pub proof fn transfers_begin_at_zero(
    id: nat,
    key: Seq<char>,
    name: Seq<char>,
    direction: Direction,
    total: Option<u64>,
    path: Seq<char>,
)
    ensures
        ({
            let t = begun(id, key, name, direction, total, path);
            &&& t.id == id && t.key == key && t.name == name && t.path == path
            &&& t.direction == direction && t.total == total && t.done == 0
            &&& !t.finished && !t.ok && !t.verified && !t.fast
        }),
{
}

/// The bytes done of a transfer are found by its row, if it has one.
pub proof fn rows_tell_their_bytes(list: Seq<Transfer>, next: nat, i: int)
    requires
        ids_rise(list, next),
        0 <= i < list.len(),
    ensures
        row_done(list, list[i].id) == Some(list[i].done),
        row_done(list, next) is None,
    decreases list.len(),
{
    let rest = list.drop_last();
    let last = list[list.len() - 1];
    assert(forall|j: int| 0 <= j < rest.len() ==> rest[j] == list[j]);
    assert(ids_rise(rest, last.id) && last.id < next);
    lemma_no_row(list, next);
    if i < list.len() - 1 {
        assert(rest[i] == list[i]);
        assert(list[i].id < last.id);
        rows_tell_their_bytes(rest, last.id, i);
    }
}

proof fn lemma_no_row(list: Seq<Transfer>, next: nat)
    requires
        forall|j: int| 0 <= j < list.len() ==> (#[trigger] list[j]).id != next,
    ensures
        row_done(list, next) is None,
    decreases list.len(),
{
    if list.len() > 0 {
        let rest = list.drop_last();
        assert(list[list.len() - 1].id != next);
        assert forall|j: int| 0 <= j < rest.len() implies (#[trigger] rest[j]).id != next by {
            assert(rest[j] == list[j]);
        }
        lemma_no_row(rest, next);
    }
}

/// A transfer of an earlier run comes back finished, with all that its history line told.
pub proof fn restored_transfers_are_finished(l: Seq<Record>, first: nat, i: int)
    requires
        0 <= i < l.len(),
    ensures
        restored_all(l, first).len() == l.len(),
        ({
            let t = restored_all(l, first)[i];
            let r = l[i];
            &&& t.id == first + i
            &&& t.direction == r.direction && t.name == r.name && t.path == r.path
            &&& t.total == r.total && t.done == r.done && t.ok == r.ok && t.verified == r.verified
            &&& t.finished && !t.fast && t.key.len() == 0
        }),
{
}

/// A change reaches every hold on its transfer, and no other.
pub proof fn changes_reach_the_holds(holds: Seq<Hold>, id: nat, n: u64, k: int)
    requires
        0 <= k < holds.len(),
    ensures
        ({
            let raised = changed_holds(holds, id, Change::Raise(n))[k];
            let added = changed_holds(holds, id, Change::Add(n))[k];
            let ended = changed_holds(holds, id, Change::Finish)[k];
            &&& raised.id == holds[k].id && added.id == holds[k].id && ended == holds[k]
            &&& holds[k].id != id ==> raised == holds[k] && added == holds[k]
            &&& holds[k].id == id ==> raised.done == (if n > holds[k].done {
                n
            } else {
                holds[k].done
            }) && added.done == (holds[k].done + n) % 0x1_0000_0000_0000_0000
        }),
        changed_holds(holds, id, Change::Store(n)).len() == holds.len(),
        changed_holds(holds, id, Change::Store(n))[k].done == (if holds[k].id == id {
            n
        } else {
            holds[k].done
        }),
{
}

/// A hold is found by its transfer's id, the first one if there are several.
pub proof fn holds_are_found(holds: Seq<Hold>, id: nat, k: int)
    requires
        0 <= k < holds.len(),
        holds[k].id == id,
        forall|j: int| 0 <= j < k ==> (#[trigger] holds[j]).id != id,
    ensures
        is_held(holds, id),
        held_done(holds, id) == holds[k].done,
{
    lemma_hold_at(holds, id, k);
}

proof fn lemma_hold_at(holds: Seq<Hold>, id: nat, k: int)
    requires
        0 <= k <= holds.len(),
        k < holds.len() ==> holds[k].id == id,
        forall|j: int| 0 <= j < k ==> (#[trigger] holds[j]).id != id,
    ensures
        hold_at(holds, id) == k,
    decreases holds.len(),
{
    if k > 0 {
        let rest = holds.skip(1);
        assert(holds[0].id != id);
        assert forall|j: int| 0 <= j < k - 1 implies (#[trigger] rest[j]).id != id by {
            assert(rest[j] == holds[j + 1]);
        }
        if k < holds.len() {
            assert(rest[k - 1] == holds[k]);
        }
        lemma_hold_at(rest, id, k - 1);
    }
}

/// A transfer that nothing holds is not found among the holds.
pub proof fn other_transfers_are_not_held(holds: Seq<Hold>, id: nat)
    requires
        forall|j: int| 0 <= j < holds.len() ==> (#[trigger] holds[j]).id != id,
    ensures
        !is_held(holds, id),
{
    lemma_hold_at(holds, id, holds.len() as int);
}

/// A history line with fewer than six fields says nothing, and one without a path is still read.
pub proof fn short_history_lines(f: Seq<Seq<char>>, name: Seq<char>, done: u64)
    requires
        0 < f.len() < 6,
        forall|i: int| 0 <= i < f.len() ==> !(#[trigger] f[i]).contains('\t'),
        !name.contains('\t'),
    ensures
        parsed(join(f, seq!['\t'])) is None,
        ({
            let old_line = seq![seq!['u', 'p'], name, seq!['-'], dec(done as nat), seq!['1'], seq!['0']];
            parsed(join(old_line, seq!['\t'])) == Some(
                Record {
                    direction: Direction::Upload,
                    name,
                    total: None,
                    done,
                    ok: true,
                    verified: false,
                    path: Seq::empty(),
                },
            )
        }),
{
    few_pieces_are_all_split(f, '\t', 7);
    let l = seq![seq!['u', 'p'], name, seq!['-'], dec(done as nat), seq!['1'], seq!['0']];
    lemma_dec_round_trip(done as nat);
    lemma_no_tab_in_digits(dec(done as nat));
    assert forall|i: int| 0 <= i < l.len() implies !(#[trigger] l[i]).contains('\t') by {
        assert(i == 0 || i == 1 || i == 2 || i == 3 || i == 4 || i == 5);
    }
    few_pieces_are_all_split(l, '\t', 7);
    dec_is_read_back(done as nat, u64::MAX as nat);
    assert(!all_digits(seq!['-'])) by {
        assert(!is_digit(seq!['-'][0]));
    }
    assert(seq!['u', 'p'].len() != seq!['d', 'o', 'w', 'n'].len());
    assert(seq!['0'][0] != seq!['1'][0]);
}

/// The list of transfers tells every field of each row as it is.
pub proof fn rows_are_told_whole(v: Seq<TransferState>, i: int)
    requires
        0 <= i < v.len(),
    ensures
        transfers_of(v).len() == v.len(),
        ({
            let (t, u) = (transfers_of(v)[i], v[i]);
            &&& t.id == u.id && t.key == u.key@ && t.name == u.name@ && t.path == u.path@
            &&& t.direction == u.direction && t.total == u.total && t.done == u.done
            &&& t.finished == u.finished && t.ok == u.ok && t.verified == u.verified && t.fast
                == u.fast
        }),
{
}

} // verus!
