//! The receiving side of Server-Sent Events: from bytes to events.

use vstd::prelude::*;
use vstd::string::*;
use vstd::utf8::*;
use crate::bytes::{bytes_part, push_bytes};
use crate::events::{data_lines, encoded, field_line, flat, EventText};
use crate::text::{
    all_space, begins, bytes_text, chars_of, drop_cr, is_space, join, lead, lemma_ascii_byte,
    lemma_bytes_text, lemma_encode_append, lemma_join_split, lemma_split_pieces, lines, part,
    same, split, starts_with, string_of, text_of_bytes, texts, trim, trim_start, trimmed,
    trimming_gives_the_middle, unlines,
};
use crate::url::opt_text;

verus! {

// ---- Searching bytes ----

/// Whether `p` stands in `s` at position `i`.
pub open spec fn bytes_at(s: Seq<u8>, p: Seq<u8>, i: int) -> bool {
    0 <= i && i + p.len() <= s.len() && s.subrange(i, i + p.len()) == p
}

/// Position of the first occurrence of `p` in `s`.
pub open spec fn find_bytes(s: Seq<u8>, p: Seq<u8>) -> Option<int>
    decreases s.len(),
{
    if bytes_at(s, p, 0) {
        Some(0)
    } else if s.len() == 0 {
        None
    } else {
        match find_bytes(s.skip(1), p) {
            Some(i) => Some(i + 1),
            None => None,
        }
    }
}

/// `find_bytes` is the least position at which the bytes occur.
pub proof fn lemma_find_bytes(s: Seq<u8>, p: Seq<u8>)
    ensures
        match find_bytes(s, p) {
            Some(i) => bytes_at(s, p, i) && forall|j: int| 0 <= j < i ==> !bytes_at(s, p, j),
            None => forall|j: int| !bytes_at(s, p, j),
        },
    decreases s.len(),
{
    if !bytes_at(s, p, 0) && s.len() > 0 {
        lemma_find_bytes(s.skip(1), p);
        assert forall|j: int| j > 0 implies bytes_at(s, p, j) == bytes_at(s.skip(1), p, j - 1) by {
            if j + p.len() <= s.len() {
                assert(s.skip(1).subrange(j - 1, j - 1 + p.len()) =~= s.subrange(j, j + p.len()));
            }
        }
    }
}

fn is_at(hay: &[u8], needle: &[u8], at: usize) -> (r: bool)
    requires
        at + needle@.len() <= hay@.len(),
    ensures
        r == bytes_at(hay@, needle@, at as int),
{
    let len: usize = hay.len();
    let mut k: usize = 0;
    while k < needle.len()
        invariant
            len == hay@.len(),
            at + needle@.len() <= hay@.len(),
            k <= needle@.len(),
            forall|j: int| 0 <= j < k ==> hay@[at + j] == needle@[j],
        decreases needle@.len() - k,
    {
        if hay[at + k] != needle[k] {
            assert(hay@.subrange(at as int, at + needle@.len())[k as int] != needle@[k as int]);
            return false;
        }
        k = k + 1;
    }
    assert(hay@.subrange(at as int, at + needle@.len()) =~= needle@);
    true
}

/// Find the first occurrence of `needle` in `hay`.
pub fn find(hay: &[u8], needle: &[u8]) -> (r: Option<usize>)
    requires
        needle@.len() > 0,
    ensures
        match r {
            Some(i) => find_bytes(hay@, needle@) == Some(i as int) && i + needle@.len()
                <= hay@.len(),
            None => find_bytes(hay@, needle@) is None,
        },
{
    proof {
        lemma_find_bytes(hay@, needle@);
    }
    if hay.len() < needle.len() {
        return None;
    }
    let last: usize = hay.len() - needle.len();
    let mut i: usize = 0;
    while i <= last
        invariant
            i <= last + 1,
            last == hay@.len() - needle@.len(),
            needle@.len() > 0,
            last < usize::MAX,
            forall|j: int| 0 <= j < i ==> !bytes_at(hay@, needle@, j),
        decreases last + 1 - i,
    {
        if is_at(hay, needle, i) {
            proof {
                lemma_find_bytes(hay@, needle@);
            }
            return Some(i);
        }
        i = i + 1;
    }
    None
}

/// Position of the first newline byte, or the length.
pub open spec fn newline_at(b: Seq<u8>) -> int
    decreases b.len(),
{
    if b.len() == 0 || b[0] == 10 {
        0
    } else {
        1 + newline_at(b.skip(1))
    }
}

proof fn lemma_newline_at(b: Seq<u8>, i: int)
    requires
        0 <= i <= b.len(),
        forall|j: int| 0 <= j < i ==> b[j] != 10,
        i < b.len() ==> b[i] == 10,
    ensures
        newline_at(b) == i,
    decreases b.len(),
{
    if i > 0 {
        assert forall|j: int| 0 <= j < i - 1 implies b.skip(1)[j] != 10 by {
            assert(b.skip(1)[j] == b[j + 1]);
        }
        lemma_newline_at(b.skip(1), i - 1);
    }
}

proof fn lemma_find_in_longer(s: Seq<u8>, tail: Seq<u8>, p: Seq<u8>)
    requires
        p.len() > 0,
        find_bytes(s, p) is Some,
    ensures
        find_bytes(s + tail, p) == find_bytes(s, p),
        find_bytes(s, p)->0 + p.len() <= s.len(),
        find_bytes(s, p)->0 >= 0,
{
    lemma_find_bytes(s, p);
    lemma_find_bytes(s + tail, p);
    let i = find_bytes(s, p)->0;
    assert forall|j: int| 0 <= j <= i implies bytes_at(s + tail, p, j) == bytes_at(s, p, j) by {
        if j + p.len() <= s.len() {
            assert((s + tail).subrange(j, j + p.len()) =~= s.subrange(j, j + p.len()));
        }
    }
    assert(bytes_at(s + tail, p, i));
    match find_bytes(s + tail, p) {
        Some(k) => {
            if k < i {
                assert(!bytes_at(s, p, k));
            }
        },
        None => {},
    }
}

proof fn lemma_newline_bounds(b: Seq<u8>)
    ensures
        0 <= newline_at(b) <= b.len(),
    decreases b.len(),
{
    if b.len() > 0 && b[0] != 10 {
        lemma_newline_bounds(b.skip(1));
    }
}

/// The complete lines of a buffer, without their newlines.
pub open spec fn whole_lines(b: Seq<u8>) -> Seq<Seq<u8>>
    decreases b.len(),
    via whole_lines_decreases
{
    let i = newline_at(b);
    if 0 <= i < b.len() {
        seq![b.take(i)] + whole_lines(b.skip(i + 1))
    } else {
        Seq::empty()
    }
}

#[via_fn]
proof fn whole_lines_decreases(b: Seq<u8>) {
    lemma_newline_bounds(b);
}

/// What is left of a buffer behind its last newline.
pub open spec fn rest_of(b: Seq<u8>) -> Seq<u8>
    decreases b.len(),
    via rest_of_decreases
{
    let i = newline_at(b);
    if 0 <= i < b.len() {
        rest_of(b.skip(i + 1))
    } else {
        b
    }
}

#[via_fn]
proof fn rest_of_decreases(b: Seq<u8>) {
    lemma_newline_bounds(b);
}

// ---- Lines to events ----

/// An event as received: its type, its id, and the lines of its payload.
pub struct SseEvent {
    pub event: Option<String>,
    pub id: Option<String>,
    pub data: Vec<String>,
}

/// The same, as texts.
#[verifier::ext_equal]
pub struct SseText {
    pub event: Option<Seq<char>>,
    pub id: Option<Seq<char>>,
    pub data: Seq<Seq<char>>,
}

impl View for SseEvent {
    type V = SseText;

    open spec fn view(&self) -> SseText {
        SseText { event: opt_text(self.event), id: opt_text(self.id), data: texts(self.data@) }
    }
}

/// The views of a list of events.
pub open spec fn event_texts(v: Seq<SseEvent>) -> Seq<SseText> {
    v.map_values(|e: SseEvent| e@)
}

/// An event of which nothing has been received.
pub open spec fn blank() -> SseText {
    SseText { event: None, id: None, data: Seq::empty() }
}

/// A payload line without the one space that belongs to the framing.
pub open spec fn unframed(v: Seq<char>) -> Seq<char> {
    if v.len() > 0 && v[0] == ' ' {
        v.skip(1)
    } else {
        v
    }
}

/// The event in progress after a line that is not empty. Comments and other fields change nothing.
pub open spec fn with_line(st: SseText, line: Seq<char>) -> SseText {
    if begins(line, "event:"@) {
        SseText { event: Some(trim(line.skip("event:"@.len() as int))), ..st }
    } else if begins(line, "id:"@) {
        SseText { id: Some(trim(line.skip("id:"@.len() as int))), ..st }
    } else if begins(line, "data:"@) {
        SseText { data: st.data.push(unframed(line.skip("data:"@.len() as int))), ..st }
    } else {
        st
    }
}

/// The event in progress and the events completed after some lines. An empty line completes one.
pub open spec fn run(st: SseText, l: Seq<Seq<char>>) -> (SseText, Seq<SseText>)
    decreases l.len(),
{
    if l.len() == 0 {
        (st, Seq::empty())
    } else {
        let (now, done) = run(st, l.drop_last());
        if l.last().len() == 0 {
            (blank(), done.push(now))
        } else {
            (with_line(now, l.last()), done)
        }
    }
}

/// The text of a received line: a carriage return at its end is dropped.
pub open spec fn line_text(raw: Seq<u8>) -> Seq<char> {
    drop_cr(bytes_text(raw))
}

/// The texts of received lines.
pub open spec fn line_texts(l: Seq<Seq<u8>>) -> Seq<Seq<char>> {
    l.map_values(|raw: Seq<u8>| line_text(raw))
}

impl SseEvent {
    /// An event of which nothing has been received.
    pub fn new() -> (e: SseEvent)
        ensures
            e@ == blank(),
    {
        let e = SseEvent { event: None, id: None, data: Vec::new() };
        assert(texts(e.data@) =~= Seq::<Seq<char>>::empty());
        e
    }

    fn field(&mut self, line: &[char])
        ensures
            final(self)@ == with_line(old(self)@, line@),
    {
        let event = chars_of("event:");
        let id = chars_of("id:");
        let data = chars_of("data:");
        if starts_with(line, &event) {
            let v = part(line, event.len(), line.len());
            assert(v@ =~= line@.skip("event:"@.len() as int));
            self.event = Some(string_of(&trimmed(&v)));
        } else if starts_with(line, &id) {
            let v = part(line, id.len(), line.len());
            assert(v@ =~= line@.skip("id:"@.len() as int));
            self.id = Some(string_of(&trimmed(&v)));
        } else if starts_with(line, &data) {
            let v = part(line, data.len(), line.len());
            assert(v@ =~= line@.skip("data:"@.len() as int));
            let w = if v.len() > 0 && v[0] == ' ' {
                part(&v, 1, v.len())
            } else {
                part(&v, 0, v.len())
            };
            assert(w@ =~= unframed(v@));
            let ghost before = self.data@;
            self.data.push(string_of(&w));
            assert(texts(self.data@) =~= texts(before).push(w@));
        }
    }

    /// Take in one line. An empty line completes the event and hands it out.
    pub fn on_sse_line(&mut self, line: &[char]) -> (r: Option<SseEvent>)
        ensures
            if line@.len() == 0 {
                &&& r matches Some(e) && e@ == old(self)@
                &&& final(self)@ == blank()
            } else {
                &&& r is None
                &&& final(self)@ == with_line(old(self)@, line@)
            },
    {
        if line.len() == 0 {
            let mut e = SseEvent::new();
            std::mem::swap(self, &mut e);
            Some(e)
        } else {
            self.field(line);
            None
        }
    }
}

// ---- The stream ----

/// An event stream being received: the response head, then lines.
pub struct SseStream {
    buf: Vec<u8>,
    headers_done: bool,
    partial: SseEvent,
}

/// The end of a response head.
pub open spec fn head_end() -> Seq<u8> {
    seq![13u8, 10u8, 13u8, 10u8]
}

/// A stream as mathematical values: the bytes that are not yet a complete line, whether the
/// response head is past, and the event in progress.
#[verifier::ext_equal]
pub struct StreamText {
    pub buffered: Seq<u8>,
    pub in_body: bool,
    pub partial: SseText,
}

impl View for SseStream {
    type V = StreamText;

    closed spec fn view(&self) -> StreamText {
        StreamText {
            buffered: self.buf@,
            in_body: self.headers_done,
            partial: self.partial@,
        }
    }
}

/// A stream after some bytes were received, and the events that they completed.
pub open spec fn fed(st: StreamText, bytes: Seq<u8>) -> (StreamText, Seq<SseText>) {
    let b = st.buffered + bytes;
    match body_of(b, st.in_body) {
        None => (StreamText { buffered: b, ..st }, Seq::empty()),
        Some(body) => {
            let (partial, events) = run(st.partial, line_texts(whole_lines(body)));
            (StreamText { buffered: rest_of(body), in_body: true, partial }, events)
        },
    }
}

impl SseStream {
    /// A stream of which nothing has been received.
    pub fn new() -> (s: SseStream)
        ensures
            s@ == (StreamText { buffered: Seq::empty(), in_body: false, partial: blank() }),
    {
        let s = SseStream { buf: Vec::new(), headers_done: false, partial: SseEvent::new() };
        assert(s.buf@ =~= Seq::<u8>::empty());
        s
    }

    /// Take in received bytes and hand out the events that they complete.
    pub fn feed(&mut self, bytes: &[u8]) -> (events: Vec<SseEvent>)
        ensures
            (final(self)@, event_texts(events@)) == fed(old(self)@, bytes@),
    {
        let mut events: Vec<SseEvent> = Vec::new();
        push_bytes(&mut self.buf, bytes);
        let ghost b = self.buf@;
        if !self.headers_done {
            let end: [u8; 4] = [13, 10, 13, 10];
            assert(end@ =~= head_end());
            match find(&self.buf, &end) {
                Some(pos) => {
                    let len: usize = self.buf.len();
                    let body = bytes_part(&self.buf, pos + 4, len);
                    assert(body@ =~= b.skip(pos + 4));
                    self.buf = body;
                    self.headers_done = true;
                },
                None => {
                    assert(event_texts(events@) =~= Seq::<SseText>::empty());
                    return events;
                },
            }
        }
        let ghost body = self.buf@;
        assert(body_of(b, old(self)@.in_body) == Some(body));
        let ghost st = self.partial@;
        let all = bytes_part(&self.buf, 0, self.buf.len());
        assert(all@ =~= body);
        let mut from: usize = 0;
        let mut i: usize = 0;
        let ghost mut seen: Seq<Seq<u8>> = Seq::empty();
        assert(body.skip(0) =~= body);
        assert(seen + whole_lines(body) =~= whole_lines(body));
        assert(event_texts(events@) =~= Seq::<SseText>::empty());
        assert(line_texts(seen) =~= Seq::<Seq<char>>::empty());
        while i < all.len()
            invariant
                all@ == body,
                from <= i <= all@.len(),
                self.headers_done,
                self.buf@ == body,
                forall|j: int| from <= j < i ==> all@[j] != 10,
                seen + whole_lines(body.skip(from as int)) == whole_lines(body),
                rest_of(body.skip(from as int)) == rest_of(body),
                (self.partial@, event_texts(events@)) == run(st, line_texts(seen)),
            decreases all@.len() - i,
        {
            if all[i] == 10 {
                let ghost rest = body.skip(from as int);
                let raw = bytes_part(&all, from, i);
                let text = text_of_bytes(&raw);
                let mut line = chars_of(text.as_str());
                let n: usize = line.len();
                if n > 0 && line[n - 1] == '\r' {
                    line.pop();
                }
                assert(line@ =~= line_text(raw@));
                let ghost before = events@;
                proof {
                    assert forall|j: int| 0 <= j < i - from implies rest[j] != 10 by {
                        assert(rest[j] == all@[from + j]);
                    }
                    lemma_newline_at(rest, i - from);
                    assert(raw@ =~= rest.take(i - from));
                    assert(rest.skip(i - from + 1) =~= body.skip(i + 1));
                    assert(line_texts(seen.push(raw@)) =~= line_texts(seen).push(line@));
                    assert(line_texts(seen).push(line@).drop_last() =~= line_texts(seen));
                    assert(seen.push(raw@) + whole_lines(body.skip(i + 1)) =~= seen + (seq![raw@]
                        + whole_lines(body.skip(i + 1))));
                }
                match self.partial.on_sse_line(&line) {
                    Some(e) => {
                        events.push(e);
                        assert(event_texts(events@) =~= event_texts(before).push(e@));
                    },
                    None => {},
                }
                proof {
                    seen = seen.push(raw@);
                }
                from = i + 1;
            }
            i = i + 1;
        }
        proof {
            let rest = body.skip(from as int);
            lemma_newline_at(rest, rest.len() as int);
            assert(whole_lines(rest) =~= Seq::<Seq<u8>>::empty());
            assert(seen + whole_lines(rest) =~= seen);
        }
        let left = bytes_part(&all, from, all.len());
        assert(left@ =~= body.skip(from as int));
        self.buf = left;
        events
    }
}

/// What follows the response head in `b`; all of `b` when the head is past already.
pub open spec fn body_of(b: Seq<u8>, in_body: bool) -> Option<Seq<u8>> {
    if in_body {
        Some(b)
    } else {
        match find_bytes(b, head_end()) {
            Some(i) => Some(b.skip(i + 4)),
            None => None,
        }
    }
}

// ---- Laws ----

/// The one line of an optional field.
pub open spec fn field_lines(label: Seq<char>, value: Option<Seq<char>>) -> Seq<Seq<char>> {
    match value {
        Some(v) => seq![label + flat(v)],
        None => Seq::empty(),
    }
}

/// The `data:` lines of payload lines.
pub open spec fn payload_lines(l: Seq<Seq<char>>) -> Seq<Seq<char>> {
    l.map_values(|x: Seq<char>| "data: "@ + x)
}

/// Lines without the carriage return that each may end with.
pub open spec fn without_cr(l: Seq<Seq<char>>) -> Seq<Seq<char>> {
    l.map_values(|x: Seq<char>| drop_cr(x))
}

/// The lines of an event with the given payload lines.
pub open spec fn event_lines(e: EventText, payload: Seq<Seq<char>>) -> Seq<Seq<char>> {
    field_lines("event: "@, e.event) + field_lines("id: "@, e.id) + payload_lines(payload)
        + seq![Seq::<char>::empty()]
}

/// The lines that an event is sent as: the sender drops a carriage return at the end of each
/// payload line.
pub open spec fn wire_lines(e: EventText) -> Seq<Seq<char>> {
    event_lines(e, without_cr(split(e.data, '\n')))
}

/// An event as its receiver sees it: the receiver drops a carriage return at the end of each line,
/// as the sender did.
pub open spec fn seen_as(e: EventText) -> SseText {
    SseText {
        event: match e.event {
            Some(n) => Some(trim(flat(n))),
            None => None,
        },
        id: match e.id {
            Some(n) => Some(trim(flat(n))),
            None => None,
        },
        data: without_cr(without_cr(split(e.data, '\n'))),
    }
}

proof fn lemma_unlines_append(a: Seq<Seq<char>>, b: Seq<Seq<char>>)
    ensures
        unlines(a + b) == unlines(a) + unlines(b),
    decreases b.len(),
{
    if b.len() == 0 {
        assert(a + b =~= a);
        assert(unlines(a) + unlines(b) =~= unlines(a));
    } else {
        lemma_unlines_append(a, b.drop_last());
        assert((a + b).drop_last() =~= a + b.drop_last());
        assert(unlines(a + b) =~= unlines(a) + unlines(b));
    }
}

proof fn lemma_unlines_one(x: Seq<char>)
    ensures
        unlines(seq![x]) == x + seq!['\n'],
{
    assert(seq![x].drop_last() =~= Seq::<Seq<char>>::empty());
    assert(unlines(seq![x].drop_last()) =~= Seq::<char>::empty());
    assert(unlines(seq![x]) =~= x + seq!['\n']);
}

proof fn lemma_data_lines(l: Seq<Seq<char>>)
    ensures
        data_lines(l) == unlines(payload_lines(without_cr(l))),
    decreases l.len(),
{
    let all = payload_lines(without_cr(l));
    if l.len() > 0 {
        let rest = l.drop_last();
        lemma_data_lines(rest);
        assert(all.drop_last() =~= payload_lines(without_cr(rest)));
        assert(all.last() == "data: "@ + drop_cr(l.last()));
        assert(data_lines(l) =~= unlines(all));
    }
}

/// An event goes over the wire as its lines.
pub proof fn encoded_as_lines(e: EventText)
    ensures
        encoded(e) == unlines(wire_lines(e)),
{
    let a = field_lines("event: "@, e.event);
    let b = field_lines("id: "@, e.id);
    let c = payload_lines(without_cr(split(e.data, '\n')));
    let d = seq![Seq::<char>::empty()];
    lemma_data_lines(split(e.data, '\n'));
    lemma_unlines_append(a + b + c, d);
    lemma_unlines_append(a + b, c);
    lemma_unlines_append(a, b);
    lemma_unlines_one(Seq::empty());
    if e.event is Some {
        lemma_unlines_one("event: "@ + flat(e.event->0));
    }
    if e.id is Some {
        lemma_unlines_one("id: "@ + flat(e.id->0));
    }
    assert(unlines(a) =~= field_line("event: "@, e.event));
    assert(unlines(b) =~= field_line("id: "@, e.id));
    assert(encoded(e) =~= unlines(wire_lines(e)));
}

proof fn lemma_run_append(st: SseText, a: Seq<Seq<char>>, b: Seq<Seq<char>>)
    ensures
        ({
            let (s1, e1) = run(st, a);
            let (s2, e2) = run(s1, b);
            run(st, a + b) == (s2, e1 + e2)
        }),
    decreases b.len(),
{
    let (s1, e1) = run(st, a);
    if b.len() == 0 {
        assert(a + b =~= a);
        assert(e1 + Seq::<SseText>::empty() =~= e1);
    } else {
        lemma_run_append(st, a, b.drop_last());
        assert((a + b).drop_last() =~= a + b.drop_last());
        let (s2, e2) = run(s1, b.drop_last());
        if b.last().len() == 0 {
            assert((e1 + e2).push(s2) =~= e1 + e2.push(s2));
        }
    }
}

proof fn lemma_run_one(st: SseText, line: Seq<char>)
    requires
        line.len() > 0,
    ensures
        run(st, seq![line]) == (with_line(st, line), Seq::<SseText>::empty()),
{
    assert(seq![line].drop_last() =~= Seq::<Seq<char>>::empty());
    assert(run(st, seq![line].drop_last()) == (st, Seq::<SseText>::empty()));
}

proof fn lemma_run_field(st: SseText, v: Seq<char>)
    ensures
        with_line(st, "event: "@ + v) == (SseText { event: Some(trim(v)), ..st }),
        with_line(st, "id: "@ + v) == (SseText { id: Some(trim(v)), ..st }),
        with_line(st, "data: "@ + v) == (SseText { data: st.data.push(v), ..st }),
{
    reveal_strlit("event: ");
    reveal_strlit("event:");
    reveal_strlit("id: ");
    reveal_strlit("id:");
    reveal_strlit("data: ");
    reveal_strlit("data:");
    let a = "event: "@ + v;
    let b = "id: "@ + v;
    let c = "data: "@ + v;
    assert(a.subrange(0, 6) =~= "event:"@);
    assert(b.subrange(0, 3) =~= "id:"@);
    assert(c.subrange(0, 5) =~= "data:"@);
    assert(a.skip(6) =~= seq![' '] + v);
    assert(b.skip(3) =~= seq![' '] + v);
    assert(c.skip(5) =~= seq![' '] + v);
    assert(unframed(seq![' '] + v) =~= v);
    lemma_trim_space(v);
    assert(b[0] == 'i' && c[0] == 'd');
    if begins(b, "event:"@) {
        assert(b.subrange(0, 6)[0] == 'i');
    }
    if begins(c, "event:"@) {
        assert(c.subrange(0, 6)[0] == 'd');
    }
    if begins(c, "id:"@) {
        assert(c.subrange(0, 3)[0] == 'd');
    }
}

proof fn lemma_trim_space(v: Seq<char>)
    ensures
        trim(seq![' '] + v) == trim(v),
{
    let s = seq![' '] + v;
    assert(s.skip(1) =~= v);
    assert(is_space(' '));
    assert(s[0] == ' ');
    assert(lead(s, |c: char| is_space(c)) == 1 + lead(v, |c: char| is_space(c)));
    crate::text::lemma_lead_props(v, |c: char| is_space(c));
    assert(trim_start(s) =~= trim_start(v));
}

proof fn lemma_run_payload(st: SseText, l: Seq<Seq<char>>)
    ensures
        run(st, payload_lines(l)) == (SseText { data: st.data + l, ..st }, Seq::<SseText>::empty()),
    decreases l.len(),
{
    if l.len() == 0 {
        assert(payload_lines(l) =~= Seq::<Seq<char>>::empty());
        assert(st.data + l =~= st.data);
    } else {
        let rest = l.drop_last();
        lemma_run_payload(st, rest);
        assert(payload_lines(l).drop_last() =~= payload_lines(rest));
        assert(payload_lines(l).last() == "data: "@ + l.last());
        reveal_strlit("data: ");
        lemma_run_field(SseText { data: st.data + rest, ..st }, l.last());
        assert((st.data + rest).push(l.last()) =~= st.data + l);
    }
}

/// The lines of an event, as its receiver takes them, complete that one event and leave nothing
/// behind.
pub proof fn sent_events_are_received(e: EventText)
    ensures
        run(blank(), event_lines(e, seen_as(e).data)) == (blank(), seq![seen_as(e)]),
{
    let a = field_lines("event: "@, e.event);
    let b = field_lines("id: "@, e.id);
    let c = payload_lines(seen_as(e).data);
    let d = seq![Seq::<char>::empty()];
    let none = Seq::<SseText>::empty();
    reveal_strlit("event: ");
    reveal_strlit("id: ");
    let s0 = blank();
    let s1 = SseText { event: seen_as(e).event, ..s0 };
    let s2 = SseText { id: seen_as(e).id, ..s1 };
    let s3 = SseText { data: s2.data + seen_as(e).data, ..s2 };
    match e.event {
        Some(n) => {
            lemma_run_field(s0, flat(n));
            lemma_run_one(s0, "event: "@ + flat(n));
        },
        None => {
            assert(s1 =~= s0);
        },
    }
    assert(run(s0, a) == (s1, none));
    match e.id {
        Some(n) => {
            lemma_run_field(s1, flat(n));
            lemma_run_one(s1, "id: "@ + flat(n));
        },
        None => {
            assert(s2 =~= s1);
        },
    }
    assert(run(s1, b) == (s2, none));
    lemma_run_payload(s2, seen_as(e).data);
    assert(s3 =~= seen_as(e));
    lemma_run_append(s0, a, b);
    lemma_run_append(s0, a + b, c);
    lemma_run_append(s0, a + b + c, d);
    assert(none + none =~= none);
    assert(d.drop_last() =~= Seq::<Seq<char>>::empty());
    assert(run(s3, d.drop_last()) == (s3, none));
    assert(run(s3, d) == (blank(), none.push(s3)));
    assert(none + none.push(s3) =~= seq![s3]);
}

/// The bytes of lines, each with its newline, are cut into the bytes of the lines again.
proof fn lemma_whole_lines(l: Seq<Seq<char>>)
    requires
        forall|i: int| 0 <= i < l.len() ==> !(#[trigger] l[i]).contains('\n'),
    ensures
        whole_lines(encode_utf8(unlines(l))) == l.map_values(|x: Seq<char>| encode_utf8(x)),
        rest_of(encode_utf8(unlines(l))) == Seq::<u8>::empty(),
    decreases l.len(),
{
    let b = encode_utf8(unlines(l));
    let cut = l.map_values(|x: Seq<char>| encode_utf8(x));
    if l.len() == 0 {
        assert(b =~= Seq::<u8>::empty());
        assert(whole_lines(b) =~= cut);
    } else {
        let first = l[0];
        let rest = l.skip(1);
        assert forall|i: int| 0 <= i < rest.len() implies !(#[trigger] rest[i]).contains('\n') by {
            assert(rest[i] == l[i + 1]);
        }
        lemma_whole_lines(rest);
        assert(l =~= seq![first] + rest);
        lemma_unlines_append(seq![first], rest);
        lemma_unlines_one(first);
        lemma_encode_append(first + seq!['\n'], unlines(rest));
        lemma_encode_append(first, seq!['\n']);
        lemma_ascii_byte(first, '\n');
        let head = encode_utf8(first);
        let tail = encode_utf8(unlines(rest));
        assert(b =~= head + seq![10u8] + tail);
        let n = head.len() as int;
        assert forall|j: int| 0 <= j < n implies b[j] != 10 by {
            assert(b[j] == head[j]);
        }
        lemma_newline_at(b, n);
        assert(b.take(n) =~= head);
        assert(b.skip(n + 1) =~= tail);
        assert(seq![head] + rest.map_values(|x: Seq<char>| encode_utf8(x)) =~= cut);
    }
}

proof fn lemma_wire_lines(e: EventText)
    ensures
        forall|i: int|
            0 <= i < wire_lines(e).len() ==> !(#[trigger] wire_lines(e)[i]).contains('\n'),
        without_cr(wire_lines(e)) == event_lines(e, seen_as(e).data),
{
    reveal_strlit("event: ");
    reveal_strlit("id: ");
    reveal_strlit("data: ");
    lemma_split_pieces(e.data, '\n');
    let l = wire_lines(e);
    let a = field_lines("event: "@, e.event);
    let b = field_lines("id: "@, e.id);
    let lines = split(e.data, '\n');
    let sent = without_cr(lines);
    let taken = event_lines(e, seen_as(e).data);
    assert forall|i: int| 0 <= i < l.len() implies !(#[trigger] l[i]).contains('\n') && drop_cr(
        l[i],
    ) == taken[i] by {
        let x = l[i];
        if i < a.len() {
            assert(x == "event: "@ + flat(e.event->0));
            assert(taken[i] == x);
            assert(x.last() != '\r');
        } else if i < a.len() + b.len() {
            assert(x == "id: "@ + flat(e.id->0));
            assert(taken[i] == x);
            assert(x.last() != '\r');
        } else if i < a.len() + b.len() + lines.len() {
            let k = i - a.len() - b.len();
            let y = sent[k];
            assert(y == drop_cr(lines[k]));
            assert(x == "data: "@ + y);
            assert(taken[i] == "data: "@ + drop_cr(y));
            assert forall|j: int| 0 <= j < x.len() implies x[j] != '\n' by {
                if j >= 6 {
                    assert(x[j] == lines[k][j - 6]);
                    assert(lines[k].contains(lines[k][j - 6]));
                }
            }
            if y.len() > 0 {
                assert(x.last() == y.last());
                assert(x.drop_last() =~= "data: "@ + y.drop_last());
            } else {
                assert(x =~= "data: "@);
                assert(x.last() == ' ');
                assert("data: "@ + drop_cr(y) =~= x);
            }
        } else {
            assert(x =~= Seq::<char>::empty());
        }
    }
    assert(without_cr(l) =~= taken);
}

/// The frame of an event, received in one piece or as the end of one, completes exactly that event
/// and leaves nothing in the buffer.
pub proof fn frames_are_received(e: EventText)
    ensures
        ({
            let frame = encode_utf8(encoded(e));
            &&& rest_of(frame) == Seq::<u8>::empty()
            &&& run(blank(), line_texts(whole_lines(frame))) == (blank(), seq![seen_as(e)])
        }),
{
    let l = wire_lines(e);
    encoded_as_lines(e);
    lemma_wire_lines(e);
    lemma_whole_lines(l);
    let raw = l.map_values(|x: Seq<char>| encode_utf8(x));
    assert forall|i: int| 0 <= i < l.len() implies line_text(#[trigger] raw[i])
        == without_cr(l)[i] by {
        lemma_bytes_text(l[i]);
    }
    assert(line_texts(raw) =~= without_cr(l));
    sent_events_are_received(e);
}

/// A payload of which no line ends with a carriage return arrives as it was sent, newlines and all.
pub proof fn payloads_arrive_verbatim(e: EventText)
    requires
        forall|i: int|
            0 <= i < split(e.data, '\n').len() ==> drop_cr(#[trigger] split(e.data, '\n')[i])
                == split(e.data, '\n')[i],
    ensures
        seen_as(e).data == split(e.data, '\n'),
        join(seen_as(e).data, seq!['\n']) == e.data,
{
    assert(without_cr(split(e.data, '\n')) =~= split(e.data, '\n'));
    lemma_join_split(e.data, '\n');
}

proof fn lemma_lines_in_pieces(a: Seq<u8>, b: Seq<u8>)
    ensures
        whole_lines(a + b) == whole_lines(a) + whole_lines(rest_of(a) + b),
        rest_of(a + b) == rest_of(rest_of(a) + b),
    decreases a.len(),
{
    lemma_newline_bounds(a);
    let i = newline_at(a);
    if i < a.len() {
        lemma_newline_props(a);
        assert forall|j: int| 0 <= j < i implies (a + b)[j] != 10 by {
            assert((a + b)[j] == a[j]);
        }
        lemma_newline_at(a + b, i);
        assert((a + b).take(i) =~= a.take(i));
        assert((a + b).skip(i + 1) =~= a.skip(i + 1) + b);
        lemma_lines_in_pieces(a.skip(i + 1), b);
        let first = seq![a.take(i)];
        let rest = whole_lines(a.skip(i + 1));
        let last = whole_lines(rest_of(a) + b);
        assert(first + (rest + last) =~= first + rest + last);
    } else {
        assert(whole_lines(a) + whole_lines(a + b) =~= whole_lines(a + b));
    }
}

proof fn lemma_newline_props(b: Seq<u8>)
    ensures
        forall|j: int| 0 <= j < newline_at(b) ==> b[j] != 10,
        newline_at(b) < b.len() ==> b[newline_at(b)] == 10,
    decreases b.len(),
{
    if b.len() > 0 && b[0] != 10 {
        lemma_newline_props(b.skip(1));
        lemma_newline_bounds(b.skip(1));
        assert forall|j: int| 0 <= j < newline_at(b) implies b[j] != 10 by {
            if j > 0 {
                assert(b.skip(1)[j - 1] == b[j]);
            }
        }
        if newline_at(b) < b.len() {
            assert(b.skip(1)[newline_at(b.skip(1))] == b[newline_at(b)]);
        }
    }
}

/// However the bytes of a stream are cut up on the way, the events are the same: receiving some
/// bytes and then more is receiving them at once.
pub proof fn pieces_give_the_same_events(st: StreamText, a: Seq<u8>, b: Seq<u8>)
    ensures
        ({
            let (s1, e1) = fed(st, a);
            let (s2, e2) = fed(s1, b);
            fed(st, a + b) == (s2, e1 + e2)
        }),
{
    let x = st.buffered + a;
    let (s1, e1) = fed(st, a);
    let (s2, e2) = fed(s1, b);
    assert(st.buffered + (a + b) =~= x + b);
    match body_of(x, st.in_body) {
        None => {
            assert(e1 + e2 =~= e2);
        },
        Some(body) => {
            if !st.in_body {
                lemma_find_in_longer(x, b, head_end());
                let i = find_bytes(x, head_end())->0;
                assert((x + b).skip(i + 4) =~= body + b);
            }
            assert(body_of(x + b, st.in_body) == Some(body + b));
            lemma_lines_in_pieces(body, b);
            let l = whole_lines(body);
            let m = whole_lines(rest_of(body) + b);
            assert(line_texts(l + m) =~= line_texts(l) + line_texts(m));
            lemma_run_append(st.partial, line_texts(l), line_texts(m));
        },
    }
}

/// The pieces of a stream joined.
pub open spec fn concat(pieces: Seq<Seq<u8>>) -> Seq<u8>
    decreases pieces.len(),
{
    if pieces.len() == 0 {
        Seq::empty()
    } else {
        concat(pieces.drop_last()) + pieces.last()
    }
}

/// A stream after pieces were received one by one, and the events that they completed.
pub open spec fn fed_all(st: StreamText, pieces: Seq<Seq<u8>>) -> (StreamText, Seq<SseText>)
    decreases pieces.len(),
{
    if pieces.len() == 0 {
        (st, Seq::empty())
    } else {
        let (s1, e1) = fed_all(st, pieces.drop_last());
        let (s2, e2) = fed(s1, pieces.last());
        (s2, e1 + e2)
    }
}

proof fn lemma_fed_all(st: StreamText, pieces: Seq<Seq<u8>>)
    requires
        pieces.len() > 0,
    ensures
        fed_all(st, pieces) == fed(st, concat(pieces)),
    decreases pieces.len(),
{
    let before = pieces.drop_last();
    if pieces.len() == 1 {
        assert(concat(before) =~= Seq::<u8>::empty());
        assert(concat(pieces) =~= pieces.last());
        let (s2, e2) = fed(st, pieces.last());
        assert(fed_all(st, before) == (st, Seq::<SseText>::empty()));
        assert(Seq::<SseText>::empty() + e2 =~= e2);
    } else {
        lemma_fed_all(st, before);
        pieces_give_the_same_events(st, concat(before), pieces.last());
    }
}

/// The frame of an event completes exactly that event, in however many pieces it arrives, and the
/// stream is then ready for the next.
pub proof fn frames_are_received_in_pieces(e: EventText, pieces: Seq<Seq<u8>>)
    requires
        concat(pieces) == encode_utf8(encoded(e)),
    ensures
        ({
            let ready = StreamText { buffered: Seq::empty(), in_body: true, partial: blank() };
            fed_all(ready, pieces) == (ready, seq![seen_as(e)])
        }),
{
    let ready = StreamText { buffered: Seq::empty(), in_body: true, partial: blank() };
    let frame = encode_utf8(encoded(e));
    frames_are_received(e);
    if pieces.len() == 0 {
        assert(whole_lines(frame) =~= Seq::<Seq<u8>>::empty());
        assert(line_texts(whole_lines(frame)) =~= Seq::<Seq<char>>::empty());
        assert(run(blank(), line_texts(whole_lines(frame))).1.len() == 0);
        assert(seq![seen_as(e)].len() == 1);
    } else {
        lemma_fed_all(ready, pieces);
        assert(Seq::<u8>::empty() + frame =~= frame);
    }
}

/// What a line adds to an event: a payload line without the one space of the framing, with all
/// others kept; a name or a number without white space around it; and a comment nothing.
#[verifier::rlimit(40)]
pub proof fn lines_add_their_field(st: SseText, x: Seq<char>, a: Seq<char>, b: Seq<char>)
    requires
        all_space(a),
        all_space(b),
        x.len() > 0 ==> !is_space(x[0]) && !is_space(x.last()),
    ensures
        with_line(st, "data: "@ + (a + x + b)) == (SseText { data: st.data.push(a + x + b), ..st }),
        with_line(st, "data:"@ + x) == (SseText { data: st.data.push(x), ..st }),
        with_line(st, "event:"@ + (a + x + b)) == (SseText { event: Some(x), ..st }),
        with_line(st, "id:"@ + (a + x + b)) == (SseText { id: Some(x), ..st }),
        with_line(st, ":"@ + x) == st,
{
    reveal_strlit("data: ");
    reveal_strlit("data:");
    reveal_strlit("event:");
    reveal_strlit("id:");
    reveal_strlit(":");
    let w = a + x + b;
    let (d, e, i) = ("data:"@, "event:"@, "id:"@);
    trimming_gives_the_middle(a, x, b);
    let l1 = "data: "@ + w;
    assert(l1.subrange(0, 5) =~= d);
    assert(begins(l1, e) ==> l1.subrange(0, 6)[0] == e[0]);
    assert(begins(l1, i) ==> l1.subrange(0, 3)[0] == i[0]);
    assert(l1.skip(5) =~= seq![' '] + w);
    assert((seq![' '] + w).skip(1) =~= w);
    let l2 = d + x;
    assert(l2.subrange(0, 5) =~= d);
    assert(begins(l2, e) ==> l2.subrange(0, 6)[0] == e[0]);
    assert(begins(l2, i) ==> l2.subrange(0, 3)[0] == i[0]);
    assert(l2.skip(5) =~= x);
    assert(x.len() > 0 ==> x[0] != ' ');
    let l3 = e + w;
    assert(l3.subrange(0, 6) =~= e);
    assert(l3.skip(6) =~= w);
    let l4 = i + w;
    assert(l4.subrange(0, 3) =~= i);
    assert(begins(l4, e) ==> l4.subrange(0, 6)[0] == e[0]);
    assert(l4.skip(3) =~= w);
    let l5 = ":"@ + x;
    assert(l5[0] == ':');
    assert(begins(l5, e) ==> l5.subrange(0, 6)[0] == e[0]);
    assert(begins(l5, i) ==> l5.subrange(0, 3)[0] == i[0]);
    assert(begins(l5, d) ==> l5.subrange(0, 5)[0] == d[0]);
}

/// The head of a response ends at its first empty line; the body is all that follows, and there is
/// none before that line has come.
pub proof fn heads_are_passed_over(head: Seq<u8>, p: Seq<u8>, body: Seq<u8>)
    requires
        p == seq![13u8, 10, 13, 10],
        forall|j: int| 0 <= j < head.len() ==> !#[trigger] bytes_at(head + p + body, p, j),
    ensures
        body_of(head + p + body, false) == Some(body),
        body_of(body, true) == Some(body),
        (forall|j: int| 0 <= j <= head.len() ==> !#[trigger] bytes_at(head, p, j)) ==> body_of(
            head,
            false,
        ) is None,
{
    let b = head + p + body;
    let n = head.len() as int;
    assert(head_end() =~= p);
    lemma_find_bytes(b, p);
    assert(b.subrange(n, n + 4) =~= p);
    assert(bytes_at(b, p, n));
    let found = find_bytes(b, p)->0;
    assert(find_bytes(b, p) is Some);
    assert(found == n);
    assert(b.skip(n + 4) =~= body);
    lemma_find_bytes(head, p);
}

/// Events that are sent one after another are received one after another.
pub proof fn events_arrive_in_order(l: Seq<EventText>)
    ensures
        ({
            let ready = StreamText { buffered: Seq::empty(), in_body: true, partial: blank() };
            fed_all(ready, l.map_values(|e: EventText| encode_utf8(encoded(e)))) == (
                ready,
                l.map_values(|e: EventText| seen_as(e)),
            )
        }),
    decreases l.len(),
{
    let ready = StreamText { buffered: Seq::empty(), in_body: true, partial: blank() };
    let f = |e: EventText| encode_utf8(encoded(e));
    let g = |e: EventText| seen_as(e);
    let frames = l.map_values(f);
    if l.len() == 0 {
        assert(l.map_values(g) =~= Seq::<SseText>::empty());
    } else {
        let front = l.drop_last();
        let e = l.last();
        events_arrive_in_order(front);
        assert(frames.drop_last() =~= front.map_values(f));
        let one = seq![f(e)];
        assert(one.drop_last() =~= Seq::<Seq<u8>>::empty());
        assert(concat(one) =~= f(e)) by {
            assert(concat(one.drop_last()) =~= Seq::<u8>::empty());
        }
        frames_are_received_in_pieces(e, one);
        assert(fed_all(ready, one.drop_last()) == (ready, Seq::<SseText>::empty()));
        assert(Seq::<SseText>::empty() + fed(ready, f(e)).1 =~= fed(ready, f(e)).1);
        assert(fed(ready, f(e)) == (ready, seq![seen_as(e)]));
        assert(front.map_values(g) + seq![seen_as(e)] =~= l.map_values(g));
    }
}

/// A received event is told whole.
pub proof fn received_events_are_told_whole(v: Seq<SseEvent>, i: int)
    requires
        0 <= i < v.len(),
    ensures
        event_texts(v).len() == v.len(),
        ({
            let (t, e) = (event_texts(v)[i], v[i]);
            &&& t.event is Some <==> e.event is Some
            &&& t.event matches Some(n) ==> n == e.event->0@
            &&& t.id is Some <==> e.id is Some
            &&& t.id matches Some(n) ==> n == e.id->0@
            &&& t.data.len() == e.data@.len()
            &&& forall|k: int| 0 <= k < t.data.len() ==> #[trigger] t.data[k] == e.data@[k]@
        }),
{
}

} // verus!
