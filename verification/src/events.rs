//! Server-Sent Events: pushing to every connected client, with automatic presence.
//!
//! The hub holds one queue of encoded frames per client. Connecting and disconnecting broadcasts a
//! `presence` frame with the number of clients, so that every device sees who is paired.

use vstd::prelude::*;
use vstd::string::*;
use vstd::utf8::*;
use crate::bytes::bytes_part;
use crate::json::{is_object, lemma_first_member, lemma_is_object, Scalar};
use crate::num::{dec, push_dec};
use crate::text::{chars_of, drop_cr, pieces, push_chars, rows, split};
use crate::url::opt_text;

verus! {

// ---- Events ----

/// One Server-Sent Event.
#[derive(Clone, Debug, PartialEq, Eq)]
pub struct Event {
    /// The `event:` field, a type name that clients can filter on.
    pub event: Option<String>,
    /// The payload. May span multiple lines.
    pub data: String,
    /// The `id:` field, for reconnection.
    pub id: Option<String>,
}

/// The same, as texts.
#[verifier::ext_equal]
pub struct EventText {
    pub event: Option<Seq<char>>,
    pub data: Seq<char>,
    pub id: Option<Seq<char>>,
}

impl View for Event {
    type V = EventText;

    open spec fn view(&self) -> EventText {
        EventText { event: opt_text(self.event), data: self.data@, id: opt_text(self.id) }
    }
}

/// A character of a one-line field: line ends become spaces.
pub open spec fn flat_char(c: char) -> char {
    if c == '\n' || c == '\r' {
        ' '
    } else {
        c
    }
}

/// A text on one line.
pub open spec fn flat(s: Seq<char>) -> Seq<char> {
    s.map_values(|c: char| flat_char(c))
}

/// The `data:` lines of a payload's lines. One carriage return at the end of a line is dropped.
pub open spec fn data_lines(l: Seq<Seq<char>>) -> Seq<char>
    decreases l.len(),
{
    if l.len() == 0 {
        Seq::empty()
    } else {
        data_lines(l.drop_last()) + "data: "@ + drop_cr(l.last()) + seq!['\n']
    }
}

/// A one-line field, if it is there.
pub open spec fn field_line(label: Seq<char>, value: Option<Seq<char>>) -> Seq<char> {
    match value {
        Some(v) => label + flat(v) + seq!['\n'],
        None => Seq::empty(),
    }
}

/// An event as it goes over the wire: the optional fields, a `data:` line for each line of the
/// payload, and the empty line that ends it.
pub open spec fn encoded(e: EventText) -> Seq<char> {
    field_line("event: "@, e.event) + field_line("id: "@, e.id) + data_lines(split(e.data, '\n'))
        + seq!['\n']
}

fn push_flat(out: &mut String, s: &str)
    ensures
        final(out)@ == old(out)@ + flat(s@),
{
    let ghost start = out@;
    assert(start + flat(s@.take(0)) =~= start);
    for c in it: s.chars()
        invariant
            it.seq() == s@,
            out@ == start + flat(s@.take(it.index() as int)),
    {
        proof {
            let k = it.index() as int;
            assert(s@.take(k + 1) =~= s@.take(k).push(c));
            assert(flat(s@.take(k + 1)) =~= flat(s@.take(k)).push(flat_char(c)));
        }
        if c == '\n' || c == '\r' {
            out.push(' ');
        } else {
            out.push(c);
        }
    }
    assert(s@.take(s@.len() as int) =~= s@);
}

impl Event {
    /// An unnamed event.
    pub fn new(data: &str) -> (e: Event)
        ensures
            e@ == (EventText { event: None, data: data@, id: None }),
    {
        Event { event: None, data: data.to_owned(), id: None }
    }

    /// A named event.
    pub fn named(name: &str, data: &str) -> (e: Event)
        ensures
            e@ == (EventText { event: Some(name@), data: data@, id: None }),
    {
        Event { event: Some(name.to_owned()), data: data.to_owned(), id: None }
    }

    /// The event with its `id:` field set.
    pub fn with_id(self, id: &str) -> (e: Event)
        ensures
            e@ == (EventText { id: Some(id@), ..self@ }),
    {
        Event { event: self.event, data: self.data, id: Some(id.to_owned()) }
    }

    /// Render the event as it goes over the wire.
    pub fn encode(&self) -> (r: String)
        ensures
            r@ == encoded(self@),
    {
        let mut out = String::new();
        if let Some(name) = &self.event {
            out.append("event: ");
            push_flat(&mut out, name.as_str());
            out.push('\n');
        }
        assert(out@ =~= field_line("event: "@, self@.event));
        if let Some(id) = &self.id {
            out.append("id: ");
            push_flat(&mut out, id.as_str());
            out.push('\n');
        }
        assert(out@ =~= field_line("event: "@, self@.event) + field_line("id: "@, self@.id));
        let ghost head = out@;
        let all = pieces(&chars_of(self.data.as_str()), '\n');
        let ghost texts = rows(all@);
        let mut i: usize = 0;
        assert(texts.take(0) =~= Seq::<Seq<char>>::empty());
        assert(head + data_lines(texts.take(0)) =~= head);
        while i < all.len()
            invariant
                i <= all@.len(),
                texts == rows(all@),
                out@ == head + data_lines(texts.take(i as int)),
            decreases all@.len() - i,
        {
            proof {
                let now = texts.take(i + 1);
                assert(now.drop_last() =~= texts.take(i as int));
                assert(now.last() == all@[i as int]@);
            }
            out.append("data: ");
            let n: usize = all[i].len();
            let line = if n > 0 && all[i][n - 1] == '\r' {
                crate::text::part(&all[i], 0, n - 1)
            } else {
                crate::text::part(&all[i], 0, n)
            };
            assert(line@ =~= drop_cr(all@[i as int]@));
            push_chars(&mut out, &line);
            out.push('\n');
            assert(out@ =~= head + data_lines(texts.take(i + 1)));
            i = i + 1;
        }
        assert(texts.take(i as int) =~= texts);
        out.push('\n');
        assert(out@ =~= encoded(self@));
        out
    }
}

impl Default for Event {
    fn default() -> (e: Event)
        ensures
            e.event is None,
            e.data@ == Seq::<char>::empty(),
            e.id is None,
    {
        Event { event: None, data: String::new(), id: None }
    }
}

// ---- The hub ----

struct Subscriber {
    id: u64,
    queue: Vec<Vec<u8>>,
    open: bool,
}

/// A connected client: its id, the frames waiting for it, and whether it still listens.
#[verifier::ext_equal]
pub struct Client {
    pub id: nat,
    pub queue: Seq<Seq<u8>>,
    pub open: bool,
}

spec fn frames(v: Seq<Vec<u8>>) -> Seq<Seq<u8>> {
    v.map_values(|f: Vec<u8>| f@)
}

impl View for Subscriber {
    type V = Client;

    closed spec fn view(&self) -> Client {
        Client { id: self.id as nat, queue: frames(self.queue@), open: self.open }
    }
}

/// The set of connected clients.
pub struct EventHub {
    next_id: u64,
    subs: Vec<Subscriber>,
    closed: bool,
}

/// A hub as mathematical values.
#[verifier::ext_equal]
pub struct Hub {
    pub next_id: nat,
    pub clients: Seq<Client>,
    pub closed: bool,
}

/// Every client still listens.
pub open spec fn all_open(clients: Seq<Client>) -> bool {
    forall|i: int| 0 <= i < clients.len() ==> (#[trigger] clients[i]).open
}

/// No two clients have the same id.
pub open spec fn distinct(clients: Seq<Client>) -> bool {
    forall|i: int, j: int|
        0 <= i < j < clients.len() ==> (#[trigger] clients[i]).id != (#[trigger] clients[j]).id
}

/// Every client's id is below a bound.
pub open spec fn ids_below(clients: Seq<Client>, bound: nat) -> bool {
    forall|i: int| 0 <= i < clients.len() ==> (#[trigger] clients[i]).id < bound
}

impl Hub {
    /// No two clients have the same id, and every id was given out before the next one.
    pub open spec fn wf(&self) -> bool {
        distinct(self.clients) && ids_below(self.clients, self.next_id)
    }
}

spec fn client_views(v: Seq<Subscriber>) -> Seq<Client> {
    v.map_values(|s: Subscriber| s@)
}

impl View for EventHub {
    type V = Hub;

    closed spec fn view(&self) -> Hub {
        Hub {
            next_id: self.next_id as nat,
            clients: client_views(self.subs@),
            closed: self.closed,
        }
    }
}

/// The `presence` event for a number of clients.
pub open spec fn presence(count: nat) -> EventText {
    EventText {
        event: Some("presence"@),
        data: "{\"count\":"@ + dec(count) + "}"@,
        id: None,
    }
}

/// A client with one more frame waiting.
pub open spec fn delivered(c: Client, frame: Seq<u8>) -> Client {
    Client { queue: c.queue.push(frame), ..c }
}

/// Clients after a broadcast: those that still listen have the frame, the others are gone.
pub open spec fn fan_out(clients: Seq<Client>, frame: Seq<u8>) -> Seq<Client>
    decreases clients.len(),
{
    if clients.len() == 0 {
        clients
    } else if clients.last().open {
        fan_out(clients.drop_last(), frame).push(delivered(clients.last(), frame))
    } else {
        fan_out(clients.drop_last(), frame)
    }
}

/// Clients of whom each has one more frame waiting.
pub open spec fn all_delivered(clients: Seq<Client>, frame: Seq<u8>) -> Seq<Client> {
    clients.map_values(|c: Client| delivered(c, frame))
}

/// An event as it goes over the wire.
pub open spec fn frame_of(e: EventText) -> Seq<u8> {
    encode_utf8(encoded(e))
}

/// A hub after a broadcast.
pub open spec fn broadcasted(hub: Hub, e: EventText) -> Hub {
    Hub { clients: fan_out(hub.clients, encode_utf8(encoded(e))), ..hub }
}

/// The frames of events.
pub open spec fn event_frames(l: Seq<Event>) -> Seq<Seq<u8>> {
    l.map_values(|e: Event| encode_utf8(encoded(e@)))
}

/// A hub after a client connected, with the frames that only it receives first.
pub open spec fn subscribed(hub: Hub, backfill: Seq<Seq<u8>>) -> Hub {
    let joined = Hub {
        next_id: hub.next_id + 1,
        clients: hub.clients.push(Client { id: hub.next_id, queue: backfill, open: true }),
        ..hub
    };
    broadcasted(joined, presence(joined.clients.len()))
}

/// Clients without the one that has a given id.
pub open spec fn without(clients: Seq<Client>, id: nat) -> Seq<Client>
    decreases clients.len(),
{
    if clients.len() == 0 {
        clients
    } else if clients.last().id == id {
        without(clients.drop_last(), id)
    } else {
        without(clients.drop_last(), id).push(clients.last())
    }
}

/// A hub after a client disconnected.
pub open spec fn unregistered(hub: Hub, id: nat) -> Hub {
    let left = Hub { clients: without(hub.clients, id), ..hub };
    broadcasted(left, presence(left.clients.len()))
}

impl EventHub {
    /// A hub without clients.
    pub fn new() -> (h: EventHub)
        ensures
            h@ == (Hub { next_id: 0, clients: Seq::empty(), closed: false }),
            h@.wf(),
    {
        let h = EventHub { next_id: 0, subs: Vec::new(), closed: false };
        assert(client_views(h.subs@) =~= Seq::<Client>::empty());
        h
    }

    /// Connect a client. Every client, the new one as well, is told how many there are.
    pub fn subscribe(&mut self) -> (r: SseReader)
        requires
            old(self)@.wf(),
            old(self)@.next_id < u64::MAX,
        ensures
            final(self)@.wf(),
            final(self)@ == subscribed(old(self)@, Seq::empty()),
            r.wf(),
            r.id() == old(self)@.next_id,
            r.pending() == preamble(),
            joined_last(old(self)@, final(self)@, r.id(), Seq::empty()),
    {
        let none: Vec<Event> = Vec::new();
        assert(event_frames(none@) =~= Seq::<Seq<u8>>::empty());
        self.subscribe_with_backfill(&none)
    }

    /// Connect a client that receives some events before any live ones.
    pub fn subscribe_with_backfill(&mut self, initial: &[Event]) -> (r: SseReader)
        requires
            old(self)@.wf(),
            old(self)@.next_id < u64::MAX,
        ensures
            final(self)@.wf(),
            final(self)@ == subscribed(old(self)@, event_frames(initial@)),
            r.wf(),
            r.id() == old(self)@.next_id,
            r.pending() == preamble(),
            joined_last(old(self)@, final(self)@, r.id(), event_frames(initial@)),
    {
        let mut queue: Vec<Vec<u8>> = Vec::new();
        let mut i: usize = 0;
        while i < initial.len()
            invariant
                i <= initial@.len(),
                queue@.len() == i,
                forall|j: int|
                    0 <= j < i ==> (#[trigger] queue@[j])@ == encode_utf8(encoded(initial@[j]@)),
            decreases initial@.len() - i,
        {
            let text = initial[i].encode();
            queue.push(text.as_str().as_bytes_vec());
            i = i + 1;
        }
        assert(frames(queue@) =~= event_frames(initial@));
        let id: u64 = self.next_id;
        let ghost before = self.subs@;
        let sub = Subscriber { id, queue, open: true };
        self.next_id = self.next_id + 1;
        self.subs.push(sub);
        assert(client_views(self.subs@) =~= client_views(before).push(sub@));
        let count: usize = self.subs.len();
        self.broadcast_presence(count);
        proof {
            let backfill = event_frames(initial@);
            lemma_subscribed_wf(old(self)@, backfill);
            if all_open(old(self)@.clients) {
                connecting_adds_one(old(self)@, backfill);
            }
        }
        SseReader::new(id)
    }

    /// Send an event to every client. Clients that no longer listen are dropped in passing.
    pub fn broadcast(&mut self, event: &Event)
        requires
            old(self)@.wf(),
        ensures
            final(self)@.wf(),
            final(self)@ == broadcasted(old(self)@, event@),
            all_open(old(self)@.clients) ==> final(self)@.clients == all_delivered(
                old(self)@.clients,
                frame_of(event@),
            ),
    {
        self.send(event);
        proof {
            lemma_broadcasted_wf(old(self)@, event@);
            if all_open(old(self)@.clients) {
                lemma_all_delivered(old(self)@.clients, frame_of(event@));
            }
        }
    }

    fn send(&mut self, event: &Event)
        ensures
            final(self)@ == broadcasted(old(self)@, event@),
    {
        let text = event.encode();
        let bytes = text.as_str().as_bytes_vec();
        self.send_bytes(&bytes);
    }

    /// Whether there is an id left for another client.
    pub fn has_id(&self) -> (r: bool)
        ensures
            r == (self@.next_id < u64::MAX),
    {
        self.next_id < u64::MAX
    }

    /// Number of connected clients.
    pub fn client_count(&self) -> (n: usize)
        ensures
            n == self@.clients.len(),
    {
        self.subs.len()
    }

    fn send_bytes(&mut self, bytes: &[u8])
        ensures
            final(self)@ == (Hub { clients: fan_out(old(self)@.clients, bytes@), ..old(self)@ }),
    {
        let ghost before = self@.clients;
        let mut i: usize = 0;
        let ghost mut seen: int = 0;
        assert(before.take(0) =~= Seq::<Client>::empty());
        assert(self@.clients =~= fan_out(before.take(0), bytes@) + before.skip(0));
        while i < self.subs.len()
            invariant
                0 <= seen <= before.len(),
                i == fan_out(before.take(seen), bytes@).len(),
                self@.clients == fan_out(before.take(seen), bytes@) + before.skip(seen),
                self.next_id == old(self).next_id,
                self.closed == old(self).closed,
            decreases before.len() - seen,
        {
            let ghost list = self@.clients;
            let ghost done = fan_out(before.take(seen), bytes@);
            proof {
                assert(list[i as int] == before[seen]);
                assert(list[i as int] == self.subs@[i as int]@);
                assert(before.take(seen + 1).drop_last() =~= before.take(seen));
                assert(before.take(seen + 1).last() == before[seen]);
            }
            if self.subs[i].open {
                let frame = bytes_part(bytes, 0, bytes.len());
                assert(frame@ =~= bytes@);
                let ghost queue = self.subs@[i as int].queue@;
                let ghost subs = self.subs@;
                self.subs[i].queue.push(frame);
                proof {
                    assert(frames(self.subs@[i as int].queue@) =~= frames(queue).push(bytes@));
                    assert(self.subs@[i as int]@ =~= delivered(before[seen], bytes@));
                    assert(self@.clients =~= list.update(
                        i as int,
                        delivered(before[seen], bytes@),
                    ));
                    assert(self@.clients =~= done.push(delivered(before[seen], bytes@))
                        + before.skip(seen + 1));
                }
                i = i + 1;
            } else {
                self.subs.remove(i);
                assert(self@.clients =~= list.remove(i as int));
                assert(self@.clients =~= done + before.skip(seen + 1));
            }
            proof {
                seen = seen + 1;
            }
        }
        assert(before.take(seen) =~= before);
        assert(self@.clients =~= fan_out(before, bytes@));
    }

    /// Disconnect a client and tell the others how many are left.
    pub fn unregister(&mut self, id: u64)
        requires
            old(self)@.wf(),
        ensures
            final(self)@.wf(),
            final(self)@ == unregistered(old(self)@, id as nat),
            all_open(old(self)@.clients) ==> forall|k: int|
                0 <= k < old(self)@.clients.len() && (#[trigger] old(self)@.clients[k]).id == id
                    ==> final(self)@.clients == all_delivered(
                    old(self)@.clients.remove(k),
                    frame_of(presence((old(self)@.clients.len() - 1) as nat)),
                ),
    {
        let ghost before = self@.clients;
        let mut i: usize = 0;
        let ghost mut seen: int = 0;
        assert(before.take(0) =~= Seq::<Client>::empty());
        assert(self@.clients =~= without(before.take(0), id as nat) + before.skip(0));
        while i < self.subs.len()
            invariant
                0 <= seen <= before.len(),
                i == without(before.take(seen), id as nat).len(),
                self@.clients == without(before.take(seen), id as nat) + before.skip(seen),
                self.next_id == old(self).next_id,
                self.closed == old(self).closed,
            decreases before.len() - seen,
        {
            let ghost list = self@.clients;
            let ghost done = without(before.take(seen), id as nat);
            proof {
                assert(list[i as int] == before[seen]);
                assert(list[i as int] == self.subs@[i as int]@);
                assert(before.take(seen + 1).drop_last() =~= before.take(seen));
                assert(before.take(seen + 1).last() == before[seen]);
            }
            if self.subs[i].id == id {
                self.subs.remove(i);
                assert(self@.clients =~= list.remove(i as int));
                assert(self@.clients =~= done + before.skip(seen + 1));
            } else {
                assert(self@.clients =~= done.push(before[seen]) + before.skip(seen + 1));
                i = i + 1;
            }
            proof {
                seen = seen + 1;
            }
        }
        assert(before.take(seen) =~= before);
        assert(self@.clients =~= without(before, id as nat));
        let count: usize = self.subs.len();
        self.broadcast_presence(count);
        proof {
            lemma_unregistered_wf(old(self)@, id as nat);
            if all_open(before) {
                assert forall|k: int|
                    0 <= k < before.len() && (#[trigger] before[k]).id == id implies self@.clients
                    == all_delivered(
                    before.remove(k),
                    frame_of(presence((before.len() - 1) as nat)),
                ) by {
                    disconnecting_removes_one(old(self)@, k);
                }
            }
        }
    }

    /// A client has stopped listening; the next broadcast drops it.
    pub fn hang_up(&mut self, id: u64)
        requires
            old(self)@.wf(),
        ensures
            final(self)@.wf(),
            final(self)@ == (Hub {
                clients: old(self)@.clients.map_values(
                    |c: Client|
                        if c.id == id {
                            Client { open: false, ..c }
                        } else {
                            c
                        },
                ),
                ..old(self)@
            }),
    {
        let ghost before = self@.clients;
        let mut i: usize = 0;
        while i < self.subs.len()
            invariant
                i <= self.subs@.len(),
                self.subs@.len() == before.len(),
                self.next_id == old(self).next_id,
                self.closed == old(self).closed,
                forall|j: int|
                    0 <= j < i ==> (#[trigger] self.subs@[j])@ == (if before[j].id == id {
                        Client { open: false, ..before[j] }
                    } else {
                        before[j]
                    }),
                forall|j: int| i <= j < before.len() ==> (#[trigger] self.subs@[j])@ == before[j],
            decreases self.subs@.len() - i,
        {
            assert(self.subs@[i as int]@ == before[i as int]);
            if self.subs[i].id == id {
                self.subs[i].open = false;
            }
            i = i + 1;
        }
        assert(self@.clients =~= before.map_values(
            |c: Client|
                if c.id == id {
                    Client { open: false, ..c }
                } else {
                    c
                },
        ));
        proof {
            lemma_same_ids(before, self@.clients, self@.next_id);
        }
    }

    /// Shut the hub: once its queue is empty, a client's stream ends.
    pub fn close(&mut self)
        requires
            old(self)@.wf(),
        ensures
            final(self)@.wf(),
            final(self)@ == (Hub { closed: true, ..old(self)@ }),
    {
        self.closed = true;
    }

    fn broadcast_presence(&mut self, count: usize)
        ensures
            final(self)@ == broadcasted(old(self)@, presence(count as nat)),
    {
        let mut data = String::new();
        data.append("{\"count\":");
        push_dec(&mut data, count as u64);
        data.append("}");
        assert(data@ =~= presence(count as nat).data);
        self.send(&Event::named("presence", data.as_str()));
    }

    /// The first client with a given id, or the number of clients.
    fn index_of(&self, id: u64) -> (i: usize)
        ensures
            i == slot(self@.clients, id as nat),
            i <= self.subs@.len(),
            i < self.subs@.len() ==> self.subs@[i as int].id == id,
    {
        let mut i: usize = 0;
        assert(self@.clients.skip(0) =~= self@.clients);
        while i < self.subs.len()
            invariant
                i <= self.subs@.len(),
                slot(self@.clients, id as nat) == i + slot(self@.clients.skip(i as int), id as nat),
            decreases self.subs@.len() - i,
        {
            assert(self@.clients.skip(i as int)[0] == self.subs@[i as int]@);
            assert(self@.clients.skip(i as int).skip(1) =~= self@.clients.skip(i + 1));
            if self.subs[i].id == id {
                return i;
            }
            i = i + 1;
        }
        i
    }
}

impl Default for EventHub {
    fn default() -> (h: EventHub)
        ensures
            h@ == (Hub { next_id: 0, clients: Seq::empty(), closed: false }),
            h@.wf(),
    {
        EventHub::new()
    }
}

/// The position of the first client with a given id, or the number of clients.
pub open spec fn slot(clients: Seq<Client>, id: nat) -> int
    decreases clients.len(),
{
    if clients.len() == 0 || clients[0].id == id {
        0
    } else {
        1 + slot(clients.skip(1), id)
    }
}

/// The frames waiting for a client; none for one that is not registered.
pub open spec fn waiting(hub: Hub, id: nat) -> Seq<Seq<u8>> {
    let i = slot(hub.clients, id);
    if 0 <= i < hub.clients.len() {
        hub.clients[i].queue
    } else {
        Seq::empty()
    }
}

/// Whether a client's stream ends once nothing is waiting.
pub open spec fn is_over(hub: Hub, id: nat) -> bool {
    hub.closed || slot(hub.clients, id) >= hub.clients.len()
}

/// A hub after a client took its first waiting frame.
pub open spec fn taken(hub: Hub, id: nat) -> Hub {
    let i = slot(hub.clients, id);
    Hub {
        clients: hub.clients.update(
            i,
            Client { queue: hub.clients[i].queue.skip(1), ..hub.clients[i] },
        ),
        ..hub
    }
}

// ---- The stream of one client ----

/// How long a client's stream waits for a frame before it sends a heartbeat, in seconds.
pub const HEARTBEAT_SECS: u64 = 15;

/// What every stream starts with: a reconnect delay, and a comment that confirms it is open.
pub open spec fn preamble() -> Seq<u8> {
    encode_utf8("retry: 3000\n: connected\n\n"@)
}

/// The heartbeat comment of an idle stream.
pub open spec fn ping() -> Seq<u8> {
    encode_utf8(": ping\n\n"@)
}

/// The body of an event stream: hands out the frames of one client.
pub struct SseReader {
    id: u64,
    buf: Vec<u8>,
    pos: usize,
}

/// The outcome of a read.
pub enum SseRead {
    /// Bytes to send.
    Bytes(Vec<u8>),
    /// Nothing is waiting: wait for a frame, or for the heartbeat.
    Wait,
    /// The stream has ended.
    Eof,
}

/// The same, as mathematical values.
pub ghost enum Handed {
    Bytes(Seq<u8>),
    Wait,
    Eof,
}

impl View for SseRead {
    type V = Handed;

    open spec fn view(&self) -> Handed {
        match *self {
            SseRead::Bytes(b) => Handed::Bytes(b@),
            SseRead::Wait => Handed::Wait,
            SseRead::Eof => Handed::Eof,
        }
    }
}

/// What is under way to a client: what was not handed out yet of the current frame, and the frames
/// behind it.
#[verifier::ext_equal]
pub struct Flow {
    pub pending: Seq<u8>,
    pub queue: Seq<Seq<u8>>,
}

/// The outcome of a read of up to `max` bytes. The current frame comes first, then the next one.
/// Where there is none, the stream ends if it is over, and else a heartbeat is sent if it is time.
pub open spec fn read_of(f: Flow, over: bool, max: nat, idle: bool) -> (Flow, Handed) {
    if f.pending.len() > 0 {
        let b = chunk(f.pending, max);
        (Flow { pending: f.pending.skip(b.len() as int), ..f }, Handed::Bytes(b))
    } else if f.queue.len() > 0 {
        let b = chunk(f.queue[0], max);
        (
            Flow { pending: f.queue[0].skip(b.len() as int), queue: f.queue.skip(1) },
            Handed::Bytes(b),
        )
    } else if over {
        (f, Handed::Eof)
    } else if idle {
        let b = chunk(ping(), max);
        (Flow { pending: ping().skip(b.len() as int), ..f }, Handed::Bytes(b))
    } else {
        (f, Handed::Wait)
    }
}

/// The first `max` bytes, or all.
pub open spec fn chunk(b: Seq<u8>, max: nat) -> Seq<u8> {
    if b.len() <= max {
        b
    } else {
        b.take(max as int)
    }
}

impl SseReader {
    /// The client's id.
    pub closed spec fn id(&self) -> nat {
        self.id as nat
    }

    /// The bytes of the current frame that were not handed out yet.
    pub closed spec fn pending(&self) -> Seq<u8> {
        self.buf@.skip(self.pos as int)
    }

    /// The position is inside the frame.
    pub closed spec fn wf(&self) -> bool {
        self.pos <= self.buf@.len()
    }

    fn new(id: u64) -> (r: SseReader)
        ensures
            r.wf(),
            r.id() == id,
            r.pending() == preamble(),
    {
        let buf = "retry: 3000\n: connected\n\n".as_bytes_vec();
        assert(buf@.skip(0) =~= buf@);
        SseReader { id, buf, pos: 0 }
    }

    /// The client's id.
    pub fn client_id(&self) -> (n: u64)
        ensures
            n == self.id(),
    {
        self.id
    }

    fn give(&mut self, max: usize) -> (b: Vec<u8>)
        requires
            old(self).wf(),
        ensures
            final(self).wf(),
            final(self).id() == old(self).id(),
            b@ == chunk(old(self).pending(), max as nat),
            final(self).pending() == old(self).pending().skip(b@.len() as int),
    {
        let left: usize = self.buf.len() - self.pos;
        let n: usize = if left < max {
            left
        } else {
            max
        };
        let b = bytes_part(&self.buf, self.pos, self.pos + n);
        assert(b@ =~= chunk(self.pending(), max as nat));
        let ghost before = self.pending();
        self.pos = self.pos + n;
        assert(self.pending() =~= before.skip(n as int));
        b
    }

    /// Hand out up to `max` bytes of the stream. `idle` says that the time for a heartbeat has
    /// come.
    pub fn read(&mut self, hub: &mut EventHub, max: usize, idle: bool) -> (r: SseRead)
        requires
            old(self).wf(),
            old(hub)@.wf(),
        ensures
            final(self).wf(),
            final(hub)@.wf(),
            final(self).id() == old(self).id(),
            ({
                let now = Flow {
                    pending: old(self).pending(),
                    queue: waiting(old(hub)@, old(self).id()),
                };
                let (next, handed) = read_of(
                    now,
                    is_over(old(hub)@, old(self).id()),
                    max as nat,
                    idle,
                );
                &&& r@ == handed
                &&& final(self).pending() == next.pending
                &&& waiting(final(hub)@, old(self).id()) == next.queue
                &&& final(hub)@ == (if now.pending.len() == 0 && now.queue.len() > 0 {
                    taken(old(hub)@, old(self).id())
                } else {
                    old(hub)@
                })
            }),
            r matches SseRead::Bytes(b) ==> b@.len() <= max,
    {
        if self.pos < self.buf.len() {
            let b = self.give(max);
            return SseRead::Bytes(b);
        }
        assert(self.pending().len() == 0);
        let i: usize = hub.index_of(self.id);
        if i < hub.subs.len() && hub.subs[i].queue.len() > 0 {
            let ghost before = hub@.clients;
            let ghost queue = hub.subs@[i as int].queue@;
            assert(before[i as int] == hub.subs@[i as int]@);
            let frame = hub.subs[i].queue.remove(0);
            proof {
                assert(frames(hub.subs@[i as int].queue@) =~= frames(queue).skip(1));
                assert(hub@.clients =~= before.update(
                    i as int,
                    Client { queue: before[i as int].queue.skip(1), ..before[i as int] },
                ));
                assert(frame@ == frames(queue)[0]);
                assert(frame@.skip(0) =~= frame@);
            }
            self.buf = frame;
            self.pos = 0;
            let b = self.give(max);
            proof {
                lemma_same_ids(before, hub@.clients, hub@.next_id);
                lemma_slot(hub@.clients, i as int);
            }
            return SseRead::Bytes(b);
        }
        proof {
            if i < hub.subs@.len() {
                assert(hub@.clients[i as int] == hub.subs@[i as int]@);
            }
        }
        if hub.closed || i == hub.subs.len() {
            return SseRead::Eof;
        }
        if idle {
            let buf = ": ping\n\n".as_bytes_vec();
            assert(buf@.skip(0) =~= buf@);
            self.buf = buf;
            self.pos = 0;
            let b = self.give(max);
            return SseRead::Bytes(b);
        }
        SseRead::Wait
    }
}

// ---- Laws ----

/// How a hub changes when a client joins while every other one listens: the new client has the
/// backfill waiting and behind it the new count, and each of the others just the new count.
pub open spec fn joined_last(before: Hub, after: Hub, id: nat, backfill: Seq<Seq<u8>>) -> bool {
    let n = before.clients.len();
    let news = frame_of(presence(n + 1));
    all_open(before.clients) ==> {
        &&& after.clients.len() == n + 1
        &&& all_open(after.clients)
        &&& after.clients[n as int] == Client { id, queue: backfill.push(news), open: true }
        &&& waiting(after, id) == backfill.push(news)
        &&& forall|i: int|
            0 <= i < n ==> (#[trigger] after.clients[i]) == delivered(before.clients[i], news)
    }
}

proof fn lemma_all_delivered(clients: Seq<Client>, frame: Seq<u8>)
    requires
        all_open(clients),
    ensures
        fan_out(clients, frame) == all_delivered(clients, frame),
    decreases clients.len(),
{
    if clients.len() > 0 {
        let rest = clients.drop_last();
        assert forall|i: int| 0 <= i < rest.len() implies (#[trigger] rest[i]).open by {
            assert(rest[i] == clients[i]);
        }
        lemma_all_delivered(rest, frame);
        assert(clients[clients.len() - 1].open);
    }
    assert(fan_out(clients, frame) =~= all_delivered(clients, frame));
}

/// In a well-formed list, a client is found at its place.
proof fn lemma_slot(clients: Seq<Client>, k: int)
    requires
        distinct(clients),
        0 <= k < clients.len(),
    ensures
        slot(clients, clients[k].id) == k,
    decreases clients.len(),
{
    if k > 0 {
        let rest = clients.skip(1);
        assert forall|i: int, j: int| 0 <= i < j < rest.len() implies (#[trigger] rest[i]).id != (
        #[trigger] rest[j]).id by {
            assert(rest[i] == clients[i + 1] && rest[j] == clients[j + 1]);
        }
        lemma_slot(rest, k - 1);
        assert(rest[k - 1] == clients[k]);
        assert(clients[0].id != clients[k].id);
    }
}

proof fn lemma_same_ids(a: Seq<Client>, b: Seq<Client>, bound: nat)
    requires
        distinct(a),
        ids_below(a, bound),
        a.len() == b.len(),
        forall|i: int| 0 <= i < a.len() ==> (#[trigger] a[i]).id == b[i].id,
    ensures
        distinct(b),
        ids_below(b, bound),
{
    assert forall|i: int, j: int| 0 <= i < j < b.len() implies (#[trigger] b[i]).id != (
    #[trigger] b[j]).id by {
        assert(a[i].id != a[j].id);
    }
    assert forall|i: int| 0 <= i < b.len() implies (#[trigger] b[i]).id < bound by {
        assert(a[i].id < bound);
    }
}

/// Every client after a broadcast was there before, and had the frame delivered.
proof fn lemma_fan_out_from(clients: Seq<Client>, frame: Seq<u8>, i: int) -> (k: int)
    requires
        0 <= i < fan_out(clients, frame).len(),
    ensures
        0 <= k < clients.len(),
        clients[k].open,
        fan_out(clients, frame)[i] == delivered(clients[k], frame),
    decreases clients.len(),
{
    let rest = fan_out(clients.drop_last(), frame);
    if i < rest.len() {
        lemma_fan_out_from(clients.drop_last(), frame, i)
    } else {
        clients.len() - 1
    }
}

/// Every client that listens has the frame delivered.
proof fn lemma_fan_out_to(clients: Seq<Client>, frame: Seq<u8>, k: int) -> (i: int)
    requires
        0 <= k < clients.len(),
        clients[k].open,
    ensures
        0 <= i < fan_out(clients, frame).len(),
        fan_out(clients, frame)[i] == delivered(clients[k], frame),
    decreases clients.len(),
{
    let rest = fan_out(clients.drop_last(), frame);
    if k == clients.len() - 1 {
        rest.len() as int
    } else {
        lemma_fan_out_to(clients.drop_last(), frame, k)
    }
}

proof fn lemma_fan_out_wf(clients: Seq<Client>, frame: Seq<u8>, bound: nat)
    requires
        distinct(clients),
        ids_below(clients, bound),
    ensures
        distinct(fan_out(clients, frame)),
        ids_below(fan_out(clients, frame), bound),
    decreases clients.len(),
{
    if clients.len() > 0 {
        let rest = clients.drop_last();
        let out = fan_out(rest, frame);
        lemma_same_ids(clients.take(rest.len() as int), rest, bound);
        lemma_fan_out_wf(rest, frame, bound);
        assert(clients[clients.len() - 1].id < bound);
        assert forall|i: int| 0 <= i < out.len() implies (#[trigger] out[i]).id
            != clients.last().id by {
            let k = lemma_fan_out_from(rest, frame, i);
            assert(clients[k].id != clients[clients.len() - 1].id);
        }
        assert forall|i: int, j: int| 0 <= i < j < fan_out(clients, frame).len() implies (
        #[trigger] fan_out(clients, frame)[i]).id != (#[trigger] fan_out(clients, frame)[j]).id by {
            if j < out.len() {
                assert(out[i].id != out[j].id);
            } else {
                assert(out[i].id != clients.last().id);
            }
        }
        assert forall|i: int| 0 <= i < fan_out(clients, frame).len() implies (#[trigger] fan_out(
            clients,
            frame,
        )[i]).id < bound by {
            if i < out.len() {
                assert(out[i].id < bound);
            }
        }
    }
}

proof fn lemma_broadcasted_wf(hub: Hub, e: EventText)
    requires
        hub.wf(),
    ensures
        broadcasted(hub, e).wf(),
{
    lemma_fan_out_wf(hub.clients, frame_of(e), hub.next_id);
}

proof fn lemma_subscribed_wf(hub: Hub, backfill: Seq<Seq<u8>>)
    requires
        hub.wf(),
    ensures
        subscribed(hub, backfill).wf(),
{
    let c = Client { id: hub.next_id, queue: backfill, open: true };
    let joined = Hub { next_id: hub.next_id + 1, clients: hub.clients.push(c), ..hub };
    assert forall|i: int, j: int| 0 <= i < j < joined.clients.len() implies (
    #[trigger] joined.clients[i]).id != (#[trigger] joined.clients[j]).id by {
        assert(joined.clients[i] == hub.clients[i]);
        assert(hub.clients[i].id < hub.next_id);
        if j < hub.clients.len() {
            assert(joined.clients[j] == hub.clients[j]);
        }
    }
    assert forall|i: int| 0 <= i < joined.clients.len() implies (#[trigger] joined.clients[i]).id
        < joined.next_id by {
        if i < hub.clients.len() {
            assert(hub.clients[i].id < hub.next_id);
        }
    }
    lemma_broadcasted_wf(joined, presence(joined.clients.len()));
}

proof fn lemma_unregistered_wf(hub: Hub, id: nat)
    requires
        hub.wf(),
    ensures
        unregistered(hub, id).wf(),
{
    let left = Hub { clients: without(hub.clients, id), ..hub };
    if exists|k: int| 0 <= k < hub.clients.len() && (#[trigger] hub.clients[k]).id == id {
        let k = choose|k: int| 0 <= k < hub.clients.len() && (#[trigger] hub.clients[k]).id == id;
        lemma_without_one(hub.clients, k);
        assert forall|i: int, j: int| 0 <= i < j < left.clients.len() implies (
        #[trigger] left.clients[i]).id != (#[trigger] left.clients[j]).id by {
            let (a, b) = (
                if i < k {
                    i
                } else {
                    i + 1
                },
                if j < k {
                    j
                } else {
                    j + 1
                },
            );
            assert(left.clients[i] == hub.clients[a] && left.clients[j] == hub.clients[b]);
        }
        assert forall|i: int| 0 <= i < left.clients.len() implies (#[trigger] left.clients[i]).id
            < left.next_id by {
            let a = if i < k {
                i
            } else {
                i + 1
            };
            assert(left.clients[i] == hub.clients[a]);
        }
    } else {
        lemma_without_absent(hub.clients, id);
    }
    lemma_broadcasted_wf(left, presence(left.clients.len()));
}

/// A broadcast puts the event, once, behind everything that waits for a client that listens,
/// whoever else has hung up. The client stays connected.
pub proof fn broadcast_queues_behind(hub: Hub, e: EventText, k: int)
    requires
        hub.wf(),
        0 <= k < hub.clients.len(),
        hub.clients[k].open,
    ensures
        ({
            let id = hub.clients[k].id;
            let after = broadcasted(hub, e);
            &&& after.wf()
            &&& waiting(after, id) == waiting(hub, id).push(frame_of(e))
            &&& is_over(after, id) == is_over(hub, id)
        }),
{
    let id = hub.clients[k].id;
    let after = broadcasted(hub, e);
    lemma_broadcasted_wf(hub, e);
    lemma_slot(hub.clients, k);
    let i = lemma_fan_out_to(hub.clients, frame_of(e), k);
    lemma_slot(after.clients, i);
}

/// A broadcast reaches every client, behind everything that was already waiting for it, and
/// changes nothing else: nobody is dropped, and one who connects later does not receive it.
pub proof fn broadcast_reaches_everyone(hub: Hub, e: EventText, backfill: Seq<Seq<u8>>)
    requires
        hub.wf(),
        all_open(hub.clients),
    ensures
        ({
            let n = hub.clients.len();
            let after = broadcasted(hub, e);
            let later = subscribed(after, backfill);
            &&& after.wf()
            &&& all_open(after.clients)
            &&& after.clients == all_delivered(hub.clients, frame_of(e))
            &&& after.clients.len() == n
            &&& waiting(later, after.next_id) == backfill.push(frame_of(presence(n + 1)))
        }),
{
    let after = broadcasted(hub, e);
    lemma_broadcasted_wf(hub, e);
    lemma_all_delivered(hub.clients, frame_of(e));
    assert forall|i: int| 0 <= i < after.clients.len() implies (#[trigger] after.clients[i]).open by {
        assert(hub.clients[i].open);
    }
    connecting_adds_one(after, backfill);
}

/// Connecting adds one client, tells everyone the new count, and puts the backfill before it.
pub proof fn connecting_adds_one(hub: Hub, backfill: Seq<Seq<u8>>)
    requires
        hub.wf(),
        all_open(hub.clients),
    ensures
        subscribed(hub, backfill).wf(),
        joined_last(hub, subscribed(hub, backfill), hub.next_id, backfill),
{
    let n = hub.clients.len();
    let news = frame_of(presence(n + 1));
    let joined = hub.clients.push(Client { id: hub.next_id, queue: backfill, open: true });
    let after = subscribed(hub, backfill);
    assert forall|i: int| 0 <= i < joined.len() implies (#[trigger] joined[i]).open by {
        if i < n {
            assert(hub.clients[i].open);
        }
    }
    lemma_all_delivered(joined, news);
    lemma_subscribed_wf(hub, backfill);
    assert forall|i: int| 0 <= i < after.clients.len() implies (#[trigger] after.clients[i]).open by {
        assert(joined[i].open);
    }
    lemma_slot(after.clients, n as int);
}

proof fn lemma_without_absent(clients: Seq<Client>, id: nat)
    requires
        forall|i: int| 0 <= i < clients.len() ==> (#[trigger] clients[i]).id != id,
    ensures
        without(clients, id) == clients,
    decreases clients.len(),
{
    if clients.len() > 0 {
        let rest = clients.drop_last();
        assert forall|i: int| 0 <= i < rest.len() implies (#[trigger] rest[i]).id != id by {
            assert(rest[i] == clients[i]);
        }
        lemma_without_absent(rest, id);
        assert(clients[clients.len() - 1].id != id);
        assert(rest.push(clients.last()) =~= clients);
    }
}

proof fn lemma_without_one(clients: Seq<Client>, k: int)
    requires
        distinct(clients),
        0 <= k < clients.len(),
    ensures
        without(clients, clients[k].id) == clients.remove(k),
    decreases clients.len(),
{
    let id = clients[k].id;
    let rest = clients.drop_last();
    assert forall|i: int, j: int| 0 <= i < j < rest.len() implies (#[trigger] rest[i]).id != (
    #[trigger] rest[j]).id by {
        assert(rest[i] == clients[i] && rest[j] == clients[j]);
    }
    if k == clients.len() - 1 {
        assert forall|i: int| 0 <= i < rest.len() implies (#[trigger] rest[i]).id != id by {
            assert(rest[i] == clients[i]);
            assert(clients[k].id == id);
        }
        lemma_without_absent(rest, id);
        assert(clients.remove(k) =~= rest);
    } else {
        lemma_without_one(rest, k);
        assert(rest[k] == clients[k]);
        assert(clients[clients.len() - 1].id != id);
        assert(rest.remove(k).push(clients.last()) =~= clients.remove(k));
    }
}

/// Disconnecting removes exactly that client and tells the others the new count, behind what waits
/// for them.
pub proof fn disconnecting_removes_one(hub: Hub, k: int)
    requires
        hub.wf(),
        all_open(hub.clients),
        0 <= k < hub.clients.len(),
    ensures
        ({
            let after = unregistered(hub, hub.clients[k].id);
            &&& after.wf()
            &&& after.clients == all_delivered(
                hub.clients.remove(k),
                frame_of(presence((hub.clients.len() - 1) as nat)),
            )
            &&& after.clients.len() == hub.clients.len() - 1
        }),
{
    lemma_unregistered_wf(hub, hub.clients[k].id);
    lemma_without_one(hub.clients, k);
    let left = hub.clients.remove(k);
    assert forall|i: int| 0 <= i < left.len() implies (#[trigger] left[i]).open by {
        if i < k {
            assert(hub.clients[i].open);
        } else {
            assert(hub.clients[i + 1].open);
        }
    }
    lemma_all_delivered(left, frame_of(presence(left.len())));
}

/// A client that no longer listens is dropped by the next broadcast.
pub proof fn broadcast_drops_the_departed(clients: Seq<Client>, frame: Seq<u8>, i: int)
    requires
        0 <= i < fan_out(clients, frame).len(),
    ensures
        fan_out(clients, frame)[i].open,
    decreases clients.len(),
{
    if clients.len() > 0 {
        let rest = fan_out(clients.drop_last(), frame);
        if i < rest.len() {
            broadcast_drops_the_departed(clients.drop_last(), frame, i);
        }
    }
}

/// Something that happens to a client's stream.
pub ghost enum Turn {
    /// Up to so many bytes are read; the flag says that the time for a heartbeat has come.
    Read(nat, bool),
    /// A frame is put behind those that wait.
    Arrive(Seq<u8>),
    /// The hub is closed.
    Close,
}

/// What a stream is made of.
pub ghost enum Block {
    Frame(Seq<u8>),
    Heartbeat,
}

/// A stream after some turns: what is under way, whether it is over, what was handed out, and the
/// blocks that were begun.
#[verifier::ext_equal]
pub struct Played {
    pub flow: Flow,
    pub over: bool,
    pub out: Seq<u8>,
    pub blocks: Seq<Block>,
}

/// The bytes that a read handed out.
pub open spec fn handed_bytes(h: Handed) -> Seq<u8> {
    match h {
        Handed::Bytes(b) => b,
        _ => Seq::empty(),
    }
}

/// The block that a read begins, if it begins one.
pub open spec fn begun_block(f: Flow, over: bool, idle: bool) -> Seq<Block> {
    if f.pending.len() > 0 {
        Seq::empty()
    } else if f.queue.len() > 0 {
        seq![Block::Frame(f.queue[0])]
    } else if !over && idle {
        seq![Block::Heartbeat]
    } else {
        Seq::empty()
    }
}

/// A stream after some turns, from what was under way at the start.
pub open spec fn played(start: Flow, turns: Seq<Turn>) -> Played
    decreases turns.len(),
{
    if turns.len() == 0 {
        Played {
            flow: start,
            over: false,
            out: Seq::empty(),
            blocks: seq![Block::Frame(start.pending)],
        }
    } else {
        let p = played(start, turns.drop_last());
        match turns.last() {
            Turn::Read(max, idle) => {
                let (flow, handed) = read_of(p.flow, p.over, max, idle);
                Played {
                    flow,
                    out: p.out + handed_bytes(handed),
                    blocks: p.blocks + begun_block(p.flow, p.over, idle),
                    ..p
                }
            },
            Turn::Arrive(frame) => Played {
                flow: Flow { queue: p.flow.queue.push(frame), ..p.flow },
                ..p
            },
            Turn::Close => Played { over: true, ..p },
        }
    }
}

/// The bytes of blocks, one after the other.
pub open spec fn block_bytes(l: Seq<Block>) -> Seq<u8>
    decreases l.len(),
{
    if l.len() == 0 {
        Seq::empty()
    } else {
        block_bytes(l.drop_last()) + (match l.last() {
            Block::Frame(f) => f,
            Block::Heartbeat => ping(),
        })
    }
}

/// The frames among blocks.
pub open spec fn block_frames(l: Seq<Block>) -> Seq<Seq<u8>>
    decreases l.len(),
{
    if l.len() == 0 {
        Seq::empty()
    } else {
        match l.last() {
            Block::Frame(f) => block_frames(l.drop_last()).push(f),
            Block::Heartbeat => block_frames(l.drop_last()),
        }
    }
}

/// The frames that arrive during some turns.
pub open spec fn arrivals(turns: Seq<Turn>) -> Seq<Seq<u8>>
    decreases turns.len(),
{
    if turns.len() == 0 {
        Seq::empty()
    } else {
        match turns.last() {
            Turn::Arrive(f) => arrivals(turns.drop_last()).push(f),
            _ => arrivals(turns.drop_last()),
        }
    }
}

/// All frames of a stream, in order: what is being handed out at the start, what waits behind it,
/// and what arrives.
pub open spec fn due(start: Flow, turns: Seq<Turn>) -> Seq<Seq<u8>> {
    seq![start.pending] + start.queue + arrivals(turns)
}

proof fn lemma_push_block(l: Seq<Block>, b: Block)
    ensures
        block_bytes(l + seq![b]) == block_bytes(l) + (match b {
            Block::Frame(f) => f,
            Block::Heartbeat => ping(),
        }),
        block_frames(l + seq![b]) == (match b {
            Block::Frame(f) => block_frames(l).push(f),
            Block::Heartbeat => block_frames(l),
        }),
{
    assert((l + seq![b]).drop_last() =~= l);
    assert((l + seq![b]).last() == b);
}

proof fn lemma_chunk(b: Seq<u8>, max: nat)
    ensures
        chunk(b, max) + b.skip(chunk(b, max).len() as int) == b,
{
    assert(chunk(b, max) + b.skip(chunk(b, max).len() as int) =~= b);
}

/// A client's stream loses, repeats and reorders nothing, whatever the sizes of the reads and
/// whatever happens between them: what was handed out and the rest of the current block are whole
/// blocks one after the other, so that a heartbeat stands between frames and never inside one; and
/// the frames among the blocks, with those that still wait, are all that were due, in order.
pub proof fn streams_are_whole_and_in_order(start: Flow, turns: Seq<Turn>)
    ensures
        ({
            let p = played(start, turns);
            &&& p.out + p.flow.pending == block_bytes(p.blocks)
            &&& block_frames(p.blocks) + p.flow.queue == due(start, turns)
        }),
    decreases turns.len(),
{
    let p = played(start, turns);
    if turns.len() == 0 {
        let none = Seq::<Block>::empty();
        let first = Block::Frame(start.pending);
        assert(none + seq![first] =~= seq![first]);
        lemma_push_block(none, first);
        assert(p.out + p.flow.pending =~= block_bytes(p.blocks));
        assert(block_frames(p.blocks) =~= seq![start.pending]);
        assert(block_frames(p.blocks) + p.flow.queue =~= due(start, turns));
    } else {
        let before = turns.drop_last();
        let q = played(start, before);
        streams_are_whole_and_in_order(start, before);
        match turns.last() {
            Turn::Read(max, idle) => {
                assert(due(start, turns) == due(start, before));
                if q.flow.pending.len() > 0 {
                    lemma_chunk(q.flow.pending, max);
                    assert(p.blocks =~= q.blocks);
                    assert(p.out + p.flow.pending =~= q.out + q.flow.pending);
                } else if q.flow.queue.len() > 0 {
                    let f = q.flow.queue[0];
                    lemma_chunk(f, max);
                    lemma_push_block(q.blocks, Block::Frame(f));
                    assert(q.out + q.flow.pending =~= q.out);
                    assert(p.out + p.flow.pending =~= q.out + f);
                    assert(block_frames(p.blocks) + p.flow.queue =~= block_frames(q.blocks)
                        + q.flow.queue);
                } else if !q.over && idle {
                    lemma_chunk(ping(), max);
                    lemma_push_block(q.blocks, Block::Heartbeat);
                    assert(q.out + q.flow.pending =~= q.out);
                    assert(p.out + p.flow.pending =~= q.out + ping());
                } else {
                    assert(p.blocks =~= q.blocks);
                    assert(p.out =~= q.out);
                }
            },
            Turn::Arrive(f) => {
                assert(block_frames(p.blocks) + p.flow.queue =~= (block_frames(q.blocks)
                    + q.flow.queue).push(f));
                assert(due(start, before).push(f) =~= due(start, turns));
            },
            Turn::Close => {
                assert(due(start, turns) == due(start, before));
            },
        }
    }
}

/// A stream ends only when it is closed and everything that was due has been handed out whole.
pub proof fn streams_end_drained(start: Flow, turns: Seq<Turn>, max: nat, idle: bool)
    requires
        ({
            let p = played(start, turns);
            read_of(p.flow, p.over, max, idle).1 is Eof
        }),
    ensures
        ({
            let p = played(start, turns);
            &&& p.over
            &&& p.out == block_bytes(p.blocks)
            &&& block_frames(p.blocks) == due(start, turns)
        }),
{
    let p = played(start, turns);
    streams_are_whole_and_in_order(start, turns);
    assert(p.out + p.flow.pending =~= p.out);
    assert(block_frames(p.blocks) + p.flow.queue =~= block_frames(p.blocks));
}

/// Whether no heartbeat falls due during some turns.
pub open spec fn never_idle(turns: Seq<Turn>) -> bool {
    forall|i: int| 0 <= i < turns.len() ==> !((#[trigger] turns[i]) matches Turn::Read(_, true))
}

/// Frames one after the other.
pub open spec fn frame_bytes(l: Seq<Seq<u8>>) -> Seq<u8>
    decreases l.len(),
{
    if l.len() == 0 {
        Seq::empty()
    } else {
        frame_bytes(l.drop_last()) + l.last()
    }
}

proof fn lemma_frames_alone(start: Flow, turns: Seq<Turn>)
    requires
        never_idle(turns),
    ensures
        ({
            let p = played(start, turns);
            block_bytes(p.blocks) == frame_bytes(block_frames(p.blocks))
        }),
    decreases turns.len(),
{
    let p = played(start, turns);
    if turns.len() == 0 {
        let none = Seq::<Block>::empty();
        let first = Block::Frame(start.pending);
        assert(none + seq![first] =~= seq![first]);
        lemma_push_block(none, first);
        lemma_push_frame(block_frames(none), start.pending);
        assert(frame_bytes(block_frames(none)) =~= block_bytes(none));
    } else {
        let before = turns.drop_last();
        let q = played(start, before);
        assert forall|i: int| 0 <= i < before.len() implies !((#[trigger] before[i]) matches Turn::Read(
            _,
            true,
        )) by {
            assert(before[i] == turns[i]);
        }
        lemma_frames_alone(start, before);
        assert(!(turns[turns.len() - 1] matches Turn::Read(_, true)));
        match turns.last() {
            Turn::Read(max, idle) => {
                if q.flow.pending.len() == 0 && q.flow.queue.len() > 0 {
                    lemma_push_block(q.blocks, Block::Frame(q.flow.queue[0]));
                    lemma_push_frame(block_frames(q.blocks), q.flow.queue[0]);
                } else {
                    assert(p.blocks =~= q.blocks);
                }
            },
            _ => {},
        }
    }
}

proof fn lemma_push_frame(l: Seq<Seq<u8>>, f: Seq<u8>)
    ensures
        frame_bytes(l.push(f)) == frame_bytes(l) + f,
{
    assert(l.push(f).drop_last() =~= l);
}

proof fn lemma_frames_append(a: Seq<Seq<u8>>, b: Seq<Seq<u8>>)
    ensures
        frame_bytes(a + b) == frame_bytes(a) + frame_bytes(b),
    decreases b.len(),
{
    if b.len() == 0 {
        assert(a + b =~= a);
        assert(frame_bytes(a) + frame_bytes(b) =~= frame_bytes(a));
    } else {
        lemma_frames_append(a, b.drop_last());
        assert((a + b).drop_last() =~= a + b.drop_last());
        assert(frame_bytes(a + b) =~= frame_bytes(a) + frame_bytes(b));
    }
}

/// Where no heartbeat falls due, what was handed out, the rest of the current frame and the frames
/// that wait are, joined, exactly the frames that were due: reads of any sizes give the same bytes.
pub proof fn reads_join_to_the_frames(start: Flow, turns: Seq<Turn>)
    requires
        never_idle(turns),
    ensures
        ({
            let p = played(start, turns);
            p.out + p.flow.pending + frame_bytes(p.flow.queue) == frame_bytes(due(start, turns))
        }),
{
    let p = played(start, turns);
    streams_are_whole_and_in_order(start, turns);
    lemma_frames_alone(start, turns);
    lemma_frames_append(block_frames(p.blocks), p.flow.queue);
}

/// A one-line field is its text with every line end as a space, and every other character as it is.
pub proof fn fields_stay_on_one_line(s: Seq<char>, i: int)
    requires
        0 <= i < s.len(),
    ensures
        flat(s).len() == s.len(),
        s[i] == '\n' || s[i] == '\r' ==> flat(s)[i] == ' ',
        s[i] != '\n' && s[i] != '\r' ==> flat(s)[i] == s[i],
{
}

/// The clients without one are all the others, in their order.
pub proof fn the_others_stay(clients: Seq<Client>, id: nat)
    ensures
        without(clients, id) == clients.filter(|c: Client| c.id != id),
    decreases clients.len(),
{
    reveal(Seq::filter);
    if clients.len() > 0 {
        the_others_stay(clients.drop_last(), id);
    }
}

/// The number of clients can be read back from the event that tells it.
pub proof fn presence_tells_the_count(n: nat)
    ensures
        presence(n).event == Some("presence"@),
        is_object(presence(n).data, seq![("count"@, Scalar::Number(n))]),
{
    reveal_strlit("count");
    reveal_strlit("{\"count\":");
    reveal_strlit("}");
    let one = seq![("count"@, Scalar::Number(n))];
    assert("{\"count\":"@ =~= seq!['{', '"'] + "count"@ + seq!['"', ':']);
    assert("}"@ =~= seq!['}']);
    lemma_first_member("count"@, one[0].1, "{\"count\":"@);
    lemma_is_object(one);
}

/// Taking a frame takes the first one that waits for the client, and touches no other client.
pub proof fn frames_are_taken_in_order(hub: Hub, k: int)
    requires
        hub.wf(),
        0 <= k < hub.clients.len(),
        hub.clients[k].queue.len() > 0,
    ensures
        ({
            let after = taken(hub, hub.clients[k].id);
            &&& after.clients.len() == hub.clients.len()
            &&& seq![hub.clients[k].queue[0]] + after.clients[k].queue == hub.clients[k].queue
            &&& after.clients[k].id == hub.clients[k].id && after.clients[k].open
                == hub.clients[k].open
            &&& forall|j: int|
                0 <= j < hub.clients.len() && j != k ==> #[trigger] after.clients[j]
                    == hub.clients[j]
            &&& after.closed == hub.closed && after.next_id == hub.next_id
        }),
{
    lemma_slot(hub.clients, k);
    let q = hub.clients[k].queue;
    assert(seq![q[0]] + q.skip(1) =~= q);
}

/// An event, and what a read hands out, are told whole.
pub proof fn events_are_told_whole(e: Event, r: SseRead)
    ensures
        e@.data == e.data@,
        e@.event is Some <==> e.event is Some,
        e@.event matches Some(n) ==> n == e.event->0@,
        e@.id is Some <==> e.id is Some,
        e@.id matches Some(n) ==> n == e.id->0@,
        r matches SseRead::Bytes(b) ==> r@ == Handed::Bytes(b@),
        r is Wait <==> r@ is Wait,
        r is Eof <==> r@ is Eof,
{
}

} // verus!
