//! Clipboard sync: addresses, requests, and the rules that keep clips from echoing.

use vstd::prelude::*;
use vstd::string::*;
use vstd::utf8::*;
use crate::clips::{clip_event, clip_numbers_are_read_back, Published};
use crate::display::own_address_text;
use crate::events::{flat, presence};
use crate::image_clip::{image_url, is_image};
use crate::num::{
    dec, dec_is_read_back, dec_value, is_digit, lemma_dec_round_trip, parse_dec, parse_i64,
    parse_signed, parse_uint, push_dec,
};
use crate::server_info::{share_query, url_text};
use crate::sse::{payloads_arrive_verbatim, seen_as, SseEvent, SseText};
use crate::text::{
    begins, chars_of, cut, drop_cr, find, find_text, is_space, join, join_strings, lead,
    lemma_find_text, lemma_first_at, lemma_lead, occurs_at, part, pieces, rows, same, split,
    split_once, starts_with, str_eq, string_of, trim, trim_start, trimmed, unlines,
};
use crate::url::opt_text;

verus! {

// ---- Addresses ----

/// Where a sync host is: its name, its port, and, over TLS, the fingerprint to pin.
pub struct Base {
    pub host: String,
    pub port: u16,
    pub tls_fp: Option<String>,
}

/// A scheme-less address.
pub open spec fn without_scheme(s: Seq<char>) -> Seq<char> {
    if begins(s, "http://"@) {
        s.skip("http://"@.len() as int)
    } else if begins(s, "https://"@) {
        s.skip("https://"@.len() as int)
    } else {
        s
    }
}

/// The part of a scheme-less address before its path and query.
pub open spec fn authority(s: Seq<char>) -> Seq<char> {
    s.take(lead(s, |c: char| c != '/' && c != '?'))
}

/// Position of the last `c` in `s`, or -1.
pub open spec fn last_at(s: Seq<char>, c: char) -> int
    decreases s.len(),
{
    if s.len() == 0 {
        -1
    } else if s.last() == c {
        s.len() - 1
    } else {
        last_at(s.drop_last(), c)
    }
}

/// The host and the port of an authority; the port is 8080 when there is none.
pub open spec fn host_port(a: Seq<char>, default: nat) -> Option<(Seq<char>, nat)> {
    let i = last_at(a, ':');
    if i < 0 {
        Some((a, default))
    } else {
        match parse_dec(a.skip(i + 1), u16::MAX as nat) {
            Some(p) => Some((a.take(i), p)),
            None => None,
        }
    }
}

/// What follows `fp=` in the first query piece that begins with it; empty when there is none.
pub open spec fn pinned(pieces: Seq<Seq<char>>) -> Seq<char>
    decreases pieces.len(),
{
    if pieces.len() == 0 {
        Seq::empty()
    } else if begins(pieces[0], "fp="@) {
        pieces[0].skip("fp="@.len() as int)
    } else {
        pinned(pieces.skip(1))
    }
}

/// The fingerprint that a scheme-less address carries.
pub open spec fn pin_of(s: Seq<char>) -> Seq<char> {
    match split_once(s, '?') {
        Some((_, q)) => pinned(split(q, '&')),
        None => Seq::empty(),
    }
}

/// Host, port and pinned fingerprint of an address. Only `https` selects TLS.
pub open spec fn base_of(url: Seq<char>) -> Option<(Seq<char>, nat, Option<Seq<char>>)> {
    let t = trim(url);
    let s = without_scheme(t);
    let a = authority(s);
    if a.len() == 0 {
        None
    } else {
        match host_port(a, 8080) {
            Some((h, p)) => Some(
                (
                    h,
                    p,
                    if begins(t, "https://"@) {
                        Some(pin_of(s))
                    } else {
                        None
                    },
                ),
            ),
            None => None,
        }
    }
}

pub proof fn lemma_last_at(s: Seq<char>, c: char, i: int)
    requires
        -1 <= i < s.len(),
        i >= 0 ==> s[i] == c,
        forall|j: int| i < j < s.len() ==> s[j] != c,
    ensures
        last_at(s, c) == i,
    decreases s.len(),
{
    if s.len() > 0 && i < s.len() - 1 {
        assert(s[s.len() - 1] != c);
        lemma_last_at(s.drop_last(), c, i);
    }
}

/// Split an authority into host and port.
pub(crate) fn split_host_port(a: &[char], default: u16) -> (r: Option<(String, u16)>)
    ensures
        match r {
            Some((h, p)) => host_port(a@, default as nat) == Some((h@, p as nat)),
            None => host_port(a@, default as nat) is None,
        },
{
    let mut i: usize = a.len();
    while i > 0 && a[i - 1] != ':'
        invariant
            i <= a@.len(),
            forall|j: int| i <= j < a@.len() ==> a@[j] != ':',
        decreases i,
    {
        i = i - 1;
    }
    proof {
        lemma_last_at(a@, ':', i - 1);
    }
    if i == 0 {
        return Some((string_of(a), default));
    }
    let p = part(a, i, a.len());
    assert(p@ =~= a@.skip(i as int));
    match parse_uint(&p, 65535) {
        Some(n) => {
            let h = part(a, 0, i - 1);
            assert(h@ =~= a@.take(i - 1));
            Some((string_of(&h), n as u16))
        },
        None => None,
    }
}

fn find_pin(s: &[char]) -> (r: String)
    ensures
        r@ == pin_of(s@),
{
    match cut(s, '?') {
        None => String::new(),
        Some((_, q)) => {
            let all = pieces(&q, '&');
            let fp = chars_of("fp=");
            let mut i: usize = 0;
            assert(rows(all@).skip(0) =~= rows(all@));
            while i < all.len()
                invariant
                    i <= all@.len(),
                    fp@ == "fp="@,
                    split_once(s@, '?') is Some,
                    rows(all@) == split((split_once(s@, '?')->0).1, '&'),
                    pinned(rows(all@)) == pinned(rows(all@).skip(i as int)),
                decreases all@.len() - i,
            {
                let ghost rest = rows(all@).skip(i as int);
                assert(rest[0] == all@[i as int]@);
                assert(rest.skip(1) =~= rows(all@).skip(i + 1));
                if starts_with(&all[i], &fp) {
                    let v = part(&all[i], fp.len(), all[i].len());
                    assert(v@ =~= all@[i as int]@.skip("fp="@.len() as int));
                    return string_of(&v);
                }
                i = i + 1;
            }
            String::new()
        },
    }
}

/// Parse the address of a sync host. Scheme, path and query are optional.
pub fn parse_base(url: &str) -> (r: Option<Base>)
    ensures
        match r {
            Some(b) => base_of(url@) == Some((b.host@, b.port as nat, opt_text(b.tls_fp))),
            None => base_of(url@) is None,
        },
{
    let t = trimmed(&chars_of(url));
    let http = chars_of("http://");
    let https = chars_of("https://");
    let secure: bool = starts_with(&t, &https);
    let s = if starts_with(&t, &http) {
        part(&t, http.len(), t.len())
    } else if secure {
        part(&t, https.len(), t.len())
    } else {
        part(&t, 0, t.len())
    };
    assert(s@ =~= without_scheme(t@));
    let mut n: usize = 0;
    while n < s.len() && s[n] != '/' && s[n] != '?'
        invariant
            n <= s@.len(),
            forall|j: int| 0 <= j < n ==> (#[trigger] s@[j]) != '/' && s@[j] != '?',
        decreases s@.len() - n,
    {
        n = n + 1;
    }
    proof {
        lemma_lead(s@, |c: char| c != '/' && c != '?', n as int);
    }
    let a = part(&s, 0, n);
    assert(a@ =~= authority(s@));
    if a.len() == 0 {
        return None;
    }
    match split_host_port(&a, 8080) {
        Some((host, port)) => {
            let tls_fp = if secure {
                Some(find_pin(&s))
            } else {
                None
            };
            Some(Base { host, port, tls_fp })
        },
        None => None,
    }
}

// ---- Requests ----

/// The request that opens the event stream.
pub open spec fn events_request_text(host: Seq<char>) -> Seq<char> {
    "GET /events HTTP/1.1\r\nHost: "@ + host
        + "\r\nAccept: text/event-stream\r\nConnection: keep-alive\r\n\r\n"@
}

/// The request that opens the event stream.
pub fn events_request(host: &str) -> (r: String)
    ensures
        r@ == events_request_text(host@),
{
    let mut r = String::new();
    r.append("GET /events HTTP/1.1\r\nHost: ");
    r.append(host);
    r.append("\r\nAccept: text/event-stream\r\nConnection: keep-alive\r\n\r\n");
    assert(r@ =~= events_request_text(host@));
    r
}

/// The head of the request that publishes a clip.
pub open spec fn clip_head(host: Seq<char>, len: nat) -> Seq<char> {
    "POST /clip HTTP/1.1\r\nHost: "@ + host
        + "\r\nContent-Type: text/plain; charset=utf-8\r\nContent-Length: "@ + dec(len)
        + "\r\nConnection: close\r\n\r\n"@
}

/// The request that publishes a clip: its head counts the bytes of the text behind it.
pub fn post_clip(host: &str, text: &str) -> (r: String)
    ensures
        r@ == clip_head(host@, encode_utf8(text@).len()) + text@,
{
    let mut r = String::new();
    r.append("POST /clip HTTP/1.1\r\nHost: ");
    r.append(host);
    r.append("\r\nContent-Type: text/plain; charset=utf-8\r\nContent-Length: ");
    let bytes = text.as_bytes();
    push_dec(&mut r, bytes.len() as u64);
    r.append("\r\nConnection: close\r\n\r\n");
    r.append(text);
    assert(r@ =~= clip_head(host@, encode_utf8(text@).len()) + text@);
    r
}

/// The number in a `{"count":N}` presence payload.
pub open spec fn count_of(s: Seq<char>) -> Option<nat> {
    match find_text(s, "\"count\":"@) {
        Some(i) => {
            let after = s.skip(i + "\"count\":"@.len());
            let digits = after.take(lead(after, |c: char| is_digit(c)));
            if digits.len() > 0 && dec_value(digits) <= usize::MAX {
                Some(dec_value(digits))
            } else {
                None
            }
        },
        None => None,
    }
}

/// Pull the number out of a `{"count":N}` presence payload.
pub fn parse_count(s: &str) -> (r: Option<usize>)
    ensures
        match r {
            Some(n) => count_of(s@) == Some(n as nat),
            None => count_of(s@) is None,
        },
{
    let t = chars_of(s);
    let mark = chars_of("\"count\":");
    match find(&t, &mark) {
        None => None,
        Some(i) => {
            let len: usize = t.len();
            let after = part(&t, i + mark.len(), len);
            assert(after@ =~= s@.skip(i + "\"count\":"@.len()));
            let mut n: usize = 0;
            while n < after.len() && '0' <= after[n] && after[n] <= '9'
                invariant
                    n <= after@.len(),
                    forall|j: int| 0 <= j < n ==> is_digit(#[trigger] after@[j]),
                decreases after@.len() - n,
            {
                n = n + 1;
            }
            proof {
                lemma_lead(after@, |c: char| is_digit(c), n as int);
            }
            let digits = part(&after, 0, n);
            assert(digits@ =~= after@.take(n as int));
            proof {
                assert forall|j: int| 0 <= j < digits@.len() implies is_digit(
                    #[trigger] digits@[j],
                ) by {
                    assert(digits@[j] == after@[j]);
                }
                if digits@.len() > 0 {
                    assert(is_digit(digits@[0]));
                }
            }
            match parse_uint(&digits, usize::MAX as u64) {
                Some(v) => Some(v as usize),
                None => None,
            }
        },
    }
}

// ---- State ----

/// How many clips the activity list holds at most.
pub const MAX_RECENT: usize = 20;

/// How long the sender keeps still after a received image was applied, in milliseconds.
pub const MUTE_MS: u64 = 900;

/// One entry of the activity list.
#[derive(Clone)]
pub struct ClipLine {
    pub text: String,
    pub incoming: bool,
}

/// The same, as text.
#[verifier::ext_equal]
pub struct Clip {
    pub text: Seq<char>,
    pub incoming: bool,
}

impl View for ClipLine {
    type V = Clip;

    open spec fn view(&self) -> Clip {
        Clip { text: self.text@, incoming: self.incoming }
    }
}

/// The views of the activity list.
pub open spec fn clips(v: Seq<ClipLine>) -> Seq<Clip> {
    v.map_values(|c: ClipLine| c@)
}

/// What a user interface shows of the sync engine.
pub struct SyncState {
    /// Whether the event stream is connected.
    pub connected: bool,
    /// Devices currently paired.
    pub presence: usize,
    /// Recent clips, newest last.
    pub recent: Vec<ClipLine>,
    /// The last error.
    pub error: Option<String>,
    pub sent: u64,
    pub received: u64,
}

/// The most recent clips of a list.
pub open spec fn latest(l: Seq<Clip>) -> Seq<Clip> {
    if l.len() > MAX_RECENT {
        l.skip(l.len() - MAX_RECENT)
    } else {
        l
    }
}

impl SyncState {
    /// Nothing has happened yet.
    pub fn new() -> (s: SyncState)
        ensures
            !s.connected,
            s.presence == 0,
            s.recent@.len() == 0,
            s.error is None,
            s.sent == 0,
            s.received == 0,
    {
        SyncState {
            connected: false,
            presence: 0,
            recent: Vec::new(),
            error: None,
            sent: 0,
            received: 0,
        }
    }

    /// Set or clear the last error.
    pub fn set_error(&mut self, msg: Option<String>)
        ensures
            *final(self) == (SyncState { error: msg, ..*old(self) }),
    {
        self.error = msg;
    }

    /// Set whether the event stream is connected.
    pub fn set_connected(&mut self, on: bool)
        ensures
            *final(self) == (SyncState { connected: on, ..*old(self) }),
    {
        self.connected = on;
    }

    /// Whether one more clip can be counted.
    pub fn can_record(&self) -> (r: bool)
        ensures
            r == (self.sent < u64::MAX && self.received < u64::MAX),
    {
        self.sent < u64::MAX && self.received < u64::MAX
    }

    /// Enter a clip into the activity list and count it.
    pub fn record(&mut self, text: &str, incoming: bool)
        requires
            incoming ==> old(self).received < u64::MAX,
            !incoming ==> old(self).sent < u64::MAX,
        ensures
            clips(final(self).recent@) == latest(
                clips(old(self).recent@).push(Clip { text: text@, incoming }),
            ),
            final(self).received == old(self).received + (if incoming {
                1int
            } else {
                0
            }),
            final(self).sent == old(self).sent + (if incoming {
                0int
            } else {
                1
            }),
            final(self).connected == old(self).connected,
            final(self).presence == old(self).presence,
            final(self).error == old(self).error,
    {
        let ghost before = clips(self.recent@);
        let line = ClipLine { text: text.to_owned(), incoming };
        self.recent.push(line);
        assert(clips(self.recent@) =~= before.push(Clip { text: text@, incoming }));
        let len: usize = self.recent.len();
        if len > MAX_RECENT {
            let tail = self.recent.split_off(len - MAX_RECENT);
            self.recent = tail;
        }
        assert(clips(self.recent@) =~= latest(before.push(Clip { text: text@, incoming })));
        if incoming {
            self.received = self.received + 1;
        } else {
            self.sent = self.sent + 1;
        }
    }
}

/// What the activity list shows of a clip: a placeholder for an image.
pub open spec fn label_of(content: Seq<char>) -> Seq<char> {
    if image_url(content) {
        "[image]"@
    } else {
        content
    }
}

/// What the activity list shows of a clip: a placeholder for an image.
pub fn label(content: &str) -> (r: String)
    ensures
        r@ == label_of(content@),
{
    if is_image(content) {
        "[image]".to_owned()
    } else {
        content.to_owned()
    }
}

// ---- The echo guard ----

/// What keeps clips from going round: the content that counts as synced, and the highest clip id
/// applied so far (-1 for none).
pub struct Guard {
    last: String,
    seen_id: i64,
}

/// The same, as mathematical values.
#[verifier::ext_equal]
pub struct GuardText {
    pub last: Seq<char>,
    pub seen_id: int,
}

impl View for Guard {
    type V = GuardText;

    closed spec fn view(&self) -> GuardText {
        GuardText { last: self.last@, seen_id: self.seen_id as int }
    }
}

/// The number that a clip's id is, if it is one.
pub open spec fn clip_id(e: SseText) -> Option<int> {
    match e.id {
        Some(s) => parse_signed(s),
        None => None,
    }
}

/// Whether an event is a clip that was applied before.
pub open spec fn is_replay(g: GuardText, e: SseText) -> bool {
    clip_id(e) matches Some(n) && n <= g.seen_id
}

/// The content of a clip event.
pub open spec fn content_of(e: SseText) -> Seq<char> {
    join(e.data, "\n"@)
}

/// The guard after a clip event, and the content to apply, if it is to be applied.
pub open spec fn received(g: GuardText, e: SseText) -> (GuardText, Option<Seq<char>>) {
    if is_replay(g, e) {
        (g, None)
    } else {
        let seen = GuardText {
            seen_id: match clip_id(e) {
                Some(n) => n,
                None => g.seen_id,
            },
            ..g
        };
        let text = content_of(e);
        if text.len() == 0 || g.last == text {
            (seen, None)
        } else {
            (GuardText { last: text, ..seen }, Some(text))
        }
    }
}

/// What an event asks of the engine.
pub enum Dispatch {
    /// Put this content on the clipboard.
    Apply(String),
    /// This many devices are paired.
    Presence(usize),
    /// Nothing.
    Ignore,
}

impl Guard {
    /// Nothing has been synced yet.
    pub fn new() -> (g: Guard)
        ensures
            g@ == (GuardText { last: Seq::empty(), seen_id: -1 }),
    {
        Guard { last: String::new(), seen_id: -1 }
    }

    /// Take some content as synced: what the clipboard held at the start, or an image in the form
    /// in which this device reads it back.
    pub fn settle(&mut self, content: String)
        ensures
            final(self)@ == (GuardText { last: content@, ..old(self)@ }),
    {
        self.last = content;
    }

    /// Take in an event. A clip is applied unless it was applied before, is empty, or is the
    /// content that counts as synced.
    pub fn dispatch(&mut self, e: SseEvent) -> (r: Dispatch)
        ensures
            if e@.event == Some("clip"@) {
                let (g, apply) = received(old(self)@, e@);
                &&& final(self)@ == g
                &&& match apply {
                    Some(t) => r matches Dispatch::Apply(s) && s@ == t,
                    None => r is Ignore,
                }
            } else if e@.event == Some("presence"@) {
                &&& final(self)@ == old(self)@
                &&& match count_of(join(e@.data, Seq::empty())) {
                    Some(n) => r matches Dispatch::Presence(m) && m == n,
                    None => r is Ignore,
                }
            } else {
                &&& final(self)@ == old(self)@
                &&& r is Ignore
            },
    {
        let name = match &e.event {
            Some(n) => n,
            None => {
                return Dispatch::Ignore;
            },
        };
        if str_eq(name.as_str(), "clip") {
            let id = match &e.id {
                Some(s) => parse_i64(&chars_of(s.as_str())),
                None => None,
            };
            if let Some(n) = id {
                if n <= self.seen_id {
                    return Dispatch::Ignore;
                }
                self.seen_id = n;
            }
            let text = join_strings(&e.data, "\n");
            if text.as_str().is_empty() || self.last == text {
                return Dispatch::Ignore;
            }
            self.last = text.clone();
            Dispatch::Apply(text)
        } else if str_eq(name.as_str(), "presence") {
            let none = String::new();
            assert(none@ =~= Seq::<char>::empty());
            match parse_count(join_strings(&e.data, none.as_str()).as_str()) {
                Some(n) => Dispatch::Presence(n),
                None => Dispatch::Ignore,
            }
        } else {
            Dispatch::Ignore
        }
    }

    /// Look at what the clipboard holds now. It is to be sent unless it counts as synced.
    pub fn offer(&mut self, content: &str) -> (send: bool)
        ensures
            send == (old(self)@.last != content@),
            final(self)@ == (GuardText { last: content@, ..old(self)@ }),
    {
        if str_eq(self.last.as_str(), content) {
            false
        } else {
            self.last = content.to_owned();
            true
        }
    }
}

/// The pause of the sender after a received image was applied, by a clock in milliseconds. The
/// clipboard may hand such an image back in another encoding, which is no new clip.
pub struct Mute {
    /// When the pause ends.
    pub until: u64,
}

impl Mute {
    /// No pause yet.
    pub fn new() -> (m: Mute)
        ensures
            m.until == 0,
    {
        Mute { until: 0 }
    }

    /// Pause from now on.
    pub fn start(&mut self, now: u64)
        requires
            now + MUTE_MS <= u64::MAX,
        ensures
            final(self).until == now + MUTE_MS,
    {
        self.until = now + MUTE_MS;
    }

    /// Whether the sender still pauses.
    pub fn holds(&self, now: u64) -> (r: bool)
        ensures
            r == (now < self.until),
    {
        now < self.until
    }
}

/// How a received clip goes onto the clipboard.
#[derive(Clone, Copy, Debug, PartialEq, Eq, Structural)]
pub enum Paste {
    /// As text.
    Text,
    /// As the image in its data URL; report to `image_applied`.
    Image,
}

/// Decide how a received clip goes onto the clipboard.
pub fn apply_clip(content: &str) -> (p: Paste)
    ensures
        p == (if image_url(content@) {
            Paste::Image
        } else {
            Paste::Text
        }),
{
    if is_image(content) {
        Paste::Image
    } else {
        Paste::Text
    }
}

/// A received image was put on the clipboard, or could not be. In the first case the sender pauses,
/// before anything else is done, and the result asks to read the clipboard back and to report to
/// `image_read_back`.
pub fn image_applied(mute: &mut Mute, applied: bool, now: u64) -> (read_back: bool)
    requires
        applied ==> now + MUTE_MS <= u64::MAX,
    ensures
        read_back == applied,
        final(mute).until == (if applied {
            (now + MUTE_MS) as u64
        } else {
            old(mute).until
        }),
{
    if applied {
        mute.start(now);
    }
    applied
}

/// The clipboard was read back after a received image was put on it. What this device reads is what
/// counts as synced from then on, so that it is not taken for a fresh copy.
pub fn image_read_back(guard: &mut Guard, content: Option<String>)
    ensures
        final(guard)@ == read_back_guard(old(guard)@, opt_text(content)),
{
    if let Some(c) = content {
        guard.settle(c);
    }
}

/// The guard after the clipboard was read back.
pub open spec fn read_back_guard(g: GuardText, content: Option<Seq<char>>) -> GuardText {
    match content {
        Some(c) => GuardText { last: c, ..g },
        None => g,
    }
}

/// The clipboard as a sync payload: its text if there is any, else the image.
pub fn read_clipboard(text: Option<String>, image: Option<String>) -> (r: Option<String>)
    ensures
        r == (match text {
            Some(t) => if t@.len() > 0 {
                text
            } else {
                image
            },
            None => image,
        }),
{
    match text {
        Some(t) => {
            if !t.as_str().is_empty() {
                return Some(t);
            }
            image
        },
        None => image,
    }
}

// ---- Laws ----

/// A clip that was just applied counts as synced, so that it is never sent back.
pub proof fn applied_clips_are_not_sent_back(g: GuardText, e: SseText)
    ensures
        received(g, e).1 matches Some(t) ==> received(g, e).0.last == t,
{
}

/// A clip that was just sent, when the host broadcasts it back, is not applied.
pub proof fn sent_clips_are_not_applied_again(g: GuardText, e: SseText)
    requires
        g.last == content_of(e),
    ensures
        received(g, e).1 is None,
{
}

/// A clip with an id is applied at most once, however often it is replayed.
pub proof fn replays_are_not_applied(g: GuardText, e: SseText)
    requires
        clip_id(e) is Some,
    ensures
        received(received(g, e).0, e) == (received(g, e).0, None::<Seq<char>>),
{
}

/// The highest id applied never goes back.
pub proof fn seen_ids_only_rise(g: GuardText, e: SseText)
    ensures
        received(g, e).0.seen_id >= g.seen_id,
{
}

proof fn lemma_shown_as_is(s: Seq<char>)
    requires
        s.len() > 0,
        forall|i: int|
            0 <= i < s.len() ==> !is_space(#[trigger] s[i]) && s[i] != '\n' && s[i] != '\r',
    ensures
        trim(flat(s)) == s,
{
    assert(flat(s) =~= s);
    assert(!is_space(s[s.len() - 1]));
    lemma_trim_outside(s);
}

/// A clip that a host publishes reaches the clipboard of every device that has neither seen it nor
/// holds it already, and the device then counts it as seen.
pub proof fn published_clips_are_applied(g: GuardText, c: Published)
    requires
        g.seen_id < c.id <= i64::MAX,
        c.text.len() > 0,
        c.text != g.last,
        forall|i: int|
            0 <= i < split(c.text, '\n').len() ==> drop_cr(#[trigger] split(c.text, '\n')[i])
                == split(c.text, '\n')[i],
    ensures
        seen_as(clip_event(c)).event == Some("clip"@),
        received(g, seen_as(clip_event(c))) == (
            GuardText { last: c.text, seen_id: c.id as int },
            Some(c.text),
        ),
{
    let e = clip_event(c);
    reveal_strlit("clip");
    reveal_strlit("\n");
    lemma_shown_as_is("clip"@);
    lemma_dec_round_trip(c.id);
    assert forall|i: int| 0 <= i < dec(c.id).len() implies !is_space(#[trigger] dec(c.id)[i])
        && dec(c.id)[i] != '\n' && dec(c.id)[i] != '\r' by {
        assert(is_digit(dec(c.id)[i]));
    }
    lemma_shown_as_is(dec(c.id));
    clip_numbers_are_read_back(c);
    payloads_arrive_verbatim(e);
    assert("\n"@ =~= seq!['\n']);
    assert(content_of(seen_as(e)) == c.text);
}

/// An image that was applied is not sent back: what the device reads of it counts as synced, and
/// the clips already seen stay seen.
pub proof fn applied_images_are_not_sent_back(g: GuardText, content: Seq<char>)
    ensures
        read_back_guard(g, Some(content)).last == content,
        read_back_guard(g, Some(content)).seen_id == g.seen_id,
{
}

/// Whether a text can stand as a host in a link.
pub open spec fn is_host(h: Seq<char>) -> bool {
    h.len() > 0 && forall|i: int|
        0 <= i < h.len() ==> (#[trigger] h[i]) != '/' && h[i] != '?' && !is_space(h[i])
}

/// Whether a text can stand as a value in a link's query.
pub open spec fn is_value(v: Seq<char>) -> bool {
    forall|i: int| 0 <= i < v.len() ==> (#[trigger] v[i]) != '&' && !is_space(v[i])
}

proof fn lemma_trim_outside(s: Seq<char>)
    requires
        s.len() > 0,
        !is_space(s[0]),
        !is_space(s.last()),
    ensures
        trim(s) == s,
{
    lemma_lead(s, |c: char| is_space(c), 0);
    assert(trim_start(s) =~= s);
}

proof fn lemma_authority(host: Seq<char>, port: nat, tail: Seq<char>)
    requires
        is_host(host),
        port <= u16::MAX,
        tail.len() > 0 ==> tail[0] == '/' || tail[0] == '?',
    ensures
        ({
            let a = host + seq![':'] + dec(port);
            let s = a + tail;
            &&& authority(s) == a
            &&& a.len() > 0
            &&& host_port(a, 8080) == Some((host, port))
        }),
{
    let d = dec(port);
    let a = host + seq![':'] + d;
    let s = a + tail;
    lemma_dec_round_trip(port);
    dec_is_read_back(port, u16::MAX as nat);
    let p = |c: char| c != '/' && c != '?';
    assert forall|i: int| 0 <= i < a.len() implies p(#[trigger] s[i]) by {
        if i < host.len() {
            assert(s[i] == host[i]);
        } else if i > host.len() {
            assert(s[i] == d[i - host.len() - 1]);
            assert(is_digit(d[i - host.len() - 1]));
        }
    }
    if tail.len() > 0 {
        assert(s[a.len() as int] == tail[0]);
    }
    lemma_lead(s, p, a.len() as int);
    assert(s.take(a.len() as int) =~= a);
    assert forall|j: int| host.len() < j < a.len() implies a[j] != ':' by {
        assert(a[j] == d[j - host.len() - 1]);
        assert(is_digit(d[j - host.len() - 1]));
    }
    lemma_last_at(a, ':', host.len() as int);
    assert(a.skip(host.len() as int + 1) =~= d);
    assert(a.take(host.len() as int) =~= host);
}

proof fn lemma_pieces(a: Seq<char>, b: Seq<char>)
    requires
        !a.contains('&'),
        !b.contains('&'),
    ensures
        split(a + seq!['&'] + b, '&') == seq![a, b],
        split(b, '&') == seq![b],
{
    let s = a + seq!['&'] + b;
    assert forall|j: int| 0 <= j < a.len() implies s[j] != '&' by {
        assert(s[j] == a[j]);
        assert(a.contains(a[j]));
    }
    lemma_first_at(s, '&', a.len() as int);
    assert(s.take(a.len() as int) =~= a);
    assert(s.skip(a.len() as int + 1) =~= b);
    assert forall|j: int| 0 <= j < b.len() implies b[j] != '&' by {
        assert(b.contains(b[j]));
    }
    lemma_first_at(b, '&', b.len() as int);
    assert(split(b, '&') =~= seq![b]);
    assert(split(s, '&') =~= seq![a, b]);
}

proof fn lemma_pin(front: Seq<char>, token: Option<Seq<char>>, fp: Seq<char>)
    requires
        !front.contains('?'),
        is_value(fp),
        token matches Some(t) ==> is_value(t),
    ensures
        pin_of(front + share_query(token, Some(fp))) == fp,
{
    reveal_strlit("?k=");
    reveal_strlit("&fp=");
    reveal_strlit("?fp=");
    reveal_strlit("fp=");
    let b = "fp="@ + fp;
    assert forall|j: int| 0 <= j < b.len() implies b[j] != '&' by {
        if j >= 3 {
            assert(b[j] == fp[j - 3]);
        }
    }
    assert(b.subrange(0, 3) =~= "fp="@);
    assert(b.skip(3) =~= fp);
    let query = match token {
        Some(t) => seq!['k', '='] + t + seq!['&'] + b,
        None => b,
    };
    let s = front + share_query(token, Some(fp));
    assert(s =~= front + seq!['?'] + query);
    assert forall|j: int| 0 <= j < front.len() implies s[j] != '?' by {
        assert(s[j] == front[j]);
        assert(front.contains(front[j]));
    }
    lemma_first_at(s, '?', front.len() as int);
    assert(s.skip(front.len() as int + 1) =~= query);
    match token {
        Some(t) => {
            let a = seq!['k', '='] + t;
            assert forall|j: int| 0 <= j < a.len() implies a[j] != '&' by {
                if j >= 2 {
                    assert(a[j] == t[j - 2]);
                }
            }
            lemma_pieces(a, b);
            if begins(a, "fp="@) {
                assert(a.subrange(0, 3)[0] == 'k');
            }
            assert(seq![a, b].skip(1) =~= seq![b]);
            assert(pinned(seq![b]) == fp);
        },
        None => {
            lemma_pieces(b, b);
        },
    }
}

/// A device that is given the share link of a host finds the host, its port, and, over TLS, the
/// fingerprint to pin.
pub proof fn share_links_are_understood(
    host: Seq<char>,
    port: nat,
    token: Option<Seq<char>>,
    fp: Option<Seq<char>>,
)
    requires
        is_host(host),
        port <= u16::MAX,
        token matches Some(t) ==> is_value(t),
        fp matches Some(f) ==> is_value(f),
    ensures
        base_of(url_text(Some(host), port, fp is Some) + share_query(token, fp)) == Some(
            (host, port, fp),
        ),
{
    reveal_strlit("http://");
    reveal_strlit("https://");
    reveal_strlit(":");
    reveal_strlit("/");
    reveal_strlit("?k=");
    reveal_strlit("&fp=");
    reveal_strlit("?fp=");
    let scheme = if fp is Some {
        "https://"@
    } else {
        "http://"@
    };
    let query = share_query(token, fp);
    let link = url_text(Some(host), port, fp is Some) + query;
    let a = host + seq![':'] + dec(port);
    let rest = a + seq!['/'] + query;
    assert(link =~= scheme + rest);
    assert(link[0] == 'h');
    if query.len() > 0 {
        assert(link.last() == query.last());
        match (token, fp) {
            (_, Some(f)) => {
                if f.len() > 0 {
                    assert(query.last() == f[f.len() - 1]);
                } else {
                    assert(query.last() == '=');
                }
            },
            (Some(t), None) => {
                if t.len() > 0 {
                    assert(query.last() == t[t.len() - 1]);
                } else {
                    assert(query.last() == '=');
                }
            },
            (None, None) => {},
        }
    } else {
        assert(link.last() == '/');
    }
    lemma_trim_outside(link);
    lemma_authority(host, port, seq!['/'] + query);
    assert(rest =~= a + (seq!['/'] + query));
    if fp is Some {
        assert(link.subrange(0, 8) =~= "https://"@);
        assert(link[4] == 's');
        if begins(link, "http://"@) {
            assert(link.subrange(0, 7)[4] == ':');
        }
        assert(link.skip(8) =~= rest);
        let front = a + seq!['/'];
        lemma_dec_round_trip(port);
        assert forall|j: int| 0 <= j < front.len() implies front[j] != '?' by {
            if j < host.len() {
                assert(front[j] == host[j]);
            } else if host.len() < j < a.len() {
                assert(is_digit(dec(port)[j - host.len() - 1]));
            }
        }
        lemma_pin(front, token, fp->0);
    } else {
        assert(link.subrange(0, 7) =~= "http://"@);
        assert(link[4] == ':');
        if begins(link, "https://"@) {
            assert(link.subrange(0, 8)[4] == 's');
        }
        assert(link.skip(7) =~= rest);
    }
}

/// A host's own client finds the host over loopback and pins the host's certificate.
pub proof fn a_host_finds_itself(port: nat, fp: Option<Seq<char>>)
    requires
        port <= u16::MAX,
        fp matches Some(f) ==> is_value(f),
    ensures
        base_of(own_address_text(port, fp)) == Some(("127.0.0.1"@, port, fp)),
{
    reveal_strlit("http://");
    reveal_strlit("https://");
    reveal_strlit("127.0.0.1");
    reveal_strlit("127.0.0.1:");
    reveal_strlit("https://127.0.0.1:");
    reveal_strlit("?fp=");
    let host = "127.0.0.1"@;
    let link = own_address_text(port, fp);
    let d = dec(port);
    let a = host + seq![':'] + d;
    lemma_dec_round_trip(port);
    assert forall|i: int| 0 <= i < host.len() implies (#[trigger] host[i]) != '/' && host[i] != '?'
        && !is_space(host[i]) by {}
    assert forall|j: int| 0 <= j < a.len() implies a[j] != '?' by {
        if j < host.len() {
            assert(a[j] == host[j]);
        } else if j > host.len() {
            assert(is_digit(d[j - host.len() - 1]));
        }
    }
    assert(is_digit(d[d.len() - 1]));
    match fp {
        Some(f) => {
            let tail = share_query(None, fp);
            assert(link =~= "https://"@ + (a + tail));
            assert(link[0] == 'h');
            if f.len() > 0 {
                assert(link.last() == f[f.len() - 1]);
            } else {
                assert(link.last() == '=');
            }
            lemma_trim_outside(link);
            lemma_authority(host, port, tail);
            assert(link.subrange(0, 8) =~= "https://"@);
            assert(link[4] == 's');
            if begins(link, "http://"@) {
                assert(link.subrange(0, 7)[4] == ':');
            }
            assert(link.skip(8) =~= a + tail);
            lemma_pin(a, None, f);
        },
        None => {
            assert(link =~= a);
            assert(link[0] == '1');
            assert(link.last() == d[d.len() - 1]);
            lemma_trim_outside(link);
            lemma_authority(host, port, Seq::empty());
            assert(a + Seq::<char>::empty() =~= a);
            if begins(link, "http://"@) {
                assert(link.subrange(0, 7)[0] == 'h');
            }
            if begins(link, "https://"@) {
                assert(link.subrange(0, 8)[0] == 'h');
            }
        },
    }
}

/// The number of paired devices is read back from the event that tells it.
pub proof fn presence_counts_are_read_back(n: nat)
    requires
        n <= usize::MAX,
    ensures
        count_of(presence(n).data) == Some(n),
{
    reveal_strlit("{\"count\":");
    reveal_strlit("\"count\":");
    reveal_strlit("}");
    let s = presence(n).data;
    let mark = "\"count\":"@;
    let d = dec(n);
    let p = |c: char| is_digit(c);
    lemma_dec_round_trip(n);
    lemma_find_text(s, mark);
    assert(s.subrange(1, 9) =~= mark);
    assert(occurs_at(s, mark, 1));
    assert(!occurs_at(s, mark, 0)) by {
        if occurs_at(s, mark, 0) {
            assert(s.subrange(0, 8)[0] == '{');
        }
    }
    assert(find_text(s, mark) == Some(1int));
    let after = s.skip(9);
    assert(after =~= d + "}"@);
    assert forall|j: int| 0 <= j < d.len() implies p(#[trigger] after[j]) by {
        assert(after[j] == d[j]);
        assert(is_digit(d[j]));
    }
    assert(after[d.len() as int] == '}');
    lemma_lead(after, p, d.len() as int);
    assert(after.take(d.len() as int) =~= d);
}

/// A host without a scheme is reached over plain HTTP, on port 8080 unless another one is given.
#[verifier::rlimit(40)]
pub proof fn bare_addresses_are_understood(host: Seq<char>, port: nat)
    requires
        is_host(host),
        !host.contains(':'),
        port <= u16::MAX,
    ensures
        base_of(host) == Some((host, 8080nat, None::<Seq<char>>)),
        base_of(host + seq![':'] + dec(port)) == Some((host, port, None::<Seq<char>>)),
{
    reveal_strlit("http://");
    reveal_strlit("https://");
    let e = Seq::<char>::empty();
    let p = |c: char| c != '/' && c != '?';
    let d = dec(port);
    let a = host + seq![':'] + d;
    lemma_dec_round_trip(port);
    assert(!is_space(host[0]) && !is_space(host[host.len() - 1]));
    assert(is_digit(d[d.len() - 1]));
    lemma_trim_outside(host);
    assert(a.last() == d[d.len() - 1]);
    lemma_trim_outside(a);
    assert forall|x: Seq<char>| #[trigger] begins(host, x) && x.contains(':') implies false by {
        let k = choose|k: int| 0 <= k < x.len() && x[k] == ':';
        assert(host.subrange(0, x.len() as int)[k] == host[k]);
        assert(host.contains(host[k]));
    }
    assert("http://"@[4] == ':' && "https://"@[5] == ':');
    assert(without_scheme(host) == host);
    assert(!begins(a, "http://"@)) by {
        if begins(a, "http://"@) {
            let h = "http://"@;
            assert(a.subrange(0, 7)[5] == a[5] && a.subrange(0, 7)[4] == a[4]);
            if host.len() > 5 {
                assert(host[5] != '/');
            } else if host.len() < 5 {
                assert(a[5] == d[5 - host.len() as int - 1]);
                assert(is_digit(d[5 - host.len() as int - 1]));
            } else {
                assert(a[5] == ':');
            }
        }
    }
    assert(!begins(a, "https://"@)) by {
        if begins(a, "https://"@) {
            assert(a.subrange(0, 8)[6] == a[6]);
            if host.len() > 6 {
                assert(host[6] != '/');
            } else if host.len() < 6 {
                assert(a[6] == d[6 - host.len() as int - 1]);
                assert(is_digit(d[6 - host.len() as int - 1]));
            } else {
                assert(a[6] == ':');
            }
        }
    }
    lemma_authority(host, port, e);
    assert(a + e =~= a);
    lemma_lead(host, p, host.len() as int);
    assert(host.take(host.len() as int) =~= host);
    assert forall|j: int| -1 < j < host.len() implies host[j] != ':' by {
        assert(host.contains(host[j]));
    }
    lemma_last_at(host, ':', -1);
}

/// The request that publishes a clip is these lines, and then the text, whose bytes it counts.
#[verifier::rlimit(40)]
pub proof fn clip_requests_are_lines(host: Seq<char>, len: u64)
    ensures
        clip_head(host, len as nat) == unlines(
            seq![
                "POST /clip HTTP/1.1\r"@,
                "Host: "@ + host + seq!['\r'],
                "Content-Type: text/plain; charset=utf-8\r"@,
                "Content-Length: "@ + dec(len as nat) + seq!['\r'],
                "Connection: close\r"@,
                seq!['\r'],
            ],
        ),
{
    reveal_strlit("POST /clip HTTP/1.1\r\nHost: ");
    reveal_strlit("\r\nContent-Type: text/plain; charset=utf-8\r\nContent-Length: ");
    reveal_strlit("\r\nConnection: close\r\n\r\n");
    reveal_strlit("POST /clip HTTP/1.1\r");
    reveal_strlit("Host: ");
    reveal_strlit("Content-Type: text/plain; charset=utf-8\r");
    reveal_strlit("Content-Length: ");
    reveal_strlit("Connection: close\r");
    let l1 = "POST /clip HTTP/1.1\r"@;
    let l3 = "Content-Type: text/plain; charset=utf-8\r"@;
    let l5 = "Connection: close\r"@;
    let d = dec(len as nat);
    let nl = seq!['\n'];
    assert("POST /clip HTTP/1.1\r\nHost: "@ =~= l1 + nl + "Host: "@);
    assert("\r\nContent-Type: text/plain; charset=utf-8\r\nContent-Length: "@ =~= seq!['\r'] + nl + l3
        + nl + "Content-Length: "@);
    assert("\r\nConnection: close\r\n\r\n"@ =~= seq!['\r'] + nl + l5 + nl + seq!['\r'] + nl);
    lemma_six_lines(
        l1,
        "Host: "@ + host + seq!['\r'],
        l3,
        "Content-Length: "@ + d + seq!['\r'],
        l5,
        seq!['\r'],
    );
    lemma_clip_head(l1, "Host: "@, host, l3, "Content-Length: "@, d, l5);
}

proof fn lemma_clip_head(
    l1: Seq<char>,
    a: Seq<char>,
    host: Seq<char>,
    l3: Seq<char>,
    b: Seq<char>,
    d: Seq<char>,
    l5: Seq<char>,
)
    ensures
        (l1 + seq!['\n'] + a) + host + (seq!['\r'] + seq!['\n'] + l3 + seq!['\n'] + b) + d + (seq!['\r']
            + seq!['\n'] + l5 + seq!['\n'] + seq!['\r'] + seq!['\n']) == l1 + seq!['\n'] + (a + host
            + seq!['\r']) + seq!['\n'] + l3 + seq!['\n'] + (b + d + seq!['\r']) + seq!['\n'] + l5
            + seq!['\n'] + seq!['\r'] + seq!['\n'],
{
    let nl = seq!['\n'];
    let cr = seq!['\r'];
    let x = (l1 + nl + a) + host;
    assert(x + cr =~= l1 + nl + (a + host + cr));
    let y = x + (cr + nl + l3 + nl + b) + d;
    assert(y + cr =~= (x + cr) + nl + l3 + nl + (b + d + cr));
    assert(y + (cr + nl + l5 + nl + cr + nl) =~= (y + cr) + nl + l5 + nl + cr + nl);
}

proof fn lemma_six_lines(
    a: Seq<char>,
    b: Seq<char>,
    c: Seq<char>,
    d: Seq<char>,
    e: Seq<char>,
    f: Seq<char>,
)
    ensures
        unlines(seq![a, b, c, d, e, f]) == a + seq!['\n'] + b + seq!['\n'] + c + seq!['\n'] + d + seq![
            '\n',
        ] + e + seq!['\n'] + f + seq!['\n'],
{
    let none = Seq::<Seq<char>>::empty();
    let l1 = seq![a];
    let l2 = seq![a, b];
    let l3 = seq![a, b, c];
    let l4 = seq![a, b, c, d];
    let l5 = seq![a, b, c, d, e];
    let l6 = seq![a, b, c, d, e, f];
    assert(l6.drop_last() =~= l5 && l5.drop_last() =~= l4 && l4.drop_last() =~= l3 && l3.drop_last()
        =~= l2 && l2.drop_last() =~= l1 && l1.drop_last() =~= none);
    assert(unlines(none) + a =~= a);
    assert(unlines(l1) == unlines(none) + a + seq!['\n']);
    assert(unlines(l2) == unlines(l1) + b + seq!['\n']);
    assert(unlines(l3) == unlines(l2) + c + seq!['\n']);
    assert(unlines(l4) == unlines(l3) + d + seq!['\n']);
    assert(unlines(l5) == unlines(l4) + e + seq!['\n']);
    assert(unlines(l6) == unlines(l5) + f + seq!['\n']);
}

/// The activity list keeps the newest clips, in order.
pub proof fn the_newest_clips_are_listed(l: Seq<Clip>, c: Clip)
    ensures
        latest(l).len() == (if l.len() < 20 {
            l.len()
        } else {
            20
        }),
        forall|i: int|
            0 <= i < latest(l).len() ==> #[trigger] latest(l)[latest(l).len() - 1 - i] == l[l.len()
                - 1 - i],
        latest(latest(l).push(c)) == latest(l.push(c)),
{
    assert(latest(latest(l).push(c)) =~= latest(l.push(c)));
}

/// The request that opens the event stream is these lines.
#[verifier::rlimit(40)]
pub proof fn event_requests_are_lines(host: Seq<char>)
    ensures
        events_request_text(host) == unlines(
            seq![
                "GET /events HTTP/1.1\r"@,
                "Host: "@ + host + seq!['\r'],
                "Accept: text/event-stream\r"@,
                "Connection: keep-alive\r"@,
                seq!['\r'],
            ],
        ),
{
    reveal_strlit("GET /events HTTP/1.1\r\nHost: ");
    reveal_strlit("\r\nAccept: text/event-stream\r\nConnection: keep-alive\r\n\r\n");
    reveal_strlit("GET /events HTTP/1.1\r");
    reveal_strlit("Host: ");
    reveal_strlit("Accept: text/event-stream\r");
    reveal_strlit("Connection: keep-alive\r");
    let (a, c, d, e) = (
        "GET /events HTTP/1.1\r"@,
        "Accept: text/event-stream\r"@,
        "Connection: keep-alive\r"@,
        seq!['\r'],
    );
    let nl = seq!['\n'];
    let b = "Host: "@ + host + seq!['\r'];
    assert("GET /events HTTP/1.1\r\nHost: "@ =~= a + nl + "Host: "@);
    assert("\r\nAccept: text/event-stream\r\nConnection: keep-alive\r\n\r\n"@ =~= e + nl + c + nl + d
        + nl + e + nl);
    lemma_five_lines(a, b, c, d, e);
    let front = a + nl + "Host: "@ + host;
    assert(front + e =~= a + nl + b);
    assert(front + (e + nl + c + nl + d + nl + e + nl) =~= (front + e) + nl + c + nl + d + nl + e + nl);
}

proof fn lemma_five_lines(a: Seq<char>, b: Seq<char>, c: Seq<char>, d: Seq<char>, e: Seq<char>)
    ensures
        unlines(seq![a, b, c, d, e]) == a + seq!['\n'] + b + seq!['\n'] + c + seq!['\n'] + d + seq![
            '\n',
        ] + e + seq!['\n'],
{
    let none = Seq::<Seq<char>>::empty();
    let l1 = seq![a];
    let l2 = seq![a, b];
    let l3 = seq![a, b, c];
    let l4 = seq![a, b, c, d];
    let l5 = seq![a, b, c, d, e];
    assert(l5.drop_last() =~= l4 && l4.drop_last() =~= l3 && l3.drop_last() =~= l2 && l2.drop_last()
        =~= l1 && l1.drop_last() =~= none);
    assert(unlines(none) + a =~= a);
    assert(unlines(l1) == unlines(none) + a + seq!['\n']);
    assert(unlines(l2) == unlines(l1) + b + seq!['\n']);
    assert(unlines(l3) == unlines(l2) + c + seq!['\n']);
    assert(unlines(l4) == unlines(l3) + d + seq!['\n']);
    assert(unlines(l5) == unlines(l4) + e + seq!['\n']);
}

/// The activity list shows a text as it is, and a placeholder only for an image.
pub proof fn texts_are_shown_as_they_are(content: Seq<char>, rest: Seq<char>)
    ensures
        !begins(content, "data:image/"@) ==> label_of(content) == content,
        label_of("data:image/"@ + rest) == "[image]"@,
{
    let p = "data:image/"@;
    assert((p + rest).subrange(0, p.len() as int) =~= p);
}

/// The first fingerprint in a query counts, whole; pieces without one are passed over.
pub proof fn the_first_fingerprint_counts(other: Seq<char>, fp: Seq<char>, rest: Seq<Seq<char>>)
    requires
        !begins(other, "fp="@),
    ensures
        pinned(seq!["fp="@ + fp] + rest) == fp,
        pinned(seq![other] + rest) == pinned(rest),
        pinned(Seq::<Seq<char>>::empty()) == Seq::<char>::empty(),
{
    let p = "fp="@;
    let a = p + fp;
    assert(a.subrange(0, p.len() as int) =~= p);
    assert(a.skip(p.len() as int) =~= fp);
    assert((seq![a] + rest)[0] == a);
    assert((seq![other] + rest)[0] == other);
    assert((seq![other] + rest).skip(1) =~= rest);
}

/// The activity list tells every clip whole.
pub proof fn clips_are_told_whole(v: Seq<ClipLine>, i: int)
    requires
        0 <= i < v.len(),
    ensures
        clips(v).len() == v.len(),
        clips(v)[i].text == v[i].text@,
        clips(v)[i].incoming == v[i].incoming,
{
}

/// An address without a host, or with a port that is no number, is refused.
pub proof fn broken_addresses_are_refused(tail: Seq<char>, host: Seq<char>, junk: Seq<char>)
    requires
        tail.len() == 0 || ((tail[0] == '/' || tail[0] == '?') && !is_space(tail.last())),
        !junk.contains(':'),
        parse_dec(junk, 65535) is None,
    ensures
        base_of("http://"@ + tail) is None,
        host_port(host + seq![':'] + junk, 8080) is None,
{
    reveal_strlit("http://");
    let p = "http://"@;
    let u = p + tail;
    assert(u[0] == 'h');
    assert(!is_space(u.last())) by {
        if tail.len() > 0 {
            assert(u.last() == tail.last());
        } else {
            assert(u.last() == '/');
        }
    }
    lemma_trim_outside(u);
    assert(u.subrange(0, 7) =~= p);
    assert(u.skip(7) =~= tail);
    lemma_lead(tail, |c: char| c != '/' && c != '?', 0);
    let a = host + seq![':'] + junk;
    let n = host.len() as int;
    assert forall|j: int| n < j < a.len() implies a[j] != ':' by {
        assert(a[j] == junk[j - n - 1]);
        assert(junk.contains(junk[j - n - 1]));
    }
    lemma_last_at(a, ':', n);
    assert(a.skip(n + 1) =~= junk);
}

} // verus!
