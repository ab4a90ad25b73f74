//! The client side of plain HTTP: requests, response heads, and resuming a download.

use vstd::prelude::*;
use vstd::string::*;
use crate::auth::{SESSION_COOKIE, has_session, is_token};
use crate::download::resume_range;
use crate::num::{
    dec, dec_is_read_back, dec_value, fractions_are_read_back, is_digit, lemma_dec_round_trip,
    parse_dec, parse_uint, push_dec,
};
use crate::reply::header_texts;
use crate::server_info::{capabilities_text, FastLane};
use crate::text::{
    after_word, all_space, chars_of, cut, drop_tail, eq_ignore_case, find, first_word, find_text,
    is_space, lead, lemma_drop_tail, lemma_find_text, lemma_first_at, lemma_lead, occurs_at, part,
    same_ignoring_case, space, split_once, string_of, trim, trim_end, trim_end_mut, trimmed,
    trimming_gives_the_middle, unlines, word, words_are_found,
};
use crate::url::{header_of, is_solid_text, Header};

verus! {

// ---- Requests ----

/// The lines of extra headers.
pub open spec fn header_lines(l: Seq<(Seq<char>, Seq<char>)>) -> Seq<char>
    decreases l.len(),
{
    if l.len() == 0 {
        Seq::empty()
    } else {
        header_lines(l.drop_last()) + l.last().0 + ": "@ + l.last().1 + "\r\n"@
    }
}

/// A request without a body.
pub open spec fn request_text(
    method: Seq<char>,
    target: Seq<char>,
    host: Seq<char>,
    extra: Seq<(Seq<char>, Seq<char>)>,
) -> Seq<char> {
    method + " "@ + target + " HTTP/1.1\r\nHost: "@ + host + "\r\nConnection: close\r\n"@
        + header_lines(extra) + "\r\n"@
}

/// Build a request without a body.
pub fn http_request(method: &str, target: &str, host: &str, extra: &[Header]) -> (r: String)
    ensures
        r@ == request_text(method@, target@, host@, header_texts(extra@)),
{
    let mut r = String::new();
    r.append(method);
    r.append(" ");
    r.append(target);
    r.append(" HTTP/1.1\r\nHost: ");
    r.append(host);
    r.append("\r\nConnection: close\r\n");
    let ghost head = r@;
    let ghost all = header_texts(extra@);
    let mut i: usize = 0;
    assert(all.take(0) =~= Seq::<(Seq<char>, Seq<char>)>::empty());
    assert(head + header_lines(all.take(0)) =~= head);
    while i < extra.len()
        invariant
            i <= extra@.len(),
            all == header_texts(extra@),
            r@ == head + header_lines(all.take(i as int)),
        decreases extra@.len() - i,
    {
        assert(all.take(i + 1).drop_last() =~= all.take(i as int));
        r.append(extra[i].name.as_str());
        r.append(": ");
        r.append(extra[i].value.as_str());
        r.append("\r\n");
        assert(r@ =~= head + header_lines(all.take(i + 1)));
        i = i + 1;
    }
    assert(all.take(i as int) =~= all);
    r.append("\r\n");
    assert(r@ =~= request_text(method@, target@, host@, header_texts(extra@)));
    r
}

/// The headers that carry the pairing token: as the session cookie.
pub open spec fn token_headers(token: Option<Seq<char>>) -> Seq<(Seq<char>, Seq<char>)> {
    match token {
        Some(t) => seq![("Cookie"@, SESSION_COOKIE@ + seq!['='] + t)],
        None => Seq::empty(),
    }
}

/// The headers that carry the pairing token.
pub fn auth_headers(token: Option<&str>) -> (v: Vec<Header>)
    ensures
        header_texts(v@) == token_headers(crate::url::opt_str(token)),
        v@.len() == (if token is Some {
            1int
        } else {
            0
        }),
{
    let mut v: Vec<Header> = Vec::new();
    if let Some(t) = token {
        let mut value = String::new();
        value.append(SESSION_COOKIE);
        value.push('=');
        value.append(t);
        assert(value@ =~= SESSION_COOKIE@ + seq!['='] + t@);
        v.push(Header { name: "Cookie".to_owned(), value });
    }
    assert(header_texts(v@) =~= token_headers(crate::url::opt_str(token)));
    v
}

/// The headers of a download: the token, and a range when bytes are on disk already.
pub fn download_headers(token: Option<&str>, on_disk: u64) -> (v: Vec<Header>)
    ensures
        header_texts(v@) == (if on_disk > 0 {
            token_headers(crate::url::opt_str(token)).push(
                ("Range"@, resume_range(on_disk as nat)),
            )
        } else {
            token_headers(crate::url::opt_str(token))
        }),
{
    let mut v = auth_headers(token);
    if on_disk > 0 {
        let ghost before = v@;
        let mut value = String::new();
        value.append("bytes=");
        push_dec(&mut value, on_disk);
        value.append("-");
        assert(value@ =~= resume_range(on_disk as nat));
        v.push(Header { name: "Range".to_owned(), value });
        assert(header_texts(v@) =~= header_texts(before).push(("Range"@, value@)));
    }
    v
}

/// The request target of a download, with the path as the link encodes it.
pub fn download_path(raw_path: &str) -> (r: String)
    ensures
        r@ == "/download?path="@ + raw_path@,
{
    let mut r = String::new();
    r.append("/download?path=");
    r.append(raw_path);
    assert(r@ =~= "/download?path="@ + raw_path@);
    r
}

// ---- Response heads ----

/// The status in a status line: its second word, as a number.
pub open spec fn status_of(line: Seq<char>) -> Option<nat> {
    parse_dec(word(after_word(line)), u16::MAX as nat)
}

/// Read the status from a status line.
pub fn parse_status(line: &str) -> (r: Option<u16>)
    ensures
        match r {
            Some(n) => status_of(line@) == Some(n as nat),
            None => status_of(line@) is None,
        },
{
    let (_, rest) = first_word(&chars_of(line));
    let (w, _) = first_word(&rest);
    match parse_uint(&w, 65535) {
        Some(n) => Some(n as u16),
        None => None,
    }
}

/// The head of a response.
pub struct HttpHead {
    pub status: u16,
    pub headers: Vec<Header>,
    pub content_length: Option<u64>,
}

/// The name and the value of a header line.
pub open spec fn header_line(line: Seq<char>) -> Option<(Seq<char>, Seq<char>)> {
    match split_once(trim_end(line), ':') {
        Some((k, v)) => Some((trim(k), trim(v))),
        None => None,
    }
}

/// The `Content-Length` after one more header line: the last one counts, and one that is no number
/// takes back the ones before.
pub open spec fn length_after(now: Option<u64>, line: Seq<char>) -> Option<u64> {
    match header_line(line) {
        Some((k, v)) => if same_ignoring_case(k, "content-length"@) {
            match parse_dec(v, u64::MAX as nat) {
                Some(n) => Some(n as u64),
                None => None,
            }
        } else {
            now
        },
        None => now,
    }
}

impl HttpHead {
    /// Begin with the status line.
    pub fn new(status_line: &str) -> (r: Option<HttpHead>)
        ensures
            match r {
                Some(h) => status_of(status_line@) == Some(h.status as nat) && h.headers@.len() == 0
                    && h.content_length is None,
                None => status_of(status_line@) is None,
            },
    {
        match parse_status(status_line) {
            Some(status) => Some(HttpHead { status, headers: Vec::new(), content_length: None }),
            None => None,
        }
    }

    /// Take in one more line. A blank line ends the head; a line without a colon is passed over.
    pub fn add_line(&mut self, line: &str) -> (more: bool)
        ensures
            more == (trim_end(line@).len() > 0),
            final(self).status == old(self).status,
            final(self).content_length == (if more {
                length_after(old(self).content_length, line@)
            } else {
                old(self).content_length
            }),
            header_texts(final(self).headers@) == (match header_line(line@) {
                Some(kv) => if more {
                    header_texts(old(self).headers@).push(kv)
                } else {
                    header_texts(old(self).headers@)
                },
                None => header_texts(old(self).headers@),
            }),
    {
        let mut l = chars_of(line);
        trim_end_mut(&mut l);
        if l.len() == 0 {
            return false;
        }
        if let Some((k, v)) = cut(&l, ':') {
            let k = trimmed(&k);
            let v = trimmed(&v);
            if eq_ignore_case(&k, &chars_of("content-length")) {
                self.content_length = parse_uint(&v, u64::MAX);
            }
            let ghost before = self.headers@;
            self.headers.push(Header { name: string_of(&k), value: string_of(&v) });
            assert(header_texts(self.headers@) =~= header_texts(before).push((k@, v@)));
        }
        true
    }
}

// ---- Resuming ----

/// How the body of a download is written.
pub struct BodyPlan {
    /// Where writing starts.
    pub start: u64,
    /// Size of the file once all is written.
    pub total: u64,
    /// Bytes to come.
    pub len: u64,
}

/// Why a download over HTTP fails.
#[derive(Clone, Copy, Debug, PartialEq, Eq, Structural)]
pub enum HttpError {
    /// The server answered with another status.
    Status(u16),
    /// The response did not say how long it is.
    NoLength,
    /// The body was cut short: the size of the file, and the size it should have.
    Incomplete(u64, u64),
}

/// Where the body of a response is written, and its length: behind what is on disk if the server
/// resumed, else from the start.
pub open spec fn plan_of(status: u16, content_length: Option<u64>, on_disk: nat) -> Result<
    (nat, nat),
    HttpError,
> {
    if status != 200 && status != 206 {
        Err(HttpError::Status(status))
    } else {
        match content_length {
            Some(len) => Ok(
                (
                    if status == 206 {
                        on_disk
                    } else {
                        0
                    },
                    len as nat,
                ),
            ),
            None => Err(HttpError::NoLength),
        }
    }
}

/// Plan how to write the body: behind what is on disk if the server resumed, else from the start.
pub fn plan_body(status: u16, content_length: Option<u64>, on_disk: u64) -> (r: Result<
    BodyPlan,
    HttpError,
>)
    requires
        status == 206 && content_length is Some ==> on_disk + content_length->0 <= u64::MAX,
    ensures
        match r {
            Ok(p) => {
                &&& plan_of(status, content_length, on_disk as nat) == Ok::<(nat, nat), HttpError>(
                    (p.start as nat, p.len as nat),
                )
                &&& p.total == p.start + p.len
            },
            Err(e) => plan_of(status, content_length, on_disk as nat) == Err::<
                (nat, nat),
                HttpError,
            >(e),
        },
{
    if status != 200 && status != 206 {
        return Err(HttpError::Status(status));
    }
    match content_length {
        Some(len) => {
            let start: u64 = if status == 206 {
                on_disk
            } else {
                0
            };
            Ok(BodyPlan { start, total: start + len, len })
        },
        None => Err(HttpError::NoLength),
    }
}

impl BodyPlan {
    /// Judge a download whose response has ended, by the size of the temporary file: it succeeds,
    /// with the file's size and the offset it resumed from, only if all bytes are there.
    pub fn finish(&self, got: u64) -> (r: Result<(u64, u64), HttpError>)
        ensures
            r == (if got == self.total {
                Ok::<(u64, u64), HttpError>((self.total, self.start))
            } else {
                Err(HttpError::Incomplete(got, self.total))
            }),
    {
        if got == self.total {
            Ok((self.total, self.start))
        } else {
            Err(HttpError::Incomplete(got, self.total))
        }
    }
}

/// The text of a failure.
pub open spec fn http_error_text(e: HttpError) -> Seq<char> {
    match e {
        HttpError::Status(s) => "HTTP download failed: status "@ + dec(s as nat),
        HttpError::NoLength => "HTTP response had no Content-Length"@,
        HttpError::Incomplete(got, total) => "HTTP download incomplete: "@ + dec(got as nat) + "/"@
            + dec(total as nat) + " bytes"@,
    }
}

impl HttpError {
    /// The text of a failure.
    pub fn message(&self) -> (r: String)
        ensures
            r@ == http_error_text(*self),
    {
        match *self {
            HttpError::Status(s) => {
                let mut r = "HTTP download failed: status ".to_owned();
                push_dec(&mut r, s as u64);
                r
            },
            HttpError::NoLength => "HTTP response had no Content-Length".to_owned(),
            HttpError::Incomplete(got, total) => {
                let mut r = "HTTP download incomplete: ".to_owned();
                push_dec(&mut r, got);
                r.append("/");
                push_dec(&mut r, total);
                r.append(" bytes");
                r
            },
        }
    }
}

// ---- Discovery of the fast lane ----

/// A text without its white space.
pub open spec fn compact(s: Seq<char>) -> Seq<char>
    decreases s.len(),
{
    if s.len() == 0 {
        Seq::empty()
    } else if is_space(s.last()) {
        compact(s.drop_last())
    } else {
        compact(s.drop_last()).push(s.last())
    }
}

/// The digits that a text begins with.
pub open spec fn leading_digits(s: Seq<char>) -> Seq<char> {
    s.take(lead(s, |c: char| is_digit(c)))
}

/// The port of the fast lane that a server advertises.
pub open spec fn advertised(json: Seq<char>) -> Option<nat> {
    let c = compact(json);
    if find_text(c, "\"fast\":null"@) is Some {
        None
    } else {
        match find_text(c, "\"port\":"@) {
            Some(i) => {
                let d = leading_digits(c.skip(i + "\"port\":"@.len()));
                if d.len() > 0 && dec_value(d) <= u16::MAX {
                    Some(dec_value(d))
                } else {
                    None
                }
            },
            None => None,
        }
    }
}

fn compacted(s: &[char]) -> (r: Vec<char>)
    ensures
        r@ == compact(s@),
{
    let mut r: Vec<char> = Vec::new();
    let mut i: usize = 0;
    while i < s.len()
        invariant
            i <= s@.len(),
            r@ == compact(s@.take(i as int)),
        decreases s@.len() - i,
    {
        assert(s@.take(i + 1).drop_last() =~= s@.take(i as int));
        if !space(s[i]) {
            r.push(s[i]);
        }
        i = i + 1;
    }
    assert(s@.take(i as int) =~= s@);
    r
}

/// Read the port of the fast lane from what a server advertises.
pub fn parse_fast_port(json: &str) -> (r: Option<u16>)
    ensures
        match r {
            Some(p) => advertised(json@) == Some(p as nat),
            None => advertised(json@) is None,
        },
{
    let c = compacted(&chars_of(json));
    if find(&c, &chars_of("\"fast\":null")).is_some() {
        return None;
    }
    let mark = chars_of("\"port\":");
    match find(&c, &mark) {
        None => None,
        Some(i) => {
            let len: usize = c.len();
            let after = part(&c, i + mark.len(), len);
            assert(after@ =~= c@.skip(i + "\"port\":"@.len()));
            let mut n: usize = 0;
            while n < after.len() && '0' <= after[n] && after[n] <= '9'
                invariant
                    n <= after@.len(),
                    forall|j: int| 0 <= j < n ==> is_digit(#[trigger] after@[j]),
                decreases after@.len() - n,
            {
                n = n + 1;
            }
            proof {
                lemma_lead(after@, |c: char| is_digit(c), n as int);
            }
            let digits = part(&after, 0, n);
            assert(digits@ =~= leading_digits(after@));
            proof {
                assert forall|j: int| 0 <= j < digits@.len() implies is_digit(
                    #[trigger] digits@[j],
                ) by {
                    assert(digits@[j] == after@[j]);
                }
                if digits@.len() > 0 {
                    assert(is_digit(digits@[0]));
                }
            }
            match parse_uint(&digits, 65535) {
                Some(v) => Some(v as u16),
                None => None,
            }
        },
    }
}

// ---- Laws ----

proof fn lemma_compact_solid(s: Seq<char>)
    requires
        forall|i: int| 0 <= i < s.len() ==> !is_space(#[trigger] s[i]),
    ensures
        compact(s) == s,
    decreases s.len(),
{
    if s.len() > 0 {
        let rest = s.drop_last();
        assert forall|i: int| 0 <= i < rest.len() implies !is_space(#[trigger] rest[i]) by {
            assert(rest[i] == s[i]);
        }
        lemma_compact_solid(rest);
        assert(!is_space(s[s.len() - 1]));
        assert(rest.push(s.last()) =~= s);
    }
}

/// What follows the port in what a server advertises.
spec fn behind_port(tls: bool) -> Seq<char> {
    ",\"tls\":"@ + (if tls {
        "true"@
    } else {
        "false"@
    }) + ",\"version\":1}}"@
}

/// What a server advertises, with the digits of the port.
spec fn with_port(d: Seq<char>, tls: bool) -> Seq<char> {
    "{\"fast\":{\"port\":"@ + d + behind_port(tls)
}

proof fn lemma_behind_port(tls: bool)
    ensures
        behind_port(tls).len() > 0,
        behind_port(tls)[0] == ',',
        forall|i: int| 0 <= i < behind_port(tls).len() ==> !is_space(#[trigger] behind_port(tls)[i]),
        forall|i: int|
            0 <= i && i + 1 < behind_port(tls).len() && #[trigger] behind_port(tls)[i] == '"'
                ==> behind_port(tls)[i + 1] != 'f',
{
    reveal_strlit(",\"tls\":");
    reveal_strlit("true");
    reveal_strlit("false");
    reveal_strlit(",\"version\":1}}");
}

proof fn lemma_port_is_solid(d: Seq<char>, tls: bool)
    requires
        forall|i: int| 0 <= i < d.len() ==> is_digit(#[trigger] d[i]),
    ensures
        compact(with_port(d, tls)) == with_port(d, tls),
{
    reveal_strlit("{\"fast\":{\"port\":");
    lemma_behind_port(tls);
    let head = "{\"fast\":{\"port\":"@;
    let c = with_port(d, tls);
    assert forall|i: int| 0 <= i < c.len() implies !is_space(#[trigger] c[i]) by {
        if i < head.len() {
            assert(c[i] == head[i]);
        } else if i < head.len() + d.len() {
            assert(c[i] == d[i - head.len()]);
        } else {
            assert(c[i] == behind_port(tls)[i - head.len() - d.len()]);
        }
    }
    lemma_compact_solid(c);
}

proof fn lemma_port_is_not_null(d: Seq<char>, tls: bool)
    requires
        forall|i: int| 0 <= i < d.len() ==> is_digit(#[trigger] d[i]),
    ensures
        find_text(with_port(d, tls), "\"fast\":null"@) is None,
{
    reveal_strlit("\"fast\":null");
    reveal_strlit("{\"fast\":{\"port\":");
    lemma_behind_port(tls);
    let null = "\"fast\":null"@;
    let head = "{\"fast\":{\"port\":"@;
    let c = with_port(d, tls);
    lemma_find_text(c, null);
    assert forall|j: int| !occurs_at(c, null, j) by {
        if occurs_at(c, null, j) {
            let w = c.subrange(j, j + 11);
            assert(w[0] == c[j] && w[1] == c[j + 1] && w[8] == c[j + 8]);
            if j < head.len() {
                assert(c[j] == head[j]);
                if j == 1 {
                    assert(c[9] == head[9]);
                } else if j + 1 < head.len() {
                    assert(c[j + 1] == head[j + 1]);
                }
            } else if j < head.len() + d.len() {
                assert(c[j] == d[j - head.len()]);
            } else {
                let m = j - head.len() - d.len();
                assert(c[j] == behind_port(tls)[m] && c[j + 1] == behind_port(tls)[m + 1]);
            }
        }
    }
}

proof fn lemma_port_is_found(d: Seq<char>, tls: bool)
    requires
        forall|i: int| 0 <= i < d.len() ==> is_digit(#[trigger] d[i]),
    ensures
        find_text(with_port(d, tls), "\"port\":"@) == Some(9int),
        leading_digits(with_port(d, tls).skip(9int + "\"port\":"@.len())) == d,
{
    reveal_strlit("{\"fast\":{\"port\":");
    reveal_strlit("\"port\":");
    lemma_behind_port(tls);
    let mark = "\"port\":"@;
    let head = "{\"fast\":{\"port\":"@;
    let c = with_port(d, tls);
    lemma_find_text(c, mark);
    assert(c.subrange(9, 16) =~= head.subrange(9, 16));
    assert(head.subrange(9, 16) =~= mark);
    assert(occurs_at(c, mark, 9));
    assert forall|j: int| 0 <= j < 9 implies !occurs_at(c, mark, j) by {
        if occurs_at(c, mark, j) {
            let w = c.subrange(j, j + 7);
            assert(w[0] == c[j] && w[1] == c[j + 1]);
            assert(c[j] == head[j] && c[j + 1] == head[j + 1]);
        }
    }
    let rest = c.skip(16);
    assert(rest =~= d + behind_port(tls));
    assert forall|j: int| 0 <= j < d.len() implies is_digit(#[trigger] rest[j]) by {
        assert(rest[j] == d[j]);
    }
    assert(rest[d.len() as int] == behind_port(tls)[0]);
    lemma_lead(rest, |c: char| is_digit(c), d.len() as int);
    assert(leading_digits(rest) =~= d);
}

/// A client reads from what a server advertises exactly the port of its fast lane, or that there
/// is none.
pub proof fn advertised_port_is_read_back(fast: Option<FastLane>)
    ensures
        advertised(capabilities_text(fast)) == (match fast {
            Some(f) => Some(f.port as nat),
            None => None,
        }),
{
    let c = capabilities_text(fast);
    match fast {
        None => {
            reveal_strlit("\"fast\":null");
            reveal_strlit("{\"fast\":null}");
            let null = "\"fast\":null"@;
            assert forall|i: int| 0 <= i < c.len() implies !is_space(#[trigger] c[i]) by {}
            lemma_compact_solid(c);
            lemma_find_text(c, null);
            assert(c.subrange(1, 12) =~= null);
            assert(occurs_at(c, null, 1));
        },
        Some(f) => {
            let d = dec(f.port as nat);
            lemma_dec_round_trip(f.port as nat);
            assert(c =~= with_port(d, f.tls));
            assert forall|i: int| 0 <= i < d.len() implies is_digit(#[trigger] d[i]) by {}
            lemma_port_is_solid(d, f.tls);
            lemma_port_is_not_null(d, f.tls);
            lemma_port_is_found(d, f.tls);
        },
    }
}

/// The headers that carry the pairing token open a session on the server that issued it.
pub proof fn token_headers_open_a_session(headers: Seq<Header>, token: Seq<char>)
    requires
        is_token(token),
        headers.len() == 1,
        header_texts(headers) == token_headers(Some(token)),
    ensures
        has_session(headers, token),
{
    assert(header_texts(headers)[0] == (headers[0].name@, headers[0].value@));
    assert(headers[0].name@ == "Cookie"@);
    assert(same_ignoring_case(headers[0].name@, "Cookie"@));
    assert(header_of(headers, "Cookie"@) == Some(headers[0].value@));
    crate::auth::cookie_is_read_back(token);
}

/// The temporary file after a response: what it held before the point where writing starts, then
/// what came of the body, up to its announced length.
pub open spec fn part_after(held: Seq<u8>, start: nat, len: nat, body: Seq<u8>) -> Seq<u8> {
    held.take(start as int) + (if body.len() < len {
        body
    } else {
        body.take(len as int)
    })
}

/// A download over HTTP ends with the whole file or fails. The temporary file has the planned size
/// exactly if the body was not cut short; a resumed response was then appended to what was held,
/// and any other one has replaced it.
pub proof fn downloads_are_whole_or_fail(
    status: u16,
    content_length: Option<u64>,
    held: Seq<u8>,
    body: Seq<u8>,
)
    ensures
        match plan_of(status, content_length, held.len()) {
            Ok((start, len)) => {
                let part = part_after(held, start, len, body);
                &&& content_length matches Some(n) && n == len
                &&& part.len() == start + len <==> body.len() >= len
                &&& body.len() < len ==> part.len() < start + len
                &&& status == 206 && body.len() == len ==> start == held.len() && part == held
                    + body
                &&& status == 200 && body.len() == len ==> start == 0 && part == body
            },
            Err(e) => (status != 200 && status != 206) || content_length is None,
        },
{
    if let Ok((start, len)) = plan_of(status, content_length, held.len()) {
        let part = part_after(held, start, len, body);
        if body.len() == len {
            assert(body.take(len as int) =~= body);
            if status == 206 {
                assert(part =~= held + body);
            } else {
                assert(part =~= body);
            }
        }
    }
}

proof fn lemma_trim_end(m: Seq<char>, b: Seq<char>)
    requires
        m.len() > 0,
        !is_space(m.last()),
        all_space(b),
    ensures
        trim_end(m + b) == m,
{
    let p = |c: char| is_space(c);
    let s = m + b;
    lemma_drop_tail(s, p);
    let n = drop_tail(s, p).len() as int;
    if n > m.len() {
        assert(drop_tail(s, p).last() == b[n - 1 - m.len()]);
    } else if n < m.len() {
        assert(p(s[m.len() - 1]));
        assert(s[m.len() - 1] == m.last());
    }
    assert(s.take(n) =~= m);
}

/// A header line is its name, a colon and its value, with or without white space around the value;
/// the value may hold colons of its own.
#[verifier::rlimit(40)]
pub proof fn header_lines_are_read_back(
    name: Seq<char>,
    a: Seq<char>,
    value: Seq<char>,
    b: Seq<char>,
)
    requires
        is_solid_text(name),
        !name.contains(':'),
        value.len() == 0 || is_solid_text(value),
        all_space(a),
        all_space(b),
    ensures
        header_line(name + seq![':'] + a + value + b) == Some((name, value)),
{
    let line = name + seq![':'] + a + value + b;
    let e = Seq::<char>::empty();
    let back = if value.len() == 0 {
        e
    } else {
        a + value
    };
    let m = name + seq![':'] + back;
    if value.len() == 0 {
        assert(m.last() == ':');
        let ab = a + b;
        assert forall|i: int| 0 <= i < ab.len() implies is_space(#[trigger] ab[i]) by {
            if i < a.len() {
                assert(ab[i] == a[i]);
            } else {
                assert(ab[i] == b[i - a.len()]);
            }
        }
        lemma_trim_end(m, ab);
        assert(m + ab =~= line);
    } else {
        assert(m.last() == value.last());
        lemma_trim_end(m, b);
        assert(m + b =~= line);
    }
    let n = name.len() as int;
    assert forall|j: int| 0 <= j < n implies m[j] != ':' by {
        assert(m[j] == name[j]);
        assert(name.contains(name[j]));
    }
    lemma_first_at(m, ':', n);
    assert(m.take(n) =~= name);
    assert(m.skip(n + 1) =~= back);
    trimming_gives_the_middle(e, name, e);
    assert(e + name + e =~= name);
    if value.len() == 0 {
        trimming_gives_the_middle(e, value, e);
        assert(e + value + e =~= back);
        assert(value =~= e);
    } else {
        trimming_gives_the_middle(a, value, e);
        assert(a + value + e =~= back);
    }
}

/// The length that a response tells is read back, whatever the case of the header's letters, and no
/// other header changes it.
pub proof fn lengths_are_read_back(now: Option<u64>, name: Seq<char>, n: u64, other: Seq<char>, value: Seq<char>)
    requires
        same_ignoring_case(name, "content-length"@),
        is_solid_text(name),
        !name.contains(':'),
        is_solid_text(other),
        !other.contains(':'),
        !same_ignoring_case(other, "content-length"@),
        value.len() == 0 || is_solid_text(value),
    ensures
        length_after(now, name + seq![':'] + seq![' '] + dec(n as nat) + seq!['\r', '\n']) == Some(n),
        length_after(now, other + seq![':'] + seq![' '] + value + seq!['\r', '\n']) == now,
{
    let d = dec(n as nat);
    lemma_dec_round_trip(n as nat);
    dec_is_read_back(n as nat, u64::MAX as nat);
    assert(is_digit(d[0]) && is_digit(d[d.len() - 1]));
    header_lines_are_read_back(name, seq![' '], d, seq!['\r', '\n']);
    header_lines_are_read_back(other, seq![' '], value, seq!['\r', '\n']);
}

/// The status is the number behind the protocol version, whatever follows it.
pub proof fn status_lines_are_read_back(version: Seq<char>, n: nat, rest: Seq<char>)
    requires
        version.len() > 0,
        forall|i: int| 0 <= i < version.len() ==> !is_space(#[trigger] version[i]),
        n <= 65535,
        rest.len() > 0 ==> is_space(rest[0]),
    ensures
        status_of(version + seq![' '] + dec(n) + rest) == Some(n),
{
    let e = Seq::<char>::empty();
    let d = dec(n);
    let tail = seq![' '] + d + rest;
    lemma_dec_round_trip(n);
    dec_is_read_back(n, u16::MAX as nat);
    assert forall|i: int| 0 <= i < d.len() implies !is_space(#[trigger] d[i]) by {
        assert(is_digit(d[i]));
    }
    words_are_found(e, version, tail);
    assert(e + version + tail =~= version + seq![' '] + d + rest);
    words_are_found(seq![' '], d, rest);
}

/// The lines of a request.
pub open spec fn request_lines(
    method: Seq<char>,
    target: Seq<char>,
    host: Seq<char>,
    extra: Seq<(Seq<char>, Seq<char>)>,
) -> Seq<Seq<char>> {
    seq![
        method + seq![' '] + target + seq![' '] + "HTTP/1.1"@,
        "Host: "@ + host,
        "Connection: close"@,
    ] + extra.map_values(|h: (Seq<char>, Seq<char>)| h.0 + seq![':', ' '] + h.1) + seq![
        Seq::<char>::empty(),
    ]
}

proof fn lemma_header_lines(l: Seq<(Seq<char>, Seq<char>)>)
    ensures
        header_lines(l) == unlines(
            l.map_values(|h: (Seq<char>, Seq<char>)| h.0 + seq![':', ' '] + h.1 + seq!['\r']),
        ),
    decreases l.len(),
{
    reveal_strlit(": ");
    reveal_strlit("\r\n");
    let f = |h: (Seq<char>, Seq<char>)| h.0 + seq![':', ' '] + h.1 + seq!['\r'];
    if l.len() > 0 {
        lemma_header_lines(l.drop_last());
        let m = l.map_values(f);
        assert(m.drop_last() =~= l.drop_last().map_values(f));
        assert(m.last() == f(l.last()));
        assert(header_lines(l) =~= unlines(m));
    }
}

proof fn lemma_unlines_add(a: Seq<Seq<char>>, b: Seq<Seq<char>>)
    ensures
        unlines(a + b) == unlines(a) + unlines(b),
    decreases b.len(),
{
    if b.len() == 0 {
        assert(a + b =~= a);
        assert(unlines(a) + unlines(b) =~= unlines(a));
    } else {
        lemma_unlines_add(a, b.drop_last());
        assert((a + b).drop_last() =~= a + b.drop_last());
        assert((a + b).last() == b.last());
        assert(unlines(a + b) =~= unlines(a) + unlines(b));
    }
}

/// A request is its lines, each ended by a carriage return and a newline, the last one empty.
#[verifier::rlimit(40)]
pub proof fn requests_are_lines(
    method: Seq<char>,
    target: Seq<char>,
    host: Seq<char>,
    extra: Seq<(Seq<char>, Seq<char>)>,
)
    ensures
        request_text(method, target, host, extra) == unlines(
            request_lines(method, target, host, extra).map_values(|l: Seq<char>| l + seq!['\r']),
        ),
{
    reveal_strlit(" ");
    reveal_strlit(" HTTP/1.1\r\nHost: ");
    reveal_strlit("HTTP/1.1");
    reveal_strlit("Host: ");
    reveal_strlit("Connection: close");
    reveal_strlit("\r\nConnection: close\r\n");
    reveal_strlit("\r\n");
    let cr = |l: Seq<char>| l + seq!['\r'];
    let e = Seq::<char>::empty();
    let first = method + seq![' '] + target + seq![' '] + "HTTP/1.1"@;
    let second = "Host: "@ + host;
    let third = "Connection: close"@;
    let mid = extra.map_values(|h: (Seq<char>, Seq<char>)| h.0 + seq![':', ' '] + h.1 + seq!['\r']);
    let all = request_lines(method, target, host, extra).map_values(cr);
    let head = seq![cr(first), cr(second), cr(third)];
    let tail = seq![cr(e)];
    assert(all =~= head + mid + tail);
    lemma_unlines_add(head + mid, tail);
    lemma_unlines_add(head, mid);
    lemma_header_lines(extra);
    let none = Seq::<Seq<char>>::empty();
    assert(tail.drop_last() =~= none);
    assert(unlines(tail) =~= "\r\n"@) by {
        assert(unlines(none) =~= e);
    }
    let two = seq![cr(first), cr(second)];
    let one = seq![cr(first)];
    assert(head.drop_last() =~= two && two.drop_last() =~= one && one.drop_last() =~= none);
    assert(unlines(one) =~= cr(first) + seq!['\n']);
    assert(unlines(two) =~= cr(first) + seq!['\n'] + cr(second) + seq!['\n']);
    assert(unlines(head) =~= cr(first) + seq!['\n'] + cr(second) + seq!['\n'] + cr(third) + seq!['\n']);
    assert(" HTTP/1.1\r\nHost: "@ =~= seq![' '] + "HTTP/1.1"@ + seq!['\r', '\n'] + "Host: "@);
    assert("\r\nConnection: close\r\n"@ =~= seq!['\r', '\n'] + third + seq!['\r', '\n']);
    assert(request_text(method, target, host, extra) =~= unlines(head) + header_lines(extra) + "\r\n"@);
}

/// White space in the capabilities does not matter, wherever it stands.
pub proof fn compacting_leaves_out_white_space(s: Seq<char>)
    ensures
        compact(s) == s.filter(|c: char| !is_space(c)),
    decreases s.len(),
{
    reveal(Seq::filter);
    if s.len() > 0 {
        compacting_leaves_out_white_space(s.drop_last());
    }
}

/// A body is written if and only if the status is that of a whole or a partial file and its length
/// is known; a partial one goes behind what is on disk, a whole one replaces it.
pub proof fn only_files_are_written(status: u16, length: Option<u64>, on_disk: nat)
    ensures
        plan_of(status, length, on_disk) is Ok <==> (status == 200 || status == 206) && length is Some,
        plan_of(status, length, on_disk) matches Ok(p) ==> p.1 == length->0 && p.0 == (if status
            == 206 {
            on_disk
        } else {
            0
        }),
        status != 200 && status != 206 ==> plan_of(status, length, on_disk) == Err::<
            (nat, nat),
            HttpError,
        >(HttpError::Status(status)),
{
}

/// How many bytes came, and how many should have, can be read back from the text of a failure.
pub proof fn failures_tell_the_bytes(got: u64, total: u64)
    ensures
        ({
            let text = http_error_text(HttpError::Incomplete(got, total));
            let front = "HTTP download incomplete: "@.len() as int;
            let inner = text.subrange(front, text.len() - " bytes"@.len());
            &&& split_once(inner, '/') matches Some((a, b)) && parse_dec(a, u64::MAX as nat) == Some(
                got as nat,
            ) && parse_dec(b, u64::MAX as nat) == Some(total as nat)
        }),
{
    reveal_strlit("HTTP download incomplete: ");
    reveal_strlit("/");
    reveal_strlit(" bytes");
    let text = http_error_text(HttpError::Incomplete(got, total));
    let front = "HTTP download incomplete: "@.len() as int;
    let inner = text.subrange(front, text.len() - " bytes"@.len());
    assert("/"@ =~= seq!['/']);
    fractions_are_read_back(got as nat, total as nat);
    dec_is_read_back(got as nat, u64::MAX as nat);
    dec_is_read_back(total as nat, u64::MAX as nat);
    assert(inner =~= dec(got as nat) + seq!['/'] + dec(total as nat));
}

/// A length that is no number takes back one that was told before.
pub proof fn unreadable_lengths_count_as_none(now: Option<u64>, name: Seq<char>, value: Seq<char>)
    requires
        same_ignoring_case(name, "content-length"@),
        is_solid_text(name),
        !name.contains(':'),
        value.len() == 0 || is_solid_text(value),
        parse_dec(value, u64::MAX as nat) is None,
    ensures
        length_after(now, name + seq![':'] + seq![' '] + value + seq!['\r', '\n']) is None,
{
    header_lines_are_read_back(name, seq![' '], value, seq!['\r', '\n']);
}

/// A line without a colon is no header.
pub proof fn lines_without_a_colon_are_no_headers(line: Seq<char>)
    requires
        !line.contains(':'),
    ensures
        header_line(line) is None,
{
    let p = |c: char| is_space(c);
    let s = trim_end(line);
    lemma_drop_tail(line, p);
    assert forall|j: int| 0 <= j < s.len() implies s[j] != ':' by {
        assert(s[j] == line[j]);
        assert(line.contains(line[j]));
    }
    lemma_first_at(s, ':', s.len() as int);
}

} // verus!
