//! Replies to HTTP requests.

use vstd::prelude::*;
use vstd::string::*;
use crate::url::Header;

verus! {

/// A reply: its status, its headers and its text.
pub struct Reply {
    pub status: u16,
    pub headers: Vec<Header>,
    pub body: String,
}

/// The same, as texts.
#[verifier::ext_equal]
pub struct ReplyText {
    pub status: u16,
    pub headers: Seq<(Seq<char>, Seq<char>)>,
    pub body: Seq<char>,
}

/// The names and values of headers.
pub open spec fn header_texts(v: Seq<Header>) -> Seq<(Seq<char>, Seq<char>)> {
    v.map_values(|h: Header| (h.name@, h.value@))
}

impl View for Reply {
    type V = ReplyText;

    open spec fn view(&self) -> ReplyText {
        ReplyText {
            status: self.status,
            headers: header_texts(self.headers@),
            body: self.body@,
        }
    }
}

/// A reply without headers.
pub open spec fn plain(status: u16, body: Seq<char>) -> ReplyText {
    ReplyText { status, headers: Seq::empty(), body }
}

impl ReplyText {
    /// The reply with one more header.
    pub open spec fn with(self, name: Seq<char>, value: Seq<char>) -> ReplyText {
        ReplyText { headers: self.headers.push((name, value)), ..self }
    }
}

impl Reply {
    /// A reply without headers.
    pub fn text(status: u16, body: &str) -> (r: Reply)
        ensures
            r@ == plain(status, body@),
    {
        let r = Reply { status, headers: Vec::new(), body: body.to_owned() };
        assert(r@ =~= plain(status, body@));
        r
    }

    /// The reply with one more header.
    pub fn with_header(self, name: &str, value: &str) -> (r: Reply)
        ensures
            r@ == self@.with(name@, value@),
    {
        let mut headers = self.headers;
        let ghost before = headers@;
        headers.push(Header { name: name.to_owned(), value: value.to_owned() });
        let r = Reply { status: self.status, headers, body: self.body };
        assert(header_texts(headers@) =~= header_texts(before).push((name@, value@)));
        assert(r@ =~= self@.with(name@, value@));
        r
    }
}

// ---- Laws ----

/// A reply is told whole: its status, its headers in order and its body.
pub proof fn replies_are_told_whole(r: Reply, i: int)
    ensures
        r@.status == r.status,
        r@.body == r.body@,
        r@.headers.len() == r.headers@.len(),
        0 <= i < r.headers@.len() ==> r@.headers[i] == (r.headers@[i].name@, r.headers@[i].value@),
{
}

/// One more header goes behind the others, and changes nothing else.
pub proof fn headers_are_added_behind(r: ReplyText, name: Seq<char>, value: Seq<char>)
    ensures
        r.with(name, value).headers == r.headers + seq![(name, value)],
        r.with(name, value).status == r.status,
        r.with(name, value).body == r.body,
{
    assert(r.with(name, value).headers =~= r.headers + seq![(name, value)]);
}

} // verus!
