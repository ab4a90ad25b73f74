//! Download links, and where a downloaded file goes.

use vstd::prelude::*;
use vstd::string::*;
use crate::num::{dec, dec_is_read_back, is_digit, lemma_dec_round_trip, parse_dec, parse_uint};
use crate::sync::{last_at, lemma_last_at};
use crate::text::{
    begins, chars_of, cut, find_char, first_at, join, lemma_first_at, lemma_split_join, part, pieces,
    rows, split, split_once, starts_with, string_of,
};
use crate::url::{
    are_pairs, decodable, decode_percent, is_decodable, link_text, link_texts_are_decoded,
    link_texts_stay_whole, opt_str, opt_text, param, percent_decoded, queries_are_read_back,
    query_param, query_text, split_query, url_parts, urls_are_cut_at_the_question_mark,
};

verus! {

/// A download link, broken into its parts.
pub struct Target {
    pub host: String,
    pub port: u16,
    /// The file's path below the shared folder, still percent-encoded.
    pub raw_path: String,
    /// The same path, decoded.
    pub file_path: String,
    /// The pairing token, if the link carries one.
    pub token: Option<String>,
    /// The name to save the file under.
    pub filename: String,
}

/// Why a link cannot be used.
#[derive(Clone, Copy, Debug, PartialEq, Eq, Structural)]
pub enum LinkError {
    /// It is an `https` link; only plain HTTP is spoken.
    Https,
    /// It is no `http` link.
    NotHttp,
    /// It names no file.
    NoPath,
}

/// Host and port of an authority. The port is 80 when there is none, or none that can be read.
pub open spec fn host_and_port(a: Seq<char>) -> (Seq<char>, nat) {
    if a.len() > 0 && a[0] == '[' {
        let after = a.skip(1);
        match split_once(after, ']') {
            Some((h, tail)) => (h, port_or_80(without_colons(tail))),
            None => (after, 80),
        }
    } else {
        let i = last_at(a, ':');
        if i < 0 {
            (a, 80)
        } else {
            (a.take(i), port_or_80(a.skip(i + 1)))
        }
    }
}

/// A port, or 80 if it is none.
pub open spec fn port_or_80(s: Seq<char>) -> nat {
    match parse_dec(s, u16::MAX as nat) {
        Some(p) => p,
        None => 80,
    }
}

/// A text without the colons it begins with.
pub open spec fn without_colons(s: Seq<char>) -> Seq<char>
    decreases s.len(),
{
    if s.len() > 0 && s[0] == ':' {
        without_colons(s.skip(1))
    } else {
        s
    }
}

fn read_port(s: &[char]) -> (p: u16)
    ensures
        p == port_or_80(s@),
{
    match parse_uint(s, 65535) {
        Some(n) => n as u16,
        None => 80,
    }
}

/// Split `host`, `host:port` or `[ipv6]:port`.
pub fn split_authority(authority: &str) -> (r: (String, u16))
    ensures
        (r.0@, r.1 as nat) == host_and_port(authority@),
{
    let a = chars_of(authority);
    if a.len() > 0 && a[0] == '[' {
        let after = part(&a, 1, a.len());
        assert(after@ =~= a@.skip(1));
        match cut(&after, ']') {
            Some((h, tail)) => {
                let mut i: usize = 0;
                assert(tail@.skip(0) =~= tail@);
                while i < tail.len() && tail[i] == ':'
                    invariant
                        i <= tail@.len(),
                        without_colons(tail@) == without_colons(tail@.skip(i as int)),
                    decreases tail@.len() - i,
                {
                    assert(tail@.skip(i as int).skip(1) =~= tail@.skip(i + 1));
                    i = i + 1;
                }
                let p = part(&tail, i, tail.len());
                assert(p@ =~= tail@.skip(i as int));
                (string_of(&h), read_port(&p))
            },
            None => (string_of(&after), 80),
        }
    } else {
        let mut i: usize = a.len();
        while i > 0 && a[i - 1] != ':'
            invariant
                i <= a@.len(),
                forall|j: int| i <= j < a@.len() ==> a@[j] != ':',
            decreases i,
        {
            i = i - 1;
        }
        proof {
            lemma_last_at(a@, ':', i - 1);
        }
        if i == 0 {
            return (string_of(&a), 80);
        }
        let p = part(&a, i, a.len());
        assert(p@ =~= a@.skip(i as int));
        let h = part(&a, 0, i - 1);
        assert(h@ =~= a@.take(i - 1));
        (string_of(&h), read_port(&p))
    }
}

/// The last segment of a path that is not empty, or `download`.
pub open spec fn leaf(segs: Seq<Seq<char>>) -> Seq<char>
    decreases segs.len(),
{
    if segs.len() == 0 {
        "download"@
    } else if segs.last().len() > 0 {
        segs.last()
    } else {
        leaf(segs.drop_last())
    }
}

fn leaf_name(path: &str) -> (r: String)
    ensures
        r@ == leaf(split(path@, '/')),
{
    let all = pieces(&chars_of(path), '/');
    let mut i: usize = all.len();
    assert(rows(all@).take(i as int) =~= rows(all@));
    while i > 0
        invariant
            i <= all@.len(),
            rows(all@) == split(path@, '/'),
            leaf(rows(all@)) == leaf(rows(all@).take(i as int)),
        decreases i,
    {
        let ghost now = rows(all@).take(i as int);
        i = i - 1;
        assert(now.last() == all@[i as int]@);
        assert(now.drop_last() =~= rows(all@).take(i as int));
        if all[i].len() > 0 {
            return string_of(&all[i]);
        }
    }
    "download".to_owned()
}

/// What follows the scheme of an `http` link.
pub open spec fn after_http(url: Seq<char>) -> Seq<char> {
    url.skip("http://"@.len() as int)
}

/// The authority of a link, and its path with the query.
pub open spec fn link_parts(rest: Seq<char>) -> (Seq<char>, Seq<char>) {
    let i = first_at(rest, '/');
    if i < rest.len() {
        (rest.take(i), rest.skip(i))
    } else {
        (rest, seq!['/'])
    }
}

/// The query of a link.
pub open spec fn link_query(url: Seq<char>) -> Option<Seq<char>> {
    url_parts(link_parts(after_http(url)).1).1
}

/// Whether the parameters of a link that are read can be decoded.
pub open spec fn link_decodable(url: Seq<char>) -> bool {
    begins(url, "http://"@) && param(link_query(url), "path"@) is Some ==> {
        &&& decodable(param(link_query(url), "path"@)->0)
        &&& param(link_query(url), "k"@) matches Some(k) ==> decodable(k)
    }
}

/// Whether the parameters of a link that are read can be decoded.
pub fn is_link_decodable(url: &str) -> (r: bool)
    ensures
        r == link_decodable(url@),
{
    let u = chars_of(url);
    let http = chars_of("http://");
    if !starts_with(&u, &http) {
        return true;
    }
    let query = query_of(&u, &http);
    match opt_param(&query, "path") {
        Some(p) => is_decodable(p.as_str()) && (match opt_param(&query, "k") {
            Some(k) => is_decodable(k.as_str()),
            None => true,
        }),
        None => true,
    }
}

fn opt_param(query: &Option<String>, key: &str) -> (r: Option<String>)
    ensures
        opt_text(r) == param(opt_text(*query), key@),
{
    match query {
        Some(q) => query_param(Some(q.as_str()), key),
        None => None,
    }
}

fn split_link(u: &[char], http: &[char]) -> (r: (Vec<char>, Vec<char>))
    requires
        begins(u@, http@),
        http@ == "http://"@,
    ensures
        (r.0@, r.1@) == link_parts(after_http(u@)),
{
    let rest = part(u, http.len(), u.len());
    assert(rest@ =~= after_http(u@));
    let i: usize = find_char(&rest, '/');
    if i < rest.len() {
        let a = part(&rest, 0, i);
        let b = part(&rest, i, rest.len());
        assert(a@ =~= rest@.take(i as int));
        assert(b@ =~= rest@.skip(i as int));
        (a, b)
    } else {
        let mut slash: Vec<char> = Vec::new();
        slash.push('/');
        assert(slash@ =~= seq!['/']);
        (rest, slash)
    }
}

fn query_of(u: &[char], http: &[char]) -> (r: Option<String>)
    requires
        begins(u@, http@),
        http@ == "http://"@,
    ensures
        opt_text(r) == link_query(u@),
{
    let (_, pathq) = split_link(u, http);
    let (_, query) = split_query(string_of(&pathq).as_str());
    query
}

/// Parse a download link `http://host[:port]/...?path=<file>`, with an optional `&k=<token>`.
pub fn parse_target(url: &str) -> (r: Result<Target, LinkError>)
    requires
        link_decodable(url@),
    ensures
        match r {
            Ok(t) => {
                let query = link_query(url@);
                &&& begins(url@, "http://"@)
                &&& (t.host@, t.port as nat) == host_and_port(link_parts(after_http(url@)).0)
                &&& param(query, "path"@) == Some(t.raw_path@)
                &&& t.file_path@ == percent_decoded(t.raw_path@)
                &&& opt_text(t.token) == (match param(query, "k"@) {
                    Some(k) => Some(percent_decoded(k)),
                    None => None,
                })
                &&& t.filename@ == leaf(split(t.file_path@, '/'))
            },
            Err(LinkError::Https) => begins(url@, "https://"@),
            Err(LinkError::NotHttp) => !begins(url@, "http://"@) && !begins(url@, "https://"@),
            Err(LinkError::NoPath) => begins(url@, "http://"@) && param(
                link_query(url@),
                "path"@,
            ) is None,
        },
        begins(url@, "http://"@) && param(link_query(url@), "path"@) is Some ==> r is Ok,
{
    let u = chars_of(url);
    let http = chars_of("http://");
    if !starts_with(&u, &http) {
        if starts_with(&u, &chars_of("https://")) {
            return Err(LinkError::Https);
        }
        return Err(LinkError::NotHttp);
    }
    let (authority, pathq) = split_link(&u, &http);
    let (host, port) = split_authority(string_of(&authority).as_str());
    let (_, query) = split_query(string_of(&pathq).as_str());
    match opt_param(&query, "path") {
        None => Err(LinkError::NoPath),
        Some(raw_path) => {
            let file_path = decode_percent(raw_path.as_str());
            let token = match opt_param(&query, "k") {
                Some(k) => Some(decode_percent(k.as_str())),
                None => None,
            };
            let filename = leaf_name(file_path.as_str());
            Ok(Target { host, port, raw_path, file_path, token, filename })
        },
    }
}

impl LinkError {
    /// The text of the error for a given link.
    pub fn message(&self, url: &str) -> (r: String)
        ensures
            r@ == (match *self {
                LinkError::Https =>
                    "`zap get` speaks plain HTTP only for now; open this https link in a browser instead"@,
                LinkError::NotHttp => "expected an http:// URL, got: "@ + url@,
                LinkError::NoPath => "the URL must include ?path=<file> (a Zap download link)"@,
            }),
    {
        let mut r = String::new();
        match *self {
            LinkError::Https => {
                r.append(
                    "`zap get` speaks plain HTTP only for now; open this https link in a browser instead",
                );
            },
            LinkError::NotHttp => {
                r.append("expected an http:// URL, got: ");
                r.append(url);
            },
            LinkError::NoPath => {
                r.append("the URL must include ?path=<file> (a Zap download link)");
            },
        }
        assert(r@ =~= (match *self {
            LinkError::Https =>
                "`zap get` speaks plain HTTP only for now; open this https link in a browser instead"@,
            LinkError::NotHttp => "expected an http:// URL, got: "@ + url@,
            LinkError::NoPath => "the URL must include ?path=<file> (a Zap download link)"@,
        }));
        r
    }
}

// ---- Destination ----

/// Where a downloaded file goes.
pub struct Destination {
    /// The folder.
    pub folder: String,
    /// The name inside it; none when the destination itself is the file.
    pub name: Option<String>,
}

/// Decide where a file goes. An empty destination or an existing folder takes the file under its
/// own name; otherwise the destination is the file, in its parent folder if that has a name.
pub fn resolve_dest(dest: &str, is_dir: bool, parent: Option<&str>, filename: &str) -> (r:
    Destination)
    ensures
        if dest@.len() == 0 || is_dir {
            &&& r.folder@ == (if dest@.len() == 0 {
                "."@
            } else {
                dest@
            })
            &&& opt_text(r.name) == Some(filename@)
        } else {
            &&& r.folder@ == (match opt_str(parent) {
                Some(p) => if p.len() > 0 {
                    p
                } else {
                    "."@
                },
                None => "."@,
            })
            &&& r.name is None
        },
{
    if dest.is_empty() {
        Destination { folder: ".".to_owned(), name: Some(filename.to_owned()) }
    } else if is_dir {
        Destination { folder: dest.to_owned(), name: Some(filename.to_owned()) }
    } else {
        let folder = match parent {
            Some(p) => if p.is_empty() {
                ".".to_owned()
            } else {
                p.to_owned()
            },
            None => ".".to_owned(),
        };
        Destination { folder, name: None }
    }
}

// ---- Laws ----

proof fn lemma_leaf(segs: Seq<Seq<char>>, i: int)
    requires
        -1 <= i < segs.len(),
        i >= 0 ==> segs[i].len() > 0,
        forall|j: int| i < j < segs.len() ==> (#[trigger] segs[j]).len() == 0,
    ensures
        leaf(segs) == (if i >= 0 {
            segs[i]
        } else {
            "download"@
        }),
    decreases segs.len(),
{
    if segs.len() > 0 && i < segs.len() - 1 {
        assert(segs[segs.len() - 1].len() == 0);
        let rest = segs.drop_last();
        assert forall|j: int| i < j < rest.len() implies (#[trigger] rest[j]).len() == 0 by {
            assert(rest[j] == segs[j]);
        }
        lemma_leaf(rest, i);
    }
}

/// A file is saved under the last name in its path, whole; slashes behind it do not matter, and a
/// path without a name gives `download`.
pub proof fn files_are_saved_under_their_name(segs: Seq<Seq<char>>, i: int)
    requires
        segs.len() > 0,
        -1 <= i < segs.len(),
        forall|j: int| 0 <= j < segs.len() ==> !(#[trigger] segs[j]).contains('/'),
        i >= 0 ==> segs[i].len() > 0,
        forall|j: int| i < j < segs.len() ==> (#[trigger] segs[j]).len() == 0,
    ensures
        leaf(split(join(segs, seq!['/']), '/')) == (if i >= 0 {
            segs[i]
        } else {
            "download"@
        }),
{
    lemma_split_join(segs, '/');
    lemma_leaf(segs, i);
}

/// Host and port are read back from an authority: from a plain host, from a host in brackets, and
/// without a port as port 80.
pub proof fn authorities_are_read_back(host: Seq<char>, port: nat)
    requires
        port <= 65535,
        !host.contains(':'),
        !host.contains('['),
    ensures
        host_and_port(host + seq![':'] + dec(port)) == (host, port),
        host_and_port(host) == (host, 80nat),
{
    let a = host + seq![':'] + dec(port);
    let n = host.len() as int;
    let d = dec(port);
    lemma_dec_round_trip(port);
    dec_is_read_back(port, u16::MAX as nat);
    assert forall|j: int| n < j < a.len() implies a[j] != ':' by {
        assert(a[j] == d[j - n - 1]);
        assert(is_digit(d[j - n - 1]));
    }
    lemma_last_at(a, ':', n);
    assert(a.take(n) =~= host);
    assert(a.skip(n + 1) =~= d);
    assert forall|j: int| -1 < j < host.len() implies host[j] != ':' by {
        assert(host.contains(host[j]));
    }
    lemma_last_at(host, ':', -1);
    if n > 0 {
        assert(a[0] == host[0]);
        assert(host.contains(host[0]));
    }
}

/// A host in brackets may hold colons of its own.
pub proof fn bracketed_hosts_are_read_back(host: Seq<char>, port: nat)
    requires
        port <= 65535,
        !host.contains(']'),
    ensures
        host_and_port(seq!['['] + host + seq![']', ':'] + dec(port)) == (host, port),
        host_and_port(seq!['['] + host + seq![']']) == (host, 80nat),
{
    let d = dec(port);
    lemma_dec_round_trip(port);
    dec_is_read_back(port, u16::MAX as nat);
    let n = host.len() as int;
    let a = seq!['['] + host + seq![']', ':'] + d;
    let after = a.skip(1);
    assert(after =~= host + seq![']', ':'] + d);
    let b = seq!['['] + host + seq![']'];
    let behind = b.skip(1);
    assert(behind =~= host + seq![']']);
    assert forall|j: int| 0 <= j < n implies after[j] != ']' && behind[j] != ']' by {
        assert(after[j] == host[j] && behind[j] == host[j]);
        assert(host.contains(host[j]));
    }
    lemma_first_at(after, ']', n);
    lemma_first_at(behind, ']', n);
    assert(after.take(n) =~= host);
    assert(behind.take(n) =~= host);
    let tail = after.skip(n + 1);
    assert(tail =~= seq![':'] + d);
    assert(tail.skip(1) =~= d);
    assert(is_digit(d[0]));
    assert(without_colons(d) == d);
    assert(without_colons(tail) == d);
    let e = Seq::<char>::empty();
    assert(behind.skip(n + 1) =~= e);
    assert(without_colons(e) == e);
}

/// The text of a download link of a server.
pub open spec fn download_link(
    authority: Seq<char>,
    path: Seq<char>,
    pairs: Seq<(Seq<char>, Seq<char>)>,
) -> Seq<char> {
    "http://"@ + authority + path + seq!['?'] + query_text(pairs)
}

/// A download link is understood: its authority, the file's path and the pairing token come out as
/// they went in, whatever characters they hold.
#[verifier::rlimit(40)]
pub proof fn download_links_are_understood(
    authority: Seq<char>,
    path: Seq<char>,
    file: Seq<char>,
    token: Seq<char>,
)
    requires
        !authority.contains('/'),
        path.len() > 0,
        path[0] == '/',
        !path.contains('?'),
    ensures
        ({
            let named = seq![("path"@, link_text(file))];
            let url = download_link(authority, path, named);
            let paired = download_link(authority, path, named.push(("k"@, link_text(token))));
            &&& begins(url, "http://"@) && begins(paired, "http://"@)
            &&& link_parts(after_http(url)).0 == authority
            &&& link_parts(after_http(paired)).0 == authority
            &&& link_decodable(url) && link_decodable(paired)
            &&& param(link_query(url), "path"@) == Some(link_text(file))
            &&& param(link_query(paired), "path"@) == Some(link_text(file))
            &&& percent_decoded(link_text(file)) == file
            &&& param(link_query(url), "k"@) is None
            &&& param(link_query(paired), "k"@) == Some(link_text(token))
            &&& percent_decoded(link_text(token)) == token
        }),
{
    reveal_strlit("path");
    reveal_strlit("k");
    assert("path"@.len() == 4 && "k"@.len() == 1);
    assert(!"path"@.contains('=') && !"path"@.contains('&'));
    assert(!"k"@.contains('=') && !"k"@.contains('&'));
    link_texts_stay_whole(file);
    link_texts_are_decoded(file);
    link_texts_stay_whole(token);
    link_texts_are_decoded(token);
    let named = seq![("path"@, link_text(file))];
    let both = named.push(("k"@, link_text(token)));
    assert(named[0] == ("path"@, link_text(file)));
    assert(both[0] == named[0] && both[1] == ("k"@, link_text(token)));
    assert(are_pairs(named) && are_pairs(both));
    lemma_link_cut(authority, path, named);
    lemma_link_cut(authority, path, both);
    queries_are_read_back(named, "path"@, 0);
    queries_are_read_back(named, "k"@, 1);
    queries_are_read_back(both, "path"@, 0);
    queries_are_read_back(both, "k"@, 1);
}

proof fn lemma_link_cut(
    authority: Seq<char>,
    path: Seq<char>,
    pairs: Seq<(Seq<char>, Seq<char>)>,
)
    requires
        !authority.contains('/'),
        path.len() > 0,
        path[0] == '/',
        !path.contains('?'),
    ensures
        ({
            let url = download_link(authority, path, pairs);
            &&& begins(url, "http://"@)
            &&& link_parts(after_http(url)).0 == authority
            &&& link_query(url) == Some(query_text(pairs))
        }),
{
    let h = "http://"@;
    let q = query_text(pairs);
    let url = download_link(authority, path, pairs);
    assert(url.subrange(0, h.len() as int) =~= h);
    let rest = after_http(url);
    let n = authority.len() as int;
    assert(rest =~= authority + path + seq!['?'] + q);
    assert forall|j: int| 0 <= j < n implies rest[j] != '/' by {
        assert(rest[j] == authority[j]);
        assert(authority.contains(authority[j]));
    }
    assert(rest[n] == path[0]);
    lemma_first_at(rest, '/', n);
    assert(rest.take(n) =~= authority);
    assert(rest.skip(n) =~= path + seq!['?'] + q);
    urls_are_cut_at_the_question_mark(path, q);
}

/// A port that is no number counts as none.
pub proof fn unreadable_ports_are_80(host: Seq<char>, junk: Seq<char>)
    requires
        !host.contains('['),
        !junk.contains(':'),
        parse_dec(junk, 65535) is None,
    ensures
        host_and_port(host + seq![':'] + junk) == (host, 80nat),
{
    let a = host + seq![':'] + junk;
    let n = host.len() as int;
    assert forall|j: int| n < j < a.len() implies a[j] != ':' by {
        assert(a[j] == junk[j - n - 1]);
        assert(junk.contains(junk[j - n - 1]));
    }
    lemma_last_at(a, ':', n);
    assert(a.take(n) =~= host);
    assert(a.skip(n + 1) =~= junk);
    if n > 0 {
        assert(a[0] == host[0]);
        assert(host.contains(host[0]));
    }
}

} // verus!
