//! Query strings, cookies and percent-decoding.

use vstd::prelude::*;
use vstd::string::*;
use vstd::utf8::*;
use crate::text::{
    all_space, bytes_text, chars_of, cut, eq_ignore_case, is_space, join, lemma_bytes_text, lemma_first_at,
    lemma_split_join, pieces, rows, same, same_ignoring_case, split, split_once, string_of,
    text_of_bytes, trim, trimmed, trimming_gives_the_middle,
};

verus! {

// ---- Queries ----

/// A URL's path and, behind the first `?`, its query.
pub open spec fn url_parts(url: Seq<char>) -> (Seq<char>, Option<Seq<char>>) {
    match split_once(url, '?') {
        Some((path, query)) => (path, Some(query)),
        None => (url, None),
    }
}

/// Split a URL into its path and its query.
pub fn split_query(url: &str) -> (r: (String, Option<String>))
    ensures
        (r.0@, opt_text(r.1)) == url_parts(url@),
{
    let u = chars_of(url);
    match cut(&u, '?') {
        Some((path, query)) => (string_of(&path), Some(string_of(&query))),
        None => (string_of(&u), None),
    }
}

/// The text of an optional string.
pub open spec fn opt_text(s: Option<String>) -> Option<Seq<char>> {
    match s {
        Some(t) => Some(t@),
        None => None,
    }
}

/// The text of an optional string slice.
pub open spec fn opt_str(s: Option<&str>) -> Option<Seq<char>> {
    match s {
        Some(t) => Some(t@),
        None => None,
    }
}

/// The value of the first `key=value` pair with the given key. A piece without `=` is no pair.
pub open spec fn lookup(pairs: Seq<Seq<char>>, key: Seq<char>) -> Option<Seq<char>>
    decreases pairs.len(),
{
    if pairs.len() == 0 {
        None
    } else {
        match split_once(pairs[0], '=') {
            Some((k, v)) => if k == key {
                Some(v)
            } else {
                lookup(pairs.skip(1), key)
            },
            None => lookup(pairs.skip(1), key),
        }
    }
}

/// The value of a query parameter, still encoded.
pub open spec fn param(query: Option<Seq<char>>, key: Seq<char>) -> Option<Seq<char>> {
    match query {
        Some(q) => lookup(split(q, '&'), key),
        None => None,
    }
}

/// The value of a cookie in a `Cookie` header.
pub open spec fn cookie(cookies: Seq<char>, name: Seq<char>) -> Option<Seq<char>> {
    lookup(split(cookies, ';').map_values(|p: Seq<char>| trim(p)), name)
}

fn find_pair(pairs: &Vec<Vec<char>>, key: &[char]) -> (r: Option<String>)
    ensures
        opt_text(r) == lookup(rows(pairs@), key@),
{
    let mut i: usize = 0;
    assert(rows(pairs@).skip(0) =~= rows(pairs@));
    while i < pairs.len()
        invariant
            i <= pairs@.len(),
            lookup(rows(pairs@), key@) == lookup(rows(pairs@).skip(i as int), key@),
        decreases pairs@.len() - i,
    {
        let ghost rest = rows(pairs@).skip(i as int);
        assert(rest[0] == pairs@[i as int]@);
        assert(rest.skip(1) =~= rows(pairs@).skip(i + 1));
        if let Some((k, v)) = cut(&pairs[i], '=') {
            if same(&k, key) {
                return Some(string_of(&v));
            }
        }
        i = i + 1;
    }
    None
}

/// The value of a query parameter, still encoded.
pub fn query_param(query: Option<&str>, key: &str) -> (r: Option<String>)
    ensures
        opt_text(r) == param(opt_str(query), key@),
{
    match query {
        Some(q) => {
            let q = chars_of(q);
            let key = chars_of(key);
            find_pair(&pieces(&q, '&'), &key)
        },
        None => None,
    }
}

/// The value of a cookie in a `Cookie` header.
pub fn cookie_value(cookies: &str, name: &str) -> (r: Option<String>)
    ensures
        opt_text(r) == cookie(cookies@, name@),
{
    let c = chars_of(cookies);
    let name = chars_of(name);
    let raw = pieces(&c, ';');
    let mut pairs: Vec<Vec<char>> = Vec::new();
    let mut i: usize = 0;
    while i < raw.len()
        invariant
            i <= raw@.len(),
            pairs@.len() == i,
            forall|j: int| 0 <= j < i ==> (#[trigger] pairs@[j])@ == trim(raw@[j]@),
        decreases raw@.len() - i,
    {
        pairs.push(trimmed(&raw[i]));
        i = i + 1;
    }
    assert(rows(pairs@) =~= rows(raw@).map_values(|p: Seq<char>| trim(p)));
    find_pair(&pairs, &name)
}

// ---- Headers ----

/// A header field of a request or a reply.
pub struct Header {
    pub name: String,
    pub value: String,
}

/// The value of the first header with the given name, whatever the case of its letters.
pub open spec fn header_of(headers: Seq<Header>, name: Seq<char>) -> Option<Seq<char>>
    decreases headers.len(),
{
    if headers.len() == 0 {
        None
    } else if same_ignoring_case(headers[0].name@, name) {
        Some(headers[0].value@)
    } else {
        header_of(headers.skip(1), name)
    }
}

/// Find a header's value by name, whatever the case of its letters.
pub fn header_value(headers: &[Header], name: &str) -> (r: Option<String>)
    ensures
        opt_text(r) == header_of(headers@, name@),
{
    let want = chars_of(name);
    let mut i: usize = 0;
    assert(headers@.skip(0) =~= headers@);
    while i < headers.len()
        invariant
            i <= headers@.len(),
            want@ == name@,
            header_of(headers@, name@) == header_of(headers@.skip(i as int), name@),
        decreases headers@.len() - i,
    {
        assert(headers@.skip(i as int).skip(1) =~= headers@.skip(i + 1));
        let have = chars_of(headers[i].name.as_str());
        if eq_ignore_case(&have, &want) {
            return Some(headers[i].value.clone());
        }
        i = i + 1;
    }
    None
}

// ---- Percent-decoding ----

/// Value of a hexadecimal digit byte.
pub open spec fn hex_byte(b: u8) -> Option<u8> {
    if 48 <= b <= 57 {
        Some((b - 48) as u8)
    } else if 97 <= b <= 102 {
        Some((b - 87) as u8)
    } else if 65 <= b <= 70 {
        Some((b - 55) as u8)
    } else {
        None
    }
}

/// The byte that the two bytes after a `%` spell; none unless both are hexadecimal digits.
pub open spec fn escape_byte(a: u8, b: u8) -> Option<u8> {
    match hex_byte(b) {
        Some(lo) => match hex_byte(a) {
            Some(hi) => Some((16 * hi + lo) as u8),
            None => None,
        },
        None => None,
    }
}

/// The bytes that percent-encoded bytes stand for: `%XX` is one byte, `+` is a space, and a `%`
/// that starts no escape stands for itself.
pub open spec fn percent_bytes(b: Seq<u8>) -> Seq<u8>
    decreases b.len(),
{
    if b.len() == 0 {
        Seq::empty()
    } else if b[0] == 37 && b.len() > 2 && escape_byte(b[1], b[2]) is Some {
        seq![escape_byte(b[1], b[2])->0] + percent_bytes(b.skip(3))
    } else if b[0] == 43 {
        seq![32u8] + percent_bytes(b.skip(1))
    } else {
        seq![b[0]] + percent_bytes(b.skip(1))
    }
}

/// Whether the two bytes after each `%` that is looked at end on a character boundary.
pub open spec fn bytes_decodable(b: Seq<u8>) -> bool
    decreases b.len(),
{
    if b.len() == 0 {
        true
    } else if b[0] == 37 && b.len() > 2 {
        &&& b.len() > 3 ==> !is_continuation_byte(b[3])
        &&& bytes_decodable(
            b.skip(
                if escape_byte(b[1], b[2]) is Some {
                    3
                } else {
                    1
                },
            ),
        )
    } else {
        bytes_decodable(b.skip(1))
    }
}

/// Whether a text can be percent-decoded.
pub open spec fn decodable(s: Seq<char>) -> bool {
    bytes_decodable(encode_utf8(s))
}

/// A text without its percent-encoding.
pub open spec fn percent_decoded(s: Seq<char>) -> Seq<char> {
    bytes_text(percent_bytes(encode_utf8(s)))
}

fn nibble(b: u8) -> (r: Option<u8>)
    ensures
        r == hex_byte(b),
        r matches Some(v) ==> v < 16,
{
    if 48 <= b && b <= 57 {
        Some(b - 48)
    } else if 97 <= b && b <= 102 {
        Some(b - 87)
    } else if 65 <= b && b <= 70 {
        Some(b - 55)
    } else {
        None
    }
}

fn escape(a: u8, b: u8) -> (r: Option<u8>)
    ensures
        r == escape_byte(a, b),
{
    match nibble(b) {
        Some(lo) => match nibble(a) {
            Some(hi) => Some(16 * hi + lo),
            None => None,
        },
        None => None,
    }
}

/// Whether a text can be percent-decoded.
pub fn is_decodable(s: &str) -> (r: bool)
    ensures
        r == decodable(s@),
{
    let b = s.as_bytes();
    let len: usize = b.len();
    let mut i: usize = 0;
    assert(b@.skip(0) =~= b@);
    while i < len
        invariant
            len == b@.len(),
            i <= len,
            b@ == encode_utf8(s@),
            bytes_decodable(b@) == bytes_decodable(b@.skip(i as int)),
        decreases len - i,
    {
        let ghost rest = b@.skip(i as int);
        assert(rest.skip(1) =~= b@.skip(i + 1));
        if b[i] == 37 && len - i > 2 {
            assert(rest.skip(3) =~= b@.skip(i + 3));
            if len - i > 3 {
                assert(rest[3] == b@[i + 3]);
                if 0x80 <= b[i + 3] && b[i + 3] <= 0xBF {
                    assert(is_continuation_byte(rest[3]));
                    return false;
                }
                assert(!is_continuation_byte(rest[3]));
            }
            if escape(b[i + 1], b[i + 2]).is_some() {
                i = i + 3;
            } else {
                i = i + 1;
            }
        } else {
            i = i + 1;
        }
    }
    true
}

/// Decode percent-escapes, and `+` as a space.
pub fn decode_percent(s: &str) -> (r: String)
    requires
        decodable(s@),
    ensures
        r@ == percent_decoded(s@),
{
    let b = s.as_bytes();
    let len: usize = b.len();
    let mut out: Vec<u8> = Vec::new();
    let mut i: usize = 0;
    assert(b@.skip(0) =~= b@);
    while i < len
        invariant
            len == b@.len(),
            i <= len,
            out@ + percent_bytes(b@.skip(i as int)) == percent_bytes(b@),
        decreases len - i,
    {
        let ghost rest = b@.skip(i as int);
        let ghost before = out@;
        assert(rest.skip(1) =~= b@.skip(i + 1));
        if b[i] == 37 && len - i > 2 {
            assert(rest.skip(3) =~= b@.skip(i + 3));
            match escape(b[i + 1], b[i + 2]) {
                Some(v) => {
                    out.push(v);
                    i = i + 3;
                },
                None => {
                    out.push(37);
                    i = i + 1;
                },
            }
        } else if b[i] == 43 {
            out.push(32);
            i = i + 1;
        } else {
            out.push(b[i]);
            i = i + 1;
        }
        assert(out@ + percent_bytes(b@.skip(i as int)) =~= before + percent_bytes(rest));
    }
    assert(out@ =~= percent_bytes(b@));
    text_of_bytes(&out)
}

/// Text made of ASCII characters alone can always be percent-decoded.
pub proof fn ascii_is_decodable(s: Seq<char>)
    requires
        is_ascii_chars(s),
    ensures
        decodable(s),
{
    is_ascii_chars_encode_utf8(s);
    assert forall|i: int| 0 <= i < encode_utf8(s).len() implies #[trigger] encode_utf8(s)[i]
        < 128 by {
        assert(s[i] as u32 <= 127);
    }
    lemma_low_bytes_decodable(encode_utf8(s));
}

proof fn lemma_low_bytes_decodable(b: Seq<u8>)
    requires
        forall|i: int| 0 <= i < b.len() ==> #[trigger] b[i] < 128,
    ensures
        bytes_decodable(b),
    decreases b.len(),
{
    if b.len() > 0 {
        let n: int = if b[0] == 37 && b.len() > 2 && escape_byte(b[1], b[2]) is Some {
            3
        } else {
            1
        };
        assert forall|i: int| 0 <= i < b.skip(n).len() implies #[trigger] b.skip(n)[i] < 128 by {
            assert(b.skip(n)[i] == b[i + n]);
        }
        lemma_low_bytes_decodable(b.skip(n));
        if b.len() > 3 {
            assert(b[3] < 128);
        }
    }
}

/// A text with neither `%` nor `+` decodes to itself.
pub proof fn plain_text_decodes_to_itself(s: Seq<char>)
    requires
        forall|i: int| 0 <= i < encode_utf8(s).len() ==> #[trigger] encode_utf8(s)[i] != 37,
        forall|i: int| 0 <= i < encode_utf8(s).len() ==> #[trigger] encode_utf8(s)[i] != 43,
    ensures
        percent_decoded(s) == s,
{
    encode_utf8_decode_utf8(s);
    encode_utf8_valid_utf8(s);
    lemma_plain_bytes(encode_utf8(s));
}

proof fn lemma_plain_bytes(b: Seq<u8>)
    requires
        forall|i: int| 0 <= i < b.len() ==> #[trigger] b[i] != 37 && b[i] != 43,
    ensures
        percent_bytes(b) == b,
    decreases b.len(),
{
    if b.len() > 0 {
        assert forall|i: int| 0 <= i < b.skip(1).len() implies #[trigger] b.skip(1)[i] != 37
            && b.skip(1)[i] != 43 by {
            assert(b.skip(1)[i] == b[i + 1]);
        }
        lemma_plain_bytes(b.skip(1));
        assert(seq![b[0]] + b.skip(1) =~= b);
    }
}

/// The byte of a hexadecimal digit, capital or small.
pub open spec fn hex_digit_byte(n: int, small: bool) -> u8 {
    if n < 10 {
        (48 + n) as u8
    } else if small {
        (87 + n) as u8
    } else {
        (55 + n) as u8
    }
}

/// How a byte may be written in a query: as it is, as an escape with capital or small digits, or, a
/// space, as a plus sign.
pub ghost enum Way {
    Plain,
    Escaped(bool, bool),
    Plus,
}

/// Whether a byte may be written in a given way.
pub open spec fn may_be_written(b: u8, w: Way) -> bool {
    match w {
        Way::Plain => b != 37 && b != 43,
        Way::Escaped(_, _) => true,
        Way::Plus => b == 32,
    }
}

/// A byte written in a given way.
pub open spec fn written_byte(b: u8, w: Way) -> Seq<u8> {
    match w {
        Way::Plain => seq![b],
        Way::Escaped(x, y) => seq![
            37u8,
            hex_digit_byte(b as int / 16, x),
            hex_digit_byte(b as int % 16, y),
        ],
        Way::Plus => seq![43u8],
    }
}

/// Bytes, each written in its way.
pub open spec fn written(b: Seq<u8>, ways: Seq<Way>) -> Seq<u8>
    decreases b.len(),
{
    if b.len() == 0 {
        Seq::empty()
    } else {
        written_byte(b[0], ways[0]) + written(b.skip(1), ways.skip(1))
    }
}

/// Decoding undoes encoding: an escape stands for its byte, whatever byte that is, an unescaped
/// plus sign for a space, and every other byte for itself.
pub proof fn decoding_undoes_encoding(b: Seq<u8>, ways: Seq<Way>)
    requires
        ways.len() == b.len(),
        forall|i: int| 0 <= i < b.len() ==> may_be_written(#[trigger] b[i], ways[i]),
    ensures
        percent_bytes(written(b, ways)) == b,
    decreases b.len(),
{
    if b.len() > 0 {
        let (rest, left) = (b.skip(1), ways.skip(1));
        assert forall|i: int| 0 <= i < rest.len() implies may_be_written(#[trigger] rest[i], left[i]) by {
            assert(may_be_written(b[i + 1], ways[i + 1]));
        }
        decoding_undoes_encoding(rest, left);
        assert(may_be_written(b[0], ways[0]));
        let one = written_byte(b[0], ways[0]);
        let w = one + written(rest, left);
        match ways[0] {
            Way::Escaped(x, y) => {
                let (hi, lo) = (b[0] as int / 16, b[0] as int % 16);
                assert(hex_byte(hex_digit_byte(hi, x)) == Some(hi as u8));
                assert(hex_byte(hex_digit_byte(lo, y)) == Some(lo as u8));
                assert(w[1] == hex_digit_byte(hi, x) && w[2] == hex_digit_byte(lo, y));
                assert(escape_byte(w[1], w[2]) == Some(b[0]));
                assert(w.skip(3) =~= written(rest, left));
            },
            _ => {
                assert(w.skip(1) =~= written(rest, left));
            },
        }
        assert(seq![b[0]] + rest =~= b);
    } else {
        assert(percent_bytes(written(b, ways)) =~= b);
    }
}

/// Whether a byte is a hexadecimal digit.
pub open spec fn is_hex_byte(b: u8) -> bool {
    48 <= b <= 57 || 65 <= b <= 70 || 97 <= b <= 102
}

/// A percent sign without two hexadecimal digits behind it stands for itself, and what follows is
/// decoded as if it were not there.
pub proof fn stray_percent_signs_stay(rest: Seq<u8>)
    requires
        rest.len() < 2 || !is_hex_byte(rest[0]) || !is_hex_byte(rest[1]),
    ensures
        percent_bytes(seq![37u8] + rest) == seq![37u8] + percent_bytes(rest),
{
    let b = seq![37u8] + rest;
    assert(b.skip(1) =~= rest);
    if rest.len() >= 2 {
        assert(b[1] == rest[0] && b[2] == rest[1]);
    }
}

/// Whether a byte is left as it is when a text is encoded for a link.
pub open spec fn is_unreserved(b: u8) -> bool {
    48 <= b <= 57 || 65 <= b <= 90 || 97 <= b <= 122 || b == 45 || b == 46 || b == 95 || b == 126
}

/// The ways in which the bytes of a text are written in a link.
pub open spec fn link_ways(b: Seq<u8>) -> Seq<Way> {
    b.map_values(
        |x: u8|
            if is_unreserved(x) {
                Way::Plain
            } else {
                Way::Escaped(false, false)
            },
    )
}

/// A text as it is written in a link: every byte of it that is not unreserved is escaped.
pub open spec fn link_text(s: Seq<char>) -> Seq<char> {
    written(encode_utf8(s), link_ways(encode_utf8(s))).map_values(|x: u8| x as char)
}

proof fn lemma_link_bytes(b: Seq<u8>)
    ensures
        forall|i: int|
            0 <= i < written(b, link_ways(b)).len() ==> {
                let x = #[trigger] written(b, link_ways(b))[i];
                is_unreserved(x) || x == 37
            },
    decreases b.len(),
{
    if b.len() > 0 {
        let rest = b.skip(1);
        lemma_link_bytes(rest);
        assert(link_ways(b).skip(1) =~= link_ways(rest));
        let one = written_byte(b[0], link_ways(b)[0]);
        let tail = written(rest, link_ways(rest));
        let w = written(b, link_ways(b));
        assert(w == one + tail);
        assert forall|i: int| 0 <= i < w.len() implies is_unreserved(#[trigger] w[i]) || w[i]
            == 37 by {
            if i >= one.len() {
                assert(w[i] == tail[i - one.len()]);
            } else {
                assert(w[i] == one[i]);
            }
        }
    }
}

/// The characters of a text as it is written in a link.
pub proof fn lemma_link_chars(s: Seq<char>)
    ensures
        is_ascii_chars(link_text(s)),
        encode_utf8(link_text(s)) == written(encode_utf8(s), link_ways(encode_utf8(s))),
        forall|i: int|
            0 <= i < link_text(s).len() ==> {
                let c = #[trigger] link_text(s)[i];
                is_unreserved(c as u8) || c == '%'
            } && (link_text(s)[i] as u32) < 128,
{
    let b = encode_utf8(s);
    let w = written(b, link_ways(b));
    let t = link_text(s);
    lemma_link_bytes(b);
    assert forall|i: int| 0 <= i < t.len() implies ({
        let c = #[trigger] t[i];
        is_unreserved(c as u8) || c == '%'
    }) && (t[i] as u32) < 128 by {
        assert(is_unreserved(w[i]) || w[i] == 37);
    }
    assert(is_ascii_chars(t)) by {
        assert forall|i: int| 0 <= i < t.len() implies (#[trigger] t[i] as nat) < 128 by {
            assert((t[i] as u32) < 128);
        }
    }
    is_ascii_chars_encode_utf8(t);
    assert(encode_utf8(t) =~= w) by {
        assert forall|i: int| 0 <= i < t.len() implies encode_utf8(t)[i] == w[i] by {
            assert(is_unreserved(w[i]) || w[i] == 37);
        }
    }
}

/// Every text can be sent in a link: written for one, it can be decoded, and decodes to itself.
pub proof fn link_texts_are_decoded(s: Seq<char>)
    ensures
        decodable(link_text(s)),
        percent_decoded(link_text(s)) == s,
{
    let b = encode_utf8(s);
    lemma_link_chars(s);
    ascii_is_decodable(link_text(s));
    assert forall|i: int| 0 <= i < b.len() implies may_be_written(
        #[trigger] b[i],
        link_ways(b)[i],
    ) by {}
    decoding_undoes_encoding(b, link_ways(b));
    lemma_bytes_text(s);
}

/// A header's value is found by its name, case aside; the first of several counts.
pub proof fn first_header_counts(headers: Seq<Header>, name: Seq<char>, i: int)
    requires
        0 <= i < headers.len(),
        same_ignoring_case(headers[i].name@, name),
        forall|j: int| 0 <= j < i ==> !same_ignoring_case((#[trigger] headers[j]).name@, name),
    ensures
        header_of(headers, name) == Some(headers[i].value@),
    decreases headers.len(),
{
    if i > 0 {
        assert(!same_ignoring_case(headers[0].name@, name));
        let rest = headers.skip(1);
        assert forall|j: int| 0 <= j < i - 1 implies !same_ignoring_case(
            (#[trigger] rest[j]).name@,
            name,
        ) by {
            assert(rest[j] == headers[j + 1]);
        }
        first_header_counts(rest, name, i - 1);
    }
}

/// A header that is not there is not found.
pub proof fn missing_headers_are_not_found(headers: Seq<Header>, name: Seq<char>)
    requires
        forall|j: int|
            0 <= j < headers.len() ==> !same_ignoring_case((#[trigger] headers[j]).name@, name),
    ensures
        header_of(headers, name) is None,
    decreases headers.len(),
{
    if headers.len() > 0 {
        assert(!same_ignoring_case(headers[0].name@, name));
        let rest = headers.skip(1);
        assert forall|j: int| 0 <= j < rest.len() implies !same_ignoring_case(
            (#[trigger] rest[j]).name@,
            name,
        ) by {
            assert(rest[j] == headers[j + 1]);
        }
        missing_headers_are_not_found(rest, name);
    }
}

/// Pairs as they stand in a query.
pub open spec fn query_text(pairs: Seq<(Seq<char>, Seq<char>)>) -> Seq<char> {
    join(pairs.map_values(|p: (Seq<char>, Seq<char>)| p.0 + seq!['='] + p.1), seq!['&'])
}

/// Whether pairs can stand in a query.
pub open spec fn are_pairs(pairs: Seq<(Seq<char>, Seq<char>)>) -> bool {
    forall|i: int|
        0 <= i < pairs.len() ==> !(#[trigger] pairs[i]).0.contains('=') && !pairs[i].0.contains('&')
            && !pairs[i].1.contains('&')
}

proof fn lemma_pair(k: Seq<char>, v: Seq<char>)
    requires
        !k.contains('='),
    ensures
        split_once(k + seq!['='] + v, '=') == Some((k, v)),
{
    let s = k + seq!['='] + v;
    let n = k.len() as int;
    assert forall|j: int| 0 <= j < n implies s[j] != '=' by {
        assert(s[j] == k[j]);
        assert(k.contains(k[j]));
    }
    lemma_first_at(s, '=', n);
    assert(s.take(n) =~= k);
    assert(s.skip(n + 1) =~= v);
}

proof fn lemma_lookup(pairs: Seq<(Seq<char>, Seq<char>)>, key: Seq<char>, i: int)
    requires
        forall|j: int| 0 <= j < pairs.len() ==> !(#[trigger] pairs[j]).0.contains('='),
        0 <= i <= pairs.len(),
        forall|j: int| 0 <= j < i ==> (#[trigger] pairs[j]).0 != key,
        i < pairs.len() ==> pairs[i].0 == key,
    ensures
        lookup(pairs.map_values(|p: (Seq<char>, Seq<char>)| p.0 + seq!['='] + p.1), key) == (if i
            < pairs.len() {
            Some(pairs[i].1)
        } else {
            None
        }),
    decreases pairs.len(),
{
    let f = |p: (Seq<char>, Seq<char>)| p.0 + seq!['='] + p.1;
    let l = pairs.map_values(f);
    if pairs.len() > 0 {
        assert(!pairs[0].0.contains('='));
        lemma_pair(pairs[0].0, pairs[0].1);
        if i > 0 {
            let rest = pairs.skip(1);
            assert(pairs[0].0 != key);
            assert forall|j: int| 0 <= j < rest.len() implies !(#[trigger] rest[j]).0.contains('=') by {
                assert(rest[j] == pairs[j + 1]);
            }
            assert forall|j: int| 0 <= j < i - 1 implies (#[trigger] rest[j]).0 != key by {
                assert(rest[j] == pairs[j + 1]);
            }
            if i < pairs.len() {
                assert(rest[i - 1] == pairs[i]);
            }
            lemma_lookup(rest, key, i - 1);
            assert(l.skip(1) =~= rest.map_values(f));
        }
    }
}

/// A query is read back: the value of a key is that of the first pair with this key, whole, and
/// there is none if no pair has it.
pub proof fn queries_are_read_back(pairs: Seq<(Seq<char>, Seq<char>)>, key: Seq<char>, i: int)
    requires
        pairs.len() > 0,
        are_pairs(pairs),
        0 <= i <= pairs.len(),
        forall|j: int| 0 <= j < i ==> (#[trigger] pairs[j]).0 != key,
        i < pairs.len() ==> pairs[i].0 == key,
    ensures
        param(Some(query_text(pairs)), key) == (if i < pairs.len() {
            Some(pairs[i].1)
        } else {
            None
        }),
{
    let f = |p: (Seq<char>, Seq<char>)| p.0 + seq!['='] + p.1;
    let l = pairs.map_values(f);
    assert forall|j: int| 0 <= j < l.len() implies !(#[trigger] l[j]).contains('&') by {
        let p = pairs[j];
        assert(!p.0.contains('&') && !p.1.contains('&'));
        assert forall|k: int| 0 <= k < l[j].len() implies l[j][k] != '&' by {
            if k < p.0.len() {
                assert(l[j][k] == p.0[k]);
                assert(p.0.contains(p.0[k]));
            } else if k > p.0.len() {
                assert(l[j][k] == p.1[k - p.0.len() - 1]);
                assert(p.1.contains(p.1[k - p.0.len() - 1]));
            }
        }
    }
    lemma_split_join(l, '&');
    lemma_lookup(pairs, key, i);
}

/// A URL is its path, and behind the first question mark its query.
pub proof fn urls_are_cut_at_the_question_mark(path: Seq<char>, query: Seq<char>)
    requires
        !path.contains('?'),
    ensures
        url_parts(path + seq!['?'] + query) == (path, Some(query)),
        url_parts(path) == (path, None::<Seq<char>>),
{
    let s = path + seq!['?'] + query;
    let n = path.len() as int;
    assert forall|j: int| 0 <= j < n implies s[j] != '?' && path[j] != '?' by {
        assert(s[j] == path[j]);
        assert(path.contains(path[j]));
    }
    lemma_first_at(s, '?', n);
    lemma_first_at(path, '?', n);
    assert(s.take(n) =~= path);
    assert(s.skip(n + 1) =~= query);
}

/// Whether a text begins and ends with something other than white space.
pub open spec fn is_solid_text(s: Seq<char>) -> bool {
    s.len() > 0 && !is_space(s[0]) && !is_space(s.last())
}

/// A pair as it stands in a cookie header, with white space before it.
pub open spec fn padded_pair(pad: Seq<char>, p: (Seq<char>, Seq<char>)) -> Seq<char> {
    pad + (p.0 + seq!['='] + p.1)
}

/// Cookies as a client sends them: pairs with semicolons between them, and white space before each.
pub open spec fn cookie_text(pads: Seq<Seq<char>>, pairs: Seq<(Seq<char>, Seq<char>)>) -> Seq<char> {
    join(Seq::new(pairs.len(), |i: int| padded_pair(pads[i], pairs[i])), seq![';'])
}

/// Whether pairs can stand in a cookie header.
pub open spec fn are_cookies(pads: Seq<Seq<char>>, pairs: Seq<(Seq<char>, Seq<char>)>) -> bool {
    &&& pads.len() == pairs.len()
    &&& forall|i: int| 0 <= i < pairs.len() ==> all_space(#[trigger] pads[i])
    &&& forall|i: int|
        0 <= i < pairs.len() ==> !(#[trigger] pairs[i]).0.contains('=') && !pairs[i].0.contains(';')
            && !pairs[i].1.contains(';') && is_solid_text(pairs[i].0 + seq!['='] + pairs[i].1)
}

proof fn lemma_no_semicolon(pad: Seq<char>, p: (Seq<char>, Seq<char>))
    requires
        all_space(pad),
        !p.0.contains(';'),
        !p.1.contains(';'),
    ensures
        !padded_pair(pad, p).contains(';'),
{
    let s = padded_pair(pad, p);
    let (n, m) = (pad.len() as int, p.0.len() as int);
    assert forall|k: int| 0 <= k < s.len() implies s[k] != ';' by {
        if k < n {
            assert(is_space(pad[k]));
        } else if k < n + m {
            assert(s[k] == p.0[k - n]);
            assert(p.0.contains(p.0[k - n]));
        } else if k > n + m {
            assert(s[k] == p.1[k - n - m - 1]);
            assert(p.1.contains(p.1[k - n - m - 1]));
        }
    }
}

/// Cookies are read back: the value of a name is that of the first cookie of this name, whole, and
/// there is none if no cookie has it.
pub proof fn cookies_are_read_back(
    pads: Seq<Seq<char>>,
    pairs: Seq<(Seq<char>, Seq<char>)>,
    name: Seq<char>,
    i: int,
)
    requires
        pairs.len() > 0,
        are_cookies(pads, pairs),
        0 <= i <= pairs.len(),
        forall|j: int| 0 <= j < i ==> (#[trigger] pairs[j]).0 != name,
        i < pairs.len() ==> pairs[i].0 == name,
    ensures
        cookie(cookie_text(pads, pairs), name) == (if i < pairs.len() {
            Some(pairs[i].1)
        } else {
            None
        }),
{
    let f = |p: (Seq<char>, Seq<char>)| p.0 + seq!['='] + p.1;
    let l = Seq::new(pairs.len(), |i: int| padded_pair(pads[i], pairs[i]));
    assert forall|j: int| 0 <= j < l.len() implies !(#[trigger] l[j]).contains(';') by {
        assert(!pairs[j].0.contains(';') && all_space(pads[j]));
        lemma_no_semicolon(pads[j], pairs[j]);
    }
    lemma_split_join(l, ';');
    let t = l.map_values(|p: Seq<char>| trim(p));
    assert forall|j: int| 0 <= j < l.len() implies #[trigger] t[j] == pairs.map_values(f)[j] by {
        let m = f(pairs[j]);
        let e = Seq::<char>::empty();
        assert(!pairs[j].0.contains(';') && all_space(pads[j]));
        trimming_gives_the_middle(pads[j], m, e);
        assert(pads[j] + m + e =~= l[j]);
    }
    assert(t =~= pairs.map_values(f));
    lemma_lookup(pairs, name, i);
}

/// A text in a link holds none of the characters that part a query.
pub proof fn link_texts_stay_whole(s: Seq<char>)
    ensures
        !link_text(s).contains('&'),
        !link_text(s).contains('='),
        !link_text(s).contains('?'),
        !link_text(s).contains('/'),
        !link_text(s).contains('#'),
        !link_text(s).contains(' '),
{
    lemma_link_chars(s);
    let t = link_text(s);
    assert forall|i: int| 0 <= i < t.len() implies t[i] != '&' && t[i] != '=' && t[i] != '?' && t[i]
        != '/' && t[i] != '#' && t[i] != ' ' by {
        let c = t[i];
        assert(is_unreserved(c as u8) || c == '%');
    }
}

/// A text can be decoded if no percent sign in it has the middle of a character three bytes on.
pub proof fn whole_characters_can_be_decoded(b: Seq<u8>)
    requires
        forall|i: int|
            0 <= i < b.len() - 3 && #[trigger] b[i] == 37 ==> !(0x80 <= b[i + 3] <= 0xBF),
    ensures
        bytes_decodable(b),
    decreases b.len(),
{
    if b.len() > 0 {
        let n: int = if b[0] == 37 && b.len() > 2 && escape_byte(b[1], b[2]) is Some {
            3
        } else {
            1
        };
        let rest = b.skip(n);
        assert forall|i: int| 0 <= i < rest.len() - 3 && #[trigger] rest[i] == 37 implies !(0x80
            <= rest[i + 3] <= 0xBF) by {
            assert(b[i + n] == 37);
            assert(rest[i + 3] == b[i + n + 3]);
        }
        whole_characters_can_be_decoded(rest);
    }
}

/// A text cannot be decoded if its first percent sign has the middle of a character three bytes on.
pub proof fn split_characters_cannot_be_decoded(front: Seq<u8>, x: u8, y: u8, z: u8, rest: Seq<u8>)
    requires
        forall|i: int| 0 <= i < front.len() ==> #[trigger] front[i] != 37,
        0x80 <= z <= 0xBF,
    ensures
        !bytes_decodable(front + seq![37u8, x, y, z] + rest),
    decreases front.len(),
{
    let b = front + seq![37u8, x, y, z] + rest;
    if front.len() > 0 {
        let left = front.skip(1);
        assert forall|i: int| 0 <= i < left.len() implies #[trigger] left[i] != 37 by {
            assert(left[i] == front[i + 1]);
        }
        split_characters_cannot_be_decoded(left, x, y, z, rest);
        assert(b.skip(1) =~= left + seq![37u8, x, y, z] + rest);
        assert(b[0] == front[0]);
    } else {
        assert(b[0] == 37 && b[3] == z);
    }
}

/// A piece of a query without an equals sign is no pair, and is passed over.
pub proof fn pieces_without_a_value_are_passed_over(x: Seq<char>, rest: Seq<Seq<char>>, key: Seq<char>)
    requires
        !x.contains('='),
    ensures
        lookup(seq![x] + rest, key) == lookup(rest, key),
{
    let l = seq![x] + rest;
    assert(l[0] == x);
    assert(l.skip(1) =~= rest);
    assert forall|j: int| 0 <= j < x.len() implies x[j] != '=' by {
        assert(x.contains(x[j]));
    }
    lemma_first_at(x, '=', x.len() as int);
}

} // verus!
