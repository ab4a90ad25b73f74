//! Text as a sequence of characters: searching, splitting, trimming and building strings.

use vstd::prelude::*;
use vstd::string::*;
use vstd::utf8::*;

verus! {

/// `String::push` appends one character.
pub assume_specification[ String::push ](s: &mut String, c: char)
    ensures
        final(s)@ == old(s)@.push(c),
;

/// The text that `String::from_utf8_lossy` makes of bytes.
pub uninterp spec fn utf8_lossy(bytes: Seq<u8>) -> Seq<char>;

/// `String::from_utf8_lossy` decodes well-formed UTF-8 exactly. What it makes of malformed input,
/// where it puts replacement characters, is only named here.
#[verifier::external_body]
pub(crate) fn text_of_bytes(bytes: &[u8]) -> (s: String)
    ensures
        s@ == utf8_lossy(bytes@),
        valid_utf8(bytes@) ==> s@ == decode_utf8(bytes@),
{
    String::from_utf8_lossy(bytes).into_owned()
}

/// The text of bytes: decoded where they are well-formed UTF-8, else with replacement characters.
pub open spec fn bytes_text(b: Seq<u8>) -> Seq<char> {
    if valid_utf8(b) {
        decode_utf8(b)
    } else {
        utf8_lossy(b)
    }
}

/// The Unicode lower-case form of a text, as `str::to_lowercase` gives it.
pub uninterp spec fn lowercase(s: Seq<char>) -> Seq<char>;

/// `str::to_lowercase` depends on the text alone.
pub assume_specification[ str::to_lowercase ](s: &str) -> (r: String)
    ensures
        r@ == lowercase(s@),
;

/// The characters of a string slice.
pub fn chars_of(s: &str) -> (v: Vec<char>)
    ensures
        v@ == s@,
{
    let mut v: Vec<char> = Vec::new();
    for c in it: s.chars()
        invariant
            it.seq() == s@,
            v@ == s@.take(it.index() as int),
    {
        v.push(c);
    }
    v
}

/// A string made of the given characters.
pub fn string_of(v: &[char]) -> (s: String)
    ensures
        s@ == v@,
{
    let mut s = String::new();
    push_chars(&mut s, v);
    s
}

/// Append characters to a string.
pub fn push_chars(s: &mut String, v: &[char])
    ensures
        final(s)@ == old(s)@ + v@,
{
    let mut i: usize = 0;
    while i < v.len()
        invariant
            i <= v@.len(),
            s@ == old(s)@ + v@.take(i as int),
        decreases v@.len() - i,
    {
        s.push(v[i]);
        i = i + 1;
    }
}

/// Whether two texts are the same.
pub fn same(a: &[char], b: &[char]) -> (r: bool)
    ensures
        r == (a@ == b@),
{
    if a.len() != b.len() {
        return false;
    }
    let mut i: usize = 0;
    while i < a.len()
        invariant
            i <= a@.len(),
            a@.len() == b@.len(),
            forall|j: int| 0 <= j < i ==> a@[j] == b@[j],
        decreases a@.len() - i,
    {
        if a[i] != b[i] {
            return false;
        }
        i = i + 1;
    }
    assert(a@ =~= b@);
    true
}

/// Whether two strings are the same.
pub fn str_eq(a: &str, b: &str) -> (r: bool)
    ensures
        r == (a@ == b@),
{
    let x = chars_of(a);
    let y = chars_of(b);
    same(&x, &y)
}

// ---- UTF-8 ----

/// Encoding two texts in turn is encoding both together.
pub proof fn lemma_encode_append(a: Seq<char>, b: Seq<char>)
    ensures
        encode_utf8(a + b) == encode_utf8(a) + encode_utf8(b),
    decreases a.len(),
{
    if a.len() == 0 {
        assert(a + b =~= b);
        assert(encode_utf8(a) + encode_utf8(b) =~= encode_utf8(b));
    } else {
        lemma_encode_append(a.drop_first(), b);
        assert((a + b).drop_first() =~= a.drop_first() + b);
        assert((a + b)[0] == a[0]);
        assert(encode_utf8(a + b) =~= encode_utf8(a) + encode_utf8(b));
    }
}

proof fn lemma_scalar_bytes(c: u32)
    requires
        c <= 0x10FFFF,
    ensures
        c <= 0x7F ==> encode_scalar(c) == seq![c as u8],
        c > 0x7F ==> forall|i: int| 0 <= i < encode_scalar(c).len() ==> #[trigger] encode_scalar(c)[i] >= 0x80,
{
    assert(c <= 0x7F ==> (c & 0x7F) == c) by (bit_vector);
    assert(forall|x: u8| #[trigger] (0xC0 | x) >= 0x80) by (bit_vector);
    assert(forall|x: u8| #[trigger] (0xE0 | x) >= 0x80) by (bit_vector);
    assert(forall|x: u8| #[trigger] (0xF0 | x) >= 0x80) by (bit_vector);
    assert(forall|x: u8| #[trigger] (0x80 | x) >= 0x80) by (bit_vector);
    if c <= 0x7F {
        assert(encode_scalar(c) =~= seq![c as u8]);
    }
}

proof fn lemma_other_char(x: char, c: char)
    requires
        x != c,
        c as u32 <= 0x7F,
    ensures
        forall|i: int|
            0 <= i < encode_scalar(x as u32).len() ==> #[trigger] encode_scalar(x as u32)[i]
                != c as u8,
{
    lemma_scalar_bytes(x as u32);
    assert(x as u32 != c as u32);
}

/// An ASCII character is one byte, and its byte stands for nothing else.
pub proof fn lemma_ascii_byte(s: Seq<char>, c: char)
    requires
        c as u32 <= 0x7F,
        !s.contains(c),
    ensures
        encode_utf8(seq![c]) == seq![c as u8],
        forall|i: int| 0 <= i < encode_utf8(s).len() ==> #[trigger] encode_utf8(s)[i] != c as u8,
    decreases s.len(),
{
    lemma_scalar_bytes(c as u32);
    assert(seq![c].drop_first() =~= Seq::<char>::empty());
    assert(encode_utf8(seq![c].drop_first()) =~= Seq::<u8>::empty());
    assert(encode_utf8(seq![c]) =~= seq![c as u8]);
    if s.len() > 0 {
        let rest = s.drop_first();
        assert forall|i: int| 0 <= i < rest.len() implies rest[i] != c by {
            assert(rest[i] == s[i + 1]);
        }
        lemma_ascii_byte(rest, c);
        let first: char = s[0];
        assert(s.contains(first));
        lemma_other_char(first, c);
        let head = encode_scalar(s[0] as u32);
        assert forall|i: int| 0 <= i < encode_utf8(s).len() implies #[trigger] encode_utf8(s)[i]
            != c as u8 by {
            if i < head.len() {
                assert(encode_utf8(s)[i] == head[i]);
            } else {
                assert(encode_utf8(s)[i] == encode_utf8(rest)[i - head.len()]);
            }
        }
    }
}

/// The bytes of a text stand for the text.
pub proof fn lemma_bytes_text(s: Seq<char>)
    ensures
        bytes_text(encode_utf8(s)) == s,
{
    encode_utf8_valid_utf8(s);
    encode_utf8_decode_utf8(s);
}

// ---- Searching ----

/// Position of the first `c` in `s`, or the length of `s` when there is none.
pub open spec fn first_at(s: Seq<char>, c: char) -> int
    decreases s.len(),
{
    if s.len() == 0 || s[0] == c {
        0
    } else {
        1 + first_at(s.skip(1), c)
    }
}

/// `first_at` is the one position with no `c` before it and either `c` or the end at it.
pub proof fn lemma_first_at(s: Seq<char>, c: char, i: int)
    requires
        0 <= i <= s.len(),
        forall|j: int| 0 <= j < i ==> s[j] != c,
        i < s.len() ==> s[i] == c,
    ensures
        first_at(s, c) == i,
    decreases s.len(),
{
    if i > 0 {
        assert forall|j: int| 0 <= j < i - 1 implies s.skip(1)[j] != c by {
            assert(s.skip(1)[j] == s[j + 1]);
        }
        lemma_first_at(s.skip(1), c, i - 1);
    }
}

/// What `first_at` promises of its position.
pub proof fn lemma_first_at_props(s: Seq<char>, c: char)
    ensures
        0 <= first_at(s, c) <= s.len(),
        first_at(s, c) < s.len() ==> s[first_at(s, c)] == c,
        forall|j: int| 0 <= j < first_at(s, c) ==> s[j] != c,
        s.contains(c) <==> first_at(s, c) < s.len(),
    decreases s.len(),
{
    if s.len() > 0 && s[0] != c {
        lemma_first_at_props(s.skip(1), c);
        assert forall|j: int| 0 <= j < first_at(s, c) implies s[j] != c by {
            if j > 0 {
                assert(s.skip(1)[j - 1] == s[j]);
            }
        }
        if s.contains(c) {
            let k = choose|k: int| 0 <= k < s.len() && s[k] == c;
            assert(s.skip(1)[k - 1] == c);
        }
    }
}

/// Find the first `c`.
pub fn find_char(s: &[char], c: char) -> (r: usize)
    ensures
        r == first_at(s@, c),
        r <= s@.len(),
        r < s@.len() <==> s@.contains(c),
{
    let mut i: usize = 0;
    while i < s.len() && s[i] != c
        invariant
            i <= s@.len(),
            forall|j: int| 0 <= j < i ==> s@[j] != c,
        decreases s@.len() - i,
    {
        i = i + 1;
    }
    proof {
        lemma_first_at(s@, c, i as int);
        lemma_first_at_props(s@, c);
    }
    i
}

/// Whether `p` stands in `s` at position `i`.
pub open spec fn occurs_at(s: Seq<char>, p: Seq<char>, i: int) -> bool {
    0 <= i && i + p.len() <= s.len() && s.subrange(i, i + p.len()) == p
}

/// Whether `s` begins with `p`.
pub open spec fn begins(s: Seq<char>, p: Seq<char>) -> bool {
    occurs_at(s, p, 0)
}

/// Position of the first occurrence of `p` in `s`.
pub open spec fn find_text(s: Seq<char>, p: Seq<char>) -> Option<int>
    decreases s.len(),
{
    if begins(s, p) {
        Some(0)
    } else if s.len() == 0 {
        None
    } else {
        match find_text(s.skip(1), p) {
            Some(i) => Some(i + 1),
            None => None,
        }
    }
}

proof fn lemma_occurs_shift(s: Seq<char>, p: Seq<char>, i: int)
    requires
        s.len() > 0,
        i >= 0,
    ensures
        occurs_at(s.skip(1), p, i) == occurs_at(s, p, i + 1),
{
    if i + 1 + p.len() <= s.len() {
        assert(s.skip(1).subrange(i, i + p.len()) =~= s.subrange(i + 1, i + 1 + p.len()));
    }
}

/// `find_text` is the least position at which the text occurs.
pub proof fn lemma_find_text(s: Seq<char>, p: Seq<char>)
    ensures
        match find_text(s, p) {
            Some(i) => occurs_at(s, p, i) && forall|j: int| 0 <= j < i ==> !occurs_at(s, p, j),
            None => forall|j: int| !occurs_at(s, p, j),
        },
    decreases s.len(),
{
    if !begins(s, p) && s.len() > 0 {
        lemma_find_text(s.skip(1), p);
        assert forall|j: int| j > 0 implies occurs_at(s, p, j) == occurs_at(s.skip(1), p, j - 1) by {
            lemma_occurs_shift(s, p, j - 1);
        }
    }
}

/// Whether `s` begins with `p`.
pub fn starts_with(s: &[char], p: &[char]) -> (r: bool)
    ensures
        r == begins(s@, p@),
{
    if s.len() < p.len() {
        return false;
    }
    text_at(s, p, 0)
}

/// Whether `p` stands in `s` at position `at`.
pub fn text_at(s: &[char], p: &[char], at: usize) -> (r: bool)
    requires
        at + p@.len() <= s@.len(),
    ensures
        r == occurs_at(s@, p@, at as int),
{
    let len: usize = s.len();
    let mut i: usize = 0;
    while i < p.len()
        invariant
            i <= p@.len(),
            at + p@.len() <= s@.len(),
            len == s@.len(),
            forall|j: int| 0 <= j < i ==> s@[at + j] == p@[j],
        decreases p@.len() - i,
    {
        if s[at + i] != p[i] {
            assert(s@.subrange(at as int, at + p@.len())[i as int] != p@[i as int]);
            return false;
        }
        i = i + 1;
    }
    assert(s@.subrange(at as int, at + p@.len()) =~= p@);
    true
}

/// Find the first occurrence of `p`.
pub fn find(s: &[char], p: &[char]) -> (r: Option<usize>)
    ensures
        match r {
            Some(i) => find_text(s@, p@) == Some(i as int) && i + p@.len() <= s@.len(),
            None => find_text(s@, p@) is None,
        },
{
    proof {
        lemma_find_text(s@, p@);
    }
    if s.len() < p.len() {
        return None;
    }
    let last: usize = s.len() - p.len();
    let mut i: usize = 0;
    while i <= last
        invariant
            i <= last + 1,
            last == s@.len() - p@.len(),
            forall|j: int| 0 <= j < i ==> !occurs_at(s@, p@, j),
        decreases last + 1 - i,
    {
        if text_at(s, p, i) {
            proof {
                lemma_find_text(s@, p@);
            }
            return Some(i);
        }
        if i == last {
            proof {
                lemma_find_text(s@, p@);
            }
            return None;
        }
        i = i + 1;
    }
    None
}

// ---- Splitting ----

/// The text before and after the first `c`.
pub open spec fn split_once(s: Seq<char>, c: char) -> Option<(Seq<char>, Seq<char>)> {
    let i = first_at(s, c);
    if i < s.len() {
        Some((s.take(i), s.skip(i + 1)))
    } else {
        None
    }
}

/// The pieces of `s` between occurrences of `c`; there is always at least one.
pub open spec fn split(s: Seq<char>, c: char) -> Seq<Seq<char>>
    decreases s.len(),
    via split_decreases
{
    let i = first_at(s, c);
    if 0 <= i < s.len() {
        seq![s.take(i)] + split(s.skip(i + 1), c)
    } else {
        seq![s]
    }
}

#[via_fn]
proof fn split_decreases(s: Seq<char>, c: char) {
    lemma_first_at_props(s, c);
}

/// The texts of a list of character vectors.
pub open spec fn rows(v: Seq<Vec<char>>) -> Seq<Seq<char>> {
    v.map_values(|x: Vec<char>| x@)
}

/// The texts of a list of strings.
pub open spec fn texts(v: Seq<String>) -> Seq<Seq<char>> {
    v.map_values(|x: String| x@)
}

/// Copy of a part of a text.
pub fn part(s: &[char], from: usize, to: usize) -> (v: Vec<char>)
    requires
        from <= to <= s@.len(),
    ensures
        v@ == s@.subrange(from as int, to as int),
{
    let mut v: Vec<char> = Vec::new();
    let mut i: usize = from;
    while i < to
        invariant
            from <= i <= to <= s@.len(),
            v@ == s@.subrange(from as int, i as int),
        decreases to - i,
    {
        v.push(s[i]);
        i = i + 1;
    }
    v
}

/// Split at the first `c`.
pub fn cut(s: &[char], c: char) -> (r: Option<(Vec<char>, Vec<char>)>)
    ensures
        match r {
            Some((a, b)) => split_once(s@, c) == Some((a@, b@)),
            None => split_once(s@, c) is None,
        },
{
    let i: usize = find_char(s, c);
    if i < s.len() {
        let a = part(s, 0, i);
        let b = part(s, i + 1, s.len());
        assert(a@ =~= s@.take(i as int));
        assert(b@ =~= s@.skip(i + 1));
        Some((a, b))
    } else {
        None
    }
}

/// Split at every `c`.
pub fn pieces(s: &[char], c: char) -> (r: Vec<Vec<char>>)
    ensures
        rows(r@) == split(s@, c),
        r@.len() > 0,
{
    let mut out: Vec<Vec<char>> = Vec::new();
    let mut from: usize = 0;
    let mut i: usize = 0;
    assert(s@.skip(0) =~= s@);
    assert(rows(out@) + split(s@, c) =~= split(s@, c));
    while i < s.len()
        invariant
            from <= i <= s@.len(),
            forall|j: int| from <= j < i ==> s@[j] != c,
            rows(out@) + split(s@.skip(from as int), c) == split(s@, c),
        decreases s@.len() - i,
    {
        if s[i] == c {
            let ghost rest = s@.skip(from as int);
            let ghost before = out@;
            let p = part(s, from, i);
            proof {
                lemma_first_at(rest, c, i - from);
                assert(p@ =~= rest.take(i - from));
                assert(rest.skip(i - from + 1) =~= s@.skip(i + 1));
            }
            out.push(p);
            assert(rows(out@) =~= rows(before).push(p@));
            assert(rows(out@) + split(s@.skip(i + 1), c) =~= rows(before) + (seq![p@] + split(
                s@.skip(i + 1),
                c,
            )));
            from = i + 1;
        }
        i = i + 1;
    }
    let ghost rest = s@.skip(from as int);
    let ghost before = out@;
    let p = part(s, from, i);
    proof {
        lemma_first_at(rest, c, rest.len() as int);
        assert(p@ =~= rest);
    }
    out.push(p);
    assert(rows(out@) =~= rows(before) + seq![p@]);
    out
}

/// Splitting after a further separator and a last piece.
proof fn lemma_split_push(a: Seq<char>, c: char, b: Seq<char>)
    requires
        !b.contains(c),
    ensures
        split(a.push(c) + b, c) == split(a, c).push(b),
    decreases a.len(),
{
    let s = a.push(c) + b;
    lemma_first_at_props(a, c);
    let i = first_at(a, c);
    assert forall|j: int| 0 <= j < i implies s[j] != c by {
        assert(s[j] == a[j]);
    }
    if i < a.len() {
        assert(s[i] == a[i]);
        lemma_first_at(s, c, i);
        lemma_split_push(a.skip(i + 1), c, b);
        assert(s.take(i) =~= a.take(i));
        assert(s.skip(i + 1) =~= a.skip(i + 1).push(c) + b);
        assert(split(s, c) =~= split(a, c).push(b));
    } else {
        lemma_first_at(s, c, a.len() as int);
        assert(s.take(a.len() as int) =~= a);
        assert(s.skip(a.len() as int + 1) =~= b);
        lemma_first_at_props(b, c);
        assert(split(b, c) =~= seq![b]);
        assert(split(s, c) =~= split(a, c).push(b));
    }
}

/// Splitting a joined text at the separator gives the pieces back.
pub proof fn lemma_split_join(parts: Seq<Seq<char>>, c: char)
    requires
        parts.len() > 0,
        forall|i: int| 0 <= i < parts.len() ==> !(#[trigger] parts[i]).contains(c),
    ensures
        split(join(parts, seq![c]), c) == parts,
    decreases parts.len(),
{
    if parts.len() == 1 {
        lemma_first_at_props(parts[0], c);
        assert(split(parts[0], c) =~= parts);
    } else {
        let rest = parts.drop_last();
        assert forall|i: int| 0 <= i < rest.len() implies !(#[trigger] rest[i]).contains(c) by {
            assert(rest[i] == parts[i]);
        }
        lemma_split_join(rest, c);
        let a = join(rest, seq![c]);
        assert(a + seq![c] + parts.last() =~= a.push(c) + parts.last());
        assert(!parts[parts.len() - 1].contains(c));
        lemma_split_push(a, c, parts.last());
        assert(rest.push(parts.last()) =~= parts);
    }
}

/// No piece of a split text holds the separator.
pub proof fn lemma_split_pieces(s: Seq<char>, c: char)
    ensures
        split(s, c).len() > 0,
        forall|i: int| 0 <= i < split(s, c).len() ==> !(#[trigger] split(s, c)[i]).contains(c),
    decreases s.len(),
{
    lemma_first_at_props(s, c);
    let i = first_at(s, c);
    if i < s.len() {
        lemma_split_pieces(s.skip(i + 1), c);
        let rest = split(s.skip(i + 1), c);
        assert(!s.take(i).contains(c));
        assert forall|k: int| 0 <= k < split(s, c).len() implies !(#[trigger] split(
            s,
            c,
        )[k]).contains(c) by {
            if k > 0 {
                assert(split(s, c)[k] == rest[k - 1]);
            }
        }
    }
}

/// The pieces joined with a separator.
pub open spec fn join(parts: Seq<Seq<char>>, sep: Seq<char>) -> Seq<char>
    decreases parts.len(),
{
    if parts.len() == 0 {
        Seq::empty()
    } else if parts.len() == 1 {
        parts[0]
    } else {
        join(parts.drop_last(), sep) + sep + parts.last()
    }
}

/// Join strings with a separator.
pub fn join_strings(parts: &[String], sep: &str) -> (s: String)
    ensures
        s@ == join(texts(parts@), sep@),
{
    let mut s = String::new();
    let mut i: usize = 0;
    while i < parts.len()
        invariant
            i <= parts@.len(),
            s@ == join(texts(parts@.take(i as int)), sep@),
        decreases parts@.len() - i,
    {
        proof {
            let now = texts(parts@.take(i + 1));
            assert(now.drop_last() =~= texts(parts@.take(i as int)));
            assert(now.last() == parts@[i as int]@);
        }
        if i > 0 {
            s.append(sep);
        }
        s.append(parts[i].as_str());
        i = i + 1;
    }
    assert(parts@.take(i as int) =~= parts@);
    s
}

/// A joined text, taken apart at its first piece.
pub proof fn lemma_join_front(parts: Seq<Seq<char>>, sep: Seq<char>)
    requires
        parts.len() >= 2,
    ensures
        join(parts, sep) == parts[0] + sep + join(parts.skip(1), sep),
    decreases parts.len(),
{
    let rest = parts.drop_last();
    let tail = parts.skip(1);
    assert(tail.last() == parts.last());
    if parts.len() == 2 {
        assert(rest =~= seq![parts[0]]);
        assert(tail =~= seq![parts[1]]);
        assert(join(rest, sep) == parts[0]);
    } else {
        lemma_join_front(rest, sep);
        assert(rest.skip(1) =~= tail.drop_last());
        assert(join(parts, sep) =~= parts[0] + sep + join(tail, sep));
    }
}

/// The pieces of a split text, joined again, are the text.
pub proof fn lemma_join_split(s: Seq<char>, c: char)
    ensures
        join(split(s, c), seq![c]) == s,
    decreases s.len(),
{
    lemma_first_at_props(s, c);
    let i = first_at(s, c);
    if i < s.len() {
        let rest = s.skip(i + 1);
        lemma_join_split(rest, c);
        lemma_split_pieces(rest, c);
        let parts = split(s, c);
        assert(parts.skip(1) =~= split(rest, c));
        lemma_join_front(parts, seq![c]);
        assert(s.take(i) + seq![c] + rest =~= s);
    }
}

// ---- Splitting into a limited number of pieces ----

/// At most `n` pieces of `s` between occurrences of `c`; the last one holds all the rest.
pub open spec fn splitn(s: Seq<char>, c: char, n: nat) -> Seq<Seq<char>>
    decreases n,
{
    match split_once(s, c) {
        Some((a, b)) => if n >= 2 {
            seq![a] + splitn(b, c, (n - 1) as nat)
        } else {
            seq![s]
        },
        None => seq![s],
    }
}

/// Split at the first `n - 1` occurrences of `c`.
pub fn pieces_n(s: &[char], c: char, n: usize) -> (r: Vec<Vec<char>>)
    requires
        n >= 1,
    ensures
        rows(r@) == splitn(s@, c, n as nat),
{
    let mut out: Vec<Vec<char>> = Vec::new();
    let mut rest: Vec<char> = part(s, 0, s.len());
    let mut left: usize = n;
    assert(rest@ =~= s@);
    assert(rows(out@) + splitn(s@, c, n as nat) =~= splitn(s@, c, n as nat));
    while left > 1
        invariant
            1 <= left <= n,
            rows(out@) + splitn(rest@, c, left as nat) == splitn(s@, c, n as nat),
        decreases left,
    {
        let ghost before = out@;
        match cut(&rest, c) {
            Some((a, b)) => {
                let ghost piece = a@;
                out.push(a);
                assert(rows(out@) =~= rows(before).push(piece));
                rest = b;
                left = left - 1;
                assert(rows(out@) + splitn(rest@, c, left as nat) =~= rows(before) + (seq![piece]
                    + splitn(rest@, c, left as nat)));
            },
            None => {
                let ghost piece = rest@;
                out.push(rest);
                assert(rows(out@) =~= rows(before) + seq![piece]);
                return out;
            },
        }
    }
    let ghost before = out@;
    let ghost piece = rest@;
    out.push(rest);
    assert(rows(out@) =~= rows(before) + seq![piece]);
    out
}

/// Splitting a joined text into as many pieces as it was joined from gives the pieces back, even
/// where the last one holds separators.
pub proof fn lemma_splitn_join(parts: Seq<Seq<char>>, c: char)
    requires
        parts.len() > 0,
        forall|i: int| 0 <= i < parts.len() - 1 ==> !(#[trigger] parts[i]).contains(c),
    ensures
        splitn(join(parts, seq![c]), c, parts.len()) == parts,
    decreases parts.len(),
{
    let s = join(parts, seq![c]);
    if parts.len() == 1 {
        assert(parts =~= seq![s]);
    } else {
        lemma_join_front(parts, seq![c]);
        let tail = parts.skip(1);
        assert forall|i: int| 0 <= i < tail.len() - 1 implies !(#[trigger] tail[i]).contains(c) by {
            assert(tail[i] == parts[i + 1]);
        }
        lemma_splitn_join(tail, c);
        let n = parts[0].len() as int;
        assert(!parts[0].contains(c));
        assert forall|j: int| 0 <= j < n implies s[j] != c by {
            assert(s[j] == parts[0][j]);
        }
        lemma_first_at(s, c, n);
        assert(s.take(n) =~= parts[0]);
        assert(s.skip(n + 1) =~= join(tail, seq![c]));
        assert(seq![parts[0]] + tail =~= parts);
    }
}

// ---- Lines ----

/// `s` without one trailing carriage return.
pub open spec fn drop_cr(s: Seq<char>) -> Seq<char> {
    if s.len() > 0 && s.last() == '\r' {
        s.drop_last()
    } else {
        s
    }
}

/// The lines of a text, without their line ends (a newline, or a carriage return and a newline).
/// What follows the last newline is a line unless it is empty.
pub open spec fn lines(s: Seq<char>) -> Seq<Seq<char>> {
    let all = split(s, '\n');
    let done = all.drop_last().map_values(|l: Seq<char>| drop_cr(l));
    if all.last().len() == 0 {
        done
    } else {
        done.push(all.last())
    }
}

/// Split a text into its lines.
pub fn lines_of(s: &[char]) -> (r: Vec<Vec<char>>)
    ensures
        rows(r@) == lines(s@),
{
    let all = pieces(s, '\n');
    let mut out: Vec<Vec<char>> = Vec::new();
    let mut i: usize = 0;
    let last: usize = all.len() - 1;
    while i < last
        invariant
            last == all@.len() - 1,
            i <= last,
            out@.len() == i,
            forall|j: int| 0 <= j < i ==> (#[trigger] out@[j])@ == drop_cr(all@[j]@),
        decreases all@.len() - i,
    {
        let n: usize = all[i].len();
        let line = if n > 0 && all[i][n - 1] == '\r' {
            part(&all[i], 0, n - 1)
        } else {
            part(&all[i], 0, n)
        };
        assert(line@ =~= drop_cr(all@[i as int]@));
        out.push(line);
        i = i + 1;
    }
    proof {
        assert(rows(all@).last() == all@[i as int]@);
        assert(rows(out@) =~= rows(all@).drop_last().map_values(|l: Seq<char>| drop_cr(l)));
    }
    if all[i].len() > 0 {
        let ghost before = out@;
        let line = part(&all[i], 0, all[i].len());
        assert(line@ =~= all@[i as int]@);
        out.push(line);
        assert(rows(out@) =~= rows(before).push(all@[i as int]@));
    }
    out
}

/// Lines put one after another, each with a newline behind it.
pub open spec fn unlines(l: Seq<Seq<char>>) -> Seq<char>
    decreases l.len(),
{
    if l.len() == 0 {
        Seq::empty()
    } else {
        unlines(l.drop_last()) + l.last() + seq!['\n']
    }
}

/// Whether a text can stand on a line: it holds no newline and does not end in a carriage return.
pub open spec fn is_line(s: Seq<char>) -> bool {
    !s.contains('\n') && (s.len() > 0 ==> s.last() != '\r')
}

proof fn lemma_unlines_join(l: Seq<Seq<char>>)
    ensures
        unlines(l) == join(l.push(Seq::empty()), seq!['\n']),
    decreases l.len(),
{
    let e = Seq::<char>::empty();
    let all = l.push(e);
    assert(all.drop_last() =~= l);
    if l.len() == 0 {
        assert(join(all, seq!['\n']) =~= e);
    } else {
        lemma_unlines_join(l.drop_last());
        let inner = l.drop_last().push(e);
        assert(inner.drop_last() =~= l.drop_last());
        if l.len() == 1 {
            assert(unlines(l.drop_last()) =~= e);
            assert(unlines(l) =~= l[0] + seq!['\n']);
            assert(join(l, seq!['\n']) == l[0]);
            assert(join(all, seq!['\n']) =~= l[0] + seq!['\n'] + e);
        } else {
            assert(join(inner, seq!['\n']) == join(l.drop_last(), seq!['\n']) + seq!['\n'] + e);
            assert(unlines(l) =~= join(l.drop_last(), seq!['\n']) + seq!['\n'] + l.last() + seq![
                '\n',
            ]);
            assert(join(l, seq!['\n']) == join(l.drop_last(), seq!['\n']) + seq!['\n'] + l.last());
            assert(join(all, seq!['\n']) =~= join(l, seq!['\n']) + seq!['\n'] + e);
        }
    }
}

/// Lines written one after another are read back.
pub proof fn lemma_lines_unlines(l: Seq<Seq<char>>)
    requires
        forall|i: int| 0 <= i < l.len() ==> is_line(#[trigger] l[i]),
    ensures
        lines(unlines(l)) == l,
{
    let e = Seq::<char>::empty();
    let all = l.push(e);
    assert forall|i: int| 0 <= i < all.len() implies !(#[trigger] all[i]).contains('\n') by {
        if i < l.len() {
            assert(is_line(l[i]));
        }
    }
    lemma_unlines_join(l);
    lemma_split_join(all, '\n');
    assert(all.drop_last() =~= l);
    assert forall|i: int| 0 <= i < l.len() implies drop_cr(#[trigger] l[i]) == l[i] by {
        assert(is_line(l[i]));
    }
    assert(l.map_values(|x: Seq<char>| drop_cr(x)) =~= l);
}

// ---- Runs of characters and trimming ----

/// How many characters at the start of `s` satisfy `p`.
pub open spec fn lead(s: Seq<char>, p: spec_fn(char) -> bool) -> int
    decreases s.len(),
{
    if s.len() == 0 || !p(s[0]) {
        0
    } else {
        1 + lead(s.skip(1), p)
    }
}

/// `lead` is the one position with `p` everywhere before it and not at it.
pub proof fn lemma_lead(s: Seq<char>, p: spec_fn(char) -> bool, i: int)
    requires
        0 <= i <= s.len(),
        forall|j: int| 0 <= j < i ==> p(#[trigger] s[j]),
        i < s.len() ==> !p(s[i]),
    ensures
        lead(s, p) == i,
    decreases s.len(),
{
    if i > 0 {
        assert(p(s[0]));
        assert forall|j: int| 0 <= j < i - 1 implies p(#[trigger] s.skip(1)[j]) by {
            assert(s.skip(1)[j] == s[j + 1]);
        }
        lemma_lead(s.skip(1), p, i - 1);
    }
}

/// What `lead` promises of its position.
pub proof fn lemma_lead_props(s: Seq<char>, p: spec_fn(char) -> bool)
    ensures
        0 <= lead(s, p) <= s.len(),
        lead(s, p) < s.len() ==> !p(s[lead(s, p)]),
        forall|j: int| 0 <= j < lead(s, p) ==> p(#[trigger] s[j]),
    decreases s.len(),
{
    if s.len() > 0 && p(s[0]) {
        lemma_lead_props(s.skip(1), p);
        assert forall|j: int| 0 <= j < lead(s, p) implies p(#[trigger] s[j]) by {
            if j > 0 {
                assert(s.skip(1)[j - 1] == s[j]);
            }
        }
    }
}

/// The characters with the Unicode White_Space property.
pub open spec fn is_space(c: char) -> bool {
    let u = c as u32;
    ||| 0x09 <= u <= 0x0D
    ||| u == 0x20
    ||| u == 0x85
    ||| u == 0xA0
    ||| u == 0x1680
    ||| 0x2000 <= u <= 0x200A
    ||| u == 0x2028
    ||| u == 0x2029
    ||| u == 0x202F
    ||| u == 0x205F
    ||| u == 0x3000
}

/// Whether a character is white space.
pub fn space(c: char) -> (r: bool)
    ensures
        r == is_space(c),
{
    let u: u32 = c as u32;
    (0x09 <= u && u <= 0x0D) || u == 0x20 || u == 0x85 || u == 0xA0 || u == 0x1680 || (0x2000 <= u
        && u <= 0x200A) || u == 0x2028 || u == 0x2029 || u == 0x202F || u == 0x205F || u == 0x3000
}

/// `s` without leading white space.
pub open spec fn trim_start(s: Seq<char>) -> Seq<char> {
    s.skip(lead(s, |c: char| is_space(c)))
}

/// `s` without the trailing characters that satisfy `p`.
pub open spec fn drop_tail(s: Seq<char>, p: spec_fn(char) -> bool) -> Seq<char>
    decreases s.len(),
{
    if s.len() > 0 && p(s.last()) {
        drop_tail(s.drop_last(), p)
    } else {
        s
    }
}

/// `s` without trailing white space.
pub open spec fn trim_end(s: Seq<char>) -> Seq<char> {
    drop_tail(s, |c: char| is_space(c))
}

/// `s` without white space at either end.
pub open spec fn trim(s: Seq<char>) -> Seq<char> {
    trim_end(trim_start(s))
}

/// Remove trailing white space in place.
pub fn trim_end_mut(s: &mut Vec<char>)
    ensures
        final(s)@ == trim_end(old(s)@),
{
    while s.len() > 0 && space(s[s.len() - 1])
        invariant
            trim_end(s@) == trim_end(old(s)@),
        decreases s@.len(),
    {
        let ghost before = s@;
        s.pop();
        assert(s@ =~= before.drop_last());
        assert(is_space(before.last()));
    }
}

/// The text without white space at either end.
pub fn trimmed(s: &[char]) -> (r: Vec<char>)
    ensures
        r@ == trim(s@),
{
    let mut i: usize = 0;
    let ghost p = |c: char| is_space(c);
    while i < s.len() && space(s[i])
        invariant
            i <= s@.len(),
            forall|j: int| 0 <= j < i ==> is_space(#[trigger] s@[j]),
        decreases s@.len() - i,
    {
        i = i + 1;
    }
    proof {
        lemma_lead(s@, p, i as int);
    }
    let mut r = part(s, i, s.len());
    assert(r@ =~= trim_start(s@));
    trim_end_mut(&mut r);
    r
}

// ---- Words ----

/// A text from its first character that is not white space up to the next white space.
pub open spec fn word(s: Seq<char>) -> Seq<char> {
    let t = trim_start(s);
    t.take(lead(t, |c: char| !is_space(c)))
}

/// What follows the first word.
pub open spec fn after_word(s: Seq<char>) -> Seq<char> {
    let t = trim_start(s);
    t.skip(lead(t, |c: char| !is_space(c)))
}

fn skip_space(s: &[char], from: usize) -> (i: usize)
    requires
        from <= s@.len(),
    ensures
        from <= i <= s@.len(),
        s@.skip(i as int) == trim_start(s@.skip(from as int)),
{
    let mut i: usize = from;
    while i < s.len() && space(s[i])
        invariant
            from <= i <= s@.len(),
            forall|j: int| from <= j < i ==> is_space(#[trigger] s@[j]),
        decreases s@.len() - i,
    {
        i = i + 1;
    }
    proof {
        let t = s@.skip(from as int);
        assert forall|j: int| 0 <= j < i - from implies is_space(#[trigger] t[j]) by {
            assert(t[j] == s@[from + j]);
        }
        lemma_lead(t, |c: char| is_space(c), i - from);
        assert(t.skip(i - from) =~= s@.skip(i as int));
    }
    i
}

fn skip_word(s: &[char], from: usize) -> (i: usize)
    requires
        from <= s@.len(),
    ensures
        from <= i <= s@.len(),
        i - from == lead(s@.skip(from as int), |c: char| !is_space(c)),
{
    let mut i: usize = from;
    while i < s.len() && !space(s[i])
        invariant
            from <= i <= s@.len(),
            forall|j: int| from <= j < i ==> !is_space(#[trigger] s@[j]),
        decreases s@.len() - i,
    {
        i = i + 1;
    }
    proof {
        let t = s@.skip(from as int);
        assert forall|j: int| 0 <= j < i - from implies !is_space(#[trigger] t[j]) by {
            assert(t[j] == s@[from + j]);
        }
        lemma_lead(t, |c: char| !is_space(c), i - from);
    }
    i
}

/// Split off the first word.
pub fn first_word(s: &[char]) -> (r: (Vec<char>, Vec<char>))
    ensures
        r.0@ == word(s@),
        r.1@ == after_word(s@),
{
    assert(s@.skip(0) =~= s@);
    let a: usize = skip_space(s, 0);
    let b: usize = skip_word(s, a);
    let w = part(s, a, b);
    let rest = part(s, b, s.len());
    assert(w@ =~= s@.skip(a as int).take(b - a));
    assert(rest@ =~= s@.skip(a as int).skip(b - a));
    (w, rest)
}

// ---- Replacing characters ----

/// `s` with every `c` replaced by the text `by`.
pub open spec fn replace_char(s: Seq<char>, c: char, by: Seq<char>) -> Seq<char>
    decreases s.len(),
{
    if s.len() == 0 {
        Seq::empty()
    } else {
        replace_char(s.drop_last(), c, by) + (if s.last() == c {
            by
        } else {
            seq![s.last()]
        })
    }
}

/// Replace every `c` by a text.
pub fn replaced(s: &[char], c: char, by: &[char]) -> (r: Vec<char>)
    ensures
        r@ == replace_char(s@, c, by@),
{
    let mut r: Vec<char> = Vec::new();
    let mut i: usize = 0;
    while i < s.len()
        invariant
            i <= s@.len(),
            r@ == replace_char(s@.take(i as int), c, by@),
        decreases s@.len() - i,
    {
        assert(s@.take(i + 1).drop_last() =~= s@.take(i as int));
        if s[i] == c {
            let mut k: usize = 0;
            let ghost before = r@;
            while k < by.len()
                invariant
                    k <= by@.len(),
                    r@ == before + by@.take(k as int),
                decreases by@.len() - k,
            {
                r.push(by[k]);
                k = k + 1;
            }
            assert(by@.take(k as int) =~= by@);
        } else {
            r.push(s[i]);
        }
        i = i + 1;
    }
    assert(s@.take(i as int) =~= s@);
    r
}

// ---- ASCII letter case ----

/// The lower-case form of an ASCII capital; any other character unchanged.
pub open spec fn ascii_lower(c: char) -> char {
    if 'A' <= c <= 'Z' {
        (c as u32 + 32) as char
    } else {
        c
    }
}

/// Equality that ignores the case of ASCII letters.
pub open spec fn same_ignoring_case(a: Seq<char>, b: Seq<char>) -> bool {
    a.len() == b.len() && forall|i: int|
        0 <= i < a.len() ==> ascii_lower(#[trigger] a[i]) == ascii_lower(b[i])
}

fn lower(c: char) -> (r: char)
    ensures
        r == ascii_lower(c),
{
    if 'A' <= c && c <= 'Z' {
        (c as u8 + 32) as char
    } else {
        c
    }
}

/// Whether two texts are equal up to the case of ASCII letters.
pub fn eq_ignore_case(a: &[char], b: &[char]) -> (r: bool)
    ensures
        r == same_ignoring_case(a@, b@),
{
    if a.len() != b.len() {
        return false;
    }
    let mut i: usize = 0;
    while i < a.len()
        invariant
            i <= a@.len(),
            a@.len() == b@.len(),
            forall|j: int| 0 <= j < i ==> ascii_lower(#[trigger] a@[j]) == ascii_lower(b@[j]),
        decreases a@.len() - i,
    {
        if lower(a[i]) != lower(b[i]) {
            return false;
        }
        i = i + 1;
    }
    true
}

// ---- Laws ----

/// White space is what Unicode says: tab to carriage return, space, next line, the no-break space,
/// and the spaces and separators of other scripts.
pub proof fn white_space_is_unicode(c: char)
    ensures
        is_space(c) <==> seq![
            0x09int, 0x0A, 0x0B, 0x0C, 0x0D, 0x20, 0x85, 0xA0, 0x1680, 0x2000, 0x2001, 0x2002,
            0x2003, 0x2004, 0x2005, 0x2006, 0x2007, 0x2008, 0x2009, 0x200A, 0x2028, 0x2029, 0x202F,
            0x205F, 0x3000,
        ].contains(c as int),
{
    let all = seq![
        0x09int, 0x0A, 0x0B, 0x0C, 0x0D, 0x20, 0x85, 0xA0, 0x1680, 0x2000, 0x2001, 0x2002,
        0x2003, 0x2004, 0x2005, 0x2006, 0x2007, 0x2008, 0x2009, 0x200A, 0x2028, 0x2029, 0x202F,
        0x205F, 0x3000,
    ];
    let u = c as int;
    if is_space(c) {
        let i: int = if u <= 0x0D {
            u - 9
        } else if u == 0x20 {
            5
        } else if u == 0x85 {
            6
        } else if u == 0xA0 {
            7
        } else if u == 0x1680 {
            8
        } else if u <= 0x200A {
            u - 0x2000 + 9
        } else if u == 0x2028 {
            20
        } else if u == 0x2029 {
            21
        } else if u == 0x202F {
            22
        } else if u == 0x205F {
            23
        } else {
            24
        };
        assert(all[i] == u);
    }
}

/// Whether a text is nothing but white space.
pub open spec fn all_space(s: Seq<char>) -> bool {
    forall|i: int| 0 <= i < s.len() ==> is_space(#[trigger] s[i])
}

/// What `drop_tail` cuts off.
pub proof fn lemma_drop_tail(s: Seq<char>, p: spec_fn(char) -> bool)
    ensures
        drop_tail(s, p).len() <= s.len(),
        drop_tail(s, p) == s.take(drop_tail(s, p).len() as int),
        forall|i: int| drop_tail(s, p).len() <= i < s.len() ==> p(#[trigger] s[i]),
        drop_tail(s, p).len() > 0 ==> !p(drop_tail(s, p).last()),
    decreases s.len(),
{
    if s.len() > 0 && p(s.last()) {
        let rest = s.drop_last();
        lemma_drop_tail(rest, p);
        let n = drop_tail(s, p).len() as int;
        assert(rest.take(n) =~= s.take(n));
        assert forall|i: int| n <= i < s.len() implies p(#[trigger] s[i]) by {
            if i < rest.len() {
                assert(rest[i] == s[i]);
            }
        }
    } else {
        assert(s.take(s.len() as int) =~= s);
    }
}

/// Trimming cuts white space, and nothing else, off both ends, and leaves none there.
pub proof fn trimming_cuts_white_space(s: Seq<char>) -> (ends: (Seq<char>, Seq<char>))
    ensures
        s == ends.0 + trim(s) + ends.1,
        all_space(ends.0),
        all_space(ends.1),
        trim(s).len() > 0 ==> !is_space(trim(s)[0]) && !is_space(trim(s).last()),
{
    let p = |c: char| is_space(c);
    lemma_lead_props(s, p);
    let n = lead(s, p);
    let t = trim_start(s);
    lemma_drop_tail(t, p);
    let m = trim(s).len() as int;
    let (a, b) = (s.take(n), t.skip(m));
    assert forall|i: int| 0 <= i < a.len() implies is_space(#[trigger] a[i]) by {
        assert(p(s[i]));
    }
    assert forall|i: int| 0 <= i < b.len() implies is_space(#[trigger] b[i]) by {
        assert(p(t[m + i]));
    }
    assert(s =~= a + trim(s) + b);
    if m > 0 {
        assert(trim(s)[0] == t[0]);
        assert(t[0] == s[n]);
        assert(!p(s[n]));
        assert(!p(trim(s).last()));
    }
    (a, b)
}

/// Replacing goes character by character: the given one becomes the text, every other one stays.
pub proof fn replacing_goes_by_character(a: Seq<char>, b: Seq<char>, x: char, c: char, by: Seq<char>)
    ensures
        replace_char(a + b, c, by) == replace_char(a, c, by) + replace_char(b, c, by),
        replace_char(seq![x], c, by) == (if x == c {
            by
        } else {
            seq![x]
        }),
    decreases b.len(),
{
    assert(seq![x].drop_last() =~= Seq::<char>::empty());
    assert(replace_char(Seq::<char>::empty(), c, by) =~= Seq::<char>::empty());
    assert(replace_char(seq![x], c, by) =~= (if x == c {
        by
    } else {
        seq![x]
    }));
    if b.len() == 0 {
        assert(a + b =~= a);
        assert(replace_char(a, c, by) + replace_char(b, c, by) =~= replace_char(a, c, by));
    } else {
        replacing_goes_by_character(a, b.drop_last(), x, c, by);
        assert((a + b).drop_last() =~= a + b.drop_last());
        assert(replace_char(a + b, c, by) =~= replace_char(a, c, by) + replace_char(b, c, by));
    }
}

/// Two characters count as the same, case aside, exactly if they are the same, or are the capital
/// and the small form of one of the 26 letters.
pub proof fn letter_case_is_ascii(a: char, b: char)
    ensures
        same_ignoring_case(seq![a], seq![b]) <==> a == b || (0x41 <= a as int <= 0x5A && b as int
            == a as int + 32) || (0x41 <= b as int <= 0x5A && a as int == b as int + 32),
{
    let (x, y) = (seq![a], seq![b]);
    if same_ignoring_case(x, y) {
        assert(ascii_lower(x[0]) == ascii_lower(y[0]));
    }
    if ascii_lower(a) == ascii_lower(b) {
        assert forall|i: int| 0 <= i < x.len() implies ascii_lower(#[trigger] x[i]) == ascii_lower(
            y[i],
        ) by {}
        assert(same_ignoring_case(x, y));
    }
}

/// Texts are compared, case aside, character by character.
pub proof fn case_is_ignored_by_character(a: Seq<char>, b: Seq<char>)
    ensures
        same_ignoring_case(a, b) <==> a.len() == b.len() && forall|i: int|
            0 <= i < a.len() ==> same_ignoring_case(seq![#[trigger] a[i]], seq![b[i]]),
{
    assert forall|x: char, y: char| same_ignoring_case(seq![x], seq![y]) <==> #[trigger] ascii_lower(
        x,
    ) == #[trigger] ascii_lower(y) by {
        let (s, t) = (seq![x], seq![y]);
        if same_ignoring_case(s, t) {
            assert(ascii_lower(s[0]) == ascii_lower(t[0]));
        }
    }
}

/// The first word of a text, and what follows it, are found behind any white space.
pub proof fn words_are_found(front: Seq<char>, w: Seq<char>, rest: Seq<char>)
    requires
        all_space(front),
        w.len() > 0,
        forall|i: int| 0 <= i < w.len() ==> !is_space(#[trigger] w[i]),
        rest.len() > 0 ==> is_space(rest[0]),
    ensures
        word(front + w + rest) == w,
        after_word(front + w + rest) == rest,
{
    let s = front + w + rest;
    let p = |c: char| is_space(c);
    let q = |c: char| !is_space(c);
    assert forall|j: int| 0 <= j < front.len() implies p(#[trigger] s[j]) by {
        assert(s[j] == front[j]);
    }
    assert(s[front.len() as int] == w[0]);
    lemma_lead(s, p, front.len() as int);
    let t = trim_start(s);
    assert(t =~= w + rest);
    assert forall|j: int| 0 <= j < w.len() implies q(#[trigger] t[j]) by {
        assert(t[j] == w[j]);
    }
    if rest.len() > 0 {
        assert(t[w.len() as int] == rest[0]);
    }
    lemma_lead(t, q, w.len() as int);
    assert(t.take(w.len() as int) =~= w);
    assert(t.skip(w.len() as int) =~= rest);
}

/// Trimming gives what stands between the white space at the two ends, whatever white space that
/// is.
pub proof fn trimming_gives_the_middle(a: Seq<char>, m: Seq<char>, b: Seq<char>)
    requires
        all_space(a),
        all_space(b),
        m.len() > 0 ==> !is_space(m[0]) && !is_space(m.last()),
    ensures
        trim(a + m + b) == m,
{
    let p = |c: char| is_space(c);
    let s = a + m + b;
    if m.len() == 0 {
        assert forall|j: int| 0 <= j < s.len() implies p(#[trigger] s[j]) by {
            if j < a.len() {
                assert(s[j] == a[j]);
            } else {
                assert(s[j] == b[j - a.len()]);
            }
        }
        lemma_lead(s, p, s.len() as int);
        assert(trim_start(s) =~= m);
        assert(trim(s) =~= m);
    } else {
        assert forall|j: int| 0 <= j < a.len() implies p(#[trigger] s[j]) by {
            assert(s[j] == a[j]);
        }
        assert(s[a.len() as int] == m[0]);
        lemma_lead(s, p, a.len() as int);
        let t = trim_start(s);
        assert(t =~= m + b);
        lemma_drop_tail(t, p);
        let n = drop_tail(t, p).len() as int;
        if n > m.len() {
            assert(drop_tail(t, p).last() == b[n - 1 - m.len()]);
        } else if n < m.len() {
            assert(p(t[m.len() - 1]));
            assert(t[m.len() - 1] == m.last());
        }
        assert(t.take(n) =~= m);
    }
}

/// White space around a text does not change what trimming gives.
pub proof fn surrounding_white_space_does_not_matter(a: Seq<char>, s: Seq<char>, b: Seq<char>)
    requires
        all_space(a),
        all_space(b),
    ensures
        trim(a + s + b) == trim(s),
{
    let ends = trimming_cuts_white_space(s);
    let m = trim(s);
    let (x, y) = (a + ends.0, ends.1 + b);
    assert forall|i: int| 0 <= i < x.len() implies is_space(#[trigger] x[i]) by {
        if i < a.len() {
            assert(x[i] == a[i]);
        } else {
            assert(x[i] == ends.0[i - a.len()]);
        }
    }
    assert forall|i: int| 0 <= i < y.len() implies is_space(#[trigger] y[i]) by {
        if i < ends.1.len() {
            assert(y[i] == ends.1[i]);
        } else {
            assert(y[i] == b[i - ends.1.len()]);
        }
    }
    trimming_gives_the_middle(x, m, y);
    assert(a + s + b =~= x + m + y);
}

/// Lines may end in a carriage return and a newline; just that one carriage return is no part of
/// the line.
pub proof fn carriage_returns_end_lines(l: Seq<Seq<char>>)
    requires
        forall|i: int| 0 <= i < l.len() ==> !(#[trigger] l[i]).contains('\n'),
    ensures
        lines(unlines(l.map_values(|x: Seq<char>| x.push('\r')))) == l,
{
    let e = Seq::<char>::empty();
    let m = l.map_values(|x: Seq<char>| x.push('\r'));
    let all = m.push(e);
    assert forall|i: int| 0 <= i < all.len() implies !(#[trigger] all[i]).contains('\n') by {
        if i < l.len() {
            assert(!l[i].contains('\n'));
            if all[i].contains('\n') {
                let k = choose|k: int| 0 <= k < all[i].len() && all[i][k] == '\n';
                assert(l[i][k] == '\n');
            }
        }
    }
    lemma_unlines_join(m);
    lemma_split_join(all, '\n');
    assert(all.drop_last() =~= m);
    assert forall|i: int| 0 <= i < l.len() implies drop_cr(#[trigger] m[i]) == l[i] by {
        assert(m[i].drop_last() =~= l[i]);
    }
    assert(m.map_values(|x: Seq<char>| drop_cr(x)) =~= l);
}

/// What follows the last newline is a line of its own, as it stands.
pub proof fn the_last_line_needs_no_newline(l: Seq<Seq<char>>, last: Seq<char>)
    requires
        forall|i: int| 0 <= i < l.len() ==> is_line(#[trigger] l[i]),
        last.len() > 0,
        !last.contains('\n'),
    ensures
        lines(unlines(l) + last) == l.push(last),
{
    let e = Seq::<char>::empty();
    let all = l.push(last);
    assert forall|i: int| 0 <= i < all.len() implies !(#[trigger] all[i]).contains('\n') by {
        if i < l.len() {
            assert(is_line(l[i]));
        }
    }
    lemma_unlines_join(l);
    lemma_split_join(all, '\n');
    let with_end = l.push(e);
    assert(with_end.drop_last() =~= l && all.drop_last() =~= l);
    assert(join(all, seq!['\n']) =~= unlines(l) + last) by {
        if l.len() == 0 {
            assert(unlines(l) =~= e);
        } else {
            assert(join(with_end, seq!['\n']) =~= join(l, seq!['\n']) + seq!['\n'] + e);
        }
    }
    assert forall|i: int| 0 <= i < l.len() implies drop_cr(#[trigger] l[i]) == l[i] by {
        assert(is_line(l[i]));
    }
    assert(l.map_values(|x: Seq<char>| drop_cr(x)) =~= l);
}

/// Texts are joined in their order, with the separator between each two and nowhere else.
pub proof fn joining_puts_separators_between(a: Seq<Seq<char>>, b: Seq<Seq<char>>, x: Seq<char>, sep: Seq<char>)
    requires
        a.len() > 0,
        b.len() > 0,
    ensures
        join(a + b, sep) == join(a, sep) + sep + join(b, sep),
        join(seq![x], sep) == x,
        join(Seq::<Seq<char>>::empty(), sep) == Seq::<char>::empty(),
    decreases b.len(),
{
    let all = a + b;
    assert(all.last() == b.last());
    assert(all.drop_last() =~= a + b.drop_last());
    if b.len() == 1 {
        assert(all.drop_last() =~= a);
    } else {
        joining_puts_separators_between(a, b.drop_last(), x, sep);
        assert(join(all, sep) =~= join(a, sep) + sep + join(b, sep));
    }
}

/// Every line is followed by a newline.
pub proof fn lines_end_in_newlines(a: Seq<Seq<char>>, b: Seq<Seq<char>>, x: Seq<char>)
    ensures
        unlines(a + b) == unlines(a) + unlines(b),
        unlines(seq![x]) == x.push('\n'),
    decreases b.len(),
{
    let none = Seq::<Seq<char>>::empty();
    assert(seq![x].drop_last() =~= none);
    assert(unlines(none) =~= Seq::<char>::empty());
    assert(unlines(seq![x]) =~= x.push('\n'));
    if b.len() == 0 {
        assert(a + b =~= a);
        assert(unlines(a) + unlines(b) =~= unlines(a));
    } else {
        lines_end_in_newlines(a, b.drop_last(), x);
        assert((a + b).drop_last() =~= a + b.drop_last());
        assert((a + b).last() == b.last());
        assert(unlines(a + b) =~= unlines(a) + unlines(b));
    }
}

/// Splitting with a limit loses nothing, gives no more pieces than the limit, and leaves a
/// separator in a piece only if that is the last one that the limit allows.
pub proof fn splitting_stops_at_the_limit(s: Seq<char>, c: char, n: nat)
    requires
        n >= 1,
    ensures
        ({
            let l = splitn(s, c, n);
            &&& join(l, seq![c]) == s
            &&& 1 <= l.len() <= n
            &&& forall|i: int| 0 <= i < l.len() && i < n - 1 ==> !(#[trigger] l[i]).contains(c)
        }),
    decreases n,
{
    lemma_first_at_props(s, c);
    let l = splitn(s, c, n);
    let k = first_at(s, c);
    if k < s.len() && n >= 2 {
        let (a, b) = (s.take(k), s.skip(k + 1));
        splitting_stops_at_the_limit(b, c, (n - 1) as nat);
        let rest = splitn(b, c, (n - 1) as nat);
        lemma_join_front(l, seq![c]);
        assert(l.skip(1) =~= rest);
        assert(s =~= a + seq![c] + b);
        assert(l[0] == a);
        assert forall|i: int| 0 <= i < l.len() && i < n - 1 implies !(#[trigger] l[i]).contains(c) by {
            if i > 0 {
                assert(l[i] == rest[i - 1]);
            }
        }
    }
}

/// A text with no more pieces than the limit is split into all of them.
pub proof fn few_pieces_are_all_split(f: Seq<Seq<char>>, c: char, n: nat)
    requires
        0 < f.len() <= n,
        forall|i: int| 0 <= i < f.len() ==> !(#[trigger] f[i]).contains(c),
    ensures
        splitn(join(f, seq![c]), c, n) == f,
    decreases n,
{
    let s = join(f, seq![c]);
    let a = f[0];
    let k = a.len() as int;
    assert(!a.contains(c));
    assert forall|j: int| 0 <= j < k implies a[j] != c by {
        assert(a.contains(a[j]));
    }
    if f.len() == 1 {
        lemma_first_at(s, c, k);
        assert(splitn(s, c, n) =~= f);
    } else {
        let rest = f.skip(1);
        assert forall|i: int| 0 <= i < rest.len() implies !(#[trigger] rest[i]).contains(c) by {
            assert(rest[i] == f[i + 1]);
        }
        few_pieces_are_all_split(rest, c, (n - 1) as nat);
        lemma_join_front(f, seq![c]);
        let b = join(rest, seq![c]);
        assert(s =~= a + seq![c] + b);
        lemma_first_at(s, c, k);
        assert(s.take(k) =~= a);
        assert(s.skip(k + 1) =~= b);
        assert(seq![a] + rest =~= f);
    }
}

/// The texts of a list of strings are those of its strings, whole and in order.
pub proof fn texts_are_whole(v: Seq<String>, r: Seq<Vec<char>>, i: int)
    ensures
        texts(v).len() == v.len(),
        rows(r).len() == r.len(),
        0 <= i < v.len() ==> texts(v)[i] == v[i]@,
        0 <= i < r.len() ==> rows(r)[i] == r[i]@,
{
}

} // verus!
