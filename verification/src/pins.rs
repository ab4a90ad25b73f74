//! Pinned snippets: kept one to a line.

use vstd::prelude::*;
use vstd::string::*;
use crate::text::{
    chars_of, is_line, lemma_lines_unlines, lines, lines_of, rows, str_eq, string_of, texts,
    unlines,
};

verus! {

// ---- One snippet on one line ----

/// How a character of a snippet is written on its line.
pub open spec fn line_char(c: char) -> Seq<char> {
    if c == '\\' {
        seq!['\\', '\\']
    } else if c == '\n' {
        seq!['\\', 'n']
    } else if c == '\r' {
        seq!['\\', 'r']
    } else {
        seq![c]
    }
}

/// A snippet on one line.
pub open spec fn escaped(s: Seq<char>) -> Seq<char>
    decreases s.len(),
{
    if s.len() == 0 {
        Seq::empty()
    } else {
        escaped(s.drop_last()) + line_char(s.last())
    }
}

/// The snippet that a line stands for. A backslash before any other character stands for itself.
pub open spec fn unescaped(s: Seq<char>) -> Seq<char>
    decreases s.len(),
{
    if s.len() == 0 {
        Seq::empty()
    } else if s[0] != '\\' {
        seq![s[0]] + unescaped(s.skip(1))
    } else if s.len() == 1 {
        seq!['\\']
    } else if s[1] == 'n' {
        seq!['\n'] + unescaped(s.skip(2))
    } else if s[1] == 'r' {
        seq!['\r'] + unescaped(s.skip(2))
    } else if s[1] == '\\' {
        seq!['\\'] + unescaped(s.skip(2))
    } else {
        seq!['\\', s[1]] + unescaped(s.skip(2))
    }
}

/// Escape a snippet to a single line.
pub fn escape_line(s: &str) -> (r: String)
    ensures
        r@ == escaped(s@),
{
    let mut r = String::new();
    for c in it: s.chars()
        invariant
            it.seq() == s@,
            r@ == escaped(s@.take(it.index() as int)),
    {
        proof {
            let k = it.index() as int;
            assert(s@.take(k + 1).drop_last() =~= s@.take(k));
            assert(s@.take(k + 1).last() == c);
        }
        let ghost before = r@;
        if c == '\\' {
            r.push('\\');
            r.push('\\');
        } else if c == '\n' {
            r.push('\\');
            r.push('n');
        } else if c == '\r' {
            r.push('\\');
            r.push('r');
        } else {
            r.push(c);
        }
        assert(r@ =~= before + line_char(c));
    }
    assert(s@.take(s@.len() as int) =~= s@);
    r
}

/// The snippet that a line stands for.
pub fn unescape_line(s: &str) -> (r: String)
    ensures
        r@ == unescaped(s@),
{
    let t = chars_of(s);
    let len: usize = t.len();
    let mut r = String::new();
    let mut i: usize = 0;
    assert(t@.skip(0) =~= t@);
    while i < len
        invariant
            len == t@.len(),
            i <= len,
            r@ + unescaped(t@.skip(i as int)) == unescaped(t@),
        decreases len - i,
    {
        let ghost rest = t@.skip(i as int);
        let ghost before = r@;
        assert(rest.skip(1) =~= t@.skip(i + 1));
        let c: char = t[i];
        if c != '\\' {
            r.push(c);
            i = i + 1;
        } else if len - i == 1 {
            r.push('\\');
            i = i + 1;
            assert(t@.skip(i as int) =~= Seq::<char>::empty());
        } else {
            let d: char = t[i + 1];
            assert(rest[1] == d);
            assert(rest.skip(2) =~= t@.skip(i + 2));
            if d == 'n' {
                r.push('\n');
            } else if d == 'r' {
                r.push('\r');
            } else if d == '\\' {
                r.push('\\');
            } else {
                r.push('\\');
                r.push(d);
            }
            i = i + 2;
        }
        assert(r@ + unescaped(t@.skip(i as int)) =~= before + unescaped(rest));
    }
    assert(t@.skip(i as int) =~= Seq::<char>::empty());
    assert(r@ =~= unescaped(t@));
    r
}

// ---- All snippets ----

/// The lines that hold something.
pub open spec fn filled(l: Seq<Seq<char>>) -> Seq<Seq<char>>
    decreases l.len(),
{
    if l.len() == 0 {
        l
    } else if l.last().len() == 0 {
        filled(l.drop_last())
    } else {
        filled(l.drop_last()).push(l.last())
    }
}

/// The snippets that a file holds.
pub open spec fn pins_of(data: Seq<char>) -> Seq<Seq<char>> {
    filled(lines(data)).map_values(|l: Seq<char>| unescaped(l))
}

/// The file that holds snippets.
pub open spec fn pins_file(pins: Seq<Seq<char>>) -> Seq<char> {
    unlines(pins.map_values(|p: Seq<char>| escaped(p)))
}

/// Read snippets from their file. Empty lines are passed over.
pub fn load_pins(data: &str) -> (r: Vec<String>)
    ensures
        texts(r@) == pins_of(data@),
{
    let all = lines_of(&chars_of(data));
    let ghost l = rows(all@);
    let mut r: Vec<String> = Vec::new();
    let mut i: usize = 0;
    assert(l.take(0) =~= Seq::<Seq<char>>::empty());
    assert(texts(r@) =~= filled(l.take(0)).map_values(|x: Seq<char>| unescaped(x)));
    while i < all.len()
        invariant
            i <= all@.len(),
            l == rows(all@),
            texts(r@) == filled(l.take(i as int)).map_values(|x: Seq<char>| unescaped(x)),
        decreases all@.len() - i,
    {
        let ghost now = l.take(i + 1);
        assert(now.drop_last() =~= l.take(i as int));
        assert(now.last() == all@[i as int]@);
        if all[i].len() > 0 {
            let ghost before = r@;
            let p = unescape_line(string_of(&all[i]).as_str());
            r.push(p);
            assert(texts(r@) =~= texts(before).push(p@));
            assert(filled(now).map_values(|x: Seq<char>| unescaped(x)) =~= filled(
                now.drop_last(),
            ).map_values(|x: Seq<char>| unescaped(x)).push(p@));
        }
        i = i + 1;
    }
    assert(l.take(i as int) =~= l);
    r
}

/// Write snippets to their file.
pub fn save_pins(pins: &[String]) -> (r: String)
    ensures
        r@ == pins_file(texts(pins@)),
{
    let mut r = String::new();
    let ghost l = texts(pins@).map_values(|p: Seq<char>| escaped(p));
    let mut i: usize = 0;
    assert(l.take(0) =~= Seq::<Seq<char>>::empty());
    while i < pins.len()
        invariant
            i <= pins@.len(),
            l == texts(pins@).map_values(|p: Seq<char>| escaped(p)),
            r@ == unlines(l.take(i as int)),
        decreases pins@.len() - i,
    {
        assert(l.take(i + 1).drop_last() =~= l.take(i as int));
        let ghost before = r@;
        let line = escape_line(pins[i].as_str());
        r.append(line.as_str());
        r.push('\n');
        assert(r@ =~= before + line@ + seq!['\n']);
        i = i + 1;
    }
    assert(l.take(i as int) =~= l);
    r
}

/// Pin a snippet, unless it is pinned already. The result says whether it was added.
pub fn add_pin(pins: &mut Vec<String>, text: &str) -> (added: bool)
    ensures
        added == !texts(old(pins)@).contains(text@),
        texts(final(pins)@) == (if added {
            texts(old(pins)@).push(text@)
        } else {
            texts(old(pins)@)
        }),
{
    let mut i: usize = 0;
    while i < pins.len()
        invariant
            i <= pins@.len(),
            pins@ == old(pins)@,
            forall|j: int| 0 <= j < i ==> (#[trigger] pins@[j])@ != text@,
        decreases pins@.len() - i,
    {
        if str_eq(pins[i].as_str(), text) {
            assert(texts(pins@)[i as int] == text@);
            return false;
        }
        i = i + 1;
    }
    assert forall|j: int| 0 <= j < texts(pins@).len() implies texts(pins@)[j] != text@ by {
        assert(pins@[j]@ != text@);
    }
    pins.push(text.to_owned());
    assert(texts(pins@) =~= texts(old(pins)@).push(text@));
    true
}

/// Unpin the snippet at a position.
pub fn remove_pin(pins: &mut Vec<String>, i: usize)
    requires
        i < old(pins)@.len(),
    ensures
        texts(final(pins)@) == texts(old(pins)@).remove(i as int),
{
    pins.remove(i);
    assert(texts(pins@) =~= texts(old(pins)@).remove(i as int));
}

// ---- Laws ----

proof fn lemma_unescape_char(c: char, rest: Seq<char>)
    ensures
        unescaped(line_char(c) + rest) == seq![c] + unescaped(rest),
{
    let s = line_char(c) + rest;
    if line_char(c).len() == 2 {
        assert(s.skip(2) =~= rest);
    } else {
        assert(s.skip(1) =~= rest);
    }
}

proof fn lemma_unescape(s: Seq<char>, rest: Seq<char>)
    ensures
        unescaped(escaped(s) + rest) == s + unescaped(rest),
    decreases s.len(),
{
    if s.len() == 0 {
        assert(escaped(s) + rest =~= rest);
        assert(s + unescaped(rest) =~= unescaped(rest));
    } else {
        let tail = line_char(s.last()) + rest;
        lemma_unescape_char(s.last(), rest);
        lemma_unescape(s.drop_last(), tail);
        assert(escaped(s) + rest =~= escaped(s.drop_last()) + tail);
        assert(s.drop_last() + (seq![s.last()] + unescaped(rest)) =~= s + unescaped(rest));
    }
}

/// A line stands for the snippet it was escaped from.
pub proof fn escaping_round_trips(s: Seq<char>)
    ensures
        unescaped(escaped(s)) == s,
{
    let e = Seq::<char>::empty();
    lemma_unescape(s, e);
    assert(escaped(s) + e =~= escaped(s));
    assert(s + e =~= s);
}

/// An escaped snippet is a single line: it holds no line end.
pub proof fn escaped_is_one_line(s: Seq<char>)
    ensures
        !escaped(s).contains('\n'),
        !escaped(s).contains('\r'),
    decreases s.len(),
{
    if s.len() > 0 {
        escaped_is_one_line(s.drop_last());
        let a = escaped(s.drop_last());
        let b = line_char(s.last());
        assert forall|i: int| 0 <= i < (a + b).len() implies (a + b)[i] != '\n' && (a + b)[i]
            != '\r' by {
            if i < a.len() {
                assert(a.contains(a[i]));
            }
        }
    }
}

proof fn lemma_filled(l: Seq<Seq<char>>)
    requires
        forall|i: int| 0 <= i < l.len() ==> (#[trigger] l[i]).len() > 0,
    ensures
        filled(l) == l,
    decreases l.len(),
{
    if l.len() > 0 {
        let rest = l.drop_last();
        assert forall|i: int| 0 <= i < rest.len() implies (#[trigger] rest[i]).len() > 0 by {
            assert(rest[i] == l[i]);
        }
        lemma_filled(rest);
        assert(l[l.len() - 1].len() > 0);
        assert(rest.push(l.last()) =~= l);
    }
}

proof fn lemma_escaped_nonempty(s: Seq<char>)
    requires
        s.len() > 0,
    ensures
        escaped(s).len() > 0,
{
}

/// Snippets that are not empty survive being saved and loaded, in their order.
pub proof fn pins_survive_a_restart(pins: Seq<Seq<char>>)
    requires
        forall|i: int| 0 <= i < pins.len() ==> (#[trigger] pins[i]).len() > 0,
    ensures
        pins_of(pins_file(pins)) == pins,
{
    let l = pins.map_values(|p: Seq<char>| escaped(p));
    assert forall|i: int| 0 <= i < l.len() implies is_line(#[trigger] l[i]) && l[i].len() > 0 by {
        escaped_is_one_line(pins[i]);
        lemma_escaped_nonempty(pins[i]);
        assert(l[i].contains(l[i].last()));
    }
    lemma_lines_unlines(l);
    lemma_filled(l);
    assert forall|i: int| 0 <= i < pins.len() implies unescaped(l[i]) == pins[i] by {
        escaping_round_trips(pins[i]);
    }
    assert(l.map_values(|x: Seq<char>| unescaped(x)) =~= pins);
}

/// A backslash before a character that needs none, or at the end of a line, stands for itself.
pub proof fn stray_backslashes_stay(c: char, rest: Seq<char>)
    requires
        c != 'n',
        c != 'r',
        c != '\\',
    ensures
        unescaped(seq!['\\', c] + rest) == seq!['\\', c] + unescaped(rest),
        unescaped(seq!['\\']) == seq!['\\'],
{
    let s = seq!['\\', c] + rest;
    assert(s.skip(2) =~= rest);
}

/// Empty lines of the file hold no snippet, and every other line holds one.
pub proof fn filled_lines_hold_snippets(l: Seq<Seq<char>>)
    ensures
        filled(l) == l.filter(|x: Seq<char>| x.len() > 0),
    decreases l.len(),
{
    reveal(Seq::filter);
    if l.len() > 0 {
        filled_lines_hold_snippets(l.drop_last());
    }
}

/// A snippet is escaped character by character: backslashes, newlines and carriage returns as a
/// backslash and a letter, and every other character as itself.
pub proof fn escaping_goes_by_character(a: Seq<char>, b: Seq<char>, c: char)
    ensures
        escaped(a + b) == escaped(a) + escaped(b),
        escaped(seq!['\\']) == seq!['\\', '\\'],
        escaped(seq!['\n']) == seq!['\\', 'n'],
        escaped(seq!['\r']) == seq!['\\', 'r'],
        c != '\\' && c != '\n' && c != '\r' ==> escaped(seq![c]) == seq![c],
    decreases b.len(),
{
    let e = Seq::<char>::empty();
    assert(escaped(e) =~= e);
    assert forall|x: char| #[trigger] escaped(seq![x]) == line_char(x) by {
        assert(seq![x].drop_last() =~= e);
        assert(escaped(seq![x]) =~= line_char(x));
    }
    if b.len() == 0 {
        assert(a + b =~= a);
        assert(escaped(a) + escaped(b) =~= escaped(a));
    } else {
        escaping_goes_by_character(a, b.drop_last(), c);
        assert((a + b).drop_last() =~= a + b.drop_last());
        assert((a + b).last() == b.last());
        assert(escaped(a + b) =~= escaped(a) + escaped(b));
    }
}

} // verus!
