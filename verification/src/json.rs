//! JSON string literals.

use vstd::prelude::*;
use vstd::string::*;
use crate::num::{
    dec, dec_value, hex, hex_is_read_back, hex_number, is_digit, lemma_dec_round_trip, push_hex,
};
use crate::text::{begins, join, lead, lemma_join_front, lemma_lead, push_chars};

verus! {

/// How one character is written inside a JSON string.
pub open spec fn json_char(c: char) -> Seq<char> {
    if c == '"' {
        seq!['\\', '"']
    } else if c == '\\' {
        seq!['\\', '\\']
    } else if c == '\n' {
        seq!['\\', 'n']
    } else if c == '\r' {
        seq!['\\', 'r']
    } else if c == '\t' {
        seq!['\\', 't']
    } else if (c as u32) < 0x20 {
        seq!['\\', 'u'] + hex(c as nat, 4)
    } else {
        seq![c]
    }
}

/// How a text is written inside a JSON string.
pub open spec fn json_escaped(s: Seq<char>) -> Seq<char>
    decreases s.len(),
{
    if s.len() == 0 {
        Seq::empty()
    } else {
        json_escaped(s.drop_last()) + json_char(s.last())
    }
}

/// A text as a JSON string literal.
pub open spec fn json_text(s: Seq<char>) -> Seq<char> {
    seq!['"'] + json_escaped(s) + seq!['"']
}

fn push_json_char(out: &mut String, c: char)
    ensures
        final(out)@ == old(out)@ + json_char(c),
{
    let code: u32 = c as u32;
    if c == '"' {
        push_chars(out, &['\\', '"']);
    } else if c == '\\' {
        push_chars(out, &['\\', '\\']);
    } else if c == '\n' {
        push_chars(out, &['\\', 'n']);
    } else if c == '\r' {
        push_chars(out, &['\\', 'r']);
    } else if c == '\t' {
        push_chars(out, &['\\', 't']);
    } else if code < 0x20 {
        push_chars(out, &['\\', 'u']);
        push_hex(out, code as u128, 4);
    } else {
        out.push(c);
    }
    assert(out@ =~= old(out)@ + json_char(c));
}

/// Append a text as a JSON string literal.
pub fn push_json(out: &mut String, s: &str)
    ensures
        final(out)@ == old(out)@ + json_text(s@),
{
    out.push('"');
    let ghost start = out@;
    for c in it: s.chars()
        invariant
            it.seq() == s@,
            out@ == start + json_escaped(s@.take(it.index() as int)),
    {
        proof {
            let k = it.index() as int;
            assert(s@.take(k + 1).drop_last() =~= s@.take(k));
            assert(s@.take(k + 1).last() == c);
        }
        push_json_char(out, c);
    }
    assert(s@.take(s@.len() as int) =~= s@);
    out.push('"');
    assert(out@ =~= old(out)@ + json_text(s@));
}

/// A text as a JSON string literal.
pub fn json_string(s: &str) -> (r: String)
    ensures
        r@ == json_text(s@),
{
    let mut out = String::new();
    push_json(&mut out, s);
    assert(out@ =~= json_text(s@));
    out
}

// ---- Laws ----

/// The text that the inside of a JSON string stands for, for the escapes used here.
pub open spec fn json_unescaped(s: Seq<char>) -> Option<Seq<char>>
    decreases s.len(),
{
    if s.len() == 0 {
        Some(Seq::empty())
    } else if s[0] != '\\' {
        if s[0] == '"' || (s[0] as u32) < 0x20 {
            None
        } else {
            prepend(s[0], json_unescaped(s.skip(1)))
        }
    } else if s.len() >= 2 && s[1] == '"' {
        prepend('"', json_unescaped(s.skip(2)))
    } else if s.len() >= 2 && s[1] == '\\' {
        prepend('\\', json_unescaped(s.skip(2)))
    } else if s.len() >= 2 && s[1] == 'n' {
        prepend('\n', json_unescaped(s.skip(2)))
    } else if s.len() >= 2 && s[1] == 'r' {
        prepend('\r', json_unescaped(s.skip(2)))
    } else if s.len() >= 2 && s[1] == 't' {
        prepend('\t', json_unescaped(s.skip(2)))
    } else if s.len() >= 6 && s[1] == 'u' {
        prepend(hex_number(s.subrange(2, 6)) as char, json_unescaped(s.skip(6)))
    } else {
        None
    }
}

/// A character put before a text, if there is one.
pub open spec fn prepend(c: char, rest: Option<Seq<char>>) -> Option<Seq<char>> {
    match rest {
        Some(r) => Some(seq![c] + r),
        None => None,
    }
}

proof fn lemma_unescape_char(c: char, rest: Seq<char>)
    ensures
        json_unescaped(json_char(c) + rest) == prepend(c, json_unescaped(rest)),
{
    let s = json_char(c) + rest;
    if (c as u32) < 0x20 && c != '\n' && c != '\r' && c != '\t' {
        assert(vstd::arithmetic::power::pow(16, 4) == 65536) by {
            reveal_with_fuel(vstd::arithmetic::power::pow, 5);
        }
        hex_is_read_back(c as nat, 4);
        assert(s.subrange(2, 6) =~= hex(c as nat, 4));
        assert(s.skip(6) =~= rest);
        assert(s[0] == '\\' && s[1] == 'u');
    } else if json_char(c).len() == 2 {
        assert(s.skip(2) =~= rest);
    } else {
        assert(s.skip(1) =~= rest);
    }
}

proof fn lemma_unescape(s: Seq<char>, rest: Seq<char>)
    requires
        json_unescaped(rest) is Some,
    ensures
        json_unescaped(json_escaped(s) + rest) == Some(s + json_unescaped(rest)->0),
    decreases s.len(),
{
    if s.len() == 0 {
        assert(json_escaped(s) + rest =~= rest);
        assert(s + json_unescaped(rest)->0 =~= json_unescaped(rest)->0);
    } else {
        let tail = json_char(s.last()) + rest;
        lemma_unescape_char(s.last(), rest);
        lemma_unescape(s.drop_last(), tail);
        assert(json_escaped(s) + rest =~= json_escaped(s.drop_last()) + tail);
        assert(s.drop_last() + (seq![s.last()] + json_unescaped(rest)->0) =~= s + json_unescaped(
            rest,
        )->0);
    }
}

/// A JSON string literal stands for the text it was made from.
pub proof fn json_text_is_read_back(s: Seq<char>)
    ensures
        json_text(s).len() >= 2,
        json_text(s)[0] == '"',
        json_text(s).last() == '"',
        json_unescaped(json_text(s).subrange(1, json_text(s).len() - 1)) == Some(s),
{
    let e = Seq::<char>::empty();
    lemma_unescape(s, e);
    assert(json_escaped(s) + e =~= json_escaped(s));
    assert(s + e =~= s);
    assert(json_text(s).subrange(1, json_text(s).len() - 1) =~= json_escaped(s));
}

/// A value in a JSON object.
pub ghost enum Scalar {
    Null,
    Flag(bool),
    Number(nat),
    Text(Seq<char>),
}

/// What a JSON string says whose inside a text begins with, and what follows the string.
pub open spec fn read_inside(s: Seq<char>) -> Option<(Seq<char>, Seq<char>)>
    decreases s.len(),
{
    if s.len() == 0 || (s[0] as int) < 0x20 {
        None
    } else if s[0] == '"' {
        Some((Seq::empty(), s.skip(1)))
    } else if s[0] != '\\' {
        put_before(s[0], read_inside(s.skip(1)))
    } else if s.len() < 2 {
        None
    } else if s[1] == '"' || s[1] == '\\' || s[1] == '/' {
        put_before(s[1], read_inside(s.skip(2)))
    } else if s[1] == 'n' {
        put_before('\n', read_inside(s.skip(2)))
    } else if s[1] == 'r' {
        put_before('\r', read_inside(s.skip(2)))
    } else if s[1] == 't' {
        put_before('\t', read_inside(s.skip(2)))
    } else if s[1] == 'u' && s.len() >= 6 {
        put_before(hex_number(s.subrange(2, 6)) as char, read_inside(s.skip(6)))
    } else {
        None
    }
}

/// A character put before a text that was read.
pub open spec fn put_before(c: char, r: Option<(Seq<char>, Seq<char>)>) -> Option<
    (Seq<char>, Seq<char>),
> {
    match r {
        Some((t, rest)) => Some((seq![c] + t, rest)),
        None => None,
    }
}

/// The JSON string that a text begins with, and what follows it.
pub open spec fn read_text(s: Seq<char>) -> Option<(Seq<char>, Seq<char>)> {
    if s.len() > 0 && s[0] == '"' {
        read_inside(s.skip(1))
    } else {
        None
    }
}

/// The JSON value that a text begins with, and what follows it.
pub open spec fn read_scalar(s: Seq<char>) -> Option<(Scalar, Seq<char>)> {
    let n = lead(s, |c: char| is_digit(c));
    if begins(s, "null"@) {
        Some((Scalar::Null, s.skip(4)))
    } else if begins(s, "true"@) {
        Some((Scalar::Flag(true), s.skip(4)))
    } else if begins(s, "false"@) {
        Some((Scalar::Flag(false), s.skip(5)))
    } else if n > 0 {
        Some((Scalar::Number(dec_value(s.take(n))), s.skip(n)))
    } else {
        match read_text(s) {
            Some((t, rest)) => Some((Scalar::Text(t), rest)),
            None => None,
        }
    }
}

/// The members of a JSON object up to its closing brace, and what follows it.
pub open spec fn read_members(s: Seq<char>) -> Option<(Seq<(Seq<char>, Scalar)>, Seq<char>)>
    decreases s.len(),
{
    match read_text(s) {
        Some((key, r)) => if r.len() > 0 && r[0] == ':' {
            match read_scalar(r.skip(1)) {
                Some((v, t)) => if t.len() == 0 || t.len() >= s.len() {
                    None
                } else if t[0] == '}' {
                    Some((seq![(key, v)], t.skip(1)))
                } else if t[0] == ',' {
                    match read_members(t.skip(1)) {
                        Some((ms, u)) => Some((seq![(key, v)] + ms, u)),
                        None => None,
                    }
                } else {
                    None
                },
                None => None,
            }
        } else {
            None
        },
        None => None,
    }
}

/// The JSON object that a text begins with, and what follows it.
pub open spec fn read_object(s: Seq<char>) -> Option<(Seq<(Seq<char>, Scalar)>, Seq<char>)> {
    if s.len() > 0 && s[0] == '{' {
        read_members(s.skip(1))
    } else {
        None
    }
}

/// The objects of a JSON array up to its closing bracket, and what follows it.
pub open spec fn read_objects(s: Seq<char>) -> Option<(Seq<Seq<(Seq<char>, Scalar)>>, Seq<char>)>
    decreases s.len(),
{
    match read_object(s) {
        Some((ms, t)) => if t.len() == 0 || t.len() >= s.len() {
            None
        } else if t[0] == ']' {
            Some((seq![ms], t.skip(1)))
        } else if t[0] == ',' {
            match read_objects(t.skip(1)) {
                Some((l, u)) => Some((seq![ms] + l, u)),
                None => None,
            }
        } else {
            None
        },
        None => None,
    }
}

/// The JSON array of objects that a text begins with, and what follows it.
pub open spec fn read_array(s: Seq<char>) -> Option<(Seq<Seq<(Seq<char>, Scalar)>>, Seq<char>)> {
    if s.len() < 2 || s[0] != '[' {
        None
    } else if s[1] == ']' {
        Some((Seq::empty(), s.skip(2)))
    } else {
        read_objects(s.skip(1))
    }
}

/// A value as JSON.
pub open spec fn scalar_text(v: Scalar) -> Seq<char> {
    match v {
        Scalar::Null => "null"@,
        Scalar::Flag(true) => "true"@,
        Scalar::Flag(false) => "false"@,
        Scalar::Number(n) => dec(n),
        Scalar::Text(t) => json_text(t),
    }
}

/// A member of an object as JSON.
pub open spec fn member_text(m: (Seq<char>, Scalar)) -> Seq<char> {
    json_text(m.0) + seq![':'] + scalar_text(m.1)
}

/// The members of an object as JSON.
pub open spec fn members_text(ms: Seq<(Seq<char>, Scalar)>) -> Seq<char> {
    join(ms.map_values(|m: (Seq<char>, Scalar)| member_text(m)), seq![','])
}

/// An object as JSON.
pub open spec fn object_text(ms: Seq<(Seq<char>, Scalar)>) -> Seq<char> {
    seq!['{'] + members_text(ms) + seq!['}']
}

proof fn lemma_read_char(c: char, rest: Seq<char>)
    ensures
        read_inside(json_char(c) + rest) == put_before(c, read_inside(rest)),
{
    let s = json_char(c) + rest;
    if (c as u32) < 0x20 && c != '\n' && c != '\r' && c != '\t' {
        assert(vstd::arithmetic::power::pow(16, 4) == 65536) by {
            reveal_with_fuel(vstd::arithmetic::power::pow, 5);
        }
        hex_is_read_back(c as nat, 4);
        assert(s.subrange(2, 6) =~= hex(c as nat, 4));
        assert(s.skip(6) =~= rest);
        assert(s[0] == '\\' && s[1] == 'u');
    } else if json_char(c).len() == 2 {
        assert(s.skip(2) =~= rest);
    } else {
        assert(s.skip(1) =~= rest);
    }
}

proof fn lemma_read_inside(s: Seq<char>, tail: Seq<char>)
    requires
        read_inside(tail) is Some,
    ensures
        read_inside(json_escaped(s) + tail) == Some((s + (read_inside(tail)->0).0, (read_inside(tail)->0).1)),
    decreases s.len(),
{
    if s.len() == 0 {
        assert(json_escaped(s) + tail =~= tail);
        assert(s + (read_inside(tail)->0).0 =~= (read_inside(tail)->0).0);
    } else {
        let next = json_char(s.last()) + tail;
        lemma_read_char(s.last(), tail);
        lemma_read_inside(s.drop_last(), next);
        assert(json_escaped(s) + tail =~= json_escaped(s.drop_last()) + next);
        assert(s.drop_last() + (seq![s.last()] + (read_inside(tail)->0).0) =~= s + (read_inside(
            tail,
        )->0).0);
    }
}

/// A JSON string is read back from the beginning of a text, whatever follows it.
pub proof fn strings_are_read_back(t: Seq<char>, rest: Seq<char>)
    ensures
        read_text(json_text(t) + rest) == Some((t, rest)),
{
    let tail = seq!['"'] + rest;
    assert(tail.skip(1) =~= rest);
    lemma_read_inside(t, tail);
    let s = json_text(t) + rest;
    assert(s.skip(1) =~= json_escaped(t) + tail);
    assert(t + Seq::<char>::empty() =~= t);
}

/// A JSON value is read back from the beginning of a text, whatever follows it that is no digit.
#[verifier::rlimit(40)]
pub proof fn values_are_read_back(v: Scalar, rest: Seq<char>)
    requires
        rest.len() > 0,
        !is_digit(rest[0]),
    ensures
        read_scalar(scalar_text(v) + rest) == Some((v, rest)),
{
    reveal_strlit("null");
    reveal_strlit("true");
    reveal_strlit("false");
    let p = |c: char| is_digit(c);
    let s = scalar_text(v) + rest;
    let (a, b, c) = ("null"@, "true"@, "false"@);
    match v {
        Scalar::Null => {
            assert(s.subrange(0, 4) =~= a);
            assert(s.skip(4) =~= rest);
        },
        Scalar::Flag(true) => {
            assert(s[0] == 't');
            assert(begins(s, a) ==> s.subrange(0, 4)[0] == a[0]);
            assert(s.subrange(0, 4) =~= b);
            assert(s.skip(4) =~= rest);
        },
        Scalar::Flag(false) => {
            assert(s[0] == 'f');
            assert(begins(s, a) ==> s.subrange(0, 4)[0] == a[0]);
            assert(begins(s, b) ==> s.subrange(0, 4)[0] == b[0]);
            assert(s.subrange(0, 5) =~= c);
            assert(s.skip(5) =~= rest);
        },
        Scalar::Number(n) => {
            let d = dec(n);
            lemma_dec_round_trip(n);
            assert(is_digit(d[0]) && s[0] == d[0]);
            assert(begins(s, a) ==> s.subrange(0, 4)[0] == a[0]);
            assert(begins(s, b) ==> s.subrange(0, 4)[0] == b[0]);
            assert(begins(s, c) ==> s.subrange(0, 5)[0] == c[0]);
            assert forall|j: int| 0 <= j < d.len() implies p(#[trigger] s[j]) by {
                assert(s[j] == d[j]);
                assert(is_digit(d[j]));
            }
            assert(s[d.len() as int] == rest[0]);
            lemma_lead(s, p, d.len() as int);
            assert(s.take(d.len() as int) =~= d);
            assert(s.skip(d.len() as int) =~= rest);
        },
        Scalar::Text(t) => {
            assert(s[0] == '"');
            assert(begins(s, a) ==> s.subrange(0, 4)[0] == a[0]);
            assert(begins(s, b) ==> s.subrange(0, 4)[0] == b[0]);
            assert(begins(s, c) ==> s.subrange(0, 5)[0] == c[0]);
            lemma_lead(s, p, 0);
            strings_are_read_back(t, rest);
        },
    }
}

proof fn lemma_one_member(m: (Seq<char>, Scalar), t: Seq<char>) -> (r: Seq<char>)
    requires
        t.len() > 0,
        !is_digit(t[0]),
    ensures
        read_text(member_text(m) + t) == Some((m.0, r)),
        r.len() > 0,
        r[0] == ':',
        read_scalar(r.skip(1)) == Some((m.1, t)),
        t.len() < (member_text(m) + t).len(),
{
    let r = seq![':'] + scalar_text(m.1) + t;
    assert(member_text(m) + t =~= json_text(m.0) + r);
    strings_are_read_back(m.0, r);
    assert(r.skip(1) =~= scalar_text(m.1) + t);
    values_are_read_back(m.1, t);
    r
}

proof fn lemma_last_member(m: (Seq<char>, Scalar), rest: Seq<char>)
    ensures
        read_members(member_text(m) + (seq!['}'] + rest)) == Some((seq![m], rest)),
{
    let t = seq!['}'] + rest;
    let r = lemma_one_member(m, t);
    assert(t[0] == '}');
    assert(t.skip(1) =~= rest);
    assert(seq![(m.0, m.1)] =~= seq![m]);
}

proof fn lemma_front_member(m: (Seq<char>, Scalar), u: Seq<char>)
    requires
        read_members(u) is Some,
    ensures
        read_members(member_text(m) + (seq![','] + u)) == Some(
            (seq![m] + (read_members(u)->0).0, (read_members(u)->0).1),
        ),
{
    let t = seq![','] + u;
    let r = lemma_one_member(m, t);
    assert(t[0] == ',');
    assert(t.skip(1) =~= u);
    assert(seq![(m.0, m.1)] =~= seq![m]);
}

#[verifier::rlimit(40)]
proof fn lemma_members(ms: Seq<(Seq<char>, Scalar)>, rest: Seq<char>)
    requires
        ms.len() > 0,
    ensures
        read_members(members_text(ms) + (seq!['}'] + rest)) == Some((ms, rest)),
    decreases ms.len(),
{
    let f = |m: (Seq<char>, Scalar)| member_text(m);
    let parts = ms.map_values(f);
    assert(parts[0] == member_text(ms[0]));
    if ms.len() == 1 {
        lemma_last_member(ms[0], rest);
        assert(seq![ms[0]] =~= ms);
    } else {
        let left = ms.skip(1);
        let u = members_text(left) + (seq!['}'] + rest);
        lemma_members(left, rest);
        lemma_front_member(ms[0], u);
        lemma_join_front(parts, seq![',']);
        assert(parts.skip(1) =~= left.map_values(f));
        assert(members_text(ms) + (seq!['}'] + rest) =~= member_text(ms[0]) + (seq![','] + u));
        assert(seq![ms[0]] + left =~= ms);
    }
}

/// A JSON object is read back from the beginning of a text, member by member.
pub proof fn objects_are_read_back(ms: Seq<(Seq<char>, Scalar)>, rest: Seq<char>)
    requires
        ms.len() > 0,
    ensures
        read_object(object_text(ms) + rest) == Some((ms, rest)),
{
    lemma_members(ms, rest);
    let s = object_text(ms) + rest;
    assert(s.skip(1) =~= members_text(ms) + (seq!['}'] + rest));
}

/// The objects of an array as JSON.
pub open spec fn object_texts(l: Seq<Seq<(Seq<char>, Scalar)>>) -> Seq<Seq<char>> {
    l.map_values(|ms: Seq<(Seq<char>, Scalar)>| object_text(ms))
}

#[verifier::rlimit(40)]
proof fn lemma_objects(l: Seq<Seq<(Seq<char>, Scalar)>>, rest: Seq<char>)
    requires
        l.len() > 0,
        forall|i: int| 0 <= i < l.len() ==> (#[trigger] l[i]).len() > 0,
    ensures
        read_objects(join(object_texts(l), seq![',']) + (seq![']'] + rest)) == Some((l, rest)),
    decreases l.len(),
{
    let parts = object_texts(l);
    let s = join(parts, seq![',']) + (seq![']'] + rest);
    assert(l[0].len() > 0);
    assert(parts[0] == object_text(l[0]));
    if l.len() == 1 {
        let t = seq![']'] + rest;
        objects_are_read_back(l[0], t);
        assert(t.skip(1) =~= rest);
        assert(seq![l[0]] =~= l);
    } else {
        let left = l.skip(1);
        assert forall|i: int| 0 <= i < left.len() implies (#[trigger] left[i]).len() > 0 by {
            assert(left[i] == l[i + 1]);
        }
        lemma_objects(left, rest);
        let u = join(object_texts(left), seq![',']) + (seq![']'] + rest);
        let t = seq![','] + u;
        lemma_join_front(parts, seq![',']);
        assert(parts.skip(1) =~= object_texts(left));
        assert(s =~= object_text(l[0]) + t);
        objects_are_read_back(l[0], t);
        assert(t.skip(1) =~= u);
        assert(seq![l[0]] + left =~= l);
    }
}

/// A JSON array of objects is read back from the beginning of a text, object by object.
pub proof fn arrays_are_read_back(l: Seq<Seq<(Seq<char>, Scalar)>>, rest: Seq<char>)
    requires
        forall|i: int| 0 <= i < l.len() ==> (#[trigger] l[i]).len() > 0,
    ensures
        read_array(seq!['['] + join(object_texts(l), seq![',']) + seq![']'] + rest) == Some((l, rest)),
{
    let s = seq!['['] + join(object_texts(l), seq![',']) + seq![']'] + rest;
    if l.len() == 0 {
        assert(s.skip(2) =~= rest);
        assert(l =~= Seq::empty());
    } else {
        lemma_objects(l, rest);
        let inner = join(object_texts(l), seq![',']) + (seq![']'] + rest);
        assert(s.skip(1) =~= inner);
        if s[1] == ']' {
            assert(inner[0] == ']');
            assert(read_object(inner) is None);
        }
    }
}

/// One more member is written behind the others.
pub proof fn lemma_members_push(ms: Seq<(Seq<char>, Scalar)>, m: (Seq<char>, Scalar))
    ensures
        members_text(ms.push(m)) == (if ms.len() == 0 {
            member_text(m)
        } else {
            members_text(ms) + seq![','] + member_text(m)
        }),
{
    let f = |m: (Seq<char>, Scalar)| member_text(m);
    let parts = ms.push(m).map_values(f);
    assert(parts.drop_last() =~= ms.map_values(f));
    assert(parts.last() == member_text(m));
}

/// An object of three members, written out.
pub proof fn lemma_three_members(a: (Seq<char>, Scalar), b: (Seq<char>, Scalar), c: (Seq<char>, Scalar))
    ensures
        members_text(seq![a, b, c]) == member_text(a) + seq![','] + member_text(b) + seq![',']
            + member_text(c),
{
    let none = Seq::<(Seq<char>, Scalar)>::empty();
    let one = none.push(a);
    let two = one.push(b);
    lemma_members_push(none, a);
    lemma_members_push(one, b);
    lemma_members_push(two, c);
    assert(two.push(c) =~= seq![a, b, c]);
}

/// Whether a text can be read as a JSON object with the given members, and nothing else.
pub open spec fn is_object(s: Seq<char>, ms: Seq<(Seq<char>, Scalar)>) -> bool {
    read_object(s) == Some((ms, Seq::<char>::empty()))
}

/// A written object can be read as the object it is.
pub proof fn lemma_is_object(ms: Seq<(Seq<char>, Scalar)>)
    requires
        ms.len() > 0,
    ensures
        is_object(object_text(ms), ms),
{
    let e = Seq::<char>::empty();
    objects_are_read_back(ms, e);
    assert(object_text(ms) + e =~= object_text(ms));
}

/// A key without characters that need escaping is written between quotation marks as it is.
pub proof fn lemma_key(s: Seq<char>)
    requires
        forall|i: int|
            0 <= i < s.len() ==> (#[trigger] s[i]) as u32 >= 0x20 && s[i] != '"' && s[i] != '\\',
    ensures
        json_text(s) == seq!['"'] + s + seq!['"'],
    decreases s.len(),
{
    if s.len() == 0 {
        assert(json_escaped(s) =~= s);
    } else {
        let rest = s.drop_last();
        assert forall|i: int| 0 <= i < rest.len() implies (#[trigger] rest[i]) as u32 >= 0x20
            && rest[i] != '"' && rest[i] != '\\' by {
            assert(rest[i] == s[i]);
        }
        lemma_key(rest);
        assert(json_text(rest).subrange(1, json_text(rest).len() - 1) =~= json_escaped(rest));
        assert((seq!['"'] + rest + seq!['"']).subrange(1, rest.len() as int + 1) =~= rest);
        let c = s[s.len() - 1];
        assert(c as u32 >= 0x20 && c != '"' && c != '\\');
        assert(json_char(c) =~= seq![c]);
        assert(json_escaped(s) =~= s);
    }
}

/// An object that is not closed yet.
pub open spec fn opened(ms: Seq<(Seq<char>, Scalar)>) -> Seq<char> {
    seq!['{'] + members_text(ms)
}

/// How an object begins whose first key stands in `mark`.
pub proof fn lemma_first_member(key: Seq<char>, v: Scalar, mark: Seq<char>)
    requires
        mark == seq!['{', '"'] + key + seq!['"', ':'],
        forall|i: int|
            0 <= i < key.len() ==> (#[trigger] key[i]) as u32 >= 0x20 && key[i] != '"' && key[i]
                != '\\',
    ensures
        mark + scalar_text(v) == opened(seq![(key, v)]),
{
    let none = Seq::<(Seq<char>, Scalar)>::empty();
    lemma_key(key);
    lemma_members_push(none, (key, v));
    assert(none.push((key, v)) =~= seq![(key, v)]);
    assert(mark + scalar_text(v) =~= opened(seq![(key, v)]));
}

/// How an object goes on with a key that stands in `mark`.
pub proof fn lemma_next_member(
    ms: Seq<(Seq<char>, Scalar)>,
    key: Seq<char>,
    v: Scalar,
    mark: Seq<char>,
)
    requires
        ms.len() > 0,
        mark == seq![',', '"'] + key + seq!['"', ':'],
        forall|i: int|
            0 <= i < key.len() ==> (#[trigger] key[i]) as u32 >= 0x20 && key[i] != '"' && key[i]
                != '\\',
    ensures
        opened(ms) + mark + scalar_text(v) == opened(ms.push((key, v))),
{
    lemma_key(key);
    lemma_members_push(ms, (key, v));
    assert(opened(ms) + mark + scalar_text(v) =~= opened(ms.push((key, v))));
}

/// Whether a key needs no escaping.
pub open spec fn is_plain_key(key: Seq<char>) -> bool {
    forall|i: int|
        0 <= i < key.len() ==> (#[trigger] key[i]) as u32 >= 0x20 && key[i] != '"' && key[i] != '\\'
}

/// What stands before the value of a member: the brace that opens the object, or a comma, and the
/// key.
pub open spec fn key_mark(first: bool, key: Seq<char>) -> Seq<char> {
    seq![
        if first {
            '{'
        } else {
            ','
        },
        '"',
    ] + key + seq!['"', ':']
}

/// Marks and values in turn.
pub open spec fn in_turn(marks: Seq<Seq<char>>, values: Seq<Seq<char>>, n: nat) -> Seq<char>
    decreases n,
{
    if n == 0 {
        Seq::empty()
    } else if n == 1 {
        marks[0] + values[0]
    } else {
        in_turn(marks, values, (n - 1) as nat) + marks[n - 1] + values[n - 1]
    }
}

/// Marks and values in turn are an object that is not closed yet.
pub proof fn lemma_in_turn(
    marks: Seq<Seq<char>>,
    values: Seq<Seq<char>>,
    ms: Seq<(Seq<char>, Scalar)>,
    n: nat,
)
    requires
        0 < n <= ms.len(),
        marks.len() == ms.len(),
        values.len() == ms.len(),
        forall|i: int|
            0 <= i < ms.len() ==> is_plain_key((#[trigger] ms[i]).0) && marks[i] == key_mark(
                i == 0,
                ms[i].0,
            ) && values[i] == scalar_text(ms[i].1),
    ensures
        in_turn(marks, values, n) == opened(ms.take(n as int)),
    decreases n,
{
    let m = ms[n - 1];
    if n == 1 {
        lemma_first_member(m.0, m.1, marks[0]);
        assert(ms.take(1) =~= seq![(m.0, m.1)]);
    } else {
        lemma_in_turn(marks, values, ms, (n - 1) as nat);
        lemma_next_member(ms.take(n - 1), m.0, m.1, marks[n - 1]);
        assert(ms.take(n - 1).push((m.0, m.1)) =~= ms.take(n as int));
    }
}

} // verus!
