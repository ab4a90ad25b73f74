//! Client-supplied paths: which stay inside the shared folder, and what they name there.

use vstd::prelude::*;
use vstd::string::*;
use crate::text::{
    begins, chars_of, find_char, join, join_strings, lemma_split_join, lemma_split_pieces, part,
    pieces, rows, split, starts_with, string_of, texts,
};
use crate::url::opt_text;

verus! {

/// Whether a path segment names something: it is neither empty nor a single dot.
pub open spec fn is_solid(seg: Seq<char>) -> bool {
    seg.len() > 0 && seg != seq!['.']
}

/// The segments that name something.
pub open spec fn solid(segs: Seq<Seq<char>>) -> Seq<Seq<char>>
    decreases segs.len(),
{
    if segs.len() == 0 {
        Seq::empty()
    } else if is_solid(segs.last()) {
        solid(segs.drop_last()).push(segs.last())
    } else {
        solid(segs.drop_last())
    }
}

/// The naming segments of a relative path.
pub open spec fn segments(rel: Seq<char>) -> Seq<Seq<char>> {
    solid(split(rel, '/'))
}

/// Whether a segment leads out of its folder, or could on some host.
pub open spec fn is_escape(seg: Seq<char>) -> bool {
    seg == seq!['.', '.'] || seg.contains('\\')
}

/// The components below the root that a relative path names, unless it would leave the root.
pub open spec fn resolved(rel: Seq<char>) -> Option<Seq<Seq<char>>> {
    if exists|i: int| 0 <= i < segments(rel).len() && is_escape(#[trigger] segments(rel)[i]) {
        None
    } else {
        Some(segments(rel))
    }
}

/// A relative path in clean `a/b/c` form.
pub open spec fn normalized(rel: Seq<char>) -> Seq<char> {
    join(segments(rel), seq!['/'])
}

/// Whether a name is a single path component that can be created inside a folder.
pub open spec fn plain_filename(name: Seq<char>) -> bool {
    &&& name.len() > 0
    &&& !name.contains('/')
    &&& !name.contains('\\')
    &&& name != seq!['.']
    &&& name != seq!['.', '.']
}

/// The text of an optional list of strings.
pub open spec fn opt_texts(v: Option<Vec<String>>) -> Option<Seq<Seq<char>>> {
    match v {
        Some(l) => Some(texts(l@)),
        None => None,
    }
}

fn dot(seg: &[char]) -> (r: bool)
    ensures
        r == (seg@ == seq!['.']),
{
    let r: bool = seg.len() == 1 && seg[0] == '.';
    assert(r ==> seg@ =~= seq!['.']);
    r
}

fn dots(seg: &[char]) -> (r: bool)
    ensures
        r == (seg@ == seq!['.', '.']),
{
    let r: bool = seg.len() == 2 && seg[0] == '.' && seg[1] == '.';
    assert(r ==> seg@ =~= seq!['.', '.']);
    r
}

fn solid_pieces(rel: &str) -> (r: Vec<Vec<char>>)
    ensures
        rows(r@) == segments(rel@),
{
    let all = pieces(&chars_of(rel), '/');
    let mut out: Vec<Vec<char>> = Vec::new();
    let mut i: usize = 0;
    while i < all.len()
        invariant
            i <= all@.len(),
            rows(out@) == solid(rows(all@).take(i as int)),
        decreases all@.len() - i,
    {
        let ghost before = out@;
        proof {
            let now = rows(all@).take(i + 1);
            assert(now.drop_last() =~= rows(all@).take(i as int));
            assert(now.last() == all@[i as int]@);
        }
        if all[i].len() > 0 && !dot(&all[i]) {
            let piece = part(&all[i], 0, all[i].len());
            assert(piece@ =~= all@[i as int]@);
            out.push(piece);
            assert(rows(out@) =~= rows(before).push(piece@));
        }
        i = i + 1;
    }
    assert(rows(all@).take(i as int) =~= rows(all@));
    out
}

fn strings_of(v: &Vec<Vec<char>>) -> (r: Vec<String>)
    ensures
        texts(r@) == rows(v@),
{
    let mut out: Vec<String> = Vec::new();
    let mut i: usize = 0;
    while i < v.len()
        invariant
            i <= v@.len(),
            out@.len() == i,
            forall|j: int| 0 <= j < i ==> (#[trigger] out@[j])@ == v@[j]@,
        decreases v@.len() - i,
    {
        out.push(string_of(&v[i]));
        i = i + 1;
    }
    assert(texts(out@) =~= rows(v@));
    out
}

/// Resolve a client-supplied relative path to the components to append to the root. A path that
/// would leave the root is refused; the empty path is the root itself.
pub fn resolve_within(rel: &str) -> (r: Option<Vec<String>>)
    ensures
        opt_texts(r) == resolved(rel@),
{
    let segs = solid_pieces(rel);
    let mut i: usize = 0;
    while i < segs.len()
        invariant
            i <= segs@.len(),
            rows(segs@) == segments(rel@),
            forall|j: int| 0 <= j < i ==> !is_escape(#[trigger] segments(rel@)[j]),
        decreases segs@.len() - i,
    {
        assert(segments(rel@)[i as int] == segs@[i as int]@);
        if dots(&segs[i]) || find_char(&segs[i], '\\') < segs[i].len() {
            assert(is_escape(segments(rel@)[i as int]));
            return None;
        }
        i = i + 1;
    }
    Some(strings_of(&segs))
}

/// Collapse a relative path to clean `a/b/c` form: no empty or `.` segments.
pub fn normalize_rel(rel: &str) -> (r: String)
    ensures
        r@ == normalized(rel@),
{
    let segs = strings_of(&solid_pieces(rel));
    proof {
        reveal_strlit("/");
        assert("/"@ =~= seq!['/']);
    }
    join_strings(&segs, "/")
}

/// Whether a name is a single path component that can be created inside a folder.
pub fn is_plain_filename(name: &str) -> (r: bool)
    ensures
        r == plain_filename(name@),
{
    let n = chars_of(name);
    n.len() > 0 && find_char(&n, '/') == n.len() && find_char(&n, '\\') == n.len() && !dot(&n)
        && !dots(&n)
}

// ---- Temporary files of uploads in progress ----

/// Prefix of the temporary file of an upload in progress.
pub const PART_PREFIX: &'static str = ".zap-part-";

/// The name of the temporary file that an upload of `name` grows in.
pub open spec fn part_name(name: Seq<char>) -> Seq<char> {
    PART_PREFIX@ + name
}

/// Whether a name is that of a temporary file.
pub open spec fn is_part(name: Seq<char>) -> bool {
    begins(name, PART_PREFIX@)
}

/// The name of the temporary file that an upload of `name` grows in.
pub fn part_path(name: &str) -> (r: String)
    ensures
        r@ == part_name(name@),
{
    let mut r = String::new();
    r.append(PART_PREFIX);
    r.append(name);
    assert(r@ =~= part_name(name@));
    r
}

/// Whether a name is that of a temporary file.
pub fn is_part_file(name: &str) -> (r: bool)
    ensures
        r == is_part(name@),
{
    starts_with(&chars_of(name), &chars_of(PART_PREFIX))
}

/// The final name behind a temporary file's name.
pub open spec fn real_name(name: Seq<char>) -> Option<Seq<char>> {
    if is_part(name) {
        Some(name.skip(PART_PREFIX@.len() as int))
    } else {
        None
    }
}

/// The final name behind a temporary file's name.
pub fn strip_part(name: &str) -> (r: Option<String>)
    ensures
        opt_text(r) == real_name(name@),
{
    let n = chars_of(name);
    let p = chars_of(PART_PREFIX);
    if starts_with(&n, &p) {
        let rest = part(&n, p.len(), n.len());
        assert(rest@ =~= name@.skip(p@.len() as int));
        Some(string_of(&rest))
    } else {
        None
    }
}

// ---- Laws ----

proof fn lemma_solid(segs: Seq<Seq<char>>, c: char)
    requires
        forall|i: int| 0 <= i < segs.len() ==> !(#[trigger] segs[i]).contains(c),
    ensures
        forall|i: int|
            0 <= i < solid(segs).len() ==> is_solid(#[trigger] solid(segs)[i]) && !solid(
                segs,
            )[i].contains(c),
    decreases segs.len(),
{
    if segs.len() > 0 {
        let rest = segs.drop_last();
        assert forall|i: int| 0 <= i < rest.len() implies !(#[trigger] rest[i]).contains(c) by {
            assert(rest[i] == segs[i]);
        }
        lemma_solid(rest, c);
        let all = solid(segs);
        assert(!segs[segs.len() - 1].contains(c));
        assert forall|i: int| 0 <= i < all.len() implies is_solid(#[trigger] all[i])
            && !all[i].contains(c) by {
            if i < solid(rest).len() {
                assert(all[i] == solid(rest)[i]);
            }
        }
    }
}

proof fn lemma_all_solid(segs: Seq<Seq<char>>)
    requires
        forall|i: int| 0 <= i < segs.len() ==> is_solid(#[trigger] segs[i]),
    ensures
        solid(segs) == segs,
    decreases segs.len(),
{
    if segs.len() > 0 {
        let rest = segs.drop_last();
        assert forall|i: int| 0 <= i < rest.len() implies is_solid(#[trigger] rest[i]) by {
            assert(rest[i] == segs[i]);
        }
        lemma_all_solid(rest);
        assert(segs.last() == segs[segs.len() - 1]);
        assert(rest.push(segs.last()) =~= segs);
    }
}

/// A resolved path never leaves the root: every component is a plain file name.
pub proof fn resolved_stays_inside(rel: Seq<char>)
    ensures
        resolved(rel) matches Some(comps) ==> forall|i: int|
            0 <= i < comps.len() ==> plain_filename(#[trigger] comps[i]),
{
    lemma_split_pieces(rel, '/');
    lemma_solid(split(rel, '/'), '/');
    if resolved(rel) is Some {
        let comps = segments(rel);
        assert forall|i: int| 0 <= i < comps.len() implies plain_filename(#[trigger] comps[i]) by {
            assert(!is_escape(segments(rel)[i]));
        }
    }
}

/// Normalising keeps what a path names.
pub proof fn normalized_names_the_same(rel: Seq<char>)
    ensures
        segments(normalized(rel)) == segments(rel),
        resolved(normalized(rel)) == resolved(rel),
        normalized(normalized(rel)) == normalized(rel),
{
    lemma_split_pieces(rel, '/');
    lemma_solid(split(rel, '/'), '/');
    let segs = segments(rel);
    if segs.len() == 0 {
        let e = Seq::<char>::empty();
        assert(normalized(rel) =~= e);
        assert(split(e, '/') =~= seq![e]);
        assert(seq![e].drop_last() =~= Seq::<Seq<char>>::empty());
        assert(solid(seq![e].drop_last()) =~= Seq::<Seq<char>>::empty());
        assert(segments(e) =~= segs);
    } else {
        lemma_split_join(segs, '/');
        lemma_all_solid(segs);
    }
}

/// A temporary file's name leads back to the name it was made for.
pub proof fn part_name_leads_back(name: Seq<char>)
    ensures
        is_part(part_name(name)),
        real_name(part_name(name)) == Some(name),
{
    let p = PART_PREFIX@;
    assert(part_name(name).subrange(0, p.len() as int) =~= p);
    assert(part_name(name).skip(p.len() as int) =~= name);
}

/// Whether a segment of a path names something.
pub open spec fn names_something(seg: Seq<char>) -> bool {
    seg.len() != 0 && seg != seq!['.']
}

/// Whether some segment of a path is `..` or holds a backslash.
pub open spec fn leads_out(segs: Seq<Seq<char>>) -> bool {
    exists|i: int| 0 <= i < segs.len() && (#[trigger] segs[i] == seq!['.', '.'] || segs[i].contains('\\'))
}

proof fn lemma_solid_filter(segs: Seq<Seq<char>>)
    ensures
        solid(segs) == segs.filter(|seg: Seq<char>| names_something(seg)),
        leads_out(solid(segs)) == leads_out(segs),
    decreases segs.len(),
{
    reveal(Seq::filter);
    if segs.len() > 0 {
        let rest = segs.drop_last();
        let last = segs.last();
        lemma_solid_filter(rest);
        assert(segs =~= rest.push(last));
        let all = solid(segs);
        if leads_out(segs) {
            let i = choose|i: int|
                0 <= i < segs.len() && (#[trigger] segs[i] == seq!['.', '.'] || segs[i].contains('\\'));
            if i < rest.len() {
                assert(rest[i] == segs[i]);
                assert(leads_out(rest));
                let j = choose|j: int|
                    0 <= j < solid(rest).len() && (#[trigger] solid(rest)[j] == seq!['.', '.']
                        || solid(rest)[j].contains('\\'));
                assert(all[j] == solid(rest)[j]);
            } else {
                assert(last == segs[i]);
                if last =~= seq!['.'] {
                    assert(last.len() == 1);
                    assert(!last.contains('\\'));
                }
                assert(is_solid(last));
                assert(all[all.len() - 1] == last);
            }
        }
        if leads_out(all) {
            let j = choose|j: int|
                0 <= j < all.len() && (#[trigger] all[j] == seq!['.', '.'] || all[j].contains('\\'));
            if j < solid(rest).len() {
                assert(all[j] == solid(rest)[j]);
                assert(leads_out(solid(rest)));
                let i = choose|i: int|
                    0 <= i < rest.len() && (#[trigger] rest[i] == seq!['.', '.'] || rest[i].contains(
                        '\\',
                    ));
                assert(segs[i] == rest[i]);
            } else {
                assert(all[j] == segs[segs.len() - 1]);
            }
        }
    }
}

/// A path is refused exactly when one of the segments between its slashes is `..` or holds a
/// backslash; any other path names, in order, its segments that are neither empty nor `.`.
pub proof fn paths_name_their_segments(segs: Seq<Seq<char>>)
    requires
        segs.len() > 0,
        forall|i: int| 0 <= i < segs.len() ==> !(#[trigger] segs[i]).contains('/'),
    ensures
        resolved(join(segs, seq!['/'])) == (if leads_out(segs) {
            None
        } else {
            Some(segs.filter(|seg: Seq<char>| names_something(seg)))
        }),
        normalized(join(segs, seq!['/'])) == join(
            segs.filter(|seg: Seq<char>| names_something(seg)),
            seq!['/'],
        ),
{
    let rel = join(segs, seq!['/']);
    lemma_split_join(segs, '/');
    lemma_solid_filter(segs);
    let all = segments(rel);
    assert(all == solid(segs));
    if leads_out(all) {
        let j = choose|j: int|
            0 <= j < all.len() && (#[trigger] all[j] == seq!['.', '.'] || all[j].contains('\\'));
        assert(is_escape(segments(rel)[j]));
    }
    if resolved(rel) is None {
        let j = choose|j: int| 0 <= j < segments(rel).len() && is_escape(#[trigger] segments(rel)[j]);
        assert(all[j] == seq!['.', '.'] || all[j].contains('\\'));
    }
}

/// A plain file name names the entry of that name in the root, and nothing else is a plain file
/// name than a path that names one entry as it stands.
pub proof fn plain_names_name_themselves(name: Seq<char>)
    ensures
        plain_filename(name) <==> resolved(name) == Some(seq![name]),
{
    let one = seq![name];
    if resolved(name) == Some(one) {
        resolved_stays_inside(name);
        let comps = resolved(name)->0;
        assert(comps == one);
        assert(plain_filename(comps[0]));
    }
    if plain_filename(name) {
        assert forall|i: int| 0 <= i < one.len() implies !(#[trigger] one[i]).contains('/') by {}
        paths_name_their_segments(one);
        assert(one.drop_last() =~= Seq::<Seq<char>>::empty());
        assert(join(one, seq!['/']) =~= name);
        lemma_all_solid(one);
        lemma_solid_filter(one);
        if leads_out(one) {
            let i = choose|i: int|
                0 <= i < one.len() && (#[trigger] one[i] == seq!['.', '.'] || one[i].contains('\\'));
            assert(one[i] == name);
        }
    }
}

/// The names of temporary files are those that the prefix leads, and no others.
pub proof fn temporary_names_are_told_apart(name: Seq<char>)
    ensures
        is_part(name) <==> exists|rest: Seq<char>| name == #[trigger] (PART_PREFIX@ + rest),
        real_name(name) matches Some(rest) ==> name == PART_PREFIX@ + rest,
{
    let p = PART_PREFIX@;
    if is_part(name) {
        let rest = name.skip(p.len() as int);
        assert(name =~= p + rest);
    }
    if exists|rest: Seq<char>| name == #[trigger] (p + rest) {
        let rest = choose|rest: Seq<char>| name == #[trigger] (p + rest);
        assert(name.subrange(0, p.len() as int) =~= p);
    }
}

} // verus!
