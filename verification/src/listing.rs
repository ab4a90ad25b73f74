//! What clients see of the shared folder: listings, search results, unfinished uploads, and the
//! files of a folder archive.

use vstd::prelude::*;
use vstd::seq_lib::*;
use vstd::string::*;
use crate::json::{
    arrays_are_read_back, is_object, json_text, lemma_first_member, lemma_is_object, lemma_key,
    lemma_members_push, lemma_three_members, object_text, object_texts, push_json, read_array,
    read_members, read_text, scalar_text, strings_are_read_back, Scalar,
};
use crate::num::{dec, push_dec};
use crate::paths::{
    is_part, is_part_file, normalize_rel, normalized, real_name, resolve_within, resolved,
    strip_part,
};
use crate::text::{
    begins, chars_of, find, find_text, join, join_strings, lemma_find_text, lowercase, occurs_at,
    replace_char, replaced, string_of, texts, trim, trimmed,
};
use crate::url::opt_text;

verus! {

/// What a directory entry is.
#[derive(Clone, Copy, Debug, PartialEq, Eq, Structural)]
pub enum EntryKind {
    Dir,
    File,
    Other,
}

/// A directory entry as read from disk.
pub struct Listed {
    pub name: String,
    pub kind: EntryKind,
    pub size: u64,
}

// ---- Ordering ----

/// Whether text `a` comes strictly before text `b`, character by character.
pub open spec fn text_less(a: Seq<char>, b: Seq<char>) -> bool
    decreases a.len(),
{
    if b.len() == 0 {
        false
    } else if a.len() == 0 {
        true
    } else if a[0] == b[0] {
        text_less(a.skip(1), b.skip(1))
    } else {
        a[0] < b[0]
    }
}

fn less(a: &[char], b: &[char]) -> (r: bool)
    ensures
        r == text_less(a@, b@),
{
    let mut i: usize = 0;
    assert(a@.skip(0) =~= a@);
    assert(b@.skip(0) =~= b@);
    while i < a.len() && i < b.len() && a[i] == b[i]
        invariant
            i <= a@.len(),
            i <= b@.len(),
            text_less(a@, b@) == text_less(a@.skip(i as int), b@.skip(i as int)),
        decreases a@.len() - i,
    {
        assert(a@.skip(i as int).skip(1) =~= a@.skip(i + 1));
        assert(b@.skip(i as int).skip(1) =~= b@.skip(i + 1));
        i = i + 1;
    }
    if i == b.len() {
        false
    } else if i == a.len() {
        true
    } else {
        assert(a@.skip(i as int)[0] == a@[i as int]);
        assert(b@.skip(i as int)[0] == b@[i as int]);
        a[i] < b[i]
    }
}

/// One line of a listing: the key it is sorted by and its JSON.
pub struct Row {
    key: Vec<char>,
    json: String,
}

/// The same, as texts.
pub ghost struct RowText {
    pub key: Seq<char>,
    pub json: Seq<char>,
}

impl View for Row {
    type V = RowText;

    closed spec fn view(&self) -> RowText {
        RowText { key: self.key@, json: self.json@ }
    }
}

spec fn row_texts(v: Seq<Row>) -> Seq<RowText> {
    v.map_values(|r: Row| r@)
}

/// A sorted list with one more row, put behind every row whose key is not larger.
pub open spec fn inserted(list: Seq<RowText>, x: RowText) -> Seq<RowText>
    decreases list.len(),
{
    if list.len() > 0 && text_less(x.key, list.last().key) {
        inserted(list.drop_last(), x).push(list.last())
    } else {
        list.push(x)
    }
}

/// Rows in the order of their keys; rows with the same key keep their order.
pub open spec fn sorted(list: Seq<RowText>) -> Seq<RowText>
    decreases list.len(),
{
    if list.len() == 0 {
        list
    } else {
        inserted(sorted(list.drop_last()), list.last())
    }
}

proof fn lemma_insert_at(list: Seq<RowText>, x: RowText, i: int)
    requires
        0 <= i <= list.len(),
        forall|j: int| i <= j < list.len() ==> text_less(x.key, (#[trigger] list[j]).key),
        i > 0 ==> !text_less(x.key, list[i - 1].key),
    ensures
        inserted(list, x) == list.insert(i, x),
    decreases list.len(),
{
    if i < list.len() {
        let rest = list.drop_last();
        assert forall|j: int| i <= j < rest.len() implies text_less(
            x.key,
            (#[trigger] rest[j]).key,
        ) by {
            assert(rest[j] == list[j]);
        }
        lemma_insert_at(rest, x, i);
        assert(text_less(x.key, list[list.len() - 1].key));
        assert(rest.insert(i, x).push(list.last()) =~= list.insert(i, x));
    } else {
        assert(list.push(x) =~= list.insert(i, x));
    }
}

fn insert_row(list: &mut Vec<Row>, x: Row)
    ensures
        row_texts(final(list)@) == inserted(row_texts(old(list)@), x@),
{
    let mut i: usize = list.len();
    while i > 0 && less(&x.key, &list[i - 1].key)
        invariant
            i <= list@.len(),
            list@ == old(list)@,
            forall|j: int|
                i <= j < list@.len() ==> text_less(x@.key, (#[trigger] row_texts(list@)[j]).key),
        decreases i,
    {
        assert(row_texts(list@)[i - 1] == list@[i - 1]@);
        i = i - 1;
    }
    proof {
        if i > 0 {
            assert(row_texts(list@)[i - 1] == list@[i - 1]@);
        }
        lemma_insert_at(row_texts(list@), x@, i as int);
    }
    let ghost before = list@;
    list.insert(i, x);
    assert(row_texts(list@) =~= row_texts(before).insert(i as int, x@));
}

// ---- Directory listing ----

/// The JSON of a folder in a listing.
pub open spec fn dir_json(name: Seq<char>) -> Seq<char> {
    "{\"name\":"@ + json_text(name) + ",\"dir\":true}"@
}

/// The JSON of a file in a listing.
pub open spec fn file_json(name: Seq<char>, size: nat) -> Seq<char> {
    "{\"name\":"@ + json_text(name) + ",\"dir\":false,\"size\":"@ + dec(size) + "}"@
}

/// The rows of the entries of one kind, in the order read. Temporary files are left out.
pub open spec fn rows_of(entries: Seq<Listed>, kind: EntryKind) -> Seq<RowText>
    decreases entries.len(),
{
    if entries.len() == 0 {
        Seq::empty()
    } else {
        let rest = rows_of(entries.drop_last(), kind);
        let e = entries.last();
        if e.kind == kind && !is_part(e.name@) {
            rest.push(
                RowText {
                    key: lowercase(e.name@),
                    json: if kind == EntryKind::Dir {
                        dir_json(e.name@)
                    } else {
                        file_json(e.name@, e.size as nat)
                    },
                },
            )
        } else {
            rest
        }
    }
}

/// The JSON texts of rows.
pub open spec fn jsons(list: Seq<RowText>) -> Seq<Seq<char>> {
    list.map_values(|r: RowText| r.json)
}

/// The listing of a folder: folders before files, both in alphabetical order. Without entries the
/// folder could not be read.
pub open spec fn listing(rel: Seq<char>, read: Option<&[Listed]>) -> Seq<char> {
    if resolved(rel) is None || read is None {
        "{\"error\":\"bad path\"}"@
    } else {
        let entries = read->0@;
        "{\"path\":"@ + json_text(normalized(rel)) + ",\"entries\":["@ + join(
            jsons(sorted(rows_of(entries, EntryKind::Dir))) + jsons(
                sorted(rows_of(entries, EntryKind::File)),
            ),
            ","@,
        ) + "]}"@
    }
}

fn entry_row(e: &Listed) -> (r: Row)
    requires
        e.kind != EntryKind::Other,
    ensures
        r@.key == lowercase(e.name@),
        r@.json == (if e.kind == EntryKind::Dir {
            dir_json(e.name@)
        } else {
            file_json(e.name@, e.size as nat)
        }),
{
    let key = e.name.as_str().to_lowercase();
    let mut json = String::new();
    json.append("{\"name\":");
    push_json(&mut json, e.name.as_str());
    match e.kind {
        EntryKind::Dir => {
            json.append(",\"dir\":true}");
            assert(json@ =~= dir_json(e.name@));
        },
        _ => {
            json.append(",\"dir\":false,\"size\":");
            push_dec(&mut json, e.size);
            json.append("}");
            assert(json@ =~= file_json(e.name@, e.size as nat));
        },
    }
    Row { key: chars_of(key.as_str()), json }
}

fn sorted_rows(entries: &[Listed], kind: EntryKind) -> (r: Vec<Row>)
    requires
        kind != EntryKind::Other,
    ensures
        row_texts(r@) == sorted(rows_of(entries@, kind)),
{
    let mut list: Vec<Row> = Vec::new();
    let mut i: usize = 0;
    assert(row_texts(list@) =~= sorted(rows_of(entries@.take(0), kind)));
    while i < entries.len()
        invariant
            i <= entries@.len(),
            kind != EntryKind::Other,
            row_texts(list@) == sorted(rows_of(entries@.take(i as int), kind)),
        decreases entries@.len() - i,
    {
        let ghost seen = entries@.take(i as int);
        let ghost now = entries@.take(i + 1);
        assert(now.drop_last() =~= seen);
        if entries[i].kind == kind && !is_part_file(entries[i].name.as_str()) {
            let row = entry_row(&entries[i]);
            assert(rows_of(now, kind) =~= rows_of(seen, kind).push(row@));
            assert(rows_of(now, kind).drop_last() =~= rows_of(seen, kind));
            insert_row(&mut list, row);
        }
        i = i + 1;
    }
    assert(entries@.take(i as int) =~= entries@);
    list
}

fn push_row_jsons(out: &mut Vec<String>, list: &Vec<Row>)
    ensures
        texts(final(out)@) == texts(old(out)@) + jsons(row_texts(list@)),
{
    let mut i: usize = 0;
    while i < list.len()
        invariant
            i <= list@.len(),
            out@.len() == old(out)@.len() + i,
            forall|j: int| 0 <= j < old(out)@.len() ==> #[trigger] out@[j] == old(out)@[j],
            forall|j: int|
                0 <= j < i ==> (#[trigger] out@[old(out)@.len() + j])@ == list@[j]@.json,
        decreases list@.len() - i,
    {
        out.push(list[i].json.clone());
        i = i + 1;
    }
    assert forall|k: int| 0 <= k < out@.len() implies texts(out@)[k] == (texts(old(out)@) + jsons(
        row_texts(list@),
    ))[k] by {
        if k >= old(out)@.len() {
            assert(out@[old(out)@.len() + (k - old(out)@.len())]@ == list@[k
                - old(out)@.len()]@.json);
        }
    }
    assert(texts(out@) =~= texts(old(out)@) + jsons(row_texts(list@)));
}

/// List a folder as JSON from its entries. A path that leaves the root and a folder that could not
/// be read give an error object; temporary files of uploads in progress are hidden.
pub fn list_dir_json(rel: &str, read: Option<&[Listed]>) -> (r: String)
    ensures
        r@ == listing(rel@, read),
{
    let mut out = String::new();
    let entries = match (resolve_within(rel), read) {
        (Some(_), Some(entries)) => entries,
        _ => {
            return "{\"error\":\"bad path\"}".to_owned();
        },
    };
    let mut all: Vec<String> = Vec::new();
    push_row_jsons(&mut all, &sorted_rows(entries, EntryKind::Dir));
    push_row_jsons(&mut all, &sorted_rows(entries, EntryKind::File));
    assert(texts(all@) =~= jsons(sorted(rows_of(entries@, EntryKind::Dir))) + jsons(
        sorted(rows_of(entries@, EntryKind::File)),
    ));
    out.append("{\"path\":");
    push_json(&mut out, normalize_rel(rel).as_str());
    out.append(",\"entries\":[");
    out.append(join_strings(&all, ",").as_str());
    out.append("]}");
    assert(out@ =~= listing(rel@, read));
    out
}

// ---- Search ----

/// Most results that a search gives.
pub const SEARCH_MAX_RESULTS: usize = 300;

/// Most entries that a search looks at.
pub const SEARCH_MAX_SCANNED: usize = 30_000;

/// An entry that a search comes upon.
pub struct Found {
    pub name: String,
    /// Path from the shared folder, as the host writes it.
    pub path: String,
    pub is_dir: bool,
    pub size: u64,
}

/// The JSON of a search result.
pub open spec fn hit_json(e: Found) -> Seq<char> {
    "{\"path\":"@ + json_text(replace_char(e.path@, '\\', seq!['/'])) + ",\"name\":"@ + json_text(
        e.name@,
    ) + (if e.is_dir {
        ",\"dir\":true}"@
    } else {
        ",\"dir\":false,\"size\":"@ + dec(e.size as nat) + "}"@
    })
}

/// Whether a search for `needle` reports an entry.
pub open spec fn is_hit(needle: Seq<char>, e: Found) -> bool {
    !is_part(e.name@) && find_text(lowercase(e.name@), needle) is Some
}

/// A search in progress. The caller walks the folder tree and shows it each entry in turn.
pub struct Search {
    needle: Vec<char>,
    hits: Vec<String>,
    budget: usize,
}

impl Search {
    /// What is searched for, in lower case.
    pub closed spec fn needle(&self) -> Seq<char> {
        self.needle@
    }

    /// The results so far.
    pub closed spec fn hits(&self) -> Seq<Seq<char>> {
        texts(self.hits@)
    }

    /// How many more entries may be looked at.
    pub closed spec fn budget(&self) -> nat {
        self.budget as nat
    }

    /// The caps hold.
    pub open spec fn wf(&self) -> bool {
        &&& self.hits().len() <= SEARCH_MAX_RESULTS
        &&& self.budget() <= SEARCH_MAX_SCANNED
    }

    /// Whether the search goes on.
    pub open spec fn goes_on(&self) -> bool {
        &&& self.needle().len() > 0
        &&& self.budget() > 0
        &&& self.hits().len() < SEARCH_MAX_RESULTS
    }

    /// Start a search: surrounding white space and letter case do not matter.
    pub fn new(query: &str) -> (r: Search)
        ensures
            r.wf(),
            r.needle() == lowercase(trim(query@)),
            r.hits() == Seq::<Seq<char>>::empty(),
            r.budget() == SEARCH_MAX_SCANNED,
    {
        let t = string_of(&trimmed(&chars_of(query)));
        let low = t.as_str().to_lowercase();
        let r = Search {
            needle: chars_of(low.as_str()),
            hits: Vec::new(),
            budget: SEARCH_MAX_SCANNED,
        };
        assert(texts(r.hits@) =~= Seq::<Seq<char>>::empty());
        r
    }

    /// Whether another entry is to be shown to the search.
    pub fn open(&self) -> (r: bool)
        ensures
            r == self.goes_on(),
    {
        self.needle.len() > 0 && self.budget > 0 && self.hits.len() < SEARCH_MAX_RESULTS
    }

    /// Show the search the next entry; none when its metadata could not be read. The result says
    /// whether to walk into it.
    pub fn scan(&mut self, entry: Option<&Found>) -> (descend: bool)
        requires
            old(self).wf(),
            old(self).goes_on(),
        ensures
            final(self).wf(),
            final(self).needle() == old(self).needle(),
            final(self).budget() == old(self).budget() - 1,
            final(self).hits() == (match entry {
                Some(e) => if is_hit(old(self).needle(), *e) {
                    old(self).hits().push(hit_json(*e))
                } else {
                    old(self).hits()
                },
                None => old(self).hits(),
            }),
            descend == (match entry {
                Some(e) => e.is_dir && !is_part(e.name@),
                None => false,
            }),
    {
        self.budget = self.budget - 1;
        match entry {
            None => false,
            Some(e) => {
                if is_part_file(e.name.as_str()) {
                    return false;
                }
                let low = e.name.as_str().to_lowercase();
                if find(&chars_of(low.as_str()), &self.needle).is_some() {
                    let ghost before = self.hits@;
                    let json = make_hit(e);
                    self.hits.push(json);
                    assert(texts(self.hits@) =~= texts(before).push(hit_json(*e)));
                }
                e.is_dir
            },
        }
    }

    /// The result of the search as JSON.
    pub fn finish(&self, query: &str) -> (r: String)
        ensures
            r@ == search_result(query@, self.hits()),
    {
        search_json(query, &self.hits)
    }
}

fn make_hit(e: &Found) -> (r: String)
    ensures
        r@ == hit_json(*e),
{
    let path = string_of(&replaced(&chars_of(e.path.as_str()), '\\', &['/']));
    let mut r = String::new();
    r.append("{\"path\":");
    push_json(&mut r, path.as_str());
    r.append(",\"name\":");
    push_json(&mut r, e.name.as_str());
    if e.is_dir {
        r.append(",\"dir\":true}");
    } else {
        r.append(",\"dir\":false,\"size\":");
        push_dec(&mut r, e.size);
        r.append("}");
    }
    assert(['/']@ =~= seq!['/']);
    assert(r@ =~= hit_json(*e));
    r
}

/// The result of a search as JSON.
pub open spec fn search_result(query: Seq<char>, hits: Seq<Seq<char>>) -> Seq<char> {
    "{\"query\":"@ + json_text(query) + ",\"entries\":["@ + join(hits, ","@) + "]}"@
}

/// The result of a search as JSON.
pub fn search_json(query: &str, hits: &[String]) -> (r: String)
    ensures
        r@ == search_result(query@, texts(hits@)),
{
    let mut r = String::new();
    r.append("{\"query\":");
    push_json(&mut r, query);
    r.append(",\"entries\":[");
    r.append(join_strings(hits, ",").as_str());
    r.append("]}");
    assert(r@ =~= search_result(query@, texts(hits@)));
    r
}

// ---- Unfinished uploads ----

/// The JSON of an unfinished upload: the folder it is in, its final name, the bytes received.
pub open spec fn incoming_hit(dir: Seq<char>, done_name: Seq<char>, size: nat) -> Seq<char> {
    "{\"path\":"@ + json_text(replace_char(dir, '\\', seq!['/'])) + ",\"name\":"@ + json_text(done_name)
        + ",\"done\":"@ + dec(size) + "}"@
}

/// The JSON of a file, if it is the temporary file of an upload in progress. `dir` is the path
/// from the shared folder to the file's folder, as the host writes it.
pub fn incoming_entry(dir: &str, name: &str, size: u64) -> (r: Option<String>)
    ensures
        opt_text(r) == (match real_name(name@) {
            Some(done_name) => Some(incoming_hit(dir@, done_name, size as nat)),
            None => None,
        }),
{
    match strip_part(name) {
        Some(done_name) => {
            let path = string_of(&replaced(&chars_of(dir), '\\', &['/']));
            let mut r = String::new();
            r.append("{\"path\":");
            push_json(&mut r, path.as_str());
            r.append(",\"name\":");
            push_json(&mut r, done_name.as_str());
            r.append(",\"done\":");
            push_dec(&mut r, size);
            r.append("}");
            assert(['/']@ =~= seq!['/']);
            assert(r@ =~= incoming_hit(dir@, done_name@, size as nat));
            Some(r)
        },
        None => None,
    }
}

/// The list of unfinished uploads as JSON.
pub open spec fn incoming_list(hits: Seq<Seq<char>>) -> Seq<char> {
    "{\"entries\":["@ + join(hits, ","@) + "]}"@
}

/// The list of unfinished uploads as JSON.
pub fn incoming_json(hits: &[String]) -> (r: String)
    ensures
        r@ == incoming_list(texts(hits@)),
{
    let mut r = String::new();
    r.append("{\"entries\":[");
    r.append(join_strings(hits, ",").as_str());
    r.append("]}");
    assert(r@ =~= incoming_list(texts(hits@)));
    r
}

// ---- Folder archives ----

/// What becomes of a directory entry when a folder is archived.
pub enum Collect {
    /// It is left out.
    Skip,
    /// It is a folder: its entries are collected under this prefix.
    Descend(String),
    /// It is a file: it is archived under this name.
    Take(String),
}

/// Decide what becomes of an entry of a folder archived under `prefix`.
pub fn collect_entry(prefix: &str, name: &str, kind: EntryKind) -> (r: Collect)
    ensures
        match r {
            Collect::Skip => is_part(name@) || kind == EntryKind::Other,
            Collect::Descend(p) => !is_part(name@) && kind == EntryKind::Dir && p@ == prefix@
                + name@ + seq!['/'],
            Collect::Take(n) => !is_part(name@) && kind == EntryKind::File && n@ == prefix@ + name@,
        },
{
    if is_part_file(name) {
        return Collect::Skip;
    }
    let mut full = String::new();
    full.append(prefix);
    full.append(name);
    match kind {
        EntryKind::Dir => {
            full.push('/');
            assert(full@ =~= prefix@ + name@ + seq!['/']);
            Collect::Descend(full)
        },
        EntryKind::File => {
            assert(full@ =~= prefix@ + name@);
            Collect::Take(full)
        },
        EntryKind::Other => Collect::Skip,
    }
}

// ---- Laws ----

/// Whether no row comes before one that it should follow.
pub open spec fn in_order(list: Seq<RowText>) -> bool {
    forall|i: int, j: int|
        0 <= i < j < list.len() ==> !text_less((#[trigger] list[j]).key, (#[trigger] list[i]).key)
}

proof fn lemma_less_transitive(a: Seq<char>, b: Seq<char>, c: Seq<char>)
    requires
        !text_less(b, a),
        text_less(b, c) || !text_less(c, b),
    ensures
        !text_less(c, a),
    decreases a.len() + b.len() + c.len(),
{
    if a.len() > 0 && c.len() > 0 && b.len() > 0 {
        if a[0] == c[0] && a[0] == b[0] {
            lemma_less_transitive(a.skip(1), b.skip(1), c.skip(1));
        } else if a[0] == c[0] {
        }
    }
}

proof fn lemma_less_irreflexive(a: Seq<char>, b: Seq<char>)
    requires
        text_less(a, b),
    ensures
        !text_less(b, a),
    decreases a.len(),
{
    if a.len() > 0 && b.len() > 0 && a[0] == b[0] {
        lemma_less_irreflexive(a.skip(1), b.skip(1));
    }
}

proof fn lemma_inserted_in_order(list: Seq<RowText>, x: RowText)
    requires
        in_order(list),
    ensures
        in_order(inserted(list, x)),
        inserted(list, x).to_multiset() == list.to_multiset().insert(x),
        inserted(list, x).len() == list.len() + 1,
        forall|k: int|
            0 <= k < inserted(list, x).len() ==> (#[trigger] inserted(list, x)[k]) == x
                || list.contains(inserted(list, x)[k]),
    decreases list.len(),
{
    broadcast use group_to_multiset_ensures;

    if list.len() > 0 && text_less(x.key, list.last().key) {
        let rest = list.drop_last();
        let last = list.last();
        let inner = inserted(rest, x);
        assert(in_order(rest)) by {
            assert forall|i: int, j: int| 0 <= i < j < rest.len() implies !text_less(
                (#[trigger] rest[j]).key,
                (#[trigger] rest[i]).key,
            ) by {
                assert(rest[i] == list[i] && rest[j] == list[j]);
            }
        }
        lemma_inserted_in_order(rest, x);
        let all = inner.push(last);
        assert forall|i: int, j: int| 0 <= i < j < all.len() implies !text_less(
            (#[trigger] all[j]).key,
            (#[trigger] all[i]).key,
        ) by {
            if j == inner.len() {
                if inner[i] == x {
                    lemma_less_irreflexive(x.key, last.key);
                } else {
                    let k = choose|k: int| 0 <= k < rest.len() && rest[k] == inner[i];
                    assert(list[k] == inner[i]);
                    assert(!text_less(list[list.len() - 1].key, list[k].key));
                }
            } else {
                assert(all[i] == inner[i] && all[j] == inner[j]);
            }
        }
        assert forall|k: int| 0 <= k < all.len() implies (#[trigger] all[k]) == x || list.contains(
            all[k],
        ) by {
            if k == inner.len() {
                assert(list[list.len() - 1] == last);
            } else if inner[k] != x {
                let m = choose|m: int| 0 <= m < rest.len() && rest[m] == inner[k];
                assert(list[m] == all[k]);
            }
        }
        assert(list =~= rest.push(last));
        assert(list.to_multiset() =~= rest.to_multiset().insert(last));
        assert(all.to_multiset() =~= inner.to_multiset().insert(last));
        assert(all.to_multiset() =~= list.to_multiset().insert(x));
    } else {
        let all = list.push(x);
        assert forall|i: int, j: int| 0 <= i < j < all.len() implies !text_less(
            (#[trigger] all[j]).key,
            (#[trigger] all[i]).key,
        ) by {
            if j == list.len() {
                let last = list[list.len() - 1];
                if i < list.len() - 1 {
                    assert(!text_less(list[list.len() - 1].key, list[i].key));
                    lemma_less_transitive(list[i].key, last.key, x.key);
                }
            } else {
                assert(all[i] == list[i] && all[j] == list[j]);
            }
        }
    }
}

/// Sorting puts rows in order of their keys, and keeps every row, no more and no less.
pub proof fn sorted_is_in_order(list: Seq<RowText>)
    ensures
        in_order(sorted(list)),
        sorted(list).to_multiset() == list.to_multiset(),
    decreases list.len(),
{
    broadcast use group_to_multiset_ensures;

    if list.len() > 0 {
        sorted_is_in_order(list.drop_last());
        lemma_inserted_in_order(sorted(list.drop_last()), list.last());
        assert(list =~= list.drop_last().push(list.last()));
    }
}

/// Temporary files of uploads in progress never show up in a listing.
pub proof fn temporary_files_are_hidden(entries: Seq<Listed>, kind: EntryKind, e: Listed)
    requires
        is_part(e.name@),
    ensures
        rows_of(entries.push(e), kind) == rows_of(entries, kind),
{
    assert(entries.push(e).drop_last() =~= entries);
}

/// Whether one text comes before another at a position: they are the same up to it, and there the
/// first one ends or has the smaller character.
pub open spec fn less_at(a: Seq<char>, b: Seq<char>, k: int) -> bool {
    &&& 0 <= k <= a.len()
    &&& k < b.len()
    &&& forall|j: int| 0 <= j < k ==> a[j] == b[j]
    &&& k == a.len() || (a[k] as int) < (b[k] as int)
}

/// Texts are in dictionary order: one comes before another exactly if it is a proper beginning of
/// it, or has the smaller character where they first differ. Of two different texts, exactly one
/// comes before the other.
pub proof fn order_is_lexicographic(a: Seq<char>, b: Seq<char>)
    ensures
        text_less(a, b) <==> exists|k: int| less_at(a, b, k),
        a != b ==> text_less(a, b) != text_less(b, a),
        a == b ==> !text_less(a, b),
    decreases a.len(),
{
    if a.len() == 0 {
        if b.len() > 0 {
            assert(less_at(a, b, 0));
        } else {
            assert(a =~= b);
        }
    } else if b.len() > 0 {
        let (x, y) = (a.skip(1), b.skip(1));
        order_is_lexicographic(x, y);
        if a[0] == b[0] {
            if text_less(x, y) {
                let k = choose|k: int| less_at(x, y, k);
                assert forall|j: int| 0 <= j < k + 1 implies a[j] == b[j] by {
                    if j > 0 {
                        assert(x[j - 1] == y[j - 1]);
                    }
                }
                if k < x.len() {
                    assert(x[k] == a[k + 1] && y[k] == b[k + 1]);
                }
                assert(less_at(a, b, k + 1));
            }
            if exists|k: int| less_at(a, b, k) {
                let k = choose|k: int| less_at(a, b, k);
                assert(k > 0);
                assert forall|j: int| 0 <= j < k - 1 implies x[j] == y[j] by {
                    assert(a[j + 1] == b[j + 1]);
                }
                assert(less_at(x, y, k - 1));
            }
            if x == y {
                assert(a =~= b) by {
                    assert forall|j: int| 0 <= j < a.len() implies a[j] == b[j] by {
                        if j > 0 {
                            assert(x[j - 1] == y[j - 1]);
                        }
                    }
                }
            }
        } else {
            if (a[0] as int) < (b[0] as int) {
                assert(less_at(a, b, 0));
            }
            if exists|k: int| less_at(a, b, k) {
                let k = choose|k: int| less_at(a, b, k);
                if k > 0 {
                    assert(a[0] == b[0]);
                }
            }
        }
    }
}

proof fn lemma_inserted_stable(list: Seq<RowText>, x: RowText, key: Seq<char>)
    requires
        in_order(list),
    ensures
        inserted(list, x).filter(|r: RowText| r.key == key) == (list.push(x)).filter(
            |r: RowText| r.key == key,
        ),
    decreases list.len(),
{
    reveal(Seq::filter);
    let f = |r: RowText| r.key == key;
    if list.len() > 0 && text_less(x.key, list.last().key) {
        let rest = list.drop_last();
        let last = list.last();
        assert forall|i: int, j: int| 0 <= i < j < rest.len() implies !text_less(
            (#[trigger] rest[j]).key,
            (#[trigger] rest[i]).key,
        ) by {
            assert(rest[i] == list[i] && rest[j] == list[j]);
        }
        lemma_inserted_stable(rest, x, key);
        order_is_lexicographic(x.key, last.key);
        assert(!(f(x) && f(last)));
        assert(rest.push(last) =~= list);
        lemma_filter_push(inserted(rest, x), last, f);
        lemma_filter_push(rest, x, f);
        lemma_filter_push(rest, last, f);
        lemma_filter_push(list, x, f);
    }
}

proof fn lemma_filter_push(s: Seq<RowText>, x: RowText, f: spec_fn(RowText) -> bool)
    ensures
        s.push(x).filter(f) == (if f(x) {
            s.filter(f).push(x)
        } else {
            s.filter(f)
        }),
{
    reveal(Seq::filter);
    assert(s.push(x).drop_last() =~= s);
}

/// Rows with the same key keep the order in which they were read.
pub proof fn sorting_is_stable(list: Seq<RowText>, key: Seq<char>)
    ensures
        sorted(list).filter(|r: RowText| r.key == key) == list.filter(|r: RowText| r.key == key),
    decreases list.len(),
{
    reveal(Seq::filter);
    let f = |r: RowText| r.key == key;
    if list.len() > 0 {
        let rest = list.drop_last();
        sorting_is_stable(rest, key);
        sorted_is_in_order(rest);
        lemma_inserted_stable(sorted(rest), list.last(), key);
        assert(rest.push(list.last()) =~= list);
        lemma_filter_push(sorted(rest), list.last(), f);
        lemma_filter_push(rest, list.last(), f);
    }
}

/// What a listing tells of an entry.
pub open spec fn listed_members(e: Listed) -> Seq<(Seq<char>, Scalar)> {
    if e.kind == EntryKind::Dir {
        seq![("name"@, Scalar::Text(e.name@)), ("dir"@, Scalar::Flag(true))]
    } else {
        seq![
            ("name"@, Scalar::Text(e.name@)),
            ("dir"@, Scalar::Flag(false)),
            ("size"@, Scalar::Number(e.size as nat)),
        ]
    }
}

proof fn lemma_entry_keys()
    ensures
        json_text("name"@) == "\"name\""@,
        json_text("dir"@) == "\"dir\""@,
        json_text("size"@) == "\"size\""@,
        json_text("path"@) == "\"path\""@,
        json_text("done"@) == "\"done\""@,
{
    reveal_strlit("name");
    reveal_strlit("dir");
    reveal_strlit("size");
    reveal_strlit("path");
    reveal_strlit("done");
    reveal_strlit("\"name\"");
    reveal_strlit("\"dir\"");
    reveal_strlit("\"size\"");
    reveal_strlit("\"path\"");
    reveal_strlit("\"done\"");
    lemma_key("name"@);
    lemma_key("dir"@);
    lemma_key("size"@);
    lemma_key("path"@);
    lemma_key("done"@);
    assert(json_text("name"@) =~= "\"name\""@);
    assert(json_text("dir"@) =~= "\"dir\""@);
    assert(json_text("size"@) =~= "\"size\""@);
    assert(json_text("path"@) =~= "\"path\""@);
    assert(json_text("done"@) =~= "\"done\""@);
}

proof fn lemma_entry_parts()
    ensures
        "{\"name\":"@ == seq!['{'] + "\"name\""@ + seq![':'],
        ",\"name\":"@ == seq![','] + "\"name\""@ + seq![':'],
        "{\"path\":"@ == seq!['{'] + "\"path\""@ + seq![':'],
        ",\"dir\":true}"@ == seq![','] + "\"dir\""@ + seq![':'] + "true"@ + seq!['}'],
        ",\"dir\":false,\"size\":"@ == seq![','] + "\"dir\""@ + seq![':'] + "false"@ + seq![
            ',',
        ] + "\"size\""@ + seq![':'],
        ",\"done\":"@ == seq![','] + "\"done\""@ + seq![':'],
        "}"@ == seq!['}'],
{
    reveal_strlit("{\"name\":");
    reveal_strlit(",\"name\":");
    reveal_strlit("{\"path\":");
    reveal_strlit(",\"dir\":true}");
    reveal_strlit(",\"dir\":false,\"size\":");
    reveal_strlit(",\"done\":");
    reveal_strlit("}");
    reveal_strlit("true");
    reveal_strlit("false");
    reveal_strlit("\"name\"");
    reveal_strlit("\"dir\"");
    reveal_strlit("\"size\"");
    reveal_strlit("\"path\"");
    reveal_strlit("\"done\"");
    assert("{\"name\":"@ =~= seq!['{'] + "\"name\""@ + seq![':']);
    assert(",\"name\":"@ =~= seq![','] + "\"name\""@ + seq![':']);
    assert("{\"path\":"@ =~= seq!['{'] + "\"path\""@ + seq![':']);
    assert(",\"dir\":true}"@ =~= seq![','] + "\"dir\""@ + seq![':'] + "true"@ + seq!['}']);
    assert(",\"dir\":false,\"size\":"@ =~= seq![','] + "\"dir\""@ + seq![':'] + "false"@ + seq![
        ',',
    ] + "\"size\""@ + seq![':']);
    assert(",\"done\":"@ =~= seq![','] + "\"done\""@ + seq![':']);
    assert("}"@ =~= seq!['}']);
}

#[verifier::rlimit(40)]
proof fn lemma_entry_json(e: Listed)
    ensures
        (if e.kind == EntryKind::Dir {
            dir_json(e.name@)
        } else {
            file_json(e.name@, e.size as nat)
        }) == object_text(listed_members(e)),
{
    lemma_entry_keys();
    lemma_entry_parts();
    let none = Seq::<(Seq<char>, Scalar)>::empty();
    let name = ("name"@, Scalar::Text(e.name@));
    let dir = ("dir"@, Scalar::Flag(e.kind == EntryKind::Dir));
    let size = ("size"@, Scalar::Number(e.size as nat));
    let one = none.push(name);
    let two = one.push(dir);
    lemma_members_push(none, name);
    lemma_members_push(one, dir);
    lemma_members_push(two, size);
    if e.kind == EntryKind::Dir {
        assert(two =~= listed_members(e));
        assert(dir_json(e.name@) =~= object_text(two));
    } else {
        let all = two.push(size);
        assert(all =~= listed_members(e));
        assert(file_json(e.name@, e.size as nat) =~= object_text(all));
    }
}

/// The rows of a listing are the entries of one kind that are no temporary files, in the order
/// read: each with its name in lower case as its key, and with a JSON object from which its name,
/// its kind and, for a file, its size can be read back.
pub proof fn rows_are_the_visible_entries(entries: Seq<Listed>, kind: EntryKind)
    requires
        kind != EntryKind::Other,
    ensures
        ({
            let shown = entries.filter(|e: Listed| e.kind == kind && !is_part(e.name@));
            let rows = rows_of(entries, kind);
            &&& rows.len() == shown.len()
            &&& forall|i: int|
                0 <= i < rows.len() ==> (#[trigger] rows[i]).key == lowercase(shown[i].name@)
                    && rows[i].json == object_text(listed_members(shown[i])) && is_object(
                    rows[i].json,
                    listed_members(shown[i]),
                )
        }),
    decreases entries.len(),
{
    let p = |e: Listed| e.kind == kind && !is_part(e.name@);
    let shown = entries.filter(p);
    let rows = rows_of(entries, kind);
    reveal(Seq::filter);
    if entries.len() > 0 {
        let front = entries.drop_last();
        let e = entries.last();
        rows_are_the_visible_entries(front, kind);
        let (r0, s0) = (rows_of(front, kind), front.filter(p));
        if p(e) {
            lemma_entry_json(e);
            lemma_is_object(listed_members(e));
            assert(shown =~= s0.push(e));
            assert forall|i: int| 0 <= i < rows.len() implies (#[trigger] rows[i]).key == lowercase(
                shown[i].name@,
            ) && rows[i].json == object_text(listed_members(shown[i])) && is_object(
                rows[i].json,
                listed_members(shown[i]),
            ) by {
                if i < r0.len() {
                    assert(rows[i] == r0[i]);
                    assert(shown[i] == s0[i]);
                }
            }
        } else {
            assert(shown =~= s0);
            assert(rows == r0);
        }
    }
}

#[verifier::rlimit(40)]
proof fn lemma_hit_text(path: Seq<char>, name: Seq<char>, end: Seq<char>)
    ensures
        "{\"path\":"@ + path + ",\"name\":"@ + name + (",\"dir\":true}"@) == seq!['{'] + (
        "\"path\""@ + seq![':'] + path + seq![','] + ("\"name\""@ + seq![':'] + name) + seq![','] + (
        "\"dir\""@ + seq![':'] + "true"@)) + seq!['}'],
        "{\"path\":"@ + path + ",\"name\":"@ + name + (",\"dir\":false,\"size\":"@ + end + "}"@)
            == seq!['{'] + (("\"path\""@ + seq![':'] + path + seq![','] + ("\"name\""@ + seq![':']
            + name) + seq![','] + ("\"dir\""@ + seq![':'] + "false"@)) + seq![','] + ("\"size\""@
            + seq![':'] + end)) + seq!['}'],
{
    lemma_entry_parts();
    let front = "{\"path\":"@ + path + ",\"name\":"@ + name;
    let inner = "\"path\""@ + seq![':'] + path + seq![','] + ("\"name\""@ + seq![':'] + name);
    assert(front =~= seq!['{'] + inner);
    let yes = "\"dir\""@ + seq![':'] + "true"@;
    let no = "\"dir\""@ + seq![':'] + "false"@;
    assert(front + (",\"dir\":true}"@) =~= seq!['{'] + (inner + seq![','] + yes) + seq!['}']);
    let size = "\"size\""@ + seq![':'] + end;
    assert(",\"dir\":false,\"size\":"@ + end + "}"@ =~= seq![','] + no + seq![','] + size + seq!['}']);
    assert(front + (seq![','] + no + seq![','] + size + seq!['}']) =~= seq!['{'] + ((inner + seq![',']
        + no) + seq![','] + size) + seq!['}']);
}

/// What a search tells of an entry: its path with slashes, its name, its kind and a file's size can
/// be read back.
#[verifier::rlimit(40)]
pub proof fn hits_are_read_back(e: Found)
    ensures
        is_object(
            hit_json(e),
            seq![
                ("path"@, Scalar::Text(replace_char(e.path@, '\\', seq!['/']))),
                ("name"@, Scalar::Text(e.name@)),
                ("dir"@, Scalar::Flag(e.is_dir)),
            ] + (if e.is_dir {
                Seq::empty()
            } else {
                seq![("size"@, Scalar::Number(e.size as nat))]
            }),
        ),
{
    lemma_entry_keys();
    let path = ("path"@, Scalar::Text(replace_char(e.path@, '\\', seq!['/'])));
    let name = ("name"@, Scalar::Text(e.name@));
    let dir = ("dir"@, Scalar::Flag(e.is_dir));
    let size = ("size"@, Scalar::Number(e.size as nat));
    let three = seq![path, name, dir];
    lemma_three_members(path, name, dir);
    lemma_hit_text(scalar_text(path.1), scalar_text(name.1), scalar_text(size.1));
    if e.is_dir {
        lemma_is_object(three);
        assert(three =~= three + Seq::<(Seq<char>, Scalar)>::empty());
    } else {
        lemma_members_push(three, size);
        lemma_is_object(three.push(size));
        assert(three.push(size) =~= three + seq![size]);
    }
}

/// A search reports exactly the entries, temporary files aside, whose name holds what is searched
/// for somewhere, both in lower case.
pub proof fn hits_hold_what_is_searched_for(needle: Seq<char>, e: Found)
    ensures
        is_hit(needle, e) <==> !is_part(e.name@) && exists|a: Seq<char>, b: Seq<char>|
            lowercase(e.name@) == #[trigger] (a + needle + b),
{
    let low = lowercase(e.name@);
    lemma_find_text(low, needle);
    if find_text(low, needle) is Some {
        let i = find_text(low, needle)->0;
        let a = low.take(i);
        let b = low.skip(i + needle.len());
        assert(low =~= a + needle + b);
    }
    if exists|a: Seq<char>, b: Seq<char>| low == #[trigger] (a + needle + b) {
        let (a, b) = choose|a: Seq<char>, b: Seq<char>| low == #[trigger] (a + needle + b);
        assert(low.subrange(a.len() as int, a.len() as int + needle.len()) =~= needle);
        assert(occurs_at(low, needle, a.len() as int));
    }
}

/// What is told of an unfinished upload, its folder with slashes, its final name and the bytes
/// received, can be read back.
#[verifier::rlimit(40)]
pub proof fn incoming_uploads_are_read_back(dir: Seq<char>, name: Seq<char>, size: nat)
    ensures
        is_object(
            incoming_hit(dir, name, size),
            seq![
                ("path"@, Scalar::Text(replace_char(dir, '\\', seq!['/']))),
                ("name"@, Scalar::Text(name)),
                ("done"@, Scalar::Number(size)),
            ],
        ),
{
    lemma_entry_keys();
    lemma_entry_parts();
    let none = Seq::<(Seq<char>, Scalar)>::empty();
    let a = ("path"@, Scalar::Text(replace_char(dir, '\\', seq!['/'])));
    let b = ("name"@, Scalar::Text(name));
    let c = ("done"@, Scalar::Number(size));
    let one = none.push(a);
    let two = one.push(b);
    let all = two.push(c);
    lemma_members_push(none, a);
    lemma_members_push(one, b);
    lemma_members_push(two, c);
    assert(incoming_hit(dir, name, size) =~= object_text(all));
    lemma_is_object(all);
    assert(all =~= seq![a, b, c]);
}

/// The label and the objects of a reply: an object with one text, and an array of objects under
/// `entries`.
pub open spec fn read_reply(s: Seq<char>, key: Seq<char>) -> Option<
    (Seq<char>, Seq<Seq<(Seq<char>, Scalar)>>),
> {
    let front = seq!['{', '"'] + key + seq!['"', ':'];
    if !begins(s, front) {
        None
    } else {
        match read_text(s.skip(front.len() as int)) {
            Some((label, rest)) => if !begins(rest, ",\"entries\":"@) {
                None
            } else {
                match read_array(rest.skip(11)) {
                    Some((l, end)) => if end == seq!['}'] {
                        Some((label, l))
                    } else {
                        None
                    },
                    None => None,
                }
            },
            None => None,
        }
    }
}

proof fn lemma_reply(
    key: Seq<char>,
    label: Seq<char>,
    parts: Seq<Seq<char>>,
    l: Seq<Seq<(Seq<char>, Scalar)>>,
)
    requires
        parts == object_texts(l),
        forall|i: int| 0 <= i < l.len() ==> (#[trigger] l[i]).len() > 0,
    ensures
        read_reply(
            seq!['{', '"'] + key + seq!['"', ':'] + json_text(label) + ",\"entries\":["@ + join(
                parts,
                ","@,
            ) + "]}"@,
            key,
        ) == Some((label, l)),
{
    reveal_strlit(",\"entries\":[");
    reveal_strlit(",\"entries\":");
    reveal_strlit(",");
    reveal_strlit("]}");
    assert(","@ =~= seq![',']);
    let front = seq!['{', '"'] + key + seq!['"', ':'];
    let mark = ",\"entries\":"@;
    let list = seq!['['] + join(parts, seq![',']) + seq![']'] + seq!['}'];
    let rest = mark + list;
    let s = front + json_text(label) + ",\"entries\":["@ + join(parts, ","@) + "]}"@;
    assert(s =~= front + (json_text(label) + rest));
    assert(s.subrange(0, front.len() as int) =~= front);
    assert(s.skip(front.len() as int) =~= json_text(label) + rest);
    strings_are_read_back(label, rest);
    assert(rest.subrange(0, mark.len() as int) =~= mark);
    assert(rest.skip(11) =~= list);
    arrays_are_read_back(l, seq!['}']);
}

proof fn lemma_sorted_rows(entries: Seq<Listed>, kind: EntryKind) -> (l: Seq<
    Seq<(Seq<char>, Scalar)>,
>)
    requires
        kind != EntryKind::Other,
    ensures
        object_texts(l) == jsons(sorted(rows_of(entries, kind))),
        forall|i: int| 0 <= i < l.len() ==> (#[trigger] l[i]).len() > 0,
{
    broadcast use group_to_multiset_ensures;

    let rows = rows_of(entries, kind);
    let list = sorted(rows);
    let shown = entries.filter(|e: Listed| e.kind == kind && !is_part(e.name@));
    rows_are_the_visible_entries(entries, kind);
    sorted_is_in_order(rows);
    let at = |i: int| choose|j: int| 0 <= j < rows.len() && #[trigger] rows[j] == list[i];
    let l = Seq::new(list.len(), |i: int| listed_members(shown[at(i)]));
    assert forall|i: int| 0 <= i < list.len() implies object_text(#[trigger] l[i]) == list[i].json
        && l[i].len() > 0 by {
        assert(list.contains(list[i]));
        assert(list.to_multiset().count(list[i]) > 0);
        assert(rows.contains(list[i]));
        assert(0 <= at(i) < rows.len() && rows[at(i)] == list[i]);
    }
    assert(object_texts(l) =~= jsons(list));
    l
}

/// A listing is read back: the folder's normalised path, and behind it the objects of its folders
/// in the order of their keys, then those of its files.
pub proof fn listings_are_read_back(rel: Seq<char>, read: Option<&[Listed]>) -> (l: Seq<
    Seq<(Seq<char>, Scalar)>,
>)
    requires
        resolved(rel) is Some,
        read is Some,
    ensures
        read_reply(listing(rel, read), "path"@) == Some((normalized(rel), l)),
        object_texts(l) == jsons(sorted(rows_of(read->0@, EntryKind::Dir))) + jsons(
            sorted(rows_of(read->0@, EntryKind::File)),
        ),
{
    reveal_strlit("path");
    reveal_strlit("{\"path\":");
    let dirs = lemma_sorted_rows(read->0@, EntryKind::Dir);
    let files = lemma_sorted_rows(read->0@, EntryKind::File);
    let l = dirs + files;
    assert(object_texts(l) =~= object_texts(dirs) + object_texts(files));
    assert forall|i: int| 0 <= i < l.len() implies (#[trigger] l[i]).len() > 0 by {
        if i < dirs.len() {
            assert(l[i] == dirs[i]);
        } else {
            assert(l[i] == files[i - dirs.len()]);
        }
    }
    lemma_reply("path"@, normalized(rel), object_texts(l), l);
    assert("{\"path\":"@ =~= seq!['{', '"'] + "path"@ + seq!['"', ':']);
    l
}

/// The result of a search is read back: the query, and the objects of the hits in their order.
pub proof fn search_results_are_read_back(query: Seq<char>, l: Seq<Seq<(Seq<char>, Scalar)>>)
    requires
        forall|i: int| 0 <= i < l.len() ==> (#[trigger] l[i]).len() > 0,
    ensures
        read_reply(search_result(query, object_texts(l)), "query"@) == Some((query, l)),
{
    reveal_strlit("query");
    reveal_strlit("{\"query\":");
    lemma_reply("query"@, query, object_texts(l), l);
    assert("{\"query\":"@ =~= seq!['{', '"'] + "query"@ + seq!['"', ':']);
}

/// The list of unfinished uploads is read back.
pub proof fn incoming_lists_are_read_back(l: Seq<Seq<(Seq<char>, Scalar)>>)
    requires
        forall|i: int| 0 <= i < l.len() ==> (#[trigger] l[i]).len() > 0,
    ensures
        begins(incoming_list(object_texts(l)), "{\"entries\":"@),
        read_array(incoming_list(object_texts(l)).skip(11)) == Some((l, seq!['}'])),
{
    reveal_strlit("{\"entries\":[");
    reveal_strlit("{\"entries\":");
    reveal_strlit(",");
    reveal_strlit("]}");
    assert(","@ =~= seq![',']);
    let mark = "{\"entries\":"@;
    let list = seq!['['] + join(object_texts(l), seq![',']) + seq![']'] + seq!['}'];
    let s = incoming_list(object_texts(l));
    assert(s =~= mark + list);
    assert(s.subrange(0, mark.len() as int) =~= mark);
    assert(s.skip(11) =~= list);
    arrays_are_read_back(l, seq!['}']);
}

/// A search stops at 300 results or after 30000 entries, and one for nothing does not begin.
pub proof fn searches_are_bounded(s: Search)
    requires
        s.wf(),
    ensures
        s.hits().len() <= 300,
        s.budget() <= 30000,
        s.goes_on() <==> s.needle().len() > 0 && s.budget() > 0 && s.hits().len() < 300,
{
}

/// A folder outside the shared one, or one that cannot be read, is answered with an error, and no
/// other folder is.
pub proof fn only_bad_paths_are_errors(rel: Seq<char>, read: Option<&[Listed]>)
    ensures
        resolved(rel) is None || read is None <==> is_object(
            listing(rel, read),
            seq![("error"@, Scalar::Text("bad path"@))],
        ),
{
    reveal_strlit("error");
    reveal_strlit("bad path");
    reveal_strlit("{\"error\":");
    reveal_strlit("{\"error\":\"bad path\"}");
    reveal_strlit("{\"path\":");
    let one = seq![("error"@, Scalar::Text("bad path"@))];
    assert("{\"error\":"@ =~= seq!['{', '"'] + "error"@ + seq!['"', ':']);
    lemma_key("bad path"@);
    lemma_first_member("error"@, one[0].1, "{\"error\":"@);
    assert("{\"error\":\"bad path\"}"@ =~= "{\"error\":"@ + json_text("bad path"@) + seq!['}']);
    lemma_is_object(one);
    if resolved(rel) is Some && read is Some {
        let s = listing(rel, read);
        let rest = s.skip(8);
        assert(s.skip(1) =~= "\"path\""@ + seq![':'] + rest) by {
            reveal_strlit("\"path\"");
        }
        lemma_entry_keys();
        strings_are_read_back("path"@, seq![':'] + rest);
        assert("\"path\""@ + seq![':'] + rest =~= json_text("path"@) + (seq![':'] + rest));
        lemma_first_key(s.skip(1), "path"@, one);
        assert("path"@ != "error"@) by {
            reveal_strlit("path");
            assert("path"@.len() == 4 && "error"@.len() == 5);
        }
    }
}

proof fn lemma_first_key(s: Seq<char>, key: Seq<char>, ms: Seq<(Seq<char>, Scalar)>)
    requires
        read_text(s) matches Some(t) && t.0 == key,
        ms.len() > 0,
        key != ms[0].0,
    ensures
        read_members(s) != Some((ms, Seq::<char>::empty())),
{
    if read_members(s) is Some {
        assert((read_members(s)->0).0[0].0 == key);
    }
}

} // verus!
