//! Downloads over HTTP: byte ranges, headers, and folder archives.

use vstd::prelude::*;
use vstd::string::*;
use crate::num::{
    dec, dec_is_read_back, is_digit, lemma_dec_round_trip, parse_dec, parse_uint, push_dec,
};
use crate::reply::{header_texts, plain, Reply};
use crate::stats::{begun, changed_in, recent, Change, Direction, Stats};
use crate::text::{
    all_space, begins, chars_of, cut, find_char, is_space, join, lemma_first_at, lemma_lead,
    lemma_split_join, part, replace_char, replaced, split, split_once, starts_with, string_of,
    surrounding_white_space_does_not_matter, trim, trim_start, trimmed, trimming_cuts_white_space,
    trimming_gives_the_middle,
};
use crate::url::Header;

verus! {

/// The first and last byte that a `Range` header asks for, of a file of `total` bytes: a single
/// range `bytes=start-[end]`, clamped to the file.
pub open spec fn range_of(h: Seq<char>, total: nat) -> Option<(nat, nat)> {
    let t = trim(h);
    if total == 0 || !begins(t, "bytes="@) {
        None
    } else {
        let range = t.skip("bytes="@.len() as int);
        if range.contains(',') {
            None
        } else {
            match split_once(range, '-') {
                Some((a, b)) => match parse_dec(trim(a), u64::MAX as nat) {
                    Some(start) => {
                        let end = if trim(b).len() == 0 {
                            Some((total - 1) as nat)
                        } else {
                            match parse_dec(trim(b), u64::MAX as nat) {
                                Some(e) => if e < total {
                                    Some(e)
                                } else {
                                    Some((total - 1) as nat)
                                },
                                None => None,
                            }
                        };
                        match end {
                            Some(e) => if start <= e {
                                Some((start, e))
                            } else {
                                None
                            },
                            None => None,
                        }
                    },
                    None => None,
                },
                None => None,
            }
        }
    }
}

/// Parse a `Range` header against a known size. No range means that the whole file is sent.
pub fn parse_range(h: &str, total: u64) -> (r: Option<(u64, u64)>)
    ensures
        match r {
            Some((start, end)) => range_of(h@, total as nat) == Some((start as nat, end as nat))
                && start <= end < total,
            None => range_of(h@, total as nat) is None,
        },
{
    if total == 0 {
        return None;
    }
    let t = trimmed(&chars_of(h));
    let p = chars_of("bytes=");
    if !starts_with(&t, &p) {
        return None;
    }
    let range = part(&t, p.len(), t.len());
    assert(range@ =~= t@.skip(p@.len() as int));
    if find_char(&range, ',') < range.len() {
        return None;
    }
    let (a, b) = match cut(&range, '-') {
        Some(ab) => ab,
        None => {
            return None;
        },
    };
    let start: u64 = match parse_uint(&trimmed(&a), u64::MAX) {
        Some(n) => n,
        None => {
            return None;
        },
    };
    let tail = trimmed(&b);
    let end: u64 = if tail.len() == 0 {
        total - 1
    } else {
        match parse_uint(&tail, u64::MAX) {
            Some(n) => if n < total {
                n
            } else {
                total - 1
            },
            None => {
                return None;
            },
        }
    };
    if start > end {
        return None;
    }
    Some((start, end))
}

/// How a file is sent.
pub struct DownloadPlan {
    /// The name that the client is told.
    pub name: String,
    pub status: u16,
    /// First byte sent.
    pub start: u64,
    /// Number of bytes sent.
    pub len: u64,
    pub headers: Vec<Header>,
}

/// The name that the client is told: the file's, without quotation marks.
pub open spec fn told_name(name: Option<Seq<char>>) -> Seq<char> {
    match name {
        Some(n) => replace_char(n, '"', Seq::empty()),
        None => "download"@,
    }
}

/// The `Content-Disposition` of an attachment.
pub open spec fn disposition(name: Seq<char>) -> Seq<char> {
    "attachment; filename=\""@ + name + "\""@
}

/// The `Content-Range` of a range.
pub open spec fn content_range(start: nat, end: nat, total: nat) -> Seq<char> {
    "bytes "@ + dec(start) + "-"@ + dec(end) + "/"@ + dec(total)
}

/// The headers that every file is sent with.
pub open spec fn file_headers(name: Seq<char>) -> Seq<(Seq<char>, Seq<char>)> {
    seq![
        ("Content-Type"@, "application/octet-stream"@),
        ("Content-Disposition"@, disposition(name)),
        ("Accept-Ranges"@, "bytes"@),
    ]
}

/// The range that an optional header asks for.
pub open spec fn wanted_range(range: Option<&str>, total: nat) -> Option<(nat, nat)> {
    match range {
        Some(h) => range_of(h@, total),
        None => None,
    }
}

fn disposition_of(name: &str) -> (r: String)
    ensures
        r@ == disposition(name@),
{
    let mut r = String::new();
    r.append("attachment; filename=\"");
    r.append(name);
    r.append("\"");
    assert(r@ =~= disposition(name@));
    r
}

fn push_header(v: &mut Vec<Header>, name: &str, value: &str)
    ensures
        header_texts(final(v)@) == header_texts(old(v)@).push((name@, value@)),
{
    v.push(Header { name: name.to_owned(), value: value.to_owned() });
    assert(header_texts(v@) =~= header_texts(old(v)@).push((name@, value@)));
}

/// Plan how to send a file of `total` bytes, given its name and the request's `Range` header.
pub fn plan_download(name: Option<&str>, total: u64, range: Option<&str>) -> (p: DownloadPlan)
    ensures
        p.name@ == told_name(crate::url::opt_str(name)),
        match wanted_range(range, total as nat) {
            Some((start, end)) => {
                &&& p.status == 206
                &&& p.start == start
                &&& p.len == end - start + 1
                &&& start + p.len <= total
                &&& header_texts(p.headers@) == file_headers(p.name@).push(
                    ("Content-Range"@, content_range(start, end, total as nat)),
                )
            },
            None => {
                &&& p.status == 200
                &&& p.start == 0
                &&& p.len == total
                &&& header_texts(p.headers@) == file_headers(p.name@)
            },
        },
{
    let told = match name {
        Some(n) => {
            let empty: Vec<char> = Vec::new();
            assert(empty@ =~= Seq::<char>::empty());
            string_of(&replaced(&chars_of(n), '"', &empty))
        },
        None => "download".to_owned(),
    };
    let mut headers: Vec<Header> = Vec::new();
    push_header(&mut headers, "Content-Type", "application/octet-stream");
    push_header(&mut headers, "Content-Disposition", disposition_of(told.as_str()).as_str());
    push_header(&mut headers, "Accept-Ranges", "bytes");
    assert(header_texts(headers@) =~= file_headers(told@));
    let wanted = match range {
        Some(h) => parse_range(h, total),
        None => None,
    };
    match wanted {
        Some((start, end)) => {
            let mut cr = String::new();
            cr.append("bytes ");
            push_dec(&mut cr, start);
            cr.append("-");
            push_dec(&mut cr, end);
            cr.append("/");
            push_dec(&mut cr, total);
            assert(cr@ =~= content_range(start as nat, end as nat, total as nat));
            push_header(&mut headers, "Content-Range", cr.as_str());
            DownloadPlan { name: told, status: 206, start, len: end - start + 1, headers }
        },
        None => DownloadPlan { name: told, status: 200, start: 0, len: total, headers },
    }
}

impl DownloadPlan {
    /// Register the download: its total is the number of bytes that this reply sends.
    pub fn begin(&self, stats: &mut Stats, path: &str) -> (id: u64)
        requires
            old(stats).wf(),
            old(stats).next_id() < u64::MAX,
        ensures
            final(stats).wf(),
            id == old(stats).next_id(),
            final(stats).list() == recent(
                old(stats).list().push(
                    begun(
                        id as nat,
                        Seq::empty(),
                        self.name@,
                        Direction::Download,
                        Some(self.len),
                        path@,
                    ),
                ),
            ),
            final(stats).next_id() == old(stats).next_id() + 1,
            final(stats).bytes() == old(stats).bytes(),
            final(stats).requests() == old(stats).requests(),
            final(stats).holds() == old(stats).holds(),
    {
        stats.begin(self.name.as_str(), Direction::Download, Some(self.len), path)
    }
}

/// A download has been sent: its row is finished and successful.
pub fn download_sent(stats: &mut Stats, id: u64)
    requires
        old(stats).wf(),
    ensures
        final(stats).wf(),
        final(stats).list() == changed_in(
            changed_in(old(stats).list(), id as nat, Change::Finish),
            id as nat,
            Change::Succeed,
        ),
        final(stats).next_id() == old(stats).next_id(),
        final(stats).bytes() == old(stats).bytes(),
        final(stats).requests() == old(stats).requests(),
        final(stats).holds() == old(stats).holds(),
{
    stats.change(id, Change::Finish);
    stats.change(id, Change::Succeed);
}

/// The reply to a download whose path leaves the root.
pub fn bad_path() -> (r: Reply)
    ensures
        r@ == plain(400, "Bad path"@),
{
    Reply::text(400, "Bad path")
}

/// The reply to a request for what does not exist.
pub fn not_found() -> (r: Reply)
    ensures
        r@ == plain(404, "Not found"@),
{
    Reply::text(404, "Not found")
}

/// The reply when a file could not be opened.
pub fn read_error() -> (r: Reply)
    ensures
        r@ == plain(500, "read error"@),
{
    Reply::text(500, "read error")
}

/// The reply when a file could not be positioned at the start of a range.
pub fn seek_error() -> (r: Reply)
    ensures
        r@ == plain(500, "seek error"@),
{
    Reply::text(500, "seek error")
}

// ---- Folder archives ----

/// How a folder archive is sent.
pub struct ZipPlan {
    /// Prefix of every name in the archive.
    pub prefix: String,
    /// Name of the archive.
    pub name: String,
    pub headers: Vec<Header>,
}

/// The name of a folder that is archived.
pub open spec fn folder_name(base: Option<Seq<char>>) -> Seq<char> {
    match base {
        Some(b) => b,
        None => "folder"@,
    }
}

/// Plan how to send a folder as an archive, given the folder's name.
pub fn plan_folder_zip(base: Option<&str>) -> (p: ZipPlan)
    ensures
        p.prefix@ == folder_name(crate::url::opt_str(base)) + seq!['/'],
        p.name@ == replace_char(folder_name(crate::url::opt_str(base)), '"', Seq::empty())
            + ".zip"@,
        header_texts(p.headers@) == seq![
            ("Content-Type"@, "application/zip"@),
            ("Content-Disposition"@, disposition(p.name@)),
        ],
{
    let base = match base {
        Some(b) => b.to_owned(),
        None => "folder".to_owned(),
    };
    let empty: Vec<char> = Vec::new();
    assert(empty@ =~= Seq::<char>::empty());
    let mut name = string_of(&replaced(&chars_of(base.as_str()), '"', &empty));
    name.append(".zip");
    let mut headers: Vec<Header> = Vec::new();
    push_header(&mut headers, "Content-Type", "application/zip");
    push_header(&mut headers, "Content-Disposition", disposition_of(name.as_str()).as_str());
    assert(header_texts(headers@) =~= seq![
        ("Content-Type"@, "application/zip"@),
        ("Content-Disposition"@, disposition(name@)),
    ]);
    let mut prefix = base;
    prefix.push('/');
    assert(prefix@ =~= base@ + seq!['/']);
    ZipPlan { prefix, name, headers }
}

/// The sum of sizes.
pub open spec fn sum(sizes: Seq<u64>) -> nat
    decreases sizes.len(),
{
    if sizes.len() == 0 {
        0
    } else {
        sum(sizes.drop_last()) + sizes.last() as nat
    }
}

/// Add up the sizes of the files of a folder, unless the sum is out of range.
pub fn total_size(sizes: &[u64]) -> (r: Option<u64>)
    ensures
        match r {
            Some(n) => n == sum(sizes@),
            None => sum(sizes@) > u64::MAX,
        },
{
    let mut n: u64 = 0;
    let mut i: usize = 0;
    while i < sizes.len()
        invariant
            i <= sizes@.len(),
            n == sum(sizes@.take(i as int)),
        decreases sizes@.len() - i,
    {
        assert(sizes@.take(i + 1).drop_last() =~= sizes@.take(i as int));
        if sizes[i] > u64::MAX - n {
            proof {
                lemma_sum_grows(sizes@, i + 1);
            }
            return None;
        }
        n = n + sizes[i];
        i = i + 1;
    }
    assert(sizes@.take(i as int) =~= sizes@);
    Some(n)
}

proof fn lemma_sum_grows(sizes: Seq<u64>, i: int)
    requires
        0 <= i <= sizes.len(),
    ensures
        sum(sizes.take(i)) <= sum(sizes),
    decreases sizes.len(),
{
    if i == sizes.len() {
        assert(sizes.take(i) =~= sizes);
    } else {
        lemma_sum_grows(sizes.drop_last(), i);
        assert(sizes.drop_last().take(i) =~= sizes.take(i));
    }
}

// ---- Laws ----

/// A range is never empty and never reaches past the end of the file.
pub proof fn ranges_stay_in_the_file(h: Seq<char>, total: nat)
    ensures
        range_of(h, total) matches Some((start, end)) ==> start <= end < total,
{
}

/// The header that resumes a download at `from`.
pub open spec fn resume_range(from: nat) -> Seq<char> {
    "bytes="@ + dec(from) + "-"@
}

proof fn lemma_trim_solid(s: Seq<char>)
    requires
        s.len() > 0,
        !is_space(s[0]),
        !is_space(s.last()),
    ensures
        trim(s) == s,
{
    lemma_lead(s, |c: char| is_space(c), 0);
    assert(trim_start(s) =~= s);
}

/// A client that resumes at an offset inside the file is sent exactly the rest of it.
pub proof fn resuming_asks_for_the_rest(from: nat, total: nat)
    requires
        from < total <= u64::MAX,
    ensures
        range_of(resume_range(from), total) == Some((from, (total - 1) as nat)),
{
    reveal_strlit("bytes=");
    reveal_strlit("-");
    let h = resume_range(from);
    let p = "bytes="@;
    let d = dec(from);
    lemma_dec_round_trip(from);
    dec_is_read_back(from, u64::MAX as nat);
    assert(h[0] == 'b');
    assert(h.last() == '-');
    lemma_trim_solid(h);
    assert(h.subrange(0, p.len() as int) =~= p);
    let range = h.skip(p.len() as int);
    assert(range =~= d.push('-'));
    assert forall|i: int| 0 <= i < d.len() implies range[i] != ',' && range[i] != '-' by {
        assert(is_digit(d[i]));
    }
    lemma_first_at(range, '-', d.len() as int);
    assert(range.take(d.len() as int) =~= d);
    assert(range.skip(d.len() as int + 1) =~= Seq::<char>::empty());
    assert(is_digit(d[0]) && is_digit(d[d.len() - 1]));
    lemma_trim_solid(d);
    let e = Seq::<char>::empty();
    lemma_lead(e, |c: char| is_space(c), 0);
    assert(trim_start(e) =~= e);
    assert(trim(e) =~= e);
}

/// A download that resumes is byte-exact: what was held and what the resumed request is sent make
/// the file.
pub proof fn resumed_download_is_the_file(file: Seq<u8>, held: Seq<u8>)
    requires
        0 < held.len() < file.len() <= u64::MAX,
        held == file.take(held.len() as int),
    ensures
        ({
            let range = range_of(resume_range(held.len()), file.len());
            range matches Some((from, to)) && held + file.subrange(
                from as int,
                to as int + 1,
            ) == file
        }),
{
    resuming_asks_for_the_rest(held.len(), file.len());
    assert(held + file.subrange(held.len() as int, file.len() as int) =~= file);
}

proof fn lemma_number_solid(n: nat)
    ensures
        dec(n).len() > 0,
        trim(dec(n)) == dec(n),
        forall|i: int|
            0 <= i < dec(n).len() ==> #[trigger] dec(n)[i] != ',' && dec(n)[i] != '-' && dec(n)[i]
                != '/' && !is_space(dec(n)[i]),
{
    let d = dec(n);
    lemma_dec_round_trip(n);
    assert forall|i: int| 0 <= i < d.len() implies #[trigger] d[i] != ',' && d[i] != '-' && d[i]
        != '/' && !is_space(d[i]) by {
        assert(is_digit(d[i]));
    }
    assert(is_digit(d[0]) && is_digit(d[d.len() - 1]));
    lemma_trim_solid(d);
}

/// A range of two numbers is sent from the first byte to the last, or to the end of the file where
/// that comes sooner; a range that begins behind its own end, or behind the file's, counts for
/// nothing.
pub proof fn ranges_are_sent_as_asked(a: nat, b: nat, total: nat)
    requires
        a <= u64::MAX,
        b <= u64::MAX,
    ensures
        range_of("bytes="@ + dec(a) + "-"@ + dec(b), total) == (if a <= b && a < total {
            Some(
                (
                    a,
                    if b < total {
                        b
                    } else {
                        (total - 1) as nat
                    },
                ),
            )
        } else {
            None
        }),
{
    reveal_strlit("bytes=");
    reveal_strlit("-");
    let p = "bytes="@;
    let (x, y) = (dec(a), dec(b));
    let h = p + x + "-"@ + y;
    lemma_number_solid(a);
    lemma_number_solid(b);
    dec_is_read_back(a, u64::MAX as nat);
    dec_is_read_back(b, u64::MAX as nat);
    assert(h[0] == 'b');
    assert(h.last() == y[y.len() - 1]);
    lemma_trim_solid(h);
    assert(h.subrange(0, p.len() as int) =~= p);
    let range = h.skip(p.len() as int);
    assert(range =~= x + seq!['-'] + y);
    assert forall|i: int| 0 <= i < range.len() implies range[i] != ',' by {
        if i < x.len() {
            assert(range[i] == x[i]);
        } else if i > x.len() {
            assert(range[i] == y[i - x.len() - 1]);
        }
    }
    assert forall|i: int| 0 <= i < x.len() implies range[i] != '-' by {
        assert(range[i] == x[i]);
    }
    lemma_first_at(range, '-', x.len() as int);
    assert(range.take(x.len() as int) =~= x);
    assert(range.skip(x.len() as int + 1) =~= y);
}

/// Only single ranges are served: a header with a comma, or one that counts from the end, sends the
/// whole file.
pub proof fn other_ranges_count_for_nothing(h: Seq<char>, n: nat, total: nat)
    ensures
        h.contains(',') ==> range_of(h, total) is None,
        range_of("bytes=-"@ + dec(n), total) is None,
{
    reveal_strlit("bytes=");
    reveal_strlit("bytes=-");
    let p = "bytes="@;
    if h.contains(',') && range_of(h, total) is Some {
        let ends = trimming_cuts_white_space(h);
        let t = trim(h);
        let i = choose|i: int| 0 <= i < h.len() && h[i] == ',';
        let k = i - ends.0.len();
        if k < 0 {
            assert(is_space(ends.0[i]));
        } else if k >= t.len() {
            assert(is_space(ends.1[k - t.len()]));
        }
        assert(t[k] == ',');
        if k < p.len() {
            assert(t.subrange(0, p.len() as int)[k] == p[k]);
        } else {
            assert(t.skip(p.len() as int)[k - p.len()] == ',');
        }
    }
    let d = dec(n);
    let g = "bytes=-"@ + d;
    lemma_number_solid(n);
    assert(g[0] == 'b' && g.last() == d[d.len() - 1]);
    lemma_trim_solid(g);
    assert(g.subrange(0, p.len() as int) =~= p);
    let range = g.skip(p.len() as int);
    assert(range[0] == '-');
    lemma_first_at(range, '-', 0);
    let e = Seq::<char>::empty();
    assert(range.take(0) =~= e);
    trimming_gives_the_middle(e, e, e);
    assert(e + e + e =~= e);
}

/// White space around a range does not matter.
pub proof fn padded_ranges_are_the_same(a: Seq<char>, h: Seq<char>, b: Seq<char>, total: nat)
    requires
        all_space(a),
        all_space(b),
    ensures
        range_of(a + h + b, total) == range_of(h, total),
{
    surrounding_white_space_does_not_matter(a, h, b);
}

/// The first byte, the last byte and the size of the file can be read back from a `Content-Range`.
pub proof fn content_ranges_are_read_back(start: nat, end: nat, total: nat)
    ensures
        begins(content_range(start, end, total), "bytes "@),
        ({
            let r = content_range(start, end, total).skip(6);
            split_once(r, '-') matches Some((a, rest)) && split_once(rest, '/') matches Some((b, c))
                && parse_dec(a, start) == Some(start) && parse_dec(b, end) == Some(end)
                && parse_dec(c, total) == Some(total)
        }),
{
    reveal_strlit("bytes ");
    reveal_strlit("-");
    reveal_strlit("/");
    let all = content_range(start, end, total);
    let (x, y, z) = (dec(start), dec(end), dec(total));
    lemma_number_solid(start);
    lemma_number_solid(end);
    lemma_number_solid(total);
    dec_is_read_back(start, start);
    dec_is_read_back(end, end);
    dec_is_read_back(total, total);
    assert(all.subrange(0, "bytes "@.len() as int) =~= "bytes "@);
    let r = all.skip(6);
    let rest = y + seq!['/'] + z;
    assert(r =~= x + seq!['-'] + rest);
    assert forall|i: int| 0 <= i < x.len() implies r[i] != '-' by {
        assert(r[i] == x[i]);
    }
    lemma_first_at(r, '-', x.len() as int);
    assert(r.take(x.len() as int) =~= x);
    assert(r.skip(x.len() as int + 1) =~= rest);
    assert forall|i: int| 0 <= i < y.len() implies rest[i] != '/' by {
        assert(rest[i] == y[i]);
    }
    lemma_first_at(rest, '/', y.len() as int);
    assert(rest.take(y.len() as int) =~= y);
    assert(rest.skip(y.len() as int + 1) =~= z);
}

/// The name that the client is told is the file's with every quotation mark left out, and nothing
/// else; so it can stand between quotation marks.
pub proof fn told_names_lack_only_quotes(n: Seq<char>)
    ensures
        told_name(Some(n)) == n.filter(|c: char| c != '"'),
        !told_name(Some(n)).contains('"'),
    decreases n.len(),
{
    reveal(Seq::filter);
    let keep = |c: char| c != '"';
    if n.len() > 0 {
        told_names_lack_only_quotes(n.drop_last());
        let (front, last) = (told_name(Some(n.drop_last())), n.last());
        if last == '"' {
            assert(told_name(Some(n)) =~= front);
        } else {
            let all = told_name(Some(n));
            assert(all =~= front.push(last));
            if all.contains('"') {
                let i = choose|i: int| 0 <= i < all.len() && all[i] == '"';
                assert(front[i] == '"');
            }
        }
    }
}

/// Sizes add up in any grouping, each counted once.
pub proof fn sizes_add_up(a: Seq<u64>, b: Seq<u64>, n: u64)
    ensures
        sum(a + b) == sum(a) + sum(b),
        sum(seq![n]) == n,
    decreases b.len(),
{
    reveal_with_fuel(sum, 2);
    assert(seq![n].drop_last() =~= Seq::<u64>::empty());
    if b.len() == 0 {
        assert(a + b =~= a);
    } else {
        sizes_add_up(a, b.drop_last(), n);
        assert((a + b).drop_last() =~= a + b.drop_last());
    }
}

/// The name of the file can be read back from the header that tells it: it is all that stands
/// between the quotation marks.
pub proof fn told_names_are_read_back(n: Seq<char>)
    ensures
        split(disposition(told_name(Some(n))), '"') == seq![
            "attachment; filename="@,
            told_name(Some(n)),
            Seq::<char>::empty(),
        ],
{
    reveal_strlit("attachment; filename=\"");
    reveal_strlit("attachment; filename=");
    reveal_strlit("\"");
    let name = told_name(Some(n));
    let front = "attachment; filename="@;
    let e = Seq::<char>::empty();
    told_names_lack_only_quotes(n);
    let parts = seq![front, name, e];
    assert(!front.contains('"')) by {
        assert forall|i: int| 0 <= i < front.len() implies front[i] != '"' by {}
    }
    assert forall|i: int| 0 <= i < parts.len() implies !(#[trigger] parts[i]).contains('"') by {
        assert(i == 0 || i == 1 || i == 2);
    }
    lemma_split_join(parts, '"');
    assert("attachment; filename=\""@ =~= front + seq!['"']);
    assert("\""@ =~= seq!['"']);
    assert(parts.drop_last() =~= seq![front, name]);
    assert(seq![front, name].drop_last() =~= seq![front]);
    assert(join(seq![front], seq!['"']) =~= front);
    assert(join(seq![front, name], seq!['"']) =~= front + seq!['"'] + name);
    assert(join(parts, seq!['"']) =~= disposition(name));
}

/// Every file is sent as a stream of bytes, as an attachment of its name, and with the offer to send
/// parts of it.
pub proof fn files_are_sent_as_attachments(name: Seq<char>)
    ensures
        file_headers(name).contains(("Content-Type"@, "application/octet-stream"@)),
        file_headers(name).contains(("Content-Disposition"@, disposition(name))),
        file_headers(name).contains(("Accept-Ranges"@, "bytes"@)),
        file_headers(name).len() == 3,
{
    let h = file_headers(name);
    assert(h[0] == ("Content-Type"@, "application/octet-stream"@));
    assert(h[1] == ("Content-Disposition"@, disposition(name)));
    assert(h[2] == ("Accept-Ranges"@, "bytes"@));
}

proof fn lemma_spaces_hold_no(s: Seq<char>, c: char)
    requires
        all_space(s),
        !is_space(c),
    ensures
        !s.contains(c),
{
    if s.contains(c) {
        let i = choose|i: int| 0 <= i < s.len() && s[i] == c;
        assert(is_space(s[i]));
    }
}

/// White space around the two numbers of a range does not matter either.
pub proof fn spaced_ranges_are_the_same(
    s1: Seq<char>,
    a: nat,
    s2: Seq<char>,
    s3: Seq<char>,
    b: nat,
    total: nat,
)
    requires
        all_space(s1),
        all_space(s2),
        all_space(s3),
        a <= u64::MAX,
        b <= u64::MAX,
    ensures
        range_of("bytes="@ + (s1 + dec(a) + s2) + seq!['-'] + (s3 + dec(b)), total) == range_of(
            "bytes="@ + dec(a) + "-"@ + dec(b),
            total,
        ),
{
    ranges_are_sent_as_asked(a, b, total);
    reveal_strlit("bytes=");
    let p = "bytes="@;
    let (d, f) = (dec(a), dec(b));
    let e = Seq::<char>::empty();
    lemma_number_solid(a);
    lemma_number_solid(b);
    dec_is_read_back(a, u64::MAX as nat);
    dec_is_read_back(b, u64::MAX as nat);
    let (x, y) = (s1 + d + s2, s3 + f);
    let range = x + seq!['-'] + y;
    let h = p + x + seq!['-'] + y;
    assert(h =~= p + range);
    assert(h[0] == 'b' && h.last() == f[f.len() - 1]);
    lemma_trim_solid(h);
    assert(h.subrange(0, p.len() as int) =~= p);
    assert(h.skip(p.len() as int) =~= range);
    lemma_spaces_hold_no(s1, ',');
    lemma_spaces_hold_no(s2, ',');
    lemma_spaces_hold_no(s3, ',');
    lemma_spaces_hold_no(s1, '-');
    lemma_spaces_hold_no(s2, '-');
    lemma_lacks(s1, d, s2, ',');
    lemma_lacks(s1, d, s2, '-');
    lemma_lacks(s3, f, e, ',');
    assert(s3 + f + e =~= y);
    lemma_lacks(x, seq!['-'], y, ',');
    let n = x.len() as int;
    assert forall|i: int| 0 <= i < n implies range[i] != '-' by {
        assert(range[i] == x[i]);
        assert(x.contains(x[i]));
    }
    lemma_first_at(range, '-', n);
    assert(range.take(n) =~= x);
    assert(range.skip(n + 1) =~= y);
    assert(!is_space(d[0]) && !is_space(d[d.len() - 1]) && !is_space(f[0]) && !is_space(
        f[f.len() - 1],
    ));
    trimming_gives_the_middle(s1, d, s2);
    trimming_gives_the_middle(s3, f, e);
}

proof fn lemma_lacks(a: Seq<char>, m: Seq<char>, b: Seq<char>, c: char)
    requires
        !a.contains(c),
        !b.contains(c),
        forall|i: int| 0 <= i < m.len() ==> #[trigger] m[i] != c,
    ensures
        !(a + m + b).contains(c),
{
    let s = a + m + b;
    assert forall|i: int| 0 <= i < s.len() implies s[i] != c by {
        if i < a.len() {
            assert(a.contains(a[i]));
        } else if i < a.len() + m.len() {
            assert(s[i] == m[i - a.len()]);
        } else {
            assert(b.contains(b[i - a.len() - m.len()]));
        }
    }
}

} // verus!
