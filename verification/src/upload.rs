//! Uploads: where they may go, how they resume, and when they count as complete.

use vstd::prelude::*;
use vstd::arithmetic::power::pow;
use vstd::string::*;
use crate::crc::crc32_of;
use crate::num::{
    dec, dec_is_read_back, dec_string, hex, hex_digits_stand_by_place, hex_texts_are_read_back,
    parse_dec, parse_hex, parse_hex_u32, parse_uint,
};
use crate::paths::{
    is_plain_filename, plain_filename, plain_names_name_themselves, resolve_within, resolved,
};
use crate::reply::{plain, Reply, ReplyText};
use crate::stats::{changed_holds, changed_in, keyed, Change, Direction, Stats};
use crate::text::{
    all_space, begins, chars_of, is_space, part, same_ignoring_case, starts_with, texts, trim, trimmed,
    trimming_gives_the_middle,
};
use crate::url::{
    first_header_counts, header_of, header_value, missing_headers_are_not_found, opt_str, Header,
};

verus! {

// ---- Destination ----

/// Where an upload goes: the components of its folder below the root, and its name there.
pub struct Target {
    pub folder: Vec<String>,
    pub name: String,
}

/// Why an upload has no destination.
#[derive(Clone, Copy, Debug, PartialEq, Eq, Structural)]
pub enum TargetError {
    /// The name is missing or is no plain file name.
    BadName,
    /// The folder is outside the root.
    BadPath,
}

/// Whether an optional name is a plain file name.
pub open spec fn good_name(name: Option<Seq<char>>) -> bool {
    name matches Some(n) && plain_filename(n)
}

/// Find the destination of an upload. The name is looked at before the folder.
pub fn upload_target(rel: &str, name: Option<&str>) -> (r: Result<Target, TargetError>)
    ensures
        match r {
            Ok(t) => good_name(opt_str(name)) && Some(t.name@) == opt_str(name) && resolved(rel@)
                == Some(texts(t.folder@)),
            Err(TargetError::BadName) => !good_name(opt_str(name)),
            Err(TargetError::BadPath) => good_name(opt_str(name)) && resolved(rel@) is None,
        },
{
    match name {
        Some(n) => {
            if !is_plain_filename(n) {
                return Err(TargetError::BadName);
            }
            match resolve_within(rel) {
                Some(folder) => Ok(Target { folder, name: n.to_owned() }),
                None => Err(TargetError::BadPath),
            }
        },
        None => Err(TargetError::BadName),
    }
}

/// The reply to an upload without a destination.
pub fn refuse_upload(e: TargetError) -> (r: Reply)
    ensures
        r@ == (match e {
            TargetError::BadName => plain(400, "Bad or missing name"@),
            TargetError::BadPath => plain(400, "Bad path"@),
        }),
{
    match e {
        TargetError::BadName => Reply::text(400, "Bad or missing name"),
        TargetError::BadPath => Reply::text(400, "Bad path"),
    }
}

/// The reply to a question about, or a discard of, an upload without a destination.
pub fn refuse_silently() -> (r: Reply)
    ensures
        r@ == plain(400, Seq::empty()),
{
    let none = String::new();
    Reply::text(400, none.as_str())
}

/// The reply to how much of an upload has been received.
pub open spec fn head_text(received: nat) -> ReplyText {
    plain(200, Seq::empty()).with("X-Zap-Offset"@, dec(received)).with("Accept-Ranges"@, "bytes"@)
}

/// The reply to how much of an upload has been received.
pub fn head_reply(received: u64) -> (r: Reply)
    ensures
        r@ == head_text(received as nat),
{
    let none = String::new();
    Reply::text(200, none.as_str()).with_header(
        "X-Zap-Offset",
        dec_string(received).as_str(),
    ).with_header("Accept-Ranges", "bytes")
}

/// The reply to the discard of an interrupted upload, whether or not it was there.
pub fn discard_reply() -> (r: Reply)
    ensures
        r@ == plain(200, "ok"@),
{
    Reply::text(200, "ok")
}

/// The reply when the destination folder could not be made.
pub fn mkdir_failed() -> (r: Reply)
    ensures
        r@ == plain(500, "mkdir failed"@),
{
    Reply::text(500, "mkdir failed")
}

// ---- What the client declares ----

/// The whole size that a client declares.
pub open spec fn declared_total(headers: Seq<Header>) -> Option<nat> {
    match header_of(headers, "X-Zap-Total"@) {
        Some(s) => parse_dec(s, u64::MAX as nat),
        None => None,
    }
}

/// A text without any `0x` before it.
pub open spec fn strip_0x(s: Seq<char>) -> Seq<char>
    decreases s.len(),
{
    if begins(s, seq!['0', 'x']) {
        strip_0x(s.skip(2))
    } else {
        s
    }
}

/// The whole-file CRC-32 that a client declares.
pub open spec fn declared_crc(headers: Seq<Header>) -> Option<nat> {
    match header_of(headers, "X-Zap-Crc32"@) {
        Some(s) => parse_hex(strip_0x(trim(s)), u32::MAX as nat),
        None => None,
    }
}

fn without_0x(s: Vec<char>) -> (r: Vec<char>)
    ensures
        r@ == strip_0x(s@),
{
    let mut rest = s;
    assert(['0', 'x']@ =~= seq!['0', 'x']);
    while starts_with(&rest, &['0', 'x'])
        invariant
            strip_0x(rest@) == strip_0x(s@),
            ['0', 'x']@ == seq!['0', 'x'],
        decreases rest@.len(),
    {
        let next = part(&rest, 2, rest.len());
        assert(next@ =~= rest@.skip(2));
        rest = next;
    }
    rest
}

/// An optional machine number as a mathematical one.
pub open spec fn opt_u64(n: Option<u64>) -> Option<nat> {
    match n {
        Some(v) => Some(v as nat),
        None => None,
    }
}

/// An optional machine number as a mathematical one.
pub open spec fn opt_u32(n: Option<u32>) -> Option<nat> {
    match n {
        Some(v) => Some(v as nat),
        None => None,
    }
}

/// Read the size that a client declares.
pub fn total_header(headers: &[Header]) -> (r: Option<u64>)
    ensures
        opt_u64(r) == declared_total(headers@),
{
    match header_value(headers, "X-Zap-Total") {
        Some(s) => parse_uint(&chars_of(s.as_str()), u64::MAX),
        None => None,
    }
}

/// Read the CRC-32 that a client declares.
pub fn crc_header(headers: &[Header]) -> (r: Option<u32>)
    ensures
        opt_u32(r) == declared_crc(headers@),
{
    match header_value(headers, "X-Zap-Crc32") {
        Some(s) => parse_hex_u32(&without_0x(trimmed(&chars_of(s.as_str())))),
        None => None,
    }
}

// ---- Resumable uploads ----

/// A resumable upload whose offset was right and whose bytes are being appended.
pub struct ResumableUpload {
    /// Its row in the activity list.
    pub id: u64,
    /// Bytes held before this request.
    pub held: u64,
    /// The whole size, if declared.
    pub total: Option<u64>,
    /// The whole-file CRC-32, if declared.
    pub expected: Option<u32>,
}

/// What to do once the bytes of a request were appended.
pub enum AfterAppend {
    /// All bytes are here: compute the CRC-32 of the temporary file and go on with `checked`.
    Verify,
    /// All bytes are here and there is nothing to compare them with: go on with `renamed`.
    Rename,
    /// Send the reply; keep the temporary file for the next resume.
    Answer(UploadEnd),
}

/// What to do once the CRC-32 was compared.
pub enum AfterCheck {
    /// Rename the temporary file into place and go on with `renamed`.
    Rename,
    /// Delete the temporary file and send the reply.
    Discard(UploadEnd),
}

/// The end of a request: its reply, and whether the history is to be saved.
pub struct UploadEnd {
    pub reply: Reply,
    pub save: bool,
}

/// The reply to an offset that is not where the temporary file ends.
pub open spec fn mismatch_text(held: nat) -> ReplyText {
    plain(409, "offset mismatch"@).with("X-Zap-Offset"@, dec(held))
}

/// Whether an upload has reached its declared size.
pub open spec fn is_complete(size: u64, total: Option<u64>) -> bool {
    total matches Some(t) && size >= t
}

/// The reply to a request that left the upload incomplete.
pub open spec fn incomplete_text(size: nat, written: bool) -> ReplyText {
    if written {
        plain(200, "partial"@).with("X-Zap-Offset"@, dec(size))
    } else {
        plain(500, "interrupted"@).with("X-Zap-Offset"@, dec(size))
    }
}

/// Begin a request of a resumable upload. `held` is the size of the temporary file. The client's
/// offset must be where that file ends; if it is not, the client is told the right one. The row of
/// the upload shows the bytes already held.
pub fn resumable_upload(
    stats: &mut Stats,
    key: &str,
    name: &str,
    dest: &str,
    offset: u64,
    held: u64,
    headers: &[Header],
) -> (r: Result<ResumableUpload, Reply>)
    requires
        old(stats).wf(),
        offset == held ==> old(stats).can_begin_spec(key@),
    ensures
        final(stats).wf(),
        final(stats).bytes() == old(stats).bytes(),
        final(stats).requests() == old(stats).requests(),
        match r {
            Ok(u) => {
                let (id, list, next) = keyed(
                    old(stats).list(),
                    old(stats).next_id(),
                    key@,
                    name@,
                    Direction::Upload,
                    u.total,
                    dest@,
                );
                &&& offset == held
                &&& u.id == id
                &&& u.held == held
                &&& opt_u64(u.total) == declared_total(headers@)
                &&& opt_u32(u.expected) == declared_crc(headers@)
                &&& final(stats).list() == changed_in(list, id, Change::Store(held))
                &&& final(stats).next_id() == next
                &&& final(stats).holds() == changed_holds(
                    old(stats).holds(),
                    id,
                    Change::Store(held),
                )
            },
            Err(reply) => {
                &&& offset != held
                &&& reply@ == mismatch_text(held as nat)
                &&& final(stats).list() == old(stats).list()
                &&& final(stats).next_id() == old(stats).next_id()
                &&& final(stats).holds() == old(stats).holds()
            },
        },
{
    if offset != held {
        return Err(
            Reply::text(409, "offset mismatch").with_header(
                "X-Zap-Offset",
                dec_string(held).as_str(),
            ),
        );
    }
    let total = total_header(headers);
    let expected = crc_header(headers);
    let id: u64 = stats.begin_upload(key, name, total, dest);
    stats.change(id, Change::Store(held));
    Ok(ResumableUpload { id, held, total, expected })
}

impl ResumableUpload {
    /// The bytes of a request were appended, or writing failed. `size` is the size of the
    /// temporary file now.
    pub fn appended(&self, stats: &mut Stats, size: u64, written: bool) -> (r: AfterAppend)
        requires
            old(stats).wf(),
        ensures
            final(stats).wf(),
            final(stats).bytes() == old(stats).bytes(),
            final(stats).requests() == old(stats).requests(),
            final(stats).holds() == old(stats).holds(),
            final(stats).next_id() == old(stats).next_id(),
            final(stats).list() == (if is_complete(size, self.total) || !written {
                changed_in(old(stats).list(), self.id as nat, Change::Finish)
            } else {
                old(stats).list()
            }),
            match r {
                AfterAppend::Verify => is_complete(size, self.total) && self.expected is Some,
                AfterAppend::Rename => is_complete(size, self.total) && self.expected is None,
                AfterAppend::Answer(end) => {
                    &&& !is_complete(size, self.total)
                    &&& end.reply@ == incomplete_text(size as nat, written)
                    &&& end.save == !written
                },
            },
            self.total is None || size < self.total->0 ==> (r matches AfterAppend::Answer(end)
                && reported_offset(end.reply@) == Some(size as nat)),
            self.total is Some && size >= self.total->0 ==> !(r is Answer),
    {
        proof {
            every_reply_tells_the_offset(size as nat, written);
        }
        let complete: bool = match self.total {
            Some(t) => size >= t,
            None => false,
        };
        if complete {
            stats.change(self.id, Change::Finish);
            if self.expected.is_some() {
                AfterAppend::Verify
            } else {
                AfterAppend::Rename
            }
        } else if written {
            let reply = Reply::text(200, "partial").with_header(
                "X-Zap-Offset",
                dec_string(size).as_str(),
            );
            AfterAppend::Answer(UploadEnd { reply, save: false })
        } else {
            stats.change(self.id, Change::Finish);
            let reply = Reply::text(500, "interrupted").with_header(
                "X-Zap-Offset",
                dec_string(size).as_str(),
            );
            AfterAppend::Answer(UploadEnd { reply, save: true })
        }
    }

    /// The CRC-32 of the temporary file was computed, or could not be. Only a match lets the file
    /// into place.
    pub fn checked(&self, got: Option<u32>) -> (r: AfterCheck)
        ensures
            match r {
                AfterCheck::Rename => self.expected is None || got == self.expected,
                AfterCheck::Discard(end) => {
                    &&& self.expected is Some && got != self.expected
                    &&& end.reply@ == plain(422, "integrity check failed"@).with(
                        "X-Zap-Verified"@,
                        "false"@,
                    )
                    &&& end.save
                },
            },
    {
        let verified: bool = match (self.expected, got) {
            (Some(want), Some(have)) => want == have,
            (Some(_), None) => false,
            (None, _) => true,
        };
        if verified {
            AfterCheck::Rename
        } else {
            let reply = Reply::text(422, "integrity check failed").with_header(
                "X-Zap-Verified",
                "false",
            );
            AfterCheck::Discard(UploadEnd { reply, save: true })
        }
    }

    /// The temporary file was renamed into place, or could not be. A finished upload counts as
    /// verified only if there was a CRC-32 to compare it with.
    pub fn renamed(&self, stats: &mut Stats, done: bool) -> (end: UploadEnd)
        requires
            old(stats).wf(),
        ensures
            final(stats).wf(),
            final(stats).bytes() == old(stats).bytes(),
            final(stats).requests() == old(stats).requests(),
            final(stats).holds() == old(stats).holds(),
            final(stats).next_id() == old(stats).next_id(),
            final(stats).list() == ({
                let ok = changed_in(old(stats).list(), self.id as nat, Change::Succeed);
                if !done {
                    old(stats).list()
                } else if self.expected is Some {
                    changed_in(ok, self.id as nat, Change::Verified)
                } else {
                    ok
                }
            }),
            end.save == done,
            end.reply@ == (if done {
                plain(200, "ok"@).with("X-Zap-Verified"@, "true"@)
            } else {
                plain(500, "finalize failed"@)
            }),
    {
        if done {
            stats.change(self.id, Change::Succeed);
            if self.expected.is_some() {
                stats.change(self.id, Change::Verified);
            }
            let reply = Reply::text(200, "ok").with_header("X-Zap-Verified", "true");
            UploadEnd { reply, save: true }
        } else {
            UploadEnd { reply: Reply::text(500, "finalize failed"), save: false }
        }
    }
}

// ---- One-shot uploads ----

/// The end of a one-shot upload: its row is finished, and successful if all was written. The
/// history is saved either way.
pub fn legacy_upload(stats: &mut Stats, id: u64, written: bool) -> (r: Reply)
    requires
        old(stats).wf(),
    ensures
        final(stats).wf(),
        final(stats).bytes() == old(stats).bytes(),
        final(stats).requests() == old(stats).requests(),
        final(stats).holds() == old(stats).holds(),
        final(stats).next_id() == old(stats).next_id(),
        final(stats).list() == ({
            let ended = changed_in(old(stats).list(), id as nat, Change::Finish);
            if written {
                changed_in(ended, id as nat, Change::Succeed)
            } else {
                ended
            }
        }),
        r@ == (if written {
            plain(200, "ok"@)
        } else {
            plain(500, "upload failed"@)
        }),
{
    stats.change(id, Change::Finish);
    if written {
        stats.change(id, Change::Succeed);
        Reply::text(200, "ok")
    } else {
        Reply::text(500, "upload failed")
    }
}

// ---- Laws ----

/// The offset that a reply reports to the client.
pub open spec fn reported_offset(r: ReplyText) -> Option<nat> {
    if r.headers.len() > 0 && r.headers[0].0 == "X-Zap-Offset"@ {
        parse_dec(r.headers[0].1, u64::MAX as nat)
    } else {
        None
    }
}

/// A client that asks, that sends from a wrong offset, or that sends only a part is told how many
/// bytes are held: the one offset from which the next request is accepted.
pub proof fn every_reply_tells_the_offset(held: nat, written: bool)
    requires
        held <= u64::MAX,
    ensures
        reported_offset(head_text(held)) == Some(held),
        reported_offset(mismatch_text(held)) == Some(held),
        reported_offset(incomplete_text(held, written)) == Some(held),
{
    dec_is_read_back(held, u64::MAX as nat);
}

/// What is held after requests that each appended some bytes of a file, from where the temporary
/// file ended; a request sends no more than is left.
pub open spec fn held_after(file: Seq<u8>, sent: Seq<nat>) -> Seq<u8>
    decreases sent.len(),
{
    if sent.len() == 0 {
        Seq::empty()
    } else {
        let held = held_after(file, sent.drop_last());
        let rest = file.skip(held.len() as int);
        held + (if sent.last() < rest.len() {
            rest.take(sent.last() as int)
        } else {
            rest
        })
    }
}

/// However often an upload is cut off and resumed, what is held is a beginning of the file; once
/// it has the file's size it is the file, with the file's CRC-32.
pub proof fn resumed_upload_is_the_file(file: Seq<u8>, sent: Seq<nat>)
    ensures
        held_after(file, sent).len() <= file.len(),
        held_after(file, sent) == file.take(held_after(file, sent).len() as int),
        held_after(file, sent).len() >= file.len() ==> {
            &&& held_after(file, sent) == file
            &&& crc32_of(held_after(file, sent)) == crc32_of(file)
        },
    decreases sent.len(),
{
    let now = held_after(file, sent);
    if sent.len() > 0 {
        resumed_upload_is_the_file(file, sent.drop_last());
    }
    assert(now =~= file.take(now.len() as int));
    if now.len() >= file.len() {
        assert(now =~= file);
    }
}

/// An upload of a file of declared size is taken for complete exactly when all of the file is held,
/// and not a byte sooner; what is then renamed into place is the file itself. Until then the reply
/// tells how many bytes are held, which is fewer than were declared.
pub proof fn only_whole_files_are_complete(file: Seq<u8>, sent: Seq<nat>, written: bool)
    requires
        file.len() <= u64::MAX,
    ensures
        ({
            let held = held_after(file, sent);
            let complete = is_complete(held.len() as u64, Some(file.len() as u64));
            &&& complete <==> held == file
            &&& !complete ==> held.len() < file.len() && reported_offset(
                incomplete_text(held.len(), written),
            ) == Some(held.len())
        }),
{
    resumed_upload_is_the_file(file, sent);
    every_reply_tells_the_offset(held_after(file, sent).len(), written);
}

/// An upload whose size was not declared, or of which even one byte is missing, is not complete; one
/// that has reached its size is.
pub proof fn completeness_is_by_size(size: u64, total: u64)
    ensures
        is_complete(size, Some(total)) <==> total <= size,
        !is_complete(size, None),
{
}

/// The size that a client declares is read back from the first header of that name, whatever the
/// case of its letters; without one nothing is declared.
pub proof fn declared_sizes_are_read_back(headers: Seq<Header>, i: int, n: u64)
    requires
        0 <= i <= headers.len(),
        i < headers.len() ==> same_ignoring_case(headers[i].name@, "X-Zap-Total"@)
            && headers[i].value@ == dec(n as nat),
        forall|j: int|
            0 <= j < i ==> !same_ignoring_case((#[trigger] headers[j]).name@, "X-Zap-Total"@),
    ensures
        declared_total(headers) == (if i < headers.len() {
            Some(n as nat)
        } else {
            None
        }),
{
    if i < headers.len() {
        first_header_counts(headers, "X-Zap-Total"@, i);
        dec_is_read_back(n as nat, u64::MAX as nat);
    } else {
        missing_headers_are_not_found(headers, "X-Zap-Total"@);
    }
}

proof fn lemma_no_0x(c: nat)
    ensures
        strip_0x(hex(c, 8)) == hex(c, 8),
        strip_0x(seq!['0', 'x'] + hex(c, 8)) == hex(c, 8),
        hex(c, 8).len() == 8,
        !is_space(hex(c, 8)[0]),
        !is_space(hex(c, 8).last()),
{
    reveal_strlit("0123456789abcdef");
    let h = hex(c, 8);
    hex_digits_stand_by_place(c, 8, 6);
    hex_digits_stand_by_place(c, 8, 7);
    hex_digits_stand_by_place(c, 8, 0);
    assert(h[1] != 'x');
    if begins(h, seq!['0', 'x']) {
        assert(h.subrange(0, 2)[1] == h[1]);
    }
    let s = seq!['0', 'x'] + h;
    assert(s.subrange(0, 2) =~= seq!['0', 'x']);
    assert(s.skip(2) =~= h);
    assert(begins(s, seq!['0', 'x']));
    assert(strip_0x(s) == strip_0x(s.skip(2)));
}

/// The checksum that a client declares is read back from eight hexadecimal digits, with or without
/// `0x` before them and white space around them.
pub proof fn declared_checksums_are_read_back(
    headers: Seq<Header>,
    i: int,
    c: u32,
    a: Seq<char>,
    marked: bool,
    b: Seq<char>,
)
    requires
        0 <= i < headers.len(),
        same_ignoring_case(headers[i].name@, "X-Zap-Crc32"@),
        all_space(a),
        all_space(b),
        headers[i].value@ == a + (if marked {
            seq!['0', 'x'] + hex(c as nat, 8)
        } else {
            hex(c as nat, 8)
        }) + b,
        forall|j: int|
            0 <= j < i ==> !same_ignoring_case((#[trigger] headers[j]).name@, "X-Zap-Crc32"@),
    ensures
        declared_crc(headers) == Some(c as nat),
{
    let h = hex(c as nat, 8);
    let m = if marked {
        seq!['0', 'x'] + h
    } else {
        h
    };
    first_header_counts(headers, "X-Zap-Crc32"@, i);
    lemma_no_0x(c as nat);
    assert(m.last() == h.last());
    trimming_gives_the_middle(a, m, b);
    assert(pow(16, 8) == 0x1_0000_0000) by {
        reveal_with_fuel(pow, 9);
    }
    hex_texts_are_read_back(c as nat, 8, u32::MAX as nat);
}

/// An upload's name is good exactly if it is there and names one entry of a folder as it stands.
pub proof fn good_names_name_themselves(name: Seq<char>)
    ensures
        good_name(Some(name)) <==> resolved(name) == Some(seq![name]),
        !good_name(None),
{
    plain_names_name_themselves(name);
}

/// A client can tell by the status what became of its request: 200 for a question and for a part
/// that was taken, 409 for a wrong offset, 500 for a write that failed.
pub proof fn statuses_tell_what_happened(held: nat)
    ensures
        head_text(held).status == 200,
        incomplete_text(held, true).status == 200,
        incomplete_text(held, false).status == 500,
        mismatch_text(held).status == 409,
        head_text(held).headers.contains(("Accept-Ranges"@, "bytes"@)),
{
    assert(head_text(held).headers[1] == ("Accept-Ranges"@, "bytes"@));
}

} // verus!
