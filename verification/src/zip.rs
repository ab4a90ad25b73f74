//! Streaming ZIP archives (store method), with ZIP64 fields where sizes or offsets need them.

use vstd::prelude::*;
use vstd::string::*;
use vstd::utf8::*;
use vstd::arithmetic::power::pow;
use crate::bytes::{
    le, le_is_read_back, le_value, lemma_le2_wraps, lemma_le_len, lemma_pow256, push_bytes,
    push_u16, push_u32, push_u64,
};
use crate::crc::{crc32, crc32_of};

verus! {

/// Sizes and offsets from here on are written in ZIP64 fields.
pub const Z64_THRESHOLD: u64 = 0xFFFF_FFFF;

/// One file of an archive: its name inside the archive, its size and its CRC-32.
pub struct ZipEntry {
    pub name: String,
    pub size: u64,
    pub crc: u32,
}

/// The same, as mathematical values.
#[verifier::ext_equal]
pub struct ZipRecord {
    pub name: Seq<char>,
    pub size: nat,
    pub crc: nat,
}

impl View for ZipEntry {
    type V = ZipRecord;

    open spec fn view(&self) -> ZipRecord {
        ZipRecord { name: self.name@, size: self.size as nat, crc: self.crc as nat }
    }
}

// ---- Layout ----

/// Whether a size or an offset needs a ZIP64 field.
pub open spec fn is_large(n: nat) -> bool {
    n >= 0xFFFF_FFFF
}

/// A 32-bit field, or the marker that says to look in the ZIP64 field.
pub open spec fn field32(n: nat) -> nat {
    if is_large(n) {
        0xFFFF_FFFF
    } else {
        n
    }
}

/// The "version needed" field.
pub open spec fn version_needed(z64: bool) -> nat {
    if z64 {
        45
    } else {
        20
    }
}

/// The flag that says the name is UTF-8 rather than plain ASCII.
pub open spec fn name_flag(name: Seq<char>) -> nat {
    if is_ascii_chars(name) {
        0
    } else {
        0x0800
    }
}

/// The fields that the local header and the central record share: name flag, store method,
/// the fixed date 1980-01-01, CRC-32, both sizes and the name's length.
pub open spec fn common_fields(e: ZipRecord) -> Seq<u8> {
    le(name_flag(e.name), 2) + le(0, 2) + le(0, 2) + le(0x21, 2) + le(e.crc, 4) + le(
        field32(e.size),
        4,
    ) + le(field32(e.size), 4) + le(encode_utf8(e.name).len(), 2)
}

/// The header that stands before a file's data.
pub open spec fn local_header(e: ZipRecord) -> Seq<u8> {
    le(0x0403_4b50, 4) + le(version_needed(is_large(e.size)), 2) + common_fields(e) + le(
        if is_large(e.size) {
            20
        } else {
            0
        },
        2,
    ) + encode_utf8(e.name) + (if is_large(e.size) {
        le(0x0001, 2) + le(16, 2) + le(e.size, 8) + le(e.size, 8)
    } else {
        Seq::empty()
    })
}

/// The values of the central record's ZIP64 field.
pub open spec fn central_extra(e: ZipRecord, offset: nat) -> Seq<u8> {
    (if is_large(e.size) {
        le(e.size, 8) + le(e.size, 8)
    } else {
        Seq::empty()
    }) + (if is_large(offset) {
        le(offset, 8)
    } else {
        Seq::empty()
    })
}

/// The central-directory record of a file whose local header stands at `offset`.
pub open spec fn central_record(e: ZipRecord, offset: nat) -> Seq<u8> {
    let extra = central_extra(e, offset);
    le(0x0201_4b50, 4) + le(45, 2) + le(version_needed(is_large(e.size) || is_large(offset)), 2)
        + common_fields(e) + le(
        if extra.len() > 0 {
            extra.len() + 4
        } else {
            0
        },
        2,
    ) + le(0, 2) + le(0, 2) + le(0, 2) + le(0, 4) + le(
        field32(offset),
        4,
    ) + encode_utf8(e.name) + (if extra.len() > 0 {
        le(0x0001, 2) + le(extra.len(), 2) + extra
    } else {
        Seq::empty()
    })
}

/// Where the next local header stands after these entries.
pub open spec fn offset_after(entries: Seq<ZipRecord>) -> nat
    decreases entries.len(),
{
    if entries.len() == 0 {
        0
    } else {
        offset_after(entries.drop_last()) + local_header(entries.last()).len()
            + entries.last().size
    }
}

/// The central directory of these entries.
pub open spec fn central_directory(entries: Seq<ZipRecord>) -> Seq<u8>
    decreases entries.len(),
{
    if entries.len() == 0 {
        Seq::empty()
    } else {
        central_directory(entries.drop_last()) + central_record(
            entries.last(),
            offset_after(entries.drop_last()),
        )
    }
}

/// The ZIP64 end record and its locator.
pub open spec fn zip64_end(count: nat, cd_size: nat, cd_offset: nat) -> Seq<u8> {
    le(0x0606_4b50, 4) + le(44, 8) + le(45, 2) + le(45, 2) + le(0, 4) + le(0, 4) + le(count, 8)
        + le(count, 8) + le(cd_size, 8) + le(cd_offset, 8) + le(0x0706_4b50, 4) + le(0, 4) + le(
        cd_offset + cd_size,
        8,
    ) + le(1, 4)
}

/// The smaller of a number and a field's marker value.
pub open spec fn capped(n: nat, top: nat) -> nat {
    if n < top {
        n
    } else {
        top
    }
}

/// The end-of-central-directory record.
pub open spec fn end_record(count: nat, cd_size: nat, cd_offset: nat) -> Seq<u8> {
    le(0x0605_4b50, 4) + le(0, 2) + le(0, 2) + le(capped(count, 0xFFFF), 2) + le(
        capped(count, 0xFFFF),
        2,
    ) + le(capped(cd_size, 0xFFFF_FFFF), 4) + le(capped(cd_offset, 0xFFFF_FFFF), 4) + le(0, 2)
}

/// What follows the last file's data: central directory, ZIP64 end where needed, end record.
pub open spec fn trailer(entries: Seq<ZipRecord>) -> Seq<u8> {
    let cd = central_directory(entries);
    let at = offset_after(entries);
    cd + (if entries.len() >= 0xFFFF || is_large(cd.len()) || is_large(at) {
        zip64_end(entries.len(), cd.len(), at)
    } else {
        Seq::empty()
    }) + end_record(entries.len(), cd.len(), at)
}

/// The local headers, each followed by its file's data.
pub open spec fn bodies(entries: Seq<ZipRecord>, data: Seq<Seq<u8>>) -> Seq<u8>
    decreases entries.len(),
{
    if entries.len() == 0 {
        Seq::empty()
    } else {
        bodies(entries.drop_last(), data.drop_last()) + local_header(entries.last()) + data.last()
    }
}

/// A whole archive.
pub open spec fn archive(entries: Seq<ZipRecord>, data: Seq<Seq<u8>>) -> Seq<u8> {
    bodies(entries, data) + trailer(entries)
}

// ---- Writing ----

fn push_common(v: &mut Vec<u8>, e: &ZipEntry)
    ensures
        final(v)@ == old(v)@ + common_fields(e@),
{
    let size32: u32 = if e.size >= Z64_THRESHOLD {
        0xFFFF_FFFF
    } else {
        e.size as u32
    };
    let name = e.name.as_str().as_bytes();
    push_u16(
        v,
        if e.name.as_str().is_ascii() {
            0
        } else {
            0x0800
        },
    );
    push_u16(v, 0);
    push_u16(v, 0);
    push_u16(v, 0x21);
    push_u32(v, e.crc);
    push_u32(v, size32);
    push_u32(v, size32);
    let len: usize = name.len();
    proof {
        lemma_le2_wraps(len as nat);
    }
    push_u16(v, (len % 0x1_0000) as u16);
    assert(v@ =~= old(v)@ + common_fields(e@));
}

fn make_local_header(e: &ZipEntry) -> (v: Vec<u8>)
    ensures
        v@ == local_header(e@),
{
    let z64: bool = e.size >= Z64_THRESHOLD;
    let mut v: Vec<u8> = Vec::new();
    push_u32(&mut v, 0x0403_4b50);
    push_u16(
        &mut v,
        if z64 {
            45
        } else {
            20
        },
    );
    push_common(&mut v, e);
    push_u16(
        &mut v,
        if z64 {
            20
        } else {
            0
        },
    );
    push_bytes(&mut v, e.name.as_str().as_bytes());
    if z64 {
        push_u16(&mut v, 0x0001);
        push_u16(&mut v, 16);
        push_u64(&mut v, e.size);
        push_u64(&mut v, e.size);
    }
    assert(v@ =~= local_header(e@));
    v
}

fn push_central_record(v: &mut Vec<u8>, e: &ZipEntry, offset: u64)
    ensures
        final(v)@ == old(v)@ + central_record(e@, offset as nat),
{
    broadcast use lemma_le_len;

    let large: bool = e.size >= Z64_THRESHOLD;
    let far: bool = offset >= Z64_THRESHOLD;
    let mut extra: Vec<u8> = Vec::new();
    if large {
        push_u64(&mut extra, e.size);
        push_u64(&mut extra, e.size);
    }
    if far {
        push_u64(&mut extra, offset);
    }
    assert(extra@ =~= central_extra(e@, offset as nat));
    assert(extra@.len() <= 24);
    push_u32(v, 0x0201_4b50);
    push_u16(v, 45);
    push_u16(
        v,
        if large || far {
            45
        } else {
            20
        },
    );
    push_common(v, e);
    push_u16(
        v,
        if extra.len() > 0 {
            extra.len() as u16 + 4
        } else {
            0
        },
    );
    push_u16(v, 0);
    push_u16(v, 0);
    push_u16(v, 0);
    push_u32(v, 0);
    push_u32(
        v,
        if far {
            0xFFFF_FFFF
        } else {
            offset as u32
        },
    );
    push_bytes(v, e.name.as_str().as_bytes());
    if extra.len() > 0 {
        push_u16(v, 0x0001);
        push_u16(v, extra.len() as u16);
        push_bytes(v, &extra);
    }
    assert(v@ =~= old(v)@ + central_record(e@, offset as nat));
}

fn push_zip64_end(v: &mut Vec<u8>, count: u64, cd_size: u64, cd_offset: u64)
    requires
        cd_offset + cd_size <= u64::MAX,
    ensures
        final(v)@ == old(v)@ + zip64_end(count as nat, cd_size as nat, cd_offset as nat),
{
    push_u32(v, 0x0606_4b50);
    push_u64(v, 44);
    push_u16(v, 45);
    push_u16(v, 45);
    push_u32(v, 0);
    push_u32(v, 0);
    push_u64(v, count);
    push_u64(v, count);
    push_u64(v, cd_size);
    push_u64(v, cd_offset);
    push_u32(v, 0x0706_4b50);
    push_u32(v, 0);
    push_u64(v, cd_offset + cd_size);
    push_u32(v, 1);
    assert(v@ =~= old(v)@ + zip64_end(count as nat, cd_size as nat, cd_offset as nat));
}

fn push_end_record(v: &mut Vec<u8>, count: u64, cd_size: u64, cd_offset: u64)
    ensures
        final(v)@ == old(v)@ + end_record(count as nat, cd_size as nat, cd_offset as nat),
{
    let n: u16 = if count < 0xFFFF {
        count as u16
    } else {
        0xFFFF
    };
    let size: u32 = if cd_size < Z64_THRESHOLD {
        cd_size as u32
    } else {
        0xFFFF_FFFF
    };
    let offset: u32 = if cd_offset < Z64_THRESHOLD {
        cd_offset as u32
    } else {
        0xFFFF_FFFF
    };
    push_u32(v, 0x0605_4b50);
    push_u16(v, 0);
    push_u16(v, 0);
    push_u16(v, n);
    push_u16(v, n);
    push_u32(v, size);
    push_u32(v, offset);
    push_u16(v, 0);
    assert(v@ =~= old(v)@ + end_record(count as nat, cd_size as nat, cd_offset as nat));
}

/// An archive in progress. Each entry's header is handed out to be written before the file's
/// data; the trailer is handed out at the end.
pub struct ZipWriter {
    central: Vec<u8>,
    count: u64,
    offset: u64,
    entries: Ghost<Seq<ZipRecord>>,
}

impl View for ZipWriter {
    type V = Seq<ZipRecord>;

    closed spec fn view(&self) -> Seq<ZipRecord> {
        self.entries@
    }
}

impl ZipWriter {
    /// The bookkeeping agrees with the entries added so far.
    pub closed spec fn wf(&self) -> bool {
        &&& self.central@ == central_directory(self@)
        &&& self.count == self@.len()
        &&& self.offset == offset_after(self@)
    }

    /// Start an empty archive.
    pub fn new() -> (w: ZipWriter)
        ensures
            w.wf(),
            w@ == Seq::<ZipRecord>::empty(),
    {
        ZipWriter { central: Vec::new(), count: 0, offset: 0, entries: Ghost(Seq::empty()) }
    }

    /// Whether another entry still fits: the offset after it and the entry count stay in range.
    pub fn fits(&self, e: &ZipEntry) -> (r: bool)
        requires
            self.wf(),
        ensures
            r == (offset_after(self@.push(e@)) <= u64::MAX && self@.len() < u64::MAX),
    {
        let header = make_local_header(e);
        assert(self@.push(e@).drop_last() =~= self@);
        let room: u64 = u64::MAX - self.offset;
        self.count < u64::MAX && e.size <= room && header.len() as u64 <= room - e.size
    }

    /// Add an entry. The result is the local header, to be followed by the file's data.
    pub fn add(&mut self, e: &ZipEntry) -> (header: Vec<u8>)
        requires
            old(self).wf(),
            offset_after(old(self)@.push(e@)) <= u64::MAX,
            old(self)@.len() < u64::MAX,
        ensures
            final(self).wf(),
            final(self)@ == old(self)@.push(e@),
            header@ == local_header(e@),
    {
        let header = make_local_header(e);
        let ghost now = self@.push(e@);
        assert(now.drop_last() =~= self@);
        push_central_record(&mut self.central, e, self.offset);
        self.offset = self.offset + header.len() as u64 + e.size;
        self.count = self.count + 1;
        self.entries = Ghost(now);
        header
    }

    /// Decide about the next file, by its CRC-32: a file that could not be read is left out, and one
    /// that the format cannot hold ends the archive.
    pub fn file(&mut self, name: &str, size: u64, crc: Option<u32>) -> (r: FileStep)
        requires
            old(self).wf(),
        ensures
            final(self).wf(),
            match crc {
                Some(c) => {
                    let now = old(self)@.push(
                        ZipRecord { name: name@, size: size as nat, crc: c as nat },
                    );
                    if offset_after(now) <= u64::MAX && old(self)@.len() < u64::MAX {
                        &&& r matches FileStep::Write(h) && h@ == local_header(now.last())
                        &&& final(self)@ == now
                    } else {
                        r is TooLarge && final(self)@ == old(self)@
                    }
                },
                None => r is Skip && final(self)@ == old(self)@,
            },
    {
        match crc {
            Some(crc) => {
                let e = ZipEntry { name: name.to_owned(), size, crc };
                if self.fits(&e) {
                    FileStep::Write(self.add(&e))
                } else {
                    FileStep::TooLarge
                }
            },
            None => FileStep::Skip,
        }
    }

    /// End the archive: what follows the last file's data, unless the format cannot hold it.
    pub fn end(&self) -> (r: Option<Vec<u8>>)
        requires
            self.wf(),
        ensures
            match r {
                Some(v) => {
                    &&& offset_after(self@) + central_directory(self@).len() <= u64::MAX
                    &&& v@ == trailer(self@)
                },
                None => offset_after(self@) + central_directory(self@).len() > u64::MAX,
            },
    {
        if self.can_finish() {
            Some(self.finish())
        } else {
            None
        }
    }

    /// Whether the central directory still ends inside a 64-bit offset.
    pub fn can_finish(&self) -> (r: bool)
        requires
            self.wf(),
        ensures
            r == (offset_after(self@) + central_directory(self@).len() <= u64::MAX),
    {
        self.central.len() as u64 <= u64::MAX - self.offset
    }

    /// What follows the last file's data.
    pub fn finish(&self) -> (v: Vec<u8>)
        requires
            self.wf(),
            offset_after(self@) + central_directory(self@).len() <= u64::MAX,
        ensures
            v@ == trailer(self@),
    {
        let mut v: Vec<u8> = Vec::new();
        push_bytes(&mut v, &self.central);
        let size: u64 = self.central.len() as u64;
        if self.count >= 0xFFFF || size >= Z64_THRESHOLD || self.offset >= Z64_THRESHOLD {
            push_zip64_end(&mut v, self.count, size, self.offset);
        }
        push_end_record(&mut v, self.count, size, self.offset);
        assert(v@ =~= trailer(self@));
        v
    }
}

/// What is done with a file that comes up for an archive.
pub enum FileStep {
    /// Leave it out.
    Skip,
    /// Write this header, then the file's data.
    Write(Vec<u8>),
    /// Give up: the archive would be too large.
    TooLarge,
}

/// A file to be archived: its name inside the archive, its size as listed, and its contents;
/// no contents when it could not be read.
pub struct ZipSource {
    pub name: String,
    pub size: u64,
    pub contents: Option<Vec<u8>>,
}

/// The entries of the files that could be read.
pub open spec fn readable(files: Seq<ZipSource>) -> Seq<ZipRecord>
    decreases files.len(),
{
    if files.len() == 0 {
        Seq::empty()
    } else {
        let rest = readable(files.drop_last());
        match files.last().contents {
            Some(c) => rest.push(
                ZipRecord {
                    name: files.last().name@,
                    size: files.last().size as nat,
                    crc: crc32_of(c@) as nat,
                },
            ),
            None => rest,
        }
    }
}

/// The contents of the files that could be read.
pub open spec fn readable_data(files: Seq<ZipSource>) -> Seq<Seq<u8>>
    decreases files.len(),
{
    if files.len() == 0 {
        Seq::empty()
    } else {
        let rest = readable_data(files.drop_last());
        match files.last().contents {
            Some(c) => rest.push(c@),
            None => rest,
        }
    }
}

proof fn lemma_readable_len(files: Seq<ZipSource>)
    ensures
        readable(files).len() == readable_data(files).len() <= files.len(),
    decreases files.len(),
{
    if files.len() > 0 {
        lemma_readable_len(files.drop_last());
    }
}

proof fn lemma_readable_offset(files: Seq<ZipSource>, i: int)
    requires
        0 <= i <= files.len(),
    ensures
        offset_after(readable(files.take(i))) <= offset_after(readable(files)),
    decreases files.len(),
{
    if i == files.len() {
        assert(files.take(i) =~= files);
    } else {
        lemma_readable_offset(files.drop_last(), i);
        assert(files.drop_last().take(i) =~= files.take(i));
        let rest = readable(files.drop_last());
        if files.last().contents is Some {
            assert(readable(files).drop_last() =~= rest);
        }
    }
}

proof fn lemma_bodies_push(entries: Seq<ZipRecord>, data: Seq<Seq<u8>>, e: ZipRecord, d: Seq<u8>)
    ensures
        bodies(entries.push(e), data.push(d)) == bodies(entries, data) + local_header(e) + d,
{
    assert(entries.push(e).drop_last() =~= entries);
    assert(data.push(d).drop_last() =~= data);
}

proof fn lemma_add_assoc(a: Seq<u8>, b: Seq<u8>, c: Seq<u8>, d: Seq<u8>)
    ensures
        a + b + c + d == a + (b + c + d),
{
    assert(a + b + c + d =~= a + (b + c + d));
}

/// Append a ZIP archive of `files` to `w`. Files that could not be read are left out.
#[verifier::spinoff_prover]
#[verifier::rlimit(80)]
pub fn write_zip(w: &mut Vec<u8>, files: &[ZipSource])
    requires
        offset_after(readable(files@)) + central_directory(readable(files@)).len() <= u64::MAX,
    ensures
        final(w)@ == old(w)@ + archive(readable(files@), readable_data(files@)),
{
    let mut zip = ZipWriter::new();
    let mut i: usize = 0;
    assert(w@ =~= old(w)@ + bodies(readable(files@.take(0)), readable_data(files@.take(0))));
    while i < files.len()
        invariant
            i <= files@.len(),
            zip.wf(),
            zip@ == readable(files@.take(i as int)),
            offset_after(readable(files@)) <= u64::MAX,
            w@ == old(w)@ + bodies(
                readable(files@.take(i as int)),
                readable_data(files@.take(i as int)),
            ),
        decreases files@.len() - i,
    {
        let ghost seen = files@.take(i as int);
        let ghost now = files@.take(i + 1);
        proof {
            assert(now.drop_last() =~= seen);
            lemma_readable_len(seen);
            lemma_readable_offset(files@, i + 1);
        }
        let f = &files[i];
        let sum: Option<u32> = match &f.contents {
            Some(c) => Some(crc32(c)),
            None => None,
        };
        match (zip.file(f.name.as_str(), f.size, sum), &f.contents) {
            (FileStep::Write(header), Some(c)) => {
                push_bytes(w, &header);
                push_bytes(w, c);
                proof {
                    let e = readable(now).last();
                    assert(readable(now) == readable(seen).push(e));
                    lemma_bodies_push(readable(seen), readable_data(seen), e, c@);
                    lemma_add_assoc(
                        old(w)@,
                        bodies(readable(seen), readable_data(seen)),
                        local_header(e),
                        c@,
                    );
                }
            },
            _ => {
                assert(f.contents is None);
            },
        }
        i = i + 1;
    }
    assert(files@.take(i as int) =~= files@);
    let end = zip.finish();
    push_bytes(w, &end);
    assert(w@ =~= old(w)@ + archive(readable(files@), readable_data(files@)));
}

// ---- Laws ----

/// Every file's data has the size that its entry declares.
pub open spec fn sizes_agree(entries: Seq<ZipRecord>, data: Seq<Seq<u8>>) -> bool {
    entries.len() == data.len() && forall|i: int|
        0 <= i < entries.len() ==> (#[trigger] data[i]).len() == entries[i].size
}

/// The central directory stands at the offset that the end record gives for it.
pub proof fn central_directory_is_where_the_end_says(entries: Seq<ZipRecord>, data: Seq<Seq<u8>>)
    requires
        sizes_agree(entries, data),
    ensures
        bodies(entries, data).len() == offset_after(entries),
        archive(entries, data).skip(offset_after(entries) as int) == trailer(entries),
    decreases entries.len(),
{
    if entries.len() > 0 {
        assert(data.last() == data[entries.len() - 1]);
        assert forall|i: int| 0 <= i < entries.len() - 1 implies (
        #[trigger] data.drop_last()[i]).len() == entries.drop_last()[i].size by {
            assert(data[i].len() == entries[i].size);
        }
        central_directory_is_where_the_end_says(entries.drop_last(), data.drop_last());
    }
    assert(archive(entries, data).skip(offset_after(entries) as int) =~= trailer(entries));
}

/// Each file's local header, followed by its data, stands at the offset that its
/// central-directory record gives for it.
pub proof fn entries_are_where_the_directory_says(
    entries: Seq<ZipRecord>,
    data: Seq<Seq<u8>>,
    i: int,
)
    requires
        sizes_agree(entries, data),
        0 <= i < entries.len(),
    ensures
        ({
            let at = offset_after(entries.take(i)) as int;
            let body = local_header(entries[i]) + data[i];
            &&& at + body.len() <= archive(entries, data).len()
            &&& archive(entries, data).subrange(at, at + body.len()) == body
        }),
{
    let at = offset_after(entries.take(i)) as int;
    let body = local_header(entries[i]) + data[i];
    lemma_body_at(entries, data, i);
    lemma_prefix_part(bodies(entries, data), trailer(entries), at, at + body.len());
}

proof fn lemma_prefix_part(a: Seq<u8>, b: Seq<u8>, from: int, to: int)
    requires
        0 <= from <= to <= a.len(),
    ensures
        (a + b).subrange(from, to) == a.subrange(from, to),
{
    assert((a + b).subrange(from, to) =~= a.subrange(from, to));
}

proof fn lemma_middle_part(a: Seq<u8>, b: Seq<u8>)
    ensures
        (a + b).subrange(a.len() as int, (a.len() + b.len()) as int) == b,
{
    assert((a + b).subrange(a.len() as int, (a.len() + b.len()) as int) =~= b);
}

proof fn lemma_body_at(entries: Seq<ZipRecord>, data: Seq<Seq<u8>>, i: int)
    requires
        sizes_agree(entries, data),
        0 <= i < entries.len(),
    ensures
        ({
            let at = offset_after(entries.take(i)) as int;
            let body = local_header(entries[i]) + data[i];
            &&& at + body.len() <= bodies(entries, data).len()
            &&& bodies(entries, data).subrange(at, at + body.len()) == body
        }),
    decreases entries.len(),
{
    let at = offset_after(entries.take(i)) as int;
    let body = local_header(entries[i]) + data[i];
    let before = entries.drop_last();
    let data_before = data.drop_last();
    let tail = local_header(entries.last()) + data.last();
    assert forall|k: int| 0 <= k < before.len() implies (#[trigger] data_before[k]).len()
        == before[k].size by {
        assert(data[k].len() == entries[k].size);
    }
    central_directory_is_where_the_end_says(before, data_before);
    assert(bodies(entries, data) =~= bodies(before, data_before) + tail);
    if i == entries.len() - 1 {
        assert(entries.take(i) =~= before);
        lemma_middle_part(bodies(before, data_before), tail);
    } else {
        lemma_body_at(before, data_before, i);
        assert(before.take(i) =~= entries.take(i));
        lemma_prefix_part(bodies(before, data_before), tail, at, at + body.len());
    }
}

/// An archive ends with its end record, which is always 22 bytes long.
pub proof fn archive_ends_with_the_end_record(entries: Seq<ZipRecord>, data: Seq<Seq<u8>>)
    ensures
        ({
            let a = archive(entries, data);
            let end = end_record(
                entries.len(),
                central_directory(entries).len(),
                offset_after(entries),
            );
            &&& end.len() == 22
            &&& a.len() >= 22
            &&& a.skip(a.len() - 22) == end
        }),
{
    broadcast use lemma_le_len;

    let a = archive(entries, data);
    let end = end_record(entries.len(), central_directory(entries).len(), offset_after(entries));
    assert(end.len() == 22);
    assert(a.skip(a.len() - 22) =~= end);
}

/// The length of the central record that bytes begin with, by its own fields: the fixed part, the
/// name, the extra field and the comment.
pub open spec fn record_len(b: Seq<u8>) -> int {
    46int + le_value(b.subrange(28, 30)) + le_value(b.subrange(30, 32)) + le_value(
        b.subrange(32, 34),
    )
}

/// The first `n` central records of bytes, found by going from one to the next; fewer where the
/// bytes end too soon.
pub open spec fn walked(b: Seq<u8>, n: nat) -> Seq<Seq<u8>>
    decreases n,
{
    if n == 0 || b.len() < 46 || record_len(b) > b.len() {
        Seq::empty()
    } else {
        seq![b.take(record_len(b))] + walked(b.skip(record_len(b)), (n - 1) as nat)
    }
}

/// The central records of entries.
pub open spec fn central_records(entries: Seq<ZipRecord>) -> Seq<Seq<u8>> {
    Seq::new(
        entries.len(),
        |i: int| central_record(entries[i], offset_after(entries.take(i))),
    )
}

/// Whether every name's length fits the field for it.
pub open spec fn names_fit(entries: Seq<ZipRecord>) -> bool {
    forall|i: int|
        0 <= i < entries.len() ==> encode_utf8((#[trigger] entries[i]).name).len() < 0x1_0000
}

/// The offset of the local header that a central record gives: in its own field, or, where that
/// holds the marker, at the end of the ZIP64 field.
pub open spec fn told_offset(record: Seq<u8>) -> nat {
    let f = le_value(record.subrange(42, 46));
    if f == 0xFFFF_FFFF {
        le_value(record.skip(record.len() - 8))
    } else {
        f
    }
}

/// What a central record holds behind its name.
spec fn extra_part(e: ZipRecord, offset: nat) -> Seq<u8> {
    let extra = central_extra(e, offset);
    if extra.len() > 0 {
        le(0x0001, 2) + le(extra.len(), 2) + extra
    } else {
        Seq::empty()
    }
}

proof fn lemma_cut(a: Seq<u8>, f: Seq<u8>, b: Seq<u8>, whole: Seq<u8>, at: int, to: int)
    requires
        whole == a + f + b,
        at == a.len(),
        to == at + f.len(),
    ensures
        whole.subrange(at, to) == f,
{
    assert(whole.subrange(at, to) =~= f);
}

proof fn lemma_record_fields(e: ZipRecord, offset: nat, tail: Seq<u8>)
    ensures
        ({
            let r = central_record(e, offset);
            let extra = extra_part(e, offset);
            let name = encode_utf8(e.name);
            &&& r.len() == 46 + name.len() + extra.len()
            &&& extra.len() <= 28
            &&& (r + tail).subrange(28, 30) == le(name.len(), 2)
            &&& (r + tail).subrange(30, 32) == le(extra.len(), 2)
            &&& (r + tail).subrange(32, 34) == le(0, 2)
            &&& r.subrange(42, 46) == le(field32(offset), 4)
            &&& is_large(offset) ==> r.skip(r.len() - 8) == le(offset, 8)
        }),
{
    broadcast use lemma_le_len;

    let r = central_record(e, offset);
    let inner = central_extra(e, offset);
    let extra = extra_part(e, offset);
    let name = encode_utf8(e.name);
    let x = if inner.len() > 0 {
        inner.len() + 4
    } else {
        0
    };
    assert(extra.len() == x);
    let head = le(0x0201_4b50, 4) + le(45, 2) + le(
        version_needed(is_large(e.size) || is_large(offset)),
        2,
    );
    let fields = le(name_flag(e.name), 2) + le(0, 2) + le(0, 2) + le(0x21, 2) + le(e.crc, 4) + le(
        field32(e.size),
        4,
    ) + le(field32(e.size), 4);
    let p28 = head + fields;
    assert(p28.len() == 28);
    let (at28, at30, at32) = (le(name.len(), 2), le(x, 2), le(0, 2));
    let at34 = le(0, 2) + le(0, 2) + le(0, 4);
    let at42 = le(field32(offset), 4);
    let end = name + extra;
    assert(r =~= p28 + at28 + at30 + at32 + at34 + at42 + end);
    let whole = r + tail;
    let t42 = at42 + (end + tail);
    assert(whole =~= p28 + at28 + (at30 + at32 + at34 + t42));
    lemma_cut(p28, at28, at30 + at32 + at34 + t42, whole, 28, 30);
    assert(whole =~= p28 + at28 + at30 + (at32 + at34 + t42));
    lemma_cut(p28 + at28, at30, at32 + at34 + t42, whole, 30, 32);
    assert(whole =~= p28 + at28 + at30 + at32 + (at34 + t42));
    lemma_cut(p28 + at28 + at30, at32, at34 + t42, whole, 32, 34);
    lemma_cut(p28 + at28 + at30 + at32 + at34, at42, end, r, 42, 46);
    if is_large(offset) {
        let before = if is_large(e.size) {
            le(e.size, 8) + le(e.size, 8)
        } else {
            Seq::empty()
        };
        assert(inner == before + le(offset, 8));
        assert(r.skip(r.len() - 8) =~= le(offset, 8));
    }
}

/// Whether a record tells its own length, whatever follows it.
spec fn measures_itself(r: Seq<u8>) -> bool {
    r.len() >= 46 && forall|tail: Seq<u8>| record_len(#[trigger] (r + tail)) == r.len()
}

proof fn lemma_measures_itself(e: ZipRecord, offset: nat)
    requires
        encode_utf8(e.name).len() < 0x1_0000,
    ensures
        measures_itself(central_record(e, offset)),
{
    let r = central_record(e, offset);
    assert forall|tail: Seq<u8>| record_len(#[trigger] (r + tail)) == r.len() by {
        lemma_record_fields(e, offset, tail);
        lemma_pow256();
        le_is_read_back(encode_utf8(e.name).len(), 2);
        le_is_read_back(extra_part(e, offset).len(), 2);
        le_is_read_back(0, 2);
    }
    lemma_record_fields(e, offset, Seq::empty());
}

/// Records one after the other.
spec fn joined(l: Seq<Seq<u8>>) -> Seq<u8>
    decreases l.len(),
{
    if l.len() == 0 {
        Seq::empty()
    } else {
        joined(l.drop_last()) + l.last()
    }
}

proof fn lemma_walk(l: Seq<Seq<u8>>, tail: Seq<u8>, more: nat)
    requires
        forall|i: int| 0 <= i < l.len() ==> measures_itself(#[trigger] l[i]),
    ensures
        walked(joined(l) + tail, l.len() + more) == l + walked(tail, more),
    decreases l.len(),
{
    if l.len() == 0 {
        assert(joined(l) + tail =~= tail);
        assert(l + walked(tail, more) =~= walked(tail, more));
    } else {
        let before = l.drop_last();
        let r = l.last();
        let b = r + tail;
        assert forall|i: int| 0 <= i < before.len() implies measures_itself(#[trigger] before[i]) by {
            assert(before[i] == l[i]);
        }
        lemma_walk(before, b, more + 1);
        assert(joined(before) + b =~= joined(l) + tail);
        assert(measures_itself(l[l.len() - 1]));
        assert(record_len(b) == r.len());
        assert(b.take(r.len() as int) =~= r);
        assert(b.skip(r.len() as int) =~= tail);
        assert(walked(b, more + 1) == seq![r] + walked(tail, more));
        assert(before + (seq![r] + walked(tail, more)) =~= l + walked(tail, more));
    }
}

proof fn lemma_joined_records(entries: Seq<ZipRecord>)
    ensures
        central_directory(entries) == joined(central_records(entries)),
    decreases entries.len(),
{
    let all = central_records(entries);
    if entries.len() > 0 {
        let before = entries.drop_last();
        lemma_joined_records(before);
        assert forall|i: int| 0 <= i < before.len() implies all[i] == central_records(
            before,
        )[i] by {
            assert(entries.take(i) =~= before.take(i));
        }
        assert(entries.take(before.len() as int) =~= before);
        assert(all.drop_last() =~= central_records(before));
    }
}

/// A reader that goes from one central record to the next by the lengths in the records finds the
/// record of each file in turn, whatever follows the directory. Names are left out whose length
/// does not fit the field for it.
pub proof fn directory_is_walked_by_its_own_lengths(entries: Seq<ZipRecord>, tail: Seq<u8>)
    requires
        names_fit(entries),
    ensures
        walked(central_directory(entries) + tail, entries.len()) == central_records(entries),
{
    let l = central_records(entries);
    lemma_joined_records(entries);
    assert forall|i: int| 0 <= i < l.len() implies measures_itself(#[trigger] l[i]) by {
        assert(encode_utf8(entries[i].name).len() < 0x1_0000);
        lemma_measures_itself(entries[i], offset_after(entries.take(i)));
    }
    lemma_walk(l, tail, 0);
    assert(l + walked(tail, 0) =~= l);
}

/// A central record gives the offset it was written with, beyond four gigabytes too.
pub proof fn records_tell_their_offset(e: ZipRecord, offset: nat)
    requires
        offset <= u64::MAX,
    ensures
        told_offset(central_record(e, offset)) == offset,
{
    lemma_record_fields(e, offset, Seq::empty());
    lemma_pow256();
    le_is_read_back(field32(offset), 4);
    le_is_read_back(offset, 8);
}

/// A file's data begins where its local header says: behind the fixed part, the name and the extra
/// field.
pub proof fn headers_tell_where_the_data_begins(e: ZipRecord)
    requires
        encode_utf8(e.name).len() < 0x1_0000,
    ensures
        local_header(e).len() == 30 + le_value(local_header(e).subrange(26, 28)) + le_value(
            local_header(e).subrange(28, 30),
        ),
{
    broadcast use lemma_le_len;

    let h = local_header(e);
    let name = encode_utf8(e.name);
    let x: nat = if is_large(e.size) {
        20
    } else {
        0
    };
    let fields = le(name_flag(e.name), 2) + le(0, 2) + le(0, 2) + le(0x21, 2) + le(e.crc, 4) + le(
        field32(e.size),
        4,
    ) + le(field32(e.size), 4);
    let p26 = le(0x0403_4b50, 4) + le(version_needed(is_large(e.size)), 2) + fields;
    let end = if is_large(e.size) {
        name + (le(0x0001, 2) + le(16, 2) + le(e.size, 8) + le(e.size, 8))
    } else {
        name
    };
    assert(h =~= p26 + le(name.len(), 2) + le(x, 2) + end);
    assert(h =~= p26 + le(name.len(), 2) + (le(x, 2) + end));
    lemma_cut(p26, le(name.len(), 2), le(x, 2) + end, h, 26, 28);
    lemma_cut(p26 + le(name.len(), 2), le(x, 2), end, h, 28, 30);
    lemma_pow256();
    le_is_read_back(name.len(), 2);
    le_is_read_back(x, 2);
}

// ---- Unpacking ----

/// A little-endian number of `k` bytes at a position.
pub open spec fn number_at(b: Seq<u8>, at: int, k: int) -> nat {
    le_value(b.subrange(at, at + k))
}

/// What a central record tells an unpacking program about a file.
#[verifier::ext_equal]
pub struct Told {
    pub name: Seq<u8>,
    /// Bit 11 of the flags: the name is UTF-8.
    pub utf8: bool,
    pub method: nat,
    pub crc: nat,
    /// Number of bytes in the archive.
    pub packed: nat,
    /// Number of bytes once unpacked.
    pub size: nat,
    /// Where the local header stands.
    pub offset: nat,
}

/// Read a central record. Where a field holds the marker, its value stands in the ZIP64 field, in
/// the order of size, packed size and offset.
pub open spec fn told(r: Seq<u8>) -> Told {
    let n = number_at(r, 28, 2) as int;
    let (p, u, o) = (number_at(r, 20, 4), number_at(r, 24, 4), number_at(r, 42, 4));
    let at_u = 50 + n;
    let at_p = if u == 0xFFFF_FFFF {
        at_u + 8
    } else {
        at_u
    };
    let at_o = if p == 0xFFFF_FFFF {
        at_p + 8
    } else {
        at_p
    };
    Told {
        name: r.subrange(46, 46 + n),
        utf8: number_at(r, 8, 2) / 0x0800 % 2 == 1,
        method: number_at(r, 10, 2),
        crc: number_at(r, 16, 4),
        size: if u == 0xFFFF_FFFF {
            number_at(r, at_u, 8)
        } else {
            u
        },
        packed: if p == 0xFFFF_FFFF {
            number_at(r, at_p, 8)
        } else {
            p
        },
        offset: if o == 0xFFFF_FFFF {
            number_at(r, at_o, 8)
        } else {
            o
        },
    }
}

/// Read a local header: the same, but for the offset, which is that of the data behind the header.
pub open spec fn told_locally(h: Seq<u8>) -> Told {
    let n = number_at(h, 26, 2) as int;
    let (p, u) = (number_at(h, 18, 4), number_at(h, 22, 4));
    let at_u = 34 + n;
    let at_p = if u == 0xFFFF_FFFF {
        at_u + 8
    } else {
        at_u
    };
    Told {
        name: h.subrange(30, 30 + n),
        utf8: number_at(h, 6, 2) / 0x0800 % 2 == 1,
        method: number_at(h, 8, 2),
        crc: number_at(h, 14, 4),
        size: if u == 0xFFFF_FFFF {
            number_at(h, at_u, 8)
        } else {
            u
        },
        packed: if p == 0xFFFF_FFFF {
            number_at(h, at_p, 8)
        } else {
            p
        },
        offset: (30 + n + number_at(h, 28, 2)) as nat,
    }
}

/// What both kinds of record are to tell of a file.
pub open spec fn truth(e: ZipRecord, offset: nat) -> Told {
    Told {
        name: encode_utf8(e.name),
        utf8: !is_ascii_chars(e.name),
        method: 0,
        crc: e.crc,
        packed: e.size,
        size: e.size,
        offset,
    }
}

/// Whether an entry's name and numbers fit their fields.
pub open spec fn entry_fits(e: ZipRecord) -> bool {
    encode_utf8(e.name).len() < 0x1_0000 && e.size <= u64::MAX && e.crc <= u32::MAX
}

proof fn lemma_number(a: Seq<u8>, n: nat, k: nat, b: Seq<u8>, whole: Seq<u8>, at: int)
    requires
        whole == a + le(n, k) + b,
        at == a.len(),
        n < pow(256, k),
    ensures
        number_at(whole, at, k as int) == n,
{
    le_is_read_back(n, k);
    lemma_cut(a, le(n, k), b, whole, at, at + k);
}

/// The shared fields stand one after the other.
#[verifier::rlimit(40)]
proof fn lemma_common(a: Seq<u8>, e: ZipRecord, b: Seq<u8>, whole: Seq<u8>)
    requires
        entry_fits(e),
        whole == a + common_fields(e) + b,
    ensures
        common_fields(e).len() == 22,
        number_at(whole, a.len() as int, 2) == name_flag(e.name),
        number_at(whole, a.len() as int + 2, 2) == 0,
        number_at(whole, a.len() as int + 8, 4) == e.crc,
        number_at(whole, a.len() as int + 12, 4) == field32(e.size),
        number_at(whole, a.len() as int + 16, 4) == field32(e.size),
        number_at(whole, a.len() as int + 20, 2) == encode_utf8(e.name).len(),
{
    broadcast use lemma_le_len;

    lemma_pow256();
    let flag = name_flag(e.name);
    let (f0, f2, f4) = (le(flag, 2), le(0, 2), le(0, 2) + le(0x21, 2));
    let (f8, f12) = (le(e.crc, 4), le(field32(e.size), 4));
    let f20 = le(encode_utf8(e.name).len(), 2);
    assert(common_fields(e) =~= f0 + f2 + f4 + f8 + f12 + f12 + f20);
    assert(whole =~= a + f0 + (f2 + f4 + f8 + f12 + f12 + f20 + b));
    lemma_number(a, flag, 2, f2 + f4 + f8 + f12 + f12 + f20 + b, whole, a.len() as int);
    let a2 = a + f0;
    assert(whole =~= a2 + f2 + (f4 + f8 + f12 + f12 + f20 + b));
    lemma_number(a2, 0, 2, f4 + f8 + f12 + f12 + f20 + b, whole, a.len() as int + 2);
    let a8 = a2 + f2 + f4;
    assert(whole =~= a8 + f8 + (f12 + f12 + f20 + b));
    lemma_number(a8, e.crc, 4, f12 + f12 + f20 + b, whole, a.len() as int + 8);
    let a12 = a8 + f8;
    assert(whole =~= a12 + f12 + (f12 + f20 + b));
    lemma_number(a12, field32(e.size), 4, f12 + f20 + b, whole, a.len() as int + 12);
    let a16 = a12 + f12;
    assert(whole =~= a16 + f12 + (f20 + b));
    lemma_number(a16, field32(e.size), 4, f20 + b, whole, a.len() as int + 16);
    let a20 = a16 + f12;
    assert(whole =~= a20 + f20 + b);
    lemma_number(a20, encode_utf8(e.name).len(), 2, b, whole, a.len() as int + 20);
}

/// A central record tells the truth about its file, ZIP64 values included.
#[verifier::rlimit(40)]
pub proof fn central_records_tell_the_truth(e: ZipRecord, offset: nat)
    requires
        entry_fits(e),
        offset <= u64::MAX,
    ensures
        told(central_record(e, offset)) == truth(e, offset),
{
    broadcast use lemma_le_len;

    lemma_pow256();
    let r = central_record(e, offset);
    let name = encode_utf8(e.name);
    let n = name.len() as int;
    let inner = central_extra(e, offset);
    let extra = extra_part(e, offset);
    let head = le(0x0201_4b50, 4) + le(45, 2) + le(
        version_needed(is_large(e.size) || is_large(offset)),
        2,
    );
    let x = le(extra.len(), 2);
    let mid = x + le(0, 2) + le(0, 2) + le(0, 2) + le(0, 4);
    let o = le(field32(offset), 4);
    assert(extra.len() == (if inner.len() > 0 {
        inner.len() + 4
    } else {
        0
    }));
    let rest = mid + o + name + extra;
    assert(r =~= head + common_fields(e) + rest);
    assert(head.len() == 8);
    lemma_common(head, e, rest, r);
    let front = head + common_fields(e) + mid;
    assert(r =~= front + o + (name + extra));
    assert(front.len() == 42);
    lemma_number(front, field32(offset), 4, name + extra, r, 42);
    let p46 = front + o;
    assert(r =~= p46 + name + extra);
    lemma_cut(p46, name, extra, r, 46, 46 + n);
    if inner.len() > 0 {
        let p50 = p46 + name + le(0x0001, 2) + le(inner.len(), 2);
        let none = Seq::<u8>::empty();
        assert(r =~= p50 + inner);
        assert(p50.len() == 50 + n);
        if is_large(e.size) {
            let s = le(e.size, 8);
            let far = if is_large(offset) {
                le(offset, 8)
            } else {
                none
            };
            assert(inner =~= s + s + far);
            assert(r =~= p50 + s + (s + far));
            lemma_number(p50, e.size, 8, s + far, r, 50 + n);
            assert(r =~= p50 + s + s + far);
            lemma_number(p50 + s, e.size, 8, far, r, 58 + n);
            if is_large(offset) {
                assert(r =~= p50 + s + s + far + none);
                lemma_number(p50 + s + s, offset, 8, none, r, 66 + n);
            }
        } else {
            assert(inner =~= le(offset, 8));
            assert(r =~= p50 + le(offset, 8) + none);
            lemma_number(p50, offset, 8, none, r, 50 + n);
        }
    }
    assert(told(r) =~= truth(e, offset));
}

/// A local header tells the truth about its file, ZIP64 values included, and where its data begins,
/// whatever follows it.
#[verifier::rlimit(40)]
pub proof fn local_headers_tell_the_truth(e: ZipRecord, tail: Seq<u8>)
    requires
        entry_fits(e),
    ensures
        told_locally(local_header(e) + tail) == truth(e, local_header(e).len()),
{
    broadcast use lemma_le_len;

    lemma_pow256();
    let h = local_header(e);
    let w = h + tail;
    let name = encode_utf8(e.name);
    let n = name.len() as int;
    let x: nat = if is_large(e.size) {
        20
    } else {
        0
    };
    let head = le(0x0403_4b50, 4) + le(version_needed(is_large(e.size)), 2);
    let s = le(e.size, 8);
    let extra = if is_large(e.size) {
        le(0x0001, 2) + le(16, 2) + s + s
    } else {
        Seq::empty()
    };
    let rest = le(x, 2) + name + extra + tail;
    assert(w =~= head + common_fields(e) + rest);
    assert(head.len() == 6);
    lemma_common(head, e, rest, w);
    let p28 = head + common_fields(e);
    assert(w =~= p28 + le(x, 2) + (name + extra + tail));
    lemma_number(p28, x, 2, name + extra + tail, w, 28);
    let p30 = p28 + le(x, 2);
    assert(w =~= p30 + name + (extra + tail));
    lemma_cut(p30, name, extra + tail, w, 30, 30 + n);
    if is_large(e.size) {
        let p34 = p30 + name + le(0x0001, 2) + le(16, 2);
        assert(w =~= p34 + s + (s + tail));
        lemma_number(p34, e.size, 8, s + tail, w, 34 + n);
        assert(w =~= p34 + s + s + tail);
        lemma_number(p34 + s, e.size, 8, tail, w, 42 + n);
    }
    assert(h.len() == 30 + n + x);
    assert(told_locally(w) =~= truth(e, h.len()));
}

/// A file as an unpacking program finds it.
#[verifier::ext_equal]
pub struct Unpacked {
    pub name: Seq<u8>,
    pub crc: nat,
    pub data: Seq<u8>,
}

/// Where the central directory stands and how many records it has, by the end of an archive: by the
/// end record, or, where one of its fields holds the marker, by the ZIP64 end record, which the
/// locator before the end record leads to.
pub open spec fn directory_of(a: Seq<u8>) -> (nat, nat) {
    let end = a.len() - 22;
    let (count, size, at) = (
        number_at(a, end + 10, 2),
        number_at(a, end + 12, 4),
        number_at(a, end + 16, 4),
    );
    if count == 0xFFFF || size == 0xFFFF_FFFF || at == 0xFFFF_FFFF {
        let z = number_at(a, end - 12, 8) as int;
        (number_at(a, z + 48, 8), number_at(a, z + 32, 8))
    } else {
        (at, count)
    }
}

/// The file that a central record leads to.
pub open spec fn unpacked_file(a: Seq<u8>, r: Seq<u8>) -> Unpacked {
    let t = told(r);
    let from = t.offset + told_locally(a.skip(t.offset as int)).offset;
    Unpacked { name: t.name, crc: t.crc, data: a.subrange(from as int, (from + t.packed) as int) }
}

/// Unpack an archive: read its end, walk its central directory, and take each file from where its
/// record leads.
pub open spec fn unpacked(a: Seq<u8>) -> Seq<Unpacked> {
    let (at, count) = directory_of(a);
    walked(a.skip(at as int), count).map_values(|r: Seq<u8>| unpacked_file(a, r))
}

proof fn lemma_end_fields(x: Seq<u8>, count: nat, size: nat, at: nat)
    ensures
        ({
            let a = x + end_record(count, size, at);
            let end = a.len() - 22;
            &&& end == x.len()
            &&& number_at(a, end + 10, 2) == capped(count, 0xFFFF)
            &&& number_at(a, end + 12, 4) == capped(size, 0xFFFF_FFFF)
            &&& number_at(a, end + 16, 4) == capped(at, 0xFFFF_FFFF)
        }),
{
    broadcast use lemma_le_len;

    lemma_pow256();
    let c = le(capped(count, 0xFFFF), 2);
    let s = le(capped(size, 0xFFFF_FFFF), 4);
    let o = le(capped(at, 0xFFFF_FFFF), 4);
    let z = le(0, 2);
    let a = x + end_record(count, size, at);
    let p10 = x + le(0x0605_4b50, 4) + z + z + c;
    assert(a =~= p10 + c + (s + o + z));
    lemma_number(p10, capped(count, 0xFFFF), 2, s + o + z, a, x.len() as int + 10);
    assert(a =~= p10 + c + s + (o + z));
    lemma_number(p10 + c, capped(size, 0xFFFF_FFFF), 4, o + z, a, x.len() as int + 12);
    assert(a =~= p10 + c + s + o + z);
    lemma_number(p10 + c + s, capped(at, 0xFFFF_FFFF), 4, z, a, x.len() as int + 16);
}

#[verifier::rlimit(40)]
proof fn lemma_zip64_fields(x: Seq<u8>, count: nat, size: nat, at: nat, tail: Seq<u8>)
    requires
        count <= u64::MAX,
        size <= u64::MAX,
        at + size <= u64::MAX,
    ensures
        ({
            let a = x + zip64_end(count, size, at) + tail;
            let z = x.len() as int;
            &&& zip64_end(count, size, at).len() == 76
            &&& number_at(a, z + 32, 8) == count
            &&& number_at(a, z + 40, 8) == size
            &&& number_at(a, z + 48, 8) == at
            &&& number_at(a, z + 64, 8) == at + size
        }),
{
    broadcast use lemma_le_len;

    lemma_pow256();
    let a = x + zip64_end(count, size, at) + tail;
    let z = x.len() as int;
    let (c, s, o, l) = (le(count, 8), le(size, 8), le(at, 8), le(at + size, 8));
    let p24 = x + le(0x0606_4b50, 4) + le(44, 8) + le(45, 2) + le(45, 2) + le(0, 4) + le(0, 4);
    let loc = le(0x0706_4b50, 4) + le(0, 4);
    let t = le(1, 4) + tail;
    let p32 = p24 + c;
    assert(a =~= p32 + c + (s + o + loc + l + t));
    lemma_number(p32, count, 8, s + o + loc + l + t, a, z + 32);
    let p40 = p32 + c;
    assert(a =~= p40 + s + (o + loc + l + t));
    lemma_number(p40, size, 8, o + loc + l + t, a, z + 40);
    let p48 = p40 + s;
    assert(a =~= p48 + o + (loc + l + t));
    lemma_number(p48, at, 8, loc + l + t, a, z + 48);
    let p64 = p48 + o + loc;
    assert(a =~= p64 + l + t);
    lemma_number(p64, at + size, 8, t, a, z + 64);
}

#[verifier::rlimit(40)]
proof fn lemma_directory(entries: Seq<ZipRecord>, data: Seq<Seq<u8>>)
    requires
        sizes_agree(entries, data),
        offset_after(entries) + central_directory(entries).len() <= u64::MAX,
        entries.len() <= u64::MAX,
    ensures
        directory_of(archive(entries, data)) == (offset_after(entries), entries.len()),
{
    let a = archive(entries, data);
    let cd = central_directory(entries);
    let at = offset_after(entries);
    let n = entries.len();
    central_directory_is_where_the_end_says(entries, data);
    let body = bodies(entries, data);
    let end = end_record(n, cd.len(), at);
    let big = n >= 0xFFFF || is_large(cd.len()) || is_large(at);
    if big {
        let z = zip64_end(n, cd.len(), at);
        assert(a =~= (body + cd) + z + end);
        lemma_zip64_fields(body + cd, n, cd.len(), at, end);
        lemma_end_fields(body + cd + z, n, cd.len(), at);
        assert(a.len() - 22 - 12 == (body + cd).len() + 64);
    } else {
        assert(a =~= body + cd + end);
        lemma_end_fields(body + cd, n, cd.len(), at);
    }
}

proof fn lemma_offsets_rise(entries: Seq<ZipRecord>, i: int)
    requires
        0 <= i <= entries.len(),
    ensures
        offset_after(entries.take(i)) <= offset_after(entries),
    decreases entries.len(),
{
    if i == entries.len() {
        assert(entries.take(i) =~= entries);
    } else {
        lemma_offsets_rise(entries.drop_last(), i);
        assert(entries.drop_last().take(i) =~= entries.take(i));
    }
}

#[verifier::rlimit(40)]
proof fn lemma_one_unpacked(entries: Seq<ZipRecord>, data: Seq<Seq<u8>>, i: int)
    requires
        sizes_agree(entries, data),
        0 <= i < entries.len(),
        entry_fits(entries[i]),
        offset_after(entries) <= u64::MAX,
    ensures
        unpacked_file(
            archive(entries, data),
            central_record(entries[i], offset_after(entries.take(i))),
        ) == (Unpacked {
            name: encode_utf8(entries[i].name),
            crc: entries[i].crc,
            data: data[i],
        }),
{
    let a = archive(entries, data);
    let e = entries[i];
    let at = offset_after(entries.take(i));
    let h = local_header(e);
    lemma_offsets_rise(entries, i);
    central_records_tell_the_truth(e, at);
    entries_are_where_the_directory_says(entries, data, i);
    assert(data[i].len() == e.size);
    let tail = a.skip((at + h.len() + data[i].len()) as int);
    lemma_header_and_data(a, h, data[i], at as int);
    local_headers_tell_the_truth(e, data[i] + tail);
}

proof fn lemma_header_and_data(a: Seq<u8>, h: Seq<u8>, d: Seq<u8>, at: int)
    requires
        0 <= at,
        at + h.len() + d.len() <= a.len(),
        a.subrange(at, at + (h + d).len()) == h + d,
    ensures
        a.skip(at) == h + (d + a.skip((at + h.len() + d.len()) as int)),
        a.subrange(at + h.len(), at + h.len() + d.len()) == d,
{
    let n = h.len() as int;
    let all = h + d;
    let part = a.subrange(at, at + all.len());
    assert forall|k: int| 0 <= k < all.len() implies a[at + k] == all[k] by {
        assert(part[k] == all[k]);
    }
    assert(a.skip(at) =~= h + (d + a.skip((at + h.len() + d.len()) as int)));
    assert(a.subrange(at + n, at + n + d.len()) =~= d) by {
        assert forall|k: int| 0 <= k < d.len() implies a.subrange(at + n, at + n + d.len())[k]
            == d[k] by {
            assert(a[at + (n + k)] == all[n + k]);
        }
    }
}

/// An archive is unpacked to the files that were put into it: each under its name, with its CRC-32,
/// and byte for byte. Names are left out whose length does not fit the field for it.
#[verifier::rlimit(40)]
pub proof fn archives_are_unpacked(entries: Seq<ZipRecord>, data: Seq<Seq<u8>>)
    requires
        sizes_agree(entries, data),
        forall|i: int| 0 <= i < entries.len() ==> entry_fits(#[trigger] entries[i]),
        offset_after(entries) + central_directory(entries).len() <= u64::MAX,
        entries.len() <= u64::MAX,
    ensures
        unpacked(archive(entries, data)) == Seq::new(
            entries.len(),
            |i: int|
                Unpacked {
                    name: encode_utf8(entries[i].name),
                    crc: entries[i].crc,
                    data: data[i],
                },
        ),
{
    let a = archive(entries, data);
    let cd = central_directory(entries);
    let at = offset_after(entries);
    lemma_directory(entries, data);
    central_directory_is_where_the_end_says(entries, data);
    let tail = trailer(entries).skip(cd.len() as int);
    assert(trailer(entries) =~= cd + tail);
    assert forall|i: int| 0 <= i < entries.len() implies encode_utf8(
        (#[trigger] entries[i]).name,
    ).len() < 0x1_0000 by {
        assert(entry_fits(entries[i]));
    }
    directory_is_walked_by_its_own_lengths(entries, tail);
    let l = central_records(entries);
    let want = Seq::new(
        entries.len(),
        |i: int|
            Unpacked {
                name: encode_utf8(entries[i].name),
                crc: entries[i].crc,
                data: data[i],
            },
    );
    let got = unpacked(a);
    assert forall|i: int| 0 <= i < entries.len() implies got[i] == want[i] by {
        assert(entry_fits(entries[i]));
        lemma_one_unpacked(entries, data, i);
        assert(l[i] == central_record(entries[i], offset_after(entries.take(i))));
    }
    assert(got =~= want);
}

/// The name and the contents of the files that can be read.
pub open spec fn contents_of(files: Seq<ZipSource>) -> Seq<(Seq<char>, Seq<u8>)>
    decreases files.len(),
{
    if files.len() == 0 {
        Seq::empty()
    } else {
        match files.last().contents {
            Some(c) => contents_of(files.drop_last()).push((files.last().name@, c@)),
            None => contents_of(files.drop_last()),
        }
    }
}

proof fn lemma_readable(files: Seq<ZipSource>)
    requires
        forall|i: int|
            0 <= i < files.len() ==> ((#[trigger] files[i]).contents matches Some(c) ==> c@.len()
                == files[i].size && encode_utf8(files[i].name@).len() < 0x1_0000),
    ensures
        readable(files).len() == contents_of(files).len(),
        readable_data(files).len() == contents_of(files).len(),
        forall|i: int|
            0 <= i < contents_of(files).len() ==> {
                let (name, c) = #[trigger] contents_of(files)[i];
                &&& readable(files)[i] == ZipRecord {
                    name,
                    size: c.len(),
                    crc: crc32_of(c) as nat,
                }
                &&& readable_data(files)[i] == c
                &&& entry_fits(readable(files)[i])
            },
    decreases files.len(),
{
    if files.len() > 0 {
        let rest = files.drop_last();
        assert forall|i: int| 0 <= i < rest.len() implies ((#[trigger] rest[i]).contents matches Some(
            c,
        ) ==> c@.len() == rest[i].size && encode_utf8(rest[i].name@).len() < 0x1_0000) by {
            assert(rest[i] == files[i]);
        }
        lemma_readable(rest);
        assert(files[files.len() - 1].contents matches Some(c) ==> c@.len() == files.last().size);
        let all = contents_of(files);
        assert forall|i: int| 0 <= i < all.len() implies ({
            let (name, c) = #[trigger] all[i];
            &&& readable(files)[i] == ZipRecord { name, size: c.len(), crc: crc32_of(c) as nat }
            &&& readable_data(files)[i] == c
            &&& entry_fits(readable(files)[i])
        }) by {
            if i < contents_of(rest).len() {
                assert(all[i] == contents_of(rest)[i]);
            }
        }
    }
}

/// A folder is unpacked to the files that were in it: every file that could be read, under its name
/// and with the CRC-32 of its contents, byte for byte, in order. The files are as long as they were
/// listed.
pub proof fn folders_are_unpacked(files: Seq<ZipSource>)
    requires
        forall|i: int|
            0 <= i < files.len() ==> ((#[trigger] files[i]).contents matches Some(c) ==> c@.len()
                == files[i].size && encode_utf8(files[i].name@).len() < 0x1_0000),
        offset_after(readable(files)) + central_directory(readable(files)).len() <= u64::MAX,
        files.len() <= u64::MAX,
    ensures
        unpacked(archive(readable(files), readable_data(files))) == contents_of(files).map_values(
            |f: (Seq<char>, Seq<u8>)|
                Unpacked { name: encode_utf8(f.0), crc: crc32_of(f.1) as nat, data: f.1 },
        ),
{
    let (entries, data, all) = (readable(files), readable_data(files), contents_of(files));
    lemma_readable(files);
    lemma_readable_len(files);
    assert forall|i: int| 0 <= i < entries.len() implies entry_fits(#[trigger] entries[i])
        && data[i].len() == entries[i].size by {
        let f = all[i];
    }
    assert forall|i: int| 0 <= i < entries.len() implies (#[trigger] data[i]).len()
        == entries[i].size by {
        assert(entry_fits(entries[i]));
    }
    archives_are_unpacked(entries, data);
    let got = unpacked(archive(entries, data));
    let want = all.map_values(
        |f: (Seq<char>, Seq<u8>)|
            Unpacked { name: encode_utf8(f.0), crc: crc32_of(f.1) as nat, data: f.1 },
    );
    assert forall|i: int| 0 <= i < all.len() implies got[i] == want[i] by {
        let f = all[i];
        assert(entries[i] == ZipRecord { name: f.0, size: f.1.len(), crc: crc32_of(f.1) as nat });
    }
    assert(got =~= want);
}

/// The time and the date of a record: the first day of 1980, at midnight.
proof fn lemma_common_date(a: Seq<u8>, e: ZipRecord, b: Seq<u8>, whole: Seq<u8>)
    requires
        whole == a + common_fields(e) + b,
    ensures
        number_at(whole, a.len() as int + 4, 2) == 0,
        number_at(whole, a.len() as int + 6, 2) == 0x21,
{
    broadcast use lemma_le_len;

    lemma_pow256();
    let f0 = le(name_flag(e.name), 2) + le(0, 2);
    let (time, date) = (le(0, 2), le(0x21, 2));
    let rest = le(e.crc, 4) + le(field32(e.size), 4) + le(field32(e.size), 4) + le(
        encode_utf8(e.name).len(),
        2,
    );
    assert(common_fields(e) =~= f0 + time + date + rest);
    let a4 = a + f0;
    assert(whole =~= a4 + time + (date + rest + b));
    lemma_number(a4, 0, 2, date + rest + b, whole, a.len() as int + 4);
    let a6 = a4 + time;
    assert(whole =~= a6 + date + (rest + b));
    lemma_number(a6, 0x21, 2, rest + b, whole, a.len() as int + 6);
}

/// The version of the format that a file of a given size at a given offset needs: 2.0, or 4.5 where
/// a number does not fit in 32 bits.
pub open spec fn needed(size: nat, offset: nat) -> nat {
    if size < 0xFFFF_FFFF && offset < 0xFFFF_FFFF {
        20
    } else {
        45
    }
}

/// A local header begins with its signature, tells the version that is needed and the first day of
/// 1980, and marks its ZIP64 field where there is one.
#[verifier::rlimit(40)]
pub proof fn local_headers_are_marked(e: ZipRecord, tail: Seq<u8>)
    requires
        encode_utf8(e.name).len() < 0x1_0000,
    ensures
        ({
            let h = local_header(e) + tail;
            let n = encode_utf8(e.name).len() as int;
            let date = number_at(h, 12, 2);
            &&& h[0] == 'P' as u8 && h[1] == 'K' as u8 && h[2] == 3 && h[3] == 4
            &&& number_at(h, 4, 2) == needed(e.size, 0)
            &&& number_at(h, 10, 2) == 0
            &&& date % 32 == 1 && date / 32 % 16 == 1 && date / 512 == 0
            &&& e.size < 0xFFFF_FFFF ==> number_at(h, 28, 2) == 0
            &&& e.size >= 0xFFFF_FFFF ==> number_at(h, 28, 2) == 20 && number_at(h, 30 + n, 2) == 1
                && number_at(h, 32 + n, 2) == 16
        }),
{
    broadcast use lemma_le_len;

    lemma_pow256();
    let w = local_header(e) + tail;
    let name = encode_utf8(e.name);
    let n = name.len() as int;
    let x: nat = if is_large(e.size) {
        20
    } else {
        0
    };
    let sign = le(0x0403_4b50, 4);
    let version = le(version_needed(is_large(e.size)), 2);
    let common = common_fields(e);
    let s = le(e.size, 8);
    let extra = if is_large(e.size) {
        le(0x0001, 2) + le(16, 2) + s + s
    } else {
        Seq::empty()
    };
    assert(sign =~= seq![0x50u8, 0x4Bu8, 3u8, 4u8]) by {
        reveal_with_fuel(le, 5);
    }
    let rest = le(x, 2) + name + extra + tail;
    assert(w =~= sign + version + (common + rest));
    assert(w[0] == sign[0] && w[1] == sign[1] && w[2] == sign[2] && w[3] == sign[3]);
    lemma_number(sign, version_needed(is_large(e.size)), 2, common + rest, w, 4);
    let head = sign + version;
    assert(w =~= head + common + rest);
    lemma_common_date(head, e, rest, w);
    let p28 = head + common;
    assert(p28.len() == 28);
    assert(w =~= p28 + le(x, 2) + (name + extra + tail));
    lemma_number(p28, x, 2, name + extra + tail, w, 28);
    if is_large(e.size) {
        let p30 = p28 + le(x, 2) + name;
        let last = s + s + tail;
        assert(w =~= p30 + le(0x0001, 2) + (le(16, 2) + last));
        lemma_number(p30, 0x0001, 2, le(16, 2) + last, w, 30 + n);
        assert(w =~= (p30 + le(0x0001, 2)) + le(16, 2) + last);
        lemma_number(p30 + le(0x0001, 2), 16, 2, last, w, 32 + n);
    }
}

/// A central record begins with its signature, tells the version that is needed and the first day of
/// 1980, no comment, the first disk and no attributes, and marks its ZIP64 field where there is one.
pub proof fn central_records_are_marked(e: ZipRecord, offset: nat)
    requires
        encode_utf8(e.name).len() < 0x1_0000,
    ensures
        ({
            let r = central_record(e, offset);
            let n = encode_utf8(e.name).len() as int;
            let date = number_at(r, 14, 2);
            let x = number_at(r, 30, 2);
            &&& r[0] == 'P' as u8 && r[1] == 'K' as u8 && r[2] == 1 && r[3] == 2
            &&& number_at(r, 4, 2) == 45
            &&& number_at(r, 6, 2) == needed(e.size, offset)
            &&& number_at(r, 12, 2) == 0
            &&& date % 32 == 1 && date / 32 % 16 == 1 && date / 512 == 0
            &&& number_at(r, 32, 2) == 0 && number_at(r, 34, 2) == 0 && number_at(r, 36, 2) == 0
            &&& number_at(r, 38, 4) == 0
            &&& r.len() == 46 + n + x
            &&& x > 0 ==> number_at(r, 46 + n, 2) == 1 && number_at(r, 48 + n, 2) == x - 4
        }),
{
    let r = central_record(e, offset);
    let need = version_needed(is_large(e.size) || is_large(offset));
    let inner = central_extra(e, offset);
    let extra = extra_part(e, offset);
    let name = encode_utf8(e.name);
    let zeros = le(0, 2) + le(0, 2) + le(0, 2) + le(0, 4);
    let back = le(field32(offset), 4) + name + extra;
    lemma_central_shape(e, offset);
    lemma_central_front(e, need, le(extra.len(), 2) + zeros + back, r);
    lemma_central_middle(e, need, extra.len(), back, r);
    lemma_central_back(e, need, inner, extra, field32(offset), r);
    lemma_le_len(field32(offset), 4);
}

#[verifier::rlimit(40)]
proof fn lemma_central_shape(e: ZipRecord, offset: nat)
    ensures
        ({
            let need = version_needed(is_large(e.size) || is_large(offset));
            let inner = central_extra(e, offset);
            let extra = extra_part(e, offset);
            &&& inner.len() <= 24
            &&& inner.len() > 0 ==> extra == le(0x0001, 2) + le(inner.len(), 2) + inner
            &&& extra.len() == (if inner.len() > 0 {
                inner.len() + 4
            } else {
                0
            })
            &&& central_record(e, offset) == le(0x0201_4b50, 4) + le(45, 2) + le(need, 2)
                + common_fields(e) + (le(extra.len(), 2) + (le(0, 2) + le(0, 2) + le(0, 2) + le(0, 4))
                + (le(field32(offset), 4) + encode_utf8(e.name) + extra))
        }),
{
    broadcast use lemma_le_len;

    let need = version_needed(is_large(e.size) || is_large(offset));
    let inner = central_extra(e, offset);
    let extra = extra_part(e, offset);
    let front = le(0x0201_4b50, 4) + le(45, 2) + le(need, 2) + common_fields(e);
    let x = le(extra.len(), 2);
    assert(extra.len() == (if inner.len() > 0 {
        inner.len() + 4
    } else {
        0
    }));
    lemma_regroup(front, x, le(0, 2), le(0, 4), le(field32(offset), 4), encode_utf8(e.name), extra);
}

proof fn lemma_regroup(
    a: Seq<u8>,
    x: Seq<u8>,
    z: Seq<u8>,
    y: Seq<u8>,
    o: Seq<u8>,
    n: Seq<u8>,
    e: Seq<u8>,
)
    ensures
        a + x + z + z + z + y + o + n + e == a + (x + (z + z + z + y) + (o + n + e)),
{
    let f = z + z + z + y;
    assert(a + x + z + z + z + y =~= a + x + f);
    assert(a + x + f + o + n + e =~= a + (x + f + (o + n + e)));
}

proof fn lemma_central_front(e: ZipRecord, need: nat, rest: Seq<u8>, r: Seq<u8>)
    requires
        need < 0x1_0000,
        r == le(0x0201_4b50, 4) + le(45, 2) + le(need, 2) + common_fields(e) + rest,
    ensures
        r[0] == 0x50 && r[1] == 0x4B && r[2] == 1 && r[3] == 2,
        number_at(r, 4, 2) == 45,
        number_at(r, 6, 2) == need,
        number_at(r, 12, 2) == 0,
        number_at(r, 14, 2) == 0x21,
{
    broadcast use lemma_le_len;

    lemma_pow256();
    let sign = le(0x0201_4b50, 4);
    let common = common_fields(e);
    assert(sign =~= seq![0x50u8, 0x4Bu8, 1u8, 2u8]) by {
        reveal_with_fuel(le, 5);
    }
    assert(r =~= sign + le(45, 2) + (le(need, 2) + common + rest));
    assert(r[0] == sign[0] && r[1] == sign[1] && r[2] == sign[2] && r[3] == sign[3]);
    lemma_number(sign, 45, 2, le(need, 2) + common + rest, r, 4);
    let p6 = sign + le(45, 2);
    assert(r =~= p6 + le(need, 2) + (common + rest));
    lemma_number(p6, need, 2, common + rest, r, 6);
    let head = p6 + le(need, 2);
    assert(r =~= head + common + rest);
    lemma_common_date(head, e, rest, r);
}

proof fn lemma_central_middle(e: ZipRecord, need: nat, x: nat, back: Seq<u8>, r: Seq<u8>)
    requires
        x < 0x1_0000,
        r == le(0x0201_4b50, 4) + le(45, 2) + le(need, 2) + common_fields(e) + (le(x, 2) + (le(0, 2)
            + le(0, 2) + le(0, 2) + le(0, 4)) + back),
    ensures
        number_at(r, 30, 2) == x,
        number_at(r, 32, 2) == 0,
        number_at(r, 34, 2) == 0,
        number_at(r, 36, 2) == 0,
        number_at(r, 38, 4) == 0,
        r.len() == 42 + back.len(),
{
    broadcast use lemma_le_len;

    lemma_pow256();
    let zeros = le(0, 2) + le(0, 2) + le(0, 2) + le(0, 4);
    let p30 = le(0x0201_4b50, 4) + le(45, 2) + le(need, 2) + common_fields(e);
    assert(p30.len() == 30);
    assert(r =~= p30 + le(x, 2) + (zeros + back));
    lemma_number(p30, x, 2, zeros + back, r, 30);
    let p32 = p30 + le(x, 2);
    assert(r =~= p32 + zeros + back);
    lemma_zero_fields(p32, back, r);
}

proof fn lemma_central_back(
    e: ZipRecord,
    need: nat,
    inner: Seq<u8>,
    extra: Seq<u8>,
    far: nat,
    r: Seq<u8>,
)
    requires
        inner.len() < 0x1_0000,
        inner.len() > 0 ==> extra == le(0x0001, 2) + le(inner.len(), 2) + inner,
        r == le(0x0201_4b50, 4) + le(45, 2) + le(need, 2) + common_fields(e) + (le(extra.len(), 2) + (le(
            0,
            2,
        ) + le(0, 2) + le(0, 2) + le(0, 4)) + (le(far, 4) + encode_utf8(e.name) + extra)),
    ensures
        inner.len() > 0 ==> number_at(r, 46 + encode_utf8(e.name).len() as int, 2) == 1 && number_at(
            r,
            48 + encode_utf8(e.name).len() as int,
            2,
        ) == inner.len(),
{
    broadcast use lemma_le_len;

    lemma_pow256();
    if inner.len() > 0 {
        let name = encode_utf8(e.name);
        let n = name.len() as int;
        let zeros = le(0, 2) + le(0, 2) + le(0, 2) + le(0, 4);
        let p30 = le(0x0201_4b50, 4) + le(45, 2) + le(need, 2) + common_fields(e);
        let p46 = p30 + le(extra.len(), 2) + zeros + le(far, 4) + name;
        assert(p46.len() == 46 + n);
        assert(r =~= p46 + extra);
        assert(r =~= p46 + le(0x0001, 2) + (le(inner.len(), 2) + inner));
        lemma_number(p46, 0x0001, 2, le(inner.len(), 2) + inner, r, 46 + n);
        assert(r =~= (p46 + le(0x0001, 2)) + le(inner.len(), 2) + inner);
        lemma_number(p46 + le(0x0001, 2), inner.len(), 2, inner, r, 48 + n);
    }
}

proof fn lemma_zero_fields(a: Seq<u8>, b: Seq<u8>, r: Seq<u8>)
    requires
        a.len() == 32,
        r == a + (le(0, 2) + le(0, 2) + le(0, 2) + le(0, 4)) + b,
    ensures
        number_at(r, 32, 2) == 0,
        number_at(r, 34, 2) == 0,
        number_at(r, 36, 2) == 0,
        number_at(r, 38, 4) == 0,
{
    broadcast use lemma_le_len;

    lemma_pow256();
    let (z2, z4) = (le(0, 2), le(0, 4));
    assert(r =~= a + z2 + (z2 + z2 + z4 + b));
    lemma_number(a, 0, 2, z2 + z2 + z4 + b, r, 32);
    assert(r =~= (a + z2) + z2 + (z2 + z4 + b));
    lemma_number(a + z2, 0, 2, z2 + z4 + b, r, 34);
    assert(r =~= (a + z2 + z2) + z2 + (z4 + b));
    lemma_number(a + z2 + z2, 0, 2, z4 + b, r, 36);
    assert(r =~= (a + z2 + z2 + z2) + z4 + b);
    lemma_number(a + z2 + z2 + z2, 0, 4, b, r, 38);
}

/// The end record begins with its signature, is on the first and only disk, tells the number of
/// records twice, capped where it does not fit, and has no comment.
#[verifier::rlimit(40)]
pub proof fn end_records_are_marked(count: nat, cd_size: nat, cd_offset: nat)
    ensures
        ({
            let r = end_record(count, cd_size, cd_offset);
            let c = if count < 0xFFFF {
                count
            } else {
                0xFFFF
            };
            &&& r.len() == 22
            &&& r[0] == 'P' as u8 && r[1] == 'K' as u8 && r[2] == 5 && r[3] == 6
            &&& number_at(r, 4, 2) == 0 && number_at(r, 6, 2) == 0
            &&& number_at(r, 8, 2) == c && number_at(r, 10, 2) == c
            &&& number_at(r, 20, 2) == 0
        }),
{
    broadcast use lemma_le_len;

    lemma_pow256();
    let r = end_record(count, cd_size, cd_offset);
    let c = capped(count, 0xFFFF);
    let sign = le(0x0605_4b50, 4);
    let z = le(0, 2);
    let n = le(c, 2);
    let back = le(capped(cd_size, 0xFFFF_FFFF), 4) + le(capped(cd_offset, 0xFFFF_FFFF), 4);
    let none = Seq::<u8>::empty();
    assert(sign =~= seq![0x50u8, 0x4Bu8, 5u8, 6u8]) by {
        reveal_with_fuel(le, 5);
    }
    assert(r =~= sign + z + (z + n + n + back + z));
    assert(r[0] == sign[0] && r[1] == sign[1] && r[2] == sign[2] && r[3] == sign[3]);
    lemma_number(sign, 0, 2, z + n + n + back + z, r, 4);
    assert(r =~= (sign + z) + z + (n + n + back + z));
    lemma_number(sign + z, 0, 2, n + n + back + z, r, 6);
    let p8 = sign + z + z;
    assert(r =~= p8 + n + (n + back + z));
    lemma_number(p8, c, 2, n + back + z, r, 8);
    assert(r =~= (p8 + n) + n + (back + z));
    lemma_number(p8 + n, c, 2, back + z, r, 10);
    let p20 = p8 + n + n + back;
    assert(r =~= p20 + z + none);
    lemma_number(p20, 0, 2, none, r, 20);
}

/// The ZIP64 end record and its locator begin with their signatures; the record tells its own
/// length behind that field, the version, and the number of records twice, and the locator tells of
/// one disk.
#[verifier::rlimit(40)]
pub proof fn zip64_ends_are_marked(count: nat, cd_size: nat, cd_offset: nat)
    requires
        count <= u64::MAX,
    ensures
        ({
            let r = zip64_end(count, cd_size, cd_offset);
            &&& r.len() == 76
            &&& r[0] == 'P' as u8 && r[1] == 'K' as u8 && r[2] == 6 && r[3] == 6
            &&& number_at(r, 4, 8) == 56 - 12
            &&& number_at(r, 12, 2) == 45 && number_at(r, 14, 2) == 45
            &&& number_at(r, 16, 4) == 0 && number_at(r, 20, 4) == 0
            &&& number_at(r, 24, 8) == count && number_at(r, 32, 8) == count
            &&& r[56] == 'P' as u8 && r[57] == 'K' as u8 && r[58] == 6 && r[59] == 7
            &&& number_at(r, 60, 4) == 0
            &&& number_at(r, 72, 4) == 1
        }),
{
    broadcast use lemma_le_len;

    lemma_pow256();
    let r = zip64_end(count, cd_size, cd_offset);
    let none = Seq::<u8>::empty();
    let (sign, mark) = (le(0x0606_4b50, 4), le(0x0706_4b50, 4));
    let (len, v, z, n) = (le(44, 8), le(45, 2), le(0, 4), le(count, 8));
    let place = le(cd_size, 8) + le(cd_offset, 8);
    let back = le(cd_offset + cd_size, 8);
    let one = le(1, 4);
    assert(sign =~= seq![0x50u8, 0x4Bu8, 6u8, 6u8]) by {
        reveal_with_fuel(le, 5);
    }
    assert(mark =~= seq![0x50u8, 0x4Bu8, 6u8, 7u8]) by {
        reveal_with_fuel(le, 5);
    }
    let tail = mark + z + back + one;
    assert(r =~= sign + len + (v + v + z + z + n + n + place + tail));
    assert(r[0] == sign[0] && r[1] == sign[1] && r[2] == sign[2] && r[3] == sign[3]);
    lemma_number(sign, 44, 8, v + v + z + z + n + n + place + tail, r, 4);
    let p12 = sign + len;
    assert(r =~= p12 + v + (v + z + z + n + n + place + tail));
    lemma_number(p12, 45, 2, v + z + z + n + n + place + tail, r, 12);
    let p14 = p12 + v;
    assert(r =~= p14 + v + (z + z + n + n + place + tail));
    lemma_number(p14, 45, 2, z + z + n + n + place + tail, r, 14);
    let p16 = p14 + v;
    assert(r =~= p16 + z + (z + n + n + place + tail));
    lemma_number(p16, 0, 4, z + n + n + place + tail, r, 16);
    let p20 = p16 + z;
    assert(r =~= p20 + z + (n + n + place + tail));
    lemma_number(p20, 0, 4, n + n + place + tail, r, 20);
    let p24 = p20 + z;
    assert(r =~= p24 + n + (n + place + tail));
    lemma_number(p24, count, 8, n + place + tail, r, 24);
    let p32 = p24 + n;
    assert(r =~= p32 + n + (place + tail));
    lemma_number(p32, count, 8, place + tail, r, 32);
    let p56 = p32 + n + place;
    assert(p56.len() == 56);
    assert(r =~= p56 + mark + (z + back + one));
    assert(r[56] == mark[0] && r[57] == mark[1] && r[58] == mark[2] && r[59] == mark[3]);
    let p60 = p56 + mark;
    assert(r =~= p60 + z + (back + one));
    lemma_number(p60, 0, 4, back + one, r, 60);
    let p72 = p60 + z + back;
    assert(r =~= p72 + one + none);
    lemma_number(p72, 1, 4, none, r, 72);
}

} // verus!
