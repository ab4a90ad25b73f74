use znet_core::json::json_string;
use znet_core::listing::{
    collect_entry, incoming_entry, incoming_json, list_dir_json, Collect, EntryKind, Found, Listed,
    Search,
};
use znet_core::paths::{
    is_part_file, is_plain_filename, normalize_rel, part_path, resolve_within, strip_part,
};
use znet_core::png::{png_bytes, write_chunk, zlib_stored};
use znet_core::zip::{write_zip, FileStep, ZipEntry, ZipSource, ZipWriter};

fn entry(name: &str, kind: EntryKind, size: u64) -> Listed {
    Listed { name: name.to_string(), kind, size }
}

// ---- Paths ----

#[test]
fn paths_never_leave_the_root() {
    assert_eq!(resolve_within("a/./b//c"), Some(vec!["a".to_string(), "b".to_string(), "c".to_string()]));
    assert_eq!(resolve_within(""), Some(vec![]));
    assert_eq!(resolve_within("a/../b"), None);
    assert_eq!(resolve_within("a\\b"), None);
    assert_eq!(resolve_within("/etc/passwd"), Some(vec!["etc".to_string(), "passwd".to_string()]));
    assert_eq!(resolve_within("..."), Some(vec!["...".to_string()]));
}

#[test]
fn normalising_is_idempotent() {
    assert_eq!(normalize_rel("/a//./b/"), "a/b");
    assert_eq!(normalize_rel(&normalize_rel("/a//./b/")), "a/b");
    assert_eq!(normalize_rel("."), "");
    assert_eq!(resolve_within(&normalize_rel("/a//./b/")), resolve_within("/a//./b/"));
}

#[test]
fn plain_filenames() {
    assert!(is_plain_filename("a b.txt"));
    for bad in ["", ".", "..", "a/b", "a\\b"] {
        assert!(!is_plain_filename(bad), "{bad:?}");
    }
}

#[test]
fn temporary_names_lead_back() {
    assert_eq!(part_path("f.bin"), ".zap-part-f.bin");
    assert!(is_part_file(".zap-part-f.bin"));
    assert!(!is_part_file("f.zap-part-"));
    assert_eq!(strip_part(&part_path("f.bin")), Some("f.bin".to_string()));
    assert_eq!(strip_part("f.bin"), None);
}

// ---- JSON and listings ----

#[test]
fn json_escapes() {
    assert_eq!(json_string("a\"b\\c\n\r\t\u{1}\u{e9}"), "\"a\\\"b\\\\c\\n\\r\\t\\u0001\u{e9}\"");
    assert_eq!(json_string(""), "\"\"");
}

#[test]
fn listing_puts_folders_first_and_sorts_without_case() {
    let entries = [
        entry("b.txt", EntryKind::File, 2),
        entry("Zoo", EntryKind::Dir, 0),
        entry("A.txt", EntryKind::File, 1),
        entry("apps", EntryKind::Dir, 0),
        entry(".zap-part-x", EntryKind::File, 9),
        entry("sock", EntryKind::Other, 0),
    ];
    assert_eq!(
        list_dir_json("./sub/", Some(&entries)),
        "{\"path\":\"sub\",\"entries\":[{\"name\":\"apps\",\"dir\":true},{\"name\":\"Zoo\",\"dir\":true},{\"name\":\"A.txt\",\"dir\":false,\"size\":1},{\"name\":\"b.txt\",\"dir\":false,\"size\":2}]}"
    );
    assert_eq!(list_dir_json("../x", Some(&entries)), "{\"error\":\"bad path\"}");
    assert_eq!(list_dir_json("x", None), "{\"error\":\"bad path\"}");
    assert_eq!(list_dir_json("", Some(&[])), "{\"path\":\"\",\"entries\":[]}");
}

#[test]
fn listing_keeps_the_order_of_equal_keys() {
    let entries = [entry("AB", EntryKind::File, 1), entry("ab", EntryKind::File, 2)];
    let json = list_dir_json("", Some(&entries));
    assert!(json.find("\"AB\"").unwrap() < json.find("\"ab\"").unwrap());
}

fn found(name: &str, path: &str, is_dir: bool) -> Found {
    Found { name: name.to_string(), path: path.to_string(), is_dir, size: 5 }
}

#[test]
fn search_ignores_case_and_hides_temporary_files() {
    let mut s = Search::new("  CAT ");
    assert!(s.open());
    assert!(s.scan(Some(&found("Cats", "Cats", true))));
    assert!(!s.scan(Some(&found("bobcat.png", "Cats\\bobcat.png", false))));
    assert!(!s.scan(Some(&found(".zap-part-cat", ".zap-part-cat", true))));
    assert!(!s.scan(None));
    assert!(s.scan(Some(&found("dog", "dog", true))));
    assert_eq!(
        s.finish("  CAT "),
        "{\"query\":\"  CAT \",\"entries\":[{\"path\":\"Cats\",\"name\":\"Cats\",\"dir\":true},{\"path\":\"Cats/bobcat.png\",\"name\":\"bobcat.png\",\"dir\":false,\"size\":5}]}"
    );
    assert!(!Search::new("   ").open());
}

#[test]
fn search_is_capped() {
    let mut s = Search::new("a");
    let mut n = 0;
    while s.open() {
        s.scan(Some(&found("a", "a", false)));
        n += 1;
    }
    assert_eq!(n, 300);
    let mut s = Search::new("a");
    let mut n = 0;
    while s.open() {
        s.scan(Some(&found("b", "b", false)));
        n += 1;
    }
    assert_eq!(n, 30_000);
}

#[test]
fn unfinished_uploads_are_listed() {
    let e = incoming_entry("sub\\d", ".zap-part-m.mp4", 7).unwrap();
    assert_eq!(e, "{\"path\":\"sub/d\",\"name\":\"m.mp4\",\"done\":7}");
    assert_eq!(incoming_entry("", "m.mp4", 7), None);
    assert_eq!(incoming_json(&[e.clone(), e]).matches("m.mp4").count(), 2);
    assert_eq!(incoming_json(&[]), "{\"entries\":[]}");
}

// ---- ZIP ----

/// The generated ZIP must be well-formed: local-file magic at the start, the
/// end-of-central-directory record at the end, the right entry count, and all
/// file names (with their subfolder prefixes) present.
#[test]
fn folder_zip_is_well_formed() {
    let prefix = "root/";
    let a = match collect_entry(prefix, "a.txt", EntryKind::File) {
        Collect::Take(n) => n,
        _ => panic!(),
    };
    let sub = match collect_entry(prefix, "sub", EntryKind::Dir) {
        Collect::Descend(p) => p,
        _ => panic!(),
    };
    let b = match collect_entry(&sub, "b.bin", EntryKind::File) {
        Collect::Take(n) => n,
        _ => panic!(),
    };
    assert!(matches!(collect_entry(prefix, ".zap-part-x", EntryKind::File), Collect::Skip));
    assert!(matches!(collect_entry(prefix, "sock", EntryKind::Other), Collect::Skip));

    let files = [
        ZipSource { name: a, size: 11, contents: Some(b"hello world".to_vec()) },
        ZipSource { name: "root/gone".to_string(), size: 3, contents: None },
        ZipSource { name: b, size: 5000, contents: Some(vec![7u8; 5000]) },
    ];
    let mut out = Vec::new();
    write_zip(&mut out, &files);

    assert_eq!(&out[0..4], &[0x50, 0x4b, 0x03, 0x04], "starts with local file header");
    // EOCD is the trailing 22 bytes (no archive comment).
    let eocd = &out[out.len() - 22..];
    assert_eq!(&eocd[0..4], &[0x50, 0x4b, 0x05, 0x06], "ends with EOCD");
    let entries = u16::from_le_bytes([eocd[10], eocd[11]]);
    assert_eq!(entries, 2, "EOCD reports two entries");

    let contains = |needle: &[u8]| out.windows(needle.len()).any(|w| w == needle);
    assert!(contains(b"root/a.txt"), "names the top-level file");
    assert!(contains(b"root/sub/b.bin"), "names the nested file with its subfolder");

    // The central directory is where the end record says, and leads to both files.
    let at = u32::from_le_bytes([eocd[16], eocd[17], eocd[18], eocd[19]]) as usize;
    assert_eq!(&out[at..at + 4], &[0x50, 0x4b, 0x01, 0x02]);
    let second = at + 46 + 10;
    assert_eq!(&out[second..second + 4], &[0x50, 0x4b, 0x01, 0x02]);
    let o = u32::from_le_bytes([out[second + 42], out[second + 43], out[second + 44], out[second + 45]]);
    assert_eq!(o, 30 + 10 + 11);
    assert_eq!(&out[o as usize..o as usize + 4], &[0x50, 0x4b, 0x03, 0x04]);
    assert_eq!(&out[o as usize + 30 + 14..o as usize + 30 + 16], &[7, 7]);
}

#[test]
fn large_files_get_zip64_fields() {
    let mut z = ZipWriter::new();
    let big = ZipEntry { name: "\u{e9}".to_string(), size: 0x1_0000_0000, crc: 0x01020304 };
    assert!(z.fits(&big));
    let h = z.add(&big);
    assert_eq!(h.len(), 30 + 2 + 20);
    assert_eq!(&h[4..8], &[45, 0, 0, 8], "version 4.5, UTF-8 name");
    assert_eq!(&h[14..18], &[4, 3, 2, 1]);
    assert_eq!(&h[18..26], &[0xff; 8]);
    assert_eq!(&h[32..36], &[1, 0, 16, 0]);
    assert_eq!(&h[36..44], &[0, 0, 0, 0, 1, 0, 0, 0]);
    let far = ZipEntry { name: "b".to_string(), size: 1, crc: 0 };
    let h = z.add(&far);
    assert_eq!(h.len(), 31);
    assert!(z.can_finish());
    let t = z.finish();
    // Going from record to record by their own lengths leads through the directory.
    let len = |at: usize| u16::from_le_bytes([t[at], t[at + 1]]) as usize;
    let first = 46 + len(28) + len(30) + len(32);
    assert_eq!((len(28), len(30)), (2, 20), "two sizes behind the field's own header");
    assert_eq!(&t[first..first + 4], &[0x50, 0x4b, 0x01, 0x02]);
    assert_eq!(&t[first + 42..first + 46], &[0xff; 4], "the offset is in the ZIP64 field");
    let second = 46 + len(first + 28) + len(first + 30) + len(first + 32);
    assert_eq!((len(first + 28), len(first + 30)), (1, 12));
    let offset = &t[first + second - 8..first + second];
    assert_eq!(offset, (0x1_0000_0000u64 + 30 + 2 + 20).to_le_bytes());
    assert_eq!(&t[first + second..first + second + 4], &[0x50, 0x4b, 0x06, 0x06]);
    let end = &t[t.len() - 22..];
    assert_eq!(&end[8..12], &[2, 0, 2, 0]);
    assert_eq!(&end[16..20], &[0xff; 4], "offset is in the ZIP64 record");
    assert_eq!(&t[t.len() - 22 - 20..t.len() - 22 - 16], &[0x50, 0x4b, 0x06, 0x07]);
    assert!(!z.fits(&ZipEntry { name: String::new(), size: u64::MAX, crc: 0 }));
}

#[test]
fn files_come_up_one_by_one() {
    let mut z = ZipWriter::new();
    let mut out = Vec::new();
    assert!(matches!(z.file("gone", 3, None), FileStep::Skip));
    match z.file("a", 2, Some(0x01020304)) {
        FileStep::Write(h) => out.extend_from_slice(&h),
        _ => panic!(),
    }
    assert_eq!(out.len(), 31);
    assert!(matches!(z.file("b", u64::MAX, Some(1)), FileStep::TooLarge));
    let end = z.end().unwrap();
    assert_eq!(end.len(), 46 + 1 + 22, "one entry");
}

#[test]
fn empty_archive_is_its_end_record() {
    let mut out = Vec::new();
    write_zip(&mut out, &[]);
    let mut want = vec![0x50, 0x4b, 0x05, 0x06];
    want.extend_from_slice(&[0; 18]);
    assert_eq!(out, want);
}

// ---- PNG ----

#[test]
fn stored_zlib_streams() {
    assert_eq!(zlib_stored(b"abc"), [0x78, 1, 1, 3, 0, 0xfc, 0xff, 97, 98, 99, 0x02, 0x4d, 0x01, 0x27]);
    assert_eq!(zlib_stored(b""), [0x78, 1, 0, 0, 0, 1]);
    let long = zlib_stored(&vec![0u8; 65536]);
    assert_eq!(&long[2..7], &[0, 0xff, 0xff, 0, 0]);
    assert_eq!(&long[7 + 65535..7 + 65540], &[1, 1, 0, 0xfe, 0xff]);
}

#[test]
fn png_chunks_and_files() {
    let mut out = Vec::new();
    write_chunk(&mut out, b"IEND", &[]);
    assert_eq!(out, [0, 0, 0, 0, 73, 69, 78, 68, 0xae, 0x42, 0x60, 0x82]);
    let png = png_bytes(1, 2, &[1, 2, 3, 4, 5, 6, 7, 8]);
    assert_eq!(&png[..8], &[0x89, 0x50, 0x4e, 0x47, 0x0d, 0x0a, 0x1a, 0x0a]);
    assert_eq!(&png[8..29], &[0, 0, 0, 13, 73, 72, 68, 82, 0, 0, 0, 1, 0, 0, 0, 2, 8, 6, 0, 0, 0]);
    let rows = [0u8, 1, 2, 3, 4, 0, 5, 6, 7, 8];
    assert!(png.windows(rows.len()).any(|w| w == rows));
    assert_eq!(&png[png.len() - 12..], &out[..]);
}
