use znet_core::auth::{build_auth, Credentials};
use znet_core::crc::crc32;
use znet_core::download::plan_download;
use znet_core::fast_client::{
    after_fast, after_http, assembled, conclude, contiguous_prefix, fast_download, first_step,
    plan_chunks, verify_crc, ChunkPool, FastError, FastOutcome, FastStart, GetOptions, GetStep,
    Integrity,
};
use znet_core::fast_server::{
    begin_range, end_range, let_in, no_such_file, plan_range, CrcCache, RangeCursor,
};
use znet_core::fast_wire::{
    read_handshake, read_reply, refusal_text, reply_err, reply_ok, write_handshake, HandshakeStep,
    ReplyStep,
};
use znet_core::http_client::{download_headers, parse_fast_port, plan_body};
use znet_core::link::{
    is_link_decodable, parse_target, resolve_dest, split_authority, LinkError,
};
use znet_core::server_info::{capabilities_json, FastLane};
use znet_core::stats::{Direction, Stats};

#[test]
fn parse_target_reads_all_parts() {
    let t = parse_target("http://192.168.1.5:8080/download?path=sub%2Fmovie.mp4&k=abc123")
        .expect("parse");
    assert_eq!(t.host, "192.168.1.5");
    assert_eq!(t.port, 8080);
    assert_eq!(t.raw_path, "sub%2Fmovie.mp4", "raw path kept encoded for HTTP reuse");
    assert_eq!(t.file_path, "sub/movie.mp4", "decoded path for the handshake");
    assert_eq!(t.token.as_deref(), Some("abc123"));
    assert_eq!(t.filename, "movie.mp4");
}

#[test]
fn parse_target_defaults_port_and_rejects_bad_input() {
    let t = parse_target("http://host/download?path=x.txt").expect("default port");
    assert_eq!(t.port, 80);
    assert!(t.token.is_none());
    assert!(parse_target("https://host/download?path=x.txt").is_err(), "https rejected in v1");
    assert!(parse_target("http://host/").is_err(), "missing ?path rejected");
}

#[test]
fn parse_fast_port_handles_null_and_value() {
    assert_eq!(parse_fast_port("{\"fast\":null}"), None);
    assert_eq!(
        parse_fast_port("{\"fast\":{\"port\":50370,\"tls\":false,\"version\":1}}"),
        Some(50370)
    );
    // Whitespace-tolerant.
    assert_eq!(parse_fast_port("{ \"fast\": { \"port\": 41000 } }"), Some(41000));
}

#[test]
fn plan_chunks_covers_the_whole_range() {
    let chunks = plan_chunks(100, 1000, 300);
    // [100,400) [400,700) [700,1000)
    assert_eq!(chunks.len(), 3);
    assert_eq!(chunks[0].offset, 100);
    assert_eq!(chunks[0].len, 300);
    assert_eq!(chunks[2].offset, 700);
    assert_eq!(chunks[2].len, 300);
    // No gaps or overlaps, and the union is exactly [100,1000).
    let covered: u64 = chunks.iter().map(|c| c.len).sum();
    assert_eq!(covered, 900);

    // A ragged tail chunk is shorter, not dropped.
    let ragged = plan_chunks(0, 1000, 400);
    assert_eq!(ragged.len(), 3);
    assert_eq!(ragged[2].offset, 800);
    assert_eq!(ragged[2].len, 200);
}

#[test]
fn contiguous_prefix_stops_at_first_gap() {
    let chunks = plan_chunks(0, 1000, 250); // 4 chunks of 250
    let mut done: Vec<bool> = (0..chunks.len()).map(|_| false).collect();
    // chunk 0 and 1 done, chunk 2 missing, chunk 3 done -> prefix stops at 500.
    done[0] = true;
    done[1] = true;
    done[3] = true;
    assert_eq!(contiguous_prefix(0, &chunks, &done), 500);
    // Fill the gap -> the whole file is a contiguous prefix.
    done[2] = true;
    assert_eq!(contiguous_prefix(0, &chunks, &done), 1000);
}

#[test]
fn link_errors_say_what_is_wrong() {
    let e = parse_target("https://h/?path=a").err().unwrap();
    assert_eq!(e, LinkError::Https);
    assert!(e.message("https://h/?path=a").contains("plain HTTP only"));
    let e = parse_target("ftp://h").err().unwrap();
    assert_eq!(e, LinkError::NotHttp);
    assert_eq!(e.message("ftp://h"), "expected an http:// URL, got: ftp://h");
    let e = parse_target("http://h/?k=1").err().unwrap();
    assert_eq!(e, LinkError::NoPath);
    assert_eq!(e.message("x"), "the URL must include ?path=<file> (a Zap download link)");
}

#[test]
fn link_without_a_leaf_is_saved_as_download() {
    let t = parse_target("http://h/download?path=%2F%2F").expect("parse");
    assert_eq!(t.file_path, "//");
    assert_eq!(t.filename, "download");
    assert!(is_link_decodable("http://h/download?path=%2F"));
    assert!(!is_link_decodable("http://h/download?path=%a\u{e9}"));
    assert!(is_link_decodable("ftp://h/?path=%a\u{e9}"));
}

#[test]
fn authority_forms() {
    assert_eq!(split_authority("host"), ("host".to_string(), 80));
    assert_eq!(split_authority("host:81"), ("host".to_string(), 81));
    assert_eq!(split_authority("host:x"), ("host".to_string(), 80));
    assert_eq!(split_authority("[::1]:9000"), ("::1".to_string(), 9000));
    assert_eq!(split_authority("[::1]"), ("::1".to_string(), 80));
    assert_eq!(split_authority("[::1"), ("::1".to_string(), 80));
    assert_eq!(split_authority("host:70000"), ("host".to_string(), 80));
}

#[test]
fn destinations() {
    let d = resolve_dest("", false, None, "f");
    assert_eq!((d.folder.as_str(), d.name.as_deref()), (".", Some("f")));
    let d = resolve_dest("out", true, Some(""), "f");
    assert_eq!((d.folder.as_str(), d.name.as_deref()), ("out", Some("f")));
    let d = resolve_dest("out/g", false, Some("out"), "f");
    assert_eq!((d.folder.as_str(), d.name.as_deref()), ("out", None));
    let d = resolve_dest("g", false, Some(""), "f");
    assert_eq!((d.folder.as_str(), d.name.as_deref()), (".", None));
}

#[test]
fn advertised_port_round_trips() {
    let json = capabilities_json(Some(FastLane { port: 50370, tls: false }));
    assert_eq!(json, "{\"fast\":{\"port\":50370,\"tls\":false,\"version\":1}}");
    assert_eq!(parse_fast_port(&json), Some(50370));
    let json = capabilities_json(Some(FastLane { port: 1, tls: true }));
    assert_eq!(json, "{\"fast\":{\"port\":1,\"tls\":true,\"version\":1}}");
    assert_eq!(parse_fast_port(&json), Some(1));
    assert_eq!(capabilities_json(None), "{\"fast\":null}");
    assert_eq!(parse_fast_port(&capabilities_json(None)), None);
    assert_eq!(parse_fast_port("{\"port\":70000}"), None);
    assert_eq!(parse_fast_port("{\"port\":}"), None);
}

fn finish_handshake(bytes: &[u8]) -> HandshakeStep {
    let mut at = 0;
    loop {
        match read_handshake(&bytes[..at]) {
            HandshakeStep::Need(n) => at += n,
            done => {
                assert!(at <= bytes.len());
                return done;
            }
        }
    }
}

#[test]
fn handshake_round_trips() {
    let hs = write_handshake(Some("t0k"), "sub/\u{e9}.bin", 7, 9);
    assert_eq!(&hs[..9], b"ZAPX\x01\x00\x01\x03\x00");
    match finish_handshake(&hs) {
        HandshakeStep::Done(h) => {
            assert_eq!(h.op, 1);
            assert_eq!(h.token, b"t0k");
            assert_eq!(h.path, "sub/\u{e9}.bin");
            assert_eq!((h.offset, h.range_len), (7, 9));
        }
        _ => panic!("handshake not read"),
    }
}

#[test]
fn bad_handshakes_are_refused_as_soon_as_seen() {
    match read_handshake(b"NOPE") {
        HandshakeStep::Refuse(1, m) => assert_eq!(m, "bad magic"),
        _ => panic!(),
    }
    match read_handshake(b"ZAPX\x02\x00") {
        HandshakeStep::Refuse(1, m) => assert_eq!(m, "unsupported version"),
        _ => panic!(),
    }
    match read_handshake(b"ZAPX\x01\x00\x01\x00\x00\x01\x00\x01\x00") {
        HandshakeStep::Refuse(1, m) => assert_eq!(m, "path too long"),
        _ => panic!(),
    }
    assert!(matches!(read_handshake(b""), HandshakeStep::Need(4)));
    assert!(matches!(read_handshake(b"ZAPX\x01\x00\x01\x02\x00"), HandshakeStep::Need(6)));
}

#[test]
fn malformed_path_bytes_become_replacement_characters() {
    let mut hs = b"ZAPX\x01\x00\x01\x00\x00\x01\x00\x00\x00\xff".to_vec();
    hs.extend_from_slice(&[0; 16]);
    match finish_handshake(&hs) {
        HandshakeStep::Done(h) => assert_eq!(h.path, "\u{fffd}"),
        _ => panic!(),
    }
}

#[test]
fn replies_round_trip() {
    let ok = reply_ok(300, Some(0x01020304));
    assert_eq!(ok, [0, 44, 1, 0, 0, 0, 0, 0, 0, 1, 4, 3, 2, 1]);
    assert!(matches!(read_reply(&ok), ReplyStep::Ready(300, Some(0x01020304))));
    assert!(matches!(read_reply(&ok[..10]), ReplyStep::Need(4)));
    assert!(matches!(read_reply(&reply_ok(5, None)), ReplyStep::Ready(5, None)));
    let err = reply_err(3, "not found");
    assert_eq!(&err[..3], [3, 9, 0]);
    assert!(matches!(read_reply(&err), ReplyStep::Refused(9)));
    assert_eq!(refusal_text(&err[3..]), "server said: not found");
    assert!(matches!(read_reply(&[]), ReplyStep::Need(1)));
    assert!(matches!(read_reply(&[2]), ReplyStep::Need(2)));
}

fn handshake(op: u8, token: &str, path: &str) -> znet_core::fast_wire::Handshake {
    let mut hs = write_handshake(Some(token), path, 0, 0);
    hs[6] = op;
    match finish_handshake(&hs) {
        HandshakeStep::Done(h) => h,
        _ => panic!(),
    }
}

#[test]
fn admission_checks_token_then_op_then_path() {
    let creds = Credentials { user: "u".to_string(), pass: "p".to_string() };
    let auth = build_auth(Some(&creds), 0x2a).unwrap();
    let token = auth.token.clone();
    let e = let_in(&handshake(2, "wrong", "../x"), Some(&auth)).err().unwrap();
    assert_eq!((e.status, e.message.as_str()), (2, "unauthorized"));
    let e = let_in(&handshake(2, &token, "../x"), Some(&auth)).err().unwrap();
    assert_eq!((e.status, e.message.as_str()), (4, "op not supported in v1"));
    let e = let_in(&handshake(1, &token, "../x"), Some(&auth)).err().unwrap();
    assert_eq!((e.status, e.message.as_str()), (3, "bad path"));
    assert_eq!(let_in(&handshake(1, &token, "a//./b"), Some(&auth)).ok().unwrap(), ["a", "b"]);
    assert_eq!(let_in(&handshake(1, "ignored", "a"), None).ok().unwrap(), ["a"]);
    let e = no_such_file();
    assert_eq!((e.status, e.message.as_str()), (3, "not found"));
}

#[test]
fn ranges_are_clamped() {
    assert_eq!(plan_range(100, 0, 0), (0, 100));
    assert_eq!(plan_range(100, 40, 10), (40, 10));
    assert_eq!(plan_range(100, 95, 10), (95, 5));
    assert_eq!(plan_range(100, u64::MAX, 0), (100, 0));
    assert_eq!(plan_range(0, 0, 5), (0, 0));
}

#[test]
fn cursor_moves_to_the_end() {
    let mut c = RangeCursor { pos: 10, remaining: 7 };
    assert_eq!(c.want(4), 4);
    c.advance(4);
    assert_eq!(c.want(4), 3);
    c.advance(3);
    assert_eq!((c.pos, c.remaining, c.want(4)), (17, 0, 0));
}

#[test]
fn ranges_of_one_file_share_a_row() {
    let mut stats = Stats::new(None);
    let a = begin_range(&mut stats, "/s/f", "f", 100, 0);
    let b = begin_range(&mut stats, "/s/f", "f", 100, 50);
    assert_eq!(a, b);
    assert_eq!(stats.transfers().len(), 1);
    stats.count_sent(a, 40, 40);
    assert!(!end_range(&mut stats, a, 100));
    assert_eq!(stats.transfers()[0].done, 50);
    stats.count_sent(b, 50, 100);
    assert!(end_range(&mut stats, b, 100));
    let row = &stats.transfers()[0];
    assert!(row.finished && row.ok && row.fast && !row.verified);
    assert_eq!(stats.bytes_transferred(), 90);
    assert_eq!(begin_range(&mut stats, "/s/f", "f", 100, 0), 1, "a finished row is not reused");
}

#[test]
fn crc_cache_goes_by_path_size_and_time() {
    let mut cache = CrcCache::new();
    assert_eq!(cache.get("a", 1, 2), None);
    cache.put("a", 1, 2, 77);
    cache.put("a", 1, 2, 78);
    assert_eq!(cache.get("a", 1, 2), Some(77));
    assert_eq!(cache.get("a", 2, 2), None);
    assert_eq!(cache.get("a", 1, 3), None);
    assert_eq!(cache.get("b", 1, 2), None);
}

#[test]
fn default_options() {
    let o = GetOptions::default();
    assert_eq!((o.streams, o.chunk_size), (4, 4 << 20));
}

#[test]
fn downloads_resume_or_start_over() {
    let opts = GetOptions { streams: 6, chunk_size: 1 };
    let (start, step) = fast_download(10, 10, opts);
    assert_eq!(start, 10);
    assert!(matches!(step, FastStart::Whole));
    let (start, step) = fast_download(11, 10, opts);
    assert_eq!(start, 0);
    match step {
        FastStart::Fetch(_, streams) => assert_eq!(streams, 1, "one chunk, one connection"),
        _ => panic!(),
    }
    let (start, step) = fast_download(100, 1_000_000, opts);
    assert_eq!(start, 100);
    match step {
        FastStart::Fetch(mut pool, streams) => {
            assert_eq!(streams, 6);
            let (i, c) = pool.next().unwrap();
            assert_eq!((i, c.offset, c.len), (0, 100, 65536), "small chunks are rounded up");
        }
        _ => panic!(),
    }
}

#[test]
fn pool_hands_out_every_chunk_once() {
    let mut pool = ChunkPool::new(0, 200_000, 65536);
    let mut got = Vec::new();
    while let Some((i, c)) = pool.next() {
        got.push((i, c.offset, c.len));
        pool.succeeded(i);
    }
    assert_eq!(got, [(0, 0, 65536), (1, 65536, 65536), (2, 131072, 65536), (3, 196608, 3392)]);
    assert_eq!(pool.unfinished(), None);
    assert_eq!(assembled(&pool, 200_000, 200_000), None);
    assert_eq!(assembled(&pool, 200_000, 5), Some(FastError::SizeMismatch(5, 200_000)));
}

#[test]
fn pool_retries_then_gives_up() {
    let mut pool = ChunkPool::new(0, 200_000, 65536);
    let (i, _) = pool.next().unwrap();
    pool.succeeded(i);
    for attempt in 1..=4 {
        let (i, _) = pool.next().unwrap();
        assert_eq!(i, 1, "the failed chunk comes back first");
        assert_eq!(pool.failed(i), attempt == 4);
    }
    assert!(pool.is_aborted());
    assert!(pool.next().is_none());
    assert_eq!(pool.unfinished(), Some(65536));
    assert_eq!(assembled(&pool, 200_000, 200_000), Some(FastError::Incomplete(65536, 200_000)));
}

#[test]
fn aborted_pool_hands_out_nothing() {
    let mut pool = ChunkPool::new(0, 10, 1);
    pool.abort();
    assert!(pool.next().is_none());
    assert_eq!(pool.unfinished(), Some(0));
}

#[test]
fn integrity_verdicts() {
    assert_eq!(verify_crc(None, Some(1)), Integrity::Unchecked);
    assert_eq!(verify_crc(Some(1), Some(1)), Integrity::Verified);
    assert_eq!(verify_crc(Some(1), Some(2)), Integrity::Corrupt);
    assert_eq!(verify_crc(Some(1), None), Integrity::Unreadable);
    let o = conclude(Integrity::Verified, 9, 3, 2).ok().unwrap();
    assert_eq!((o.total, o.verified, o.resumed_from, o.streams), (9, true, 3, 2));
    assert!(!conclude(Integrity::Unchecked, 9, 3, 2).ok().unwrap().verified);
    assert_eq!(conclude(Integrity::Corrupt, 9, 3, 2).err(), Some(FastError::Corrupt));
    assert_eq!(conclude(Integrity::Unreadable, 9, 3, 2).err(), Some(FastError::Unreadable));
}

#[test]
fn failures_have_texts() {
    assert_eq!(
        FastError::Incomplete(5, 10).message(),
        "fast lane incomplete after retries (contiguous prefix 5/10)"
    );
    assert_eq!(FastError::SizeMismatch(5, 10).message(), "fast lane size mismatch: 5/10");
    assert_eq!(FastError::Corrupt.message(), "integrity check failed (CRC mismatch)");
    assert_eq!(FastError::Unreadable.message(), "reading for CRC");
}

#[test]
fn fast_failure_falls_back_to_http() {
    assert!(matches!(first_step(Some(9)), GetStep::Fast(9)));
    assert!(matches!(first_step(None), GetStep::Http));
    assert!(matches!(after_fast("p".to_string(), None), GetStep::Http));
    let o = FastOutcome { total: 5, verified: true, resumed_from: 1, streams: 3 };
    match after_fast("p".to_string(), Some(o)) {
        GetStep::Finish(r) => {
            assert_eq!((r.path.as_str(), r.total, r.streams), ("p", 5, 3));
            assert!(r.used_fast && r.verified);
        }
        _ => panic!(),
    }
    match after_http("p".to_string(), Some((5, 2))) {
        GetStep::Finish(r) => {
            assert_eq!((r.total, r.resumed_from, r.streams), (5, 2, 0));
            assert!(!r.used_fast && !r.verified);
        }
        _ => panic!(),
    }
    assert!(matches!(after_http("p".to_string(), None), GetStep::Fail));
}

// ---- Whole downloads, in memory ----

/// Serve one handshake of a file held in memory: the reply, then the bytes of the range.
fn serve(file: &[u8], request: &[u8]) -> Vec<u8> {
    let h = match finish_handshake(request) {
        HandshakeStep::Done(h) => h,
        _ => panic!("incomplete handshake"),
    };
    assert_eq!(let_in(&h, None).ok().unwrap(), ["big.bin"]);
    let total = file.len() as u64;
    let (start, len) = plan_range(total, h.offset, h.range_len);
    let mut out = reply_ok(total, Some(crc32(file)));
    let mut c = RangeCursor { pos: start, remaining: len };
    while c.remaining > 0 {
        let n = c.want(50_000);
        out.extend_from_slice(&file[c.pos as usize..c.pos as usize + n]);
        c.advance(n);
    }
    out
}

/// Ask for a range of a file held in memory.
fn fetch(file: &[u8], offset: u64, len: u64) -> (u64, Option<u32>, Vec<u8>) {
    let answer = serve(file, &write_handshake(None, "big.bin", offset, len));
    let mut have = 1;
    loop {
        match read_reply(&answer[..have]) {
            ReplyStep::Need(n) => have += n,
            ReplyStep::Ready(total, crc) => return (total, crc, answer[have..].to_vec()),
            ReplyStep::Refused(_) => panic!("refused"),
        }
    }
}

/// Download a file held in memory, with `workers` chunks under way at a time.
fn download(file: &[u8], on_disk: &[u8], opts: GetOptions) -> (Vec<u8>, FastOutcome) {
    let (total, crc, none) = fetch(file, u64::MAX, 0);
    assert!(none.is_empty(), "a stat carries no data");
    let (start, step) = fast_download(on_disk.len() as u64, total, opts);
    let mut part = on_disk.to_vec();
    part.resize(total as usize, 0);
    let streams = match step {
        FastStart::Whole => 0,
        FastStart::Fetch(mut pool, streams) => {
            let mut under_way = Vec::new();
            loop {
                while under_way.len() < streams {
                    match pool.next() {
                        Some(job) => under_way.push(job),
                        None => break,
                    }
                }
                // The chunk that was taken first comes in last.
                let Some((i, c)) = under_way.pop() else { break };
                let (_, _, bytes) = fetch(file, c.offset, c.len);
                part[c.offset as usize..(c.offset + c.len) as usize].copy_from_slice(&bytes);
                pool.succeeded(i);
            }
            assert_eq!(assembled(&pool, total, part.len() as u64), None);
            streams
        }
    };
    let outcome = conclude(verify_crc(crc, Some(crc32(&part))), total, start, streams);
    (part, outcome.ok().expect("integrity"))
}

/// Multi-stream download (many small chunks over several connections) must
/// reassemble byte-exact and verify the whole-file CRC.
#[test]
fn multi_stream_download_byte_exact() {
    let data: Vec<u8> = (0..1_000_000u32)
        .map(|i| (i.wrapping_mul(2_654_435_761) >> 11) as u8 ^ (i as u8))
        .collect();
    let opts = GetOptions { streams: 6, chunk_size: 64 * 1024 };
    let (part, o) = download(&data, &[], opts);
    let report = match after_fast("/dst/big.bin".to_string(), Some(o)) {
        GetStep::Finish(r) => r,
        _ => panic!(),
    };
    assert!(report.used_fast, "should use the fast lane");
    assert!(report.verified, "whole-file CRC should verify");
    assert_eq!(report.total, data.len() as u64);
    assert_eq!(report.streams, 6);
    assert!(part == data, "reassembled byte-exact");
}

/// Multi-stream resume: a contiguous partial prefix on disk is kept and only
/// the remaining chunks are fetched, still byte-exact.
#[test]
fn multi_stream_resumes_from_partial() {
    let data: Vec<u8> = (0..600_000u32)
        .map(|i| (i.wrapping_mul(40_503) >> 7) as u8 ^ (i as u8))
        .collect();
    let seeded = 150_000usize;
    let opts = GetOptions { streams: 4, chunk_size: 64 * 1024 };
    let (part, o) = download(&data, &data[..seeded], opts);
    assert_eq!(o.resumed_from, seeded as u64, "kept the on-disk prefix");
    assert!(part == data, "resumed byte-exact");
}

/// The HTTP fallback must download byte-exact and resume from a partial temp
/// file via a Range request.
#[test]
fn http_fallback_downloads_and_resumes() {
    let data: Vec<u8> = (0..250_000u32)
        .map(|i| (i.wrapping_mul(2_654_435_761) >> 13) as u8 ^ (i as u8))
        .collect();
    let total = data.len() as u64;
    let http = |part: &mut Vec<u8>| {
        let headers = download_headers(None, part.len() as u64);
        let range = headers.iter().find(|h| h.name == "Range").map(|h| h.value.clone());
        let sent = plan_download(Some("f.bin"), total, range.as_deref());
        let body = &data[sent.start as usize..(sent.start + sent.len) as usize];
        let plan = plan_body(sent.status, Some(body.len() as u64), part.len() as u64).ok().unwrap();
        part.truncate(plan.start as usize);
        part.extend_from_slice(body);
        plan.finish(part.len() as u64).expect("http download")
    };

    let mut part = Vec::new();
    assert_eq!(http(&mut part), (total, 0));
    assert!(part == data, "HTTP download byte-exact");

    let mut part = data[..80_000].to_vec();
    assert_eq!(http(&mut part), (total, 80_000), "should resume from the on-disk offset");
    assert!(part == data, "HTTP resume byte-exact");
}

/// The bytes that a file's ranges have delivered count on after its row has left the list.
#[test]
fn ranges_complete_after_their_row_has_left_the_list() {
    let mut stats = Stats::new(None);
    let a = begin_range(&mut stats, "/s/f", "f", 100, 0);
    let b = begin_range(&mut stats, "/s/f", "f", 100, 50);
    assert_eq!(a, b);
    for i in 0..50 {
        stats.begin(&format!("other {i}"), Direction::Download, None, "");
    }
    assert!(stats.transfers().iter().all(|t| t.id != a), "the row is gone");
    stats.count_sent(b, 50, 100);
    assert_eq!(stats.bytes_done(a), 100);
    stats.count_sent(a, 10, 10);
    assert!(end_range(&mut stats, a, 100), "the other range has reached the end");
    assert!(end_range(&mut stats, b, 100));

    // A new range begins a new row; one that fails lets go of it.
    let c = begin_range(&mut stats, "/s/f", "f", 100, 0);
    assert_ne!(c, a);
    stats.release(c);
    stats.release(c);
    let d = begin_range(&mut stats, "/s/f", "f", 100, 20);
    assert_eq!(d, c, "the unfinished row is taken up again");
    assert!(!end_range(&mut stats, d, 100));
}

#[test]
fn nothing_is_left_to_cut_up() {
    assert!(plan_chunks(10, 10, 0).is_empty());
    assert!(plan_chunks(11, 10, 0).is_empty());
}
