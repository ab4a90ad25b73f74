use znet_core::auth::{
    build_auth, gate, handle_login, has_valid_session, is_form_decodable, session_cookie, Auth,
    Credentials, Gate, Method,
};
use znet_core::crc::{crc32, Crc32};
use znet_core::download::{
    bad_path, download_sent, not_found, parse_range, plan_download, plan_folder_zip, read_error,
    seek_error, total_size,
};
use znet_core::http_client::{
    auth_headers, download_headers, download_path, http_request, parse_status, plan_body, HttpError,
    HttpHead,
};
use znet_core::paths::part_path;
use znet_core::reply::Reply;
use znet_core::routes::{handle, is_routable, Action, Route};
use znet_core::stats::{Change, Direction, Stats};
use znet_core::upload::{
    crc_header, discard_reply, head_reply, legacy_upload, mkdir_failed, refuse_silently,
    refuse_upload, resumable_upload, total_header, upload_target, AfterAppend, AfterCheck,
    ResumableUpload, TargetError,
};
use znet_core::url::{
    cookie_value, decode_percent, header_value, is_decodable, query_param, split_query, Header,
};

fn header(name: &str, value: &str) -> Header {
    Header { name: name.to_string(), value: value.to_string() }
}

fn get<'a>(r: &'a Reply, name: &str) -> Option<&'a str> {
    r.headers.iter().find(|h| h.name == name).map(|h| h.value.as_str())
}

fn auth() -> Auth {
    build_auth(Some(&Credentials { user: "zap".to_string(), pass: "zap".to_string() }), 0xabc).unwrap()
}

fn begin(stats: &mut Stats, offset: u64, held: u64, headers: &[Header]) -> ResumableUpload {
    match resumable_upload(stats, "/d/.zap-part-f.bin", "f.bin", "/d/f.bin", offset, held, headers) {
        Ok(u) => u,
        Err(r) => panic!("refused: {}", r.body),
    }
}

// ---- Requests ----

#[test]
fn requests_seen_counts_client_requests() {
    let mut stats = Stats::new(None);
    assert_eq!(stats.requests_seen(), 0, "no requests before any client");
    stats.count_request();
    assert!(stats.requests_seen() >= 1, "a client request should be counted");
}

#[test]
fn pairing_key_auto_logins() {
    let a = auth();
    let token = a.token.clone();
    assert_eq!(token, "00000000000000000000000000000abc");

    // No key, no cookie: the login page, not the app.
    assert!(matches!(handle(Method::Get, "/", &[], Some(&a)), Some(Action::LoginPage)));

    // Correct key: 303 + Set-Cookie with the session token.
    match handle(Method::Get, &format!("/?k={token}"), &[], Some(&a)) {
        Some(Action::Respond(r)) => {
            assert_eq!(r.status, 303);
            assert!(get(&r, "Set-Cookie").unwrap().starts_with(&format!("zap_session={token}")));
            assert_eq!(get(&r, "Location"), Some("/"));
        }
        _ => panic!("pairing key should redirect"),
    }

    // A link that carries a fingerprint too signs in all the same.
    let link = format!("/?k={token}&fp=ab");
    assert!(matches!(handle(Method::Get, &link, &[], Some(&a)), Some(Action::Respond(r)) if r.status == 303));

    // That cookie unlocks the app.
    let cookie = [header("Cookie", &format!("zap_session={token}"))];
    assert!(matches!(
        handle(Method::Get, "/", &cookie, Some(&a)),
        Some(Action::Serve(Route::Index))
    ));

    // Wrong key: still gated.
    assert!(matches!(handle(Method::Get, "/?k=deadbeef", &[], Some(&a)), Some(Action::LoginPage)));
    match handle(Method::Get, "/api/list?path=", &[], Some(&a)) {
        Some(Action::Respond(r)) => assert_eq!((r.status, r.body.as_str()), (401, "Unauthorized")),
        _ => panic!("gated"),
    }
}

#[test]
fn gate_decisions() {
    let a = auth();
    assert_eq!(gate(Method::Post, "/login", &[], Some(&a)), Gate::Login);
    assert_eq!(gate(Method::Get, "/login", &[], Some(&a)), Gate::LoginPage);
    assert_eq!(gate(Method::Put, "/upload", &[], Some(&a)), Gate::Unauthorized);
    assert_eq!(gate(Method::Put, "/upload", &[], None), Gate::Pass);
    let headers = [header("cookie", &format!("a=b; zap_session={}", a.token))];
    assert!(has_valid_session(&headers, &a));
    assert_eq!(gate(Method::Put, "/upload", &headers, Some(&a)), Gate::Pass);
    assert!(!has_valid_session(&[header("Cookie", "zap_session=no")], &a));
    assert!(build_auth(None, 1).is_none());
}

#[test]
fn login_form() {
    let a = auth();
    let r = handle_login("user=zap&pass=zap", &a);
    assert_eq!((r.status, r.body.as_str()), (200, "ok"));
    assert_eq!(get(&r, "Set-Cookie"), Some(session_cookie(&a.token).as_str()));
    assert_eq!(
        session_cookie("t"),
        "zap_session=t; Path=/; SameSite=Strict; Max-Age=86400"
    );
    let r = handle_login("user=z%61p&pass=no", &a);
    assert_eq!((r.status, r.body.as_str()), (401, "Incorrect username or password"));
    assert!(r.headers.is_empty());
    assert_eq!(handle_login("user=z%61p&pass=zap", &a).status, 200);
    assert_eq!(handle_login("", &a).status, 401);
    assert!(is_form_decodable("user=%41", "user"));
    assert!(!is_form_decodable("user=%a\u{e9}", "user"));
}

#[test]
fn routes_lead_where_they_say() {
    let serve = |m, u: &str| match handle(m, u, &[], None) {
        Some(Action::Serve(r)) => r,
        _ => panic!("not served"),
    };
    assert!(matches!(serve(Method::Get, "/"), Route::Index));
    assert!(matches!(serve(Method::Get, "/api/list?path=a%2Fb"), Route::List(p) if p == "a/b"));
    assert!(matches!(serve(Method::Get, "/api/list"), Route::List(p) if p.is_empty()));
    assert!(matches!(serve(Method::Get, "/api/search?q=a+b"), Route::Search(q) if q == "a b"));
    assert!(matches!(serve(Method::Get, "/api/incoming"), Route::Incoming));
    assert!(matches!(serve(Method::Get, "/api/capabilities"), Route::Capabilities));
    assert!(matches!(serve(Method::Get, "/events"), Route::Events));
    assert!(matches!(serve(Method::Get, "/clips"), Route::Clips));
    assert!(matches!(serve(Method::Post, "/clip"), Route::PublishClip));
    assert!(matches!(serve(Method::Get, "/download?path=x"), Route::Download(p) if p == "x"));
    assert!(matches!(serve(Method::Get, "/download-folder?path=x"), Route::DownloadFolder(p) if p == "x"));
    match serve(Method::Put, "/upload?path=d&name=f&offset=12") {
        Route::Upload(rel, name, offset) => {
            assert_eq!((rel.as_str(), name.as_deref(), offset), ("d", Some("f"), Some(12)));
        }
        _ => panic!(),
    }
    assert!(matches!(serve(Method::Put, "/upload?name=f&offset=x"), Route::Upload(_, _, None)));
    assert!(matches!(serve(Method::Head, "/upload?name=f"), Route::UploadHead(_, Some(n)) if n == "f"));
    assert!(matches!(serve(Method::Delete, "/upload"), Route::Discard(_, None)));
    assert!(matches!(serve(Method::Post, "/upload"), Route::NotFound));
    assert!(matches!(serve(Method::Get, "/nope"), Route::NotFound));
    assert!(matches!(serve(Method::Other, "/"), Route::NotFound));
}

#[test]
fn escapes_that_split_a_character_have_no_answer() {
    assert!(handle(Method::Get, "/download?path=%a\u{e9}", &[], None).is_none());
    assert!(!is_routable(Method::Get, "/download?path=%a\u{e9}"));
    assert!(is_routable(Method::Get, "/?path=%a\u{e9}"));
    assert!(handle(Method::Get, "/?k=%a\u{e9}", &[], Some(&auth())).is_none());
    assert!(handle(Method::Get, "/?k=%a\u{e9}", &[], None).is_some());
    assert!(handle(Method::Get, "/download?path=%a\u{e9}", &[], Some(&auth())).is_some());
}

// ---- URLs ----

#[test]
fn queries_and_cookies() {
    assert_eq!(split_query("/a?b?c"), ("/a".to_string(), Some("b?c".to_string())));
    assert_eq!(split_query("/a"), ("/a".to_string(), None));
    assert_eq!(query_param(Some("x&a=1&a=2"), "a"), Some("1".to_string()));
    assert_eq!(query_param(Some("ab=1"), "a"), None);
    assert_eq!(query_param(None, "a"), None);
    assert_eq!(query_param(Some("a=1=2"), "a"), Some("1=2".to_string()));
    assert_eq!(cookie_value("x=1; y=2;z=3 ", "z"), Some("3".to_string()));
    assert_eq!(cookie_value("x=1", "y"), None);
    let hs = [header("X-Zap-Total", "1"), header("x-zap-total", "2")];
    assert_eq!(header_value(&hs, "x-ZAP-total"), Some("1".to_string()));
    assert_eq!(header_value(&hs, "other"), None);
}

#[test]
fn percent_decoding() {
    assert_eq!(decode_percent("a%20b+c%2f"), "a b c/");
    assert_eq!(decode_percent("100%"), "100%");
    assert_eq!(decode_percent("%4"), "%4");
    assert_eq!(decode_percent("%zz"), "%zz");
    assert_eq!(decode_percent("%+1"), "% 1");
    assert_eq!(decode_percent("%1+"), "%1 ");
    assert_eq!(decode_percent("%C3%A9"), "\u{e9}");
    assert_eq!(decode_percent("%FF"), "\u{fffd}");
    assert_eq!(decode_percent("plain \u{e9}"), "plain \u{e9}");
    assert!(is_decodable("%aab"));
    assert!(!is_decodable("%a\u{e9}"));
}

// ---- Downloads ----

#[test]
fn download_supports_range() {
    let p = plan_download(Some("data.txt"), 10, Some("bytes=2-5"));
    assert_eq!(p.status, 206, "range request should be 206");
    assert_eq!((p.start, p.len), (2, 4), "the requested slice");
    let cr = p.headers.iter().find(|h| h.name == "Content-Range").unwrap();
    assert_eq!(cr.value, "bytes 2-5/10", "should set Content-Range");
}

#[test]
fn whole_files_are_sent_without_a_range() {
    let p = plan_download(Some("a\"b.txt"), 10, Some("bytes=10-"));
    assert_eq!((p.status, p.start, p.len), (200, 0, 10));
    assert_eq!(p.name, "ab.txt");
    assert_eq!(p.headers.len(), 3);
    assert_eq!(p.headers[0].value, "application/octet-stream");
    assert_eq!(p.headers[1].value, "attachment; filename=\"ab.txt\"");
    assert_eq!(p.headers[2].name, "Accept-Ranges");
    assert_eq!(plan_download(None, 0, None).name, "download");
    let mut stats = Stats::new(None);
    let id = p.begin(&mut stats, "/d/ab.txt");
    download_sent(&mut stats, id);
    let t = &stats.transfers()[0];
    assert!(t.finished && t.ok);
    assert_eq!((t.path.as_str(), t.total, t.direction), ("/d/ab.txt", Some(10), Direction::Download));
}

#[test]
fn range_headers() {
    assert_eq!(parse_range("bytes=0-", 10), Some((0, 9)));
    assert_eq!(parse_range(" bytes= 3 - 99 ", 10), Some((3, 9)));
    assert_eq!(parse_range("bytes=9-9", 10), Some((9, 9)));
    assert_eq!(parse_range("bytes=5-4", 10), None);
    assert_eq!(parse_range("bytes=10-", 10), None);
    assert_eq!(parse_range("bytes=0-1,3-4", 10), None);
    assert_eq!(parse_range("bytes=-5", 10), None);
    assert_eq!(parse_range("bytes=x-5", 10), None);
    assert_eq!(parse_range("bytes=1-x", 10), None);
    assert_eq!(parse_range("items=0-", 10), None);
    assert_eq!(parse_range("bytes=0-", 0), None);
    assert_eq!(parse_range("bytes=5", 10), None);
}

#[test]
fn folder_archives() {
    let p = plan_folder_zip(Some("My \"Album\""));
    assert_eq!(p.prefix, "My \"Album\"/");
    assert_eq!(p.name, "My Album.zip");
    assert_eq!(p.headers[0].value, "application/zip");
    assert_eq!(p.headers[1].value, "attachment; filename=\"My Album.zip\"");
    assert_eq!(plan_folder_zip(None).name, "folder.zip");
    assert_eq!(total_size(&[1, 2, 3]), Some(6));
    assert_eq!(total_size(&[]), Some(0));
    assert_eq!(total_size(&[u64::MAX, 1]), None);
}

#[test]
fn failures_answer_plainly() {
    let pairs = [
        (bad_path(), 400, "Bad path"),
        (not_found(), 404, "Not found"),
        (read_error(), 500, "read error"),
        (seek_error(), 500, "seek error"),
        (mkdir_failed(), 500, "mkdir failed"),
        (refuse_silently(), 400, ""),
        (discard_reply(), 200, "ok"),
        (refuse_upload(TargetError::BadName), 400, "Bad or missing name"),
        (refuse_upload(TargetError::BadPath), 400, "Bad path"),
    ];
    for (r, status, body) in pairs {
        assert_eq!((r.status, r.body.as_str()), (status, body));
        assert!(r.headers.is_empty());
    }
}

// ---- Uploads ----

#[test]
fn upload_targets() {
    let t = upload_target("a/./b", Some("f.bin")).ok().unwrap();
    assert_eq!(t.folder, ["a", "b"]);
    assert_eq!(t.name, "f.bin");
    assert_eq!(upload_target("", None).err(), Some(TargetError::BadName));
    assert_eq!(upload_target("..", Some("a/b")).err(), Some(TargetError::BadName));
    assert_eq!(upload_target("..", Some("f")).err(), Some(TargetError::BadPath));
    assert_eq!(upload_target("", Some("f")).ok().unwrap().folder.len(), 0);
}

#[test]
fn declared_sizes_and_checksums() {
    let h = |k: &str, v: &str| vec![header(k, v)];
    assert_eq!(total_header(&h("x-zap-total", "10")), Some(10));
    assert_eq!(total_header(&h("X-Zap-Total", " 10")), None);
    assert_eq!(total_header(&[]), None);
    assert_eq!(crc_header(&h("X-Zap-Crc32", " 0x0xCBF43926 ")), Some(0xCBF4_3926));
    assert_eq!(crc_header(&h("X-Zap-Crc32", "cbf43926")), Some(0xCBF4_3926));
    assert_eq!(crc_header(&h("X-Zap-Crc32", "1cbf43926")), None);
    assert_eq!(crc_header(&h("X-Zap-Crc32", "")), None);
    assert_eq!(crc_header(&h("X-Zap-Crc32", "+f")), Some(15));
    let r = head_reply(4);
    assert_eq!(get(&r, "X-Zap-Offset"), Some("4"));
    assert_eq!(get(&r, "Accept-Ranges"), Some("bytes"));
}

#[test]
fn crc32_matches_known_check_value() {
    // The canonical CRC-32/ISO-HDLC check value for "123456789".
    assert_eq!(crc32(b"123456789"), 0xCBF4_3926);
    let mut c = Crc32::new();
    c.update(b"1234");
    c.update(b"");
    c.update(b"56789");
    assert_eq!(c.finish(), 0xCBF4_3926);
    assert_eq!(crc32(b""), 0);
}

/// Full resume round-trip: a partial PUT, the remainder from its end, and a
/// checksum that matches.
#[test]
fn resumable_upload_resumes_and_verifies() {
    let full = b"ABCDEFGHIJ"; // 10 bytes
    let crc = crc32(full);
    let total = header("X-Zap-Total", "10");
    let mut stats = Stats::new(None);

    // HEAD: nothing uploaded yet.
    assert!(matches!(
        handle(Method::Head, "/upload?path=&name=foo.bin", &[], None),
        Some(Action::Serve(Route::UploadHead(_, _)))
    ));
    assert_eq!(get(&head_reply(0), "X-Zap-Offset"), Some("0"), "fresh file should be offset 0");

    let u = begin(&mut stats, 0, 0, &[total]);
    match u.appended(&mut stats, 4, true) {
        AfterAppend::Answer(end) => {
            assert_eq!((end.reply.status, end.reply.body.as_str()), (200, "partial"));
            assert_eq!(get(&end.reply, "X-Zap-Offset"), Some("4"));
            assert!(!end.save);
        }
        _ => panic!("not complete yet"),
    }

    // HEAD again: the host remembers what it holds.
    assert_eq!(get(&head_reply(4), "X-Zap-Offset"), Some("4"), "HEAD should see the partial");

    let headers = [header("X-Zap-Total", "10"), header("X-Zap-Crc32", &format!("{crc:08x}"))];
    let u = begin(&mut stats, 4, 4, &headers);
    assert_eq!(stats.transfers()[0].done, 4, "the row shows the bytes already held");
    assert!(matches!(u.appended(&mut stats, 10, true), AfterAppend::Verify));
    assert!(matches!(u.checked(Some(crc)), AfterCheck::Rename));
    let end = u.renamed(&mut stats, true);
    assert_eq!((end.reply.status, end.reply.body.as_str()), (200, "ok"));
    assert_eq!(get(&end.reply, "X-Zap-Verified"), Some("true"));
    assert!(end.save);
    let t = &stats.transfers()[0];
    assert!(t.finished && t.ok && t.verified);
}

/// Every chunk (and resume) of one file must share a single transfer row,
/// not spawn a new one per PUT.
#[test]
fn resumable_upload_coalesces_chunks_into_one_transfer() {
    let total = [header("X-Zap-Total", "10")];
    let mut stats = Stats::new(None);
    let u = begin(&mut stats, 0, 0, &total);
    u.appended(&mut stats, 4, true);
    assert_eq!(stats.transfers().len(), 1, "first chunk starts one transfer");
    let u = begin(&mut stats, 4, 4, &total);
    u.appended(&mut stats, 8, true);
    assert_eq!(stats.transfers().len(), 1, "second chunk must reuse the same row");
    let crc = crc32(b"ABCDEFGHIJ");
    let last = [header("X-Zap-Total", "10"), header("X-Zap-Crc32", &format!("{crc:08x}"))];
    let u = begin(&mut stats, 8, 8, &last);
    u.appended(&mut stats, 10, true);
    u.renamed(&mut stats, true);
    let list = stats.transfers();
    assert_eq!(list.len(), 1, "still one row after finalize");
    assert!(list[0].finished && list[0].ok && list[0].verified, "final row verified");
}

/// A wrong offset must be rejected with 409 + the real offset, not corrupt
/// the file.
#[test]
fn resumable_upload_rejects_offset_mismatch() {
    let mut stats = Stats::new(None);
    match resumable_upload(&mut stats, "k", "x.bin", "/d/x.bin", 5, 0, &[header("X-Zap-Total", "3")]) {
        Err(r) => {
            assert_eq!(r.status, 409, "offset mismatch should be 409");
            assert_eq!(r.body, "offset mismatch");
            assert_eq!(get(&r, "X-Zap-Offset"), Some("0"), "should report the real offset");
        }
        Ok(_) => panic!("wrong offset accepted"),
    }
    assert!(stats.transfers().is_empty());
}

#[test]
fn corrupt_and_broken_uploads() {
    let mut stats = Stats::new(None);
    let headers = [header("X-Zap-Total", "3"), header("X-Zap-Crc32", "1")];
    let u = begin(&mut stats, 0, 0, &headers);
    assert!(matches!(u.appended(&mut stats, 3, false), AfterAppend::Verify));
    for got in [Some(2), None] {
        match u.checked(got) {
            AfterCheck::Discard(end) => {
                assert_eq!((end.reply.status, end.reply.body.as_str()), (422, "integrity check failed"));
                assert_eq!(get(&end.reply, "X-Zap-Verified"), Some("false"));
                assert!(end.save);
            }
            AfterCheck::Rename => panic!("corrupt file let through"),
        }
    }
    let end = u.renamed(&mut stats, false);
    assert_eq!((end.reply.status, end.reply.body.as_str()), (500, "finalize failed"));
    assert!(!end.save);

    let mut stats = Stats::new(None);
    let u = begin(&mut stats, 0, 0, &[]);
    match u.appended(&mut stats, 7, false) {
        AfterAppend::Answer(end) => {
            assert_eq!((end.reply.status, end.reply.body.as_str()), (500, "interrupted"));
            assert_eq!(get(&end.reply, "X-Zap-Offset"), Some("7"));
            assert!(end.save);
        }
        _ => panic!(),
    }
    assert!(stats.transfers()[0].finished && !stats.transfers()[0].ok);
}

#[test]
fn upload_without_a_checksum_is_not_called_verified() {
    let mut stats = Stats::new(None);
    let u = begin(&mut stats, 0, 0, &[header("X-Zap-Total", "3")]);
    assert!(matches!(u.appended(&mut stats, 3, true), AfterAppend::Rename));
    u.renamed(&mut stats, true);
    let t = &stats.transfers()[0];
    assert!(t.ok && !t.verified);
}

#[test]
fn one_shot_uploads() {
    let mut stats = Stats::new(None);
    let a = stats.begin("a", Direction::Upload, Some(3), "/d/a");
    let r = legacy_upload(&mut stats, a, true);
    assert_eq!((r.status, r.body.as_str()), (200, "ok"));
    let b = stats.begin("b", Direction::Upload, None, "/d/b");
    let r = legacy_upload(&mut stats, b, false);
    assert_eq!((r.status, r.body.as_str()), (500, "upload failed"));
    assert!(stats.transfers()[0].ok && stats.transfers()[1].finished && !stats.transfers()[1].ok);
}

// ---- Bookkeeping ----

/// A finished upload's persisted history row must carry its file path (last
/// TSV field).
#[test]
fn history_saves_upload_path() {
    let mut stats = Stats::new(None);
    let id = stats.begin("up.bin", Direction::Upload, Some(10), "/d/up.bin");
    stats.count_bytes(id, 10);
    stats.change(id, Change::Finish);
    stats.change(id, Change::Succeed);
    stats.change(id, Change::Verified);
    let tsv = stats.save_history();
    assert_eq!(tsv, "up\tup.bin\t10\t10\t1\t1\t/d/up.bin\n");
    let fields: Vec<&str> = tsv.trim_end().split('\t').collect();
    assert_eq!(fields.len(), 7, "row has all 7 fields incl. path");
    assert!(fields[6].ends_with("up.bin"), "path points at the file");
}

/// A completed transfer must be persisted and reappear after a restart.
#[test]
fn transfer_history_survives_restart() {
    let mut stats = Stats::new(None);
    let body = b"hello";
    let crc = crc32(body);
    let headers = [header("X-Zap-Total", "5"), header("X-Zap-Crc32", &format!("{crc:08x}"))];
    let u = match resumable_upload(
        &mut stats, "/d/.zap-part-h.bin", "h.bin", "/d/h.bin", 0, 0, &headers,
    ) {
        Ok(u) => u,
        Err(_) => panic!(),
    };
    stats.count_bytes(u.id, 5);
    u.appended(&mut stats, 5, true);
    u.renamed(&mut stats, true);

    let again = Stats::new(Some(&stats.save_history()));
    let list = again.transfers();
    assert!(
        list.iter().any(|t| t.name == "h.bin" && t.finished && t.ok && t.verified),
        "the transfer should survive the restart"
    );
    assert_eq!(again.bytes_transferred(), 0);
    assert_eq!(again.requests_seen(), 0);
}

#[test]
fn history_fields_stay_on_their_line() {
    let mut stats = Stats::new(None);
    let id = stats.begin("h\t.bin", Direction::Upload, Some(5), "/d/h\n.bin");
    stats.change(id, Change::Finish);
    stats.change(id, Change::Succeed);
    stats.begin("unfinished", Direction::Download, None, "");
    let other = stats.begin("dl", Direction::Download, None, "");
    stats.change(other, Change::Finish);

    let again = Stats::new(Some(&stats.save_history()));
    let list = again.transfers();
    assert_eq!(list.len(), 2);
    assert_eq!((list[0].name.as_str(), list[0].path.as_str()), ("h .bin", "/d/h .bin"));
    assert_eq!((list[1].total, list[1].direction), (None, Direction::Download));
}

#[test]
fn bad_history_lines_are_passed_over() {
    let mut stats = Stats::new(None);
    stats.load_history("junk\nup\ta\tx\ty\t0\t1\r\ndown\tb\t-\t7\t1\t0\tp\tq");
    let l = stats.transfers();
    assert_eq!(l.len(), 2);
    assert_eq!((l[0].total, l[0].done, l[0].ok, l[0].verified), (None, 0, false, true));
    assert_eq!(l[0].path, "");
    assert_eq!((l[1].done, l[1].path.as_str()), (7, "p\tq"));
    assert!(stats.has_ids(1));
}

#[test]
fn activity_list_keeps_the_latest_fifty() {
    let mut stats = Stats::new(None);
    for i in 0..55 {
        stats.begin(&format!("f{i}"), Direction::Download, None, "");
    }
    assert_eq!(stats.transfers().len(), 50);
    assert_eq!(stats.transfers()[0].id, 5);
    stats.change(5, Change::Store(9));
    stats.change(3, Change::Store(9));
    assert_eq!(stats.transfers()[0].done, 9);
    stats.change(5, Change::Raise(4));
    assert_eq!(stats.transfers()[0].done, 9);
    stats.remove_transfer(5);
    assert_eq!(stats.transfers()[0].id, 6);
    stats.change(7, Change::Finish);
    stats.clear_transfers();
    assert_eq!(stats.transfers().len(), 48);
    assert!(stats.transfers().iter().all(|t| t.id != 7));
}

// ---- HTTP client ----

#[test]
fn requests_carry_token_and_range() {
    let hs = download_headers(Some("t"), 80_000);
    assert_eq!(
        http_request("GET", &download_path("a%20b"), "h", &hs),
        "GET /download?path=a%20b HTTP/1.1\r\nHost: h\r\nConnection: close\r\nCookie: zap_session=t\r\nRange: bytes=80000-\r\n\r\n"
    );
    assert_eq!(parse_range("bytes=80000-", 250_000), Some((80_000, 249_999)));
    assert!(download_headers(None, 0).is_empty());
    let a = auth();
    assert!(has_valid_session(&auth_headers(Some(&a.token)), &a));
}

#[test]
fn response_heads() {
    assert_eq!(parse_status("HTTP/1.1 206 Partial Content\r\n"), Some(206));
    assert_eq!(parse_status("HTTP/1.1"), None);
    assert_eq!(parse_status(""), None);
    assert_eq!(parse_status("a 70000"), None);
    let mut h = HttpHead::new("HTTP/1.1 200 OK").unwrap();
    assert!(h.add_line("Content-Length: 12\r\n"));
    assert!(h.add_line("nonsense\r\n"));
    assert!(h.add_line("X : y : z\r\n"));
    assert_eq!(h.content_length, Some(12));
    assert!(!h.add_line("\r\n"));
    assert_eq!(h.headers.len(), 2);
    assert_eq!((h.headers[1].name.as_str(), h.headers[1].value.as_str()), ("X", "y : z"));
    assert!(h.add_line("content-length: many"));
    assert_eq!(h.content_length, None);
    assert!(HttpHead::new("bad").is_none());
}

#[test]
fn bodies_are_resumed_or_restarted() {
    let p = plan_body(206, Some(20), 80).ok().unwrap();
    assert_eq!((p.start, p.total, p.len), (80, 100, 20));
    let p = plan_body(200, Some(100), 80).ok().unwrap();
    assert_eq!((p.start, p.total, p.len), (0, 100, 100));
    assert_eq!(plan_body(404, Some(1), 0).err(), Some(HttpError::Status(404)));
    assert_eq!(plan_body(200, None, 0).err(), Some(HttpError::NoLength));

    let p = plan_body(206, Some(20), 80).ok().unwrap();
    assert_eq!(p.finish(100), Ok((100, 80)));
    assert_eq!(p.finish(99), Err(HttpError::Incomplete(99, 100)), "a body cut short is an error");
    assert_eq!(HttpError::Status(404).message(), "HTTP download failed: status 404");
    assert_eq!(HttpError::NoLength.message(), "HTTP response had no Content-Length");
    assert_eq!(HttpError::Incomplete(99, 100).message(), "HTTP download incomplete: 99/100 bytes");
}

/// Both a received (upload) and a served (download) transfer must expose a
/// real `path` so that its location can be opened.
#[test]
fn open_location_path_set_for_upload_and_download() {
    let body = b"ABCDEFGHIJ";
    let crc = crc32(body);
    let headers = [header("X-Zap-Total", "10"), header("X-Zap-Crc32", &format!("{crc:08x}"))];
    let mut stats = Stats::new(None);
    let u = match resumable_upload(
        &mut stats, "/d/.zap-part-recv.bin", "recv.bin", "/d/recv.bin", 0, 0, &headers,
    ) {
        Ok(u) => u,
        Err(_) => panic!(),
    };
    stats.count_bytes(u.id, 10);
    assert!(matches!(u.appended(&mut stats, 10, true), AfterAppend::Verify));
    assert!(matches!(u.checked(Some(crc)), AfterCheck::Rename));
    u.renamed(&mut stats, true);

    let p = plan_download(Some("existing.bin"), 12, None);
    let id = p.begin(&mut stats, "/d/existing.bin");
    stats.count_bytes(id, 12);
    download_sent(&mut stats, id);

    let list = stats.transfers();
    let up = list.iter().find(|t| t.name == "recv.bin").expect("upload transfer present");
    let down = list.iter().find(|t| t.name == "existing.bin").expect("download transfer present");
    for (label, t, path) in [("upload", up, "/d/recv.bin"), ("download", down, "/d/existing.bin")] {
        assert!(t.finished && t.ok, "{label} should be finished+ok");
        assert_eq!(t.path, path, "{label} must carry its path");
    }
    assert_eq!(stats.bytes_transferred(), 22);
}

/// Discarding an interrupted upload names its temporary file and succeeds.
#[test]
fn discard_removes_partial() {
    let mut stats = Stats::new(None);
    let u = begin(&mut stats, 0, 0, &[header("X-Zap-Total", "100")]);
    assert!(matches!(u.appended(&mut stats, 5, true), AfterAppend::Answer(_)));
    match handle(Method::Delete, "/upload?path=&name=big.bin", &[], None) {
        Some(Action::Serve(Route::Discard(rel, name))) => {
            let t = upload_target(&rel, name.as_deref()).ok().unwrap();
            assert!(t.folder.is_empty());
            assert_eq!(part_path(&t.name), ".zap-part-big.bin");
        }
        _ => panic!(),
    }
    assert_eq!(discard_reply().status, 200, "discard should succeed");
}
