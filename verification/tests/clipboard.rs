use znet_core::base64::{b64_decode, b64_encode};
use znet_core::clips::{clip_reply, ClipLog};
use znet_core::display::snapshot;
use znet_core::events::Event;
use znet_core::image_clip::{
    data_url_bytes, data_url_to_rgba, is_image, png_data_url, rgba_to_data_url, PREFIX,
};
use znet_core::pins::{add_pin, escape_line, load_pins, remove_pin, save_pins, unescape_line};
use znet_core::server_info::ServerInfo;
use znet_core::sse::{find, SseEvent, SseStream};
use znet_core::sync::{
    apply_clip, events_request, image_applied, image_read_back, label, parse_base, parse_count,
    post_clip, read_clipboard, ClipLine, Dispatch, Guard, Mute, Paste, SyncState,
};

fn base(url: &str) -> Option<(String, u16, Option<String>)> {
    parse_base(url).map(|b| (b.host, b.port, b.tls_fp))
}

#[test]
fn parse_base_handles_forms() {
    assert_eq!(base("http://192.168.1.9:8080"), Some(("192.168.1.9".into(), 8080, None)));
    assert_eq!(base("192.168.1.9:8080/"), Some(("192.168.1.9".into(), 8080, None)));
    assert_eq!(base("http://host:9000/path?k=abc"), Some(("host".into(), 9000, None)));
    assert_eq!(base("10.0.0.2"), Some(("10.0.0.2".into(), 8080, None)));
    assert_eq!(base(""), None);
}

#[test]
fn parse_base_extracts_tls_fingerprint() {
    // https selects TLS and pulls the pinned fingerprint from `fp`.
    assert_eq!(
        base("https://192.168.1.9:8080/?k=tok&fp=abcd1234"),
        Some(("192.168.1.9".into(), 8080, Some("abcd1234".into())))
    );
    // https without fp still means TLS (empty pin -> will fail to verify).
    assert_eq!(base("https://host:9000"), Some(("host".into(), 9000, Some(String::new()))));
    // plain http ignores any fp.
    assert_eq!(base("http://host:9000?fp=xx"), Some(("host".into(), 9000, None)));
}

#[test]
fn parse_count_reads_presence_payload() {
    assert_eq!(parse_count("{\"count\":3}"), Some(3));
    assert_eq!(parse_count("{\"count\":0}"), Some(0));
    assert_eq!(parse_count("garbage"), None);
}

#[test]
fn find_locates_header_terminator() {
    assert_eq!(find(b"abc\r\n\r\nbody", b"\r\n\r\n"), Some(3));
    assert_eq!(find(b"no terminator", b"\r\n\r\n"), None);
}

#[test]
fn base64_round_trips_arbitrary_bytes() {
    for data in [&b""[..], b"f", b"fo", b"foo", b"foob", b"fooba", b"foobar", &[0u8, 255, 1, 254, 127]] {
        assert_eq!(b64_decode(&b64_encode(data)).unwrap(), data, "round trip {data:?}");
    }
}

#[test]
fn base64_matches_known_vectors() {
    assert_eq!(b64_encode(b"foobar"), "Zm9vYmFy");
    assert_eq!(b64_encode(b"Ma"), "TWE=");
}

#[test]
fn image_round_trips_pixel_exact() {
    // A tiny 2x2 RGBA image survives encode -> data URL -> decode unchanged.
    let px = vec![
        255, 0, 0, 255, // red
        0, 255, 0, 255, // green
        0, 0, 255, 255, // blue
        255, 255, 0, 255, // yellow
    ];
    let url = rgba_to_data_url(2, 2, &px).expect("encode");
    assert!(is_image(&url) && url.starts_with(PREFIX));
    let back = data_url_to_rgba(&url).expect("decode");
    assert_eq!((back.width, back.height), (2, 2));
    assert_eq!(back.rgba, px, "pixels preserved");
}

#[test]
fn encoding_is_deterministic() {
    // Same pixels twice must yield the identical data URL - this is what lets
    // the sync engine's string content-guard dedup images and avoid an echo
    // loop.
    let px = vec![10, 20, 30, 255, 40, 50, 60, 255];
    let a = rgba_to_data_url(2, 1, &px).unwrap();
    let b = rgba_to_data_url(2, 1, &px).unwrap();
    assert_eq!(a, b);
}

#[test]
fn pin_escaping_round_trips() {
    for s in ["plain", "two\nlines", "back\\slash", "crlf\r\nhere", "mix\\n\nreal", ""] {
        assert_eq!(unescape_line(&escape_line(s)), s, "round trip {s:?}");
    }
}

#[test]
fn escaped_pin_is_single_line() {
    assert!(!escape_line("a\nb\nc").contains('\n'), "no raw newlines in the on-disk form");
}

#[test]
fn stray_escapes_stand_for_themselves() {
    assert_eq!(unescape_line("a\\tb\\"), "a\\tb\\");
    assert_eq!(escape_line("a\\b\r\n"), "a\\\\b\\r\\n");
}

#[test]
fn pins_survive_saving_and_loading() {
    let pins = vec!["one".to_string(), "two\nlines".to_string(), "c:\\x".to_string()];
    let file = save_pins(&pins);
    assert_eq!(file, "one\ntwo\\nlines\nc:\\\\x\n");
    assert_eq!(load_pins(&file), pins);
    assert_eq!(load_pins("a\n\n\nb"), ["a", "b"]);
}

#[test]
fn pins_are_added_once() {
    let mut pins = vec!["a".to_string()];
    assert!(!add_pin(&mut pins, "a"));
    assert!(add_pin(&mut pins, "b"));
    assert_eq!(pins, ["a", "b"]);
    remove_pin(&mut pins, 0);
    assert_eq!(pins, ["b"]);
}

#[test]
fn large_images_are_scaled_down() {
    let px = vec![200u8; 1601 * 2 * 4];
    let url = rgba_to_data_url(1601, 2, &px).expect("encode");
    let back = data_url_to_rgba(&url).expect("decode");
    assert_eq!((back.width, back.height), (1600, 2));
    assert_eq!(back.rgba, vec![200u8; 1600 * 2 * 4]);
}

#[test]
fn images_that_cannot_be_sent() {
    assert_eq!(rgba_to_data_url(2, 2, &[0; 15]), None, "too few bytes");
    assert_eq!(png_data_url(&vec![0; 700_001]), None, "too large");
    assert!(png_data_url(&vec![0; 700_000]).is_some());
    assert!(data_url_to_rgba("data:image/png;base64,AAAA").is_none(), "no image");
    assert!(data_url_to_rgba("plain text").is_none());
    assert_eq!(png_data_url(b"Ma"), Some("data:image/png;base64,TWE=".to_string()));
    assert_eq!(data_url_bytes("data:image/png;base64,TWE="), Some(b"Ma".to_vec()));
    assert_eq!(data_url_bytes("data:image/png;base64,TW*E"), None);
}

#[test]
fn base64_passes_over_white_space() {
    assert_eq!(b64_decode(" Zm9v\r\nYmFy\t"), Some(b"foobar".to_vec()));
    assert_eq!(b64_decode("A"), Some(vec![0]));
    assert_eq!(b64_decode("\u{e9}"), None);
}

#[test]
fn share_links_lead_to_the_host() {
    let mut info = ServerInfo {
        dir: "/s".to_string(),
        port: 8080,
        lan_ip: Some("192.168.1.9".to_string()),
        auth_token: None,
        fingerprint: None,
    };
    assert_eq!(info.url(), "http://192.168.1.9:8080/");
    assert_eq!(info.url_with_key(), info.url());
    info.auth_token = Some("tok".to_string());
    assert_eq!(info.url_with_key(), "http://192.168.1.9:8080/?k=tok");
    info.fingerprint = Some("abcd".to_string());
    assert_eq!(info.url_with_key(), "https://192.168.1.9:8080/?k=tok&fp=abcd");
    assert_eq!(
        base(&info.url_with_key()),
        Some(("192.168.1.9".into(), 8080, Some("abcd".into())))
    );
    info.auth_token = None;
    assert_eq!(info.url_with_key(), "https://192.168.1.9:8080/?fp=abcd");
    info.lan_ip = None;
    assert_eq!(info.url(), "https://localhost:8080/");
}

#[test]
fn base_with_a_bad_port_is_refused() {
    assert_eq!(base("host:x"), None);
    assert_eq!(base("host:70000"), None);
    assert_eq!(base("http:///x"), None);
    assert_eq!(base("  host:1 "), Some(("host".into(), 1, None)));
}

#[test]
fn requests_are_written_out() {
    assert_eq!(
        events_request("h"),
        "GET /events HTTP/1.1\r\nHost: h\r\nAccept: text/event-stream\r\nConnection: keep-alive\r\n\r\n"
    );
    assert_eq!(
        post_clip("h", "\u{e9}a"),
        "POST /clip HTTP/1.1\r\nHost: h\r\nContent-Type: text/plain; charset=utf-8\r\nContent-Length: 3\r\nConnection: close\r\n\r\n\u{e9}a"
    );
}

#[test]
fn stream_is_cut_into_events() {
    let mut s = SseStream::new();
    assert!(s.feed(b"HTTP/1.1 200 OK\r\nX: y\r\n").is_empty());
    assert!(s.feed(b"\r\nretry: 3000\n: connected\n\nevent: cl").len() == 1);
    let got = s.feed(b"ip\nid: 4\ndata: a\r\ndata:b\n\nevent");
    assert_eq!(got.len(), 1);
    assert_eq!(got[0].event.as_deref(), Some("clip"));
    assert_eq!(got[0].id.as_deref(), Some("4"));
    assert_eq!(got[0].data, ["a", "b"]);
}

#[test]
fn published_clips_arrive_and_replays_do_not() {
    let mut log = ClipLog::new();
    let e = log.publish("two\nlines").unwrap();
    let mut stream = SseStream::new();
    assert!(stream.feed(b"\r\n\r\n").is_empty());
    let mut guard = Guard::new();
    let mut got = stream.feed(e.encode().as_bytes());
    match guard.dispatch(got.remove(0)) {
        Dispatch::Apply(t) => assert_eq!(t, "two\nlines"),
        _ => panic!("not applied"),
    }
    assert!(!guard.offer("two\nlines"), "an applied clip is not sent back");
    let mut again = stream.feed(log.backfill()[0].encode().as_bytes());
    assert!(matches!(guard.dispatch(again.remove(0)), Dispatch::Ignore), "a replay is not applied");
}

fn clip(id: Option<&str>, text: &str) -> SseEvent {
    SseEvent {
        event: Some("clip".to_string()),
        id: id.map(|s| s.to_string()),
        data: text.split('\n').map(|s| s.to_string()).collect(),
    }
}

#[test]
fn echo_guard_rules() {
    let mut g = Guard::new();
    g.settle("already here".to_string());
    assert!(!g.offer("already here"));
    assert!(g.offer("new"));
    assert!(matches!(g.dispatch(clip(None, "new")), Dispatch::Ignore), "the echo of a sent clip");
    assert!(matches!(g.dispatch(clip(Some("5"), "x")), Dispatch::Apply(_)));
    assert!(matches!(g.dispatch(clip(Some("5"), "y")), Dispatch::Ignore), "same id");
    assert!(matches!(g.dispatch(clip(Some("-3"), "y")), Dispatch::Ignore), "lower id");
    assert!(matches!(g.dispatch(clip(Some("6"), "")), Dispatch::Ignore), "empty");
    assert!(matches!(g.dispatch(clip(Some("6"), "z")), Dispatch::Ignore), "its id was seen");
    assert!(matches!(g.dispatch(clip(Some("junk"), "z")), Dispatch::Apply(_)));
    let presence = SseEvent {
        event: Some("presence".to_string()),
        id: None,
        data: vec!["{\"count\":2}".to_string()],
    };
    assert!(matches!(g.dispatch(presence), Dispatch::Presence(2)));
    assert!(matches!(g.dispatch(SseEvent::new()), Dispatch::Ignore));
}

#[test]
fn activity_is_capped_and_counted() {
    let mut s = SyncState::new();
    assert!(s.can_record());
    for i in 0..25 {
        s.record(&format!("c{i}"), i % 2 == 0);
    }
    assert_eq!(s.recent.len(), 20);
    assert_eq!(s.recent[0].text, "c5");
    assert_eq!((s.received, s.sent), (13, 12));
    s.set_connected(true);
    s.set_error(Some("e".to_string()));
    assert!(s.connected);
    assert_eq!(s.error.as_deref(), Some("e"));
    let shown: Vec<ClipLine> = snapshot(&s.recent);
    assert_eq!(shown.len(), 12);
    assert_eq!(shown[0].text, "c24");
    assert_eq!(shown[11].text, "c13");
}

#[test]
fn labels_hide_image_data() {
    assert_eq!(label("data:image/png;base64,AAAA"), "[image]");
    assert_eq!(label("text"), "text");
}

#[test]
fn text_is_preferred_over_an_image() {
    let t = |s: &str| Some(s.to_string());
    assert_eq!(read_clipboard(t("a"), t("img")), t("a"));
    assert_eq!(read_clipboard(t(""), t("img")), t("img"));
    assert_eq!(read_clipboard(None, None), None);
}

#[test]
fn clip_log_keeps_the_latest() {
    let mut log = ClipLog::new();
    assert!(log.has_id());
    for i in 0..22 {
        assert!(log.publish(&format!("c{i}")).is_some());
    }
    let fill = log.backfill();
    assert_eq!(fill.len(), 20);
    assert_eq!(fill[0].encode(), "event: clip\nid: 2\ndata: c2\n\n");
    let mut small = ClipLog::new();
    small.publish("a\"b");
    assert_eq!(small.clips_json(), "{\"clips\":[{\"id\":0,\"text\":\"a\\\"b\"}]}");
    assert!(small.publish(&"x".repeat(1_048_577)).is_none());
    assert!(small.publish(&"x".repeat(1_048_576)).is_some());
    assert_eq!(clip_reply(true).status, 200);
    assert_eq!(clip_reply(false).status, 413);
}

#[test]
fn counts_that_do_not_fit_are_none() {
    assert_eq!(parse_count("{\"count\":}"), None);
    assert_eq!(parse_count("{\"count\":99999999999999999999999}"), None);
    assert_eq!(parse_count("x\"count\":7\"count\":8"), Some(7));
}

#[test]
fn carriage_returns_at_line_ends_are_dropped() {
    let mut s = SseStream::new();
    assert!(s.feed(b"HTTP/1.1 200 OK\r\n\r\n").is_empty());
    let got = s.feed(Event::named("clip", "a\rb\r\nc\r\r\nd").with_id("7").encode().as_bytes());
    assert_eq!(got.len(), 1);
    assert_eq!(got[0].event.as_deref(), Some("clip"));
    assert_eq!(got[0].id.as_deref(), Some("7"));
    assert_eq!(got[0].data, ["a\rb", "c", "d"]);
}

#[test]
fn sender_pauses_after_an_image() {
    let mut m = Mute::new();
    assert!(!m.holds(0));
    m.start(1000);
    assert!(m.holds(1000) && m.holds(1899));
    assert!(!m.holds(1900));
}

#[test]
fn frames_arrive_in_pieces_of_any_size() {
    let text = "h\u{e9}llo\nworld".repeat(40);
    let mut wire = b"HTTP/1.1 200 OK\r\nX: y\r\n\r\n".to_vec();
    wire.extend_from_slice(Event::named("clip", &text).with_id("3").encode().as_bytes());
    wire.extend_from_slice(Event::named("clip", "next").with_id("4").encode().as_bytes());
    for size in [1, 2, 3, 7, 64, wire.len()] {
        let mut s = SseStream::new();
        let got: Vec<SseEvent> = wire.chunks(size).flat_map(|p| s.feed(p)).collect();
        assert_eq!(got.len(), 2, "pieces of {size}");
        assert_eq!(got[0].data.join("\n"), text);
        assert_eq!((got[1].id.as_deref(), got[1].data.len()), (Some("4"), 1));
    }
}

#[test]
fn received_images_do_not_come_back() {
    assert_eq!(apply_clip("plain"), Paste::Text);
    assert_eq!(apply_clip("data:image/png;base64,AA"), Paste::Image);
    let mut guard = Guard::new();
    let mut mute = Mute::new();
    assert!(!image_applied(&mut mute, false, 50), "nothing to read back");
    assert!(!mute.holds(50));
    assert!(image_applied(&mut mute, true, 100));
    assert!(mute.holds(999) && !mute.holds(1000));
    image_read_back(&mut guard, None);
    assert!(guard.offer("data:image/png;base64,BB"));
    image_read_back(&mut guard, Some("data:image/png;base64,CC".to_string()));
    assert!(!guard.offer("data:image/png;base64,CC"));
}
