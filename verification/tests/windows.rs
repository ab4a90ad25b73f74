use znet_core::auth::Credentials;
use znet_core::display::{login_line, snapshot, Mode};
use znet_core::panel::{Panel, Press};
use znet_core::server_info::ServerInfo;
use znet_core::session::{edited_port, row, shot_frame, Session, ShotStep, StartStep};
use znet_core::sync::{parse_base, ClipLine, SyncState};

fn info(ip: Option<&str>, fingerprint: Option<&str>) -> ServerInfo {
    ServerInfo {
        dir: "/d".to_string(),
        port: 9000,
        lan_ip: ip.map(|s| s.to_string()),
        auth_token: None,
        fingerprint: fingerprint.map(|s| s.to_string()),
    }
}

// ---- The file server's panel ----

#[test]
fn panel_starts_and_stops() {
    let mut p = Panel::new("/home/someone/a/rather/long/path/to/Downloads".to_string());
    let v = p.view();
    assert_eq!((v.status, v.button, v.hint), ("Stopped", "Start server", "Start to share over Wi-Fi"));
    assert!(v.editable && v.url.is_none() && v.warning.is_none());
    assert_eq!(v.folder.chars().count(), 34);
    assert!(v.folder.starts_with('\u{2026}') && v.folder.ends_with("/Downloads"));

    p.secure = true;
    p.user = String::new();
    p.pass = "secret".to_string();
    match p.press() {
        Press::Start(req) => {
            assert_eq!(req.port, 8080);
            let c = req.auth.unwrap();
            assert_eq!((c.user.as_str(), c.pass.as_str()), ("zap", "secret"));
        }
        Press::Stop => panic!("nothing runs yet"),
    }
    p.started(Err("port in use".to_string()));
    assert_eq!(p.error.as_deref(), Some("Could not start: port in use"));
    assert!(p.view().editable);

    p.secure = false;
    assert!(matches!(p.press(), Press::Start(req) if req.auth.is_none()));
    assert!(p.error.is_none(), "a new start clears the error");
    p.started(Ok(info(None, None)));
    let v = p.view();
    assert_eq!((v.status, v.button), ("\u{25cf} Server running", "Stop server"));
    assert!(v.warning.unwrap().contains("No Wi-Fi network detected"));
    assert_eq!(v.url.as_deref(), Some("http://localhost:9000/"));
    assert!(!v.editable);
    assert!(matches!(p.press(), Press::Stop));
    assert!(p.running.is_none());

    p.started(Ok(info(Some("10.0.0.2"), None)));
    assert!(p.view().warning.is_none());
}

#[test]
fn login_is_announced() {
    let c = Credentials { user: "me".to_string(), pass: "pw".to_string() };
    assert_eq!(login_line(&c), "Login required \u{2014} me / pw\n");
}

// ---- Clipboard sessions ----

#[test]
fn plain_host_syncs_with_itself() {
    let mut s = Session::new(vec![]);
    assert_eq!((s.mode, s.port), (Mode::Host, 8080));
    assert!(matches!(s.start(), StartStep::Host));
    match s.hosted(Ok(info(Some("10.0.0.2"), None))) {
        StartStep::Sync(url) => {
            assert_eq!(url, "127.0.0.1:9000");
            let b = parse_base(&url).unwrap();
            assert_eq!((b.host.as_str(), b.port, b.tls_fp), ("127.0.0.1", 9000, None));
            s.synced(&url, true);
        }
        _ => panic!(),
    }
    assert!(s.syncing && s.hosting.is_some());
    let v = s.running_view(&SyncState::new());
    assert_eq!(v.join_at.as_deref(), Some("http://10.0.0.2:9000/"));
    assert_eq!(v.full_link, None);
    s.stop();
    assert!(!s.syncing && s.hosting.is_none());
}

#[test]
fn encrypted_host_pins_its_own_certificate() {
    let mut s = Session::new(vec![]);
    s.secure = true;
    assert!(matches!(s.start(), StartStep::Certify));
    assert!(matches!(s.certified(Ok("ab12".to_string())), StartStep::Host));
    match s.hosted(Ok(info(Some("10.0.0.2"), Some("ab12")))) {
        StartStep::Sync(url) => {
            let b = parse_base(&url).unwrap();
            assert_eq!((b.host.as_str(), b.port, b.tls_fp.as_deref()), ("127.0.0.1", 9000, Some("ab12")));
            s.synced(&url, true);
        }
        _ => panic!(),
    }
    let v = s.running_view(&SyncState::new());
    assert_eq!(v.join_at.as_deref(), Some("https://10.0.0.2:9000/"));
    assert_eq!(v.full_link.as_deref(), Some("https://10.0.0.2:9000/?fp=ab12"));
    s.stop();
    assert!(s.fingerprint.is_none());
}

#[test]
fn sessions_say_why_they_did_not_start() {
    let mut s = Session::new(vec![]);
    s.secure = true;
    s.start();
    assert!(matches!(s.certified(Err("no entropy".to_string())), StartStep::Failed));
    assert_eq!(s.error.as_deref(), Some("Encryption setup failed: no entropy"));
    assert!(matches!(s.hosted(Err("in use".to_string())), StartStep::Failed));
    assert_eq!(s.error.as_deref(), Some("Could not host: in use"));

    s.mode = Mode::Join;
    s.peer_url = "  ".to_string();
    assert!(matches!(s.start(), StartStep::Failed));
    assert_eq!(s.error.as_deref(), Some("Enter the host's URL (from its Zulu window)."));
    s.peer_url = " http://h:x ".to_string();
    match s.start() {
        StartStep::Sync(url) => {
            assert_eq!(url, "http://h:x");
            assert!(s.error.is_none());
            s.synced(&url, parse_base(&url).is_some());
        }
        _ => panic!(),
    }
    assert!(!s.syncing);
    assert_eq!(s.error.as_deref(), Some("Couldn't parse address: http://h:x"));
}

#[test]
fn running_view_shows_the_latest() {
    let mut s = Session::new(vec!["a\nb".to_string()]);
    assert!(s.pin(&"x".repeat(50)));
    assert!(!s.pin("a\nb"), "already pinned");
    let mut state = SyncState::new();
    state.set_connected(true);
    state.presence = 3;
    for i in 0..14 {
        state.record(&format!("clip {i}"), i % 2 == 0);
    }
    let v = s.running_view(&state);
    assert_eq!((v.status.as_str(), v.paired.as_str()), ("Connected", "3 device(s) paired"));
    assert!(v.connected);
    assert_eq!((v.sent, v.received), (7, 7));
    assert_eq!(v.pins, ["a b".to_string(), format!("{}\u{2026}", "x".repeat(44))]);
    assert_eq!(v.clips.len(), 12);
    assert_eq!(v.clips[0].text, "clip 13");
    assert_eq!(v.error, None);
    state.set_error(Some("gone".to_string()));
    assert_eq!(s.running_view(&state).error.as_deref(), Some("gone"));
    s.error = Some("mine".to_string());
    assert_eq!(s.running_view(&state).error.as_deref(), Some("mine"));
    s.unpin(0);
    assert_eq!(s.pins.len(), 1);
    assert_eq!(s.running_view(&SyncState::new()).status, "Connecting...");
}

#[test]
fn snapshots_put_the_newest_first() {
    let line = |t: &str| ClipLine { text: t.to_string(), incoming: true };
    let v = snapshot(&[line("old"), line("new")]);
    assert_eq!((v[0].text.as_str(), v[1].text.as_str()), ("new", "old"));
}

#[test]
fn port_field_ignores_what_is_no_port() {
    assert_eq!(edited_port(8080, "9000"), 9000);
    assert_eq!(edited_port(8080, "70000"), 8080);
    assert_eq!(edited_port(8080, ""), 8080);
    assert_eq!(edited_port(8080, "80x"), 8080);
}

#[test]
fn rows_are_one_short_line() {
    assert_eq!(row("a\nbc", 3), "a b\u{2026}");
    assert_eq!(row("a\nb", 3), "a b");
}

#[test]
fn automatic_start_happens_once() {
    let mut s = Session::new(vec![]);
    assert!(!s.autohost(false, true));
    assert!(!s.secure);
    assert!(s.autohost(true, true));
    assert!(s.secure);
    assert!(!s.autohost(true, false));
    assert!(s.secure);
}

#[test]
fn pictures_are_taken_in_the_fourth_frame() {
    let mut frames = 0;
    assert_eq!(shot_frame(&mut frames, true), ShotStep::Start);
    assert_eq!(shot_frame(&mut frames, true), ShotStep::Draw);
    assert_eq!(shot_frame(&mut frames, true), ShotStep::Draw);
    assert_eq!(shot_frame(&mut frames, true), ShotStep::Capture);
    assert_eq!(shot_frame(&mut frames, true), ShotStep::Draw);
    let mut frames = 0;
    assert_eq!(shot_frame(&mut frames, false), ShotStep::Draw);
    assert_eq!(frames, 1);
}
