use znet_core::adb::{
    resolve_device, transport_name, AdbTransport, Candidate, Device, RemoteEntry, TransportKind,
};
use znet_core::display::{
    banner_with, cmd_devices, cmd_ls, form_credentials, host_sans, one_line, own_address,
    paired_credentials, peer_address, print_banner, serve_credentials, server_button,
    session_button, start_label, truncate, truncate_path, Mode,
};
use znet_core::qr::{qr_image, qr_pixels, render_qr, QrModules};
use znet_core::server_info::ServerInfo;
use znet_core::stats::{Change, Direction, Stats};
use znet_core::status_json::{status_json, transfers_json, GetStatus};
use znet_core::tls::{
    fingerprint_hex, hex_string, identity_of, material_of, pin_matches, pin_matches_any_case,
    self_signed, server_identity, Generated, PrivateKey, TlsError, TlsMaterial,
};

fn device(id: &str, state: &str) -> Device {
    Device { id: id.to_string(), label: None, state: state.to_string() }
}

fn candidate(path: &str, exists: bool) -> Option<Candidate> {
    Some(Candidate { path: path.to_string(), exists })
}

#[test]
fn device_lists_are_read() {
    let out = "List of devices attached\nemulator-5554\tdevice\n1234abcd\tunauthorized\n\nodd\n";
    let d = AdbTransport::list_devices(out);
    assert_eq!(d.len(), 2);
    assert_eq!((d[0].id.as_str(), d[0].state.as_str()), ("emulator-5554", "device"));
    assert_eq!((d[1].id.as_str(), d[1].state.as_str()), ("1234abcd", "unauthorized"));
    assert!(AdbTransport::list_devices("").is_empty());
    assert_eq!(AdbTransport::devices_args(), ["devices"]);
}

#[test]
fn directory_lists_are_read() {
    let e = AdbTransport::list_dir("Music/\r\r\nnote.txt\n/\n\n");
    assert_eq!(e.len(), 2);
    assert_eq!((e[0].name.as_str(), e[0].is_dir, e[0].size), ("Music", true, None));
    assert_eq!((e[1].name.as_str(), e[1].is_dir), ("note.txt", false));
    assert_eq!(
        AdbTransport::list_dir_args("d", "/p"),
        ["-s", "d", "shell", "ls", "-1", "-p", "/p"]
    );
    assert_eq!(AdbTransport::pull_args("d", "/r", "l"), ["-s", "d", "pull", "-a", "/r", "l"]);
    assert_eq!(AdbTransport::push_args("d", "l", "/r"), ["-s", "d", "push", "l", "/r"]);
}

#[test]
fn the_program_is_located() {
    assert_eq!(AdbTransport::locate(candidate("/x", true), None).unwrap_or_else(|e| panic!("{e}")).adb, "/x");
    assert_eq!(
        AdbTransport::locate(candidate("/x", false), candidate("/y", true)).err().unwrap(),
        "ZAP_ADB points to /x, which does not exist"
    );
    assert_eq!(AdbTransport::locate(None, candidate("/y", true)).ok().unwrap().adb, "/y");
    assert_eq!(AdbTransport::locate(None, candidate("/y", false)).ok().unwrap().adb, "adb");
    assert_eq!(AdbTransport::locate(None, None).ok().unwrap().adb, "adb");
    assert_eq!(transport_name(TransportKind::Adb), "adb");
}

#[test]
fn runs_that_fail_say_why() {
    let t = AdbTransport { adb: "adb".to_string() };
    assert!(t.spawn_error(true, "").starts_with("could not run adb (looked for `adb`).\nInstall it with:"));
    assert_eq!(t.spawn_error(false, "denied"), "failed to run `adb`: denied");
    let args = AdbTransport::pull_args("d", "/r", "l");
    assert_eq!(AdbTransport::capture(&args, true, b"out", b""), Ok("out".to_string()));
    assert_eq!(
        AdbTransport::capture(&args, false, b"", b" oops\xff \n"),
        Err("adb -s d pull -a /r l failed: oops\u{fffd}".to_string())
    );
    assert_eq!(
        AdbTransport::run_failed(&args, "exit status: 1"),
        "adb -s d pull -a /r l failed with exit status: 1"
    );
}

#[test]
fn one_ready_device_is_chosen() {
    let list = [device("a", "unauthorized"), device("b", "device")];
    assert_eq!(resolve_device(None, &list, "adb"), Ok("b".to_string()));
    assert_eq!(resolve_device(Some("z"), &list, "adb"), Ok("z".to_string()));
    assert_eq!(
        resolve_device(None, &list[..1], "adb"),
        Err("no ready devices found via adb. Connect a device (and authorize USB debugging), or pass --device.".to_string())
    );
    let many = [device("a", "device"), device("b", "device")];
    assert_eq!(
        resolve_device(None, &many, "adb"),
        Err("multiple devices connected; pass --device <id>. Available: a, b".to_string())
    );
}

#[test]
fn device_commands_print() {
    assert_eq!(cmd_devices(&[], "adb"), "No devices found via adb.\n");
    let mut labelled = device("b", "offline");
    labelled.label = Some("Pixel".to_string());
    assert_eq!(cmd_devices(&[device("a", "device"), labelled], "adb"), "a\tdevice\nb\toffline\tPixel\n");
    let e = |name: &str, is_dir| RemoteEntry { name: name.to_string(), is_dir, size: None };
    assert_eq!(cmd_ls(&[e("d", true), e("f", false)]), "d/\nf\n");
}

#[test]
fn texts_are_shortened() {
    assert_eq!(truncate("h\u{e9}llo", 5), "h\u{e9}llo");
    assert_eq!(truncate("h\u{e9}llo", 2), "h\u{e9}\u{2026}");
    assert_eq!(truncate_path("/a/b/c", 6), "/a/b/c");
    assert_eq!(truncate_path("/a/b/c", 4), "\u{2026}b/c");
    assert_eq!(truncate_path("", 0), "");
    assert_eq!(truncate_path("ab", 1), "\u{2026}");
    assert_eq!(one_line("a\nb"), "a b");
}

#[test]
fn labels_and_addresses() {
    assert_eq!(start_label(Mode::Host), "Start hosting");
    assert_eq!(session_button(false, Mode::Join), "Connect");
    assert_eq!(session_button(true, Mode::Join), "Stop sync");
    assert_eq!(server_button(true), "Stop server");
    assert_eq!(server_button(false), "Start server");
    assert_eq!(host_sans(Some("1.2.3.4")), ["1.2.3.4", "localhost", "127.0.0.1"]);
    assert_eq!(host_sans(None), ["localhost", "127.0.0.1"]);
    assert_eq!(own_address(8080, None), "127.0.0.1:8080");
    assert_eq!(own_address(8080, Some("ab")), "https://127.0.0.1:8080?fp=ab");
    assert_eq!(peer_address(" h "), Ok("h".to_string()));
    assert!(peer_address("  ").is_err());
}

#[test]
fn credentials_have_defaults() {
    let s = |t: &str| Some(t.to_string());
    assert!(serve_credentials(false, None, None).is_none());
    let c = serve_credentials(false, s("me"), None).unwrap();
    assert_eq!((c.user.as_str(), c.pass.as_str()), ("me", "zap"));
    let c = serve_credentials(true, None, None).unwrap();
    assert_eq!((c.user.as_str(), c.pass.as_str()), ("zap", "zap"));
    assert!(form_credentials(false, "a", "b").is_none());
    let c = form_credentials(true, "", "b").unwrap();
    assert_eq!((c.user.as_str(), c.pass.as_str()), ("zap", "b"));
    assert!(paired_credentials(s("a"), None).is_none());
    assert!(paired_credentials(s("a"), s("")).is_none());
    assert!(paired_credentials(s("a"), s("b")).is_some());
}

fn info() -> ServerInfo {
    ServerInfo {
        dir: "/share".to_string(),
        port: 8080,
        lan_ip: Some("10.0.0.2".to_string()),
        auth_token: Some("tok".to_string()),
        fingerprint: None,
    }
}

#[test]
fn banners() {
    let b = print_banner(&info());
    assert!(b.starts_with("\u{26a1} Zap \u{2014} sharing /share\n\n\u{2713} Reachable at  http://10.0.0.2:8080/\n"));
    assert!(b.contains(&render_qr("http://10.0.0.2:8080/?k=tok").unwrap()));
    assert!(b.contains("signs in automatically"));
    assert!(b.ends_with("Press Ctrl-C to stop.\n"));
    let mut lone = info();
    lone.lan_ip = None;
    let b = print_banner(&lone);
    assert!(b.contains("Serving on port 8080; find this machine's Wi-Fi IP and open http://<ip>:8080/\n"));
    assert_eq!(b, banner_with(&lone, None));
}

#[test]
fn qr_codes_are_drawn() {
    let text = render_qr("hi").unwrap();
    assert!(text.contains('\u{2588}'));
    // The smallest code is 21 modules wide.
    let i = qr_image("hi").unwrap();
    assert_eq!(i.dim, (21 + 8) * 6);
    assert_eq!(i.black.len(), i.dim * i.dim);
    assert!(!i.black[0], "the border is light");
    let corner = 4 * 6 * i.dim + 4 * 6;
    assert!(i.black[corner], "the finder pattern starts with a dark module");
    assert!(qr_image(&"x".repeat(5000)).is_none(), "too long");
    assert!(render_qr(&"x".repeat(5000)).is_none());
}

#[test]
fn modules_become_squares() {
    let m = QrModules { width: 2, dark: vec![false, true, false, false] };
    let i = qr_pixels(&m);
    assert_eq!(i.dim, 60);
    let black: usize = i.black.iter().filter(|b| **b).count();
    assert_eq!(black, 36);
    assert!(i.black[24 * 60 + 30] && i.black[29 * 60 + 35]);
    assert!(!i.black[24 * 60 + 29] && !i.black[30 * 60 + 30]);
}

#[test]
fn transfers_as_json() {
    let mut stats = Stats::new(None);
    let id = stats.begin("a\"b", Direction::Upload, None, "/p");
    stats.change(id, Change::Finish);
    stats.begin("c", Direction::Download, Some(9), "");
    assert_eq!(
        transfers_json(stats.transfers()),
        "[{\"id\":0,\"name\":\"a\\\"b\",\"path\":\"/p\",\"dir\":\"up\",\"done\":0,\"total\":null,\"finished\":true,\"ok\":false,\"verified\":false,\"fast\":false},{\"id\":1,\"name\":\"c\",\"path\":\"\",\"dir\":\"down\",\"done\":0,\"total\":9,\"finished\":false,\"ok\":false,\"verified\":false,\"fast\":false}]"
    );
    assert_eq!(transfers_json(&[]), "[]");
}

#[test]
fn download_status_as_json() {
    assert_eq!(
        status_json(&GetStatus::BadHandle),
        "{\"running\":false,\"ok\":false,\"error\":\"bad handle\"}"
    );
    assert_eq!(status_json(&GetStatus::Running(1, 2)), "{\"running\":true,\"done\":1,\"total\":2}");
    assert_eq!(
        status_json(&GetStatus::Done(5, true, false, "f".to_string())),
        "{\"running\":false,\"ok\":true,\"done\":5,\"total\":5,\"fast\":true,\"verified\":false,\"name\":\"f\"}"
    );
    assert_eq!(
        status_json(&GetStatus::Failed("e".to_string())),
        "{\"running\":false,\"ok\":false,\"error\":\"e\"}"
    );
}

// ---- TLS ----

#[test]
fn fingerprints_are_sha256() {
    let f = "ba7816bf8f01cfea414140de5dae2223b00361a396177a9cb410ff61f20015ad";
    assert_eq!(fingerprint_hex(b"abc"), f);
    assert!(pin_matches(f, b"abc"));
    assert!(!pin_matches(f, b"abd"));
    assert!(!pin_matches(&f.to_uppercase(), b"abc"));
    assert!(pin_matches_any_case(&f.to_uppercase(), b"abc"));
    assert_eq!(hex_string(&[0, 255, 16]), "00ff10");
}

#[test]
fn a_host_presents_the_certificate_it_pins() {
    let m = self_signed(host_sans(Some("192.168.1.9"))).expect("certificate");
    let id = server_identity(&m).ok().expect("identity");
    assert_eq!(id.certs.len(), 1);
    assert!(pin_matches(&m.fingerprint, &id.certs[0]));
    assert!(matches!(id.key, PrivateKey::Pkcs8(_)));
    let holds = |name: &[u8]| id.certs[0].windows(name.len()).any(|w| w == name);
    assert!(holds(b"localhost") && holds(&[192, 168, 1, 9]), "made out to the host's names");
    let other = self_signed(host_sans(None)).expect("certificate");
    assert_ne!(m.fingerprint, other.fingerprint);
}

#[test]
fn unusable_material() {
    let good = self_signed(host_sans(None)).expect("certificate");
    let material = |cert: &[u8], key: &[u8]| TlsMaterial {
        cert_pem: cert.to_vec(),
        key_pem: key.to_vec(),
        fingerprint: String::new(),
    };
    let check = |m: TlsMaterial| server_identity(&m).err();
    assert_eq!(check(material(b"", &good.key_pem)), Some(TlsError::NoCert));
    assert_eq!(check(material(&good.cert_pem, b"")), Some(TlsError::NoKey));
    let broken = b"-----BEGIN CERTIFICATE-----\nAAAA\n";
    assert_eq!(check(material(broken, &good.key_pem)), Some(TlsError::BadCertPem));
    assert_eq!(check(material(&good.cert_pem, broken)), Some(TlsError::BadKeyPem));
    assert_eq!(identity_of(None, None).err(), Some(TlsError::BadCertPem));
    assert_eq!(TlsError::BadCertPem.message(), "parsing fast-lane certificate PEM");
    assert_eq!(TlsError::NoCert.message(), "no certificate found in TLS material");
    assert_eq!(TlsError::BadKeyPem.message(), "parsing fast-lane private key PEM");
    assert_eq!(TlsError::NoKey.message(), "no private key found in TLS material");
}

#[test]
fn names_that_no_certificate_can_hold() {
    let e = self_signed(vec!["\u{e9}".to_string()]).err().expect("refused");
    assert!(e.starts_with("generating self-signed cert: "));
}

#[test]
fn material_keeps_what_was_generated() {
    let m = material_of(Generated {
        der: b"abc".to_vec(),
        cert_pem: "C".to_string(),
        key_pem: "K".to_string(),
    });
    assert_eq!((m.cert_pem.as_slice(), m.key_pem.as_slice()), (&b"C"[..], &b"K"[..]));
    assert!(pin_matches(&m.fingerprint, b"abc"));
}
