//! What user interfaces show and ask for: labels, shortened texts, banners, and the defaults behind
//! their forms.

use vstd::prelude::*;
use vstd::string::*;
use crate::adb::{device_texts, entry_texts, Device, DeviceText, EntryText, RemoteEntry};
use crate::auth::Credentials;
use crate::num::{dec, push_dec};
use crate::qr::{qr_unicode_of, render_qr};
use crate::server_info::{share_query, ServerInfo};
use crate::sync::{clips, Clip, ClipLine};
use crate::text::{chars_of, join, part, push_chars, string_of, texts, trim, trimmed, unlines};
use crate::url::{opt_str, opt_text};
use vstd::utf8::*;

verus! {

// ---- Shortened texts ----

/// A text of at most `max` characters, or its beginning with an ellipsis.
pub open spec fn truncated(s: Seq<char>, max: nat) -> Seq<char> {
    if s.len() <= max {
        s
    } else {
        s.take(max as int).push('…')
    }
}

/// Shorten a text at its end.
pub fn truncate(s: &str, max: usize) -> (r: String)
    ensures
        r@ == truncated(s@, max as nat),
{
    let t = chars_of(s);
    if t.len() <= max {
        string_of(&t)
    } else {
        let head = part(&t, 0, max);
        assert(head@ =~= s@.take(max as int));
        let mut r = string_of(&head);
        r.push('…');
        r
    }
}

/// A text of at most `max` characters, or an ellipsis with its end.
pub open spec fn truncated_path(s: Seq<char>, max: nat) -> Seq<char> {
    if s.len() <= max {
        s
    } else {
        seq!['…'] + s.skip(s.len() - (max - 1))
    }
}

/// Shorten a path at its start.
pub fn truncate_path(s: &str, max: usize) -> (r: String)
    requires
        max > 0 || s@.len() == 0,
    ensures
        r@ == truncated_path(s@, max as nat),
        r@.len() <= max,
{
    let t = chars_of(s);
    if t.len() <= max {
        string_of(&t)
    } else {
        let tail = part(&t, t.len() - (max - 1), t.len());
        assert(tail@ =~= s@.skip(s@.len() - (max - 1)));
        let mut r = String::new();
        r.push('…');
        push_chars(&mut r, &tail);
        assert(r@ =~= truncated_path(s@, max as nat));
        r
    }
}

/// A text with its newlines shown as spaces.
pub fn one_line(s: &str) -> (r: String)
    ensures
        r@ == crate::text::replace_char(s@, '\n', seq![' ']),
{
    assert([' ']@ =~= seq![' ']);
    string_of(&crate::text::replaced(&chars_of(s), '\n', &[' ']))
}

// ---- Forms ----

/// Whether this device hosts a session or joins one.
#[derive(Clone, Copy, Debug, PartialEq, Eq, Structural)]
pub enum Mode {
    Host,
    Join,
}

/// The label of the button that starts a session.
pub fn start_label(mode: Mode) -> (r: &'static str)
    ensures
        r@ == (match mode {
            Mode::Host => "Start hosting"@,
            Mode::Join => "Connect"@,
        }),
{
    match mode {
        Mode::Host => "Start hosting",
        Mode::Join => "Connect",
    }
}

/// The label of the button that starts or stops a session.
pub fn session_button(running: bool, mode: Mode) -> (r: &'static str)
    ensures
        r@ == (if running {
            "Stop sync"@
        } else {
            match mode {
                Mode::Host => "Start hosting"@,
                Mode::Join => "Connect"@,
            }
        }),
{
    if running {
        "Stop sync"
    } else {
        start_label(mode)
    }
}

/// The label of the button that starts or stops the file server.
pub fn server_button(running: bool) -> (r: &'static str)
    ensures
        r@ == (if running {
            "Stop server"@
        } else {
            "Start server"@
        }),
{
    if running {
        "Stop server"
    } else {
        "Start server"
    }
}

/// Names for the certificate of a host: its address on the network, if known, then the loopback
/// names that its own client uses.
pub fn host_sans(lan_ip: Option<&str>) -> (v: Vec<String>)
    ensures
        texts(v@) == (match opt_str(lan_ip) {
            Some(ip) => seq![ip, "localhost"@, "127.0.0.1"@],
            None => seq!["localhost"@, "127.0.0.1"@],
        }),
{
    let mut v: Vec<String> = Vec::new();
    if let Some(ip) = lan_ip {
        v.push(ip.to_owned());
    }
    v.push("localhost".to_owned());
    v.push("127.0.0.1".to_owned());
    assert(texts(v@) =~= (match opt_str(lan_ip) {
        Some(ip) => seq![ip, "localhost"@, "127.0.0.1"@],
        None => seq!["localhost"@, "127.0.0.1"@],
    }));
    v
}

/// The address at which a host's own client reaches it.
pub open spec fn own_address_text(port: nat, fingerprint: Option<Seq<char>>) -> Seq<char> {
    match fingerprint {
        Some(fp) => "https://127.0.0.1:"@ + dec(port) + "?fp="@ + fp,
        None => "127.0.0.1:"@ + dec(port),
    }
}

/// The address at which a host's own client reaches it: over loopback, with its scheme and its
/// fingerprint.
pub fn own_address(port: u16, fingerprint: Option<&str>) -> (r: String)
    ensures
        r@ == own_address_text(port as nat, opt_str(fingerprint)),
{
    let mut r = String::new();
    match fingerprint {
        Some(fp) => {
            r.append("https://127.0.0.1:");
            push_dec(&mut r, port as u64);
            r.append("?fp=");
            r.append(fp);
            assert(r@ =~= "https://127.0.0.1:"@ + dec(port as nat) + "?fp="@ + fp@);
        },
        None => {
            r.append("127.0.0.1:");
            push_dec(&mut r, port as u64);
            assert(r@ =~= "127.0.0.1:"@ + dec(port as nat));
        },
    }
    r
}

/// The address to join: what was typed, without white space round it.
pub fn peer_address(typed: &str) -> (r: Result<String, String>)
    ensures
        match r {
            Ok(url) => url@ == trim(typed@) && url@.len() > 0,
            Err(e) => trim(typed@).len() == 0 && e@
                == "Enter the host's URL (from its Zulu window)."@,
        },
{
    let t = trimmed(&chars_of(typed));
    if t.len() == 0 {
        Err("Enter the host's URL (from its Zulu window).".to_owned())
    } else {
        Ok(string_of(&t))
    }
}

/// A text, or `zap` when it is missing.
pub open spec fn or_zap(s: Option<Seq<char>>) -> Seq<char> {
    match s {
        Some(t) => t,
        None => "zap"@,
    }
}

/// The credentials that the command line asks for: any of its login flags secures the server, and
/// what is not given is `zap`.
pub fn serve_credentials(secure: bool, user: Option<String>, pass: Option<String>) -> (r: Option<
    Credentials,
>)
    ensures
        match r {
            Some(c) => {
                &&& secure || user is Some || pass is Some
                &&& c.user@ == or_zap(opt_text(user))
                &&& c.pass@ == or_zap(opt_text(pass))
            },
            None => !secure && user is None && pass is None,
        },
{
    if secure || user.is_some() || pass.is_some() {
        let user = match user {
            Some(u) => u,
            None => "zap".to_owned(),
        };
        let pass = match pass {
            Some(p) => p,
            None => "zap".to_owned(),
        };
        Some(Credentials { user, pass })
    } else {
        None
    }
}

/// The line that tells of the login of a secured server.
pub fn login_line(c: &Credentials) -> (r: String)
    ensures
        r@ == "Login required — "@ + c.user@ + " / "@ + c.pass@ + "\n"@,
{
    let mut r = "Login required — ".to_owned();
    r.append(c.user.as_str());
    r.append(" / ");
    r.append(c.pass.as_str());
    r.append("\n");
    r
}

/// The credentials that the window asks for: an empty field is `zap`.
pub fn form_credentials(secure: bool, user: &str, pass: &str) -> (r: Option<Credentials>)
    ensures
        match r {
            Some(c) => {
                &&& secure
                &&& c.user@ == (if user@.len() == 0 {
                    "zap"@
                } else {
                    user@
                })
                &&& c.pass@ == (if pass@.len() == 0 {
                    "zap"@
                } else {
                    pass@
                })
            },
            None => !secure,
        },
{
    if !secure {
        return None;
    }
    let user = if user.is_empty() {
        "zap".to_owned()
    } else {
        user.to_owned()
    };
    let pass = if pass.is_empty() {
        "zap".to_owned()
    } else {
        pass.to_owned()
    };
    Some(Credentials { user, pass })
}

/// The credentials that the phone app asks for: both or none, and an empty one is none.
pub fn paired_credentials(user: Option<String>, pass: Option<String>) -> (r: Option<Credentials>)
    ensures
        match r {
            Some(c) => {
                &&& opt_text(user) == Some(c.user@) && c.user@.len() > 0
                &&& opt_text(pass) == Some(c.pass@) && c.pass@.len() > 0
            },
            None => !(user matches Some(u) && u@.len() > 0) || !(pass matches Some(p) && p@.len()
                > 0),
        },
{
    match (user, pass) {
        (Some(user), Some(pass)) => {
            if user.as_str().is_empty() || pass.as_str().is_empty() {
                None
            } else {
                Some(Credentials { user, pass })
            }
        },
        _ => None,
    }
}

/// The most clips that the window shows.
pub const SHOWN_CLIPS: usize = 12;

/// The clips that the window shows: the latest first.
pub open spec fn shown(l: Seq<Clip>) -> Seq<Clip> {
    let r = l.reverse();
    if r.len() > SHOWN_CLIPS {
        r.take(SHOWN_CLIPS as int)
    } else {
        r
    }
}

/// Pick the clips that the window shows.
pub fn snapshot(recent: &[ClipLine]) -> (v: Vec<ClipLine>)
    ensures
        clips(v@) == shown(clips(recent@)),
{
    let mut v: Vec<ClipLine> = Vec::new();
    let ghost r = clips(recent@).reverse();
    let n: usize = recent.len();
    let mut i: usize = 0;
    while i < n && i < SHOWN_CLIPS
        invariant
            n == recent@.len(),
            r == clips(recent@).reverse(),
            i <= n,
            i <= SHOWN_CLIPS,
            clips(v@) == r.take(i as int),
        decreases n - i,
    {
        let ghost before = v@;
        let c = &recent[n - 1 - i];
        let line = ClipLine { text: c.text.clone(), incoming: c.incoming };
        v.push(line);
        assert(clips(v@) =~= clips(before).push(line@));
        assert(r[i as int] == line@);
        i = i + 1;
    }
    assert(clips(v@) =~= shown(clips(recent@)));
    v
}

// ---- Terminal output ----

/// Lines of output, each with its newline.
pub open spec fn device_lines(l: Seq<DeviceText>) -> Seq<char>
    decreases l.len(),
{
    if l.len() == 0 {
        Seq::empty()
    } else {
        let d = l.last();
        device_lines(l.drop_last()) + d.id + "\t"@ + d.state + (match d.label {
            Some(label) => "\t"@ + label,
            None => Seq::empty(),
        }) + "\n"@
    }
}

/// What the device command prints.
pub fn cmd_devices(devices: &[Device], transport: &str) -> (r: String)
    ensures
        r@ == (if devices@.len() == 0 {
            "No devices found via "@ + transport@ + ".\n"@
        } else {
            device_lines(device_texts(devices@))
        }),
{
    let mut r = String::new();
    if devices.len() == 0 {
        r.append("No devices found via ");
        r.append(transport);
        r.append(".\n");
        assert(r@ =~= "No devices found via "@ + transport@ + ".\n"@);
        return r;
    }
    let ghost l = device_texts(devices@);
    let mut i: usize = 0;
    assert(l.take(0) =~= Seq::<DeviceText>::empty());
    while i < devices.len()
        invariant
            i <= devices@.len(),
            l == device_texts(devices@),
            r@ == device_lines(l.take(i as int)),
        decreases devices@.len() - i,
    {
        assert(l.take(i + 1).drop_last() =~= l.take(i as int));
        assert(l.take(i + 1).last() == devices@[i as int]@);
        r.append(devices[i].id.as_str());
        r.append("\t");
        r.append(devices[i].state.as_str());
        if let Some(label) = &devices[i].label {
            r.append("\t");
            r.append(label.as_str());
        }
        r.append("\n");
        assert(r@ =~= device_lines(l.take(i + 1)));
        i = i + 1;
    }
    assert(l.take(i as int) =~= l);
    r
}

/// The lines of a directory listing: a slash marks a directory.
pub open spec fn entry_lines(l: Seq<EntryText>) -> Seq<char>
    decreases l.len(),
{
    if l.len() == 0 {
        Seq::empty()
    } else {
        entry_lines(l.drop_last()) + l.last().name + (if l.last().is_dir {
            "/"@
        } else {
            Seq::empty()
        }) + "\n"@
    }
}

/// What the listing command prints.
pub fn cmd_ls(entries: &[RemoteEntry]) -> (r: String)
    ensures
        r@ == entry_lines(entry_texts(entries@)),
{
    let mut r = String::new();
    let ghost l = entry_texts(entries@);
    let mut i: usize = 0;
    assert(l.take(0) =~= Seq::<EntryText>::empty());
    while i < entries.len()
        invariant
            i <= entries@.len(),
            l == entry_texts(entries@),
            r@ == entry_lines(l.take(i as int)),
        decreases entries@.len() - i,
    {
        assert(l.take(i + 1).drop_last() =~= l.take(i as int));
        assert(l.take(i + 1).last() == entries@[i as int]@);
        r.append(entries[i].name.as_str());
        if entries[i].is_dir {
            r.append("/");
        }
        r.append("\n");
        assert(r@ =~= entry_lines(l.take(i + 1)));
        i = i + 1;
    }
    assert(l.take(i as int) =~= l);
    r
}

/// The connection details of a server that has just started, given the QR code of its share link.
pub open spec fn banner(info: ServerInfo, qr: Option<Seq<char>>) -> Seq<char> {
    "⚡ Zap — sharing "@ + info.dir@ + "\n\n"@ + (match opt_text(info.lan_ip) {
        Some(ip) => "✓ Reachable at  "@ + info.url_spec() + "\n  (this device: "@ + ip + ", port "@
            + dec(info.port as nat) + ")\n\nOpen that URL on the other device (same Wi-Fi):\n"@ + (
        match qr {
            Some(q) => "\n"@ + q + "\n"@,
            None => Seq::empty(),
        }) + (if info.auth_token is Some {
            "(Scanning the QR signs in automatically — no password typing.)\n"@
        } else {
            Seq::empty()
        }),
        None =>
            "⚠ No Wi-Fi/LAN IP detected — connect to Wi-Fi (not just a cable/hotspot).\nServing on port "@
                + dec(info.port as nat) + "; find this machine's Wi-Fi IP and open http://<ip>:"@
                + dec(info.port as nat) + "/\n"@,
    })
        + "\nBoth devices must be on the same Wi-Fi. If it won't connect,\nturn off your router's \"AP / client isolation\" setting.\nPress Ctrl-C to stop.\n"@
}

/// Write the connection details of a server, with the QR code of its share link.
pub fn banner_with(info: &ServerInfo, qr: Option<String>) -> (r: String)
    ensures
        r@ == banner(*info, opt_text(qr)),
{
    let mut r = String::new();
    r.append("⚡ Zap — sharing ");
    r.append(info.dir.as_str());
    r.append("\n\n");
    match &info.lan_ip {
        Some(ip) => {
            r.append("✓ Reachable at  ");
            r.append(info.url().as_str());
            r.append("\n  (this device: ");
            r.append(ip.as_str());
            r.append(", port ");
            push_dec(&mut r, info.port as u64);
            r.append(")\n\nOpen that URL on the other device (same Wi-Fi):\n");
            if let Some(q) = &qr {
                r.append("\n");
                r.append(q.as_str());
                r.append("\n");
            }
            if info.auth_token.is_some() {
                r.append("(Scanning the QR signs in automatically — no password typing.)\n");
            }
        },
        None => {
            r.append(
                "⚠ No Wi-Fi/LAN IP detected — connect to Wi-Fi (not just a cable/hotspot).\nServing on port ",
            );
            push_dec(&mut r, info.port as u64);
            r.append("; find this machine's Wi-Fi IP and open http://<ip>:");
            push_dec(&mut r, info.port as u64);
            r.append("/\n");
        },
    }
    r.append(
        "\nBoth devices must be on the same Wi-Fi. If it won't connect,\nturn off your router's \"AP / client isolation\" setting.\nPress Ctrl-C to stop.\n",
    );
    assert(r@ =~= banner(*info, opt_text(qr)));
    r
}

/// Write the connection details of a server that has just started. The QR code carries the pairing
/// key, so that scanning it skips the login.
pub fn print_banner(info: &ServerInfo) -> (r: String)
    ensures
        r@ == banner(
            *info,
            if info.lan_ip is Some {
                qr_unicode_of(
                    encode_utf8(
                        info.url_spec() + share_query(
                            opt_text(info.auth_token),
                            opt_text(info.fingerprint),
                        ),
                    ),
                )
            } else {
                None
            },
        ),
{
    let qr = if info.lan_ip.is_some() {
        render_qr(info.url_with_key().as_str())
    } else {
        None
    };
    banner_with(info, qr)
}

// ---- Laws ----

/// A text that is too long is cut to its first characters and marked by an ellipsis; any other stays
/// as it is.
pub proof fn shortened_texts_keep_their_front(s: Seq<char>, max: nat, i: int)
    requires
        0 <= i < truncated(s, max).len(),
    ensures
        s.len() <= max ==> truncated(s, max).len() == s.len() && truncated(s, max)[i] == s[i],
        s.len() > max ==> truncated(s, max).len() == max + 1,
        s.len() > max && i < max ==> truncated(s, max)[i] == s[i],
        s.len() > max && i == max ==> truncated(s, max)[i] == '…',
{
}

/// A path that is too long is marked by an ellipsis and cut to its last characters, so that it fits;
/// any other stays as it is.
pub proof fn shortened_paths_keep_their_end(s: Seq<char>, max: nat, i: int)
    requires
        0 < max,
        0 <= i < truncated_path(s, max).len(),
    ensures
        s.len() <= max ==> truncated_path(s, max).len() == s.len() && truncated_path(s, max)[i]
            == s[i],
        s.len() > max ==> truncated_path(s, max).len() == max && truncated_path(s, max)[0] == '…',
        s.len() > max && i > 0 ==> truncated_path(s, max)[i] == s[s.len() - max + i],
{
}

/// The window shows the last twelve clips, the newest first.
pub proof fn the_newest_clips_are_shown_first(l: Seq<Clip>, i: int)
    requires
        0 <= i < shown(l).len(),
    ensures
        shown(l).len() == (if l.len() < 12 {
            l.len()
        } else {
            12
        }),
        shown(l)[i] == l[l.len() - 1 - i],
{
}

/// The fields of a device's line.
pub open spec fn device_fields(d: DeviceText) -> Seq<Seq<char>> {
    match d.label {
        Some(label) => seq![d.id, d.state, label],
        None => seq![d.id, d.state],
    }
}

/// Every device is a line of its own: its id, its state and its label if it has one, with tabs
/// between them.
pub proof fn devices_are_lines(l: Seq<DeviceText>)
    ensures
        device_lines(l) == unlines(
            l.map_values(|d: DeviceText| join(device_fields(d), seq!['\t'])),
        ),
    decreases l.len(),
{
    reveal_strlit("\t");
    reveal_strlit("\n");
    let f = |d: DeviceText| join(device_fields(d), seq!['\t']);
    if l.len() > 0 {
        devices_are_lines(l.drop_last());
        let d = l.last();
        let m = l.map_values(f);
        assert(m.drop_last() =~= l.drop_last().map_values(f));
        let two = seq![d.id, d.state];
        assert(two.drop_last() =~= seq![d.id]);
        assert(join(seq![d.id], seq!['\t']) =~= d.id);
        assert(join(two, seq!['\t']) =~= d.id + seq!['\t'] + d.state);
        if d.label is Some {
            let three = seq![d.id, d.state, d.label->0];
            assert(three.drop_last() =~= two);
            assert(join(three, seq!['\t']) =~= d.id + seq!['\t'] + d.state + seq!['\t'] + d.label->0);
        }
        assert(m.last() == f(d));
        assert(device_lines(l) =~= unlines(m));
    }
}

/// Every entry is a line of its own: its name, and a slash behind that of a directory.
pub proof fn entries_are_lines(l: Seq<EntryText>)
    ensures
        entry_lines(l) == unlines(
            l.map_values(
                |x: EntryText|
                    if x.is_dir {
                        x.name.push('/')
                    } else {
                        x.name
                    },
            ),
        ),
    decreases l.len(),
{
    reveal_strlit("/");
    reveal_strlit("\n");
    let f = |x: EntryText|
        if x.is_dir {
            x.name.push('/')
        } else {
            x.name
        };
    if l.len() > 0 {
        entries_are_lines(l.drop_last());
        let m = l.map_values(f);
        assert(m.drop_last() =~= l.drop_last().map_values(f));
        assert(m.last() == f(l.last()));
        assert(entry_lines(l) =~= unlines(m));
    }
}

} // verus!
