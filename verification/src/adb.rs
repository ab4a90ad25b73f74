//! Devices reached over the Android Debug Bridge: which program to run, with which arguments, and
//! what its output says.

use vstd::prelude::*;
use vstd::string::*;
use crate::text::{
    after_word, bytes_text, chars_of, drop_tail, first_word, is_line, is_space, join, join_strings,
    lemma_lines_unlines, lines, lines_of, part, rows, string_of, text_of_bytes, texts, trim,
    trimmed, trimming_cuts_white_space, unlines, word, words_are_found,
};
use crate::url::opt_text;

verus! {

/// A way of reaching devices.
#[derive(Clone, Copy, Debug, PartialEq, Eq, Structural)]
pub enum TransportKind {
    /// USB, over the Android Debug Bridge.
    Adb,
}

/// The name of a way of reaching devices.
pub fn transport_name(kind: TransportKind) -> (r: &'static str)
    ensures
        r@ == "adb"@,
{
    match kind {
        TransportKind::Adb => "adb",
    }
}

/// A device that can be reached.
#[derive(Debug, Clone)]
pub struct Device {
    /// Stable identifier, such as a serial number.
    pub id: String,
    /// A label for people, if there is one.
    pub label: Option<String>,
    /// Connection state, such as `device` or `unauthorized`.
    pub state: String,
}

/// The same, as texts.
#[verifier::ext_equal]
pub struct DeviceText {
    pub id: Seq<char>,
    pub label: Option<Seq<char>>,
    pub state: Seq<char>,
}

impl View for Device {
    type V = DeviceText;

    open spec fn view(&self) -> DeviceText {
        DeviceText { id: self.id@, label: opt_text(self.label), state: self.state@ }
    }
}

/// The views of devices.
pub open spec fn device_texts(v: Seq<Device>) -> Seq<DeviceText> {
    v.map_values(|d: Device| d@)
}

/// An entry of a directory on a device.
#[derive(Debug, Clone)]
pub struct RemoteEntry {
    pub name: String,
    pub is_dir: bool,
    /// Size in bytes, where it is known.
    pub size: Option<u64>,
}

/// The same, as text.
#[verifier::ext_equal]
pub struct EntryText {
    pub name: Seq<char>,
    pub is_dir: bool,
    pub size: Option<u64>,
}

impl View for RemoteEntry {
    type V = EntryText;

    open spec fn view(&self) -> EntryText {
        EntryText { name: self.name@, is_dir: self.is_dir, size: self.size }
    }
}

/// The views of entries.
pub open spec fn entry_texts(v: Seq<RemoteEntry>) -> Seq<EntryText> {
    v.map_values(|e: RemoteEntry| e@)
}

// ---- Output of the program ----

/// The device that a line of `adb devices` names: its first two words.
pub open spec fn device_of(line: Seq<char>) -> Option<DeviceText> {
    let l = trim(line);
    let state = word(after_word(l));
    if state.len() == 0 {
        None
    } else {
        Some(DeviceText { id: word(l), label: None, state })
    }
}

/// The devices that lines name.
pub open spec fn devices_in(l: Seq<Seq<char>>) -> Seq<DeviceText>
    decreases l.len(),
{
    if l.len() == 0 {
        Seq::empty()
    } else {
        match device_of(l.last()) {
            Some(d) => devices_in(l.drop_last()).push(d),
            None => devices_in(l.drop_last()),
        }
    }
}

/// The devices that the output of `adb devices` names, below its heading.
pub open spec fn listed_devices(out: Seq<char>) -> Seq<DeviceText> {
    if lines(out).len() == 0 {
        Seq::empty()
    } else {
        devices_in(lines(out).skip(1))
    }
}

/// The entry that a line of `ls -1 -p` names: a slash behind the name marks a directory.
pub open spec fn entry_of(line: Seq<char>) -> Option<EntryText> {
    let raw = drop_tail(line, |c: char| c == '\r');
    let name = drop_tail(raw, |c: char| c == '/');
    if name.len() == 0 {
        None
    } else {
        Some(EntryText { name, is_dir: raw.last() == '/', size: None })
    }
}

/// The entries that lines name.
pub open spec fn entries_in(l: Seq<Seq<char>>) -> Seq<EntryText>
    decreases l.len(),
{
    if l.len() == 0 {
        Seq::empty()
    } else {
        match entry_of(l.last()) {
            Some(e) => entries_in(l.drop_last()).push(e),
            None => entries_in(l.drop_last()),
        }
    }
}

fn without_tail(s: &[char], c: char) -> (r: Vec<char>)
    ensures
        r@ == drop_tail(s@, |x: char| x == c),
{
    let ghost p = |x: char| x == c;
    let mut r = part(s, 0, s.len());
    assert(r@ =~= s@);
    while r.len() > 0 && r[r.len() - 1] == c
        invariant
            p == (|x: char| x == c),
            drop_tail(r@, p) == drop_tail(s@, p),
        decreases r@.len(),
    {
        let ghost before = r@;
        r.pop();
        assert(r@ =~= before.drop_last());
    }
    r
}

/// The Android Debug Bridge, as the path of its program.
pub struct AdbTransport {
    /// Path of the `adb` program.
    pub adb: String,
}

/// A place where the program may be: its path, and whether there is such a file.
pub struct Candidate {
    pub path: String,
    pub exists: bool,
}

/// The lists of arguments.
fn args_of(a: &[&str]) -> (v: Vec<String>)
    ensures
        texts(v@) == a@.map_values(|s: &str| s@),
{
    let mut v: Vec<String> = Vec::new();
    let mut i: usize = 0;
    while i < a.len()
        invariant
            i <= a@.len(),
            v@.len() == i,
            forall|j: int| 0 <= j < i ==> (#[trigger] v@[j])@ == a@[j]@,
        decreases a@.len() - i,
    {
        v.push(a[i].to_owned());
        i = i + 1;
    }
    assert(texts(v@) =~= a@.map_values(|s: &str| s@));
    v
}

impl AdbTransport {
    /// Decide which program to run: the configured one, which must exist, else the one of the
    /// Android installation if it exists, else `adb` wherever the system finds it.
    pub fn locate(configured: Option<Candidate>, installed: Option<Candidate>) -> (r: Result<
        AdbTransport,
        String,
    >)
        ensures
            match (configured, installed) {
                (Some(c), _) => if c.exists {
                    r matches Ok(t) && t.adb@ == c.path@
                } else {
                    r matches Err(e) && e@ == "ZAP_ADB points to "@ + c.path@
                        + ", which does not exist"@
                },
                (None, Some(c)) => r matches Ok(t) && t.adb@ == (if c.exists {
                    c.path@
                } else {
                    "adb"@
                }),
                (None, None) => r matches Ok(t) && t.adb@ == "adb"@,
            },
    {
        if let Some(c) = configured {
            if !c.exists {
                let mut e = String::new();
                e.append("ZAP_ADB points to ");
                e.append(c.path.as_str());
                e.append(", which does not exist");
                assert(e@ =~= "ZAP_ADB points to "@ + c.path@ + ", which does not exist"@);
                return Err(e);
            }
            return Ok(AdbTransport { adb: c.path });
        }
        if let Some(c) = installed {
            if c.exists {
                return Ok(AdbTransport { adb: c.path });
            }
        }
        Ok(AdbTransport { adb: "adb".to_owned() })
    }

    /// What to tell the user when the program could not be run.
    pub fn spawn_error(&self, not_found: bool, cause: &str) -> (r: String)
        ensures
            r@ == (if not_found {
                "could not run adb (looked for `"@ + self.adb@
                    + "`).\nInstall it with: brew install android-platform-tools\nOr set $ZAP_ADB / $ANDROID_HOME to point at it."@
            } else {
                "failed to run `"@ + self.adb@ + "`: "@ + cause@
            }),
    {
        let mut r = String::new();
        if not_found {
            r.append("could not run adb (looked for `");
            r.append(self.adb.as_str());
            r.append(
                "`).\nInstall it with: brew install android-platform-tools\nOr set $ZAP_ADB / $ANDROID_HOME to point at it.",
            );
        } else {
            r.append("failed to run `");
            r.append(self.adb.as_str());
            r.append("`: ");
            r.append(cause);
        }
        assert(r@ =~= (if not_found {
            "could not run adb (looked for `"@ + self.adb@
                + "`).\nInstall it with: brew install android-platform-tools\nOr set $ZAP_ADB / $ANDROID_HOME to point at it."@
        } else {
            "failed to run `"@ + self.adb@ + "`: "@ + cause@
        }));
        r
    }

    /// What a captured run says: its output, or an error with what it wrote about it.
    pub fn capture(args: &[String], success: bool, stdout: &[u8], stderr: &[u8]) -> (r: Result<
        String,
        String,
    >)
        ensures
            match r {
                Ok(out) => success && out@ == bytes_text(stdout@),
                Err(e) => !success && e@ == "adb "@ + join(texts(args@), " "@) + " failed: "@
                    + trim(bytes_text(stderr@)),
            },
    {
        if success {
            return Ok(text_of_bytes(stdout));
        }
        let text = text_of_bytes(stderr);
        let mut e = String::new();
        e.append("adb ");
        e.append(join_strings(args, " ").as_str());
        e.append(" failed: ");
        e.append(string_of(&trimmed(&chars_of(text.as_str()))).as_str());
        assert(e@ =~= "adb "@ + join(texts(args@), " "@) + " failed: "@ + trim(
            bytes_text(stderr@),
        ));
        Err(e)
    }

    /// The error of a run that was not captured.
    pub fn run_failed(args: &[String], status: &str) -> (e: String)
        ensures
            e@ == "adb "@ + join(texts(args@), " "@) + " failed with "@ + status@,
    {
        let mut e = String::new();
        e.append("adb ");
        e.append(join_strings(args, " ").as_str());
        e.append(" failed with ");
        e.append(status);
        assert(e@ =~= "adb "@ + join(texts(args@), " "@) + " failed with "@ + status@);
        e
    }

    /// The arguments that list devices.
    pub fn devices_args() -> (v: Vec<String>)
        ensures
            texts(v@) == seq!["devices"@],
    {
        let v = args_of(&["devices"]);
        assert(texts(v@) =~= seq!["devices"@]);
        v
    }

    /// The devices that the output of `adb devices` names.
    pub fn list_devices(out: &str) -> (v: Vec<Device>)
        ensures
            device_texts(v@) == listed_devices(out@),
    {
        let all = lines_of(&chars_of(out));
        let ghost l = rows(all@);
        let mut v: Vec<Device> = Vec::new();
        assert(device_texts(v@) =~= Seq::<DeviceText>::empty());
        if all.len() == 0 {
            return v;
        }
        let ghost body = l.skip(1);
        let mut i: usize = 1;
        assert(body.take(0) =~= Seq::<Seq<char>>::empty());
        while i < all.len()
            invariant
                1 <= i <= all@.len(),
                l == rows(all@),
                body == l.skip(1),
                device_texts(v@) == devices_in(body.take(i - 1)),
            decreases all@.len() - i,
        {
            let ghost now = body.take(i as int);
            assert(now.drop_last() =~= body.take(i - 1));
            assert(now.last() == all@[i as int]@);
            let line = trimmed(&all[i]);
            let (id, rest) = first_word(&line);
            let (state, _) = first_word(&rest);
            if state.len() > 0 {
                let ghost before = v@;
                let d = Device { id: string_of(&id), label: None, state: string_of(&state) };
                v.push(d);
                assert(device_texts(v@) =~= device_texts(before).push(d@));
            }
            i = i + 1;
        }
        assert(body.take(i - 1) =~= body);
        v
    }

    /// The arguments that list a directory on a device.
    pub fn list_dir_args(device: &str, path: &str) -> (v: Vec<String>)
        ensures
            texts(v@) == seq!["-s"@, device@, "shell"@, "ls"@, "-1"@, "-p"@, path@],
    {
        let v = args_of(&["-s", device, "shell", "ls", "-1", "-p", path]);
        assert(texts(v@) =~= seq!["-s"@, device@, "shell"@, "ls"@, "-1"@, "-p"@, path@]);
        v
    }

    /// The entries that the output of a directory listing names.
    pub fn list_dir(out: &str) -> (v: Vec<RemoteEntry>)
        ensures
            entry_texts(v@) == entries_in(lines(out@)),
    {
        let all = lines_of(&chars_of(out));
        let ghost l = rows(all@);
        let mut v: Vec<RemoteEntry> = Vec::new();
        let mut i: usize = 0;
        assert(entry_texts(v@) =~= Seq::<EntryText>::empty());
        assert(l.take(0) =~= Seq::<Seq<char>>::empty());
        while i < all.len()
            invariant
                i <= all@.len(),
                l == rows(all@),
                entry_texts(v@) == entries_in(l.take(i as int)),
            decreases all@.len() - i,
        {
            let ghost now = l.take(i + 1);
            assert(now.drop_last() =~= l.take(i as int));
            assert(now.last() == all@[i as int]@);
            let raw = without_tail(&all[i], '\r');
            let name = without_tail(&raw, '/');
            if name.len() > 0 {
                proof {
                    lemma_tail_shorter(raw@, |c: char| c == '/');
                }
                let ghost before = v@;
                let e = RemoteEntry {
                    name: string_of(&name),
                    is_dir: raw[raw.len() - 1] == '/',
                    size: None,
                };
                v.push(e);
                assert(entry_texts(v@) =~= entry_texts(before).push(e@));
            }
            i = i + 1;
        }
        assert(l.take(i as int) =~= l);
        v
    }

    /// The arguments that copy from a device.
    pub fn pull_args(device: &str, remote: &str, local: &str) -> (v: Vec<String>)
        ensures
            texts(v@) == seq!["-s"@, device@, "pull"@, "-a"@, remote@, local@],
    {
        let v = args_of(&["-s", device, "pull", "-a", remote, local]);
        assert(texts(v@) =~= seq!["-s"@, device@, "pull"@, "-a"@, remote@, local@]);
        v
    }

    /// The arguments that copy to a device.
    pub fn push_args(device: &str, local: &str, remote: &str) -> (v: Vec<String>)
        ensures
            texts(v@) == seq!["-s"@, device@, "push"@, local@, remote@],
    {
        let v = args_of(&["-s", device, "push", local, remote]);
        assert(texts(v@) =~= seq!["-s"@, device@, "push"@, local@, remote@]);
        v
    }
}

proof fn lemma_tail_shorter(s: Seq<char>, p: spec_fn(char) -> bool)
    ensures
        drop_tail(s, p).len() <= s.len(),
    decreases s.len(),
{
    if s.len() > 0 && p(s.last()) {
        lemma_tail_shorter(s.drop_last(), p);
    }
}

// ---- Choosing a device ----

/// The identifiers of the devices that are ready.
pub open spec fn ready_ids(l: Seq<DeviceText>) -> Seq<Seq<char>>
    decreases l.len(),
{
    if l.len() == 0 {
        Seq::empty()
    } else if l.last().state == "device"@ {
        ready_ids(l.drop_last()).push(l.last().id)
    } else {
        ready_ids(l.drop_last())
    }
}

/// Pick the device to work on: the one asked for, else the only one that is ready.
pub fn resolve_device(requested: Option<&str>, devices: &[Device], transport: &str) -> (r: Result<
    String,
    String,
>)
    ensures
        match requested {
            Some(id) => r matches Ok(s) && s@ == id@,
            None => {
                let ready = ready_ids(device_texts(devices@));
                if ready.len() == 1 {
                    r matches Ok(s) && s@ == ready[0]
                } else if ready.len() == 0 {
                    r matches Err(e) && e@ == "no ready devices found via "@ + transport@
                        + ". Connect a device (and authorize USB debugging), or pass --device."@
                } else {
                    r matches Err(e) && e@
                        == "multiple devices connected; pass --device <id>. Available: "@ + join(
                        ready,
                        ", "@,
                    )
                }
            },
        },
{
    if let Some(id) = requested {
        return Ok(id.to_owned());
    }
    let mut ready: Vec<String> = Vec::new();
    let ghost l = device_texts(devices@);
    let mut i: usize = 0;
    assert(texts(ready@) =~= ready_ids(l.take(0)));
    while i < devices.len()
        invariant
            i <= devices@.len(),
            l == device_texts(devices@),
            texts(ready@) == ready_ids(l.take(i as int)),
        decreases devices@.len() - i,
    {
        assert(l.take(i + 1).drop_last() =~= l.take(i as int));
        assert(l.take(i + 1).last() == devices@[i as int]@);
        if crate::text::str_eq(devices[i].state.as_str(), "device") {
            let ghost before = ready@;
            ready.push(devices[i].id.clone());
            assert(texts(ready@) =~= texts(before).push(devices@[i as int].id@));
        }
        i = i + 1;
    }
    assert(l.take(i as int) =~= l);
    if ready.len() == 1 {
        assert(texts(ready@)[0] == ready@[0]@);
        return Ok(ready[0].clone());
    }
    let mut e = String::new();
    if ready.len() == 0 {
        e.append("no ready devices found via ");
        e.append(transport);
        e.append(". Connect a device (and authorize USB debugging), or pass --device.");
        assert(e@ =~= "no ready devices found via "@ + transport@
            + ". Connect a device (and authorize USB debugging), or pass --device."@);
    } else {
        e.append("multiple devices connected; pass --device <id>. Available: ");
        e.append(join_strings(&ready, ", ").as_str());
        assert(e@ =~= "multiple devices connected; pass --device <id>. Available: "@ + join(
            texts(ready@),
            ", "@,
        ));
    }
    Err(e)
}

// ---- Laws ----

/// The output of a directory listing: each name on a line of its own, with a slash behind the name
/// of a directory.
pub open spec fn ls_output(l: Seq<EntryText>) -> Seq<char>
    decreases l.len(),
{
    if l.len() == 0 {
        Seq::empty()
    } else {
        ls_output(l.drop_last()) + l.last().name + (if l.last().is_dir {
            seq!['/', '\n']
        } else {
            seq!['\n']
        })
    }
}

/// Whether a name can stand in a listing.
pub open spec fn is_listed_name(s: Seq<char>) -> bool {
    s.len() > 0 && forall|i: int|
        0 <= i < s.len() ==> (#[trigger] s[i]) != '/' && s[i] != '\r' && s[i] != '\n'
}

spec fn ls_line(e: EntryText) -> Seq<char> {
    if e.is_dir {
        e.name.push('/')
    } else {
        e.name
    }
}

proof fn lemma_ls_line(e: EntryText)
    requires
        is_listed_name(e.name),
        e.size is None,
    ensures
        is_line(ls_line(e)),
        entry_of(ls_line(e)) == Some(e),
{
    let line = ls_line(e);
    let cr = |c: char| c == '\r';
    let slash = |c: char| c == '/';
    assert(!line.contains('\n')) by {
        assert forall|i: int| 0 <= i < line.len() implies line[i] != '\n' by {
            if i < e.name.len() {
                assert(line[i] == e.name[i]);
            }
        }
    }
    assert(e.name[e.name.len() - 1] != '/' && e.name[e.name.len() - 1] != '\r');
    assert(line.last() != '\r');
    assert(drop_tail(line, cr) == line);
    assert(drop_tail(e.name, slash) == e.name);
    if e.is_dir {
        assert(line.drop_last() =~= e.name);
        assert(drop_tail(line, slash) == drop_tail(line.drop_last(), slash));
    }
    assert(entry_of(line)->0 =~= e);
}

proof fn lemma_ls_output(l: Seq<EntryText>)
    ensures
        ls_output(l) == unlines(l.map_values(|e: EntryText| ls_line(e))),
    decreases l.len(),
{
    let all = l.map_values(|e: EntryText| ls_line(e));
    if l.len() > 0 {
        lemma_ls_output(l.drop_last());
        assert(all.drop_last() =~= l.drop_last().map_values(|e: EntryText| ls_line(e)));
        assert(all.last() == ls_line(l.last()));
        assert(ls_output(l) =~= unlines(all));
    } else {
        assert(all =~= Seq::<Seq<char>>::empty());
    }
}

proof fn lemma_entries_in(l: Seq<EntryText>)
    requires
        forall|i: int|
            0 <= i < l.len() ==> is_listed_name((#[trigger] l[i]).name) && l[i].size is None,
    ensures
        entries_in(l.map_values(|e: EntryText| ls_line(e))) == l,
    decreases l.len(),
{
    let all = l.map_values(|e: EntryText| ls_line(e));
    if l.len() > 0 {
        let rest = l.drop_last();
        assert forall|i: int| 0 <= i < rest.len() implies is_listed_name((#[trigger] rest[i]).name)
            && rest[i].size is None by {
            assert(rest[i] == l[i]);
        }
        lemma_entries_in(rest);
        assert(all.drop_last() =~= rest.map_values(|e: EntryText| ls_line(e)));
        assert(is_listed_name(l[l.len() - 1].name));
        lemma_ls_line(l.last());
        assert(rest.push(l.last()) =~= l);
    } else {
        assert(all =~= Seq::<Seq<char>>::empty());
        assert(entries_in(all) =~= l);
    }
}

/// A directory listing is read back: every name, whatever characters it is made of, with its mark,
/// in order.
pub proof fn directories_are_read_back(l: Seq<EntryText>)
    requires
        forall|i: int|
            0 <= i < l.len() ==> is_listed_name((#[trigger] l[i]).name) && l[i].size is None,
    ensures
        entries_in(lines(ls_output(l))) == l,
{
    let all = l.map_values(|e: EntryText| ls_line(e));
    assert forall|i: int| 0 <= i < all.len() implies is_line(#[trigger] all[i]) by {
        assert(is_listed_name(l[i].name));
        lemma_ls_line(l[i]);
    }
    lemma_ls_output(l);
    lemma_lines_unlines(all);
    lemma_entries_in(l);
}

/// Carriage returns at the end of a line change nothing about the entry that it names.
pub proof fn carriage_returns_name_nothing(line: Seq<char>)
    ensures
        entry_of(line.push('\r')) == entry_of(line),
{
    let cr = |c: char| c == '\r';
    assert(line.push('\r').drop_last() =~= line);
    assert(drop_tail(line.push('\r'), cr) == drop_tail(line, cr));
}

/// Whether a text is one word.
pub open spec fn is_word(s: Seq<char>) -> bool {
    s.len() > 0 && forall|i: int| 0 <= i < s.len() ==> !is_space(#[trigger] s[i])
}

/// The lines of a device list: an identifier, a tab, and a state.
pub open spec fn device_output(l: Seq<DeviceText>) -> Seq<char>
    decreases l.len(),
{
    if l.len() == 0 {
        Seq::empty()
    } else {
        device_output(l.drop_last()) + l.last().id + seq!['\t'] + l.last().state + seq!['\n']
    }
}

spec fn device_line(d: DeviceText) -> Seq<char> {
    d.id + seq!['\t'] + d.state
}

proof fn lemma_device_line(d: DeviceText)
    requires
        is_word(d.id),
        is_word(d.state),
        d.label is None,
    ensures
        is_line(device_line(d)),
        device_of(device_line(d)) == Some(d),
{
    let line = device_line(d);
    let none = Seq::<char>::empty();
    let n = d.id.len();
    assert(!line.contains('\n')) by {
        assert forall|i: int| 0 <= i < line.len() implies line[i] != '\n' by {
            if i < n {
                assert(!is_space(d.id[i]));
            } else if i > n {
                assert(line[i] == d.state[i - n - 1]);
            }
        }
    }
    assert(line.last() == d.state[d.state.len() - 1]);
    let ends = trimming_cuts_white_space(line);
    assert(trim(line) == line) by {
        let t = trim(line);
        assert(line[0] == d.id[0]);
        if ends.0.len() > 0 {
            assert(line[0] == ends.0[0]);
            assert(is_space(ends.0[0]));
        }
        if ends.1.len() > 0 {
            assert(line.last() == ends.1.last());
            assert(is_space(ends.1[ends.1.len() - 1]));
        }
        assert(t =~= line);
    }
    let rest = seq!['\t'] + d.state;
    assert(none + d.id + rest =~= line);
    words_are_found(none, d.id, rest);
    assert(seq!['\t'] + d.state + none =~= rest);
    words_are_found(seq!['\t'], d.state, none);
    assert(device_of(line)->0 =~= d);
}

proof fn lemma_device_output(l: Seq<DeviceText>)
    ensures
        device_output(l) == unlines(l.map_values(|d: DeviceText| device_line(d))),
    decreases l.len(),
{
    let all = l.map_values(|d: DeviceText| device_line(d));
    if l.len() > 0 {
        lemma_device_output(l.drop_last());
        assert(all.drop_last() =~= l.drop_last().map_values(|d: DeviceText| device_line(d)));
        assert(all.last() == device_line(l.last()));
        assert(device_output(l) =~= unlines(all));
    } else {
        assert(all =~= Seq::<Seq<char>>::empty());
    }
}

proof fn lemma_devices_in(l: Seq<DeviceText>)
    requires
        forall|i: int|
            0 <= i < l.len() ==> is_word((#[trigger] l[i]).id) && is_word(l[i].state)
                && l[i].label is None,
    ensures
        devices_in(l.map_values(|d: DeviceText| device_line(d))) == l,
    decreases l.len(),
{
    let all = l.map_values(|d: DeviceText| device_line(d));
    if l.len() > 0 {
        let rest = l.drop_last();
        assert forall|i: int| 0 <= i < rest.len() implies is_word((#[trigger] rest[i]).id)
            && is_word(rest[i].state) && rest[i].label is None by {
            assert(rest[i] == l[i]);
        }
        lemma_devices_in(rest);
        assert(all.drop_last() =~= rest.map_values(|d: DeviceText| device_line(d)));
        assert(is_word(l[l.len() - 1].id));
        lemma_device_line(l.last());
        assert(rest.push(l.last()) =~= l);
    } else {
        assert(all =~= Seq::<Seq<char>>::empty());
        assert(devices_in(all) =~= l);
    }
}

proof fn lemma_unlines_front(head: Seq<char>, l: Seq<Seq<char>>)
    ensures
        unlines(seq![head] + l) == head + seq!['\n'] + unlines(l),
    decreases l.len(),
{
    let all = seq![head] + l;
    if l.len() == 0 {
        assert(all.drop_last() =~= Seq::<Seq<char>>::empty());
        assert(unlines(all.drop_last()) =~= Seq::<char>::empty());
        assert(all.last() == head);
        assert(unlines(all) =~= head + seq!['\n'] + unlines(l));
    } else {
        lemma_unlines_front(head, l.drop_last());
        assert(all.drop_last() =~= seq![head] + l.drop_last());
        assert(all.last() == l.last());
        assert(unlines(all) =~= head + seq!['\n'] + unlines(l));
    }
}

/// A device list is read back: below any heading, every identifier with its state, in order.
pub proof fn devices_are_read_back(heading: Seq<char>, l: Seq<DeviceText>)
    requires
        is_line(heading),
        forall|i: int|
            0 <= i < l.len() ==> is_word((#[trigger] l[i]).id) && is_word(l[i].state)
                && l[i].label is None,
    ensures
        listed_devices(heading + seq!['\n'] + device_output(l)) == l,
{
    let all = l.map_values(|d: DeviceText| device_line(d));
    let whole = seq![heading] + all;
    assert forall|i: int| 0 <= i < whole.len() implies is_line(#[trigger] whole[i]) by {
        if i > 0 {
            assert(whole[i] == all[i - 1]);
            assert(is_word(l[i - 1].id));
            lemma_device_line(l[i - 1]);
        }
    }
    lemma_device_output(l);
    lemma_unlines_front(heading, all);
    lemma_lines_unlines(whole);
    assert(whole.skip(1) =~= all);
    lemma_devices_in(l);
}

/// The devices that can be chosen are those, and only those, whose state is `device`, in order.
pub proof fn ready_devices_are_chosen_from(l: Seq<DeviceText>)
    ensures
        ready_ids(l) == l.filter(|d: DeviceText| d.state == seq!['d', 'e', 'v', 'i', 'c', 'e']).map_values(
            |d: DeviceText| d.id,
        ),
    decreases l.len(),
{
    reveal(Seq::filter);
    reveal_strlit("device");
    assert("device"@ =~= seq!['d', 'e', 'v', 'i', 'c', 'e']);
    let f = |d: DeviceText| d.state == seq!['d', 'e', 'v', 'i', 'c', 'e'];
    if l.len() > 0 {
        ready_devices_are_chosen_from(l.drop_last());
    }
    assert(ready_ids(l) =~= l.filter(f).map_values(|d: DeviceText| d.id));
}

/// The text of a list of devices, or of entries, holds every field of each one as it is.
pub proof fn lists_are_told_whole(devices: Seq<Device>, entries: Seq<RemoteEntry>, i: int)
    ensures
        device_texts(devices).len() == devices.len(),
        entry_texts(entries).len() == entries.len(),
        0 <= i < devices.len() ==> ({
            let d = device_texts(devices)[i];
            &&& d.id == devices[i].id@ && d.state == devices[i].state@
            &&& d.label is Some <==> devices[i].label is Some
            &&& d.label matches Some(l) ==> l == devices[i].label->0@
        }),
        0 <= i < entries.len() ==> ({
            let e = entry_texts(entries)[i];
            e.name == entries[i].name@ && e.is_dir == entries[i].is_dir && e.size == entries[i].size
        }),
{
}

} // verus!
