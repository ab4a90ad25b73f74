//! A clipboard session as its window drives it: from the form to hosting or joining, and what is
//! shown while it runs.

use vstd::prelude::*;
use vstd::string::*;
use crate::display::{
    one_line, own_address, own_address_text, peer_address, shown, snapshot, truncate, truncated,
    Mode,
};
use crate::num::{dec, parse_dec, parse_uint, push_dec};
use crate::pins::{add_pin, remove_pin};
use crate::server_info::{share_query, ServerInfo};
use crate::sync::{clips, ClipLine, SyncState};
use crate::text::{chars_of, replace_char, texts, trim};
use crate::url::opt_text;

verus! {

// ---- Starting and stopping ----

/// What a session needs next on its way to running.
pub enum StartStep {
    /// Make a certificate for the host's names, and report to `certified`.
    Certify,
    /// Host on the port of the form, and report to `hosted`.
    Host,
    /// Sync with the server at this address, and report to `synced`.
    Sync(String),
    /// The session does not start; its error says why.
    Failed,
}

/// A session, with the form that it is started from.
pub struct Session {
    pub mode: Mode,
    pub port: u16,
    pub peer_url: String,
    /// Whether a host encrypts the connection.
    pub secure: bool,
    /// Fingerprint of the certificate while hosting over TLS.
    pub fingerprint: Option<String>,
    /// How others reach this host while it hosts.
    pub hosting: Option<ServerInfo>,
    /// Whether the sync engine runs.
    pub syncing: bool,
    pub error: Option<String>,
    /// Pinned snippets.
    pub pins: Vec<String>,
    /// Whether the automatic start was tried.
    pub tried_autohost: bool,
}

/// Whether two states of a session show the same form and the same pins.
pub open spec fn same_form(a: Session, b: Session) -> bool {
    &&& a.mode == b.mode
    &&& a.port == b.port
    &&& a.peer_url@ == b.peer_url@
    &&& a.secure == b.secure
    &&& texts(a.pins@) == texts(b.pins@)
    &&& a.tried_autohost == b.tried_autohost
}

impl Session {
    /// A session that has not started, with the pins of earlier runs.
    pub fn new(pins: Vec<String>) -> (s: Session)
        ensures
            s.mode == Mode::Host,
            s.port == 8080,
            s.peer_url@ == Seq::<char>::empty(),
            !s.secure,
            s.fingerprint is None,
            s.hosting is None,
            !s.syncing,
            s.error is None,
            s.pins == pins,
            !s.tried_autohost,
    {
        Session {
            mode: Mode::Host,
            port: 8080,
            peer_url: String::new(),
            secure: false,
            fingerprint: None,
            hosting: None,
            syncing: false,
            error: None,
            pins,
            tried_autohost: false,
        }
    }

    /// Begin to start. A host that encrypts first makes a certificate; any other host goes on to
    /// host in the clear. A guest needs the host's address.
    pub fn start(&mut self) -> (step: StartStep)
        ensures
            same_form(*final(self), *old(self)),
            final(self).hosting == old(self).hosting,
            final(self).syncing == old(self).syncing,
            match step {
                StartStep::Certify => {
                    &&& old(self).mode == Mode::Host && old(self).secure
                    &&& final(self).error is None
                    &&& final(self).fingerprint == old(self).fingerprint
                },
                StartStep::Host => {
                    &&& old(self).mode == Mode::Host && !old(self).secure
                    &&& final(self).error is None
                    &&& final(self).fingerprint is None
                },
                StartStep::Sync(url) => {
                    &&& old(self).mode == Mode::Join
                    &&& url@ == trim(old(self).peer_url@) && url@.len() > 0
                    &&& final(self).error is None
                    &&& final(self).fingerprint == old(self).fingerprint
                },
                StartStep::Failed => {
                    &&& old(self).mode == Mode::Join
                    &&& trim(old(self).peer_url@).len() == 0
                    &&& opt_text(final(self).error) == Some(
                        "Enter the host's URL (from its Zulu window)."@,
                    )
                    &&& final(self).fingerprint == old(self).fingerprint
                },
            },
    {
        self.error = None;
        match self.mode {
            Mode::Host => {
                if self.secure {
                    StartStep::Certify
                } else {
                    self.fingerprint = None;
                    StartStep::Host
                }
            },
            Mode::Join => match peer_address(self.peer_url.as_str()) {
                Ok(url) => StartStep::Sync(url),
                Err(e) => {
                    self.error = Some(e);
                    StartStep::Failed
                },
            },
        }
    }

    /// The certificate was made, or could not be.
    pub fn certified(&mut self, made: Result<String, String>) -> (step: StartStep)
        ensures
            same_form(*final(self), *old(self)),
            final(self).hosting == old(self).hosting,
            final(self).syncing == old(self).syncing,
            match made {
                Ok(fp) => {
                    &&& step is Host
                    &&& final(self).fingerprint == Some(fp)
                    &&& final(self).error == old(self).error
                },
                Err(e) => {
                    &&& step is Failed
                    &&& final(self).fingerprint == old(self).fingerprint
                    &&& opt_text(final(self).error) == Some("Encryption setup failed: "@ + e@)
                },
            },
    {
        match made {
            Ok(fp) => {
                self.fingerprint = Some(fp);
                StartStep::Host
            },
            Err(e) => {
                self.error = Some(with_reason("Encryption setup failed: ", e.as_str()));
                StartStep::Failed
            },
        }
    }

    /// The server runs, or could not be started. The host's own client then reaches it over
    /// loopback.
    pub fn hosted(&mut self, bound: Result<ServerInfo, String>) -> (step: StartStep)
        ensures
            same_form(*final(self), *old(self)),
            final(self).fingerprint == old(self).fingerprint,
            final(self).syncing == old(self).syncing,
            match bound {
                Ok(info) => {
                    &&& step matches StartStep::Sync(url) && url@ == own_address_text(
                        info.port as nat,
                        opt_text(old(self).fingerprint),
                    )
                    &&& final(self).hosting == Some(info)
                    &&& final(self).error == old(self).error
                },
                Err(e) => {
                    &&& step is Failed
                    &&& final(self).hosting == old(self).hosting
                    &&& opt_text(final(self).error) == Some("Could not host: "@ + e@)
                },
            },
    {
        match bound {
            Ok(info) => {
                let url = match &self.fingerprint {
                    Some(fp) => own_address(info.port, Some(fp.as_str())),
                    None => own_address(info.port, None),
                };
                self.hosting = Some(info);
                StartStep::Sync(url)
            },
            Err(e) => {
                self.error = Some(with_reason("Could not host: ", e.as_str()));
                StartStep::Failed
            },
        }
    }

    /// The sync engine runs, or did not understand the address: then the host stops too.
    pub fn synced(&mut self, url: &str, understood: bool)
        ensures
            same_form(*final(self), *old(self)),
            final(self).fingerprint == old(self).fingerprint,
            if understood {
                &&& final(self).syncing
                &&& final(self).hosting == old(self).hosting
                &&& final(self).error == old(self).error
            } else {
                &&& final(self).syncing == old(self).syncing
                &&& final(self).hosting is None
                &&& opt_text(final(self).error) == Some("Couldn't parse address: "@ + url@)
            },
    {
        if understood {
            self.syncing = true;
        } else {
            self.error = Some(with_reason("Couldn't parse address: ", url));
            self.hosting = None;
        }
    }

    /// Stop: neither the sync engine nor the server runs on.
    pub fn stop(&mut self)
        ensures
            same_form(*final(self), *old(self)),
            !final(self).syncing,
            final(self).hosting is None,
            final(self).fingerprint is None,
            final(self).error == old(self).error,
    {
        self.syncing = false;
        self.hosting = None;
        self.fingerprint = None;
    }

    /// Whether to start without being asked: only once, and only where that is wanted. The result
    /// says whether to start now.
    pub fn autohost(&mut self, wanted: bool, secure: bool) -> (start: bool)
        ensures
            start == (wanted && !old(self).tried_autohost),
            final(self).tried_autohost == (wanted || old(self).tried_autohost),
            final(self).secure == (if start {
                secure
            } else {
                old(self).secure
            }),
            final(self).mode == old(self).mode,
            final(self).port == old(self).port,
            final(self).peer_url == old(self).peer_url,
            final(self).fingerprint == old(self).fingerprint,
            final(self).hosting == old(self).hosting,
            final(self).syncing == old(self).syncing,
            final(self).error == old(self).error,
            final(self).pins == old(self).pins,
    {
        if self.tried_autohost || !wanted {
            return false;
        }
        self.tried_autohost = true;
        self.secure = secure;
        true
    }
}

fn with_reason(what: &str, why: &str) -> (r: String)
    ensures
        r@ == what@ + why@,
{
    let mut r = what.to_owned();
    r.append(why);
    r
}

/// The port after its field was edited: text that is no port changes nothing.
pub fn edited_port(port: u16, typed: &str) -> (r: u16)
    ensures
        r == (match parse_dec(typed@, u16::MAX as nat) {
            Some(p) => p,
            None => port as nat,
        }),
{
    match parse_uint(&chars_of(typed), u16::MAX as u64) {
        Some(p) => p as u16,
        None => port,
    }
}

// ---- Screenshots ----

/// What a window that takes a picture of itself does in a frame.
#[derive(Clone, Copy, Debug, PartialEq, Eq, Structural)]
pub enum ShotStep {
    /// Only draw.
    Draw,
    /// Start first, so that the picture shows a running session.
    Start,
    /// Ask for the picture.
    Capture,
}

/// Count a frame and decide about it: a session that is to be shown running starts in the first
/// frame, and the picture is asked for in the fourth.
pub fn shot_frame(frames: &mut u32, start_first: bool) -> (step: ShotStep)
    requires
        *old(frames) < u32::MAX,
    ensures
        *final(frames) == *old(frames) + 1,
        step == (if *final(frames) == 1 && start_first {
            ShotStep::Start
        } else if *final(frames) == 4 {
            ShotStep::Capture
        } else {
            ShotStep::Draw
        }),
{
    *frames = *frames + 1;
    if *frames == 1 && start_first {
        ShotStep::Start
    } else if *frames == 4 {
        ShotStep::Capture
    } else {
        ShotStep::Draw
    }
}

// ---- The running view ----

/// What a running session shows.
pub struct RunningView {
    pub connected: bool,
    pub status: String,
    pub paired: String,
    /// The address at which others join a host.
    pub join_at: Option<String>,
    /// The link that carries the fingerprint of an encrypted host.
    pub full_link: Option<String>,
    pub sent: u64,
    pub received: u64,
    /// The pinned snippets, each on one line.
    pub pins: Vec<String>,
    /// The latest clips, newest first.
    pub clips: Vec<ClipLine>,
    pub error: Option<String>,
}

/// Longest pinned snippet that is shown whole.
pub const PIN_WIDTH: usize = 44;

/// Longest clip that is shown whole.
pub const CLIP_WIDTH: usize = 46;

/// A snippet as its row shows it: on one line, and shortened.
pub open spec fn row_text(s: Seq<char>, max: nat) -> Seq<char> {
    truncated(replace_char(s, '\n', seq![' ']), max)
}

/// A snippet as its row shows it.
pub fn row(s: &str, max: usize) -> (r: String)
    ensures
        r@ == row_text(s@, max as nat),
{
    truncate(one_line(s).as_str(), max)
}

/// The rows of pinned snippets.
pub open spec fn pin_rows(pins: Seq<Seq<char>>) -> Seq<Seq<char>> {
    pins.map_values(|p: Seq<char>| row_text(p, PIN_WIDTH as nat))
}

/// How many devices are paired, in words.
pub open spec fn paired_text(n: nat) -> Seq<char> {
    dec(n) + " device(s) paired"@
}

impl Session {
    /// What the session shows while it runs. Its own error goes before one of the sync engine. An
    /// encrypted host shows the link with its fingerprint too.
    pub fn running_view(&self, state: &SyncState) -> (v: RunningView)
        ensures
            v.connected == state.connected,
            v.status@ == (if state.connected {
                "Connected"@
            } else {
                "Connecting..."@
            }),
            v.paired@ == paired_text(state.presence as nat),
            match self.hosting {
                Some(info) => {
                    &&& opt_text(v.join_at) == Some(info.url_spec())
                    &&& opt_text(v.full_link) == (if self.fingerprint is Some {
                        Some(
                            info.url_spec() + share_query(
                                opt_text(info.auth_token),
                                opt_text(info.fingerprint),
                            ),
                        )
                    } else {
                        None
                    })
                },
                None => v.join_at is None && v.full_link is None,
            },
            v.sent == state.sent,
            v.received == state.received,
            texts(v.pins@) == pin_rows(texts(self.pins@)),
            clips(v.clips@) == shown(clips(state.recent@)),
            opt_text(v.error) == (if self.error is Some {
                opt_text(self.error)
            } else {
                opt_text(state.error)
            }),
    {
        let status = if state.connected {
            "Connected".to_owned()
        } else {
            "Connecting...".to_owned()
        };
        let mut paired = String::new();
        push_dec(&mut paired, state.presence as u64);
        paired.append(" device(s) paired");
        assert(paired@ =~= paired_text(state.presence as nat));
        let (join_at, full_link) = match &self.hosting {
            Some(info) => {
                let link = if self.fingerprint.is_some() {
                    Some(info.url_with_key())
                } else {
                    None
                };
                (Some(info.url()), link)
            },
            None => (None, None),
        };
        let mut pins: Vec<String> = Vec::new();
        let mut i: usize = 0;
        while i < self.pins.len()
            invariant
                i <= self.pins@.len(),
                pins@.len() == i,
                forall|j: int|
                    0 <= j < i ==> (#[trigger] pins@[j])@ == row_text(
                        self.pins@[j]@,
                        PIN_WIDTH as nat,
                    ),
            decreases self.pins@.len() - i,
        {
            pins.push(row(self.pins[i].as_str(), PIN_WIDTH));
            i = i + 1;
        }
        assert(texts(pins@) =~= pin_rows(texts(self.pins@)));
        let error = match (&self.error, &state.error) {
            (Some(e), _) => Some(e.clone()),
            (None, Some(e)) => Some(e.clone()),
            (None, None) => None,
        };
        RunningView {
            connected: state.connected,
            status,
            paired,
            join_at,
            full_link,
            sent: state.sent,
            received: state.received,
            pins,
            clips: snapshot(&state.recent),
            error,
        }
    }

    /// Pin a clip, unless it is pinned. The result says whether the pins are to be saved.
    pub fn pin(&mut self, text: &str) -> (save: bool)
        ensures
            save == !texts(old(self).pins@).contains(text@),
            texts(final(self).pins@) == (if save {
                texts(old(self).pins@).push(text@)
            } else {
                texts(old(self).pins@)
            }),
            *final(self) == (Session { pins: final(self).pins, ..*old(self) }),
    {
        add_pin(&mut self.pins, text)
    }

    /// Unpin the snippet in a row. The pins are then to be saved.
    pub fn unpin(&mut self, i: usize)
        requires
            i < old(self).pins@.len(),
        ensures
            texts(final(self).pins@) == texts(old(self).pins@).remove(i as int),
            *final(self) == (Session { pins: final(self).pins, ..*old(self) }),
    {
        remove_pin(&mut self.pins, i);
    }
}

// ---- Laws ----

/// A snippet's row is one line: its beginning with line ends as spaces, and an ellipsis if more
/// follows.
pub proof fn rows_are_one_line(s: Seq<char>, max: nat, i: int)
    requires
        0 <= i < row_text(s, max).len(),
    ensures
        row_text(s, max).len() == (if s.len() <= max {
            s.len()
        } else {
            max + 1
        }),
        i < max ==> row_text(s, max)[i] == (if s[i] == '\n' {
            ' '
        } else {
            s[i]
        }),
        i == max ==> row_text(s, max)[i] == '…',
{
    lemma_line_ends(s);
}

proof fn lemma_line_ends(s: Seq<char>)
    ensures
        replace_char(s, '\n', seq![' ']).len() == s.len(),
        forall|i: int|
            0 <= i < s.len() ==> #[trigger] replace_char(s, '\n', seq![' '])[i] == (if s[i] == '\n' {
                ' '
            } else {
                s[i]
            }),
    decreases s.len(),
{
    if s.len() > 0 {
        lemma_line_ends(s.drop_last());
        let t = replace_char(s, '\n', seq![' ']);
        let front = replace_char(s.drop_last(), '\n', seq![' ']);
        assert forall|i: int| 0 <= i < s.len() implies #[trigger] t[i] == (if s[i] == '\n' {
            ' '
        } else {
            s[i]
        }) by {
            if i < s.len() - 1 {
                assert(t[i] == front[i]);
            }
        }
    }
}

} // verus!
