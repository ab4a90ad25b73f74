//! The control panel of the file server: its form, starting and stopping, and what it shows.

use vstd::prelude::*;
use vstd::string::*;
use crate::auth::Credentials;
use crate::display::{form_credentials, server_button, truncate_path, truncated_path};
use crate::server_info::ServerInfo;
use crate::url::opt_text;

verus! {

/// The panel: its form, and the server while it runs.
pub struct Panel {
    pub dir: String,
    pub port: u16,
    /// Whether clients need a password.
    pub secure: bool,
    pub user: String,
    pub pass: String,
    pub running: Option<ServerInfo>,
    pub error: Option<String>,
}

/// What to start a server with.
pub struct ServeRequest {
    pub dir: String,
    pub port: u16,
    pub auth: Option<Credentials>,
}

/// What pressing the button asks for.
pub enum Press {
    /// Stop the server.
    Stop,
    /// Start a server, and report to `started`.
    Start(ServeRequest),
}

/// Whether two states of a panel show the same form.
pub open spec fn same_fields(a: Panel, b: Panel) -> bool {
    &&& a.dir@ == b.dir@
    &&& a.port == b.port
    &&& a.secure == b.secure
    &&& a.user@ == b.user@
    &&& a.pass@ == b.pass@
}

/// A field's text, or `zap` when it is empty.
pub open spec fn field_or_zap(s: Seq<char>) -> Seq<char> {
    if s.len() == 0 {
        "zap"@
    } else {
        s
    }
}

/// What a panel shows.
pub struct PanelView {
    pub status: &'static str,
    /// Why no other device can connect, where that is known.
    pub warning: Option<&'static str>,
    pub url: Option<String>,
    pub hint: &'static str,
    /// The shared folder, shortened at its start.
    pub folder: String,
    /// Whether the form can be edited.
    pub editable: bool,
    pub button: &'static str,
}

/// Longest folder that is shown whole.
pub const FOLDER_WIDTH: usize = 34;

/// The text of an optional literal.
pub open spec fn opt_literal(s: Option<&'static str>) -> Option<Seq<char>> {
    match s {
        Some(t) => Some(t@),
        None => None,
    }
}

impl Panel {
    /// A panel that shares a folder on port 8080, open to everyone.
    pub fn new(dir: String) -> (p: Panel)
        ensures
            p.dir == dir,
            p.port == 8080,
            !p.secure,
            p.user@ == "zap"@,
            p.pass@ == "zap"@,
            p.running is None,
            p.error is None,
    {
        Panel {
            dir,
            port: 8080,
            secure: false,
            user: "zap".to_owned(),
            pass: "zap".to_owned(),
            running: None,
            error: None,
        }
    }

    /// The button was pressed: it stops a running server, and else starts one from the form. An
    /// empty login field stands for `zap`.
    pub fn press(&mut self) -> (r: Press)
        ensures
            same_fields(*final(self), *old(self)),
            final(self).running is None,
            match r {
                Press::Stop => old(self).running is Some && final(self).error == old(self).error,
                Press::Start(req) => {
                    &&& old(self).running is None
                    &&& final(self).error is None
                    &&& req.dir@ == old(self).dir@
                    &&& req.port == old(self).port
                    &&& match req.auth {
                        Some(c) => {
                            &&& old(self).secure
                            &&& c.user@ == field_or_zap(old(self).user@)
                            &&& c.pass@ == field_or_zap(old(self).pass@)
                        },
                        None => !old(self).secure,
                    }
                },
            },
    {
        if self.running.is_some() {
            self.running = None;
            Press::Stop
        } else {
            self.error = None;
            Press::Start(
                ServeRequest {
                    dir: self.dir.clone(),
                    port: self.port,
                    auth: form_credentials(self.secure, self.user.as_str(), self.pass.as_str()),
                },
            )
        }
    }

    /// The server runs, or could not be started.
    pub fn started(&mut self, bound: Result<ServerInfo, String>)
        ensures
            same_fields(*final(self), *old(self)),
            match bound {
                Ok(info) => final(self).running == Some(info) && final(self).error == old(
                    self,
                ).error,
                Err(e) => {
                    &&& final(self).running == old(self).running
                    &&& opt_text(final(self).error) == Some("Could not start: "@ + e@)
                },
            },
    {
        match bound {
            Ok(info) => {
                self.running = Some(info);
            },
            Err(e) => {
                let mut text = "Could not start: ".to_owned();
                text.append(e.as_str());
                self.error = Some(text);
            },
        }
    }

    /// What the panel shows. The form is locked while the server runs.
    pub fn view(&self) -> (v: PanelView)
        ensures
            v.status@ == (if self.running is Some {
                "● Server running"@
            } else {
                "Stopped"@
            }),
            opt_literal(v.warning) == (match self.running {
                Some(info) => if info.lan_ip is None {
                    Some(
                        "⚠ No Wi-Fi network detected — connect to Wi-Fi, then Stop and Start again."@,
                    )
                } else {
                    None
                },
                None => None,
            }),
            opt_text(v.url) == (match self.running {
                Some(info) => Some(info.url_spec()),
                None => None,
            }),
            v.hint@ == (if self.running is Some {
                "Both devices must be on the same Wi-Fi. If it won't connect, turn off your router's \u{201C}AP / client isolation\u{201D}."@
            } else {
                "Start to share over Wi-Fi"@
            }),
            v.folder@ == truncated_path(self.dir@, FOLDER_WIDTH as nat),
            v.editable == (self.running is None),
            v.button@ == (if self.running is Some {
                "Stop server"@
            } else {
                "Start server"@
            }),
    {
        let folder = truncate_path(self.dir.as_str(), FOLDER_WIDTH);
        match &self.running {
            Some(info) => PanelView {
                status: "● Server running",
                warning: if info.lan_ip.is_none() {
                    Some(
                        "⚠ No Wi-Fi network detected — connect to Wi-Fi, then Stop and Start again.",
                    )
                } else {
                    None
                },
                url: Some(info.url()),
                hint:
                    "Both devices must be on the same Wi-Fi. If it won't connect, turn off your router's \u{201C}AP / client isolation\u{201D}.",
                folder,
                editable: false,
                button: server_button(true),
            },
            None => PanelView {
                status: "Stopped",
                warning: None,
                url: None,
                hint: "Start to share over Wi-Fi",
                folder,
                editable: true,
                button: server_button(false),
            },
        }
    }
}

} // verus!
