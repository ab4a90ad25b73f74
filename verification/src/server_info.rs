//! How another device reaches a running server.

use vstd::prelude::*;
use vstd::string::*;
use crate::json::{
    is_object, lemma_first_member, lemma_is_object, lemma_next_member, object_text,
    objects_are_read_back, read_object, Scalar,
};
use crate::num::{dec, push_dec};
use crate::text::begins;
use crate::url::opt_text;

verus! {

/// Details about a running server.
#[derive(Debug, Clone)]
pub struct ServerInfo {
    /// The directory being shared.
    pub dir: String,
    /// Port the server listens on.
    pub port: u16,
    /// Best guess at this host's address on the local network.
    pub lan_ip: Option<String>,
    /// The pairing key of a secured server. A URL that carries it needs no password.
    pub auth_token: Option<String>,
    /// Fingerprint of the certificate when the server speaks TLS, for clients to pin.
    pub fingerprint: Option<String>,
}

/// The URL of a server.
pub open spec fn url_text(host: Option<Seq<char>>, port: nat, tls: bool) -> Seq<char> {
    (if tls {
        "https://"@
    } else {
        "http://"@
    }) + (match host {
        Some(h) => h,
        None => "localhost"@,
    }) + ":"@ + dec(port) + "/"@
}

/// The query that a share link adds to the URL: the pairing key and the fingerprint, where there
/// are any.
pub open spec fn share_query(token: Option<Seq<char>>, fp: Option<Seq<char>>) -> Seq<char> {
    match (token, fp) {
        (Some(t), Some(f)) => "?k="@ + t + "&fp="@ + f,
        (Some(t), None) => "?k="@ + t,
        (None, Some(f)) => "?fp="@ + f,
        (None, None) => Seq::empty(),
    }
}

impl ServerInfo {
    /// The URL that another device opens.
    pub open spec fn url_spec(&self) -> Seq<char> {
        url_text(opt_text(self.lan_ip), self.port as nat, self.fingerprint is Some)
    }

    /// The URL that another device on the same network opens; `localhost` when no address could be
    /// determined.
    pub fn url(&self) -> (r: String)
        ensures
            r@ == self.url_spec(),
    {
        let mut r = String::new();
        if self.fingerprint.is_some() {
            r.append("https://");
        } else {
            r.append("http://");
        }
        match &self.lan_ip {
            Some(ip) => r.append(ip.as_str()),
            None => r.append("localhost"),
        }
        r.append(":");
        push_dec(&mut r, self.port as u64);
        r.append("/");
        assert(r@ =~= self.url_spec());
        r
    }

    /// The URL for a QR code or share link: it carries the pairing key of a secured server and the
    /// fingerprint of a TLS server. The same as `url` when the server is open and plain.
    pub fn url_with_key(&self) -> (r: String)
        ensures
            r@ == self.url_spec() + share_query(
                opt_text(self.auth_token),
                opt_text(self.fingerprint),
            ),
            self.auth_token is None && self.fingerprint is None ==> r@ == self.url_spec(),
    {
        let mut r = self.url();
        match (&self.auth_token, &self.fingerprint) {
            (Some(t), Some(f)) => {
                r.append("?k=");
                r.append(t.as_str());
                r.append("&fp=");
                r.append(f.as_str());
            },
            (Some(t), None) => {
                r.append("?k=");
                r.append(t.as_str());
            },
            (None, Some(f)) => {
                r.append("?fp=");
                r.append(f.as_str());
            },
            (None, None) => {},
        }
        assert(r@ =~= self.url_spec() + share_query(
            opt_text(self.auth_token),
            opt_text(self.fingerprint),
        ));
        r
    }
}

/// A fast-lane listener that clients can be told of.
#[derive(Clone, Copy, Debug)]
pub struct FastLane {
    pub port: u16,
    pub tls: bool,
}

/// The JSON that tells clients of the fast lane, or that there is none.
pub open spec fn capabilities_text(fast: Option<FastLane>) -> Seq<char> {
    match fast {
        Some(f) => "{\"fast\":{\"port\":"@ + dec(f.port as nat) + ",\"tls\":"@ + (if f.tls {
            "true"@
        } else {
            "false"@
        }) + ",\"version\":1}}"@,
        None => "{\"fast\":null}"@,
    }
}

/// The JSON that tells clients of the fast lane, or that there is none.
pub fn capabilities_json(fast: Option<FastLane>) -> (r: String)
    ensures
        r@ == capabilities_text(fast),
{
    let mut r = String::new();
    match fast {
        Some(f) => {
            r.append("{\"fast\":{\"port\":");
            push_dec(&mut r, f.port as u64);
            r.append(",\"tls\":");
            if f.tls {
                r.append("true");
            } else {
                r.append("false");
            }
            r.append(",\"version\":1}}");
        },
        None => {
            r.append("{\"fast\":null}");
        },
    }
    assert(r@ =~= capabilities_text(fast));
    r
}

// ---- Laws ----

/// The port of the fast lane, whether it is encrypted and its version can be read back from the
/// capabilities.
#[verifier::rlimit(40)]
pub proof fn capabilities_are_read_back(f: FastLane)
    ensures
        begins(capabilities_text(Some(f)), "{\"fast\":"@),
        read_object(capabilities_text(Some(f)).skip(8)) == Some(
            (
                seq![
                    ("port"@, Scalar::Number(f.port as nat)),
                    ("tls"@, Scalar::Flag(f.tls)),
                    ("version"@, Scalar::Number(1)),
                ],
                seq!['}'],
            ),
        ),
        is_object(capabilities_text(None), seq![("fast"@, Scalar::Null)]),
{
    reveal_strlit("fast");
    reveal_strlit("port");
    reveal_strlit("tls");
    reveal_strlit("version");
    reveal_strlit("null");
    reveal_strlit("{\"fast\":");
    reveal_strlit("{\"fast\":null}");
    reveal_strlit("{\"fast\":{\"port\":");
    reveal_strlit("{\"port\":");
    reveal_strlit(",\"tls\":");
    reveal_strlit(",\"version\":1}}");
    reveal_strlit(",\"version\":");
    let mark = "{\"fast\":"@;
    let one = seq![("port"@, Scalar::Number(f.port as nat))];
    let two = one.push(("tls"@, Scalar::Flag(f.tls)));
    let three = two.push(("version"@, Scalar::Number(1)));
    assert("{\"port\":"@ =~= seq!['{', '"'] + "port"@ + seq!['"', ':']);
    assert(",\"tls\":"@ =~= seq![',', '"'] + "tls"@ + seq!['"', ':']);
    assert(",\"version\":"@ =~= seq![',', '"'] + "version"@ + seq!['"', ':']);
    lemma_first_member("port"@, one[0].1, "{\"port\":"@);
    lemma_next_member(one, "tls"@, two[1].1, ",\"tls\":"@);
    lemma_next_member(two, "version"@, three[2].1, ",\"version\":"@);
    assert(dec(1) =~= seq!['1']);
    assert(",\"version\":1}}"@ =~= ",\"version\":"@ + dec(1) + seq!['}'] + seq!['}']);
    let s = capabilities_text(Some(f));
    assert(s =~= mark + (object_text(three) + seq!['}']));
    assert(s.subrange(0, 8) =~= mark);
    assert(s.skip(8) =~= object_text(three) + seq!['}']);
    objects_are_read_back(three, seq!['}']);
    assert(three =~= seq![
        ("port"@, Scalar::Number(f.port as nat)),
        ("tls"@, Scalar::Flag(f.tls)),
        ("version"@, Scalar::Number(1)),
    ]);
    let none = seq![("fast"@, Scalar::Null)];
    assert(mark =~= seq!['{', '"'] + "fast"@ + seq!['"', ':']);
    lemma_first_member("fast"@, Scalar::Null, mark);
    assert(capabilities_text(None) =~= object_text(none));
    lemma_is_object(none);
}

/// A server whose address is not known is told of as the local host.
pub proof fn unknown_addresses_are_local(port: nat, tls: bool)
    ensures
        url_text(None, port, tls) == url_text(Some("localhost"@), port, tls),
{
}

} // verus!
