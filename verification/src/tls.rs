//! Self-signed TLS material and certificate pinning.
//!
//! There is no certificate authority on a local network: a peer trusts a host by the SHA-256
//! fingerprint of its certificate, which travels in the pairing link.

use vstd::prelude::*;
use vstd::string::*;
use vstd::utf8::*;
use sha2::{Digest, Sha256};
use crate::num::{hex, hex_char, push_hex};
use crate::text::{begins, lowercase, str_eq, texts};

verus! {

// ---- Outside calls ----

/// The SHA-256 digest of bytes.
pub uninterp spec fn sha256_of(data: Seq<u8>) -> Seq<u8>;

/// `Sha256::digest` depends on the bytes alone and is 32 bytes long.
#[verifier::external_body]
fn sha256(data: &[u8]) -> (d: Vec<u8>)
    ensures
        d@ == sha256_of(data@),
        d@.len() == 32,
{
    Sha256::digest(data).to_vec()
}

/// The certificates that the sections of a PEM file hold; none when it cannot be parsed.
pub uninterp spec fn pem_certs_of(pem: Seq<u8>) -> Option<Seq<Seq<u8>>>;

/// The values of a list of byte vectors.
pub open spec fn blobs(v: Seq<Vec<u8>>) -> Seq<Seq<u8>> {
    v.map_values(|b: Vec<u8>| b@)
}

/// The values of an optional list of byte vectors.
pub open spec fn opt_blobs(v: Option<Vec<Vec<u8>>>) -> Option<Seq<Seq<u8>>> {
    match v {
        Some(l) => Some(blobs(l@)),
        None => None,
    }
}

/// `rustls_pemfile::certs` depends on the bytes alone.
#[verifier::external_body]
fn pem_certs(pem: &[u8]) -> (r: Option<Vec<Vec<u8>>>)
    ensures
        opt_blobs(r) == pem_certs_of(pem@),
{
    let mut reader = pem;
    rustls_pemfile::certs(&mut reader).map(|c| c.map(|der| der.to_vec())).collect::<
        Result<Vec<Vec<u8>>, std::io::Error>,
    >().ok()
}

/// A private key, by the format of its bytes.
pub enum PrivateKey {
    Pkcs1(Vec<u8>),
    Sec1(Vec<u8>),
    Pkcs8(Vec<u8>),
}

/// The same, as mathematical values.
pub ghost enum KeyBytes {
    Pkcs1(Seq<u8>),
    Sec1(Seq<u8>),
    Pkcs8(Seq<u8>),
}

impl View for PrivateKey {
    type V = KeyBytes;

    open spec fn view(&self) -> KeyBytes {
        match *self {
            PrivateKey::Pkcs1(b) => KeyBytes::Pkcs1(b@),
            PrivateKey::Sec1(b) => KeyBytes::Sec1(b@),
            PrivateKey::Pkcs8(b) => KeyBytes::Pkcs8(b@),
        }
    }
}

/// Where the first private key of a PEM file stands in its format's numbering (0 for PKCS#1, 1 for
/// SEC1, 2 for PKCS#8), with its bytes; inside, none when the file holds no private key, and
/// outside, none when it cannot be parsed.
pub uninterp spec fn pem_key_of(pem: Seq<u8>) -> Option<Option<(nat, Seq<u8>)>>;

/// A private key as its format's number and its bytes.
pub open spec fn numbered(k: KeyBytes) -> (nat, Seq<u8>) {
    match k {
        KeyBytes::Pkcs1(b) => (0, b),
        KeyBytes::Sec1(b) => (1, b),
        KeyBytes::Pkcs8(b) => (2, b),
    }
}

/// `rustls_pemfile::private_key` depends on the bytes alone.
#[verifier::external_body]
fn pem_key(pem: &[u8]) -> (r: Option<Option<PrivateKey>>)
    ensures
        pem_key_of(pem@) == (match r {
            Some(Some(k)) => Some(Some(numbered(k@))),
            Some(None) => Some(None),
            None => None,
        }),
{
    let mut reader = pem;
    match rustls_pemfile::private_key(&mut reader).ok()? {
        Some(rustls::pki_types::PrivateKeyDer::Pkcs1(k)) => Some(
            Some(PrivateKey::Pkcs1(k.secret_pkcs1_der().to_vec())),
        ),
        Some(rustls::pki_types::PrivateKeyDer::Sec1(k)) => Some(
            Some(PrivateKey::Sec1(k.secret_sec1_der().to_vec())),
        ),
        Some(rustls::pki_types::PrivateKeyDer::Pkcs8(k)) => Some(
            Some(PrivateKey::Pkcs8(k.secret_pkcs8_der().to_vec())),
        ),
        _ => Some(None),
    }
}

/// A freshly made certificate and its key.
pub struct Generated {
    /// The certificate's bytes.
    pub der: Vec<u8>,
    /// The certificate as PEM.
    pub cert_pem: String,
    /// The key as PEM.
    pub key_pem: String,
}

/// Whether a certificate is made out to the given hosts: their addresses and names are its subject
/// alternative names, in this order.
pub uninterp spec fn made_out_to(der: Seq<u8>, hosts: Seq<Seq<char>>) -> bool;

/// Whether a text is made of ASCII characters.
pub open spec fn is_ascii_text(s: Seq<char>) -> bool {
    forall|i: int| 0 <= i < s.len() ==> (#[trigger] s[i]) as u32 <= 0x7F
}

/// `rcgen::generate_simple_self_signed`: the certificate is made out to the given hosts, its PEM
/// text holds the certificate itself and nothing else, and the PEM text of the key holds a key in
/// the PKCS#8 format. A host that is no ASCII text is refused.
/// The key is random, so nothing more is said of the bytes; that a key can be made at all rests on
/// the machine, so success is not promised, and nothing is said of the error's text.
#[verifier::external_body]
fn generate(sans: Vec<String>) -> (r: Result<Generated, String>)
    ensures
        r matches Ok(g) ==> pem_certs_of(encode_utf8(g.cert_pem@)) == Some(seq![g.der@])
            && made_out_to(g.der@, texts(sans@)) && (pem_key_of(
            encode_utf8(g.key_pem@),
        ) matches Some(Some(k)) && k.0 == 2),
        (exists|i: int| 0 <= i < sans@.len() && !is_ascii_text((#[trigger] sans@[i])@)) ==> r is Err,
{
    let key = rcgen::generate_simple_self_signed(sans).map_err(|e| e.to_string())?;
    Ok(
        Generated {
            der: key.cert.der().to_vec(),
            cert_pem: key.cert.pem(),
            key_pem: key.key_pair.serialize_pem(),
        },
    )
}

// ---- Fingerprints ----

/// Bytes as lower-case hexadecimal, two digits each.
pub open spec fn hex_bytes(b: Seq<u8>) -> Seq<char>
    decreases b.len(),
{
    if b.len() == 0 {
        Seq::empty()
    } else {
        hex_bytes(b.drop_last()) + hex(b.last() as nat, 2)
    }
}

/// Bytes as lower-case hexadecimal.
pub fn hex_string(b: &[u8]) -> (s: String)
    ensures
        s@ == hex_bytes(b@),
{
    let mut s = String::new();
    let mut i: usize = 0;
    while i < b.len()
        invariant
            i <= b@.len(),
            s@ == hex_bytes(b@.take(i as int)),
        decreases b@.len() - i,
    {
        assert(b@.take(i + 1).drop_last() =~= b@.take(i as int));
        push_hex(&mut s, b[i] as u128, 2);
        i = i + 1;
    }
    assert(b@.take(i as int) =~= b@);
    s
}

/// The fingerprint of a certificate: the lower-case hexadecimal SHA-256 of its bytes.
pub open spec fn fingerprint(der: Seq<u8>) -> Seq<char> {
    hex_bytes(sha256_of(der))
}

/// The fingerprint of a certificate, which a client pins.
pub fn fingerprint_hex(der: &[u8]) -> (s: String)
    ensures
        s@ == fingerprint(der@),
        s@.len() == 64,
{
    let d = sha256(der);
    proof {
        lemma_hex_bytes_len(d@);
    }
    hex_string(&d)
}

proof fn lemma_hex_bytes_len(b: Seq<u8>)
    ensures
        hex_bytes(b).len() == 2 * b.len(),
    decreases b.len(),
{
    if b.len() > 0 {
        lemma_hex_bytes_len(b.drop_last());
        reveal_with_fuel(hex, 3);
    }
}

/// Whether a certificate is the one that a fingerprint pins.
pub fn pin_matches(pin: &str, der: &[u8]) -> (r: bool)
    ensures
        r == (fingerprint(der@) == pin@),
{
    let f = fingerprint_hex(der);
    str_eq(f.as_str(), pin)
}

/// Whether a certificate is the one that a fingerprint pins, whatever the case of its letters.
pub fn pin_matches_any_case(pin: &str, der: &[u8]) -> (r: bool)
    ensures
        r == (fingerprint(der@) == lowercase(pin@)),
{
    let low = pin.to_lowercase();
    pin_matches(low.as_str(), der)
}

// ---- Material ----

/// The certificate and key of a server, and the fingerprint that its clients pin.
pub struct TlsMaterial {
    pub cert_pem: Vec<u8>,
    pub key_pem: Vec<u8>,
    pub fingerprint: String,
}

impl TlsMaterial {
    /// Whether the material holds a certificate and a private key.
    pub open spec fn is_usable(&self) -> bool {
        &&& pem_certs_of(self.cert_pem@) matches Some(c) && c.len() > 0
        &&& pem_key_of(self.key_pem@) matches Some(Some(_))
    }

    /// Whether the material holds one certificate, and its fingerprint is that certificate's.
    pub open spec fn pins_itself(&self) -> bool {
        match pem_certs_of(self.cert_pem@) {
            Some(certs) => certs.len() == 1 && self.fingerprint@ == fingerprint(certs[0]),
            None => false,
        }
    }
}

/// The material of a freshly made certificate.
pub fn material_of(g: Generated) -> (m: TlsMaterial)
    ensures
        m.cert_pem@ == encode_utf8(g.cert_pem@),
        m.key_pem@ == encode_utf8(g.key_pem@),
        m.fingerprint@ == fingerprint(g.der@),
{
    TlsMaterial {
        cert_pem: g.cert_pem.as_str().as_bytes_vec(),
        key_pem: g.key_pem.as_str().as_bytes_vec(),
        fingerprint: fingerprint_hex(&g.der),
    }
}

/// Make a self-signed certificate for the given names. A server can use the material, and the
/// fingerprint in it is that of the certificate in it. A name that is no ASCII text is refused.
pub fn self_signed(sans: Vec<String>) -> (r: Result<TlsMaterial, String>)
    ensures
        match r {
            Ok(m) => {
                &&& m.pins_itself()
                &&& m.is_usable()
                &&& made_out_to(pem_certs_of(m.cert_pem@)->0[0], texts(sans@))
                &&& forall|i: int| 0 <= i < sans@.len() ==> is_ascii_text((#[trigger] sans@[i])@)
            },
            Err(e) => begins(e@, "generating self-signed cert: "@),
        },
{
    match generate(sans) {
        Ok(g) => Ok(material_of(g)),
        Err(e) => {
            let what = "generating self-signed cert: ";
            let mut text = what.to_owned();
            text.append(e.as_str());
            assert(text@.subrange(0, what@.len() as int) =~= what@);
            Err(text)
        },
    }
}

/// Why TLS material cannot be used.
#[derive(Clone, Copy, Debug, PartialEq, Eq, Structural)]
pub enum TlsError {
    /// The certificate PEM cannot be parsed.
    BadCertPem,
    /// There is no certificate.
    NoCert,
    /// The key PEM cannot be parsed.
    BadKeyPem,
    /// There is no private key.
    NoKey,
}

/// The certificates and the private key that a server presents.
pub struct Identity {
    pub certs: Vec<Vec<u8>>,
    pub key: PrivateKey,
}

/// Judge what was parsed from TLS material: certificates first, then the key.
pub fn identity_of(certs: Option<Vec<Vec<u8>>>, key: Option<Option<PrivateKey>>) -> (r: Result<
    Identity,
    TlsError,
>)
    ensures
        match r {
            Ok(id) => certs == Some(id.certs) && id.certs@.len() > 0 && key == Some(Some(id.key)),
            Err(TlsError::BadCertPem) => certs is None,
            Err(TlsError::NoCert) => certs matches Some(c) && c@.len() == 0,
            Err(TlsError::BadKeyPem) => (certs matches Some(c) && c@.len() > 0) && key is None,
            Err(TlsError::NoKey) => (certs matches Some(c) && c@.len() > 0) && key == Some(
                None::<PrivateKey>,
            ),
        },
{
    let certs = match certs {
        Some(c) => c,
        None => {
            return Err(TlsError::BadCertPem);
        },
    };
    if certs.len() == 0 {
        return Err(TlsError::NoCert);
    }
    match key {
        Some(Some(k)) => Ok(Identity { certs, key: k }),
        Some(None) => Err(TlsError::NoKey),
        None => Err(TlsError::BadKeyPem),
    }
}

/// Read the identity of a server from its TLS material.
pub fn server_identity(material: &TlsMaterial) -> (r: Result<Identity, TlsError>)
    ensures
        match r {
            Ok(id) => {
                &&& material.is_usable()
                &&& pem_certs_of(material.cert_pem@) == Some(blobs(id.certs@))
                &&& pem_key_of(material.key_pem@) == Some(Some(numbered(id.key@)))
            },
            Err(TlsError::BadCertPem) => pem_certs_of(material.cert_pem@) is None,
            Err(TlsError::NoCert) => pem_certs_of(material.cert_pem@) == Some(
                Seq::<Seq<u8>>::empty(),
            ),
            Err(TlsError::BadKeyPem) => {
                &&& pem_certs_of(material.cert_pem@) matches Some(c) && c.len() > 0
                &&& pem_key_of(material.key_pem@) is None
            },
            Err(TlsError::NoKey) => {
                &&& pem_certs_of(material.cert_pem@) matches Some(c) && c.len() > 0
                &&& pem_key_of(material.key_pem@) == Some(None::<(nat, Seq<u8>)>)
            },
        },
{
    let certs = pem_certs(&material.cert_pem);
    let key = pem_key(&material.key_pem);
    proof {
        if certs is Some && certs->0@.len() == 0 {
            assert(blobs(certs->0@) =~= Seq::<Seq<u8>>::empty());
        }
    }
    identity_of(certs, key)
}

impl TlsError {
    /// The text of the error.
    pub fn message(&self) -> (r: String)
        ensures
            r@ == (match *self {
                TlsError::BadCertPem => "parsing fast-lane certificate PEM"@,
                TlsError::NoCert => "no certificate found in TLS material"@,
                TlsError::BadKeyPem => "parsing fast-lane private key PEM"@,
                TlsError::NoKey => "no private key found in TLS material"@,
            }),
    {
        match *self {
            TlsError::BadCertPem => "parsing fast-lane certificate PEM".to_owned(),
            TlsError::NoCert => "no certificate found in TLS material".to_owned(),
            TlsError::BadKeyPem => "parsing fast-lane private key PEM".to_owned(),
            TlsError::NoKey => "no private key found in TLS material".to_owned(),
        }
    }
}

// ---- Laws ----

/// A client that pins the fingerprint of a server's material accepts the certificate that the
/// server presents, and no certificate with another digest.
pub proof fn pinned_certificate_is_the_one_presented(material: TlsMaterial, id: Identity, der: Seq<u8>)
    requires
        material.pins_itself(),
        pem_certs_of(material.cert_pem@) == Some(blobs(id.certs@)),
    ensures
        fingerprint(id.certs@[0]@) == material.fingerprint@,
        fingerprint(der) == material.fingerprint@ <==> fingerprint(der) == fingerprint(
            id.certs@[0]@,
        ),
{
    assert(blobs(id.certs@)[0] == id.certs@[0]@);
}

/// Each byte of a fingerprint is two lower-case hexadecimal digits, the higher one first.
pub proof fn fingerprints_stand_byte_by_byte(b: Seq<u8>, i: int)
    requires
        0 <= i < b.len(),
    ensures
        hex_bytes(b).len() == 2 * b.len(),
        hex_bytes(b)[2 * i] == "0123456789abcdef"@[b[i] as int / 16],
        hex_bytes(b)[2 * i + 1] == "0123456789abcdef"@[b[i] as int % 16],
    decreases b.len(),
{
    reveal_strlit("0123456789abcdef");
    lemma_hex_bytes_len(b);
    lemma_hex_bytes_len(b.drop_last());
    let n = b.last() as nat;
    reveal_with_fuel(hex, 3);
    assert(hex(n, 2) =~= seq![hex_char((n / 16) % 16), hex_char(n % 16)]);
    if i < b.len() - 1 {
        fingerprints_stand_byte_by_byte(b.drop_last(), i);
        assert(hex_bytes(b)[2 * i] == hex_bytes(b.drop_last())[2 * i]);
        assert(hex_bytes(b)[2 * i + 1] == hex_bytes(b.drop_last())[2 * i + 1]);
    } else {
        assert(hex_bytes(b)[2 * i] == hex(n, 2)[0]);
        assert(hex_bytes(b)[2 * i + 1] == hex(n, 2)[1]);
    }
}

} // verus!
