//! The self-signed certificate for the HTTPS listener. It covers `localhost`,
//! `127.0.0.1` and every announced LAN address, and is cached under
//! `<library>/.gausify/`: when both cached files exist they are reused,
//! otherwise a fresh key and certificate are generated with `rcgen`.
use rcgen::{CertificateParams, DistinguishedName, DnType, KeyPair, SanType};
use std::path::PathBuf;
use vstd::prelude::*;
use vstd::string::*;
use vstd::utf8::*;

verus! {

#[verifier::external_type_specification]
#[verifier::external_body]
pub struct ExRcgenError(rcgen::Error);

/// Directory, under the library root, that holds the cached pair.
pub const CERT_DIR: &'static str = ".gausify";

/// File name of the cached certificate.
pub const CERT_FILE: &'static str = "cert.pem";

/// File name of the cached private key.
pub const KEY_FILE: &'static str = "key.pem";

/// `127.0.0.1` in network order.
pub const LOCALHOST_V4: u32 = 0x7f00_0001;

/// Where the certificate and key live for a library.
pub struct CertPaths {
    pub cert: PathBuf,
    pub key: PathBuf,
}

/// A subject alternative name the certificate covers.
pub enum SubjectAltName {
    /// A DNS name.
    Dns(String),
    /// An IPv4 address in network order.
    Ipv4(u32),
}

/// The abstract value of a subject alternative name.
pub enum SanView {
    Dns(Seq<char>),
    Ipv4(u32),
}

impl View for SubjectAltName {
    type V = SanView;

    open spec fn view(&self) -> SanView {
        match self {
            SubjectAltName::Dns(s) => SanView::Dns(s@),
            SubjectAltName::Ipv4(a) => SanView::Ipv4(*a),
        }
    }
}

/// What the certificate is made for.
pub struct CertRequest {
    pub common_name: String,
    pub subject_alt_names: Vec<SubjectAltName>,
}

/// A freshly generated certificate and private key, PEM-encoded.
pub struct GeneratedCert {
    pub cert_pem: String,
    pub key_pem: String,
}

/// Why no certificate could be produced.
pub enum CertError {
    /// `rcgen` refused a name or failed to generate or sign.
    Rcgen(rcgen::Error),
}

/// What the caller must do to have a usable pair at `paths`.
pub enum CertAction {
    /// Both files exist already: use them.
    Reuse(CertPaths),
    /// Write this freshly generated pair to `paths`, then use it.
    Write { paths: CertPaths, cert: GeneratedCert },
}

/// The names the certificate covers: `localhost`, `127.0.0.1`, then each
/// address of `ips` in order.
pub open spec fn requested_sans(ips: Seq<u32>) -> Seq<SanView> {
    seq![SanView::Dns("localhost"@), SanView::Ipv4(LOCALHOST_V4)] + ips.map_values(
        |a: u32| SanView::Ipv4(a),
    )
}

/// The views of a list of subject alternative names.
pub open spec fn sans_view(v: Seq<SubjectAltName>) -> Seq<SanView> {
    v.map_values(|s: SubjectAltName| s@)
}

/// A name `rcgen` cannot put in an `Ia5String`.
pub open spec fn is_rejected_san(s: SanView) -> bool {
    match s {
        SanView::Dns(name) => !is_ascii_chars(name),
        SanView::Ipv4(_) => false,
    }
}

/// Holds when `cert_pem` is a PEM-encoded self-signed X.509 certificate whose
/// subject common name is `common_name` and whose subject alternative names
/// are `sans`, in this order, signed with the private key that `key_pem`
/// holds (PEM-encoded), whose public key it carries.
pub uninterp spec fn self_signed_pair(
    cert_pem: Seq<char>,
    key_pem: Seq<char>,
    common_name: Seq<char>,
    sans: Seq<SanView>,
) -> bool;

/// Generates a self-signed certificate with `rcgen` from plain values: the
/// parameters come from `CertificateParams::new` with no names; each DNS name
/// becomes `SanType::DnsName` through `Ia5String::try_from(String)`, each
/// address `SanType::IpAddress`; the distinguished name is a fresh
/// `DistinguishedName` holding only `DnType::CommonName`; the key comes from
/// `KeyPair::generate`, the certificate from `CertificateParams::self_signed`,
/// the texts from `Certificate::pem` and `KeyPair::serialize_pem`. Claimed, as
/// the `rcgen` source shows: a DNS name that is not ASCII makes it fail, and on
/// success the texts are a self-signed certificate for exactly this common
/// name and these names, with its key. Key generation draws a random key and
/// may fail, as may signing; when they fail is not stated.
#[verifier::external_body]
fn rcgen_self_signed_pem(common_name: &str, sans: &Vec<SubjectAltName>) -> (r: Result<
    GeneratedCert,
    rcgen::Error,
>)
    ensures
        (exists|i: int| 0 <= i < sans@.len() && is_rejected_san(#[trigger] sans@[i]@)) ==> r is Err,
        r matches Ok(g) ==> self_signed_pair(g.cert_pem@, g.key_pem@, common_name@, sans_view(sans@)),
{
    let names = sans.iter().map(|san| match san {
        SubjectAltName::Dns(name) => name.clone().try_into().map(SanType::DnsName),
        SubjectAltName::Ipv4(a) => Ok(SanType::IpAddress(a.to_be_bytes().into())),
    }).collect::<Result<Vec<SanType>, rcgen::Error>>()?;
    let mut params = CertificateParams::new(Vec::<String>::new())?;
    params.subject_alt_names = names;
    let mut dn = DistinguishedName::new();
    dn.push(DnType::CommonName, common_name);
    params.distinguished_name = dn;
    let key = KeyPair::generate()?;
    let cert = params.self_signed(&key)?;
    Ok(GeneratedCert { cert_pem: cert.pem(), key_pem: key.serialize_pem() })
}

/// What the certificate is made for, given the announced addresses: common
/// name `Gausify Local Server`, names `localhost`, `127.0.0.1`, then `ips`.
pub fn cert_request(ips: &Vec<u32>) -> (r: CertRequest)
    ensures
        r.common_name@ == "Gausify Local Server"@,
        sans_view(r.subject_alt_names@) == requested_sans(ips@),
{
    let mut sans: Vec<SubjectAltName> = Vec::new();
    sans.push(SubjectAltName::Dns(String::from_str("localhost")));
    sans.push(SubjectAltName::Ipv4(LOCALHOST_V4));
    let ghost head = sans_view(sans@);
    assert(head =~= seq![SanView::Dns("localhost"@), SanView::Ipv4(LOCALHOST_V4)]);
    let n = ips.len();
    for i in 0..n
        invariant
            n == ips@.len(),
            sans_view(sans@) == head + ips@.take(i as int).map_values(|a: u32| SanView::Ipv4(a)),
    {
        let ghost before = sans_view(sans@);
        sans.push(SubjectAltName::Ipv4(ips[i]));
        assert(sans_view(sans@) =~= before.push(SanView::Ipv4(ips@[i as int])));
        assert(ips@.take(i + 1).map_values(|a: u32| SanView::Ipv4(a)) =~= ips@.take(
            i as int,
        ).map_values(|a: u32| SanView::Ipv4(a)).push(SanView::Ipv4(ips@[i as int])));
    }
    assert(ips@.take(n as int) =~= ips@);
    CertRequest { common_name: String::from_str("Gausify Local Server"), subject_alt_names: sans }
}

/// Generates a key and a self-signed certificate for `request` with `rcgen`,
/// handing it exactly the request's common name and names. The key is
/// random and its generation may fail, so success is not promised; a request
/// with a DNS name that is not ASCII always fails, and a certificate that
/// comes back is one for the request, with its key.
pub fn generate_cert(request: &CertRequest) -> (r: Result<GeneratedCert, CertError>)
    ensures
        (exists|i: int|
            0 <= i < request.subject_alt_names@.len() && is_rejected_san(
                #[trigger] request.subject_alt_names@[i]@,
            )) ==> r is Err,
        r matches Ok(g) ==> self_signed_pair(
            g.cert_pem@,
            g.key_pem@,
            request.common_name@,
            sans_view(request.subject_alt_names@),
        ),
{
    match rcgen_self_signed_pem(request.common_name.as_str(), &request.subject_alt_names) {
        Ok(g) => Ok(g),
        Err(e) => Err(CertError::Rcgen(e)),
    }
}

/// The decision for a cache in which the certificate and key files exist as
/// given: reuse `paths` when both exist; otherwise write there a pair
/// generated for `cert_request(ips)` (common name `Gausify Local Server`;
/// names `localhost`, `127.0.0.1`, then `ips`).
pub open spec fn cert_decision(
    paths: CertPaths,
    cert_exists: bool,
    key_exists: bool,
    ips: Seq<u32>,
    a: CertAction,
) -> bool {
    if cert_exists && key_exists {
        a == CertAction::Reuse(paths)
    } else {
        &&& a matches CertAction::Write { paths: p, cert }
        &&& p == paths
        &&& self_signed_pair(
            cert.cert_pem@,
            cert.key_pem@,
            "Gausify Local Server"@,
            requested_sans(ips),
        )
    }
}

/// What the certificate and key files hold once `a` is carried out, given
/// what they held before (`None` for a missing file): `Reuse` writes
/// nothing, `Write` writes both.
pub open spec fn cache_after(
    a: CertAction,
    cert: Option<Seq<char>>,
    key: Option<Seq<char>>,
) -> (Option<Seq<char>>, Option<Seq<char>>) {
    match a {
        CertAction::Reuse(_) => (cert, key),
        CertAction::Write { paths: _, cert: g } => (Some(g.cert_pem@), Some(g.key_pem@)),
    }
}

/// Decides how to have a usable pair at `paths`: reuse it when both files
/// exist, otherwise generate one for `cert_request(ips)` to be written
/// there. Only `rcgen` failing, when it generates, makes it fail.
pub fn ensure_cert(paths: CertPaths, cert_exists: bool, key_exists: bool, ips: &Vec<u32>) -> (r:
    Result<CertAction, CertError>)
    ensures
        cert_exists && key_exists ==> r is Ok,
        r matches Ok(a) ==> cert_decision(paths, cert_exists, key_exists, ips@, a),
        r is Err ==> !(cert_exists && key_exists),
{
    if cert_exists && key_exists {
        return Ok(CertAction::Reuse(paths));
    }
    let request = cert_request(ips);
    match generate_cert(&request) {
        Ok(cert) => Ok(CertAction::Write { paths, cert }),
        Err(e) => Err(e),
    }
}

/// Caching: once a decision has been carried out, both files exist, so the
/// next decision for them, whatever the addresses, reuses them and writes
/// nothing; the files keep the pair the first decision left, which is the
/// pair that was there already when it reused, and the freshly written one
/// when it generated.
pub proof fn lemma_second_decision_reuses(
    paths: CertPaths,
    cert: Option<Seq<char>>,
    key: Option<Seq<char>>,
    ips: Seq<u32>,
    first: CertAction,
    ips2: Seq<u32>,
    second: CertAction,
)
    requires
        cert_decision(paths, cert is Some, key is Some, ips, first),
        cert_decision(
            paths,
            cache_after(first, cert, key).0 is Some,
            cache_after(first, cert, key).1 is Some,
            ips2,
            second,
        ),
    ensures
        cache_after(first, cert, key).0 is Some,
        cache_after(first, cert, key).1 is Some,
        second == CertAction::Reuse(paths),
        cache_after(second, cache_after(first, cert, key).0, cache_after(first, cert, key).1)
            == cache_after(first, cert, key),
        first is Reuse ==> cache_after(first, cert, key) == (cert, key),
        first matches CertAction::Write { paths: _, cert: g } ==> cache_after(first, cert, key) == (
            Some(g.cert_pem@),
            Some(g.key_pem@),
        ),
{
}

/// Whenever the decision is to generate (a file is missing), the pair to be
/// written is a self-signed certificate for `Gausify Local Server` whose
/// names are `localhost`, `127.0.0.1` and then every address passed in, in
/// order, each as an IP name, and nothing else.
pub proof fn lemma_generated_cert_covers_every_address(
    paths: CertPaths,
    cert_exists: bool,
    key_exists: bool,
    ips: Seq<u32>,
    a: CertAction,
)
    requires
        cert_decision(paths, cert_exists, key_exists, ips, a),
        !(cert_exists && key_exists),
    ensures
        a matches CertAction::Write { paths: p, cert } && p == paths && exists|s: Seq<SanView>|
            #[trigger] self_signed_pair(cert.cert_pem@, cert.key_pem@, "Gausify Local Server"@, s)
                && s.len() == ips.len() + 2 && s[0] == SanView::Dns("localhost"@) && s[1]
                == SanView::Ipv4(0x7f00_0001) && forall|i: int|
                0 <= i < ips.len() ==> s[i + 2] == SanView::Ipv4(ips[i]),
{
    lemma_requested_sans(ips);
}

/// The certificate always covers `localhost` and `127.0.0.1` first, then
/// every announced address, in order, and nothing else; and `rcgen` accepts
/// all of these names (none is refused as non-ASCII).
pub proof fn lemma_requested_sans(ips: Seq<u32>)
    ensures
        requested_sans(ips).len() == ips.len() + 2,
        requested_sans(ips)[0] == SanView::Dns("localhost"@),
        requested_sans(ips)[1] == SanView::Ipv4(LOCALHOST_V4),
        forall|i: int| 0 <= i < ips.len() ==> #[trigger] requested_sans(ips)[i + 2] == SanView::Ipv4(ips[i]),
        forall|i: int|
            0 <= i < requested_sans(ips).len() ==> !is_rejected_san(#[trigger] requested_sans(ips)[i]),
{
    reveal_strlit("localhost");
    let r = requested_sans(ips);
    assert forall|i: int| 0 <= i < r.len() implies !is_rejected_san(#[trigger] r[i]) by {
        if i == 0 {
            assert(is_ascii_chars("localhost"@));
        }
    }
}

} // verus!
