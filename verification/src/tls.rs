//! TLS termination: certificates from PEM text, and which certificate serves which host.

use std::sync::Arc;
use vstd::prelude::*;
use vstd::string::*;
use crate::table::Table;
use crate::text::{lower_text, text_eq};

verus! {

/// What a listener does with TLS.
#[derive(Debug, Clone, Copy, PartialEq, Eq, Structural)]
pub enum TlsMode {
    /// Decrypt at the gateway
    Terminate,
    /// Hand through as it is
    Passthrough,
}

/// A certificate chain and its private key, both as PEM text.
#[derive(Clone)]
pub struct TlsCertificate {
    pub cert_chain: Vec<u8>,
    pub private_key: Vec<u8>,
}

/// The TLS setup of a host.
#[derive(Clone)]
pub struct TlsConfig {
    pub hostname: String,
    pub mode: TlsMode,
    pub certificate: TlsCertificate,
}

/// The encoding of a private key.
#[derive(Debug, Clone, Copy, PartialEq, Eq, Structural)]
pub enum KeyKind {
    Pkcs1,
    Pkcs8,
    Sec1,
}

/// A private key, decoded from PEM.
pub struct PrivateKey {
    pub kind: KeyKind,
    pub der: Vec<u8>,
}

impl KeyKind {
    /// A number for each encoding.
    pub open spec fn code(self) -> u8 {
        match self {
            KeyKind::Pkcs1 => 1,
            KeyKind::Pkcs8 => 8,
            KeyKind::Sec1 => 5,
        }
    }
}

/// What a list of byte strings holds.
pub open spec fn chain(certs: Seq<Vec<u8>>) -> Seq<Seq<u8>> {
    Seq::new(certs.len(), |i: int| certs[i]@)
}

/// An optional text as characters.
pub open spec fn text_view(text: Option<String>) -> Option<Seq<char>> {
    match text {
        Some(t) => Some(t@),
        None => None,
    }
}

/// The error of a result as characters, where there is one.
pub open spec fn error_view<T>(r: Result<T, String>) -> Option<Seq<char>> {
    match r {
        Ok(_) => None,
        Err(t) => Some(t@),
    }
}

/// The certificates in a PEM text, or the text of the error in it.
pub uninterp spec fn parsed_certs(pem: Seq<u8>) -> Result<Seq<Seq<u8>>, Seq<char>>;

/// The first private key in a PEM text, as the number of its encoding and its bytes, or the text
/// of the error in it.
pub uninterp spec fn parsed_key(pem: Seq<u8>) -> Result<Option<(u8, Seq<u8>)>, Seq<char>>;

/// Why a private key cannot sign; `None` where it can.
pub uninterp spec fn signing_refusal(kind: u8, der: Seq<u8>) -> Option<Seq<char>>;

/// Why a certificate chain cannot serve a host name; `None` where it can.
pub uninterp spec fn name_refusal(name: Seq<char>, certs: Seq<Seq<u8>>) -> Option<Seq<char>>;

/// Why a server cannot be set up with one chain and key; `None` where it can.
pub uninterp spec fn config_refusal(
    certs: Seq<Seq<u8>>,
    kind: u8,
    der: Seq<u8>,
) -> Option<Seq<char>>;

/// The resolver of `rustls` that picks a certificate by host name.
#[verifier::external_type_specification]
#[verifier::external_body]
pub struct ExResolvesServerCertUsingSni(rustls::server::ResolvesServerCertUsingSni);

/// The server setup of `rustls`.
#[verifier::external_type_specification]
#[verifier::external_body]
pub struct ExServerConfig(rustls::ServerConfig);

/// What a resolver serves, by host name in lower case: the certificate chain, and the key that
/// signs for it as the number of its encoding and its bytes.
pub uninterp spec fn served(
    resolver: rustls::server::ResolvesServerCertUsingSni,
) -> Map<Seq<char>, (Seq<Seq<u8>>, u8, Seq<u8>)>;

/// What a server setup presents to every client: the certificate chain, and the key that signs for
/// it as the number of its encoding and its bytes.
pub uninterp spec fn presented(config: rustls::ServerConfig) -> (Seq<Seq<u8>>, u8, Seq<u8>);

/// No host is served.
pub open spec fn no_chains() -> Map<Seq<char>, (Seq<Seq<u8>>, u8, Seq<u8>)> {
    Map::empty()
}

/// `rustls_pemfile::certs`, collected: all certificates of a PEM text in order, or the first error
/// in it; which of them follows from the text.
#[verifier::external_body]
pub(crate) fn pem_certs(pem: &[u8]) -> (r: Result<Vec<Vec<u8>>, String>)
    ensures
        match r {
            Ok(certs) => parsed_certs(pem@) == Ok::<Seq<Seq<u8>>, Seq<char>>(chain(certs@)),
            Err(text) => parsed_certs(pem@) == Err::<Seq<Seq<u8>>, Seq<char>>(text@),
        },
{
    let mut reader: &[u8] = pem;
    let certs: Result<Vec<_>, std::io::Error> = rustls_pemfile::certs(&mut reader).collect();
    certs.map(|list| list.iter().map(|c| c.to_vec()).collect()).map_err(|e| e.to_string())
}

/// `rustls_pemfile::private_key`: the first private key of a PEM text, none, or the first error
/// before it; which of them follows from the text.
#[verifier::external_body]
pub(crate) fn pem_key(pem: &[u8]) -> (r: Result<Option<PrivateKey>, String>)
    ensures
        match r {
            Ok(Some(key)) => parsed_key(pem@) == Ok::<Option<(u8, Seq<u8>)>, Seq<char>>(
                Some((key.kind.code(), key.der@)),
            ),
            Ok(None) => parsed_key(pem@) == Ok::<Option<(u8, Seq<u8>)>, Seq<char>>(None),
            Err(text) => parsed_key(pem@) == Err::<Option<(u8, Seq<u8>)>, Seq<char>>(text@),
        },
{
    let mut reader: &[u8] = pem;
    let found = rustls_pemfile::private_key(&mut reader).map_err(|e| e.to_string())?;
    Ok(found.map(|key| PrivateKey {
        kind: match &key {
            rustls::pki_types::PrivateKeyDer::Pkcs1(_) => KeyKind::Pkcs1,
            rustls::pki_types::PrivateKeyDer::Pkcs8(_) => KeyKind::Pkcs8,
            _ => KeyKind::Sec1,
        },
        der: key.secret_der().to_vec(),
    }))
}

/// `rustls::crypto::ring::sign::any_supported_type`: whether a private key can sign follows from
/// its encoding and bytes.
#[verifier::external_body]
pub(crate) fn signing_error(key: &PrivateKey) -> (r: Option<String>)
    ensures
        text_view(r) == signing_refusal(key.kind.code(), key.der@),
{
    let der = key.der.clone();
    let key_der: rustls::pki_types::PrivateKeyDer<'static> = match key.kind {
        KeyKind::Pkcs1 => rustls::pki_types::PrivatePkcs1KeyDer::from(der).into(),
        KeyKind::Pkcs8 => rustls::pki_types::PrivatePkcs8KeyDer::from(der).into(),
        KeyKind::Sec1 => rustls::pki_types::PrivateSec1KeyDer::from(der).into(),
    };
    rustls::crypto::ring::sign::any_supported_type(&key_der).err().map(|e| e.to_string())
}

/// `rustls::server::ResolvesServerCertUsingSni::new`: a resolver that serves no host.
#[verifier::external_body]
pub(crate) fn new_resolver() -> (r: rustls::server::ResolvesServerCertUsingSni)
    ensures
        served(r) == no_chains(),
{
    rustls::server::ResolvesServerCertUsingSni::new()
}

/// `rustls::server::ResolvesServerCertUsingSni::add`: a chain that is valid for a host name serves
/// it from then on with its key, in place of an earlier one; any other leaves the resolver as it
/// was. Whether it is valid follows from the name and the chain.
#[verifier::external_body]
pub(crate) fn resolver_add(
    resolver: &mut rustls::server::ResolvesServerCertUsingSni,
    name: &str,
    certs: Vec<Vec<u8>>,
    key: &PrivateKey,
) -> (r: Result<(), String>)
    requires
        signing_refusal(key.kind.code(), key.der@) is None,
    ensures
        match r {
            Ok(_) => {
                &&& name_refusal(name@, chain(certs@)) is None
                &&& served(*final(resolver)) == served(*old(resolver)).insert(
                    lower_text(name@),
                    (chain(certs@), key.kind.code(), key.der@),
                )
            },
            Err(text) => {
                &&& name_refusal(name@, chain(certs@)) == Some(text@)
                &&& served(*final(resolver)) == served(*old(resolver))
            },
        },
{
    let der = key.der.clone();
    let key_der: rustls::pki_types::PrivateKeyDer<'static> = match key.kind {
        KeyKind::Pkcs1 => rustls::pki_types::PrivatePkcs1KeyDer::from(der).into(),
        KeyKind::Pkcs8 => rustls::pki_types::PrivatePkcs8KeyDer::from(der).into(),
        KeyKind::Sec1 => rustls::pki_types::PrivateSec1KeyDer::from(der).into(),
    };
    let signer = rustls::crypto::ring::sign::any_supported_type(&key_der).unwrap();
    let list = certs.into_iter().map(rustls::pki_types::CertificateDer::from).collect();
    let certified = rustls::sign::CertifiedKey::new(list, signer);
    resolver.add(name, certified).map_err(|e| e.to_string())
}

/// `rustls::ServerConfig` with one chain and key and no client certificates, over the `ring`
/// provider: whether it can be set up follows from the chain and the key, and the setup presents
/// that chain with that key. What else a setup holds, such as its protocol versions, is left
/// unsaid.
#[verifier::external_body]
pub(crate) fn single_cert_config(certs: Vec<Vec<u8>>, key: &PrivateKey) -> (r: Result<
    Arc<rustls::ServerConfig>,
    String,
>)
    ensures
        error_view(r) == config_refusal(chain(certs@), key.kind.code(), key.der@),
        r matches Ok(config) ==> presented(*config) == (chain(certs@), key.kind.code(), key.der@),
{
    let der = key.der.clone();
    let key_der: rustls::pki_types::PrivateKeyDer<'static> = match key.kind {
        KeyKind::Pkcs1 => rustls::pki_types::PrivatePkcs1KeyDer::from(der).into(),
        KeyKind::Pkcs8 => rustls::pki_types::PrivatePkcs8KeyDer::from(der).into(),
        KeyKind::Sec1 => rustls::pki_types::PrivateSec1KeyDer::from(der).into(),
    };
    let list = certs.into_iter().map(rustls::pki_types::CertificateDer::from).collect();
    let provider = Arc::new(rustls::crypto::ring::default_provider());
    let builder = rustls::ServerConfig::builder_with_provider(provider);
    let builder = builder.with_safe_default_protocol_versions().map_err(|e| e.to_string())?;
    let config = builder.with_no_client_auth().with_single_cert(list, key_der);
    config.map(Arc::new).map_err(|e| e.to_string())
}

/// What two PEM texts hold: the certificates of the one and the private key of the other, or why
/// they do not.
pub open spec fn decoded(
    certs: Result<Seq<Seq<u8>>, Seq<char>>,
    key: Result<Option<(u8, Seq<u8>)>, Seq<char>>,
) -> Result<(Seq<Seq<u8>>, u8, Seq<u8>), Seq<char>> {
    match certs {
        Err(text) => Err(text),
        Ok(list) => match key {
            Err(text) => Err(text),
            Ok(None) => Err("No private key found"@),
            Ok(Some(k)) => Ok((list, k.0, k.1)),
        },
    }
}

/// The key that was found, or why there is none.
pub fn found_key(key: Result<Option<PrivateKey>, String>) -> (r: Result<PrivateKey, String>)
    ensures
        match key {
            Ok(Some(k)) => r == Ok::<PrivateKey, String>(k),
            Ok(None) => r is Err && r->Err_0@ == "No private key found"@,
            Err(e) => r == Err::<PrivateKey, String>(e),
        },
{
    match key {
        Ok(Some(k)) => Ok(k),
        Ok(None) => Err("No private key found".to_owned()),
        Err(e) => Err(e),
    }
}

/// Copies bytes.
fn copy_bytes(bytes: &[u8]) -> (r: Vec<u8>)
    ensures
        r@ == bytes@,
{
    let mut out: Vec<u8> = Vec::new();
    let mut i: usize = 0;
    while i < bytes.len()
        invariant
            i <= bytes.len(),
            out@ == bytes@.take(i as int),
        decreases bytes.len() - i,
    {
        out.push(bytes[i]);
        assert(bytes@.take(i as int + 1) =~= bytes@.take(i as int).push(bytes[i as int]));
        i += 1;
    }
    assert(bytes@.take(i as int) =~= bytes@);
    out
}

/// Decodes two PEM texts.
fn decode(cert_pem: &[u8], key_pem: &[u8]) -> (r: Result<(Vec<Vec<u8>>, PrivateKey), String>)
    ensures
        match decoded(parsed_certs(cert_pem@), parsed_key(key_pem@)) {
            Ok((certs, kind, der)) => {
                &&& r is Ok
                &&& chain(r->Ok_0 .0@) == certs
                &&& r->Ok_0 .1.kind.code() == kind
                &&& r->Ok_0 .1.der@ == der
            },
            Err(text) => r is Err && r->Err_0@ == text,
        },
{
    let certs = match pem_certs(cert_pem) {
        Ok(c) => c,
        Err(e) => {
            return Err(e);
        },
    };
    match found_key(pem_key(key_pem)) {
        Ok(key) => Ok((certs, key)),
        Err(e) => Err(e),
    }
}

impl TlsCertificate {
    /// A certificate chain and its private key.
    pub fn new(cert_chain: Vec<u8>, private_key: Vec<u8>) -> (r: Self)
        ensures
            r.cert_chain == cert_chain,
            r.private_key == private_key,
    {
        TlsCertificate { cert_chain, private_key }
    }

    /// What this certificate holds.
    pub open spec fn contents(&self) -> Result<(Seq<Seq<u8>>, u8, Seq<u8>), Seq<char>> {
        decoded(parsed_certs(self.cert_chain@), parsed_key(self.private_key@))
    }

    /// A certificate from two PEM texts that can be decoded.
    pub fn from_pem(cert_pem: &[u8], key_pem: &[u8]) -> (r: Result<Self, String>)
        ensures
            match decoded(parsed_certs(cert_pem@), parsed_key(key_pem@)) {
                Ok(_) => {
                    &&& r is Ok
                    &&& r->Ok_0.cert_chain@ == cert_pem@
                    &&& r->Ok_0.private_key@ == key_pem@
                },
                Err(text) => r is Err && r->Err_0@ == text,
            },
    {
        match decode(cert_pem, key_pem) {
            Ok(_) => Ok(
                TlsCertificate {
                    cert_chain: copy_bytes(cert_pem),
                    private_key: copy_bytes(key_pem),
                },
            ),
            Err(e) => Err(e),
        }
    }

    /// The setup of a server with this certificate.
    pub fn to_server_config(&self) -> (r: Result<Arc<rustls::ServerConfig>, String>)
        ensures
            match self.contents() {
                Ok((certs, kind, der)) => match config_refusal(certs, kind, der) {
                    None => r matches Ok(config) && presented(*config) == (certs, kind, der),
                    Some(text) => r is Err && r->Err_0@ == text,
                },
                Err(text) => r is Err && r->Err_0@ == text,
            },
    {
        match decode(self.cert_chain.as_slice(), self.private_key.as_slice()) {
            Ok((certs, key)) => single_cert_config(certs, &key),
            Err(e) => Err(e),
        }
    }
}

/// Why a certificate cannot serve a host; what serves it where it can.
pub open spec fn servable(
    hostname: Seq<char>,
    contents: Result<(Seq<Seq<u8>>, u8, Seq<u8>), Seq<char>>,
) -> Result<(Seq<Seq<u8>>, u8, Seq<u8>), Seq<char>> {
    match contents {
        Err(text) => Err(text),
        Ok((certs, kind, der)) => match signing_refusal(kind, der) {
            Some(text) => Err(text),
            None => match name_refusal(hostname, certs) {
                Some(text) => Err(text),
                None => Ok((certs, kind, der)),
            },
        },
    }
}

/// Certificates by host name.
pub struct SniResolver {
    inner: rustls::server::ResolvesServerCertUsingSni,
    hostnames: Table<String, ()>,
}

impl SniResolver {
    /// The chain and key that each host name, in lower case, is served with.
    pub closed spec fn chains(&self) -> Map<Seq<char>, (Seq<Seq<u8>>, u8, Seq<u8>)> {
        served(self.inner)
    }

    /// Whether a certificate was installed for a host, with the given result: one that can serve
    /// the host does so from then on, and any other changes nothing.
    pub open spec fn installed(
        before: SniResolver,
        after: SniResolver,
        hostname: Seq<char>,
        cert: TlsCertificate,
        r: Result<(), String>,
    ) -> bool {
        match servable(hostname, cert.contents()) {
            Ok(certified) => r is Ok && after.chains() == before.chains().insert(
                lower_text(hostname),
                certified,
            ),
            Err(text) => r is Err && r->Err_0@ == text && after.chains() == before.chains(),
        }
    }

    /// The host names that certificates were added for.
    pub closed spec fn hosts(&self) -> Set<Seq<char>> {
        self.hostnames.map().dom()
    }

    /// No host name is kept twice.
    pub closed spec fn wf(&self) -> bool {
        self.hostnames.wf()
    }

    /// No certificate yet.
    pub fn new() -> (r: Self)
        ensures
            r.wf(),
            r.chains() == no_chains(),
            r.hosts() == Set::<Seq<char>>::empty(),
    {
        let r = SniResolver { inner: new_resolver(), hostnames: Table::new() };
        assert(r.hosts() =~= Set::<Seq<char>>::empty());
        r
    }

    /// Serves a host with a certificate.
    fn install(&mut self, hostname: &str, cert: &TlsCertificate) -> (r: Result<(), String>)
        requires
            old(self).wf(),
        ensures
            final(self).wf(),
            final(self).hosts() == old(self).hosts(),
            SniResolver::installed(*old(self), *final(self), hostname@, *cert, r),
    {
        match decode(cert.cert_chain.as_slice(), cert.private_key.as_slice()) {
            Ok((certs, key)) => match signing_error(&key) {
                Some(text) => Err(text),
                None => resolver_add(&mut self.inner, hostname, certs, &key),
            },
            Err(e) => Err(e),
        }
    }

    /// Adds a certificate for a host.
    pub fn add_cert(&mut self, hostname: String, cert: TlsCertificate) -> (r: Result<(), String>)
        requires
            old(self).wf(),
        ensures
            final(self).wf(),
            SniResolver::installed(*old(self), *final(self), hostname@, cert, r),
            final(self).hosts() == if r is Ok {
                old(self).hosts().insert(hostname@)
            } else {
                old(self).hosts()
            },
    {
        match self.install(hostname.as_str(), &cert) {
            Ok(_) => {
                let ghost before = self.hosts();
                self.hostnames.insert(hostname.as_str(), ());
                assert(self.hosts() =~= before.insert(hostname@));
                Ok(())
            },
            Err(e) => Err(e),
        }
    }

    /// Replaces the certificate of a host without interrupting it; the host counts as known only
    /// if a certificate was added for it.
    pub fn update_cert(&mut self, hostname: String, cert: TlsCertificate) -> (r: Result<(), String>)
        requires
            old(self).wf(),
        ensures
            final(self).wf(),
            final(self).hosts() == old(self).hosts(),
            SniResolver::installed(*old(self), *final(self), hostname@, cert, r),
    {
        self.install(hostname.as_str(), &cert)
    }

    /// Whether a certificate was added for a host.
    pub fn has_cert(&self, hostname: &str) -> (r: bool)
        requires
            self.wf(),
        ensures
            r == self.hosts().contains(hostname@),
    {
        self.hostnames.contains_key(hostname)
    }

    /// The resolver itself, for handshakes.
    pub fn resolver(&self) -> (r: &rustls::server::ResolvesServerCertUsingSni)
        ensures
            served(*r) == self.chains(),
    {
        &self.inner
    }
}

impl Default for SniResolver {
    fn default() -> (r: Self)
        ensures
            r.wf(),
            r.chains() == no_chains(),
            r.hosts() == Set::<Seq<char>>::empty(),
    {
        SniResolver::new()
    }
}

/// What a secret's data holds under a name; the first entry counts.
pub open spec fn entry(data: Seq<(String, Vec<u8>)>, name: Seq<char>) -> Option<Seq<u8>>
    decreases data.len(),
{
    if data.len() == 0 {
        None
    } else if data[0].0@ == name {
        Some(data[0].1@)
    } else {
        entry(data.drop_first(), name)
    }
}

/// Looks an entry of a secret's data up.
fn find_entry<'a>(data: &'a Vec<(String, Vec<u8>)>, name: &str) -> (r: Option<&'a Vec<u8>>)
    ensures
        match entry(data@, name@) {
            Some(bytes) => r is Some && r->0@ == bytes,
            None => r is None,
        },
{
    let mut i: usize = 0;
    assert(data@.skip(0) =~= data@);
    while i < data.len()
        invariant
            i <= data.len(),
            entry(data@.skip(i as int), name@) == entry(data@, name@),
        decreases data.len() - i,
    {
        assert(data@.skip(i as int)[0] == data@[i as int]);
        assert(data@.skip(i as int).drop_first() =~= data@.skip(i as int + 1));
        if text_eq(data[i].0.as_str(), name) {
            return Some(&data[i].1);
        }
        i += 1;
    }
    None
}

/// The two PEM texts of a secret, or what it lacks.
pub open spec fn secret_pems(data: Option<Vec<(String, Vec<u8>)>>) -> Result<
    (Seq<u8>, Seq<u8>),
    Seq<char>,
> {
    match data {
        None => Err("Secret has no data"@),
        Some(entries) => match entry(entries@, "tls.crt"@) {
            None => Err("Secret missing tls.crt"@),
            Some(cert) => match entry(entries@, "tls.key"@) {
                None => Err("Secret missing tls.key"@),
                Some(key) => Ok((cert, key)),
            },
        },
    }
}

/// Reads a certificate from a secret's data: the chain under `tls.crt`, the key under `tls.key`.
pub fn parse_cert_from_secret_data(data: &Option<Vec<(String, Vec<u8>)>>) -> (r: Result<
    TlsCertificate,
    String,
>)
    ensures
        match secret_pems(*data) {
            Err(text) => r is Err && r->Err_0@ == text,
            Ok((cert, key)) => match decoded(parsed_certs(cert), parsed_key(key)) {
                Ok(_) => {
                    &&& r is Ok
                    &&& r->Ok_0.cert_chain@ == cert
                    &&& r->Ok_0.private_key@ == key
                },
                Err(text) => r is Err && r->Err_0@ == text,
            },
        },
{
    match data {
        None => Err("Secret has no data".to_owned()),
        Some(entries) => match find_entry(entries, "tls.crt") {
            None => Err("Secret missing tls.crt".to_owned()),
            Some(cert) => match find_entry(entries, "tls.key") {
                None => Err("Secret missing tls.key".to_owned()),
                Some(key) => TlsCertificate::from_pem(cert.as_slice(), key.as_slice()),
            },
        },
    }
}

/// A certificate that is installed serves its host at once, in whatever case the host's name is
/// written, and no other host is touched. One that cannot serve its host leaves every host served
/// as before.
pub proof fn lemma_reload_serves_new_chain(
    before: SniResolver,
    after: SniResolver,
    hostname: Seq<char>,
    cert: TlsCertificate,
    r: Result<(), String>,
    asked: Seq<char>,
)
    requires
        SniResolver::installed(before, after, hostname, cert, r),
    ensures
        r is Ok && lower_text(asked) == lower_text(hostname) ==> {
            &&& after.chains().contains_key(lower_text(asked))
            &&& cert.contents() == Ok::<(Seq<Seq<u8>>, u8, Seq<u8>), Seq<char>>(
                after.chains()[lower_text(asked)],
            )
        },
        r is Err || lower_text(asked) != lower_text(hostname) ==> {
            &&& after.chains().contains_key(lower_text(asked)) == before.chains().contains_key(
                lower_text(asked),
            )
            &&& after.chains()[lower_text(asked)] == before.chains()[lower_text(asked)]
        },
{
}

/// An entry of a secret is the first one under its name, and there is none exactly if no entry has
/// that name.
pub proof fn lemma_first_entry_counts(data: Seq<(String, Vec<u8>)>, name: Seq<char>, i: int)
    requires
        0 <= i < data.len(),
    ensures
        data[i].0@ == name && (forall|j: int| 0 <= j < i ==> (#[trigger] data[j]).0@ != name)
            ==> entry(data, name) == Some(data[i].1@),
        data[i].0@ == name ==> entry(data, name) is Some,
        (forall|j: int| 0 <= j < data.len() ==> (#[trigger] data[j]).0@ != name) ==> entry(
            data,
            name,
        ) is None,
    decreases data.len(),
{
    let rest = data.drop_first();
    if data[0].0@ != name {
        if i > 0 {
            lemma_first_entry_counts(rest, name, i - 1);
            assert(rest[i - 1] == data[i]);
            if forall|j: int| 0 <= j < i ==> (#[trigger] data[j]).0@ != name {
                assert forall|j: int| 0 <= j < i - 1 implies (#[trigger] rest[j]).0@ != name by {
                    assert(data[j + 1].0@ != name);
                }
            }
        }
        if forall|j: int| 0 <= j < data.len() ==> (#[trigger] data[j]).0@ != name {
            assert forall|j: int| 0 <= j < rest.len() implies (#[trigger] rest[j]).0@ != name by {
                assert(data[j + 1].0@ != name);
            }
            if rest.len() > 0 {
                lemma_first_entry_counts(rest, name, 0);
            }
        }
    }
}

/// A secret gives a certificate exactly if it has both entries; what it lacks is told, the chain
/// before the key.
pub proof fn lemma_secret_needs_both(entries: Vec<(String, Vec<u8>)>)
    ensures
        secret_pems(None) == Err::<(Seq<u8>, Seq<u8>), Seq<char>>("Secret has no data"@),
        ({
            let cert = entry(entries@, "tls.crt"@);
            let key = entry(entries@, "tls.key"@);
            let r = secret_pems(Some(entries));
            &&& cert is Some && key is Some ==> r == Ok::<(Seq<u8>, Seq<u8>), Seq<char>>(
                (cert->0, key->0),
            )
            &&& cert is None ==> r == Err::<(Seq<u8>, Seq<u8>), Seq<char>>(
                "Secret missing tls.crt"@,
            )
            &&& cert is Some && key is None ==> r == Err::<(Seq<u8>, Seq<u8>), Seq<char>>(
                "Secret missing tls.key"@,
            )
        }),
{
}

/// A certificate is installed exactly if its two texts can be decoded and hold a key, the key can
/// sign, and the chain is for the host; otherwise the first of these that fails is told.
pub proof fn lemma_installed_if_usable(
    before: SniResolver,
    after: SniResolver,
    hostname: Seq<char>,
    cert: TlsCertificate,
    r: Result<(), String>,
)
    requires
        SniResolver::installed(before, after, hostname, cert, r),
    ensures
        match (parsed_certs(cert.cert_chain@), parsed_key(cert.private_key@)) {
            (Err(text), _) => r is Err && r->Err_0@ == text,
            (Ok(_), Err(text)) => r is Err && r->Err_0@ == text,
            (Ok(_), Ok(None)) => r is Err && r->Err_0@ == "No private key found"@,
            (Ok(certs), Ok(Some(key))) => match (
                signing_refusal(key.0, key.1),
                name_refusal(hostname, certs),
            ) {
                (Some(text), _) => r is Err && r->Err_0@ == text,
                (None, Some(text)) => r is Err && r->Err_0@ == text,
                (None, None) => r is Ok && after.chains()[lower_text(hostname)] == (
                    certs,
                    key.0,
                    key.1,
                ),
            },
        },
{
}

} // verus!
