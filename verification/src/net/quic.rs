//! QUIC endpoint configuration for both ends of an authoritative client-server
//! link.
//!
//! * **ALPN** is how a server refuses a client speaking a different protocol
//!   *during* the handshake rather than by getting confused later, so every
//!   game needs its own — and versioning it (`"mygame/1"`) makes an
//!   incompatible protocol bump a clean handshake rejection.
//! * **The certificate.** [`CertSource`] makes the choice explicit at the call
//!   site.
//!
//! Certificates and keys are DER bytes. Generating an identity and assembling
//! a TLS configuration are rcgen's, rustls's and quinn's work; what is decided
//! here is which identity is used, what is refused, and what each failure is
//! reported as.

use std::sync::Arc;
use vstd::prelude::*;
use vstd::slice::slice_to_vec;
use vstd::string::*;

verus! {

/// The server half of a QUIC configuration, `quinn::ServerConfig`.
#[verifier::external_type_specification]
#[verifier::external_body]
pub struct ExQuinnServerConfig(quinn::ServerConfig);

/// The client half of a QUIC configuration, `quinn::ClientConfig`.
#[verifier::external_type_specification]
#[verifier::external_body]
pub struct ExQuinnClientConfig(quinn::ClientConfig);

/// The server half of a TLS configuration, `rustls::ServerConfig`.
#[verifier::external_type_specification]
#[verifier::external_body]
pub struct ExTlsServerConfig(rustls::ServerConfig);

/// The client half of a TLS configuration, `rustls::ClientConfig`.
#[verifier::external_type_specification]
#[verifier::external_body]
pub struct ExTlsClientConfig(rustls::ClientConfig);

/// How a private key is encoded.
#[derive(Copy, Clone, Debug, PartialEq, Eq, Structural)]
pub enum KeyFormat {
    Pkcs1,
    Pkcs8,
    Sec1,
}

/// A private key, as DER.
#[derive(PartialEq, Eq)]
pub struct PrivateKey {
    pub format: KeyFormat,
    pub der: Vec<u8>,
}

/// Where the server's TLS identity comes from.
///
/// QUIC has no unencrypted mode, so there is always a certificate; the only
/// question is whether clients can verify it.
pub enum CertSource {
    /// Generate a throwaway self-signed cert for the given SANs at boot.
    ///
    /// Dev and LAN only. Nothing can verify it.
    SelfSignedDev {
        /// Subject alternative names, e.g. `"localhost"`.
        subject_alt_names: Vec<String>,
    },
    /// A real certificate chain and its private key, as DER. This is the path
    /// for a server on the public internet, and it lets clients verify
    /// normally.
    Supplied {
        /// Leaf first, then intermediates.
        chain: Vec<Vec<u8>>,
        key: PrivateKey,
    },
}

impl CertSource {
    /// Convenience for the common dev case: self-signed for `localhost`.
    pub fn self_signed_localhost() -> (c: Self)
        ensures
            c is SelfSignedDev,
            c->subject_alt_names@.len() == 1,
            c->subject_alt_names@[0]@ == "localhost"@,
    {
        let mut subject_alt_names: Vec<String> = Vec::new();
        subject_alt_names.push("localhost".to_owned());
        CertSource::SelfSignedDev { subject_alt_names }
    }
}

/// Anything that can go wrong building an endpoint.
#[derive(Debug, PartialEq, Eq)]
pub enum QuicSetupError {
    /// Self-signed certificate generation failed.
    CertGen(String),
    /// The cert/key pair was rejected, or the config is invalid.
    Tls(String),
    /// Binding the UDP socket failed (port in use, no permission, …).
    Bind(String),
}

impl QuicSetupError {
    /// The sentence shown for each error.
    pub open spec fn text(self) -> Seq<char> {
        match self {
            QuicSetupError::CertGen(e) => "self-signed certificate generation failed: "@ + e@,
            QuicSetupError::Tls(e) => "TLS configuration rejected: "@ + e@,
            QuicSetupError::Bind(e) => "could not bind QUIC endpoint: "@ + e@,
        }
    }

    /// A human-readable description of the error.
    pub fn message(&self) -> (s: String)
        ensures
            s@ == self.text(),
    {
        match self {
            QuicSetupError::CertGen(e) => {
                let mut s = "self-signed certificate generation failed: ".to_owned();
                s.append(e.as_str());
                s
            },
            QuicSetupError::Tls(e) => {
                let mut s = "TLS configuration rejected: ".to_owned();
                s.append(e.as_str());
                s
            },
            QuicSetupError::Bind(e) => {
                let mut s = "could not bind QUIC endpoint: ".to_owned();
                s.append(e.as_str());
                s
            },
        }
    }
}

/// Whether every one of these names is ASCII.
pub open spec fn all_ascii(names: Seq<String>) -> bool {
    forall|i: int, j: int|
        0 <= i < names.len() && 0 <= j < names[i]@.len() ==> (#[trigger] names[i]@[j]) as u32 <= 127
}

/// `rcgen::generate_simple_self_signed`: a fresh certificate for the names and
/// its key in PKCS#8, both as DER, or the error in words. The key is drawn at
/// random, so no more is claimed of the outcome than that a name which is not
/// ASCII is refused.
#[verifier::external_body]
fn generate_self_signed(subject_alt_names: Vec<String>) -> (r: Result<(Vec<u8>, Vec<u8>), String>)
    ensures
        !all_ascii(subject_alt_names@) ==> r is Err,
{
    match rcgen::generate_simple_self_signed(subject_alt_names) {
        Ok(made) => Ok((made.cert.der().to_vec(), made.key_pair.serialize_der())),
        Err(e) => Err(e.to_string()),
    }
}

/// `rustls::ServerConfig::builder`, without client authentication, then
/// `with_single_cert` with the identity given, or the error in words. Whether
/// an identity is accepted is up to the crypto provider of the process, so
/// nothing is claimed of the outcome. With the one provider this crate enables
/// the builder does not panic.
#[verifier::external_body]
fn tls_with_identity(chain: Vec<Vec<u8>>, key: PrivateKey) -> (r: Result<
    rustls::ServerConfig,
    String,
>) {
    let key = match key.format {
        KeyFormat::Pkcs1 => rustls::pki_types::PrivatePkcs1KeyDer::from(key.der).into(),
        KeyFormat::Pkcs8 => rustls::pki_types::PrivatePkcs8KeyDer::from(key.der).into(),
        KeyFormat::Sec1 => rustls::pki_types::PrivateSec1KeyDer::from(key.der).into(),
    };
    let chain = chain.into_iter().map(rustls::pki_types::CertificateDer::from).collect();
    rustls::ServerConfig::builder()
        .with_no_client_auth()
        .with_single_cert(chain, key)
        .map_err(|e| e.to_string())
}

/// Sets the `alpn_protocols` of a `rustls::ServerConfig` and turns it into a
/// `quinn::ServerConfig` by `QuicServerConfig::try_from` and `with_crypto`, or
/// gives the error in words. A config shows nothing of what it holds, so
/// nothing is claimed of the outcome.
#[verifier::external_body]
fn quic_server(tls: rustls::ServerConfig, alpn: Vec<u8>) -> (r: Result<
    quinn::ServerConfig,
    String,
>) {
    let mut tls = tls;
    tls.alpn_protocols = vec![alpn];
    match quinn::crypto::rustls::QuicServerConfig::try_from(tls) {
        Ok(crypto) => Ok(quinn::ServerConfig::with_crypto(Arc::new(crypto))),
        Err(e) => Err(e.to_string()),
    }
}

/// `rustls::ClientConfig::builder` with the trust anchors of
/// `webpki_roots::TLS_SERVER_ROOTS`, so that server certificates are verified,
/// and without client authentication. With the one provider this crate enables
/// the builder does not panic.
#[verifier::external_body]
fn verifying_tls() -> (tls: rustls::ClientConfig) {
    let mut roots = rustls::RootCertStore::empty();
    roots.extend(webpki_roots::TLS_SERVER_ROOTS.iter().cloned());
    rustls::ClientConfig::builder().with_root_certificates(roots).with_no_client_auth()
}

/// Sets the `alpn_protocols` of a `rustls::ClientConfig` and turns it into a
/// `quinn::ClientConfig` by `QuicClientConfig::try_from` and `new`, or gives
/// the error in words. A config shows nothing of what it holds, so nothing is
/// claimed of the outcome.
#[verifier::external_body]
fn quic_client(tls: rustls::ClientConfig, alpn: Vec<u8>) -> (r: Result<
    quinn::ClientConfig,
    String,
>) {
    let mut tls = tls;
    tls.alpn_protocols = vec![alpn];
    match quinn::crypto::rustls::QuicClientConfig::try_from(tls) {
        Ok(crypto) => Ok(quinn::ClientConfig::new(Arc::new(crypto))),
        Err(e) => Err(e.to_string()),
    }
}

/// A certificate with no name matches no hostname.
pub open spec fn no_names_complaint() -> Seq<char> {
    "no subject alt names: a cert with none matches no hostname"@
}

/// The names to generate a certificate for, refused where there are none: the
/// server would come up and then fail every handshake with an opaque TLS
/// error, while here the message can say what is actually wrong.
pub fn check_names(subject_alt_names: &Vec<String>) -> (res: Result<(), QuicSetupError>)
    ensures
        match res {
            Ok(()) => subject_alt_names@.len() > 0,
            Err(e) => subject_alt_names@.len() == 0 && e is CertGen && e->CertGen_0@
                == no_names_complaint(),
        },
{
    if subject_alt_names.len() == 0 {
        return Err(
            QuicSetupError::CertGen(
                "no subject alt names: a cert with none matches no hostname".to_owned(),
            ),
        );
    }
    Ok(())
}

/// The identity that a generator's outcome amounts to: the certificate alone
/// as the chain, with its key in PKCS#8.
pub fn generated_identity(made: Result<(Vec<u8>, Vec<u8>), String>) -> (res: Result<
    (Vec<Vec<u8>>, PrivateKey),
    QuicSetupError,
>)
    ensures
        match made {
            Ok((cert, key)) => {
                &&& res is Ok
                &&& res->Ok_0.0@ == seq![cert]
                &&& res->Ok_0.1 == (PrivateKey { format: KeyFormat::Pkcs8, der: key })
            },
            Err(e) => res == Err::<(Vec<Vec<u8>>, PrivateKey), QuicSetupError>(
                QuicSetupError::CertGen(e),
            ),
        },
{
    match made {
        Ok((cert, key)) => {
            let mut chain: Vec<Vec<u8>> = Vec::new();
            chain.push(cert);
            Ok((chain, PrivateKey { format: KeyFormat::Pkcs8, der: key }))
        },
        Err(e) => Err(QuicSetupError::CertGen(e)),
    }
}

/// What becomes of an identity: `identify` makes a TLS configuration of it,
/// and `finish` a QUIC configuration of that and the ALPN name. The refusal of
/// either is a TLS error, in its words.
pub open spec fn identity_outcome<
    T,
    S,
    I: Fn(Vec<Vec<u8>>, PrivateKey) -> Result<T, String>,
    Q: Fn(T, Vec<u8>) -> Result<S, String>,
>(
    alpn: Seq<u8>,
    chain: Vec<Vec<u8>>,
    key: PrivateKey,
    identify: I,
    finish: Q,
    res: Result<S, QuicSetupError>,
) -> bool {
    exists|made: Result<T, String>|
        {
            &&& #[trigger] call_ensures(identify, (chain, key), made)
            &&& match made {
                Ok(tls) => finish_outcome(alpn, tls, finish, res),
                Err(e) => res == Err::<S, QuicSetupError>(QuicSetupError::Tls(e)),
            }
        }
}

/// What becomes of a TLS configuration.
pub open spec fn finish_outcome<T, S, Q: Fn(T, Vec<u8>) -> Result<S, String>>(
    alpn: Seq<u8>,
    tls: T,
    finish: Q,
    res: Result<S, QuicSetupError>,
) -> bool {
    exists|name: Vec<u8>, made: Result<S, String>|
        {
            &&& name@ == alpn
            &&& #[trigger] call_ensures(finish, (tls, name), made)
            &&& match made {
                Ok(config) => res == Ok::<S, QuicSetupError>(config),
                Err(e) => res == Err::<S, QuicSetupError>(QuicSetupError::Tls(e)),
            }
        }
}

/// What becomes of a source of identity. One without a name is refused; of
/// others `generate` makes a certificate with its key, and its refusal is a
/// generation error.
pub open spec fn server_outcome<
    T,
    S,
    G: Fn(Vec<String>) -> Result<(Vec<u8>, Vec<u8>), String>,
    I: Fn(Vec<Vec<u8>>, PrivateKey) -> Result<T, String>,
    Q: Fn(T, Vec<u8>) -> Result<S, String>,
>(
    alpn: Seq<u8>,
    certs: CertSource,
    generate: G,
    identify: I,
    finish: Q,
    res: Result<S, QuicSetupError>,
) -> bool {
    match certs {
        CertSource::SelfSignedDev { subject_alt_names } => if subject_alt_names@.len() == 0 {
            res is Err && res->Err_0 is CertGen && res->Err_0->CertGen_0@ == no_names_complaint()
        } else {
            exists|made: Result<(Vec<u8>, Vec<u8>), String>|
                {
                    &&& #[trigger] call_ensures(generate, (subject_alt_names,), made)
                    &&& match made {
                        Ok((cert, der)) => exists|chain: Vec<Vec<u8>>|
                            chain@ == seq![cert] && #[trigger] identity_outcome(
                                alpn,
                                chain,
                                PrivateKey { format: KeyFormat::Pkcs8, der },
                                identify,
                                finish,
                                res,
                            ),
                        Err(e) => res == Err::<S, QuicSetupError>(QuicSetupError::CertGen(e)),
                    }
                }
        },
        CertSource::Supplied { chain, key } => identity_outcome(
            alpn,
            chain,
            key,
            identify,
            finish,
            res,
        ),
    }
}

fn finished<T, S, Q: Fn(T, Vec<u8>) -> Result<S, String>>(alpn: &[u8], tls: T, finish: Q) -> (res:
    Result<S, QuicSetupError>)
    requires
        forall|t: T, name: Vec<u8>| #[trigger] call_requires(finish, (t, name)),
    ensures
        finish_outcome(alpn@, tls, finish, res),
{
    match finish(tls, slice_to_vec(alpn)) {
        Ok(config) => Ok(config),
        Err(e) => Err(QuicSetupError::Tls(e)),
    }
}

/// Assemble a server configuration out of its parts: `generate` makes an
/// identity where none is supplied, `identify` a TLS configuration of the
/// identity, and `finish` a QUIC configuration of that and the ALPN name.
pub fn assemble_server<
    T,
    S,
    G: Fn(Vec<String>) -> Result<(Vec<u8>, Vec<u8>), String>,
    I: Fn(Vec<Vec<u8>>, PrivateKey) -> Result<T, String>,
    Q: Fn(T, Vec<u8>) -> Result<S, String>,
>(alpn: &[u8], certs: CertSource, generate: G, identify: I, finish: Q) -> (res: Result<
    S,
    QuicSetupError,
>)
    requires
        forall|names: Vec<String>| #[trigger] call_requires(generate, (names,)),
        forall|chain: Vec<Vec<u8>>, key: PrivateKey| #[trigger]
            call_requires(identify, (chain, key)),
        forall|tls: T, name: Vec<u8>| #[trigger] call_requires(finish, (tls, name)),
    ensures
        server_outcome(alpn@, certs, generate, identify, finish, res),
{
    let (chain, key) = match certs {
        CertSource::SelfSignedDev { subject_alt_names } => {
            match check_names(&subject_alt_names) {
                Ok(()) => {},
                Err(e) => {
                    return Err(e);
                },
            }
            match generated_identity(generate(subject_alt_names)) {
                Ok(identity) => identity,
                Err(e) => {
                    return Err(e);
                },
            }
        },
        CertSource::Supplied { chain, key } => (chain, key),
    };
    let ghost parts = (chain, key);
    let res = match identify(chain, key) {
        Ok(tls) => finished(alpn, tls, finish),
        Err(e) => Err(QuicSetupError::Tls(e)),
    };
    assert(identity_outcome(alpn@, parts.0, parts.1, identify, finish, res));
    res
}

/// What the libraries make of a server's parts.
pub closed spec fn is_server_config(
    alpn: Seq<u8>,
    certs: CertSource,
    res: Result<quinn::ServerConfig, QuicSetupError>,
) -> bool {
    server_outcome(alpn, certs, generate_self_signed, tls_with_identity, quic_server, res)
}

/// Build the QUIC server config: TLS identity plus the agreed ALPN.
///
/// `alpn` is the protocol name both ends must agree on (e.g. `b"mygame/1"`);
/// it must match what the client config advertises or the handshake fails.
///
/// A source with no names is refused. Beyond that, whether the configuration
/// comes about is up to the TLS libraries; a supplied identity is refused only
/// as a TLS error.
pub fn server_config(alpn: &[u8], certs: CertSource) -> (res: Result<
    quinn::ServerConfig,
    QuicSetupError,
>)
    ensures
        is_server_config(alpn@, certs, res),
        certs is SelfSignedDev && certs->subject_alt_names@.len() == 0 ==> res is Err
            && res->Err_0 is CertGen && res->Err_0->CertGen_0@ == no_names_complaint(),
        certs is SelfSignedDev && !all_ascii(certs->subject_alt_names@) ==> res is Err
            && res->Err_0 is CertGen,
        certs is Supplied && res is Err ==> res->Err_0 is Tls,
        res is Err ==> !(res->Err_0 is Bind),
{
    assemble_server(alpn, certs, generate_self_signed, tls_with_identity, quic_server)
}

/// What the libraries make of a client's parts.
pub closed spec fn is_client_config(
    alpn: Seq<u8>,
    res: Result<quinn::ClientConfig, QuicSetupError>,
) -> bool {
    exists|tls: rustls::ClientConfig|
        #[trigger] call_ensures(verifying_tls, (), tls) && finish_outcome(
            alpn,
            tls,
            quic_client,
            res,
        )
}

fn started<T, F: Fn() -> T>(make: F) -> (tls: T)
    requires
        call_requires(make, ()),
    ensures
        call_ensures(make, (), tls),
{
    make()
}

/// Client config that verifies the server certificate against the usual trust
/// anchors — the normal path, and the one to use for any server a player
/// connects to over the internet.
///
/// Requires the server to present a cert issued for the hostname the client
/// dialed; a self-signed dev server will be rejected, which is the point. A
/// failure is reported as a TLS error.
pub fn client_config(alpn: &[u8]) -> (res: Result<quinn::ClientConfig, QuicSetupError>)
    ensures
        is_client_config(alpn@, res),
        res is Err ==> res->Err_0 is Tls,
{
    finished(alpn, started(verifying_tls), quic_client)
}

// ---------------------------------------------------------------------------
// Laws.
// ---------------------------------------------------------------------------

/// A supplied identity is used as it is, chain and key, and what is made of it
/// is finished with the ALPN name given: a configuration where neither step
/// refuses, else a TLS error in the words of the one that did.
pub proof fn law_a_supplied_identity_is_used<
    T,
    S,
    G: Fn(Vec<String>) -> Result<(Vec<u8>, Vec<u8>), String>,
    I: Fn(Vec<Vec<u8>>, PrivateKey) -> Result<T, String>,
    Q: Fn(T, Vec<u8>) -> Result<S, String>,
>(
    alpn: &[u8],
    chain: Vec<Vec<u8>>,
    key: PrivateKey,
    generate: G,
    identify: I,
    finish: Q,
    res: Result<S, QuicSetupError>,
    identified: Result<T, String>,
    finished: Result<S, String>,
)
    requires
        call_ensures(
            assemble_server::<T, S, G, I, Q>,
            (alpn, (CertSource::Supplied { chain, key }), generate, identify, finish),
            res,
        ),
        forall|made: Result<T, String>| #[trigger]
            call_ensures(identify, (chain, key), made) ==> made == identified,
        forall|name: Vec<u8>, made: Result<S, String>|
            identified is Ok && name@ == alpn@ && #[trigger] call_ensures(
                finish,
                (identified->Ok_0, name),
                made,
            ) ==> made == finished,
    ensures
        identified is Err ==> res == Err::<S, QuicSetupError>(
            QuicSetupError::Tls(identified->Err_0),
        ),
        identified is Ok && finished is Err ==> res == Err::<S, QuicSetupError>(
            QuicSetupError::Tls(finished->Err_0),
        ),
        identified is Ok && finished is Ok ==> res == Ok::<S, QuicSetupError>(finished->Ok_0),
{
}

/// An identity is generated for the names given, and refused where there are
/// none. The certificate that comes of it is the whole chain, and its key is in
/// PKCS#8; a refusal of the generator is a generation error, in its words.
pub proof fn law_a_generated_identity_is_used<
    T,
    S,
    G: Fn(Vec<String>) -> Result<(Vec<u8>, Vec<u8>), String>,
    I: Fn(Vec<Vec<u8>>, PrivateKey) -> Result<T, String>,
    Q: Fn(T, Vec<u8>) -> Result<S, String>,
>(
    alpn: &[u8],
    names: Vec<String>,
    generate: G,
    identify: I,
    finish: Q,
    res: Result<S, QuicSetupError>,
    generated: Result<(Vec<u8>, Vec<u8>), String>,
    identified: Result<T, String>,
    finished: Result<S, String>,
)
    requires
        call_ensures(
            assemble_server::<T, S, G, I, Q>,
            (
                alpn,
                (CertSource::SelfSignedDev { subject_alt_names: names }),
                generate,
                identify,
                finish,
            ),
            res,
        ),
        forall|made: Result<(Vec<u8>, Vec<u8>), String>| #[trigger]
            call_ensures(generate, (names,), made) ==> made == generated,
        forall|chain: Vec<Vec<u8>>, key: PrivateKey, made: Result<T, String>|
            generated is Ok && chain@ == seq![generated->Ok_0.0] && key.format is Pkcs8 && key.der
                == generated->Ok_0.1 && #[trigger] call_ensures(identify, (chain, key), made)
                ==> made == identified,
        forall|name: Vec<u8>, made: Result<S, String>|
            identified is Ok && name@ == alpn@ && #[trigger] call_ensures(
                finish,
                (identified->Ok_0, name),
                made,
            ) ==> made == finished,
    ensures
        names@.len() == 0 ==> res is Err && res->Err_0 is CertGen && res->Err_0->CertGen_0@
            == "no subject alt names: a cert with none matches no hostname"@,
        names@.len() > 0 && generated is Err ==> res == Err::<S, QuicSetupError>(
            QuicSetupError::CertGen(generated->Err_0),
        ),
        names@.len() > 0 && generated is Ok && identified is Err ==> res == Err::<
            S,
            QuicSetupError,
        >(QuicSetupError::Tls(identified->Err_0)),
        names@.len() > 0 && generated is Ok && identified is Ok && finished is Err ==> res == Err::<
            S,
            QuicSetupError,
        >(QuicSetupError::Tls(finished->Err_0)),
        names@.len() > 0 && generated is Ok && identified is Ok && finished is Ok ==> res == Ok::<
            S,
            QuicSetupError,
        >(finished->Ok_0),
{
}

/// The sentence of an error begins with what failed and ends with the words of
/// the library that refused.
pub proof fn law_errors_keep_the_words_of_the_library(e: &QuicSetupError, s: String)
    requires
        call_ensures(QuicSetupError::message, (e,), s),
    ensures
        *e is CertGen ==> s@ == "self-signed certificate generation failed: "@ + e->CertGen_0@,
        *e is Tls ==> s@ == "TLS configuration rejected: "@ + e->Tls_0@,
        *e is Bind ==> s@ == "could not bind QUIC endpoint: "@ + e->Bind_0@,
{
}

/// What the parts of a server say: a development identity is for the local host
/// alone; names are refused where there are none; and what a generator made is
/// a chain of one certificate with its key in PKCS#8.
pub proof fn law_what_the_parts_of_a_server_say(
    local: CertSource,
    names: &Vec<String>,
    checked: Result<(), QuicSetupError>,
    made: Result<(Vec<u8>, Vec<u8>), String>,
    identity: Result<(Vec<Vec<u8>>, PrivateKey), QuicSetupError>,
)
    requires
        call_ensures(CertSource::self_signed_localhost, (), local),
        call_ensures(check_names, (names,), checked),
        call_ensures(generated_identity, (made,), identity),
    ensures
        local is SelfSignedDev && local->subject_alt_names@.len() == 1
            && local->subject_alt_names@[0]@ == "localhost"@,
        checked is Ok <==> names@.len() > 0,
        checked is Err ==> checked->Err_0 is CertGen && checked->Err_0->CertGen_0@
            == "no subject alt names: a cert with none matches no hostname"@,
        made is Ok ==> identity is Ok && identity->Ok_0.0@.len() == 1 && identity->Ok_0.0@[0]
            == made->Ok_0.0 && identity->Ok_0.1.der == made->Ok_0.1 && identity->Ok_0.1.format
            is Pkcs8,
        made is Err ==> identity is Err && identity->Err_0 is CertGen
            && identity->Err_0->CertGen_0 == made->Err_0,
{
}

/// What a finished configuration may be refused for: a server without a name,
/// or with one that is not ASCII, for its certificate; a supplied identity, and
/// a client, only by the TLS library; and neither for a socket.
pub proof fn law_what_a_configuration_is_refused_for(
    alpn: &[u8],
    certs: CertSource,
    server: Result<quinn::ServerConfig, QuicSetupError>,
    client: Result<quinn::ClientConfig, QuicSetupError>,
    i: int,
    j: int,
)
    requires
        call_ensures(server_config, (alpn, certs), server),
        call_ensures(client_config, (alpn,), client),
    ensures
        certs is SelfSignedDev && certs->subject_alt_names@.len() == 0 ==> server is Err
            && server->Err_0 is CertGen,
        certs is SelfSignedDev && 0 <= i < certs->subject_alt_names@.len() && 0 <= j
            < certs->subject_alt_names@[i]@.len() && certs->subject_alt_names@[i]@[j] as u32 > 127
            ==> server is Err && server->Err_0 is CertGen,
        certs is Supplied && server is Err ==> server->Err_0 is Tls,
        server is Err ==> !(server->Err_0 is Bind),
        client is Err ==> client->Err_0 is Tls,
{
}

} // verus!
