use void_engine::net::quic::{
    assemble_server, check_names, client_config, generated_identity, server_config, CertSource, KeyFormat,
    PrivateKey, QuicSetupError,
};

const ALPN: &[u8] = b"void-engine-test/1";

fn pair(name: &str) -> (Vec<Vec<u8>>, PrivateKey) {
    let ck = rcgen::generate_simple_self_signed(vec![name.to_string()]).unwrap();
    let chain = vec![ck.cert.der().to_vec()];
    let key = PrivateKey { format: KeyFormat::Pkcs8, der: ck.key_pair.serialize_der() };
    (chain, key)
}

#[test]
fn self_signed_dev_config_builds() {
    assert!(server_config(ALPN, CertSource::self_signed_localhost()).is_ok());
}

#[test]
fn supplied_cert_path_accepts_a_matching_pair() {
    let (chain, key) = pair("example.test");
    assert!(server_config(ALPN, CertSource::Supplied { chain, key }).is_ok());
}

#[test]
fn mismatched_cert_and_key_are_rejected() {
    let (chain, _) = pair("a.test");
    let (_, key) = pair("b.test");
    let err = server_config(ALPN, CertSource::Supplied { chain, key });
    assert!(matches!(err, Err(QuicSetupError::Tls(_))), "got {err:?}");
}

#[test]
fn self_signed_with_no_sans_is_an_error() {
    let r = server_config(ALPN, CertSource::SelfSignedDev { subject_alt_names: vec![] });
    assert!(matches!(r, Err(QuicSetupError::CertGen(_))), "got {r:?}");
}

#[test]
fn the_verifying_client_config_builds() {
    assert!(client_config(ALPN).is_ok(), "verifying config is the default path");
}

#[test]
fn the_default_client_config_verifies() {
    let mut roots = rustls::RootCertStore::empty();
    roots.extend(webpki_roots::TLS_SERVER_ROOTS.iter().cloned());
    assert!(!roots.is_empty(), "client_config must have trust anchors to verify against");
}

#[test]
fn a_missing_name_is_explained() {
    let e = check_names(&vec![]).unwrap_err();
    assert_eq!(
        e.message(),
        "self-signed certificate generation failed: no subject alt names: a cert with none matches no hostname"
    );
    assert!(check_names(&vec!["localhost".to_string()]).is_ok());
}

#[test]
fn a_generated_certificate_stands_alone() {
    let (chain, key) = generated_identity(Ok((vec![1, 2], vec![3]))).unwrap();
    assert_eq!(chain, vec![vec![1, 2]]);
    assert_eq!(key.format, KeyFormat::Pkcs8);
    assert_eq!(key.der, vec![3]);
    assert_eq!(
        generated_identity(Err("no".to_string())).err(),
        Some(QuicSetupError::CertGen("no".to_string()))
    );
}

#[test]
fn the_parts_are_put_together_in_order() {
    let named = |sans: &[&str]| CertSource::SelfSignedDev {
        subject_alt_names: sans.iter().map(|s| s.to_string()).collect(),
    };
    let generate = |names: Vec<String>| match names[0].as_str() {
        "unlucky" => Err("no luck".to_string()),
        n => Ok((n.as_bytes().to_vec(), vec![7])),
    };
    let identify = |chain: Vec<Vec<u8>>, key: PrivateKey| {
        if key.der.is_empty() {
            Err("no key".to_string())
        } else {
            Ok((chain, key.der))
        }
    };
    let finish = |tls: (Vec<Vec<u8>>, Vec<u8>), alpn: Vec<u8>| {
        if alpn.is_empty() {
            Err("no name".to_string())
        } else {
            Ok((tls, alpn))
        }
    };
    let run = |alpn: &[u8], certs| assemble_server(alpn, certs, generate, identify, finish);
    assert_eq!(
        run(b"g/1", named(&["host"])),
        Ok(((vec![b"host".to_vec()], vec![7]), b"g/1".to_vec()))
    );
    assert_eq!(
        run(b"g/1", named(&["unlucky"])),
        Err(QuicSetupError::CertGen("no luck".to_string()))
    );
    let supplied = |der: Vec<u8>| CertSource::Supplied {
        chain: vec![vec![1], vec![2]],
        key: PrivateKey { format: KeyFormat::Sec1, der },
    };
    assert_eq!(
        run(b"g/1", supplied(vec![3])),
        Ok(((vec![vec![1], vec![2]], vec![3]), b"g/1".to_vec()))
    );
    assert_eq!(run(b"g/1", supplied(vec![])), Err(QuicSetupError::Tls("no key".to_string())));
    assert_eq!(run(b"", supplied(vec![3])), Err(QuicSetupError::Tls("no name".to_string())));
}

#[test]
fn a_name_that_is_not_ascii_is_refused() {
    let r = server_config(
        ALPN,
        CertSource::SelfSignedDev { subject_alt_names: vec!["h\u{f6}st".to_string()] },
    );
    assert!(matches!(r, Err(QuicSetupError::CertGen(_))), "got {r:?}");
}
