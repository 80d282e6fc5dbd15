use rauta::tls::{
    found_key, parse_cert_from_secret_data, KeyKind, PrivateKey, SniResolver, TlsCertificate,
    TlsConfig, TlsMode,
};

/// A certificate for example.com and its key.
const EXAMPLE_CERT: &[&str] = &[
    "MIIBnDCCAUGgAwIBAgIUZmyZ+4+4YKx2OKXzocDgxDDklqkwCgYIKoZIzj0EAwIw",
    "FjEUMBIGA1UEAwwLZXhhbXBsZS5jb20wIBcNMjYxMTE2MTUxNzUwWhgPMjEyNjEw",
    "MjMxNTE3NTBaMBYxFDASBgNVBAMMC2V4YW1wbGUuY29tMFkwEwYHKoZIzj0CAQYI",
    "KoZIzj0DAQcDQgAEeiCw47AJUIuXxFWR3HV7dYGagMIYHDsCDTlINbf+MO/216lp",
    "qMM9Ajq0UvK1UR95iggFvWPissD/ltUlxRLCkqNrMGkwHQYDVR0OBBYEFLO2YAh6",
    "cVeUSjvSuUMJbvgg8uYOMB8GA1UdIwQYMBaAFLO2YAh6cVeUSjvSuUMJbvgg8uYO",
    "MA8GA1UdEwEB/wQFMAMBAf8wFgYDVR0RBA8wDYILZXhhbXBsZS5jb20wCgYIKoZI",
    "zj0EAwIDSQAwRgIhAMv3UH9XbuLB1DXEmVSbwQO2RkXY+UDL5npvetrdJ1zOAiEA",
    "7TzDo5h5Fh2J6dVrxUPV4jGt1vQ0JYDlNkF4bJSxXjQ=",
];

const EXAMPLE_KEY: &[&str] = &[
    "MIGHAgEAMBMGByqGSM49AgEGCCqGSM49AwEHBG0wawIBAQQgUT57K2Kh74/h0AgB",
    "LxjmiXZ0uzwqJdu0BI7hBchrzuahRANCAAR6ILDjsAlQi5fEVZHcdXt1gZqAwhgc",
    "OwINOUg1t/4w7/bXqWmowz0COrRS8rVRH3mKCAW9Y+KywP+W1SXFEsKS",
];

/// The same key in another encoding.
const EXAMPLE_SEC1: &[&str] = &[
    "MHcCAQEEIFE+eytioe+P4dAIAS8Y5ol2dLs8KiXbtASO4QXIa87moAoGCCqGSM49",
    "AwEHoUQDQgAEeiCw47AJUIuXxFWR3HV7dYGagMIYHDsCDTlINbf+MO/216lpqMM9",
    "Ajq0UvK1UR95iggFvWPissD/ltUlxRLCkg==",
];

/// A certificate for other.com and its key.
const OTHER_CERT: &[&str] = &[
    "MIIBlTCCATugAwIBAgIUQg81Hvtx2jK4q+ajK4rKY3WSoyAwCgYIKoZIzj0EAwIw",
    "FDESMBAGA1UEAwwJb3RoZXIuY29tMCAXDTI2MTExNjE1MTc1MFoYDzIxMjYxMDIz",
    "MTUxNzUwWjAUMRIwEAYDVQQDDAlvdGhlci5jb20wWTATBgcqhkjOPQIBBggqhkjO",
    "PQMBBwNCAAQYTtoHBg2l+Je9DNGtRVxDrROyKzryt7TByRCchC/I2L7jVL0leBQE",
    "hWBlxnUTz9ssZAgo1tgK8T6ZJpYxhCGPo2kwZzAdBgNVHQ4EFgQU6hm5INlt3aQZ",
    "UujIILCC/a9AJKMwHwYDVR0jBBgwFoAU6hm5INlt3aQZUujIILCC/a9AJKMwDwYD",
    "VR0TAQH/BAUwAwEB/zAUBgNVHREEDTALgglvdGhlci5jb20wCgYIKoZIzj0EAwID",
    "SAAwRQIgTNucpZpnv3IckdNiGPbhppVN86iaugU4vtie4944B1YCIQDUiuMft16e",
    "EpMKTzK6gtm0665o1omQhaEKqI9CzOZe0Q==",
];

const OTHER_KEY: &[&str] = &[
    "MIGHAgEAMBMGByqGSM49AgEGCCqGSM49AwEHBG0wawIBAQQggcygjUQnV8jT1i0R",
    "oij+OPA/uHXcamd7E56J3G+rxJmhRANCAAQYTtoHBg2l+Je9DNGtRVxDrROyKzry",
    "t7TByRCchC/I2L7jVL0leBQEhWBlxnUTz9ssZAgo1tgK8T6ZJpYxhCGP",
];

/// A PEM section.
fn pem(label: &str, lines: &[&str]) -> Vec<u8> {
    let rule = "-".repeat(5);
    format!(
        "{rule}BEGIN {label}{rule}\n{}\n{rule}END {label}{rule}\n",
        lines.join("\n")
    )
    .into_bytes()
}

fn cert_pem(lines: &[&str]) -> Vec<u8> {
    pem("CERTIFICATE", lines)
}

fn key_pem(lines: &[&str]) -> Vec<u8> {
    pem("PRIVATE KEY", lines)
}

fn example() -> TlsCertificate {
    TlsCertificate::from_pem(&cert_pem(EXAMPLE_CERT), &key_pem(EXAMPLE_KEY))
        .expect("Should parse test certificate")
}

fn other() -> TlsCertificate {
    TlsCertificate::from_pem(&cert_pem(OTHER_CERT), &key_pem(OTHER_KEY))
        .expect("Should parse test certificate")
}

#[test]
fn test_tls_certificate_from_pem() {
    let cert_pem = cert_pem(EXAMPLE_CERT);
    let key_pem = key_pem(EXAMPLE_KEY);

    // Should parse successfully
    let cert =
        TlsCertificate::from_pem(&cert_pem, &key_pem).expect("Should parse valid certificate");

    assert_eq!(cert.cert_chain, cert_pem);
    assert_eq!(cert.private_key, key_pem);
}

#[test]
fn test_tls_certificate_invalid_pem() {
    let bad_cert = b"not a certificate";
    let bad_key = b"not a key";

    let result = TlsCertificate::from_pem(bad_cert, bad_key);
    assert!(result.is_err(), "Should reject invalid certificate");
}

#[test]
fn test_sni_resolver_add_cert() {
    let mut resolver = SniResolver::new();
    resolver
        .add_cert("example.com".to_string(), example())
        .expect("Should add certificate");

    assert!(resolver.has_cert("example.com"));
    assert!(!resolver.has_cert("other.com"));
}

#[test]
fn test_load_cert_from_secret_exists() {
    // A secret is loaded by its data: the chain under tls.crt, the key under tls.key.
    let data = Some(vec![
        ("tls.crt".to_string(), cert_pem(EXAMPLE_CERT)),
        ("tls.key".to_string(), key_pem(EXAMPLE_KEY)),
    ]);
    let cert = parse_cert_from_secret_data(&data).expect("Should load");
    assert_eq!(cert.cert_chain, cert_pem(EXAMPLE_CERT));
    assert_eq!(cert.private_key, key_pem(EXAMPLE_KEY));
}

#[test]
fn secrets_without_the_parts_are_refused() {
    assert_eq!(
        parse_cert_from_secret_data(&None).err(),
        Some("Secret has no data".to_string())
    );
    assert_eq!(
        parse_cert_from_secret_data(&Some(vec![])).err(),
        Some("Secret missing tls.crt".to_string())
    );
    let data = Some(vec![("tls.crt".to_string(), cert_pem(EXAMPLE_CERT))]);
    assert_eq!(
        parse_cert_from_secret_data(&data).err(),
        Some("Secret missing tls.key".to_string())
    );
}

#[test]
fn a_text_without_key_is_told_so() {
    assert_eq!(
        TlsCertificate::from_pem(&cert_pem(EXAMPLE_CERT), b"").err(),
        Some("No private key found".to_string())
    );
    assert!(TlsCertificate::from_pem(&cert_pem(&["!"]), &key_pem(EXAMPLE_KEY)).is_err());
    assert!(TlsCertificate::from_pem(&cert_pem(EXAMPLE_CERT), &key_pem(&["!"])).is_err());
    assert_eq!(found_key(Ok(None)).err(), Some("No private key found".to_string()));
    assert_eq!(found_key(Err("x".to_string())).err(), Some("x".to_string()));
    let key = PrivateKey { kind: KeyKind::Sec1, der: vec![1, 2] };
    assert_eq!(found_key(Ok(Some(key))).unwrap().der, vec![1, 2]);
}

#[test]
fn a_server_is_set_up_with_a_certificate() {
    assert!(example().to_server_config().is_ok());
    let sec1 = TlsCertificate::from_pem(
        &cert_pem(EXAMPLE_CERT),
        &pem("EC PRIVATE KEY", EXAMPLE_SEC1),
    )
    .unwrap();
    assert!(sec1.to_server_config().is_ok());
    // a key that is not the certificate's
    let mixed =
        TlsCertificate::from_pem(&cert_pem(EXAMPLE_CERT), &key_pem(OTHER_KEY)).unwrap();
    assert!(mixed.to_server_config().is_err());
    // what does not decode
    assert!(TlsCertificate::new(vec![], vec![]).to_server_config().is_err());
}

#[test]
fn certificates_serve_the_hosts_they_are_valid_for() {
    let mut resolver = SniResolver::default();
    assert!(resolver.add_cert("example.com".to_string(), other()).is_err());
    assert!(!resolver.has_cert("example.com"));
    assert!(resolver.add_cert("not a host".to_string(), example()).is_err());
    resolver.add_cert("other.com".to_string(), other()).unwrap();
    assert!(resolver.has_cert("other.com"));
    assert!(!format!("{:?}", resolver.resolver()).is_empty());
}

#[test]
fn a_key_that_cannot_sign_is_refused() {
    let junk = TlsCertificate::from_pem(&cert_pem(EXAMPLE_CERT), &key_pem(&["AAAA"])).unwrap();
    let mut resolver = SniResolver::new();
    assert!(resolver.add_cert("example.com".to_string(), junk).is_err());
}

#[test]
fn updates_replace_a_certificate_but_add_no_host() {
    let mut resolver = SniResolver::new();
    resolver.add_cert("example.com".to_string(), example()).unwrap();
    assert_eq!(resolver.update_cert("example.com".to_string(), example()), Ok(()));
    assert!(resolver.has_cert("example.com"));
    assert_eq!(resolver.update_cert("other.com".to_string(), other()), Ok(()));
    assert!(!resolver.has_cert("other.com"));
}

#[test]
fn a_listener_has_a_mode() {
    let config = TlsConfig {
        hostname: "example.com".to_string(),
        mode: TlsMode::Terminate,
        certificate: example(),
    };
    assert_eq!(config.mode, TlsMode::Terminate);
    assert_ne!(config.mode, TlsMode::Passthrough);
}
