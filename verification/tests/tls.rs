use llm_conduit::tls::{
    load_certificates, load_private_key, usable_certificates, usable_private_key, KeyKind,
};

/// A PEM section with a label and a base64 body.
fn section(label: &str, body: &str) -> String {
    format!("-----BEGIN {label}-----\n{body}\n-----END {label}-----\n")
}

#[test]
fn every_certificate_is_read_in_order() {
    let pem = [
        "# a chain\n".to_string(),
        section("CERTIFICATE", "AQID"),
        section("X509 CRL", "CQkJ"),
        section("CERTIFICATE", "BAUG\nBw=="),
        section("SOMETHING ELSE", "CQkJ"),
    ]
    .concat();
    let certificates = load_certificates("chain.pem", pem.as_bytes()).unwrap();
    assert_eq!(certificates, [vec![1u8, 2, 3], vec![4, 5, 6, 7]]);
}

#[test]
fn a_file_without_a_certificate_is_rejected() {
    for pem in [String::new(), "not PEM\n".to_string(), section("X509 CRL", "AQID")] {
        let error = load_certificates("dir/chain.pem", pem.as_bytes()).unwrap_err();
        assert_eq!(error.0, "no certificate found in dir/chain.pem");
    }
}

#[test]
fn certificates_that_cannot_be_parsed_are_rejected() {
    let pem = format!("{}-----BEGIN CERTIFICATE-----\nAQID\n", section("CERTIFICATE", "AQID"));
    let error = load_certificates("chain.pem", pem.as_bytes()).unwrap_err().0;
    let reason = rustls_pemfile::certs(&mut pem.as_bytes()).last().unwrap().unwrap_err();
    assert_eq!(error, format!("failed to parse certificate chain.pem: {reason}"));
    assert!(error.ends_with(" missing"), "{error}");

    let pem = section("CERTIFICATE", "A*ID");
    let error = load_certificates("chain.pem", pem.as_bytes()).unwrap_err().0;
    assert!(error.starts_with("failed to parse certificate chain.pem: "), "{error}");
}

#[test]
fn private_keys_of_every_kind_are_read() {
    for (prefix, kind) in [
        ("RSA ", KeyKind::Pkcs1),
        ("EC ", KeyKind::Sec1),
        ("", KeyKind::Pkcs8),
    ] {
        let label = format!("{prefix}PRIVATE {}", "KEY");
        let pem = format!("{}{}", section("CERTIFICATE", "CQkJ"), section(&label, "AQID"));
        let key = load_private_key("key.pem", pem.as_bytes()).unwrap();
        assert_eq!(key, (kind, vec![1u8, 2, 3]));
        // The first key counts, whatever follows it.
        let pem = format!("{pem}{}-----BEGIN ", section(&label, "BAUG"));
        let key = load_private_key("key.pem", pem.as_bytes()).unwrap();
        assert_eq!(key, (kind, vec![1u8, 2, 3]));
    }
}

#[test]
fn a_file_without_a_usable_private_key_is_rejected() {
    let label = format!("ENCRYPTED PRIVATE {}", "KEY");
    for pem in [String::new(), section("CERTIFICATE", "AQID"), section(&label, "AQID")] {
        let error = load_private_key("key.pem", pem.as_bytes()).unwrap_err();
        assert_eq!(
            error.0,
            "no usable private key in key.pem (PKCS#8 / RSA / EC are supported)"
        );
    }
    let pem = format!("-----BEGIN PRIVATE {}-----\nAQID\n", "KEY");
    let error = load_private_key("key.pem", pem.as_bytes()).unwrap_err().0;
    let reason = rustls_pemfile::private_key(&mut pem.as_bytes()).unwrap_err();
    assert_eq!(error, format!("failed to parse private key key.pem: {reason}"));
}

#[test]
fn what_was_read_decides() {
    assert_eq!(usable_certificates("p", Ok(vec![vec![7]])).unwrap(), [vec![7u8]]);
    assert_eq!(
        usable_certificates("p", Ok(Vec::new())).unwrap_err().0,
        "no certificate found in p"
    );
    assert_eq!(
        usable_certificates("p", Err("broken".to_string())).unwrap_err().0,
        "failed to parse certificate p: broken"
    );
    let key = (KeyKind::Sec1, vec![7u8]);
    assert_eq!(usable_private_key("p", Ok(Some(key.clone()))).unwrap(), key);
    assert_eq!(
        usable_private_key("p", Ok(None)).unwrap_err().0,
        "no usable private key in p (PKCS#8 / RSA / EC are supported)"
    );
    assert_eq!(
        usable_private_key("p", Err("broken".to_string())).unwrap_err().0,
        "failed to parse private key p: broken"
    );
}
