//! Server TLS: the certificate chain and the private key in PEM files.

use vstd::prelude::*;
use vstd::string::*;

use crate::error::StartupError;

verus! {

/// The encoding of a private key.
#[derive(Debug, Clone, Copy, PartialEq, Eq, Structural)]
pub enum KeyKind {
    /// An RSA key.
    Pkcs1,
    /// An EC key.
    Sec1,
    /// A key of any algorithm.
    Pkcs8,
}

/// The certificates that `rustls_pemfile` reads in a PEM text, in order and in DER, or why it does
/// not.
pub uninterp spec fn pem_certificates(pem: Seq<u8>) -> Result<Seq<Seq<u8>>, Seq<char>>;

/// The first private key that `rustls_pemfile` reads in a PEM text, in DER, if there is one, or
/// why it does not.
pub uninterp spec fn pem_private_key(pem: Seq<u8>) -> Result<
    Option<(KeyKind, Seq<u8>)>,
    Seq<char>,
>;

/// The bytes of each certificate.
pub open spec fn certificate_bytes(certificates: Seq<Vec<u8>>) -> Seq<Seq<u8>> {
    certificates.map_values(|certificate: Vec<u8>| certificate@)
}

/// What reading certificates came to.
pub open spec fn certificates_read(read: Result<Vec<Vec<u8>>, String>) -> Result<
    Seq<Seq<u8>>,
    Seq<char>,
> {
    match read {
        Ok(certificates) => Ok(certificate_bytes(certificates@)),
        Err(error) => Err(error@),
    }
}

/// What reading a private key came to.
pub open spec fn private_key_read(read: Result<Option<(KeyKind, Vec<u8>)>, String>) -> Result<
    Option<(KeyKind, Seq<u8>)>,
    Seq<char>,
> {
    match read {
        Ok(Some((kind, der))) => Ok(Some((kind, der@))),
        Ok(None) => Ok(None),
        Err(error) => Err(error@),
    }
}

/// `rustls_pemfile::certs` over all of `pem`, with the error as text. What a text is read as is
/// not said beyond the name.
#[verifier::external_body]
pub(crate) fn read_certificates(pem: &[u8]) -> (r: Result<Vec<Vec<u8>>, String>)
    ensures
        certificates_read(r) == pem_certificates(pem@),
{
    let mut input = pem;
    rustls_pemfile::certs(&mut input)
        .map(|certificate| certificate.map(|der| der.to_vec()).map_err(|error| error.to_string()))
        .collect()
}

/// `rustls_pemfile::private_key` over `pem`, with the error as text. It hands out keys of these
/// three kinds and no other. What a text is read as is not said beyond the name.
#[verifier::external_body]
pub(crate) fn read_private_key(pem: &[u8]) -> (r: Result<Option<(KeyKind, Vec<u8>)>, String>)
    ensures
        private_key_read(r) == pem_private_key(pem@),
{
    let mut input = pem;
    match rustls_pemfile::private_key(&mut input).map_err(|error| error.to_string())? {
        None => Ok(None),
        Some(rustls::pki_types::PrivateKeyDer::Pkcs1(key)) => {
            Ok(Some((KeyKind::Pkcs1, key.secret_pkcs1_der().to_vec())))
        },
        Some(rustls::pki_types::PrivateKeyDer::Sec1(key)) => {
            Ok(Some((KeyKind::Sec1, key.secret_sec1_der().to_vec())))
        },
        Some(key) => Ok(Some((KeyKind::Pkcs8, key.secret_der().to_vec()))),
    }
}

/// Why there is no usable certificate chain, when reading the file at `path` came to `read`.
pub open spec fn certificates_error(
    path: Seq<char>,
    read: Result<Seq<Seq<u8>>, Seq<char>>,
) -> Option<Seq<char>> {
    match read {
        Err(error) => Some("failed to parse certificate "@ + path + ": "@ + error),
        Ok(certificates) => if certificates.len() == 0 {
            Some("no certificate found in "@ + path)
        } else {
            None
        },
    }
}

/// Why there is no usable private key, when reading the file at `path` came to `read`.
pub open spec fn private_key_error(
    path: Seq<char>,
    read: Result<Option<(KeyKind, Seq<u8>)>, Seq<char>>,
) -> Option<Seq<char>> {
    match read {
        Err(error) => Some("failed to parse private key "@ + path + ": "@ + error),
        Ok(None) => Some(
            "no usable private key in "@ + path + " (PKCS#8 / RSA / EC are supported)"@,
        ),
        Ok(Some(_)) => None,
    }
}

/// The certificate chain, when reading the file at `path` came to `read`; there has to be at least
/// one certificate.
pub fn usable_certificates(path: &str, read: Result<Vec<Vec<u8>>, String>) -> (r: Result<
    Vec<Vec<u8>>,
    StartupError,
>)
    ensures
        match r {
            Ok(certificates) => read == Ok::<Vec<Vec<u8>>, String>(certificates)
                && certificates_error(path@, certificates_read(read)) is None,
            Err(error) => certificates_error(path@, certificates_read(read)) == Some(error.0@),
        },
        match (read, r) {
            (Err(reason), Err(error)) => error.0@ == "failed to parse certificate "@ + path@ + ": "@
                + reason@,
            (Ok(certificates), Err(error)) => certificates@.len() == 0 && error.0@
                == "no certificate found in "@ + path@,
            (Ok(certificates), Ok(chain)) => certificates@.len() > 0 && chain == certificates,
            _ => false,
        },
{
    match read {
        Err(reason) => {
            let mut message = "failed to parse certificate ".to_string();
            message.append(path);
            message.append(": ");
            message.append(reason.as_str());
            Err(StartupError(message))
        },
        Ok(certificates) => {
            if certificates.len() == 0 {
                let mut message = "no certificate found in ".to_string();
                message.append(path);
                Err(StartupError(message))
            } else {
                Ok(certificates)
            }
        },
    }
}

/// The private key, when reading the file at `path` came to `read`; there has to be one.
pub fn usable_private_key(path: &str, read: Result<Option<(KeyKind, Vec<u8>)>, String>) -> (r:
    Result<(KeyKind, Vec<u8>), StartupError>)
    ensures
        match r {
            Ok(key) => read == Ok::<Option<(KeyKind, Vec<u8>)>, String>(Some(key))
                && private_key_error(path@, private_key_read(read)) is None,
            Err(error) => private_key_error(path@, private_key_read(read)) == Some(error.0@),
        },
        match (read, r) {
            (Err(reason), Err(error)) => error.0@ == "failed to parse private key "@ + path@ + ": "@
                + reason@,
            (Ok(None), Err(error)) => error.0@ == "no usable private key in "@ + path@
                + " (PKCS#8 / RSA / EC are supported)"@,
            (Ok(Some(found)), Ok(key)) => key == found,
            _ => false,
        },
{
    match read {
        Err(reason) => {
            let mut message = "failed to parse private key ".to_string();
            message.append(path);
            message.append(": ");
            message.append(reason.as_str());
            Err(StartupError(message))
        },
        Ok(None) => {
            let mut message = "no usable private key in ".to_string();
            message.append(path);
            message.append(" (PKCS#8 / RSA / EC are supported)");
            Err(StartupError(message))
        },
        Ok(Some(key)) => Ok(key),
    }
}

/// The certificate chain in `pem`, the contents of the file at `path`.
pub fn load_certificates(path: &str, pem: &[u8]) -> (r: Result<Vec<Vec<u8>>, StartupError>)
    ensures
        match r {
            Ok(certificates) => certificates@.len() > 0 && pem_certificates(pem@) == Ok::<
                Seq<Seq<u8>>,
                Seq<char>,
            >(certificate_bytes(certificates@)),
            Err(error) => certificates_error(path@, pem_certificates(pem@)) == Some(error.0@),
        },
{
    usable_certificates(path, read_certificates(pem))
}

/// The private key in `pem`, the contents of the file at `path`.
pub fn load_private_key(path: &str, pem: &[u8]) -> (r: Result<(KeyKind, Vec<u8>), StartupError>)
    ensures
        match r {
            Ok((kind, der)) => pem_private_key(pem@) == Ok::<
                Option<(KeyKind, Seq<u8>)>,
                Seq<char>,
            >(Some((kind, der@))),
            Err(error) => private_key_error(path@, pem_private_key(pem@)) == Some(error.0@),
        },
{
    usable_private_key(path, read_private_key(pem))
}

/// A chain is usable exactly when it is read and has a certificate in it, and a private key when it
/// is read and there is one; otherwise the message names the file and, where there is one, the
/// reason.
pub proof fn unusable_files_are_named(
    path: Seq<char>,
    chain: Result<Seq<Seq<u8>>, Seq<char>>,
    key: Result<Option<(KeyKind, Seq<u8>)>, Seq<char>>,
)
    ensures
        certificates_error(path, chain) == (match chain {
            Ok(certificates) if certificates.len() > 0 => None,
            Ok(_) => Some("no certificate found in "@ + path),
            Err(reason) => Some("failed to parse certificate "@ + path + ": "@ + reason),
        }),
        private_key_error(path, key) == (match key {
            Ok(found) if found is Some => None,
            Ok(_) => Some(
                "no usable private key in "@ + path + " (PKCS#8 / RSA / EC are supported)"@,
            ),
            Err(reason) => Some("failed to parse private key "@ + path + ": "@ + reason),
        }),
{
}

} // verus!
