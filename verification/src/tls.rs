//! The certificate with which a connection is encrypted once a peer has asked for it.

use crate::keys::{load_private_key_from_pem, loaded_key, refusal_of, signature_result};
use crate::text::owned;
use crate::tls::CertificateUse::{ClientAuth, DigitalSignature, KeyEncipherment, ServerAuth};
use rcgen::{
    date_time_ymd, CertificateParams, DnType, Error, ExtendedKeyUsagePurpose, KeyPair, KeyUsagePurpose,
    PKCS_RSA_SHA256,
};
use std::time::Duration;
use vstd::prelude::*;
use vstd::slice::slice_to_vec;

verus! {

/// The name in every certificate.
pub open spec fn certificate_name() -> Seq<char> {
    "adb"@
}

/// Ten years of 365 days, in seconds: as long as a certificate is valid.
pub const CERTIFICATE_LIFETIME: u64 = 315_360_000;

/// The last second of the year 9999, counted from the start of 1970.
pub const LAST_SECOND: u64 = 253_402_300_799;

/// What a certificate and its key may be used for.
#[derive(Debug, Clone, Copy, PartialEq, Eq, Structural)]
pub enum CertificateUse {
    DigitalSignature,
    KeyEncipherment,
    ServerAuth,
    ClientAuth,
}

/// What every certificate may be used for.
pub open spec fn certificate_uses() -> Seq<CertificateUse> {
    seq![
        CertificateUse::DigitalSignature,
        CertificateUse::KeyEncipherment,
        CertificateUse::ServerAuth,
        CertificateUse::ClientAuth,
    ]
}

/// Why there is no certificate, or no encrypted connection.
#[derive(Debug, PartialEq, Eq)]
pub enum TlsError {
    /// The certificate could not be made.
    Rcgen(String),
    /// The connection could not be set up.
    Rustls(String),
    /// The private key could not be read, or cannot sign.
    InvalidPrivateKey(String),
    /// The handshake failed.
    Handshake(String),
    /// Reading or writing failed.
    Io(String),
}

/// What an error says.
pub enum TlsErrorModel {
    Rcgen(Seq<char>),
    Rustls(Seq<char>),
    InvalidPrivateKey(Seq<char>),
    Handshake(Seq<char>),
    Io(Seq<char>),
}

impl View for TlsError {
    type V = TlsErrorModel;

    open spec fn view(&self) -> TlsErrorModel {
        match *self {
            TlsError::Rcgen(m) => TlsErrorModel::Rcgen(m@),
            TlsError::Rustls(m) => TlsErrorModel::Rustls(m@),
            TlsError::InvalidPrivateKey(m) => TlsErrorModel::InvalidPrivateKey(m@),
            TlsError::Handshake(m) => TlsErrorModel::Handshake(m@),
            TlsError::Io(m) => TlsErrorModel::Io(m@),
        }
    }
}

/// What an error prints as.
pub open spec fn tls_error_text(e: TlsErrorModel) -> Seq<char> {
    match e {
        TlsErrorModel::Rcgen(m) => "rcgen error: "@ + m,
        TlsErrorModel::Rustls(m) => "rustls error: "@ + m,
        TlsErrorModel::InvalidPrivateKey(m) => "invalid private key PEM: "@ + m,
        TlsErrorModel::Handshake(m) => "TLS handshake error: "@ + m,
        TlsErrorModel::Io(m) => "I/O error: "@ + m,
    }
}

impl TlsError {
    /// The text of the error.
    pub fn message(&self) -> (s: String)
        ensures
            s@ == tls_error_text(self@),
    {
        let (head, tail) = match self {
            TlsError::Rcgen(m) => ("rcgen error: ", m),
            TlsError::Rustls(m) => ("rustls error: ", m),
            TlsError::InvalidPrivateKey(m) => ("invalid private key PEM: ", m),
            TlsError::Handshake(m) => ("TLS handshake error: ", m),
            TlsError::Io(m) => ("I/O error: ", m),
        };
        let mut s = owned(head);
        s.append(tail.as_str());
        s
    }
}

/// Why `KeyPair::from_pkcs8_der_and_sign_algo` does not take a private key for signatures of the
/// kind RSA-SHA256, or nothing where it does.
pub uninterp spec fn signing_refusal(der: Seq<u8>) -> Option<Seq<char>>;

/// What `CertificateParams::self_signed` makes of a private key, a name, which is both the
/// subject and the only alternative name, the uses, and the seconds from the start of 1970 to
/// the start and to the end of the certificate's validity: its bytes, or what went wrong. An
/// RSA-SHA256 signature has no random part, and the serial number is taken from the key, so
/// nothing is left to chance.
pub uninterp spec fn certificate_der(
    key: Seq<u8>,
    name: Seq<char>,
    uses: Seq<CertificateUse>,
    start: u64,
    end: u64,
) -> Result<Seq<u8>, Seq<char>>;

/// Calls `rcgen::KeyPair::from_pkcs8_der_and_sign_algo`, whose answer is a function of the key.
#[verifier::external_body]
fn check_signing_key(der: &[u8]) -> (r: Result<(), String>)
    ensures
        refusal_of(r) == signing_refusal(der@),
{
    match KeyPair::from_pkcs8_der_and_sign_algo(&der.into(), &PKCS_RSA_SHA256) {
        Ok(_) => Ok(()),
        Err(e) => Err(e.to_string()),
    }
}

/// Calls `rcgen::CertificateParams::self_signed`, whose result is a function of what it is
/// given. A date beyond the year 9999 would make it panic.
#[verifier::external_body]
fn self_sign(
    key: &[u8],
    name: &str,
    uses: &[CertificateUse],
    start: u64,
    end: u64,
) -> (r: Result<Vec<u8>, String>)
    requires
        start <= LAST_SECOND,
        end <= LAST_SECOND,
    ensures
        signature_result(r) == certificate_der(key@, name@, uses@, start, end),
{
    let text = |e: Error| e.to_string();
    let pair = KeyPair::from_pkcs8_der_and_sign_algo(&key.into(), &PKCS_RSA_SHA256).map_err(text)?;
    let mut params = CertificateParams::new([name.to_string()]).map_err(text)?;
    params.distinguished_name.push(DnType::CommonName, name);
    params.not_before = date_time_ymd(1970, 1, 1) + Duration::from_secs(start);
    params.not_after = date_time_ymd(1970, 1, 1) + Duration::from_secs(end);
    for u in uses {
        match u {
            DigitalSignature => params.key_usages.push(KeyUsagePurpose::DigitalSignature),
            KeyEncipherment => params.key_usages.push(KeyUsagePurpose::KeyEncipherment),
            ServerAuth => params.extended_key_usages.push(ExtendedKeyUsagePurpose::ServerAuth),
            ClientAuth => params.extended_key_usages.push(ExtendedKeyUsagePurpose::ClientAuth),
        }
    }
    Ok(params.self_signed(&pair).map_err(text)?.der().to_vec())
}

/// The certificate of a private key that is made at some second.
pub open spec fn certificate_at(key: Seq<u8>, now: u64) -> Result<Seq<u8>, Seq<char>> {
    certificate_der(
        key,
        certificate_name(),
        certificate_uses(),
        now,
        (now + CERTIFICATE_LIFETIME) as u64,
    )
}

/// Makes a self-signed certificate for an RSA private key in a PEM text, which is valid for ten
/// years from `now`, a number of seconds since the start of 1970. The result is the certificate
/// and the private key, both as DER bytes.
pub fn generate_self_signed_cert(rsa_private_key_pem: &str, now: u64) -> (r: Result<
    (Vec<u8>, Vec<u8>),
    TlsError,
>)
    requires
        now + CERTIFICATE_LIFETIME <= LAST_SECOND,
    ensures
        match loaded_key(rsa_private_key_pem@) {
            None => r matches Err(e) && e@ == TlsErrorModel::InvalidPrivateKey(
                "Failed to parse RSA private key PEM"@,
            ),
            Some(key) => match signing_refusal(key) {
                Some(m) => r matches Err(e) && e@ == TlsErrorModel::InvalidPrivateKey(m),
                None => match certificate_at(key, now) {
                    Ok(c) => r matches Ok((cert_der, key_der)) && cert_der@ == c && key_der@ == key,
                    Err(m) => r matches Err(e) && e@ == TlsErrorModel::Rcgen(m),
                },
            },
        },
{
    let key = match load_private_key_from_pem(rsa_private_key_pem) {
        Ok(k) => k,
        Err(_) => {
            return Err(
                TlsError::InvalidPrivateKey(owned("Failed to parse RSA private key PEM")),
            );
        },
    };
    match check_signing_key(key.as_der()) {
        Ok(()) => {},
        Err(m) => {
            return Err(TlsError::InvalidPrivateKey(m));
        },
    }
    let uses: [CertificateUse; 4] = [
        CertificateUse::DigitalSignature,
        CertificateUse::KeyEncipherment,
        CertificateUse::ServerAuth,
        CertificateUse::ClientAuth,
    ];
    assert(uses@ =~= certificate_uses());
    let end: u64 = now + CERTIFICATE_LIFETIME;
    match self_sign(key.as_der(), "adb", uses.as_slice(), now, end) {
        Ok(cert) => Ok((cert, slice_to_vec(key.as_der()))),
        Err(m) => Err(TlsError::Rcgen(m)),
    }
}

} // verus!
