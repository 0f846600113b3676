//! RSA keys as plain values, and the binary form of a public key that devices read.

use crate::bytes::{le_bytes, le_value, low_u32};
use crate::text::{all_white, dec, decimal, is_tight, owned, trimmed, trimming_keeps_the_middle};
use rsa::pkcs1::DecodeRsaPrivateKey;
use rsa::pkcs1v15::{SigningKey, VerifyingKey};
use rsa::pkcs8::{DecodePrivateKey, EncodePrivateKey, LineEnding};
use rsa::signature::{SignatureEncoding, Signer, Verifier};
use rsa::traits::{PrivateKeyParts, PublicKeyParts};
use rsa::{BigUint, RsaPrivateKey, RsaPublicKey};
use sha1::Sha1;
use vstd::arithmetic::power::pow;
use vstd::prelude::*;
use vstd::slice::slice_to_vec;

verus! {

/// Size of Android RSA public key structure in binary format (524 bytes)
pub const ANDROID_PUBKEY_ENCODED_SIZE: usize = 524;

/// The bytes of a modulus.
pub const ANDROID_PUBKEY_MODULUS_SIZE: usize = 256;

/// The 32-bit words of a modulus.
pub const ANDROID_PUBKEY_MODULUS_SIZE_WORDS: u32 = 64;

/// Why a key was refused or could not be used.
#[derive(Debug, PartialEq, Eq)]
pub enum AuthError {
    /// The RSA operation failed.
    Rsa(String),
    /// A text that is not base 64.
    Base64(String),
    /// Reading or writing failed.
    Io(String),
    /// A token of another length.
    InvalidTokenLength { expected: usize, got: usize },
    /// A key or a signature in a form that cannot be read.
    InvalidPublicKeyFormat(String),
    /// The message is not an AUTH message.
    NotAuthMessage,
    /// An AUTH message of an unknown sub-type.
    UnsupportedAuthType(u32),
}

/// What an error says.
pub enum AuthErrorModel {
    Rsa(Seq<char>),
    Base64(Seq<char>),
    Io(Seq<char>),
    InvalidTokenLength { expected: int, got: int },
    InvalidPublicKeyFormat(Seq<char>),
    NotAuthMessage,
    UnsupportedAuthType(u32),
}

impl View for AuthError {
    type V = AuthErrorModel;

    open spec fn view(&self) -> AuthErrorModel {
        match *self {
            AuthError::Rsa(m) => AuthErrorModel::Rsa(m@),
            AuthError::Base64(m) => AuthErrorModel::Base64(m@),
            AuthError::Io(m) => AuthErrorModel::Io(m@),
            AuthError::InvalidTokenLength { expected, got } => AuthErrorModel::InvalidTokenLength {
                expected: expected as int,
                got: got as int,
            },
            AuthError::InvalidPublicKeyFormat(m) => AuthErrorModel::InvalidPublicKeyFormat(m@),
            AuthError::NotAuthMessage => AuthErrorModel::NotAuthMessage,
            AuthError::UnsupportedAuthType(t) => AuthErrorModel::UnsupportedAuthType(t),
        }
    }
}

/// What an error prints as.
pub open spec fn auth_error_text(e: AuthErrorModel) -> Seq<char> {
    match e {
        AuthErrorModel::Rsa(m) => "RSA crypto error: "@ + m,
        AuthErrorModel::Base64(m) => "Base64 error: "@ + m,
        AuthErrorModel::Io(m) => "IO error: "@ + m,
        AuthErrorModel::InvalidTokenLength { expected, got } => "Invalid token length: expected "@
            + dec(expected as nat) + ", got "@ + dec(got as nat),
        AuthErrorModel::InvalidPublicKeyFormat(m) => "Invalid public key format: "@ + m,
        AuthErrorModel::NotAuthMessage => "Not an AUTH message"@,
        AuthErrorModel::UnsupportedAuthType(t) => "Unsupported auth sub-type: "@ + dec(t as nat),
    }
}

impl AuthError {
    /// The text of the error.
    pub fn message(&self) -> (s: String)
        ensures
            s@ == auth_error_text(self@),
    {
        let mut s = String::new();
        match self {
            AuthError::Rsa(m) => {
                s.append("RSA crypto error: ");
                s.append(m.as_str());
            },
            AuthError::Base64(m) => {
                s.append("Base64 error: ");
                s.append(m.as_str());
            },
            AuthError::Io(m) => {
                s.append("IO error: ");
                s.append(m.as_str());
            },
            AuthError::InvalidTokenLength { expected, got } => {
                s.append("Invalid token length: expected ");
                s.append(decimal(*expected as u64).as_str());
                s.append(", got ");
                s.append(decimal(*got as u64).as_str());
            },
            AuthError::InvalidPublicKeyFormat(m) => {
                s.append("Invalid public key format: ");
                s.append(m.as_str());
            },
            AuthError::NotAuthMessage => {
                s.append("Not an AUTH message");
            },
            AuthError::UnsupportedAuthType(t) => {
                s.append("Unsupported auth sub-type: ");
                s.append(decimal(*t as u64).as_str());
            },
        }
        assert(s@ =~= auth_error_text(self@));
        s
    }
}

/// A public key: the bytes of the modulus and of the exponent, least significant byte first
/// and without zeros behind the most significant one.
#[derive(Debug, Clone, PartialEq, Eq)]
pub struct PublicKey {
    pub n: Vec<u8>,
    pub e: Vec<u8>,
}

/// What a public key says.
pub struct PublicKeyModel {
    pub n: Seq<u8>,
    pub e: Seq<u8>,
}

impl View for PublicKey {
    type V = PublicKeyModel;

    open spec fn view(&self) -> PublicKeyModel {
        PublicKeyModel { n: self.n@, e: self.e@ }
    }
}

/// No zero stands behind the most significant byte.
pub open spec fn is_minimal(n: Seq<u8>) -> bool {
    n.len() == 1 || n.len() > 1 && n[n.len() - 1] != 0
}

/// The number of the modulus is odd and larger than the exponent, and the exponent is odd and
/// in the range that is in use.
pub open spec fn is_sound(n: nat, e: nat) -> bool {
    e < n && n % 2 == 1 && e % 2 == 1 && 2 <= e <= 0x1_FFFF_FFFF
}

/// Why a modulus and an exponent make no public key.
pub open spec fn refusal(n: nat, e: nat) -> Option<Seq<char>> {
    if n >= pow(2, 4096) {
        Some("modulus too large"@)
    } else if e >= 0x1_0000_0000_0000_0000 {
        Some("public exponent too large"@)
    } else if e >= n || n % 2 == 0 {
        Some("invalid modulus"@)
    } else if e % 2 == 0 {
        Some("invalid exponent"@)
    } else if e < 2 {
        Some("public exponent too small"@)
    } else if e > 0x1_FFFF_FFFF {
        Some("public exponent too large"@)
    } else {
        None
    }
}

/// The text of a refusal.
pub open spec fn refusal_of(r: Result<(), String>) -> Option<Seq<char>> {
    match r {
        Ok(()) => None,
        Err(m) => Some(m@),
    }
}

/// `rsa::RsaPublicKey::new`: refuses a modulus of more than 4096 bits, an exponent of more than
/// 64, a modulus that is even or not larger than the exponent, and an exponent that is even,
/// below 2 or of more than 33 bits, in this order and with these texts; accepts the rest.
#[verifier::external_body]
pub(crate) fn check_public_key(n: &[u8], e: &[u8]) -> (r: Result<(), String>)
    ensures
        refusal_of(r) == refusal(le_value(n@), le_value(e@)),
{
    match RsaPublicKey::new(BigUint::from_bytes_le(n), BigUint::from_bytes_le(e)) {
        Ok(_) => Ok(()),
        Err(err) => Err(err.to_string()),
    }
}

/// Shift and remainder of `rsa::BigUint`: two to the given power modulo a number, without
/// zeros behind the most significant byte. The power has to fit into memory.
#[verifier::external_body]
pub(crate) fn power_of_two_mod(exponent: usize, n: &[u8]) -> (r: Vec<u8>)
    requires
        exponent <= 0x1_0000,
        le_value(n@) > 0,
    ensures
        le_value(r@) == pow(2, exponent as nat) % (le_value(n@) as int),
        is_minimal(r@),
{
    ((BigUint::from(1u32) << exponent) % BigUint::from_bytes_le(n)).to_bytes_le()
}

/// The private key in a run of bytes as `RsaPrivateKey::from_pkcs8_der` reads it, written out
/// again by `to_pkcs8_der`.
pub uninterp spec fn normal_pkcs8(der: Seq<u8>) -> Option<Seq<u8>>;

/// The modulus and the exponent of the private key in a run of bytes.
pub uninterp spec fn public_parts(der: Seq<u8>) -> Option<PublicKeyModel>;

/// How many bits the first and the second prime of the private key in a run of bytes have.
pub uninterp spec fn prime_lengths(der: Seq<u8>) -> Option<(nat, nat)>;

/// What signing a token with the private key in a run of bytes gives.
pub uninterp spec fn pkcs1v15_sha1(der: Seq<u8>, token: Seq<u8>) -> Result<Seq<u8>, Seq<char>>;

/// Whether a signature of a token is valid for a public key.
pub uninterp spec fn pkcs1v15_sha1_valid(
    key: PublicKeyModel,
    token: Seq<u8>,
    signature: Seq<u8>,
) -> bool;

/// The private key in a PKCS#8 PEM text.
pub uninterp spec fn pkcs8_pem_key(pem: Seq<char>) -> Option<Seq<u8>>;

/// The private key in a PKCS#1 PEM text.
pub uninterp spec fn pkcs1_pem_key(pem: Seq<char>) -> Option<Seq<u8>>;

/// The PKCS#8 PEM text of a private key.
pub uninterp spec fn pkcs8_pem_text(der: Seq<u8>) -> Result<Seq<char>, Seq<char>>;

/// The view of an optional run of bytes.
pub open spec fn opt_bytes(o: Option<Vec<u8>>) -> Option<Seq<u8>> {
    match o {
        Some(v) => Some(v@),
        None => None,
    }
}

/// The view of an optional public key.
pub open spec fn opt_public(o: Option<PublicKey>) -> Option<PublicKeyModel> {
    match o {
        Some(k) => Some(k@),
        None => None,
    }
}

/// What a signing result says.
pub open spec fn signature_result(r: Result<Vec<u8>, String>) -> Result<Seq<u8>, Seq<char>> {
    match r {
        Ok(v) => Ok(v@),
        Err(m) => Err(m@),
    }
}

/// What a result of writing a text says.
pub open spec fn text_result(r: Result<String, String>) -> Result<Seq<char>, Seq<char>> {
    match r {
        Ok(v) => Ok(v@),
        Err(m) => Err(m@),
    }
}

/// The bytes are a private key as `to_pkcs8_der` writes it.
pub open spec fn is_private_key(der: Seq<u8>) -> bool {
    normal_pkcs8(der) == Some(der)
}

/// A public key that belongs to a private key: without zeros at the end, and sound.
pub open spec fn is_public_key(k: PublicKeyModel) -> bool {
    is_minimal(k.n) && is_minimal(k.e) && is_sound(le_value(k.n), le_value(k.e))
}

/// The modulus of the private key in a run of bytes has this many bits.
pub open spec fn has_bits(der: Seq<u8>, bits: nat) -> bool {
    public_parts(der) matches Some(k) && modulus_has_bits(k, bits)
}

/// The modulus of a public key has this many bits.
pub open spec fn modulus_has_bits(k: PublicKeyModel, bits: nat) -> bool {
    bits > 0 && pow(2, (bits - 1) as nat) <= le_value(k.n) < pow(2, bits)
}

/// How many bits more the second prime of a key may have than the first for signing to end in
/// good time: signing adds the first prime up until the sum reaches the second.
pub const MAX_PRIME_GAP: usize = 24;

/// Signing with the private key in a run of bytes ends in good time.
pub open spec fn can_sign(der: Seq<u8>) -> bool {
    prime_lengths(der) matches Some((p, q)) && q <= p + MAX_PRIME_GAP
}

/// `RsaPrivateKey::new` of rsa with the random numbers of the operating system, written out by
/// `to_pkcs8_der`. What comes out depends on chance. It is a private key whose modulus has exactly
/// the bits that were asked for, and the two primes share them. Where the operating system has no
/// random numbers, `OsRng` panics. For a few bits the search for primes might not end.
#[verifier::external_body]
fn new_private_key(bits: usize) -> (r: Result<Vec<u8>, String>)
    requires
        1024 <= bits <= 4096,
    ensures
        r matches Ok(der) ==> is_private_key(der@) && has_bits(der@, bits as nat)
            && prime_lengths(der@) == Some((bits as nat / 2, (bits - bits / 2) as nat)),
{
    let key = RsaPrivateKey::new(&mut rsa::rand_core::OsRng, bits).map_err(|e| e.to_string())?;
    let der = key.to_pkcs8_der().map_err(|e| e.to_string())?;
    Ok(der.as_bytes().to_vec())
}

/// `RsaPrivateKey::from_pkcs8_der` and `to_pkcs8_der` of rsa: a function of the bytes, whose
/// output it leaves as it is.
#[verifier::external_body]
fn normalize_pkcs8(der: &[u8]) -> (r: Option<Vec<u8>>)
    ensures
        opt_bytes(r) == normal_pkcs8(der@),
        r matches Some(d) ==> is_private_key(d@),
{
    let key = RsaPrivateKey::from_pkcs8_der(der).ok()?;
    Some(key.to_pkcs8_der().ok()?.as_bytes().to_vec())
}

/// `RsaPrivateKey::from_pkcs8_der`, `n` and `e` of rsa: a function of the bytes. A private key
/// has a modulus and an exponent, and they are sound.
#[verifier::external_body]
fn read_public_parts(der: &[u8]) -> (r: Option<PublicKey>)
    ensures
        opt_public(r) == public_parts(der@),
        is_private_key(der@) ==> r is Some,
        r matches Some(k) ==> is_public_key(k@),
{
    let key = RsaPrivateKey::from_pkcs8_der(der).ok()?;
    Some(PublicKey { n: key.n().to_bytes_le(), e: key.e().to_bytes_le() })
}

/// What the lengths of two primes say.
pub open spec fn opt_lengths(o: Option<(usize, usize)>) -> Option<(nat, nat)> {
    match o {
        Some((p, q)) => Some((p as nat, q as nat)),
        None => None,
    }
}

/// `RsaPrivateKey::from_pkcs8_der`, and `bits` of the first two `primes` of rsa: a function of the
/// bytes. A private key has them.
#[verifier::external_body]
fn read_prime_lengths(der: &[u8]) -> (r: Option<(usize, usize)>)
    ensures
        opt_lengths(r) == prime_lengths(der@),
        is_private_key(der@) ==> r is Some,
{
    let key = RsaPrivateKey::from_pkcs8_der(der).ok()?;
    Some((key.primes().first()?.bits(), key.primes().get(1)?.bits()))
}

/// `SigningKey::<Sha1>::try_sign` of rsa: a function of the key and the token, whose output
/// is as long as the key's modulus and valid for it and the exponent. With a first prime that is
/// much smaller than the second it would not end.
#[verifier::external_body]
fn sign_pkcs1v15_sha1(der: &[u8], token: &[u8]) -> (r: Result<Vec<u8>, String>)
    requires
        can_sign(der@),
    ensures
        signature_result(r) == pkcs1v15_sha1(der@, token@),
        r matches Ok(s) ==> (public_parts(der@) matches Some(k) ==> pkcs1v15_sha1_valid(
            k,
            token@,
            s@,
        ) && s@.len() == k.n.len()),
{
    let key = RsaPrivateKey::from_pkcs8_der(der).map_err(|e| e.to_string())?;
    match SigningKey::<Sha1>::new(key).try_sign(token) {
        Ok(signature) => Ok(signature.to_vec()),
        Err(e) => Err(e.to_string()),
    }
}

/// `VerifyingKey::<Sha1>::verify` of rsa: a function of the modulus, the exponent, the token
/// and the signature. `Signature::try_from` takes every run of bytes.
#[verifier::external_body]
fn verify_pkcs1v15_sha1(key: &PublicKey, token: &[u8], signature: &[u8]) -> (r: Option<bool>)
    ensures
        r == Some(pkcs1v15_sha1_valid(key@, token@, signature@)),
{
    let n = BigUint::from_bytes_le(&key.n);
    let public = RsaPublicKey::new_unchecked(n, BigUint::from_bytes_le(&key.e));
    let sig = rsa::pkcs1v15::Signature::try_from(signature).ok()?;
    Some(VerifyingKey::<Sha1>::new(public).verify(token, &sig).is_ok())
}

/// `RsaPrivateKey::from_pkcs8_pem` of rsa, written out by `to_pkcs8_der`: a function of the
/// text; what comes out is a private key.
#[verifier::external_body]
fn read_pkcs8_pem(pem: &str) -> (r: Option<Vec<u8>>)
    ensures
        opt_bytes(r) == pkcs8_pem_key(pem@),
        r matches Some(d) ==> is_private_key(d@),
{
    let key = RsaPrivateKey::from_pkcs8_pem(pem).ok()?;
    Some(key.to_pkcs8_der().ok()?.as_bytes().to_vec())
}

/// `RsaPrivateKey::from_pkcs1_pem` of rsa, written out by `to_pkcs8_der`: a function of the
/// text; what comes out is a private key.
#[verifier::external_body]
fn read_pkcs1_pem(pem: &str) -> (r: Option<Vec<u8>>)
    ensures
        opt_bytes(r) == pkcs1_pem_key(pem@),
        r matches Some(d) ==> is_private_key(d@),
{
    let key = RsaPrivateKey::from_pkcs1_pem(pem).ok()?;
    Some(key.to_pkcs8_der().ok()?.as_bytes().to_vec())
}

/// `RsaPrivateKey::to_pkcs8_pem` of rsa: a function of the key. Reading the text, without the
/// white space at its ends, gives the key back.
#[verifier::external_body]
fn write_pkcs8_pem(der: &[u8]) -> (r: Result<String, String>)
    ensures
        text_result(r) == pkcs8_pem_text(der@),
        r matches Ok(p) ==> pkcs8_pem_key(trimmed(p@)) == normal_pkcs8(der@),
{
    let key = RsaPrivateKey::from_pkcs8_der(der).map_err(|e| e.to_string())?;
    match key.to_pkcs8_pem(LineEnding::LF) {
        Ok(pem) => Ok(pem.to_string()),
        Err(e) => Err(e.to_string()),
    }
}

/// A private key, as `to_pkcs8_der` writes it.
#[derive(Debug, PartialEq, Eq)]
pub struct PrivateKey {
    der: Vec<u8>,
}

impl Clone for PrivateKey {
    fn clone(&self) -> (r: PrivateKey)
        ensures
            r.der_bytes() == self.der_bytes(),
    {
        proof {
            use_type_invariant(self);
        }
        PrivateKey { der: slice_to_vec(self.der.as_slice()) }
    }
}

impl PrivateKey {
    #[verifier::type_invariant]
    spec fn holds_a_key(self) -> bool {
        is_private_key(self.der@)
    }

    /// The bytes of the key.
    pub closed spec fn der_bytes(&self) -> Seq<u8> {
        self.der@
    }

    /// The private key in a run of bytes.
    pub fn from_pkcs8_der(der: &[u8]) -> (r: Option<PrivateKey>)
        ensures
            match r {
                Some(k) => normal_pkcs8(der@) == Some(k.der_bytes()),
                None => normal_pkcs8(der@) is None,
            },
    {
        match normalize_pkcs8(der) {
            Some(d) => Some(PrivateKey { der: d }),
            None => None,
        }
    }

    /// The bytes of the key.
    pub fn as_der(&self) -> (r: &[u8])
        ensures
            r@ == self.der_bytes(),
    {
        self.der.as_slice()
    }

    /// The public key that belongs to the key.
    pub fn to_public_key(&self) -> (r: PublicKey)
        ensures
            public_parts(self.der_bytes()) == Some(r@),
            is_public_key(r@),
            is_private_key(self.der_bytes()),
    {
        proof {
            use_type_invariant(self);
        }
        read_public_parts(self.der.as_slice()).unwrap()
    }
}

/// The bits of the modulus of a generated key.
pub const RSA_KEY_BITS: usize = 2048;

/// Generates a new 2048-bit RSA private key. Which one is a matter of chance. Without random
/// numbers from the operating system it panics.
pub fn generate_rsa_key() -> (r: Result<PrivateKey, AuthError>)
    ensures
        r matches Ok(k) ==> is_private_key(k.der_bytes()) && has_bits(k.der_bytes(), 2048)
            && can_sign(k.der_bytes()),
        r matches Err(e) ==> e@ is Rsa,
{
    finish_generation(new_private_key(RSA_KEY_BITS))
}

/// The private key that key generation brought, or its error.
fn finish_generation(outcome: Result<Vec<u8>, String>) -> (r: Result<PrivateKey, AuthError>)
    requires
        outcome matches Ok(der) ==> is_private_key(der@),
    ensures
        match outcome {
            Ok(der) => r matches Ok(k) && k.der_bytes() == der@ && is_private_key(der@),
            Err(m) => r matches Err(e) && e@ == AuthErrorModel::Rsa(m@),
        },
{
    match outcome {
        Ok(der) => Ok(PrivateKey { der }),
        Err(m) => Err(AuthError::Rsa(m)),
    }
}

/// What a result that is a run of bytes says.
pub open spec fn bytes_result(r: Result<Vec<u8>, AuthError>) -> Result<Seq<u8>, AuthErrorModel> {
    match r {
        Ok(v) => Ok(v@),
        Err(e) => Err(e@),
    }
}

/// The signature of a token, or the error of the RSA operation. A key whose second prime is much
/// larger than the first is refused.
pub open spec fn token_signature(der: Seq<u8>, token: Seq<u8>) -> Result<Seq<u8>, AuthErrorModel> {
    if !can_sign(der) {
        Err(AuthErrorModel::Rsa("the primes of the key are too far apart"@))
    } else {
        match pkcs1v15_sha1(der, token) {
            Ok(s) => Ok(s),
            Err(m) => Err(AuthErrorModel::Rsa(m)),
        }
    }
}

/// Whether signing with a key ends in good time.
pub fn key_can_sign(private_key: &PrivateKey) -> (r: bool)
    ensures
        r == can_sign(private_key.der_bytes()),
{
    match read_prime_lengths(private_key.as_der()) {
        Some((p, q)) => q <= p || q - p <= MAX_PRIME_GAP,
        None => false,
    }
}

/// Signs a token (PKCS#1 v1.5 with SHA-1). The signature is as long as the modulus, and valid for
/// the public key that belongs to the private key.
pub fn sign_token(private_key: &PrivateKey, token: &[u8]) -> (r: Result<Vec<u8>, AuthError>)
    ensures
        bytes_result(r) == token_signature(private_key.der_bytes(), token@),
        r matches Ok(s) ==> (public_parts(private_key.der_bytes()) matches Some(k)
            ==> pkcs1v15_sha1_valid(k, token@, s@) && s@.len() == k.n.len()),
{
    if !key_can_sign(private_key) {
        return Err(AuthError::Rsa(owned("the primes of the key are too far apart")));
    }
    match sign_pkcs1v15_sha1(private_key.as_der(), token) {
        Ok(s) => Ok(s),
        Err(m) => Err(AuthError::Rsa(m)),
    }
}

/// Checks a signature of a token.
pub fn verify_token_signature(public_key: &PublicKey, token: &[u8], signature: &[u8]) -> (r: Result<
    bool,
    AuthError,
>)
    ensures
        r matches Ok(valid) && valid == pkcs1v15_sha1_valid(public_key@, token@, signature@),
{
    match verify_pkcs1v15_sha1(public_key, token, signature) {
        Some(valid) => Ok(valid),
        None => Err(AuthError::InvalidPublicKeyFormat(owned("Invalid signature length"))),
    }
}

/// The private key in a PEM text, white space around it aside: PKCS#8, or else PKCS#1.
pub open spec fn loaded_key(pem: Seq<char>) -> Option<Seq<u8>> {
    match pkcs8_pem_key(trimmed(pem)) {
        Some(d) => Some(d),
        None => pkcs1_pem_key(trimmed(pem)),
    }
}

/// Loads a private key from a PEM text. White space around it is ignored.
pub fn load_private_key_from_pem(pem_str: &str) -> (r: Result<PrivateKey, AuthError>)
    ensures
        match loaded_key(pem_str@) {
            Some(d) => r matches Ok(k) && k.der_bytes() == d,
            None => r matches Err(e) && e@ == AuthErrorModel::InvalidPublicKeyFormat(
                "Failed to parse RSA private key PEM"@,
            ),
        },
{
    let chars = crate::text::chars_of(pem_str);
    let pem = crate::text::string_of(crate::text::trim(chars.as_slice()));
    match read_pkcs8_pem(pem.as_str()) {
        Some(der) => {
            return Ok(PrivateKey { der });
        },
        None => {},
    }
    match read_pkcs1_pem(pem.as_str()) {
        Some(der) => Ok(PrivateKey { der }),
        None => Err(
            AuthError::InvalidPublicKeyFormat(owned("Failed to parse RSA private key PEM")),
        ),
    }
}

/// The PEM text of a private key.
pub open spec fn exported_key(der: Seq<u8>) -> Result<Seq<char>, AuthErrorModel> {
    match pkcs8_pem_text(der) {
        Ok(p) => Ok(p),
        Err(m) => Err(
            AuthErrorModel::InvalidPublicKeyFormat("Failed to encode RSA private key PEM: "@ + m),
        ),
    }
}

/// Writes a private key as a PKCS#8 PEM text, which loads to the key again, whatever white
/// space is put around it.
pub fn export_private_key_to_pem(private_key: &PrivateKey) -> (r: Result<String, AuthError>)
    ensures
        match r {
            Ok(p) => exported_key(private_key.der_bytes()) == Ok::<Seq<char>, AuthErrorModel>(p@),
            Err(e) => exported_key(private_key.der_bytes()) == Err::<Seq<char>, AuthErrorModel>(e@),
        },
        r matches Ok(p) ==> forall|text: Seq<char>|
            trimmed(text) == trimmed(p@) ==> #[trigger] loaded_key(text) == Some(
                private_key.der_bytes(),
            ),
{
    proof {
        use_type_invariant(private_key);
    }
    match write_pkcs8_pem(private_key.der.as_slice()) {
        Ok(p) => Ok(p),
        Err(m) => {
            let mut s = String::new();
            s.append("Failed to encode RSA private key PEM: ");
            s.append(m.as_str());
            assert(s@ =~= "Failed to encode RSA private key PEM: "@ + m@);
            Err(AuthError::InvalidPublicKeyFormat(s))
        },
    }
}

/// `x` times the number of `n`, plus one, is a multiple of 2^32.
pub open spec fn is_n0inv(n: nat, x: u32) -> bool {
    (n * x + 1) % 0x1_0000_0000 == 0
}

/// A number in 256 bytes, as far as they reach.
pub open spec fn modulus_bytes(n: nat) -> Seq<u8> {
    le_bytes(n, 256)
}

/// The exponent of a key, modulo 2^32.
pub open spec fn short_exponent(e: Seq<u8>) -> u32 {
    low_u32(le_value(e) as int)
}

/// Two to the power of 4096 modulo `n`: the square of the Montgomery radix.
pub open spec fn montgomery_square(n: nat) -> nat {
    (pow(2, 4096) % (n as int)) as nat
}

/// The binary form of a public key: the number of words, the given inverse, the modulus, the
/// square of the Montgomery radix, and the exponent.
pub open spec fn pubkey_binary(k: PublicKeyModel, n0inv: u32) -> Seq<u8> {
    le_bytes(ANDROID_PUBKEY_MODULUS_SIZE_WORDS as nat, 4) + le_bytes(n0inv as nat, 4)
        + modulus_bytes(le_value(k.n)) + modulus_bytes(montgomery_square(le_value(k.n)))
        + le_bytes(short_exponent(k.e) as nat, 4)
}

/// A public key is accepted exactly where its modulus and its exponent are odd, the exponent is
/// the smaller and neither is too large or too small.
pub proof fn sound_keys_are_accepted(n: nat, e: nat)
    ensures
        refusal(n, e) is None <==> n < pow(2, 4096) && n % 2 == 1 && e % 2 == 1 && 3 <= e < n && e
            <= 0x1_ffff_ffff,
{
}

/// White space around the text of a key does not matter.
pub proof fn white_space_around_keys_is_ignored(a: Seq<char>, pem: Seq<char>, b: Seq<char>)
    requires
        all_white(a),
        all_white(b),
        is_tight(pem),
    ensures
        loaded_key(a + pem + b) == loaded_key(pem),
        loaded_key(pem) == if pkcs8_pem_key(pem) is Some {
            pkcs8_pem_key(pem)
        } else {
            pkcs1_pem_key(pem)
        },
{
    trimming_keeps_the_middle(a, pem, b);
}

} // verus!
