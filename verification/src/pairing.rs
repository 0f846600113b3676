//! Wireless pairing: the packet framing and the cipher behind the key exchange.
//!
//! The exchange itself needs a SPAKE2 variant that is not available here, so a pairing client
//! refuses rather than use another variant.

use crate::bytes::{le_bytes, le_value, lemma_le_bytes_len, low_u32, numbers_are_little_endian, push_bytes};
use crate::text::{
    all_white, chars_of, dec, decimal, is_white, owned, string_of, trim, trimmed, trimming_keeps_the_middle,
};
use ring::aead::{Aad, LessSafeKey, Nonce, UnboundKey, AES_128_GCM};
use ring::hkdf;
use vstd::endian::Endian;
use vstd::prelude::*;
use vstd::slice::{slice_subrange, slice_to_vec};

verus! {

/// Pairing header size: version, type, big-endian payload length.
pub const PAIRING_HEADER_SIZE: usize = 6;

/// Pairing protocol version.
pub const PAIRING_VERSION: u8 = 1;

/// The largest payload.
pub const MAX_PAIRING_PAYLOAD: usize = 16 * 1024;

/// Pairing packet types.
#[derive(Debug, Clone, Copy, PartialEq, Eq, Structural)]
pub enum PairingPacketType {
    Spake2Msg,
    PeerInfo,
}

/// Why pairing failed.
#[derive(Debug, PartialEq, Eq)]
pub enum PairingError {
    /// The code is not six digits.
    InvalidPairingCode,
    /// A header that breaks the rules.
    InvalidHeader(String),
    /// A payload that breaks the rules.
    InvalidPayload(String),
    /// A cryptographic operation failed.
    Crypto(String),
    /// The key exchange is not available.
    UnsupportedSpake2,
    /// Pairing without TLS is refused.
    TlsRequired,
    /// Reading or writing failed.
    Io(String),
}

/// What a pairing error says.
pub enum PairingErrorModel {
    InvalidPairingCode,
    InvalidHeader(Seq<char>),
    InvalidPayload(Seq<char>),
    Crypto(Seq<char>),
    UnsupportedSpake2,
    TlsRequired,
    Io(Seq<char>),
}

impl View for PairingError {
    type V = PairingErrorModel;

    open spec fn view(&self) -> PairingErrorModel {
        match *self {
            PairingError::InvalidPairingCode => PairingErrorModel::InvalidPairingCode,
            PairingError::InvalidHeader(m) => PairingErrorModel::InvalidHeader(m@),
            PairingError::InvalidPayload(m) => PairingErrorModel::InvalidPayload(m@),
            PairingError::Crypto(m) => PairingErrorModel::Crypto(m@),
            PairingError::UnsupportedSpake2 => PairingErrorModel::UnsupportedSpake2,
            PairingError::TlsRequired => PairingErrorModel::TlsRequired,
            PairingError::Io(m) => PairingErrorModel::Io(m@),
        }
    }
}

/// What a pairing error prints as.
pub open spec fn pairing_error_text(e: PairingErrorModel) -> Seq<char> {
    match e {
        PairingErrorModel::InvalidPairingCode => "pairing code must be exactly 6 ASCII digits"@,
        PairingErrorModel::InvalidHeader(m) => "invalid AOSP pairing header: "@ + m,
        PairingErrorModel::InvalidPayload(m) => "invalid AOSP pairing payload: "@ + m,
        PairingErrorModel::Crypto(m) => "pairing cryptographic operation failed: "@ + m,
        PairingErrorModel::UnsupportedSpake2 =>
            "AOSP SPAKE2 is unavailable: the current Rust dependencies do not provide BoringSSL-compatible Curve25519 SPAKE2"@,
        PairingErrorModel::TlsRequired =>
            "AOSP pairing requires a TLS exporter; plaintext pairing is refused"@,
        PairingErrorModel::Io(m) => "I/O error: "@ + m,
    }
}

impl PairingError {
    /// The text of the error.
    pub fn message(&self) -> (s: String)
        ensures
            s@ == pairing_error_text(self@),
    {
        let mut s = String::new();
        match self {
            PairingError::InvalidPairingCode => {
                s.append("pairing code must be exactly 6 ASCII digits");
            },
            PairingError::InvalidHeader(m) => {
                s.append("invalid AOSP pairing header: ");
                s.append(m.as_str());
            },
            PairingError::InvalidPayload(m) => {
                s.append("invalid AOSP pairing payload: ");
                s.append(m.as_str());
            },
            PairingError::Crypto(m) => {
                s.append("pairing cryptographic operation failed: ");
                s.append(m.as_str());
            },
            PairingError::UnsupportedSpake2 => {
                s.append(
                    "AOSP SPAKE2 is unavailable: the current Rust dependencies do not provide BoringSSL-compatible Curve25519 SPAKE2",
                );
            },
            PairingError::TlsRequired => {
                s.append("AOSP pairing requires a TLS exporter; plaintext pairing is refused");
            },
            PairingError::Io(m) => {
                s.append("I/O error: ");
                s.append(m.as_str());
            },
        }
        assert(s@ =~= pairing_error_text(self@));
        s
    }
}

/// The number of a packet type.
pub open spec fn type_code(t: PairingPacketType) -> u8 {
    match t {
        PairingPacketType::Spake2Msg => 0,
        PairingPacketType::PeerInfo => 1,
    }
}

/// The packet type of a number.
pub open spec fn type_of_code(code: u8) -> Result<PairingPacketType, PairingErrorModel> {
    if code == 0 {
        Ok(PairingPacketType::Spake2Msg)
    } else if code == 1 {
        Ok(PairingPacketType::PeerInfo)
    } else {
        Err(PairingErrorModel::InvalidHeader("unknown packet type "@ + dec(code as nat)))
    }
}

impl PairingPacketType {
    /// The number of the type.
    pub fn code(&self) -> (c: u8)
        ensures
            c == type_code(*self),
    {
        match self {
            PairingPacketType::Spake2Msg => 0,
            PairingPacketType::PeerInfo => 1,
        }
    }

    /// The type of a number.
    pub fn from_code(value: u8) -> (r: Result<PairingPacketType, PairingError>)
        ensures
            match r {
                Ok(t) => type_of_code(value) == Ok::<PairingPacketType, PairingErrorModel>(t),
                Err(e) => type_of_code(value) == Err::<PairingPacketType, PairingErrorModel>(e@),
            },
    {
        if value == 0 {
            Ok(PairingPacketType::Spake2Msg)
        } else if value == 1 {
            Ok(PairingPacketType::PeerInfo)
        } else {
            let mut m = String::new();
            m.append("unknown packet type ");
            m.append(decimal(value as u64).as_str());
            assert(m@ =~= "unknown packet type "@ + dec(value as nat));
            Err(PairingError::InvalidHeader(m))
        }
    }
}

/// A wire packet with the six-byte header.
#[derive(Debug, Clone, PartialEq, Eq)]
pub struct PairingPacket {
    pub version: u8,
    pub packet_type: PairingPacketType,
    pub payload: Vec<u8>,
}

/// What a packet says.
pub struct PairingPacketModel {
    pub version: u8,
    pub packet_type: PairingPacketType,
    pub payload: Seq<u8>,
}

impl View for PairingPacket {
    type V = PairingPacketModel;

    open spec fn view(&self) -> PairingPacketModel {
        PairingPacketModel {
            version: self.version,
            packet_type: self.packet_type,
            payload: self.payload@,
        }
    }
}

/// A length that a payload can have.
pub open spec fn allowed_length(n: int) -> bool {
    1 <= n <= MAX_PAIRING_PAYLOAD
}

/// Four bytes of a number, most significant byte first.
pub open spec fn be_bytes_4(n: u32) -> Seq<u8> {
    le_bytes(n as nat, 4).reverse()
}

/// Version, type and length of the payload modulo 2^32.
pub open spec fn pairing_header(p: PairingPacketModel) -> Seq<u8> {
    seq![p.version, type_code(p.packet_type)] + be_bytes_4(low_u32(p.payload.len() as int))
}

/// The bytes of a packet.
pub open spec fn pairing_bytes(p: PairingPacketModel) -> Seq<u8> {
    pairing_header(p) + p.payload
}

/// The length that a header of six bytes gives.
pub open spec fn header_length(h: Seq<u8>) -> nat {
    le_value(h.subrange(2, 6).reverse())
}

/// What a header of six bytes says: the type and the length of the payload.
pub open spec fn header_fields(h: Seq<u8>) -> Result<(PairingPacketType, nat), PairingErrorModel> {
    if h[0] != PAIRING_VERSION {
        Err(PairingErrorModel::InvalidHeader("unsupported version "@ + dec(h[0] as nat)))
    } else {
        match type_of_code(h[1]) {
            Err(e) => Err(e),
            Ok(t) => if allowed_length(header_length(h) as int) {
                Ok((t, header_length(h)))
            } else {
                Err(
                    PairingErrorModel::InvalidHeader(
                        "unsafe payload length "@ + dec(header_length(h)),
                    ),
                )
            },
        }
    }
}

/// The error of a reader that ends before the bytes that are called for.
pub open spec fn ended<T>() -> Result<T, PairingErrorModel> {
    Err(PairingErrorModel::Io("failed to fill whole buffer"@))
}

/// The packet at the front of a run of bytes.
pub open spec fn pairing_packet_in(input: Seq<u8>) -> Result<PairingPacketModel, PairingErrorModel> {
    if input.len() < 6 {
        ended()
    } else {
        match header_fields(input.subrange(0, 6)) {
            Err(e) => Err(e),
            Ok((packet_type, len)) => if input.len() < 6 + len {
                ended()
            } else {
                Ok(
                    PairingPacketModel {
                        version: input[0],
                        packet_type,
                        payload: input.subrange(6, 6 + len as int),
                    },
                )
            },
        }
    }
}

/// What a result of reading or building a packet says.
pub open spec fn pairing_result(r: Result<PairingPacket, PairingError>) -> Result<
    PairingPacketModel,
    PairingErrorModel,
> {
    match r {
        Ok(p) => Ok(p@),
        Err(e) => Err(e@),
    }
}

/// A packet with the given payload, if that has an allowed length.
pub open spec fn new_packet(t: PairingPacketType, payload: Seq<u8>) -> Result<
    PairingPacketModel,
    PairingErrorModel,
> {
    if allowed_length(payload.len() as int) {
        Ok(PairingPacketModel { version: PAIRING_VERSION, packet_type: t, payload })
    } else {
        Err(
            PairingErrorModel::InvalidPayload(
                "payload length "@ + dec(payload.len()) + " is outside 1..=16384"@,
            ),
        )
    }
}

proof fn lemma_be_round_trip(n: u32)
    ensures
        be_bytes_4(n).len() == 4,
        le_value(be_bytes_4(n).reverse()) == n,
{
    crate::bytes::lemma_u32_round_trip(n);
    assert(be_bytes_4(n).reverse() =~= le_bytes(n as nat, 4));
}

/// A reader reads back every packet that could be built, whatever follows it on the wire.
pub proof fn pairing_packet_round_trip(t: PairingPacketType, payload: Seq<u8>, rest: Seq<u8>)
    requires
        allowed_length(payload.len() as int),
    ensures
        new_packet(t, payload) matches Ok(p) && pairing_bytes(p).len() == 6 + payload.len()
            && pairing_packet_in(pairing_bytes(p) + rest) == Ok::<
            PairingPacketModel,
            PairingErrorModel,
        >(p),
{
    let p = PairingPacketModel { version: PAIRING_VERSION, packet_type: t, payload };
    let n = low_u32(payload.len() as int);
    lemma_be_round_trip(n);
    let b = pairing_bytes(p) + rest;
    let h = b.subrange(0, 6);
    assert(h.subrange(2, 6) =~= be_bytes_4(n));
    assert(b.subrange(6, 6 + payload.len() as int) =~= payload);
}

impl PairingPacket {
    /// A packet with the given payload.
    pub fn new(packet_type: PairingPacketType, payload: Vec<u8>) -> (r: Result<
        PairingPacket,
        PairingError,
    >)
        ensures
            pairing_result(r) == new_packet(packet_type, payload@),
    {
        if payload.len() == 0 || payload.len() > MAX_PAIRING_PAYLOAD {
            let mut m = String::new();
            m.append("payload length ");
            m.append(decimal(payload.len() as u64).as_str());
            m.append(" is outside 1..=16384");
            assert(m@ =~= "payload length "@ + dec(payload@.len()) + " is outside 1..=16384"@);
            return Err(PairingError::InvalidPayload(m));
        }
        Ok(PairingPacket { version: PAIRING_VERSION, packet_type, payload })
    }

    /// The header of the packet.
    pub fn encode_header(&self) -> (h: [u8; 6])
        ensures
            h@ == pairing_header(self@),
    {
        let len: u32 = crate::bytes::truncate_len(self.payload.len());
        let b = crate::bytes::u32_bytes(len);
        let h = [self.version, self.packet_type.code(), b[3], b[2], b[1], b[0]];
        proof {
            lemma_be_round_trip(len);
            assert(h@ =~= pairing_header(self@));
        }
        h
    }

    /// Appends the bytes of the packet.
    pub fn write_to(&self, writer: &mut Vec<u8>) -> (r: Result<(), PairingError>)
        ensures
            r is Ok,
            final(writer)@ == old(writer)@ + pairing_bytes(self@),
    {
        let h = self.encode_header();
        push_bytes(writer, h.as_slice());
        push_bytes(writer, self.payload.as_slice());
        assert(writer@ =~= old(writer)@ + pairing_bytes(self@));
        Ok(())
    }

    /// Reads a header of six bytes: the type and the length of the payload that follows.
    pub fn parse_header(header: &[u8; 6]) -> (r: Result<(PairingPacketType, usize), PairingError>)
        ensures
            match r {
                Ok((t, n)) => header_fields(header@) == Ok::<
                    (PairingPacketType, nat),
                    PairingErrorModel,
                >((t, n as nat)),
                Err(e) => header_fields(header@) == Err::<
                    (PairingPacketType, nat),
                    PairingErrorModel,
                >(e@),
            },
    {
        if header[0] != PAIRING_VERSION {
            let mut m = String::new();
            m.append("unsupported version ");
            m.append(decimal(header[0] as u64).as_str());
            assert(m@ =~= "unsupported version "@ + dec(header@[0] as nat));
            return Err(PairingError::InvalidHeader(m));
        }
        let packet_type = PairingPacketType::from_code(header[1])?;
        let mut rev: Vec<u8> = Vec::new();
        rev.push(header[5]);
        rev.push(header[4]);
        rev.push(header[3]);
        rev.push(header[2]);
        assert(rev@ =~= header@.subrange(2, 6).reverse());
        let len: u32 = crate::bytes::read_u32(rev.as_slice(), 0);
        assert(rev@.subrange(0, 4) =~= rev@);
        if len == 0 || len > MAX_PAIRING_PAYLOAD as u32 {
            let mut m = String::new();
            m.append("unsafe payload length ");
            m.append(decimal(len as u64).as_str());
            assert(m@ =~= "unsafe payload length "@ + dec(len as nat));
            return Err(PairingError::InvalidHeader(m));
        }
        Ok((packet_type, len as usize))
    }

    /// Reads the packet at the front of a run of bytes.
    pub fn read_from(input: &[u8]) -> (r: Result<PairingPacket, PairingError>)
        ensures
            pairing_result(r) == pairing_packet_in(input@),
    {
        if input.len() < PAIRING_HEADER_SIZE {
            return Err(PairingError::Io(owned("failed to fill whole buffer")));
        }
        let header: [u8; 6] = [input[0], input[1], input[2], input[3], input[4], input[5]];
        assert(header@ =~= input@.subrange(0, 6));
        let (packet_type, len) = Self::parse_header(&header)?;
        if input.len() < 6 + len {
            return Err(PairingError::Io(owned("failed to fill whole buffer")));
        }
        Ok(
            PairingPacket {
                version: input[0],
                packet_type,
                payload: slice_to_vec(slice_subrange(input, 6, 6 + len)),
            },
        )
    }
}

/// Six decimal digits, white space around them aside.
pub open spec fn is_pairing_code(code: Seq<char>) -> bool {
    let t = trimmed(code);
    t.len() == 6 && forall|i: int| 0 <= i < t.len() ==> '0' <= #[trigger] t[i] <= '9'
}

fn six_digits(t: &[char]) -> (r: bool)
    ensures
        r == (t@.len() == 6 && forall|i: int| 0 <= i < t@.len() ==> '0' <= #[trigger] t@[i] <= '9'),
{
    if t.len() != 6 {
        return false;
    }
    let mut i: usize = 0;
    while i < 6
        invariant
            i <= 6,
            t@.len() == 6,
            forall|k: int| 0 <= k < i ==> '0' <= #[trigger] t@[k] <= '9',
        decreases 6 - i,
    {
        let c: char = t[i];
        if c < '0' || c > '9' {
            return false;
        }
        i = i + 1;
    }
    true
}

/// Checks a pairing code as a user types it.
pub fn validate_pairing_code(code: &str) -> (r: Result<(), PairingError>)
    ensures
        is_pairing_code(code@) ==> r is Ok,
        !is_pairing_code(code@) ==> (r matches Err(e) && e@
            == PairingErrorModel::InvalidPairingCode),
{
    let chars = chars_of(code);
    let t = trim(chars.as_slice());
    if six_digits(t) {
        Ok(())
    } else {
        Err(PairingError::InvalidPairingCode)
    }
}

/// The key of sixteen bytes that HKDF with SHA-256 derives from a salt, a secret and an info
/// text.
pub uninterp spec fn hkdf_sha256(salt: Seq<u8>, secret: Seq<u8>, info: Seq<u8>) -> Seq<u8>;

/// What AES-128-GCM without additional data seals a text to, with the tag behind it.
pub uninterp spec fn aes_gcm_sealed(key: Seq<u8>, nonce: Seq<u8>, plain: Seq<u8>) -> Option<Seq<u8>>;

/// What AES-128-GCM without additional data opens a sealed text to.
pub uninterp spec fn aes_gcm_opened(key: Seq<u8>, nonce: Seq<u8>, sealed: Seq<u8>) -> Option<Seq<u8>>;

/// The view of an optional run of bytes.
pub open spec fn opt_bytes(o: Option<Vec<u8>>) -> Option<Seq<u8>> {
    match o {
        Some(v) => Some(v@),
        None => None,
    }
}

/// `ring::hkdf`: `Salt::new`, `extract`, `expand` to the sixteen bytes of an AES-128 key, and
/// `fill`. They fail only for longer keys.
#[verifier::external_body]
fn hkdf_key(salt: &[u8], secret: &[u8], info: &[u8]) -> (r: Option<Vec<u8>>)
    ensures
        opt_bytes(r) == Some(hkdf_sha256(salt@, secret@, info@)),
        r matches Some(k) ==> k@.len() == 16,
{
    let mut key = [0u8; 16];
    let prk = hkdf::Salt::new(hkdf::HKDF_SHA256, salt).extract(secret);
    prk.expand(&[info], &AES_128_GCM).ok()?.fill(&mut key).ok()?;
    Some(key.to_vec())
}

/// `LessSafeKey::seal_in_place_append_tag` of ring, for AES-128-GCM and without additional
/// data: a function of its arguments. It succeeds up to the length that the cipher can count,
/// its output is sixteen bytes longer than the text, and opening the output gives the text.
#[verifier::external_body]
fn aes_gcm_seal(key: &[u8], nonce: &[u8], plain: &[u8]) -> (r: Option<Vec<u8>>)
    requires
        key@.len() == 16,
        nonce@.len() == 12,
    ensures
        opt_bytes(r) == aes_gcm_sealed(key@, nonce@, plain@),
        plain@.len() <= 0xF_FFFF_FFE0 ==> r is Some,
        r matches Some(c) ==> c@.len() == plain@.len() + 16,
        r matches Some(c) ==> aes_gcm_opened(key@, nonce@, c@) == Some(plain@),
{
    let sealing = LessSafeKey::new(UnboundKey::new(&AES_128_GCM, key).ok()?);
    let mut out = plain.to_vec();
    let n = Nonce::try_assume_unique_for_key(nonce).ok()?;
    sealing.seal_in_place_append_tag(n, Aad::empty(), &mut out).ok()?;
    Some(out)
}

/// `LessSafeKey::open_in_place` of ring, for AES-128-GCM and without additional data: a
/// function of its arguments.
#[verifier::external_body]
fn aes_gcm_open(key: &[u8], nonce: &[u8], sealed: &[u8]) -> (r: Option<Vec<u8>>)
    requires
        key@.len() == 16,
        nonce@.len() == 12,
    ensures
        opt_bytes(r) == aes_gcm_opened(key@, nonce@, sealed@),
{
    let opening = LessSafeKey::new(UnboundKey::new(&AES_128_GCM, key).ok()?);
    let mut in_out = sealed.to_vec();
    let n = Nonce::try_assume_unique_for_key(nonce).ok()?;
    let plain = opening.open_in_place(n, Aad::empty(), &mut in_out).ok()?;
    Some(plain.to_vec())
}

/// The bytes of a number in the order of the machine.
pub open spec fn native_bytes(n: u64) -> Seq<u8> {
    match vstd::endian::endianness() {
        Endian::Little => le_bytes(n as nat, 8),
        Endian::Big => le_bytes(n as nat, 8).reverse(),
    }
}

/// `u64::to_ne_bytes`: the bytes of a number in the order of the machine.
#[verifier::external_body]
fn to_native_bytes(n: u64) -> (r: [u8; 8])
    ensures
        r@ == native_bytes(n),
{
    n.to_ne_bytes()
}

/// The info text from which the key is derived.
pub open spec fn key_info() -> Seq<u8> {
    vstd::utf8::encode_utf8("adb pairing_auth aes-128-gcm key"@)
}

/// The key that key material leads to.
pub open spec fn pairing_key(material: Seq<u8>) -> Seq<u8> {
    hkdf_sha256(seq![], material, key_info())
}

/// The nonce of a sequence number: its bytes in the order of the machine, and four zeros.
pub open spec fn nonce_of(sequence: u64) -> Seq<u8> {
    native_bytes(sequence) + seq![0u8, 0u8, 0u8, 0u8]
}

/// What a result of the cipher says.
pub open spec fn cipher_result(r: Result<Vec<u8>, PairingError>) -> Result<
    Seq<u8>,
    PairingErrorModel,
> {
    match r {
        Ok(v) => Ok(v@),
        Err(e) => Err(e@),
    }
}

/// What is made of an outcome of the cipher: the bytes, or the error text where there are
/// none, or the error of a sequence that has no next number.
pub open spec fn cipher_outcome(
    outcome: Option<Seq<u8>>,
    failure: Seq<char>,
    sequence: u64,
) -> Result<Seq<u8>, PairingErrorModel> {
    match outcome {
        None => Err(PairingErrorModel::Crypto(failure)),
        Some(b) => if sequence == u64::MAX {
            Err(PairingErrorModel::Crypto("sequence exhausted"@))
        } else {
            Ok(b)
        },
    }
}

/// What encryption with a key at a sequence number gives.
pub open spec fn encrypted(key: Seq<u8>, sequence: u64, plain: Seq<u8>) -> Result<
    Seq<u8>,
    PairingErrorModel,
> {
    cipher_outcome(
        aes_gcm_sealed(key, nonce_of(sequence), plain),
        "AES-GCM encryption failed"@,
        sequence,
    )
}

/// What decryption with a key at a sequence number gives.
pub open spec fn decrypted(key: Seq<u8>, sequence: u64, sealed: Seq<u8>) -> Result<
    Seq<u8>,
    PairingErrorModel,
> {
    cipher_outcome(
        aes_gcm_opened(key, nonce_of(sequence), sealed),
        "AES-GCM decryption failed"@,
        sequence,
    )
}

/// AES-128-GCM as pairing uses it.
///
/// The key is derived with HKDF-SHA256 and the info text `adb pairing_auth aes-128-gcm key`.
/// Nonces are twelve bytes with the 64-bit sequence in the order of the machine in the first
/// eight and zeros behind; the nonce is not transmitted. The sequence is incremented
/// independently in each direction.
pub struct PairingCipher {
    key: [u8; 16],
    sequence: u64,
}

/// Makes a result of an outcome of the cipher at a sequence number.
pub fn finish_cipher(outcome: Option<Vec<u8>>, failure: &str, sequence: u64) -> (r: Result<
    Vec<u8>,
    PairingError,
>)
    ensures
        cipher_result(r) == cipher_outcome(opt_bytes(outcome), failure@, sequence),
        r matches Ok(v) ==> outcome == Some(v),
{
    match outcome {
        None => Err(PairingError::Crypto(owned(failure))),
        Some(b) => {
            if sequence == u64::MAX {
                Err(PairingError::Crypto(owned("sequence exhausted")))
            } else {
                Ok(b)
            }
        },
    }
}

impl PairingCipher {
    /// The key.
    pub closed spec fn key_bytes(&self) -> Seq<u8> {
        self.key@
    }

    /// The sequence number of the next text.
    pub closed spec fn next_sequence(&self) -> u64 {
        self.sequence
    }

    /// A cipher with the key that key material leads to, at the start of its sequence.
    pub fn from_spake2_key(key_material: &[u8]) -> (r: Result<PairingCipher, PairingError>)
        ensures
            key_material@.len() == 0 ==> (r matches Err(e) && e@ == PairingErrorModel::Crypto(
                "empty SPAKE2 key material"@,
            )),
            key_material@.len() > 0 ==> (r matches Ok(c) && c.key_bytes() == pairing_key(
                key_material@,
            ) && c.next_sequence() == 0),
    {
        if key_material.len() == 0 {
            return Err(PairingError::Crypto(owned("empty SPAKE2 key material")));
        }
        let salt: Vec<u8> = Vec::new();
        assert(salt@ =~= seq![]);
        match hkdf_key(
            salt.as_slice(),
            key_material,
            "adb pairing_auth aes-128-gcm key".as_bytes(),
        ) {
            Some(bytes) => {
                let key = [
                    bytes[0],
                    bytes[1],
                    bytes[2],
                    bytes[3],
                    bytes[4],
                    bytes[5],
                    bytes[6],
                    bytes[7],
                    bytes[8],
                    bytes[9],
                    bytes[10],
                    bytes[11],
                    bytes[12],
                    bytes[13],
                    bytes[14],
                    bytes[15],
                ];
                assert(key@ =~= bytes@);
                Ok(PairingCipher { key, sequence: 0 })
            },
            None => Err(PairingError::Crypto(owned("HKDF expansion failed"))),
        }
    }

    fn nonce(&self) -> (n: [u8; 12])
        ensures
            n@ == nonce_of(self.sequence),
    {
        let b = to_native_bytes(self.sequence);
        let n = [b[0], b[1], b[2], b[3], b[4], b[5], b[6], b[7], 0u8, 0u8, 0u8, 0u8];
        proof {
            lemma_le_bytes_len(self.sequence as nat, 8);
            assert(n@ =~= nonce_of(self.sequence));
        }
        n
    }

    /// Encrypts a text and moves on to the next sequence number. What comes out is sixteen
    /// bytes longer, and a cipher with the same key at the same sequence number decrypts it
    /// to the text.
    pub fn encrypt(&mut self, plaintext: &[u8]) -> (r: Result<Vec<u8>, PairingError>)
        ensures
            cipher_result(r) == encrypted(
                old(self).key_bytes(),
                old(self).next_sequence(),
                plaintext@,
            ),
            final(self).key_bytes() == old(self).key_bytes(),
            final(self).next_sequence() == if r is Ok {
                (old(self).next_sequence() + 1) as u64
            } else {
                old(self).next_sequence()
            },
            plaintext@.len() <= 0xF_FFFF_FFE0 && old(self).next_sequence() < u64::MAX ==> r is Ok,
            r matches Ok(c) ==> c@.len() == plaintext@.len() + 16,
            r matches Ok(c) ==> decrypted(
                old(self).key_bytes(),
                old(self).next_sequence(),
                c@,
            ) == Ok::<Seq<u8>, PairingErrorModel>(plaintext@),
    {
        let nonce = self.nonce();
        let sealed = aes_gcm_seal(self.key.as_slice(), nonce.as_slice(), plaintext);
        let out = finish_cipher(sealed, "AES-GCM encryption failed", self.sequence)?;
        self.sequence = self.sequence + 1;
        Ok(out)
    }

    /// Decrypts a text and moves on to the next sequence number.
    pub fn decrypt(&mut self, ciphertext: &[u8]) -> (r: Result<Vec<u8>, PairingError>)
        ensures
            cipher_result(r) == decrypted(
                old(self).key_bytes(),
                old(self).next_sequence(),
                ciphertext@,
            ),
            final(self).key_bytes() == old(self).key_bytes(),
            final(self).next_sequence() == if r is Ok {
                (old(self).next_sequence() + 1) as u64
            } else {
                old(self).next_sequence()
            },
    {
        let nonce = self.nonce();
        let opened = aes_gcm_open(self.key.as_slice(), nonce.as_slice(), ciphertext);
        let out = finish_cipher(opened, "AES-GCM decryption failed", self.sequence)?;
        self.sequence = self.sequence + 1;
        Ok(out)
    }
}

/// Sequence numbers that differ have nonces that differ, so no nonce is used twice.
pub proof fn nonces_are_distinct(a: u64, b: u64)
    requires
        a != b,
    ensures
        nonce_of(a) != nonce_of(b),
{
    crate::bytes::lemma_u64_round_trip(a);
    crate::bytes::lemma_u64_round_trip(b);
    if nonce_of(a) == nonce_of(b) {
        let x = le_bytes(a as nat, 8);
        let y = le_bytes(b as nat, 8);
        assert(native_bytes(a) =~= nonce_of(a).subrange(0, 8));
        assert(native_bytes(b) =~= nonce_of(b).subrange(0, 8));
        assert(native_bytes(a) == native_bytes(b));
        assert(x.reverse().reverse() =~= x);
        assert(y.reverse().reverse() =~= y);
        assert(x == y);
    }
}

/// A pairing client. It holds a code and refuses to pair.
pub struct PairingClient {
    code: String,
}

impl PairingClient {
    /// The code.
    pub closed spec fn code_text(&self) -> Seq<char> {
        self.code@
    }

    /// A client for a pairing code, white space around it removed.
    pub fn new(code: &str) -> (r: Result<PairingClient, PairingError>)
        ensures
            is_pairing_code(code@) ==> (r matches Ok(c) && c.code_text() == trimmed(code@)),
            !is_pairing_code(code@) ==> (r matches Err(e) && e@
                == PairingErrorModel::InvalidPairingCode),
    {
        validate_pairing_code(code)?;
        let chars = chars_of(code);
        Ok(PairingClient { code: string_of(trim(chars.as_slice())) })
    }

    /// The code.
    pub fn pairing_code(&self) -> (s: &str)
        ensures
            s@ == self.code_text(),
    {
        self.code.as_str()
    }

    /// Refuses: the key exchange is not available.
    pub fn execute_pairing<T>(&mut self, _transport: &mut T) -> (r: Result<(), PairingError>)
        ensures
            r matches Err(e) && e@ == PairingErrorModel::UnsupportedSpake2,
            final(self).code_text() == old(self).code_text(),
            *final(_transport) == *old(_transport),
    {
        Err(PairingError::UnsupportedSpake2)
    }
}

/// A pairing packet is its version, its kind, the length of its payload with the most significant
/// byte first, and the payload of at most sixteen kibibytes.
pub proof fn pairing_packets_are_laid_out(input: Seq<u8>)
    ensures
        match pairing_packet_in(input) {
            Ok(p) => {
                let n = input[2] * 0x100_0000 + input[3] * 0x1_0000 + input[4] * 0x100 + input[5];
                &&& input.len() >= 6 + n
                &&& 1 <= n <= 16 * 1024
                &&& input[0] == 1 && p.version == 1
                &&& input[1] == (match p.packet_type {
                    PairingPacketType::Spake2Msg => 0u8,
                    PairingPacketType::PeerInfo => 1u8,
                })
                &&& p.payload == input.subrange(6, 6 + n)
            },
            Err(_) => {
                let n = input[2] * 0x100_0000 + input[3] * 0x1_0000 + input[4] * 0x100 + input[5];
                ||| input.len() < 6
                ||| input[0] != 1
                ||| input[1] > 1
                ||| n < 1
                ||| n > 16 * 1024
                ||| input.len() < 6 + n
            },
        },
{
    if input.len() >= 6 {
        let h = input.subrange(0, 6);
        let r = h.subrange(2, 6).reverse();
        assert(r.len() == 4);
        assert(r.subrange(0, 4) =~= r);
        numbers_are_little_endian(r, 0);
        assert(r[0] == input[5] && r[1] == input[4] && r[2] == input[3] && r[3] == input[2]);
        assert(h[0] == input[0] && h[1] == input[1]);
    }
}

/// A pairing code is six digits, with white space around them or without.
pub proof fn pairing_codes_have_six_digits(a: Seq<char>, m: Seq<char>, b: Seq<char>)
    requires
        all_white(a),
        all_white(b),
        forall|i: int| 0 <= i < m.len() ==> !is_white(#[trigger] m[i]),
    ensures
        is_pairing_code(a + m + b) <==> m.len() == 6 && forall|i: int|
            0 <= i < 6 ==> '0' <= #[trigger] m[i] <= '9',
{
    trimming_keeps_the_middle(a, m, b);
}

} // verus!
