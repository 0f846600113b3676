//! The 24-byte header of an ADB message.

use crate::bytes::{
    le_bytes, le_value, lemma_u32_round_trip, lemma_word_in_front, low_u32, numbers_are_little_endian, push_bytes,
    push_u32, read_u32, truncate_len, u32_bytes, word_at,
};
use crate::constants::{A_AUTH, A_AUTH_RSAKEY, A_AUTH_SIGNATURE, A_AUTH_TOKEN};
use crate::text::{dec, decimal, digits, number};
use vstd::prelude::*;

verus! {

/// Why a header or its payload was refused.
#[derive(Debug, PartialEq, Eq, Structural)]
pub enum HeaderError {
    /// Fewer bytes than were called for.
    BufferTooShort(usize),
    /// The magic number is not the complement of the command.
    MagicMismatch { expected: u32, got: u32 },
    /// The payload has another checksum.
    ChecksumMismatch { expected: u32, got: u32 },
}

/// A number in base sixteen with its prefix.
pub open spec fn hex_text(n: u32) -> Seq<char> {
    "0x"@ + digits(n as nat, 16)
}

impl HeaderError {
    /// The text of the error.
    pub open spec fn text(self) -> Seq<char> {
        match self {
            HeaderError::BufferTooShort(n) => "Buffer too short: expected 24 bytes, got "@ + dec(
                n as nat,
            ),
            HeaderError::MagicMismatch { expected, got } => "Magic mismatch: expected "@ + hex_text(
                expected,
            ) + ", got "@ + hex_text(got),
            HeaderError::ChecksumMismatch { expected, got } => "Checksum mismatch: expected "@
                + hex_text(expected) + ", got "@ + hex_text(got),
        }
    }

    /// The text of the error.
    pub fn message(&self) -> (s: String)
        ensures
            s@ == self.text(),
    {
        let mut s = String::new();
        match self {
            HeaderError::BufferTooShort(n) => {
                s.append("Buffer too short: expected 24 bytes, got ");
                s.append(decimal(*n as u64).as_str());
            },
            HeaderError::MagicMismatch { expected, got } => {
                s.append("Magic mismatch: expected ");
                s.append("0x");
                s.append(number(*expected as u64, 16).as_str());
                s.append(", got ");
                s.append("0x");
                s.append(number(*got as u64, 16).as_str());
            },
            HeaderError::ChecksumMismatch { expected, got } => {
                s.append("Checksum mismatch: expected ");
                s.append("0x");
                s.append(number(*expected as u64, 16).as_str());
                s.append(", got ");
                s.append("0x");
                s.append(number(*got as u64, 16).as_str());
            },
        }
        assert(s@ =~= self.text());
        s
    }
}

/// ADB AUTH Sub-type Enum (TOKEN=1, SIGNATURE=2, RSAKEY=3)
#[derive(Debug, Clone, Copy, PartialEq, Eq, Structural)]
pub enum AuthType {
    Token,
    Signature,
    RsaKey,
    Unknown(u32),
}

impl AuthType {
    /// The sub-type of a number.
    pub open spec fn of_number(val: u32) -> AuthType {
        if val == A_AUTH_TOKEN {
            AuthType::Token
        } else if val == A_AUTH_SIGNATURE {
            AuthType::Signature
        } else if val == A_AUTH_RSAKEY {
            AuthType::RsaKey
        } else {
            AuthType::Unknown(val)
        }
    }

    /// The number of a sub-type.
    pub open spec fn number(self) -> u32 {
        match self {
            AuthType::Token => A_AUTH_TOKEN,
            AuthType::Signature => A_AUTH_SIGNATURE,
            AuthType::RsaKey => A_AUTH_RSAKEY,
            AuthType::Unknown(val) => val,
        }
    }

    /// The sub-type of a number.
    pub fn from_u32(val: u32) -> (r: AuthType)
        ensures
            r == AuthType::of_number(val),
    {
        if val == A_AUTH_TOKEN {
            AuthType::Token
        } else if val == A_AUTH_SIGNATURE {
            AuthType::Signature
        } else if val == A_AUTH_RSAKEY {
            AuthType::RsaKey
        } else {
            AuthType::Unknown(val)
        }
    }

    /// The number of a sub-type.
    pub fn to_u32(&self) -> (r: u32)
        ensures
            r == self.number(),
    {
        match self {
            AuthType::Token => A_AUTH_TOKEN,
            AuthType::Signature => A_AUTH_SIGNATURE,
            AuthType::RsaKey => A_AUTH_RSAKEY,
            AuthType::Unknown(val) => *val,
        }
    }
}

/// Every number is the number of its sub-type.
pub proof fn auth_type_round_trip(val: u32)
    ensures
        AuthType::of_number(val).number() == val,
{
}

/// ADB Auth Message helper structure for creating/handling AUTH packets
#[derive(Debug, Clone, PartialEq, Eq)]
pub struct AuthMessage<'a> {
    pub auth_type: AuthType,
    pub data: &'a [u8],
}

impl<'a> AuthMessage<'a> {
    /// A message of the given sub-type.
    pub fn new(auth_type: AuthType, data: &'a [u8]) -> (r: AuthMessage<'a>)
        ensures
            r.auth_type == auth_type,
            r.data@ == data@,
    {
        AuthMessage { auth_type, data }
    }

    /// A message with a token to sign.
    pub fn token(data: &'a [u8]) -> (r: AuthMessage<'a>)
        ensures
            r.auth_type == AuthType::Token,
            r.data@ == data@,
    {
        Self::new(AuthType::Token, data)
    }

    /// A message with a signature.
    pub fn signature(data: &'a [u8]) -> (r: AuthMessage<'a>)
        ensures
            r.auth_type == AuthType::Signature,
            r.data@ == data@,
    {
        Self::new(AuthType::Signature, data)
    }

    /// A message with a public key.
    pub fn rsakey(data: &'a [u8]) -> (r: AuthMessage<'a>)
        ensures
            r.auth_type == AuthType::RsaKey,
            r.data@ == data@,
    {
        Self::new(AuthType::RsaKey, data)
    }

    /// The header of the message.
    pub fn to_header(&self) -> (h: AdbMessageHeader)
        ensures
            h == header_of(A_AUTH, self.auth_type.number(), 0, self.data@),
    {
        AdbMessageHeader::new_auth(self.auth_type.to_u32(), self.data)
    }
}

/// ADB 24-byte packet header
#[derive(Debug, Clone, Copy, PartialEq, Eq, Structural)]
pub struct AdbMessageHeader {
    pub command: u32,
    pub arg0: u32,
    pub arg1: u32,
    pub data_length: u32,
    pub data_check: u32,
    pub magic: u32,
}

/// The complement of a command.
pub open spec fn magic_of(command: u32) -> u32 {
    command ^ 0xFFFFFFFF
}

/// The header of a message without a checksum. The length is that of the payload modulo 2^32.
pub open spec fn header_of(command: u32, arg0: u32, arg1: u32, payload: Seq<u8>) -> AdbMessageHeader {
    AdbMessageHeader {
        command,
        arg0,
        arg1,
        data_length: low_u32(payload.len() as int),
        data_check: 0,
        magic: magic_of(command),
    }
}

/// The sum of the bytes.
pub open spec fn byte_sum(data: Seq<u8>) -> nat
    decreases data.len(),
{
    if data.len() == 0 {
        0
    } else {
        byte_sum(data.drop_last()) + data.last() as nat
    }
}

/// The sum of the bytes modulo 2^32.
pub open spec fn checksum(data: Seq<u8>) -> u32 {
    low_u32(byte_sum(data) as int)
}

/// The six numbers of a header, least significant byte first.
pub open spec fn header_bytes(h: AdbMessageHeader) -> Seq<u8> {
    le_bytes(h.command as nat, 4) + le_bytes(h.arg0 as nat, 4) + le_bytes(h.arg1 as nat, 4)
        + le_bytes(h.data_length as nat, 4) + le_bytes(h.data_check as nat, 4) + le_bytes(
        h.magic as nat,
        4,
    )
}

/// The number in the four bytes from `at` on.
pub open spec fn u32_at(buf: Seq<u8>, at: int) -> u32 {
    le_value(buf.subrange(at, at + 4)) as u32
}

/// The six numbers in the first 24 bytes.
pub open spec fn header_in(buf: Seq<u8>) -> AdbMessageHeader {
    AdbMessageHeader {
        command: u32_at(buf, 0),
        arg0: u32_at(buf, 4),
        arg1: u32_at(buf, 8),
        data_length: u32_at(buf, 12),
        data_check: u32_at(buf, 16),
        magic: u32_at(buf, 20),
    }
}

/// What a buffer decodes to.
pub open spec fn decode_spec(buf: Seq<u8>) -> Result<AdbMessageHeader, HeaderError> {
    let h = header_in(buf);
    if buf.len() < 24 {
        Err(HeaderError::BufferTooShort(buf.len() as usize))
    } else if h.magic != magic_of(h.command) {
        Err(HeaderError::MagicMismatch { expected: magic_of(h.command), got: h.magic })
    } else {
        Ok(h)
    }
}

/// Whether a payload belongs to a header.
pub open spec fn verify_spec(h: AdbMessageHeader, payload: Seq<u8>) -> Result<(), HeaderError> {
    if payload.len() != h.data_length {
        Err(HeaderError::BufferTooShort(payload.len() as usize))
    } else if h.data_check != 0 && checksum(payload) != h.data_check {
        Err(HeaderError::ChecksumMismatch { expected: h.data_check, got: checksum(payload) })
    } else {
        Ok(())
    }
}

/// A header has 24 bytes, and they hold its numbers.
pub proof fn lemma_header_bytes(h: AdbMessageHeader)
    ensures
        header_bytes(h).len() == 24,
        header_in(header_bytes(h)) == h,
{
    lemma_u32_round_trip(h.command);
    lemma_u32_round_trip(h.arg0);
    lemma_u32_round_trip(h.arg1);
    lemma_u32_round_trip(h.data_length);
    lemma_u32_round_trip(h.data_check);
    lemma_u32_round_trip(h.magic);
    let b = header_bytes(h);
    assert(b.subrange(0, 4) =~= le_bytes(h.command as nat, 4));
    assert(b.subrange(4, 8) =~= le_bytes(h.arg0 as nat, 4));
    assert(b.subrange(8, 12) =~= le_bytes(h.arg1 as nat, 4));
    assert(b.subrange(12, 16) =~= le_bytes(h.data_length as nat, 4));
    assert(b.subrange(16, 20) =~= le_bytes(h.data_check as nat, 4));
    assert(b.subrange(20, 24) =~= le_bytes(h.magic as nat, 4));
}

/// Decoding the bytes of a header whose magic number is right gives the header back.
pub proof fn header_round_trip(h: AdbMessageHeader)
    requires
        h.magic == magic_of(h.command),
    ensures
        decode_spec(header_bytes(h)) == Ok::<AdbMessageHeader, HeaderError>(h),
{
    lemma_header_bytes(h);
}

/// Whatever stands in place of the magic number, decoding the bytes of a header refuses
/// every value of it but the right one.
pub proof fn corrupt_magic_is_refused(h: AdbMessageHeader)
    requires
        h.magic != magic_of(h.command),
    ensures
        decode_spec(header_bytes(h)) == Err::<AdbMessageHeader, HeaderError>(
            HeaderError::MagicMismatch { expected: magic_of(h.command), got: h.magic },
        ),
{
    lemma_header_bytes(h);
}

/// A header made for a payload accepts that payload, with and without its checksum.
pub proof fn own_payload_is_accepted(command: u32, arg0: u32, arg1: u32, payload: Seq<u8>)
    requires
        payload.len() < 0x1_0000_0000,
    ensures
        verify_spec(header_of(command, arg0, arg1, payload), payload) == Ok::<(), HeaderError>(()),
        verify_spec(
            AdbMessageHeader {
                data_check: checksum(payload),
                ..header_of(command, arg0, arg1, payload)
            },
            payload,
        ) == Ok::<(), HeaderError>(()),
{
}

/// A header with a checksum refuses every payload of the same length with another checksum.
pub proof fn other_checksum_is_refused(
    command: u32,
    arg0: u32,
    arg1: u32,
    payload: Seq<u8>,
    other: Seq<u8>,
)
    requires
        payload.len() < 0x1_0000_0000,
        other.len() == payload.len(),
        checksum(payload) != 0,
        checksum(other) != checksum(payload),
    ensures
        verify_spec(
            AdbMessageHeader {
                data_check: checksum(payload),
                ..header_of(command, arg0, arg1, payload)
            },
            other,
        ) == Err::<(), HeaderError>(
            HeaderError::ChecksumMismatch { expected: checksum(payload), got: checksum(other) },
        ),
{
}

impl AdbMessageHeader {
    /// The number of bytes of a header.
    pub const SIZE: usize = 24;

    /// A header without a checksum.
    pub fn new(command: u32, arg0: u32, arg1: u32, payload: &[u8]) -> (h: AdbMessageHeader)
        ensures
            h == header_of(command, arg0, arg1, payload@),
    {
        AdbMessageHeader {
            command,
            arg0,
            arg1,
            data_length: truncate_len(payload.len()),
            data_check: 0,
            magic: command ^ 0xFFFFFFFF,
        }
    }

    /// Create an AdbMessageHeader with legacy V1 checksum calculated from payload
    pub fn new_v1_legacy(command: u32, arg0: u32, arg1: u32, payload: &[u8]) -> (h:
        AdbMessageHeader)
        ensures
            h == (AdbMessageHeader {
                data_check: checksum(payload@),
                ..header_of(command, arg0, arg1, payload@)
            }),
    {
        let mut header = Self::new(command, arg0, arg1, payload);
        header.data_check = Self::calculate_checksum(payload);
        header
    }

    /// Set data_check to the calculated checksum of payload (for legacy ADB checksum support)
    pub fn with_checksum(self, payload: &[u8]) -> (h: AdbMessageHeader)
        ensures
            h == (AdbMessageHeader { data_check: checksum(payload@), ..self }),
    {
        let mut header = self;
        header.data_check = Self::calculate_checksum(payload);
        header
    }

    /// Create an A_AUTH header with specified auth sub-type and payload
    pub fn new_auth(auth_type: u32, payload: &[u8]) -> (h: AdbMessageHeader)
        ensures
            h == header_of(A_AUTH, auth_type, 0, payload@),
    {
        Self::new(A_AUTH, auth_type, 0, payload)
    }

    /// Whether this is an AUTH message.
    pub fn is_auth(&self) -> (r: bool)
        ensures
            r == (self.command == A_AUTH),
    {
        self.command == A_AUTH
    }

    /// The sub-type of an AUTH message.
    pub fn auth_type(&self) -> (r: Option<AuthType>)
        ensures
            r == if self.command == A_AUTH {
                Some(AuthType::of_number(self.arg0))
            } else {
                None
            },
    {
        if self.is_auth() {
            Some(AuthType::from_u32(self.arg0))
        } else {
            None
        }
    }

    /// The sum of the bytes modulo 2^32.
    pub fn calculate_checksum(data: &[u8]) -> (r: u32)
        ensures
            r == checksum(data@),
    {
        let mut acc: u32 = 0;
        let mut i: usize = 0;
        assert(data@.take(0) =~= seq![]);
        while i < data.len()
            invariant
                i <= data@.len(),
                acc == checksum(data@.take(i as int)),
            decreases data@.len() - i,
        {
            assert(data@.take(i + 1).drop_last() =~= data@.take(i as int));
            acc = acc.wrapping_add(data[i] as u32);
            i = i + 1;
        }
        assert(data@.take(i as int) =~= data@);
        acc
    }

    /// Writes the header.
    pub fn encode(&self, out: &mut [u8; 24])
        ensures
            final(out)@ == header_bytes(*self),
    {
        let a = u32_bytes(self.command);
        let b = u32_bytes(self.arg0);
        let c = u32_bytes(self.arg1);
        let d = u32_bytes(self.data_length);
        let e = u32_bytes(self.data_check);
        let f = u32_bytes(self.magic);
        let mut i: usize = 0;
        while i < 4
            invariant
                i <= 4,
                forall|k: int| 0 <= k < i ==> out@[k] == a@[k],
                forall|k: int| 0 <= k < i ==> out@[4 + k] == b@[k],
                forall|k: int| 0 <= k < i ==> out@[8 + k] == c@[k],
                forall|k: int| 0 <= k < i ==> out@[12 + k] == d@[k],
                forall|k: int| 0 <= k < i ==> out@[16 + k] == e@[k],
                forall|k: int| 0 <= k < i ==> out@[20 + k] == f@[k],
            decreases 4 - i,
        {
            out[i] = a[i];
            out[4 + i] = b[i];
            out[8 + i] = c[i];
            out[12 + i] = d[i];
            out[16 + i] = e[i];
            out[20 + i] = f[i];
            i = i + 1;
        }
        assert(out@ =~= a@ + b@ + c@ + d@ + e@ + f@);
    }

    /// Reads a header from the front of a buffer.
    pub fn decode(buf: &[u8]) -> (r: Result<AdbMessageHeader, HeaderError>)
        ensures
            r == decode_spec(buf@),
    {
        if buf.len() < Self::SIZE {
            return Err(HeaderError::BufferTooShort(buf.len()));
        }
        let command: u32 = read_u32(buf, 0);
        let arg0: u32 = read_u32(buf, 4);
        let arg1: u32 = read_u32(buf, 8);
        let data_length: u32 = read_u32(buf, 12);
        let data_check: u32 = read_u32(buf, 16);
        let magic: u32 = read_u32(buf, 20);
        let expected_magic: u32 = command ^ 0xFFFFFFFF;
        if magic != expected_magic {
            return Err(HeaderError::MagicMismatch { expected: expected_magic, got: magic });
        }
        Ok(AdbMessageHeader { command, arg0, arg1, data_length, data_check, magic })
    }

    /// Checks that a payload belongs to the header. A checksum of zero is not checked.
    pub fn verify_payload(&self, payload: &[u8]) -> (r: Result<(), HeaderError>)
        ensures
            r == verify_spec(*self, payload@),
    {
        if payload.len() as u64 != self.data_length as u64 {
            return Err(HeaderError::BufferTooShort(payload.len()));
        }
        if self.data_check == 0 {
            return Ok(());
        }
        let calc: u32 = Self::calculate_checksum(payload);
        if calc != self.data_check {
            return Err(HeaderError::ChecksumMismatch { expected: self.data_check, got: calc });
        }
        Ok(())
    }
}

/// The bytes of a message: its header and its payload.
pub open spec fn message_bytes(command: u32, arg0: u32, arg1: u32, payload: Seq<u8>) -> Seq<u8> {
    header_bytes(header_of(command, arg0, arg1, payload)) + payload
}

/// Builds the bytes of a message.
pub fn encode_message(command: u32, arg0: u32, arg1: u32, payload: &[u8]) -> (r: Vec<u8>)
    ensures
        r@ == message_bytes(command, arg0, arg1, payload@),
{
    let header = AdbMessageHeader::new(command, arg0, arg1, payload);
    let mut out: Vec<u8> = Vec::new();
    push_u32(&mut out, header.command);
    push_u32(&mut out, header.arg0);
    push_u32(&mut out, header.arg1);
    push_u32(&mut out, header.data_length);
    push_u32(&mut out, header.data_check);
    push_u32(&mut out, header.magic);
    assert(out@ =~= header_bytes(header));
    push_bytes(&mut out, payload);
    out
}

/// The six numbers of a header stand one behind the other, and the last is the first with every
/// bit turned over. Whatever has that is a header, and nothing else is.
pub proof fn header_is_laid_out(buf: Seq<u8>)
    ensures
        match decode_spec(buf) {
            Ok(h) => {
                &&& buf.len() >= 24
                &&& h.command == word_at(buf, 0)
                &&& h.arg0 == word_at(buf, 4)
                &&& h.arg1 == word_at(buf, 8)
                &&& h.data_length == word_at(buf, 12)
                &&& h.data_check == word_at(buf, 16)
                &&& h.magic == word_at(buf, 20)
                &&& word_at(buf, 0) + word_at(buf, 20) == 0xffff_ffff
            },
            Err(e) => buf.len() < 24 || word_at(buf, 0) + word_at(buf, 20) != 0xffff_ffff,
        },
{
    if buf.len() >= 24 {
        numbers_are_little_endian(buf, 0);
        numbers_are_little_endian(buf, 4);
        numbers_are_little_endian(buf, 8);
        numbers_are_little_endian(buf, 12);
        numbers_are_little_endian(buf, 16);
        numbers_are_little_endian(buf, 20);
        let c = header_in(buf).command;
        assert(c ^ 0xffff_ffff == 0xffff_ffff - c) by (bit_vector);
    }
}

/// A message holds its command and its two numbers, the length of its payload, no checksum, the
/// command turned over, and then the payload.
pub proof fn message_is_laid_out(command: u32, arg0: u32, arg1: u32, payload: Seq<u8>)
    requires
        payload.len() <= u32::MAX,
    ensures
        ({
            let b = message_bytes(command, arg0, arg1, payload);
            &&& b.len() == 24 + payload.len()
            &&& word_at(b, 0) == command
            &&& word_at(b, 4) == arg0
            &&& word_at(b, 8) == arg1
            &&& word_at(b, 12) == payload.len()
            &&& word_at(b, 16) == 0
            &&& word_at(b, 20) == 0xffff_ffff - command
            &&& b.skip(24) == payload
        }),
{
    let h = header_of(command, arg0, arg1, payload);
    let b = message_bytes(command, arg0, arg1, payload);
    let head = header_bytes(h);
    lemma_header_bytes(h);
    header_round_trip(h);
    header_is_laid_out(head);
    assert(b.skip(24) =~= payload);
    lemma_word_in_front(head, payload, 0);
    lemma_word_in_front(head, payload, 4);
    lemma_word_in_front(head, payload, 8);
    lemma_word_in_front(head, payload, 12);
    lemma_word_in_front(head, payload, 16);
    lemma_word_in_front(head, payload, 20);
    assert(low_u32(payload.len() as int) == payload.len());
}

proof fn lemma_byte_sum(a: Seq<u8>, b: Seq<u8>)
    ensures
        byte_sum(a + b) == byte_sum(a) + byte_sum(b),
    decreases b.len(),
{
    if b.len() == 0 {
        assert(a + b =~= a);
    } else {
        assert((a + b).drop_last() =~= a + b.drop_last());
        assert((a + b).last() == b.last());
        lemma_byte_sum(a, b.drop_last());
    }
}

/// A checksum is the sum of all bytes as far as it fits: every byte counts once, wherever it
/// stands.
pub proof fn checksum_adds_up(a: Seq<u8>, x: u8, b: Seq<u8>)
    ensures
        checksum(Seq::empty()) == 0,
        checksum(seq![x]) == x,
        checksum(a + b) as int == (checksum(a) + checksum(b)) % 0x1_0000_0000,
        checksum(a + seq![x] + b) as int == (checksum(a + b) + x) % 0x1_0000_0000,
{
    lemma_byte_sum(a, b);
    lemma_byte_sum(a + seq![x], b);
    lemma_byte_sum(a, seq![x]);
    assert(seq![x].drop_last() =~= Seq::<u8>::empty());
    assert(byte_sum(seq![x].drop_last()) == 0);
    assert(byte_sum(seq![x]) == x);
}

/// The types of an authentication message have these numbers.
pub proof fn auth_types_have_their_numbers(val: u32)
    ensures
        AuthType::of_number(val) == if val == 1 {
            AuthType::Token
        } else if val == 2 {
            AuthType::Signature
        } else if val == 3 {
            AuthType::RsaKey
        } else {
            AuthType::Unknown(val)
        },
        AuthType::Token.number() == 1,
        AuthType::Signature.number() == 2,
        AuthType::RsaKey.number() == 3,
{
}

} // verus!
