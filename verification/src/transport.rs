//! Connections that carry ADB messages: what a connection offers, how messages are framed on
//! it, and what can go wrong.

use crate::constants::MAX_PAYLOAD_V2;
use crate::header::{
    checksum, decode_spec, header_bytes, header_is_laid_out, header_of, header_round_trip, lemma_header_bytes,
    magic_of, message_bytes, own_payload_is_accepted, verify_spec, AdbMessageHeader, HeaderError,
};
use crate::text::{dec, decimal, owned};
use crate::bytes::word_at;
use vstd::prelude::*;
use vstd::slice::slice_subrange;

verus! {

/// The ways in which reading from or writing to a connection fails.
#[derive(Debug, Clone, Copy, PartialEq, Eq, Structural)]
pub enum IoErrorKind {
    NotConnected,
    TimedOut,
    PermissionDenied,
    NotFound,
    InvalidData,
    UnexpectedEof,
    WouldBlock,
    WriteZero,
    Other,
}

/// A failure to read from or write to a connection.
#[derive(Debug, Clone)]
pub struct IoError {
    pub kind: IoErrorKind,
    pub message: String,
}

impl IoError {
    /// A failure of the given kind.
    pub fn new(kind: IoErrorKind, message: &str) -> (e: IoError)
        ensures
            e.kind == kind,
            e.message@ == message@,
    {
        IoError { kind, message: owned(message) }
    }

    /// The kind of the failure.
    pub fn kind(&self) -> (k: IoErrorKind)
        ensures
            k == self.kind,
    {
        self.kind
    }
}

/// A failure of a connection.
#[derive(Debug)]
pub enum TransportError {
    Io(IoError),
    Header(HeaderError),
    ConnectFailed { addr: String, source: IoError },
    Protocol(String),
    /// The device answered A_STLS: it requires a TLS upgrade. The caller should wrap the
    /// connection in a TLS stream and retry the handshake.
    TlsHandshakeRequired,
}

impl TransportError {
    /// The text of the error.
    pub open spec fn text(self) -> Seq<char> {
        match self {
            TransportError::Io(e) => "I/O error: "@ + e.message@,
            TransportError::Header(e) => "Header error: "@ + e.text(),
            TransportError::ConnectFailed { addr, source } => "Connection failed to "@ + addr@ + ": "@
                + source.message@,
            TransportError::Protocol(m) => "Protocol error: "@ + m@,
            TransportError::TlsHandshakeRequired =>
                "TLS handshake required: device requested A_STLS"@,
        }
    }

    /// The text of the error.
    pub fn message(&self) -> (s: String)
        ensures
            s@ == self.text(),
    {
        let mut s = String::new();
        match self {
            TransportError::Io(e) => {
                s.append("I/O error: ");
                s.append(e.message.as_str());
            },
            TransportError::Header(e) => {
                s.append("Header error: ");
                s.append(e.message().as_str());
            },
            TransportError::ConnectFailed { addr, source } => {
                s.append("Connection failed to ");
                s.append(addr.as_str());
                s.append(": ");
                s.append(source.message.as_str());
            },
            TransportError::Protocol(m) => {
                s.append("Protocol error: ");
                s.append(m.as_str());
            },
            TransportError::TlsHandshakeRequired => {
                s.append("TLS handshake required: device requested A_STLS");
            },
        }
        assert(s@ =~= self.text());
        s
    }
}

/// What stands at the front of a stream of bytes, read as an ADB message.
pub enum Received {
    /// A message.
    Message(AdbMessageHeader, Seq<u8>),
    /// Twenty-four bytes that are no header.
    BadHeader(HeaderError),
    /// A header that announces more bytes than a message may have.
    TooLarge(u32),
    /// A message whose payload is not the one its header describes.
    BadPayload(AdbMessageHeader, HeaderError),
    /// The stream ends within the message.
    Short,
}

/// The message at the front of a stream.
pub open spec fn received(s: Seq<u8>) -> Received {
    if s.len() < 24 {
        Received::Short
    } else {
        match decode_spec(s.take(24)) {
            Err(e) => Received::BadHeader(e),
            Ok(h) => if h.data_length > MAX_PAYLOAD_V2 {
                Received::TooLarge(h.data_length)
            } else if h.data_length == 0 {
                Received::Message(h, Seq::empty())
            } else if s.len() < 24 + h.data_length {
                Received::Short
            } else {
                let payload = s.subrange(24, 24 + h.data_length as int);
                match verify_spec(h, payload) {
                    Ok(_) => Received::Message(h, payload),
                    Err(e) => Received::BadPayload(h, e),
                }
            },
        }
    }
}

/// The message at the front of a stream, if there is a whole and sound one.
pub open spec fn message_in(s: Seq<u8>) -> Option<(AdbMessageHeader, Seq<u8>)> {
    match received(s) {
        Received::Message(h, p) => Some((h, p)),
        _ => None,
    }
}

/// The stream behind the message at its front.
pub open spec fn after_message(s: Seq<u8>) -> Seq<u8> {
    match received(s) {
        Received::Message(_, p) => s.skip(24 + p.len() as int),
        _ => s,
    }
}

/// The text of the error for a message that is too large.
pub open spec fn too_large_text(n: u32) -> Seq<char> {
    "Payload too large: "@ + dec(n as nat) + " bytes (max "@ + dec(MAX_PAYLOAD_V2 as nat) + ")"@
}

/// `later` is `now` without some bytes at its front.
pub open spec fn is_tail(later: Seq<u8>, now: Seq<u8>) -> bool {
    exists|k: int| 0 <= k <= now.len() && later == #[trigger] now.skip(k)
}

/// What is left of what is left of a stream is left of the stream.
pub proof fn lemma_tail_of_tail(later: Seq<u8>, mid: Seq<u8>, now: Seq<u8>)
    requires
        is_tail(later, mid),
        is_tail(mid, now),
    ensures
        is_tail(later, now),
{
    let i = choose|i: int| 0 <= i <= now.len() && mid == #[trigger] now.skip(i);
    let k = choose|k: int| 0 <= k <= mid.len() && later == #[trigger] mid.skip(k);
    assert(later =~= now.skip(i + k));
}

/// `later` is `now` without some bytes at its front, fewer than `size`.
pub open spec fn ends_within(later: Seq<u8>, now: Seq<u8>, size: nat) -> bool {
    is_tail(later, now) && now.len() < later.len() + size
}

/// How many bytes are read of the message at the front of a stream, unless the stream breaks off.
pub open spec fn message_size(s: Seq<u8>) -> nat {
    if s.len() < 24 {
        24
    } else {
        match decode_spec(s.take(24)) {
            Err(_) => 24,
            Ok(h) => if h.data_length > MAX_PAYLOAD_V2 {
                24
            } else {
                24 + h.data_length as nat
            },
        }
    }
}

/// `later` begins with `now`.
pub open spec fn goes_on(later: Seq<u8>, now: Seq<u8>) -> bool {
    now.len() <= later.len() && later.take(now.len() as int) == now
}

/// `grown` is `base` followed by some of the first bytes of `extra`.
pub open spec fn grew_by_prefix(grown: Seq<u8>, base: Seq<u8>, extra: Seq<u8>) -> bool {
    exists|k: int| 0 <= k <= extra.len() && grown == base + #[trigger] extra.take(k)
}

/// Nothing of what was written between these two states of a connection is held back.
pub open spec fn all_passed_on<T: Transport>(before: T, after: T) -> bool {
    ||| after.held_back() == 0
    ||| after.written() == before.written() && after.held_back() == before.held_back()
}

/// How many failures a call is that was to move up to `len` bytes.
pub open spec fn fault(r: Result<usize, IoError>, len: nat) -> nat {
    match r {
        Ok(n) => if n == 0 && len > 0 {
            1
        } else {
            0
        },
        Err(_) => 1,
    }
}

/// How a call on a connection failed.
pub enum Fault {
    /// There was nothing more to read.
    Ended,
    /// Nothing more was taken.
    Stuck,
    /// With an error of this kind.
    Failed(IoErrorKind),
}

impl Fault {
    /// The kind of the error by which the failure is told.
    pub open spec fn kind(self) -> IoErrorKind {
        match self {
            Fault::Ended => IoErrorKind::UnexpectedEof,
            Fault::Stuck => IoErrorKind::WriteZero,
            Fault::Failed(k) => k,
        }
    }
}

/// A connection over which ADB messages are sent and received.
///
/// An implementation moves bytes; the framing of messages is provided. An interrupted call is
/// the implementation's to repeat, so it is no failure here. What models the connection in contracts
/// has a default, so an implementation that is not verified need not mention it.
pub trait Transport {
    /// The bytes that the other side delivers from here on.
    open spec fn incoming(&self) -> Seq<u8> {
        arbitrary()
    }

    /// The bytes that the other side was sent so far.
    open spec fn written(&self) -> Seq<u8> {
        arbitrary()
    }

    /// How many calls failed so far. To read or to send nothing of what was asked for counts as
    /// a failure: it means that the connection has ended.
    open spec fn faults(&self) -> nat {
        arbitrary()
    }

    /// How the last call failed of those that did.
    open spec fn last_fault(&self) -> Fault {
        arbitrary()
    }

    /// How many of the bytes written so far may still be held back on this side.
    open spec fn held_back(&self) -> nat {
        arbitrary()
    }

    /// Reads some of the bytes that come next, at most as many as the buffer has room for.
    fn read(&mut self, buf: &mut [u8]) -> (r: Result<usize, IoError>)
        ensures
            final(buf)@.len() == old(buf)@.len(),
            final(self).written() == old(self).written(),
            match r {
                Ok(n) => n <= old(buf)@.len() && old(self).incoming() == final(buf)@.take(n as int)
                    + final(self).incoming(),
                Err(_) => final(self).incoming() == old(self).incoming(),
            },
            final(self).faults() == old(self).faults() + fault(r, old(buf)@.len()),
            final(self).last_fault() == match r {
                Ok(n) => if n == 0 && old(buf)@.len() > 0 {
                    Fault::Ended
                } else {
                    old(self).last_fault()
                },
                Err(e) => Fault::Failed(e.kind),
            },
            final(self).held_back() == old(self).held_back(),
    ;

    /// Sends some of the first bytes of `data`.
    fn write(&mut self, data: &[u8]) -> (r: Result<usize, IoError>)
        ensures
            final(self).incoming() == old(self).incoming(),
            match r {
                Ok(n) => n <= data@.len() && final(self).written() == old(self).written() + data@.take(
                    n as int,
                ),
                Err(_) => final(self).written() == old(self).written(),
            },
            final(self).faults() == old(self).faults() + fault(r, data@.len()),
            final(self).last_fault() == match r {
                Ok(n) => if n == 0 && data@.len() > 0 {
                    Fault::Stuck
                } else {
                    old(self).last_fault()
                },
                Err(e) => Fault::Failed(e.kind),
            },
            final(self).held_back() <= old(self).held_back() + match r {
                Ok(n) => n as nat,
                Err(_) => 0nat,
            },
    ;

    /// Passes on whatever is still held back.
    fn flush(&mut self) -> (r: Result<(), IoError>)
        ensures
            final(self).incoming() == old(self).incoming(),
            final(self).written() == old(self).written(),
            final(self).faults() == old(self).faults() + if r is Ok {
                0nat
            } else {
                1nat
            },
            final(self).last_fault() == match r {
                Ok(()) => old(self).last_fault(),
                Err(e) => Fault::Failed(e.kind),
            },
            r is Ok ==> final(self).held_back() == 0,
            final(self).held_back() <= old(self).held_back(),
    ;

    /// Flushes one ADB message, of which nothing is held back then. A connection that needs to
    /// know where a message ends, such as USB with its zero-length packets, overrides this.
    fn flush_payload(&mut self, payload_len: usize) -> (r: Result<(), TransportError>)
        ensures
            final(self).incoming() == old(self).incoming(),
            final(self).written() == old(self).written(),
            final(self).faults() >= old(self).faults(),
            r is Ok <==> final(self).faults() == old(self).faults(),
            r matches Err(e) ==> e is Io,
            final(self).last_fault() == match r {
                Err(TransportError::Io(e)) => Fault::Failed(e.kind),
                _ => old(self).last_fault(),
            },
            r is Ok ==> final(self).held_back() == 0,
            final(self).held_back() <= old(self).held_back(),
    {
        match self.flush() {
            Ok(()) => Ok(()),
            Err(e) => Err(TransportError::Io(e)),
        }
    }

    /// Sends all of `data`.
    fn write_all(&mut self, data: &[u8]) -> (r: Result<(), IoError>)
        ensures
            final(self).incoming() == old(self).incoming(),
            r is Ok ==> final(self).written() == old(self).written() + data@,
            r is Err ==> grew_by_prefix(final(self).written(), old(self).written(), data@),
            final(self).faults() >= old(self).faults(),
            r is Ok <==> final(self).faults() == old(self).faults(),
            match r {
                Ok(()) => final(self).last_fault() == old(self).last_fault(),
                Err(e) => e.kind == final(self).last_fault().kind(),
            },
            data@.len() == 0 ==> r is Ok,
    {
        let mut done: usize = 0;
        let ghost start = self.written();
        assert(start + data@.take(0) =~= start);
        while done < data.len()
            invariant
                done <= data@.len(),
                start == old(self).written(),
                self.incoming() == old(self).incoming(),
                self.faults() == old(self).faults(),
                self.last_fault() == old(self).last_fault(),
                self.written() == start + data@.take(done as int),
                data@.len() == 0 ==> done == 0,
            decreases data@.len() - done,
        {
            let rest = slice_subrange(data, done, data.len());
            match self.write(rest) {
                Ok(n) => {
                    if n == 0 {
                        assert(rest@.take(0) =~= Seq::empty());
                        assert(self.written() =~= start + data@.take(done as int));
                        return Err(
                            IoError::new(IoErrorKind::WriteZero, "failed to write whole buffer"),
                        );
                    }
                    assert(data@.take(done as int) + rest@.take(n as int) =~= data@.take(done + n));
                    assert(self.written() =~= start + data@.take(done + n));
                    done = done + n;
                },
                Err(e) => {
                    return Err(e);
                },
            }
        }
        assert(data@.take(done as int) =~= data@);
        Ok(())
    }

    /// Reads the next `len` bytes, all of them.
    fn read_exact(&mut self, len: usize) -> (r: Result<Vec<u8>, IoError>)
        ensures
            final(self).written() == old(self).written(),
            match r {
                Ok(v) => v@.len() == len && old(self).incoming() == v@ + final(self).incoming(),
                Err(_) => ends_within(
                    final(self).incoming(),
                    old(self).incoming(),
                    len as nat,
                ),
            },
            final(self).faults() == old(self).faults() + if r is Ok {
                0nat
            } else {
                1nat
            },
            match r {
                Ok(_) => final(self).last_fault() == old(self).last_fault(),
                Err(e) => e.kind == final(self).last_fault().kind(),
            },
            final(self).held_back() == old(self).held_back(),
            len == 0 ==> r is Ok,
    {
        let mut got: Vec<u8> = Vec::new();
        let ghost start = self.incoming();
        assert(start =~= got@ + start);
        while got.len() < len
            invariant
                got@.len() <= len,
                start == old(self).incoming(),
                self.written() == old(self).written(),
                self.faults() == old(self).faults(),
                self.last_fault() == old(self).last_fault(),
                self.held_back() == old(self).held_back(),
                start == got@ + self.incoming(),
                len == 0 ==> got@.len() == 0,
            decreases len - got@.len(),
        {
            assert(self.incoming() =~= start.skip(got@.len() as int));
            let room: usize = len - got.len();
            let mut chunk: Vec<u8> = vec![0u8; room];
            match self.read(chunk.as_mut_slice()) {
                Ok(n) => {
                    if n == 0 {
                        assert(chunk@.take(0) + self.incoming() =~= self.incoming());
                        return Err(
                            IoError::new(IoErrorKind::UnexpectedEof, "failed to fill whole buffer"),
                        );
                    }
                    let ghost before = got@;
                    got.extend_from_slice(slice_subrange(chunk.as_slice(), 0, n));
                    assert(got@ =~= before + chunk@.take(n as int));
                    assert(start =~= got@ + self.incoming());
                },
                Err(e) => {
                    return Err(e);
                },
            }
        }
        Ok(got)
    }

    /// Sends an ADB message: the header, then the payload. Nothing of it is held back.
    fn send_message(&mut self, header: &AdbMessageHeader, payload: &[u8]) -> (r: Result<
        (),
        TransportError,
    >)
        ensures
            final(self).incoming() == old(self).incoming(),
            r is Ok ==> final(self).written() == old(self).written() + (header_bytes(*header)
                + payload@),
            r is Err ==> grew_by_prefix(
                final(self).written(),
                old(self).written(),
                header_bytes(*header) + payload@,
            ),
            final(self).faults() >= old(self).faults(),
            r is Ok <==> final(self).faults() == old(self).faults(),
            r matches Err(e) ==> e is Io,
            match r {
                Err(TransportError::Io(e)) => e.kind == final(self).last_fault().kind(),
                _ => final(self).last_fault() == old(self).last_fault(),
            },
            r is Ok ==> final(self).held_back() == 0,
    {
        let mut bytes: [u8; 24] = [0u8; 24];
        header.encode(&mut bytes);
        let ghost start = self.written();
        let ghost hb = header_bytes(*header);
        proof {
            lemma_header_bytes(*header);
        }
        match self.write_all(bytes.as_slice()) {
            Ok(()) => {},
            Err(e) => {
                proof {
                    let k = choose|k: int|
                        0 <= k <= hb.len() && self.written() == start + #[trigger] hb.take(k);
                    assert((hb + payload@).take(k) =~= hb.take(k));
                }
                return Err(TransportError::Io(e));
            },
        }
        if payload.len() > 0 {
            match self.write_all(payload) {
                Ok(()) => {},
                Err(e) => {
                    proof {
                        let k = choose|k: int|
                            0 <= k <= payload@.len() && self.written() == (start + hb)
                                + #[trigger] payload@.take(k);
                        assert((hb + payload@).take(24 + k) =~= hb + payload@.take(k));
                        assert(self.written() =~= start + (hb + payload@).take(24 + k));
                    }
                    return Err(TransportError::Io(e));
                },
            }
        }
        proof {
            assert(self.written() =~= start + (hb + payload@));
            assert((hb + payload@).take((hb + payload@).len() as int) =~= hb + payload@);
        }
        self.flush_payload(payload.len())
    }

    /// Receives an ADB message: a header, and the payload that it announces. Of a message that is
    /// refused for its header, nothing but the header is read.
    fn recv_message(&mut self) -> (r: Result<(AdbMessageHeader, Vec<u8>), TransportError>)
        ensures
            final(self).written() == old(self).written(),
            is_tail(final(self).incoming(), old(self).incoming()),
            final(self).faults() == old(self).faults() + if r matches Err(TransportError::Io(_)) {
                1nat
            } else {
                0nat
            },
            match r {
                Ok((h, p)) => received(old(self).incoming()) == Received::Message(h, p@)
                    && final(self).incoming() == after_message(old(self).incoming()),
                Err(TransportError::Io(e)) => e.kind == final(self).last_fault().kind()
                    && ends_within(
                    final(self).incoming(),
                    old(self).incoming(),
                    message_size(old(self).incoming()),
                ),
                Err(TransportError::Header(e)) => {
                    ||| received(old(self).incoming()) == Received::BadHeader(e)
                        && final(self).incoming() == old(self).incoming().skip(24)
                    ||| received(old(self).incoming()) matches Received::BadPayload(h, f) && f == e
                        && final(self).incoming() == old(self).incoming().skip(
                        24 + h.data_length as int,
                    )
                },
                Err(TransportError::Protocol(m)) => received(old(self).incoming()) matches Received::TooLarge(n)
                    && m@ == too_large_text(n) && final(self).incoming()
                    == old(self).incoming().skip(24),
                Err(_) => false,
            },
            !(r matches Err(TransportError::Io(_))) ==> final(self).last_fault()
                == old(self).last_fault(),
            final(self).held_back() == old(self).held_back(),
    {
        let ghost start = self.incoming();
        let bytes = match self.read_exact(24) {
            Ok(v) => v,
            Err(e) => {
                return Err(TransportError::Io(e));
            },
        };
        assert(start.take(24) =~= bytes@);
        assert(self.incoming() =~= start.skip(24));
        let header = match AdbMessageHeader::decode(bytes.as_slice()) {
            Ok(h) => h,
            Err(e) => {
                return Err(TransportError::Header(e));
            },
        };
        if header.data_length > MAX_PAYLOAD_V2 {
            let mut m = owned("Payload too large: ");
            m.append(decimal(header.data_length as u64).as_str());
            m.append(" bytes (max ");
            m.append(decimal(MAX_PAYLOAD_V2 as u64).as_str());
            m.append(")");
            assert(m@ =~= too_large_text(header.data_length));
            return Err(TransportError::Protocol(m));
        }
        if header.data_length == 0 {
            let payload: Vec<u8> = Vec::new();
            assert(payload@ =~= Seq::<u8>::empty());
            return Ok((header, payload));
        }
        let ghost rest = self.incoming();
        let payload = match self.read_exact(header.data_length as usize) {
            Ok(v) => v,
            Err(e) => {
                proof {
                    let k = choose|k: int|
                        0 <= k <= rest.len() && self.incoming() == #[trigger] rest.skip(k);
                    assert(self.incoming() =~= start.skip(24 + k));
                }
                return Err(TransportError::Io(e));
            },
        };
        assert(start.subrange(24, 24 + header.data_length as int) =~= payload@);
        assert(self.incoming() =~= start.skip(24 + header.data_length as int));
        match header.verify_payload(payload.as_slice()) {
            Ok(()) => Ok((header, payload)),
            Err(e) => Err(TransportError::Header(e)),
        }
    }
}

/// A way of setting up connections.
pub trait Connect {
    type Target: Transport;

    fn connect(addr: &str) -> Result<Self::Target, TransportError>;

    fn connect_timeout(addr: &str, timeout_ms: u64) -> Result<Self::Target, TransportError>;
}

/// What was sent as a message of a permitted size is received as that message, and nothing
/// behind it is touched.
pub proof fn sent_message_is_received(
    command: u32,
    arg0: u32,
    arg1: u32,
    payload: Seq<u8>,
    rest: Seq<u8>,
)
    requires
        payload.len() <= MAX_PAYLOAD_V2,
    ensures
        received(message_bytes(command, arg0, arg1, payload) + rest) == Received::Message(
            header_of(command, arg0, arg1, payload),
            payload,
        ),
        after_message(message_bytes(command, arg0, arg1, payload) + rest) == rest,
{
    let h = header_of(command, arg0, arg1, payload);
    let s = message_bytes(command, arg0, arg1, payload) + rest;
    lemma_header_bytes(h);
    header_round_trip(h);
    own_payload_is_accepted(command, arg0, arg1, payload);
    assert(s.take(24) =~= header_bytes(h));
    assert(s.subrange(24, 24 + payload.len() as int) =~= payload);
    assert(s.skip(24 + payload.len() as int) =~= rest);
    if payload.len() == 0 {
        assert(payload =~= Seq::empty());
    }
}

/// A payload of more than a mebibyte is refused before it is read, and its length is told.
pub proof fn oversized_payload_is_refused(s: Seq<u8>)
    requires
        s.len() >= 24,
        word_at(s.take(24), 0) + word_at(s.take(24), 20) == 0xffff_ffff,
        word_at(s.take(24), 12) > 1024 * 1024,
    ensures
        received(s) == Received::TooLarge(word_at(s.take(24), 12) as u32),
{
    header_is_laid_out(s.take(24));
}

/// A message whose checksum is that of its payload is received, and one with another checksum is
/// not, unless it has none.
pub proof fn checksum_is_held_against_the_payload(
    h: AdbMessageHeader,
    payload: Seq<u8>,
    rest: Seq<u8>,
)
    requires
        h.magic == magic_of(h.command),
        0 < payload.len() <= 1024 * 1024,
        h.data_length == payload.len(),
    ensures
        received(header_bytes(h) + payload + rest) == if h.data_check == 0 || h.data_check
            == checksum(payload) {
            Received::Message(h, payload)
        } else {
            Received::BadPayload(
                h,
                HeaderError::ChecksumMismatch { expected: h.data_check, got: checksum(payload) },
            )
        },
{
    let s = header_bytes(h) + payload + rest;
    lemma_header_bytes(h);
    header_round_trip(h);
    assert(s.take(24) =~= header_bytes(h));
    assert(s.subrange(24, 24 + payload.len() as int) =~= payload);
}

/// A message: its command, its two numbers and its payload.
pub struct Sent {
    pub command: u32,
    pub arg0: u32,
    pub arg1: u32,
    pub payload: Seq<u8>,
}

/// Messages one behind the other.
pub open spec fn stream_of(ms: Seq<Sent>) -> Seq<u8>
    decreases ms.len(),
{
    if ms.len() == 0 {
        Seq::empty()
    } else {
        message_bytes(ms[0].command, ms[0].arg0, ms[0].arg1, ms[0].payload) + stream_of(ms.skip(1))
    }
}

/// Payloads that may be sent.
pub open spec fn payloads_fit(ms: Seq<Sent>) -> bool {
    forall|i: int| 0 <= i < ms.len() ==> (#[trigger] ms[i]).payload.len() <= 1024 * 1024
}

/// The first message of a stream is read, and the others are left.
pub proof fn lemma_stream_step(ms: Seq<Sent>, rest: Seq<u8>)
    requires
        ms.len() > 0,
        payloads_fit(ms),
    ensures
        payloads_fit(ms.skip(1)),
        ({
            let s = stream_of(ms) + rest;
            let h = header_of(ms[0].command, ms[0].arg0, ms[0].arg1, ms[0].payload);
            let n = 24 + ms[0].payload.len();
            &&& s.len() >= n
            &&& decode_spec(s.take(24)) == Ok::<AdbMessageHeader, HeaderError>(h)
            &&& h.command == ms[0].command
            &&& h.arg0 == ms[0].arg0
            &&& h.data_length == ms[0].payload.len()
            &&& s.subrange(24, n as int) == ms[0].payload
            &&& s.skip(n as int) == stream_of(ms.skip(1)) + rest
            &&& header_bytes(h) + ms[0].payload == message_bytes(
                ms[0].command,
                ms[0].arg0,
                ms[0].arg1,
                ms[0].payload,
            )
            &&& message_in(s) == Some((h, ms[0].payload))
            &&& after_message(s) == stream_of(ms.skip(1)) + rest
        }),
{
    let x = ms[0];
    assert(x.payload.len() <= 1024 * 1024);
    let left = ms.skip(1);
    assert forall|i: int| 0 <= i < left.len() implies (#[trigger] left[i]).payload.len() <= 1024
        * 1024 by {
        assert(left[i] == ms[i + 1]);
    }
    let s = stream_of(ms) + rest;
    let h = header_of(x.command, x.arg0, x.arg1, x.payload);
    let m = message_bytes(x.command, x.arg0, x.arg1, x.payload);
    lemma_header_bytes(h);
    header_round_trip(h);
    assert(s =~= m + (stream_of(left) + rest));
    sent_message_is_received(x.command, x.arg0, x.arg1, x.payload, stream_of(left) + rest);
    assert(s.take(24) =~= header_bytes(h));
    assert(s.subrange(24, 24 + x.payload.len() as int) =~= x.payload);
    assert(s.skip(24 + x.payload.len() as int) =~= stream_of(left) + rest);
}

/// A message behind others.
pub proof fn lemma_stream_push(ms: Seq<Sent>, x: Sent)
    ensures
        stream_of(ms.push(x)) == stream_of(ms) + message_bytes(
            x.command,
            x.arg0,
            x.arg1,
            x.payload,
        ),
    decreases ms.len(),
{
    let all = ms.push(x);
    let m = message_bytes(x.command, x.arg0, x.arg1, x.payload);
    if ms.len() == 0 {
        assert(all.skip(1) =~= Seq::<Sent>::empty());
        assert(stream_of(all.skip(1)) =~= Seq::<u8>::empty());
        assert(stream_of(all) =~= m);
        assert(stream_of(ms) + m =~= m);
    } else {
        assert(all.skip(1) =~= ms.skip(1).push(x));
        lemma_stream_push(ms.skip(1), x);
        assert(stream_of(all) =~= stream_of(ms) + m);
    }
}

/// The data in messages.
pub open spec fn data_in(ms: Seq<Sent>) -> Seq<u8>
    decreases ms.len(),
{
    if ms.len() == 0 {
        Seq::empty()
    } else {
        (if ms[0].command == 0x4554_5257 {
            ms[0].payload
        } else {
            Seq::empty()
        }) + data_in(ms.skip(1))
    }
}

} // verus!
