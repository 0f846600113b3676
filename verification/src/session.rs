//! A client's conversation with a device: the handshake, and the services opened after it.

use crate::auth::{
    answer_step, is_rsakey_message, is_signature_message, Answer, AuthModel, AuthResponder,
    Message,
};
use crate::constants::{
    ADB_VERSION, A_AUTH, A_AUTH_TOKEN, A_CLSE, A_CNXN, A_OKAY, A_OPEN, A_STLS, A_WRTE, MAX_PAYLOAD_V2,
};
use crate::features::{banner_features, can_use_feature, host_features, parse_banner_features};
use crate::header::{header_bytes, hex_text, message_bytes, AdbMessageHeader};
use crate::keys::{AuthError, AuthErrorModel};
use crate::shell_v2::{packet_bytes, packet_round_trip, parse_spec, payload_of, PacketModel, ShellV2Packet};
use crate::text::{from_utf8_lossy, lossy_text, number, owned};
use crate::transport::{
    after_message, all_passed_on, data_in, ends_within, goes_on, grew_by_prefix, is_tail, lemma_stream_step,
    lemma_tail_of_tail, message_in, message_size, payloads_fit, stream_of, IoErrorKind, Sent, Transport,
    TransportError,
};
use vstd::prelude::*;
use vstd::slice::{slice_subrange, slice_to_vec};
use vstd::utf8::encode_utf8;

verus! {

/// Why a conversation ended.
#[derive(Debug)]
pub enum ClientError {
    /// The connection failed.
    Transport(TransportError),
    /// The key could not be used.
    Auth(AuthError),
    /// The other side said something else than was hoped for.
    Failed(String),
}

impl ClientError {
    /// The text of the error.
    pub fn message(&self) -> (s: String)
        ensures
            s@ == match *self {
                ClientError::Transport(e) => e.text(),
                ClientError::Auth(e) => crate::keys::auth_error_text(e@),
                ClientError::Failed(m) => m@,
            },
    {
        match self {
            ClientError::Transport(e) => e.message(),
            ClientError::Auth(e) => e.message(),
            ClientError::Failed(m) => owned(m.as_str()),
        }
    }

    /// The connection itself failed.
    pub open spec fn is_io(self) -> bool {
        self matches ClientError::Transport(TransportError::Io(_))
    }
}

/// Sends a message made of these parts.
pub fn send<T: Transport>(
    transport: &mut T,
    command: u32,
    arg0: u32,
    arg1: u32,
    payload: &[u8],
) -> (r: Result<(), TransportError>)
    ensures
        final(transport).incoming() == old(transport).incoming(),
        r is Ok ==> final(transport).written() == old(transport).written() + message_bytes(
            command,
            arg0,
            arg1,
            payload@,
        ),
        r is Err ==> grew_by_prefix(
            final(transport).written(),
            old(transport).written(),
            message_bytes(command, arg0, arg1, payload@),
        ),
        final(transport).faults() >= old(transport).faults(),
        r is Ok <==> final(transport).faults() == old(transport).faults(),
        match r {
            Ok(()) => final(transport).last_fault() == old(transport).last_fault(),
            Err(TransportError::Io(e)) => e.kind == final(transport).last_fault().kind(),
            Err(_) => false,
        },
        r is Ok ==> final(transport).held_back() == 0,
{
    let header = AdbMessageHeader::new(command, arg0, arg1, payload);
    transport.send_message(&header, payload)
}

/// Sends a message without a payload and does not mind if that fails.
fn send_anyway<T: Transport>(transport: &mut T, command: u32, arg0: u32, arg1: u32)
    ensures
        final(transport).incoming() == old(transport).incoming(),
        final(transport).faults() >= old(transport).faults(),
        final(transport).faults() == old(transport).faults() ==> final(transport).written() == old(transport).written() + message_bytes(command, arg0, arg1, Seq::empty())
            && final(transport).held_back() == 0,
        goes_on(final(transport).written(), old(transport).written()),
{
    let ghost before = transport.written();
    let ghost message = message_bytes(command, arg0, arg1, Seq::empty());
    proof {
        assert forall|k: int| 0 <= k <= message.len() implies goes_on(
            before + #[trigger] message.take(k),
            before,
        ) by {
            assert((before + message.take(k)).take(before.len() as int) =~= before);
        }
        assert(message.take(message.len() as int) =~= message);
    }
    let empty: Vec<u8> = Vec::new();
    assert(empty@ =~= Seq::<u8>::empty());
    let _ = send(transport, command, arg0, arg1, empty.as_slice());
}

/// The answer to an OPEN: whether the service was opened, its number on the other side, and the
/// stream behind the answer. Other messages are passed over.
pub open spec fn opened(s: Seq<u8>) -> Option<(bool, u32, Seq<u8>)>
    decreases s.len(),
{
    match message_in(s) {
        None => None,
        Some((h, _)) => if h.command == A_OKAY {
            Some((true, h.arg0, after_message(s)))
        } else if h.command == A_CLSE {
            Some((false, h.arg0, after_message(s)))
        } else {
            opened(after_message(s))
        },
    }
}

/// The text of the error for a service that was not opened.
pub open spec fn closed_text(dest: Seq<char>) -> Seq<char> {
    "Service '"@ + dest + "' closed immediately"@
}

/// Opens a service of the device, and gives its numbers on both sides.
pub fn open_service<T: Transport>(transport: &mut T, dest: &str, local_id: u32) -> (r: Result<
    (u32, u32),
    ClientError,
>)
    ensures
        final(transport).faults() >= old(transport).faults(),
        (r matches Err(e) && e.is_io()) <==> final(transport).faults() > old(transport).faults(),
        final(transport).faults() == old(transport).faults() ==> final(transport).written() == old(transport).written() + message_bytes(A_OPEN, local_id, 0, encode_utf8(dest@))
            && final(transport).held_back() == 0,
        grew_by_prefix(
            final(transport).written(),
            old(transport).written(),
            message_bytes(A_OPEN, local_id, 0, encode_utf8(dest@)),
        ),
        match r {
            Ok((local, remote)) => local == local_id && opened(old(transport).incoming()) == Some(
                (true, remote, final(transport).incoming()),
            ),
            Err(ClientError::Failed(m)) => m@ == closed_text(dest@) && (opened(
                old(transport).incoming(),
            ) matches Some((ok, _, rest)) && !ok && rest == final(transport).incoming()),
            Err(ClientError::Transport(e)) => e is Io || opened(old(transport).incoming()) is None,
            Err(_) => false,
        },
{
    match send(transport, A_OPEN, local_id, 0, dest.as_bytes()) {
        Ok(()) => {},
        Err(e) => {
            return Err(ClientError::Transport(e));
        },
    }
    let ghost message = message_bytes(A_OPEN, local_id, 0, encode_utf8(dest@));
    assert(message.take(message.len() as int) =~= message);
    loop
        invariant
            message == message_bytes(A_OPEN, local_id, 0, encode_utf8(dest@)),
            message.take(message.len() as int) == message,
            transport.faults() == old(transport).faults(),
            transport.held_back() == 0,
            transport.written() == old(transport).written() + message_bytes(
                A_OPEN,
                local_id,
                0,
                encode_utf8(dest@),
            ),
            opened(transport.incoming()) == opened(old(transport).incoming()),
        decreases transport.incoming().len(),
    {
        let (hdr, _payload) = match transport.recv_message() {
            Ok(m) => m,
            Err(e) => {
                return Err(ClientError::Transport(e));
            },
        };
        if hdr.command == A_OKAY {
            return Ok((local_id, hdr.arg0));
        }
        if hdr.command == A_CLSE {
            let mut m = owned("Service '");
            m.append(dest);
            m.append("' closed immediately");
            assert(m@ =~= closed_text(dest@));
            return Err(ClientError::Failed(m));
        }
    }
}

/// What follows on a WRTE: whether it was acknowledged (or the service closed), what is sent
/// meanwhile, and the stream behind the answer. Data that comes in between is acknowledged.
pub open spec fn acknowledged(s: Seq<u8>, local_id: u32) -> Option<(bool, Seq<u8>, Seq<u8>)>
    decreases s.len(),
{
    match message_in(s) {
        None => None,
        Some((h, _)) => if h.command == A_OKAY {
            Some((true, Seq::empty(), after_message(s)))
        } else if h.command == A_CLSE {
            Some((false, Seq::empty(), after_message(s)))
        } else {
            match acknowledged(after_message(s), local_id) {
                Some((ok, sent, rest)) => if h.command == A_WRTE {
                    Some((ok, message_bytes(A_OKAY, local_id, h.arg0, Seq::empty()) + sent, rest))
                } else {
                    Some((ok, sent, rest))
                },
                None => None,
            }
        },
    }
}

/// The first `k` messages that come before the answer to a WRTE: what is sent meanwhile, and the
/// stream behind them.
pub open spec fn first_acks(s: Seq<u8>, local_id: u32, k: nat) -> (Seq<u8>, Seq<u8>)
    decreases k,
{
    if k == 0 {
        (Seq::empty(), s)
    } else {
        let (acks, rest) = first_acks(s, local_id, (k - 1) as nat);
        match message_in(rest) {
            None => (acks, rest),
            Some((h, _)) => if h.command == A_OKAY || h.command == A_CLSE {
                (acks, rest)
            } else if h.command == A_WRTE {
                (
                    acks + message_bytes(A_OKAY, local_id, h.arg0, Seq::empty()),
                    after_message(rest),
                )
            } else {
                (acks, after_message(rest))
            },
        }
    }
}

/// A connection failed while a WRTE was sent, of which some of the first bytes went out; or it was
/// sent, and the connection failed behind the first `k` messages that came before its answer. What
/// came in them was acknowledged, as far as that did not fail as well.
pub open spec fn wrte_failed<T: Transport>(
    k: nat,
    before: T,
    after: T,
    local_id: u32,
    remote_id: u32,
    payload: Seq<u8>,
) -> bool {
    let message = message_bytes(A_WRTE, local_id, remote_id, payload);
    let (acks, rest) = first_acks(before.incoming(), local_id, k);
    ||| after.incoming() == before.incoming() && grew_by_prefix(
        after.written(),
        before.written(),
        message,
    )
    ||| ends_within(after.incoming(), rest, message_size(rest)) && goes_on(
        after.written(),
        before.written() + message,
    ) && (after.faults() == before.faults() + 1 ==> after.written() == before.written() + message
        + acks)
}

/// Sends data to a service and waits until it is acknowledged.
pub fn send_wrte<T: Transport>(
    transport: &mut T,
    local_id: u32,
    remote_id: u32,
    payload: &[u8],
) -> (r: Result<(), ClientError>)
    ensures
        final(transport).faults() >= old(transport).faults(),
        (r matches Err(e) && e.is_io()) ==> final(transport).faults() > old(transport).faults(),
        match r {
            Ok(()) => wrte_done(true, *old(transport), *final(transport), local_id, remote_id, payload@),
            Err(ClientError::Failed(m)) => m@ == "Connection closed by peer"@ && wrte_done(
                false,
                *old(transport),
                *final(transport),
                local_id,
                remote_id,
                payload@,
            ),
            Err(ClientError::Transport(e)) => if e is Io {
                exists|k: nat| #[trigger]
                    wrte_failed(
                        k,
                        *old(transport),
                        *final(transport),
                        local_id,
                        remote_id,
                        payload@,
                    )
            } else {
                acknowledged(old(transport).incoming(), local_id) is None
            },
            Err(_) => false,
        },
{
    let ghost mut k: nat = 0;
    let ghost start = transport.incoming();
    let ghost base = transport.written();
    match send(transport, A_WRTE, local_id, remote_id, payload) {
        Ok(()) => {},
        Err(e) => {
            assert(wrte_failed(0, *old(transport), *transport, local_id, remote_id, payload@));
            return Err(ClientError::Transport(e));
        },
    }
    let ghost sent = message_bytes(A_WRTE, local_id, remote_id, payload@);
    let ghost mut acks: Seq<u8> = Seq::empty();
    assert(base + sent + acks =~= base + sent);
    assert((base + sent).take((base + sent).len() as int) =~= base + sent);
    loop
        invariant
            start == old(transport).incoming(),
            base == old(transport).written(),
            sent == message_bytes(A_WRTE, local_id, remote_id, payload@),
            transport.faults() >= old(transport).faults(),
            goes_on(transport.written(), base + sent),
            first_acks(start, local_id, k) == (acks, transport.incoming()),
            transport.faults() == old(transport).faults() ==> transport.written() == base + sent
                + acks && transport.held_back() == 0,
            match acknowledged(transport.incoming(), local_id) {
                Some((ok, more, rest)) => acknowledged(start, local_id) == Some(
                    (ok, acks + more, rest),
                ),
                None => acknowledged(start, local_id) is None,
            },
        decreases transport.incoming().len(),
    {
        let ghost now = transport.incoming();
        let (hdr, _payload) = match transport.recv_message() {
            Ok(m) => m,
            Err(e) => {
                assert(e is Io ==> wrte_failed(
                    k,
                    *old(transport),
                    *transport,
                    local_id,
                    remote_id,
                    payload@,
                ));
                return Err(ClientError::Transport(e));
            },
        };
        if hdr.command == A_OKAY {
            assert(acks + Seq::<u8>::empty() =~= acks);
            return Ok(());
        }
        if hdr.command == A_CLSE {
            assert(acks + Seq::<u8>::empty() =~= acks);
            return Err(ClientError::Failed(owned("Connection closed by peer")));
        }
        proof {
            k = k + 1;
        }
        if hdr.command == A_WRTE {
            let ghost so_far = transport.written();
            send_anyway(transport, A_OKAY, local_id, hdr.arg0);
            proof {
                let ack = message_bytes(A_OKAY, local_id, hdr.arg0, Seq::empty());
                let before = acks;
                acks = before + ack;
                assert(base + sent + before + ack =~= base + sent + acks);
                assert(transport.written().take((base + sent).len() as int) =~= so_far.take(
                    (base + sent).len() as int,
                ));
                match acknowledged(after_message(now), local_id) {
                    Some((_, more, _)) => {
                        assert(before + (ack + more) =~= acks + more);
                    },
                    None => {},
                }
            }
        }
    }
}

/// A WRTE was sent and answered: with an OKAY if `ok`, else with a CLSE. That an acknowledgement
/// of data in between could not be sent does not matter to it.
pub open spec fn wrte_done<T: Transport>(
    ok: bool,
    before: T,
    after: T,
    local_id: u32,
    remote_id: u32,
    payload: Seq<u8>,
) -> bool {
    &&& acknowledged(before.incoming(), local_id) matches Some((k, sent, rest))
    &&& k == ok
    &&& after.incoming() == rest
    &&& goes_on(
        after.written(),
        before.written() + message_bytes(A_WRTE, local_id, remote_id, payload),
    )
    &&& after.faults() == before.faults() ==> after.written() == before.written() + message_bytes(
        A_WRTE,
        local_id,
        remote_id,
        payload,
    ) + sent && after.held_back() == 0
}

/// All the data that a service sends until it closes: the data, what is sent meanwhile, and the
/// stream behind. A message of another kind ends it too.
pub open spec fn all_data(s: Seq<u8>, local_id: u32) -> Option<(Seq<u8>, Seq<u8>, Seq<u8>)>
    decreases s.len(),
{
    match message_in(s) {
        None => None,
        Some((h, p)) => if h.command == A_WRTE {
            match all_data(after_message(s), local_id) {
                Some((data, sent, rest)) => Some(
                    (
                        p + data,
                        message_bytes(A_OKAY, local_id, h.arg0, Seq::empty()) + sent,
                        rest,
                    ),
                ),
                None => None,
            }
        } else if h.command == A_CLSE {
            Some(
                (
                    Seq::empty(),
                    message_bytes(A_CLSE, local_id, h.arg0, Seq::empty()),
                    after_message(s),
                ),
            )
        } else if h.command == A_OKAY {
            all_data(after_message(s), local_id)
        } else {
            Some((Seq::empty(), Seq::empty(), after_message(s)))
        },
    }
}

/// Reads all the data that a service sends until it closes.
pub fn recv_wrte_all<T: Transport>(transport: &mut T, local_id: u32) -> (r: Result<
    Vec<u8>,
    ClientError,
>)
    ensures
        final(transport).faults() >= old(transport).faults(),
        (r matches Err(e) && e.is_io()) ==> final(transport).faults() > old(transport).faults(),
        match r {
            Ok(v) => all_data(old(transport).incoming(), local_id) matches Some((data, sent, rest))
                && v@ == data && final(transport).incoming() == rest && (final(transport).faults()
                == old(transport).faults() ==> final(transport).written() == old(transport).written() + sent
                && all_passed_on(*old(transport), *final(transport))),
            Err(ClientError::Transport(e)) => e is Io || all_data(
                old(transport).incoming(),
                local_id,
            ) is None,
            Err(_) => false,
        },
{
    let ghost start = transport.incoming();
    let ghost base = transport.written();
    let mut collected: Vec<u8> = Vec::new();
    let ghost mut acks: Seq<u8> = Seq::empty();
    proof {
        assert(base + acks =~= base);
        match all_data(start, local_id) {
            Some((data, sent, _)) => {
                assert(collected@ + data =~= data);
                assert(acks + sent =~= sent);
            },
            None => {},
        }
    }
    loop
        invariant
            start == old(transport).incoming(),
            base == old(transport).written(),
            transport.faults() >= old(transport).faults(),
            transport.faults() == old(transport).faults() ==> transport.written() == base + acks
                && (transport.held_back() == 0 || acks.len() == 0 && transport.held_back()
                == old(transport).held_back()),
            match all_data(transport.incoming(), local_id) {
                Some((data, sent, rest)) => all_data(start, local_id) == Some(
                    (collected@ + data, acks + sent, rest),
                ),
                None => all_data(start, local_id) is None,
            },
        decreases transport.incoming().len(),
    {
        let ghost now = transport.incoming();
        let (hdr, payload) = match transport.recv_message() {
            Ok(m) => m,
            Err(e) => {
                return Err(ClientError::Transport(e));
            },
        };
        if hdr.command == A_WRTE {
            let ghost ack = message_bytes(A_OKAY, local_id, hdr.arg0, Seq::empty());
            let ghost before = collected@;
            let ghost acks_before = acks;
            send_anyway(transport, A_OKAY, local_id, hdr.arg0);
            collected.extend_from_slice(payload.as_slice());
            assert(collected@ =~= before + payload@);
            proof {
                acks = acks_before + ack;
                assert(base + acks_before + ack =~= base + acks);
                match all_data(after_message(now), local_id) {
                    Some((data, sent, _)) => {
                        assert(before + (payload@ + data) =~= collected@ + data);
                        assert(acks_before + (ack + sent) =~= acks + sent);
                    },
                    None => {},
                }
            }
        } else if hdr.command == A_CLSE {
            send_anyway(transport, A_CLSE, local_id, hdr.arg0);
            assert(collected@ + Seq::<u8>::empty() =~= collected@);
            proof {
                let ack = message_bytes(A_CLSE, local_id, hdr.arg0, Seq::empty());
                assert(base + acks + ack =~= base + (acks + ack));
            }
            return Ok(collected);
        } else if hdr.command != A_OKAY {
            assert(collected@ + Seq::<u8>::empty() =~= collected@);
            assert(acks + Seq::<u8>::empty() =~= acks);
            return Ok(collected);
        }
    }
}

/// The next thing that a service sends: data, or the end.
pub struct DataEvent {
    /// The data; `None` where the service closes.
    pub data: Option<Seq<u8>>,
    /// The number that the other side gave as its own in that message.
    pub peer: u32,
    /// The number of the service on the other side, as of the last OKAY.
    pub remote: u32,
    /// The stream behind.
    pub rest: Seq<u8>,
}

/// The next thing that a service sends. An OKAY in between tells its number on the other side,
/// and other messages are passed over.
pub open spec fn next_data(s: Seq<u8>, remote: u32) -> Option<DataEvent>
    decreases s.len(),
{
    match message_in(s) {
        None => None,
        Some((h, p)) => if h.command == A_OKAY {
            next_data(after_message(s), h.arg0)
        } else if h.command == A_WRTE {
            Some(DataEvent { data: Some(p), peer: h.arg0, remote, rest: after_message(s) })
        } else if h.command == A_CLSE {
            Some(DataEvent { data: None, peer: h.arg0, remote, rest: after_message(s) })
        } else {
            next_data(after_message(s), remote)
        },
    }
}

/// `later` is `now` without some bytes at its front, and not without the next thing that a service
/// sends.
pub open spec fn nothing_lost(later: Seq<u8>, now: Seq<u8>, remote: u32) -> bool {
    is_tail(later, now) && (next_data(now, remote) matches Some(e) ==> e.rest.len() < later.len())
}

/// The next thing that a service sends ends no earlier than the message at the front of the stream.
proof fn lemma_next_data_behind(s: Seq<u8>, remote: u32)
    ensures
        next_data(s, remote) matches Some(e) ==> e.rest.len() + message_size(s) <= s.len(),
{
    match message_in(s) {
        Some((h, _)) => {
            lemma_next_data_shrinks(after_message(s), h.arg0);
            lemma_next_data_shrinks(after_message(s), remote);
        },
        None => {},
    }
}

/// The next thing that a service sent, with the number that the other side gave as its own.
struct Awaited {
    data: Option<Vec<u8>>,
    peer: u32,
    remote: u32,
}

fn await_data<T: Transport>(transport: &mut T, remote_id: u32) -> (r: Result<
    Awaited,
    TransportError,
>)
    ensures
        final(transport).written() == old(transport).written(),
        final(transport).faults() >= old(transport).faults(),
        (r matches Err(e) && e is Io) <==> final(transport).faults() > old(transport).faults(),
        match r {
            Ok(a) => next_data(old(transport).incoming(), remote_id) == Some(
                DataEvent {
                    data: match a.data {
                        Some(v) => Some(v@),
                        None => None,
                    },
                    peer: a.peer,
                    remote: a.remote,
                    rest: final(transport).incoming(),
                },
            ),
            Err(TransportError::Io(e)) => e.kind == final(transport).last_fault().kind()
                && nothing_lost(final(transport).incoming(), old(transport).incoming(), remote_id),
            Err(_) => next_data(old(transport).incoming(), remote_id) is None,
        },
{
    let mut remote: u32 = remote_id;
    assert(transport.incoming() =~= transport.incoming().skip(0));
    loop
        invariant
            transport.written() == old(transport).written(),
            transport.faults() == old(transport).faults(),
            is_tail(transport.incoming(), old(transport).incoming()),
            next_data(transport.incoming(), remote) == next_data(
                old(transport).incoming(),
                remote_id,
            ),
        decreases transport.incoming().len(),
    {
        let ghost now = transport.incoming();
        let received = transport.recv_message();
        proof {
            lemma_tail_of_tail(transport.incoming(), now, old(transport).incoming());
            lemma_next_data_behind(now, remote);
        }
        let (hdr, payload) = match received {
            Ok(m) => m,
            Err(e) => {
                return Err(e);
            },
        };
        if hdr.command == A_OKAY {
            remote = hdr.arg0;
        } else if hdr.command == A_WRTE {
            return Ok(Awaited { data: Some(payload), peer: hdr.arg0, remote });
        } else if hdr.command == A_CLSE {
            return Ok(Awaited { data: None, peer: hdr.arg0, remote });
        }
    }
}

/// The connection was closed by the other side.
fn is_eof(e: &TransportError) -> (r: bool)
    ensures
        r == (*e matches TransportError::Io(io) && io.kind == IoErrorKind::UnexpectedEof),
{
    match e {
        TransportError::Io(io) => io.kind == IoErrorKind::UnexpectedEof,
        _ => false,
    }
}

/// A service whose output comes without any framing.
#[derive(Debug, Clone, Copy)]
pub struct RawStream {
    pub local_id: u32,
    pub remote_id: u32,
}

/// The connection ended while something was waited for: the last call that failed found no more
/// bytes, nothing that the service sent was dropped, and nothing was sent.
pub open spec fn cut_off<T: Transport>(before: T, after: T, remote: u32) -> bool {
    &&& after.faults() > before.faults()
    &&& nothing_lost(after.incoming(), before.incoming(), remote)
    &&& after.last_fault().kind() == IoErrorKind::UnexpectedEof
    &&& after.written() == before.written()
}

/// The connection failed in another way than by its end while something was waited for, and the
/// failure is told as `e`.
pub open spec fn broke_off<T: Transport>(
    before: T,
    after: T,
    remote: u32,
    e: TransportError,
) -> bool {
    &&& after.faults() > before.faults()
    &&& nothing_lost(after.incoming(), before.incoming(), remote)
    &&& e matches TransportError::Io(io) && io.kind == after.last_fault().kind()
    &&& after.last_fault().kind() != IoErrorKind::UnexpectedEof
    &&& after.written() == before.written()
}

/// What was read from a stream that sends the message `sent` in answer.
pub open spec fn step_made<T: Transport>(before: T, after: T, rest: Seq<u8>, sent: Seq<u8>) -> bool {
    &&& after.incoming() == rest
    &&& after.faults() == before.faults() ==> after.written() == before.written() + sent
        && after.held_back() == 0
}

impl RawStream {
    /// The next piece of output, or `None` where the service closes or the connection ends. The
    /// piece is acknowledged. A connection that fails otherwise is an error.
    pub fn next_chunk<T: Transport>(&mut self, transport: &mut T) -> (r: Result<
        Option<Vec<u8>>,
        ClientError,
    >)
        ensures
            final(self).local_id == old(self).local_id,
            final(transport).faults() >= old(transport).faults(),
            (r matches Err(e) && e.is_io()) ==> final(transport).faults() > old(transport).faults(),
            ({
                let event = next_data(old(transport).incoming(), old(self).remote_id);
                match r {
                    Ok(Some(v)) => (event matches Some(e) && e.data == Some(v@) && final(self).remote_id
                        == e.remote && step_made(
                        *old(transport),
                        *final(transport),
                        e.rest,
                        message_bytes(A_OKAY, old(self).local_id, e.remote, Seq::empty()),
                    )),
                    Ok(None) => cut_off(
                        *old(transport),
                        *final(transport),
                        old(self).remote_id,
                    ) || (event matches Some(e) && e.data is None && step_made(
                        *old(transport),
                        *final(transport),
                        e.rest,
                        message_bytes(A_CLSE, old(self).local_id, e.peer, Seq::empty()),
                    )),
                    Err(ClientError::Failed(m)) => exists|e: TransportError|
                        m@ == "stream error: "@ + #[trigger] e.text() && (broke_off(
                            *old(transport),
                            *final(transport),
                            old(self).remote_id,
                            e,
                        ) || !(e is Io) && event is None && final(transport).faults() == old(transport).faults()),
                    Err(ClientError::Transport(e)) => (e is Io) && (event matches Some(x) && x.data is Some),
                    Err(_) => false,
                }
            }),
    {
        let a = match await_data(transport, self.remote_id) {
            Ok(a) => a,
            Err(e) => {
                if is_eof(&e) {
                    return Ok(None);
                }
                let mut m = owned("stream error: ");
                m.append(e.message().as_str());
                assert(m@ == "stream error: "@ + e.text());
                return Err(ClientError::Failed(m));
            },
        };
        self.remote_id = a.remote;
        match a.data {
            Some(v) => {
                let empty: Vec<u8> = Vec::new();
                assert(empty@ =~= Seq::<u8>::empty());
                match send(transport, A_OKAY, self.local_id, self.remote_id, empty.as_slice()) {
                    Ok(()) => Ok(Some(v)),
                    Err(e) => Err(ClientError::Transport(e)),
                }
            },
            None => {
                send_anyway(transport, A_CLSE, self.local_id, a.peer);
                Ok(None)
            },
        }
    }
}

/// All the output of a service until it closes: the bytes, and the stream behind.
pub open spec fn raw_output(s: Seq<u8>, remote: u32) -> Option<(Seq<u8>, Seq<u8>)>
    decreases s.len(),
{
    proof {
        lemma_next_data_shrinks(s, remote);
    }
    match next_data(s, remote) {
        None => None,
        Some(e) => match e.data {
            Some(d) => match raw_output(e.rest, e.remote) {
                Some((more, rest)) => Some((d + more, rest)),
                None => None,
            },
            None => Some((Seq::empty(), e.rest)),
        },
    }
}

/// Whatever a service sends leaves the stream shorter.
pub proof fn lemma_next_data_shrinks(s: Seq<u8>, remote: u32)
    ensures
        next_data(s, remote) matches Some(e) ==> e.rest.len() + 24 <= s.len(),
    decreases s.len(),
{
    match message_in(s) {
        None => {},
        Some((h, _)) => {
            lemma_next_data_shrinks(after_message(s), h.arg0);
            lemma_next_data_shrinks(after_message(s), remote);
        },
    }
}

/// The first `k` pieces of a service's output, the stream behind them, and the number of the
/// service on the other side as of then.
pub open spec fn first_raw(s: Seq<u8>, remote: u32, k: nat) -> (Seq<u8>, Seq<u8>, u32)
    decreases k,
{
    if k == 0 {
        (Seq::empty(), s, remote)
    } else {
        let (data, rest, id) = first_raw(s, remote, (k - 1) as nat);
        match next_data(rest, id) {
            Some(e) => match e.data {
                Some(d) => (data + d, e.rest, e.remote),
                None => (data, rest, id),
            },
            None => (data, rest, id),
        }
    }
}

/// The first `k` pieces of a service's output are in the sink. Where they are told to be all, the
/// service closed behind them, or the connection came to its end and nothing was dropped.
pub open spec fn streamed<T: Transport>(
    k: nat,
    r: Result<usize, ClientError>,
    before: T,
    after: T,
    remote: u32,
    sink: Seq<u8>,
    sink_after: Seq<u8>,
) -> bool {
    let (data, rest, id) = first_raw(before.incoming(), remote, k);
    &&& sink_after == sink + data
    &&& r is Ok ==> {
        ||| next_data(rest, id) matches Some(e) && e.data is None && after.incoming() == e.rest
        ||| after.faults() > before.faults() && after.last_fault().kind()
            == IoErrorKind::UnexpectedEof && nothing_lost(after.incoming(), rest, id)
    }
}

/// Appends the output of a service to `sink`, byte for byte, and counts it.
pub fn stream_raw_to<T: Transport>(
    transport: &mut T,
    local_id: u32,
    remote_id: u32,
    sink: &mut Vec<u8>,
) -> (r: Result<usize, ClientError>)
    ensures
        final(transport).faults() >= old(transport).faults(),
        final(transport).faults() == old(transport).faults() ==> match raw_output(
            old(transport).incoming(),
            remote_id,
        ) {
            Some((data, rest)) => r == Ok::<usize, ClientError>(data.len() as usize)
                && final(sink)@ == old(sink)@ + data && final(transport).incoming() == rest,
            None => r matches Err(ClientError::Failed(_)),
        },
        r matches Ok(n) ==> final(sink)@.len() == old(sink)@.len() + n && final(sink)@.take(
            old(sink)@.len() as int,
        ) == old(sink)@,
        exists|k: nat| #[trigger]
            streamed(
                k,
                r,
                *old(transport),
                *final(transport),
                remote_id,
                old(sink)@,
                final(sink)@,
            ),
{
    let ghost mut k: nat = 0;
    let mut stream = RawStream { local_id, remote_id };
    let start: usize = sink.len();
    let ghost before = sink@;
    let ghost s0 = transport.incoming();
    proof {
        assert(before.take(start as int) =~= before);
        match raw_output(s0, remote_id) {
            Some((data, rest)) => {
                assert(Seq::<u8>::empty() + data =~= data);
            },
            None => {},
        }
        assert(sink@.skip(start as int) =~= Seq::<u8>::empty());
    }
    loop
        invariant
            before == old(sink)@,
            start == before.len(),
            s0 == old(transport).incoming(),
            sink@.len() >= start,
            sink@.take(start as int) == before,
            stream.local_id == local_id,
            transport.faults() >= old(transport).faults(),
            first_raw(s0, remote_id, k) == (
                sink@.skip(start as int),
                transport.incoming(),
                stream.remote_id,
            ),
            match raw_output(transport.incoming(), stream.remote_id) {
                Some((more, rest)) => raw_output(s0, remote_id) == Some(
                    (sink@.skip(start as int) + more, rest),
                ),
                None => raw_output(s0, remote_id) is None,
            },
        decreases transport.incoming().len(),
    {
        let ghost now = transport.incoming();
        let ghost rid = stream.remote_id;
        let ghost got = sink@;
        proof {
            lemma_next_data_shrinks(now, rid);
        }
        match stream.next_chunk(transport) {
            Ok(Some(v)) => {
                sink.extend_from_slice(v.as_slice());
                assert(sink@ =~= got + v@);
                proof {
                    k = k + 1;
                    assert(sink@.take(start as int) =~= got.take(start as int));
                    assert(sink@.skip(start as int) =~= got.skip(start as int) + v@);
                    match raw_output(transport.incoming(), stream.remote_id) {
                        Some((more, _)) => {
                            assert(got.skip(start as int) + (v@ + more) =~= sink@.skip(start as int)
                                + more);
                        },
                        None => {},
                    }
                }
            },
            Ok(None) => {
                proof {
                    assert(got.skip(start as int) + Seq::<u8>::empty() =~= got.skip(start as int));
                    assert(got =~= before + got.skip(start as int));
                }
                let n: usize = sink.len() - start;
                let r = Ok(n);
                assert(streamed(
                    k,
                    r,
                    *old(transport),
                    *transport,
                    remote_id,
                    old(sink)@,
                    sink@,
                ));
                return r;
            },
            Err(e) => {
                assert(got =~= before + got.skip(start as int));
                let r = Err(e);
                assert(streamed(
                    k,
                    r,
                    *old(transport),
                    *transport,
                    remote_id,
                    old(sink)@,
                    sink@,
                ));
                return r;
            },
        }
    }
}

/// Sends a piece of input to a service and waits. Gives whether the service takes more.
pub fn send_chunk<T: Transport>(
    transport: &mut T,
    local_id: u32,
    remote_id: u32,
    data: &[u8],
) -> (r: Result<bool, ClientError>)
    ensures
        final(transport).faults() >= old(transport).faults(),
        (r matches Err(e) && e.is_io()) <==> final(transport).faults() > old(transport).faults(),
        final(transport).faults() == old(transport).faults() ==> final(transport).written() == old(transport).written() + message_bytes(A_WRTE, local_id, remote_id, data@)
            && final(transport).held_back() == 0,
        grew_by_prefix(
            final(transport).written(),
            old(transport).written(),
            message_bytes(A_WRTE, local_id, remote_id, data@),
        ),
        match r {
            Ok(ok) => opened(old(transport).incoming()) matches Some((k, _, rest)) && k == ok && rest
                == final(transport).incoming(),
            Err(ClientError::Transport(e)) => e is Io || opened(old(transport).incoming()) is None,
            Err(_) => false,
        },
{
    match send(transport, A_WRTE, local_id, remote_id, data) {
        Ok(()) => {},
        Err(e) => {
            return Err(ClientError::Transport(e));
        },
    }
    let ghost message = message_bytes(A_WRTE, local_id, remote_id, data@);
    assert(message.take(message.len() as int) =~= message);
    loop
        invariant
            message == message_bytes(A_WRTE, local_id, remote_id, data@),
            message.take(message.len() as int) == message,
            transport.faults() == old(transport).faults(),
            transport.written() == old(transport).written() + message_bytes(
                A_WRTE,
                local_id,
                remote_id,
                data@,
            ),
            transport.held_back() == 0,
            opened(transport.incoming()) == opened(old(transport).incoming()),
        decreases transport.incoming().len(),
    {
        let (hdr, _payload) = match transport.recv_message() {
            Ok(m) => m,
            Err(e) => {
                return Err(ClientError::Transport(e));
            },
        };
        if hdr.command == A_OKAY {
            return Ok(true);
        }
        if hdr.command == A_CLSE {
            return Ok(false);
        }
    }
}

/// Tells a service that its input has ended.
pub fn end_input<T: Transport>(transport: &mut T, local_id: u32, remote_id: u32)
    ensures
        final(transport).incoming() == old(transport).incoming(),
        final(transport).faults() >= old(transport).faults(),
        final(transport).faults() == old(transport).faults() ==> final(transport).written() == old(transport).written() + message_bytes(A_CLSE, local_id, remote_id, Seq::empty())
            && final(transport).held_back() == 0,
{
    send_anyway(transport, A_CLSE, local_id, remote_id);
}

/// A piece of a shell's output.
#[derive(Debug, Clone, PartialEq, Eq)]
pub enum ShellOutput {
    Stdout(Vec<u8>),
    Stderr(Vec<u8>),
}

/// What a [`ShellOutput`] holds.
pub enum ShellChunk {
    Stdout(Seq<u8>),
    Stderr(Seq<u8>),
}

impl View for ShellOutput {
    type V = ShellChunk;

    open spec fn view(&self) -> ShellChunk {
        match *self {
            ShellOutput::Stdout(v) => ShellChunk::Stdout(v@),
            ShellOutput::Stderr(v) => ShellChunk::Stderr(v@),
        }
    }
}

impl ShellChunk {
    /// The bytes, whichever output they are for.
    pub open spec fn bytes(self) -> Seq<u8> {
        match self {
            ShellChunk::Stdout(d) => d,
            ShellChunk::Stderr(d) => d,
        }
    }
}

/// The pieces of a shell's output.
pub open spec fn shell_chunks(v: Seq<ShellOutput>) -> Seq<ShellChunk> {
    Seq::new(v.len(), |i: int| v[i]@)
}

/// The output and the exit code in a run of shell packets. From the first byte on that is no
/// packet, everything is plain output; behind an exit code nothing counts.
pub open spec fn shell_content(s: Seq<u8>) -> (Seq<ShellChunk>, Option<u8>)
    decreases s.len(),
{
    if s.len() == 0 {
        (Seq::empty(), None)
    } else {
        match parse_spec(s) {
            Err(_) => (seq![ShellChunk::Stdout(s)], None),
            Ok((p, n)) => match p {
                PacketModel::ExitCode(c) => (Seq::empty(), Some(c)),
                PacketModel::Stdout(d) => {
                    let (more, exit) = shell_content(s.skip(n));
                    (seq![ShellChunk::Stdout(d)] + more, exit)
                },
                PacketModel::Stderr(d) => {
                    let (more, exit) = shell_content(s.skip(n));
                    (seq![ShellChunk::Stderr(d)] + more, exit)
                },
                _ => shell_content(s.skip(n)),
            },
        }
    }
}

/// Takes a run of shell packets apart.
pub fn split_shell_output(payload: &[u8]) -> (r: (Vec<ShellOutput>, Option<u8>))
    ensures
        shell_content(payload@) == (shell_chunks(r.0@), r.1),
{
    let mut out: Vec<ShellOutput> = Vec::new();
    let mut rest = payload;
    proof {
        let (all, exit) = shell_content(payload@);
        assert(shell_chunks(out@) =~= Seq::<ShellChunk>::empty());
        assert(shell_chunks(out@) + all =~= all);
    }
    while rest.len() > 0
        invariant
            ({
                let (all, exit) = shell_content(payload@);
                let (more, exit2) = shell_content(rest@);
                all == shell_chunks(out@) + more && exit == exit2
            }),
        decreases rest@.len(),
    {
        let ghost now = rest@;
        let ghost before = shell_chunks(out@);
        match ShellV2Packet::parse(rest) {
            Ok((packet, consumed)) => {
                let next = slice_subrange(rest, consumed, rest.len());
                assert(next@ =~= now.skip(consumed as int));
                match packet {
                    ShellV2Packet::Stdout(data) => {
                        out.push(ShellOutput::Stdout(slice_to_vec(data)));
                        assert(shell_chunks(out@) =~= before.push(ShellChunk::Stdout(data@)));
                        assert(shell_chunks(out@) + shell_content(next@).0 =~= before + (
                        seq![ShellChunk::Stdout(data@)] + shell_content(next@).0));
                    },
                    ShellV2Packet::Stderr(data) => {
                        out.push(ShellOutput::Stderr(slice_to_vec(data)));
                        assert(shell_chunks(out@) =~= before.push(ShellChunk::Stderr(data@)));
                        assert(shell_chunks(out@) + shell_content(next@).0 =~= before + (
                        seq![ShellChunk::Stderr(data@)] + shell_content(next@).0));
                    },
                    ShellV2Packet::ExitCode(code) => {
                        assert(before + Seq::<ShellChunk>::empty() =~= before);
                        return (out, Some(code));
                    },
                    _ => {},
                }
                rest = next;
            },
            Err(_) => {
                out.push(ShellOutput::Stdout(slice_to_vec(rest)));
                assert(shell_chunks(out@) =~= before + seq![ShellChunk::Stdout(now)]);
                return (out, None);
            },
        }
    }
    proof {
        assert(shell_chunks(out@) + Seq::<ShellChunk>::empty() =~= shell_chunks(out@));
    }
    (out, None)
}

/// Appends a piece of output to what is captured of a shell's output.
pub fn capture(captured: &mut Vec<u8>, chunk: &ShellOutput)
    ensures
        final(captured)@ == old(captured)@ + chunk@.bytes(),
{
    match chunk {
        ShellOutput::Stdout(v) => {
            captured.extend_from_slice(v.as_slice());
        },
        ShellOutput::Stderr(v) => {
            captured.extend_from_slice(v.as_slice());
        },
    }
    assert(captured@ =~= old(captured)@ + chunk@.bytes());
}

/// A shell service, second version.
#[derive(Debug, Clone, Copy)]
pub struct ShellStream {
    pub local_id: u32,
    pub remote_id: u32,
}

/// What a shell did next.
pub enum ShellEvent {
    /// It wrote this, and then ended with this exit code if there is one.
    Output { chunks: Vec<ShellOutput>, exit: Option<u8> },
    /// It closed, or the connection ended.
    End,
}

impl ShellStream {
    /// What the shell does next. Output is acknowledged before it is looked at. A connection that
    /// fails otherwise than by its end is an error.
    pub fn next_event<T: Transport>(&mut self, transport: &mut T) -> (r: Result<
        ShellEvent,
        TransportError,
    >)
        ensures
            final(self).local_id == old(self).local_id,
            final(transport).faults() >= old(transport).faults(),
            (r matches Err(e) && e is Io) ==> final(transport).faults() > old(transport).faults(),
            ({
                let event = next_data(old(transport).incoming(), old(self).remote_id);
                match r {
                    Ok(ShellEvent::Output { chunks, exit }) => (event matches Some(e) && (
                    e.data matches Some(d) && shell_content(d) == (shell_chunks(chunks@), exit)
                        && final(self).remote_id == e.remote && step_made(
                        *old(transport),
                        *final(transport),
                        e.rest,
                        message_bytes(A_OKAY, old(self).local_id, e.remote, Seq::empty()),
                    ))),
                    Ok(ShellEvent::End) => cut_off(
                        *old(transport),
                        *final(transport),
                        old(self).remote_id,
                    ) || (event matches Some(e) && e.data is None && step_made(
                        *old(transport),
                        *final(transport),
                        e.rest,
                        message_bytes(A_CLSE, old(self).local_id, e.remote, Seq::empty()),
                    )),
                    Err(e) => broke_off(
                        *old(transport),
                        *final(transport),
                        old(self).remote_id,
                        e,
                    ) || !(e is Io) && event is None && final(transport).faults() == old(transport).faults(),
                }
            }),
    {
        let a = match await_data(transport, self.remote_id) {
            Ok(a) => a,
            Err(e) => {
                if is_eof(&e) {
                    return Ok(ShellEvent::End);
                }
                return Err(e);
            },
        };
        self.remote_id = a.remote;
        match a.data {
            Some(v) => {
                send_anyway(transport, A_OKAY, self.local_id, self.remote_id);
                let (chunks, exit) = split_shell_output(v.as_slice());
                Ok(ShellEvent::Output { chunks, exit })
            },
            None => {
                send_anyway(transport, A_CLSE, self.local_id, self.remote_id);
                Ok(ShellEvent::End)
            },
        }
    }
}

/// The device offers the second version of the shell, and so does this host.
pub open spec fn offers_shell(banner: Seq<char>) -> bool {
    banner_features(banner).contains("shell_v2"@) && host_features().contains("shell_v2"@)
}

/// The service to open for a shell command. Only the second version of the shell is spoken, so
/// a device that does not offer it is refused.
pub fn shell_service_string(banner: &str, cmd: &str) -> (r: Result<String, String>)
    ensures
        match r {
            Ok(s) => offers_shell(banner@) && s@ == "shell,v2,raw:"@ + cmd@,
            Err(m) => !offers_shell(banner@) && m@ == "device does not advertise shell_v2 (banner: "@
                + banner@ + "); shell V1 fallback is not implemented"@,
        },
{
    let features = parse_banner_features(banner);
    if !can_use_feature(features.as_slice(), "shell_v2") {
        let mut m = owned("device does not advertise shell_v2 (banner: ");
        m.append(banner);
        m.append("); shell V1 fallback is not implemented");
        return Err(m);
    }
    let mut s = owned("shell,v2,raw:");
    s.append(cmd);
    Ok(s)
}

/// Opens a shell that runs a command.
pub fn open_shell<T: Transport>(transport: &mut T, banner: &str, cmd: &str) -> (r: Result<
    ShellStream,
    ClientError,
>)
    ensures
        final(transport).faults() >= old(transport).faults(),
        (r matches Err(e) && e.is_io()) <==> final(transport).faults() > old(transport).faults(),
        !offers_shell(banner@) ==> *final(transport) == *old(transport) && (
        r matches Err(ClientError::Failed(_))),
        offers_shell(banner@) && final(transport).faults() == old(transport).faults() ==> {
            &&& final(transport).written() == old(transport).written() + message_bytes(
                A_OPEN,
                1,
                0,
                encode_utf8("shell,v2,raw:"@ + cmd@),
            )
            &&& final(transport).held_back() == 0
            &&& match opened(old(transport).incoming()) {
                Some((ok, remote, rest)) => final(transport).incoming() == rest && if ok {
                    r matches Ok(s) && s.local_id == 1 && s.remote_id == remote
                } else {
                    r matches Err(ClientError::Failed(m)) && m@ == closed_text(
                        "shell,v2,raw:"@ + cmd@,
                    )
                },
                None => r matches Err(ClientError::Transport(_)),
            }
        },
{
    let dest = match shell_service_string(banner, cmd) {
        Ok(s) => s,
        Err(m) => {
            return Err(ClientError::Failed(m));
        },
    };
    let (local_id, remote_id) = open_service(transport, dest.as_str(), 1)?;
    Ok(ShellStream { local_id, remote_id })
}

/// What a device told of itself in the answer to a CNXN.
#[derive(Debug, Clone)]
pub struct DeviceInfo {
    pub banner: String,
}

/// How far a handshake came.
#[derive(Debug)]
pub enum Handshake {
    /// The device accepted.
    Connected(DeviceInfo),
    /// The device wants the connection to be encrypted first.
    TlsRequired,
}

/// How a device ends a handshake.
pub enum HandshakeEnd {
    /// With its banner.
    Connected(Seq<u8>),
    /// With the demand for TLS.
    Tls,
    /// With a message that has no place there.
    Unexpected(u32),
}

/// What a device says in a handshake.
pub struct HandshakeModel {
    /// The tokens to be signed, in order.
    pub tokens: Seq<Seq<u8>>,
    /// How it ends; `None` where no sound message ends it.
    pub end: Option<HandshakeEnd>,
    /// The stream behind.
    pub rest: Seq<u8>,
}

/// What a device says in a handshake.
pub open spec fn handshake_in(s: Seq<u8>) -> HandshakeModel
    decreases s.len(),
{
    match message_in(s) {
        None => HandshakeModel { tokens: Seq::empty(), end: None, rest: s },
        Some((h, p)) => if h.command == A_AUTH && h.arg0 == A_AUTH_TOKEN {
            let m = handshake_in(after_message(s));
            HandshakeModel { tokens: seq![p] + m.tokens, end: m.end, rest: m.rest }
        } else {
            HandshakeModel {
                tokens: Seq::empty(),
                end: Some(
                    if h.command == A_CNXN {
                        HandshakeEnd::Connected(p)
                    } else if h.command == A_STLS {
                        HandshakeEnd::Tls
                    } else {
                        HandshakeEnd::Unexpected(h.command)
                    },
                ),
                rest: after_message(s),
            }
        },
    }
}

/// The state of a responder with `count` keys after `k` tokens more.
pub open spec fn responder_after(count: int, next: int, sent: bool, k: nat) -> (int, bool)
    decreases k,
{
    if k == 0 {
        (next, sent)
    } else {
        let (n, s) = responder_after(count, next, sent, (k - 1) as nat);
        let (_, n2, s2) = answer_step(count, n, s);
        (n2, s2)
    }
}

/// `m` is the answer that a responder in this state gives to a token.
pub open spec fn is_answer(
    keys: Seq<AuthModel>,
    state: (int, bool),
    token: Seq<u8>,
    m: Result<Message, AuthErrorModel>,
) -> bool {
    match answer_step(keys.len() as int, state.0, state.1).0 {
        Answer::Signature(i) => is_signature_message(keys[i], token, m),
        Answer::PublicKey => is_rsakey_message(keys[0], m),
    }
}

/// `out` is `before` and a message behind it.
pub open spec fn ends_with_message(out: Seq<u8>, before: Seq<u8>, m: Message) -> bool {
    out == before + (header_bytes(m.0) + m.1)
}

/// `out` is made of the answers to the tokens, in order, by a responder that starts in this
/// state.
pub open spec fn are_answers(
    keys: Seq<AuthModel>,
    next: int,
    sent: bool,
    tokens: Seq<Seq<u8>>,
    out: Seq<u8>,
) -> bool
    decreases tokens.len(),
{
    if tokens.len() == 0 {
        out.len() == 0
    } else {
        exists|before: Seq<u8>, m: Message|
            #[trigger] ends_with_message(out, before, m) && are_answers(
                keys,
                next,
                sent,
                tokens.drop_last(),
                before,
            ) && is_answer(
                keys,
                responder_after(keys.len() as int, next, sent, (tokens.len() - 1) as nat),
                tokens.last(),
                Ok(m),
            )
    }
}

proof fn lemma_one_more_answer(
    keys: Seq<AuthModel>,
    next: int,
    sent: bool,
    tokens: Seq<Seq<u8>>,
    out: Seq<u8>,
    token: Seq<u8>,
    m: Message,
)
    requires
        are_answers(keys, next, sent, tokens, out),
        is_answer(
            keys,
            responder_after(keys.len() as int, next, sent, tokens.len()),
            token,
            Ok(m),
        ),
    ensures
        are_answers(keys, next, sent, tokens.push(token), out + (header_bytes(m.0) + m.1)),
{
    let all = tokens.push(token);
    assert(all.drop_last() =~= tokens);
    assert(ends_with_message(out + (header_bytes(m.0) + m.1), out, m));
}

/// What a client has sent in a handshake: the CNXN, and the answers to the tokens.
pub open spec fn handshake_written(
    cnxn_payload: Seq<u8>,
    keys: Seq<AuthModel>,
    next: int,
    sent: bool,
    tokens: Seq<Seq<u8>>,
    written: Seq<u8>,
) -> bool {
    let cnxn = message_bytes(A_CNXN, ADB_VERSION, MAX_PAYLOAD_V2, cnxn_payload);
    exists|out: Seq<u8>|
        written == cnxn + out && #[trigger] are_answers(keys, next, sent, tokens, out)
}

/// The text of the error for a message that has no place in a handshake.
pub open spec fn unexpected_text(command: u32) -> Seq<char> {
    "Unexpected handshake response: cmd="@ + hex_text(command)
}

/// Shakes hands with a device: sends a CNXN, and answers each token until the device accepts,
/// demands TLS, or says something else.
pub fn handshake<T: Transport>(
    transport: &mut T,
    cnxn_payload: &[u8],
    responder: &mut AuthResponder,
) -> (r: Result<Handshake, ClientError>)
    requires
        old(responder).wf(),
        old(responder).key_models().len() > 0,
    ensures
        final(responder).wf(),
        final(responder).key_models() == old(responder).key_models(),
        final(transport).faults() >= old(transport).faults(),
        (r matches Err(e) && e.is_io()) <==> final(transport).faults() > old(transport).faults(),
        ({
            let m = handshake_in(old(transport).incoming());
            let done = final(transport).incoming() == m.rest && final(transport).held_back() == 0
                && exists|w: Seq<u8>|
                final(transport).written() == old(transport).written() + w
                    && #[trigger] handshake_written(
                    cnxn_payload@,
                    old(responder).key_models(),
                    old(responder).next(),
                    old(responder).sent(),
                    m.tokens,
                    w,
                );
            match r {
                Ok(Handshake::Connected(info)) => done && (m.end matches Some(
                    HandshakeEnd::Connected(p),
                ) && info.banner@ == lossy_text(p)),
                Ok(Handshake::TlsRequired) => done && m.end == Some(HandshakeEnd::Tls),
                Err(ClientError::Failed(t)) => done && (m.end matches Some(
                    HandshakeEnd::Unexpected(c),
                ) && t@ == unexpected_text(c)),
                Err(ClientError::Transport(e)) => e is Io || m.end is None,
                Err(ClientError::Auth(e)) => exists|i: int|
                    0 <= i < m.tokens.len() && is_answer(
                        old(responder).key_models(),
                        responder_after(
                            old(responder).key_models().len() as int,
                            old(responder).next(),
                            old(responder).sent(),
                            i as nat,
                        ),
                        #[trigger] m.tokens[i],
                        Err(e@),
                    ),
            }
        }),
{
    let ghost start = transport.incoming();
    let ghost base = transport.written();
    let ghost keys = responder.key_models();
    let ghost next = responder.next();
    let ghost sent = responder.sent();
    let ghost cnxn = message_bytes(A_CNXN, ADB_VERSION, MAX_PAYLOAD_V2, cnxn_payload@);
    let ghost all = handshake_in(start);
    let ghost mut tokens: Seq<Seq<u8>> = Seq::empty();
    let ghost mut out: Seq<u8> = Seq::empty();
    match send(transport, A_CNXN, ADB_VERSION, MAX_PAYLOAD_V2, cnxn_payload) {
        Ok(()) => {},
        Err(e) => {
            return Err(ClientError::Transport(e));
        },
    }
    assert(base + (cnxn + out) =~= base + cnxn);
    assert(tokens + all.tokens =~= all.tokens);
    loop
        invariant
            start == old(transport).incoming(),
            base == old(transport).written(),
            keys == old(responder).key_models(),
            next == old(responder).next(),
            sent == old(responder).sent(),
            cnxn == message_bytes(A_CNXN, ADB_VERSION, MAX_PAYLOAD_V2, cnxn_payload@),
            all == handshake_in(start),
            keys.len() > 0,
            responder.wf(),
            responder.key_models() == keys,
            (responder.next(), responder.sent()) == responder_after(
                keys.len() as int,
                next,
                sent,
                tokens.len(),
            ),
            transport.faults() == old(transport).faults(),
            transport.written() == base + (cnxn + out),
            transport.held_back() == 0,
            are_answers(keys, next, sent, tokens, out),
            ({
                let m = handshake_in(transport.incoming());
                all.tokens == tokens + m.tokens && all.end == m.end && all.rest == m.rest
            }),
        decreases transport.incoming().len(),
    {
        let ghost now = transport.incoming();
        let (hdr, payload) = match transport.recv_message() {
            Ok(m) => m,
            Err(e) => {
                return Err(ClientError::Transport(e));
            },
        };
        if hdr.command == A_AUTH && hdr.arg0 == A_AUTH_TOKEN {
            let ghost state = (responder.next(), responder.sent());
            let ghost later = handshake_in(after_message(now));
            let ghost before = tokens;
            assert(before + (seq![payload@] + later.tokens) =~= before.push(payload@)
                + later.tokens);
            assert(all.tokens[before.len() as int] == payload@);
            let answer = match responder.respond_to_token(payload.as_slice()) {
                Ok(a) => a,
                Err(e) => {
                    assert(is_answer(keys, state, all.tokens[before.len() as int], Err(e@)));
                    return Err(ClientError::Auth(e));
                },
            };
            if let Some((header, body)) = answer {
                match transport.send_message(&header, body.as_slice()) {
                    Ok(()) => {},
                    Err(e) => {
                        return Err(ClientError::Transport(e));
                    },
                }
                proof {
                    let m: Message = (header, body@);
                    let out_before = out;
                    tokens = before.push(payload@);
                    out = out_before + (header_bytes(m.0) + m.1);
                    assert(is_answer(keys, state, payload@, Ok(m)));
                    lemma_one_more_answer(keys, next, sent, before, out_before, payload@, m);
                    assert(base + (cnxn + out_before) + (header_bytes(m.0) + m.1) =~= base + (cnxn
                        + out));
                }
            }
        } else {
            proof {
                assert(tokens + Seq::<Seq<u8>>::empty() =~= tokens);
                assert(are_answers(keys, next, sent, all.tokens, out));
                assert(handshake_written(
                    cnxn_payload@,
                    keys,
                    next,
                    sent,
                    all.tokens,
                    cnxn + out,
                ));
            }
            if hdr.command == A_CNXN {
                let banner = from_utf8_lossy(payload.as_slice());
                return Ok(Handshake::Connected(DeviceInfo { banner }));
            }
            if hdr.command == A_STLS {
                return Ok(Handshake::TlsRequired);
            }
            let mut m = owned("Unexpected handshake response: cmd=");
            m.append("0x");
            m.append(number(hdr.command as u64, 16).as_str());
            assert(m@ =~= unexpected_text(hdr.command));
            return Err(ClientError::Failed(m));
        }
    }
}

/// The text of the error for an encrypted handshake that is not accepted.
pub open spec fn unexpected_tls_text(command: u32) -> Seq<char> {
    "Unexpected handshake response after TLS upgrade: cmd="@ + hex_text(command)
}

/// Shakes hands again over the encrypted connection, where nothing but acceptance will do.
pub fn encrypted_handshake<T: Transport>(transport: &mut T, cnxn_payload: &[u8]) -> (r: Result<
    DeviceInfo,
    ClientError,
>)
    ensures
        final(transport).faults() >= old(transport).faults(),
        (r matches Err(e) && e.is_io()) <==> final(transport).faults() > old(transport).faults(),
        final(transport).faults() == old(transport).faults() ==> final(transport).written() == old(transport).written() + message_bytes(A_CNXN, ADB_VERSION, MAX_PAYLOAD_V2, cnxn_payload@)
            && final(transport).held_back() == 0,
        grew_by_prefix(
            final(transport).written(),
            old(transport).written(),
            message_bytes(A_CNXN, ADB_VERSION, MAX_PAYLOAD_V2, cnxn_payload@),
        ),
        ({
            let m = message_in(old(transport).incoming());
            match r {
                Ok(info) => (m matches Some((h, p)) && h.command == A_CNXN && info.banner@
                    == lossy_text(p)) && final(transport).incoming() == after_message(
                    old(transport).incoming(),
                ),
                Err(ClientError::Failed(t)) => (m matches Some((h, _)) && h.command != A_CNXN && t@
                    == unexpected_tls_text(h.command)) && final(transport).incoming()
                    == after_message(old(transport).incoming()),
                Err(ClientError::Transport(e)) => e is Io || m is None,
                Err(_) => false,
            }
        }),
{
    match send(transport, A_CNXN, ADB_VERSION, MAX_PAYLOAD_V2, cnxn_payload) {
        Ok(()) => {},
        Err(e) => {
            return Err(ClientError::Transport(e));
        },
    }
    let ghost message = message_bytes(A_CNXN, ADB_VERSION, MAX_PAYLOAD_V2, cnxn_payload@);
    assert(message.take(message.len() as int) =~= message);
    let (hdr, payload) = match transport.recv_message() {
        Ok(m) => m,
        Err(e) => {
            return Err(ClientError::Transport(e));
        },
    };
    if hdr.command != A_CNXN {
        let mut m = owned("Unexpected handshake response after TLS upgrade: cmd=");
        m.append("0x");
        m.append(number(hdr.command as u64, 16).as_str());
        assert(m@ =~= unexpected_tls_text(hdr.command));
        return Err(ClientError::Failed(m));
    }
    Ok(DeviceInfo { banner: from_utf8_lossy(payload.as_slice()) })
}

/// The packets of some output, one after another.
pub open spec fn output_packets(chunks: Seq<ShellChunk>) -> Seq<u8>
    decreases chunks.len(),
{
    if chunks.len() == 0 {
        Seq::empty()
    } else {
        packet_bytes(
            match chunks[0] {
                ShellChunk::Stdout(d) => PacketModel::Stdout(d),
                ShellChunk::Stderr(d) => PacketModel::Stderr(d),
            },
        ) + output_packets(chunks.skip(1))
    }
}

/// The output that a shell sends comes out as it was sent, stream by stream and in order, and the
/// exit code behind it is the one that was sent, whatever it is. Nothing behind an exit code counts.
pub proof fn shell_output_is_told(chunks: Seq<ShellChunk>, code: u8, rest: Seq<u8>)
    requires
        forall|i: int| 0 <= i < chunks.len() ==> (#[trigger] chunks[i]).bytes().len() < 0x1_0000_0000,
    ensures
        shell_content(output_packets(chunks)) == (chunks, None::<u8>),
        shell_content(
            output_packets(chunks) + packet_bytes(PacketModel::ExitCode(code)) + rest,
        ) == (chunks, Some(code)),
    decreases chunks.len(),
{
    let exit = packet_bytes(PacketModel::ExitCode(code)) + rest;
    let whole = output_packets(chunks) + packet_bytes(PacketModel::ExitCode(code)) + rest;
    if chunks.len() == 0 {
        packet_round_trip(PacketModel::ExitCode(code), rest);
        assert(whole =~= exit);
        assert(whole.len() > 0);
        assert(shell_content(output_packets(chunks)).0 =~= chunks);
        assert(shell_content(whole).0 =~= chunks);
    } else {
        let p = match chunks[0] {
            ShellChunk::Stdout(d) => PacketModel::Stdout(d),
            ShellChunk::Stderr(d) => PacketModel::Stderr(d),
        };
        let left = chunks.skip(1);
        let more = output_packets(left);
        let later = more + packet_bytes(PacketModel::ExitCode(code)) + rest;
        let head = packet_bytes(p);
        assert(payload_of(p) == chunks[0].bytes());
        assert forall|i: int| 0 <= i < left.len() implies (#[trigger] left[i]).bytes().len()
            < 0x1_0000_0000 by {
            assert(left[i] == chunks[i + 1]);
        }
        shell_output_is_told(left, code, rest);
        packet_round_trip(p, more);
        packet_round_trip(p, later);
        assert(whole =~= head + later);
        assert((head + later).skip(head.len() as int) =~= later);
        assert((head + more).skip(head.len() as int) =~= more);
        assert(head.len() > 0);
        assert(seq![chunks[0]] + left =~= chunks);
    }
}

/// Output that is no packet is told as it is, and packets of other streams are passed over.
pub proof fn other_shell_bytes(s: Seq<u8>, p: PacketModel, rest: Seq<u8>)
    requires
        payload_of(p).len() < 0x1_0000_0000,
    ensures
        s.len() > 0 && parse_spec(s) is Err ==> shell_content(s) == (
            seq![ShellChunk::Stdout(s)],
            None::<u8>,
        ),
        !(p is Stdout || p is Stderr || p is ExitCode) ==> shell_content(packet_bytes(p) + rest)
            == shell_content(rest),
{
    packet_round_trip(p, rest);
    assert((packet_bytes(p) + rest).skip(packet_bytes(p).len() as int) =~= rest);
    assert(packet_bytes(p).len() > 0);
}

proof fn lemma_stream_of_one(x: Sent, rest: Seq<u8>)
    requires
        x.payload.len() <= 1024 * 1024,
    ensures
        ({
            let s = message_bytes(x.command, x.arg0, x.arg1, x.payload) + rest;
            message_in(s) matches Some((h, p)) && h.command == x.command && h.arg0 == x.arg0 && p
                == x.payload && after_message(s) == rest
        }),
{
    let one = seq![x];
    assert(one.skip(1) =~= Seq::<Sent>::empty());
    lemma_stream_step(one, rest);
    assert(stream_of(one) =~= message_bytes(x.command, x.arg0, x.arg1, x.payload));
    assert(stream_of(one.skip(1)) + rest =~= rest);
}

/// Messages of data and acknowledgements only.
pub open spec fn are_data(ms: Seq<Sent>) -> bool {
    forall|i: int|
        0 <= i < ms.len() ==> (#[trigger] ms[i]).command == 0x4554_5257 || ms[i].command
            == 0x5941_4b4f
}

/// An acknowledgement for each message of data, to the one that sent it.
pub open spec fn acks_for(ms: Seq<Sent>, local_id: u32) -> Seq<u8>
    decreases ms.len(),
{
    if ms.len() == 0 {
        Seq::empty()
    } else {
        (if ms[0].command == 0x4554_5257 {
            message_bytes(0x5941_4b4f, local_id, ms[0].arg0, Seq::empty())
        } else {
            Seq::empty()
        }) + acks_for(ms.skip(1), local_id)
    }
}

/// What a service sends until it closes is received whole: the payloads of its messages of data,
/// put together. Each is acknowledged, the close is answered, and what is behind is left.
pub proof fn service_data_is_received(
    ms: Seq<Sent>,
    close: Sent,
    rest: Seq<u8>,
    local_id: u32,
    remote: u32,
)
    requires
        payloads_fit(ms),
        are_data(ms),
        close.command == 0x4553_4c43,
        close.payload.len() <= 1024 * 1024,
    ensures
        ({
            let s = stream_of(ms) + (message_bytes(
                0x4553_4c43,
                close.arg0,
                close.arg1,
                close.payload,
            ) + rest);
            &&& all_data(s, local_id) == Some(
                (
                    data_in(ms),
                    acks_for(ms, local_id) + message_bytes(
                        0x4553_4c43,
                        local_id,
                        close.arg0,
                        Seq::empty(),
                    ),
                    rest,
                ),
            )
            &&& raw_output(s, remote) == Some((data_in(ms), rest))
        }),
    decreases ms.len(),
{
    let end = message_bytes(0x4553_4c43, close.arg0, close.arg1, close.payload);
    let tail = end + rest;
    let s = stream_of(ms) + tail;
    let answer = message_bytes(0x4553_4c43, local_id, close.arg0, Seq::empty());
    if ms.len() == 0 {
        assert(s =~= tail);
        lemma_stream_of_one(close, rest);
        assert(acks_for(ms, local_id) + answer =~= answer);
    } else {
        let left = ms.skip(1);
        let x = ms[0];
        lemma_stream_step(ms, tail);
        assert forall|i: int| 0 <= i < left.len() implies (#[trigger] left[i]).command == 0x4554_5257
            || left[i].command == 0x5941_4b4f by {
            assert(left[i] == ms[i + 1]);
        }
        service_data_is_received(left, close, rest, local_id, remote);
        service_data_is_received(left, close, rest, local_id, x.arg0);
        if x.command == 0x4554_5257 {
            let ack = message_bytes(0x5941_4b4f, local_id, x.arg0, Seq::empty());
            assert(ack + (acks_for(left, local_id) + answer) =~= acks_for(ms, local_id) + answer);
            assert(data_in(ms) == x.payload + data_in(left));
        } else {
            assert(acks_for(ms, local_id) =~= acks_for(left, local_id));
            assert(data_in(ms) =~= data_in(left));
            lemma_raw_skips(s, remote, x.arg0);
        }
    }
}

proof fn lemma_raw_skips(s: Seq<u8>, remote: u32, id: u32)
    requires
        message_in(s) matches Some((h, p)) && h.command == 0x5941_4b4f && h.arg0 == id,
    ensures
        raw_output(s, remote) == raw_output(after_message(s), id),
{
    assert(next_data(s, remote) == next_data(after_message(s), id));
}

/// Messages that neither accept nor close.
pub open spec fn are_others(ms: Seq<Sent>) -> bool {
    forall|i: int|
        0 <= i < ms.len() ==> (#[trigger] ms[i]).command != 0x5941_4b4f && ms[i].command
            != 0x4553_4c43
}

/// A service is open as soon as the device accepts, under the number that the device names, and
/// is not where the device closes; messages before that are passed over. Data that comes before
/// an acknowledgement is acknowledged itself.
pub proof fn accepted_service_is_open(
    ms: Seq<Sent>,
    x: Sent,
    rest: Seq<u8>,
    local_id: u32,
)
    requires
        payloads_fit(ms),
        are_others(ms),
        x.command == 0x5941_4b4f || x.command == 0x4553_4c43,
        x.payload.len() <= 1024 * 1024,
    ensures
        ({
            let s = stream_of(ms) + (message_bytes(x.command, x.arg0, x.arg1, x.payload) + rest);
            &&& opened(s) == Some((x.command == 0x5941_4b4f, x.arg0, rest))
            &&& acknowledged(s, local_id) == Some(
                (x.command == 0x5941_4b4f, acks_for(ms, local_id), rest),
            )
        }),
    decreases ms.len(),
{
    let tail = message_bytes(x.command, x.arg0, x.arg1, x.payload) + rest;
    let s = stream_of(ms) + tail;
    if ms.len() == 0 {
        assert(s =~= tail);
        lemma_stream_of_one(x, rest);
    } else {
        let left = ms.skip(1);
        lemma_stream_step(ms, tail);
        assert(ms[0].command != 0x5941_4b4f && ms[0].command != 0x4553_4c43);
        assert forall|i: int| 0 <= i < left.len() implies (#[trigger] left[i]).command != 0x5941_4b4f
            && left[i].command != 0x4553_4c43 by {
            assert(left[i] == ms[i + 1]);
        }
        accepted_service_is_open(left, x, rest, local_id);
        if ms[0].command != 0x4554_5257 {
            assert(acks_for(ms, local_id) =~= acks_for(left, local_id));
        }
    }
}

/// Messages that each hold a token to be signed.
pub open spec fn token_messages(tokens: Seq<Seq<u8>>, arg1: u32) -> Seq<Sent> {
    Seq::new(
        tokens.len(),
        |i: int| Sent { command: 0x4854_5541, arg0: 1, arg1, payload: tokens[i] },
    )
}

/// A handshake is the tokens that the device asks to be signed, in their order, and its end: the
/// banner of a device that is connected, a call for encryption, or something unexpected.
pub proof fn handshake_is_told(tokens: Seq<Seq<u8>>, arg1: u32, x: Sent, rest: Seq<u8>)
    requires
        payloads_fit(token_messages(tokens, arg1)),
        x.payload.len() <= 1024 * 1024,
        !(x.command == 0x4854_5541 && x.arg0 == 1),
    ensures
        handshake_in(
            stream_of(token_messages(tokens, arg1)) + (message_bytes(
                x.command,
                x.arg0,
                x.arg1,
                x.payload,
            ) + rest),
        ) == (HandshakeModel {
            tokens,
            end: Some(
                if x.command == 0x4e58_4e43 {
                    HandshakeEnd::Connected(x.payload)
                } else if x.command == 0x534c_5453 {
                    HandshakeEnd::Tls
                } else {
                    HandshakeEnd::Unexpected(x.command)
                },
            ),
            rest,
        }),
    decreases tokens.len(),
{
    let ms = token_messages(tokens, arg1);
    let tail = message_bytes(x.command, x.arg0, x.arg1, x.payload) + rest;
    let s = stream_of(ms) + tail;
    if tokens.len() == 0 {
        assert(s =~= tail);
        lemma_stream_of_one(x, rest);
        assert(tokens =~= Seq::<Seq<u8>>::empty());
    } else {
        let left = tokens.skip(1);
        lemma_stream_step(ms, tail);
        assert(ms.skip(1) =~= token_messages(left, arg1));
        handshake_is_told(left, arg1, x, rest);
        assert(seq![tokens[0]] + left =~= tokens);
    }
}

} // verus!
