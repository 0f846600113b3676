//! Passing traffic between a client of the host server and a device.

use crate::constants::{A_CLSE, A_CNXN, A_OKAY, A_OPEN, A_WRTE};
use crate::header::{decode_spec, encode_message, header_bytes, message_bytes, AdbMessageHeader, HeaderError};
use crate::host_service::probe_message;
use crate::session::send;
use crate::sync_stream::joined_chunks;
use crate::text::owned;
use crate::transport::{
    after_message, all_passed_on, data_in, ends_within, grew_by_prefix, is_tail, lemma_stream_push, lemma_stream_step,
    lemma_tail_of_tail, message_in, message_size, payloads_fit, received, stream_of, too_large_text, Fault,
    IoErrorKind, Received, Sent, Transport, TransportError,
};
use vstd::prelude::*;
use vstd::slice::slice_subrange;
use vstd::utf8::encode_utf8;

verus! {

/// The number that a forwarded connection has on this side.
pub const FORWARD_LOCAL_ID: u32 = 1;

/// The stream behind a device's answer to the probe, if it is one.
pub open spec fn behind_banner(s: Seq<u8>) -> Option<Seq<u8>> {
    match decode_spec(s.take(24)) {
        Ok(h) => if h.command == A_CNXN {
            Some(s.skip(24 + h.data_length as int))
        } else {
            None
        },
        Err(_) => None,
    }
}

/// The number that a device gives a service that was opened, and the stream behind, by the
/// headers that follow one another.
pub open spec fn forward_opened(s: Seq<u8>) -> Option<(u32, Seq<u8>)>
    decreases s.len(),
{
    if s.len() < 24 {
        None
    } else {
        match decode_spec(s.take(24)) {
            Ok(h) => if h.command == A_OKAY {
                Some((h.arg0, s.skip(24)))
            } else if h.command == A_CLSE {
                None
            } else {
                forward_opened(s.skip(24))
            },
            Err(_) => None,
        }
    }
}

/// Sets up a forwarded connection with a device: asks who it is, and opens the service. Gives
/// the number of the service on the device.
pub fn open_forward<T: Transport>(device: &mut T, remote: &str) -> (r: Option<u32>)
    ensures
        final(device).faults() >= old(device).faults(),
        final(device).faults() == old(device).faults() ==> match behind_banner(
            old(device).incoming(),
        ) {
            None => r is None && final(device).written() == old(device).written()
                + probe_message(),
            Some(s) => {
                &&& final(device).written() == old(device).written() + probe_message()
                    + message_bytes(A_OPEN, FORWARD_LOCAL_ID, 0, encode_utf8(remote@))
                &&& match forward_opened(s) {
                    Some((id, rest)) => r == Some(id) && final(device).incoming() == rest,
                    None => r is None,
                }
            },
        },
        r matches Some(id) ==> {
            &&& final(device).held_back() == 0
            &&& final(device).written() == old(device).written() + probe_message() + message_bytes(
                A_OPEN,
                FORWARD_LOCAL_ID,
                0,
                encode_utf8(remote@),
            )
            &&& behind_banner(old(device).incoming()) is Some
            &&& exists|k: int|
                0 <= k <= old(device).incoming().len() && forward_opened(
                    #[trigger] old(device).incoming().skip(k),
                ) == Some((id, final(device).incoming()))
        },
{
    let ghost start = device.incoming();
    let ghost base = device.written();
    let probe = encode_message(
        A_CNXN,
        crate::constants::ADB_VERSION,
        crate::constants::MAX_PAYLOAD_V2,
        "host::".as_bytes(),
    );
    match device.write_all(probe.as_slice()) {
        Ok(()) => {},
        Err(_) => {
            return None;
        },
    }
    match device.flush() {
        Ok(()) => {},
        Err(_) => {
            return None;
        },
    }
    let bytes = match device.read_exact(24) {
        Ok(v) => v,
        Err(_) => {
            return None;
        },
    };
    assert(start.take(24) =~= bytes@);
    assert(device.incoming() =~= start.skip(24));
    let answer = match AdbMessageHeader::decode(bytes.as_slice()) {
        Ok(h) => h,
        Err(_) => {
            return None;
        },
    };
    if answer.command != A_CNXN {
        return None;
    }
    if answer.data_length > 0 {
        match device.read_exact(answer.data_length as usize) {
            Ok(_) => {
                assert(device.incoming() =~= start.skip(24 + answer.data_length as int));
            },
            Err(_) => {
                proof {
                    let k = choose|k: int|
                        0 <= k <= start.skip(24).len() && device.incoming()
                            == #[trigger] start.skip(24).skip(k);
                    assert(device.incoming() =~= start.skip(24 + k));
                }
            },
        }
    }
    let ghost entry = device.incoming();
    assert(exists|k: int| 0 <= k <= start.len() && entry == #[trigger] start.skip(k));
    match send(device, A_OPEN, FORWARD_LOCAL_ID, 0, remote.as_bytes()) {
        Ok(()) => {},
        Err(_) => {
            return None;
        },
    }
    loop
        invariant
            start == old(device).incoming(),
            device.faults() >= old(device).faults(),
            device.held_back() == 0,
            behind_banner(start) is Some,
            device.faults() == old(device).faults() ==> forward_opened(device.incoming())
                == forward_opened(behind_banner(start)->0),
            device.written() == old(device).written() + probe_message() + message_bytes(
                A_OPEN,
                FORWARD_LOCAL_ID,
                0,
                encode_utf8(remote@),
            ),
            forward_opened(device.incoming()) == forward_opened(entry),
            exists|k: int| 0 <= k <= start.len() && entry == #[trigger] start.skip(k),
        decreases device.incoming().len(),
    {
        let ghost now = device.incoming();
        let head = match device.read_exact(24) {
            Ok(v) => v,
            Err(_) => {
                return None;
            },
        };
        assert(now.take(24) =~= head@);
        assert(device.incoming() =~= now.skip(24));
        let answer = match AdbMessageHeader::decode(head.as_slice()) {
            Ok(h) => h,
            Err(_) => {
                return None;
            },
        };
        if answer.command == A_OKAY {
            return Some(answer.arg0);
        }
        if answer.command == A_CLSE {
            return None;
        }
    }
}

/// Some pieces of data as WRTE messages of a forwarded connection.
pub open spec fn wrte_stream(chunks: Seq<Seq<u8>>, remote_id: u32) -> Seq<u8>
    decreases chunks.len(),
{
    if chunks.len() == 0 {
        Seq::empty()
    } else {
        wrte_stream(chunks.drop_last(), remote_id) + message_bytes(
            A_WRTE,
            FORWARD_LOCAL_ID,
            remote_id,
            chunks.last(),
        )
    }
}

proof fn lemma_joined_push(c: Seq<Seq<u8>>, x: Seq<u8>)
    ensures
        joined_chunks(c.push(x)) == joined_chunks(c) + x,
    decreases c.len(),
{
    if c.len() == 0 {
        assert(c.push(x).skip(1) =~= Seq::<Seq<u8>>::empty());
        assert(joined_chunks(c.push(x).skip(1)) =~= Seq::<u8>::empty());
        assert(x + Seq::<u8>::empty() =~= Seq::<u8>::empty() + x);
    } else {
        lemma_joined_push(c.skip(1), x);
        assert(c.push(x).skip(1) =~= c.skip(1).push(x));
        assert(c[0] + (joined_chunks(c.skip(1)) + x) =~= c[0] + joined_chunks(c.skip(1)) + x);
    }
}

/// What went from a client to a device: data that was taken off the client's stream in some
/// pieces, each as a WRTE, and then a CLSE if the client ended.
pub open spec fn passed_up<C: Transport, D: Transport>(
    chunks: Seq<Seq<u8>>,
    ended: bool,
    remote_id: u32,
    client: C,
    client_after: C,
    device: D,
    device_after: D,
) -> bool {
    &&& client.incoming() == joined_chunks(chunks) + client_after.incoming()
    &&& device_after.faults() == device.faults() ==> device_after.written() == device.written()
        + sent_up(chunks, ended, remote_id) && all_passed_on(device, device_after)
    &&& grew_by_prefix(
        device_after.written(),
        device.written(),
        sent_up(chunks, ended, remote_id),
    )
}

/// What a device is sent: some pieces of data, each as a WRTE, and then a CLSE if the client ended.
pub open spec fn sent_up(chunks: Seq<Seq<u8>>, ended: bool, remote_id: u32) -> Seq<u8> {
    wrte_stream(chunks, remote_id) + if ended {
        message_bytes(A_CLSE, FORWARD_LOCAL_ID, remote_id, Seq::empty())
    } else {
        Seq::empty()
    }
}

/// `base` and `sent` behind it, and then some of the first bytes of `more`, is `base` with some of
/// the first bytes of both.
proof fn lemma_sent_and_more(written: Seq<u8>, base: Seq<u8>, sent: Seq<u8>, more: Seq<u8>)
    requires
        grew_by_prefix(written, base + sent, more),
    ensures
        grew_by_prefix(written, base, sent + more),
{
    let k = choose|k: int| 0 <= k <= more.len() && written == (base + sent) + #[trigger] more.take(k);
    assert((sent + more).take(sent.len() + k) =~= sent + more.take(k));
    assert(written =~= base + (sent + more).take(sent.len() + k));
}

/// Some of the first bytes of `sent` are some of the first bytes of `sent` and `more`.
proof fn lemma_first_of_more(written: Seq<u8>, base: Seq<u8>, sent: Seq<u8>, more: Seq<u8>)
    requires
        grew_by_prefix(written, base, sent),
    ensures
        grew_by_prefix(written, base, sent + more),
{
    let k = choose|k: int| 0 <= k <= sent.len() && written == base + #[trigger] sent.take(k);
    assert((sent + more).take(k) =~= sent.take(k));
}

/// All of `sent` behind `base` is some of its first bytes.
proof fn lemma_all_sent(base: Seq<u8>, sent: Seq<u8>)
    ensures
        grew_by_prefix(base + sent, base, sent),
{
    assert(sent.take(sent.len() as int) =~= sent);
}

/// Passes what a client sends on to a device, until either connection fails. Gives whether the
/// client came to its end, which the device is told. Of a client that fails otherwise it is told
/// nothing.
pub fn pump_to_device<C: Transport, D: Transport>(
    client: &mut C,
    device: &mut D,
    remote_id: u32,
) -> (ended: bool)
    ensures
        final(client).written() == old(client).written(),
        final(device).incoming() == old(device).incoming(),
        final(client).faults() > old(client).faults() || final(device).faults() > old(device).faults(),
        ended <==> final(client).faults() > old(client).faults() && final(client).last_fault()
            == Fault::Ended,
        exists|chunks: Seq<Seq<u8>>| #[trigger]
            passed_up(
                chunks,
                ended,
                remote_id,
                *old(client),
                *final(client),
                *old(device),
                *final(device),
            ),
{
    let ghost mut chunks: Seq<Seq<u8>> = Seq::empty();
    let ghost start = client.incoming();
    let ghost base = device.written();
    assert(joined_chunks(chunks) + start =~= start);
    assert(base + wrte_stream(chunks, remote_id) =~= base);
    loop
        invariant
            start == old(client).incoming(),
            base == old(device).written(),
            client.written() == old(client).written(),
            client.faults() == old(client).faults(),
            device.incoming() == old(device).incoming(),
            device.faults() == old(device).faults(),
            start == joined_chunks(chunks) + client.incoming(),
            device.written() == base + wrte_stream(chunks, remote_id),
            all_passed_on(*old(device), *device),
        decreases client.incoming().len(),
    {
        let ghost now = client.incoming();
        let ghost sent = device.written();
        let ghost so_far = wrte_stream(chunks, remote_id);
        proof {
            assert(sent_up(chunks, false, remote_id) =~= so_far);
            lemma_all_sent(base, so_far);
        }
        let mut buf: Vec<u8> = vec![0u8; 16384];
        let n: usize = match client.read(buf.as_mut_slice()) {
            Ok(n) => n,
            Err(_) => {
                assert(passed_up(
                    chunks,
                    false,
                    remote_id,
                    *old(client),
                    *client,
                    *old(device),
                    *device,
                ));
                return false;
            },
        };
        if n == 0 {
            let empty: Vec<u8> = Vec::new();
            assert(empty@ =~= Seq::<u8>::empty());
            assert(buf@.take(0) + client.incoming() =~= client.incoming());
            let _ = send(device, A_CLSE, FORWARD_LOCAL_ID, remote_id, empty.as_slice());
            proof {
                let clse = message_bytes(A_CLSE, FORWARD_LOCAL_ID, remote_id, Seq::empty());
                assert(sent_up(chunks, true, remote_id) == so_far + clse);
                assert(base + so_far + clse =~= base + (so_far + clse));
                lemma_all_sent(base + so_far, clse);
                lemma_sent_and_more(device.written(), base, so_far, clse);
            }
            assert(passed_up(
                chunks,
                true,
                remote_id,
                *old(client),
                *client,
                *old(device),
                *device,
            ));
            return true;
        }
        let data = slice_subrange(buf.as_slice(), 0, n);
        assert(data@ =~= buf@.take(n as int));
        proof {
            let before = chunks;
            lemma_joined_push(before, data@);
            chunks = before.push(data@);
            assert(chunks.drop_last() =~= before);
            assert(start =~= joined_chunks(chunks) + client.incoming());
        }
        let r = send(device, A_WRTE, FORWARD_LOCAL_ID, remote_id, data);
        proof {
            let wrte = message_bytes(A_WRTE, FORWARD_LOCAL_ID, remote_id, data@);
            assert(wrte_stream(chunks, remote_id) == so_far + wrte);
            assert(sent + wrte =~= base + wrte_stream(chunks, remote_id));
            assert(sent_up(chunks, false, remote_id) =~= so_far + wrte);
            lemma_all_sent(base + so_far, wrte);
            lemma_sent_and_more(device.written(), base, so_far, wrte);
        }
        match r {
            Ok(()) => {},
            Err(_) => {
                assert(passed_up(
                    chunks,
                    false,
                    remote_id,
                    *old(client),
                    *client,
                    *old(device),
                    *device,
                ));
                return false;
            },
        }
    }
}

/// What a device sends over a forwarded connection: the data for the client, and what the
/// device is answered meanwhile.
pub open spec fn passed_down(s: Seq<u8>, remote_id: u32) -> (Seq<u8>, Seq<u8>)
    decreases s.len(),
{
    if s.len() < 24 {
        (Seq::empty(), Seq::empty())
    } else {
        match decode_spec(s.take(24)) {
            Err(_) => (Seq::empty(), Seq::empty()),
            Ok(h) => if h.command == A_WRTE {
                if s.len() < 24 + h.data_length {
                    (Seq::empty(), Seq::empty())
                } else {
                    let (data, answers) = passed_down(
                        s.skip(24 + h.data_length as int),
                        remote_id,
                    );
                    (
                        s.subrange(24, 24 + h.data_length as int) + data,
                        message_bytes(A_OKAY, FORWARD_LOCAL_ID, remote_id, Seq::empty()) + answers,
                    )
                }
            } else if h.command == A_CLSE {
                (
                    Seq::empty(),
                    message_bytes(A_CLSE, FORWARD_LOCAL_ID, remote_id, Seq::empty()),
                )
            } else {
                passed_down(s.skip(24), remote_id)
            },
        }
    }
}

/// How many bytes are read of what stands at the front of a device's stream, unless the stream
/// breaks off: data with its header, or a header alone.
pub open spec fn size_passed(s: Seq<u8>) -> nat {
    if s.len() < 24 {
        24
    } else {
        match decode_spec(s.take(24)) {
            Ok(h) => if h.command == A_WRTE {
                24 + h.data_length as nat
            } else {
                24
            },
            Err(_) => 24,
        }
    }
}

/// The first `k` messages of a device's stream, up to one that closes the connection: the data
/// for the client, what the device is answered, and the stream behind them.
pub open spec fn first_passed(s: Seq<u8>, k: nat, remote_id: u32) -> (Seq<u8>, Seq<u8>, Seq<u8>)
    decreases k,
{
    if k == 0 {
        (Seq::empty(), Seq::empty(), s)
    } else {
        let (data, answers, rest) = first_passed(s, (k - 1) as nat, remote_id);
        let size = size_passed(rest);
        if rest.len() < size {
            (data, answers, rest)
        } else {
            match decode_spec(rest.take(24)) {
                Err(_) => (data, answers, rest),
                Ok(h) => if h.command == A_WRTE {
                    (
                        data + rest.subrange(24, size as int),
                        answers + message_bytes(A_OKAY, FORWARD_LOCAL_ID, remote_id, Seq::empty()),
                        rest.skip(size as int),
                    )
                } else if h.command == A_CLSE {
                    (data, answers, rest)
                } else {
                    (data, answers, rest.skip(24))
                },
            }
        }
    }
}

/// What a device sent was passed to a client: the data of its first `k` messages, and behind them
/// the device's stream broke off, or it was closed or not sound, or the client failed within the
/// data of one more.
pub open spec fn given_down<D: Transport, C: Transport>(
    k: nat,
    remote_id: u32,
    device: D,
    device_after: D,
    client: C,
    client_after: C,
) -> bool {
    let (data, answers, rest) = first_passed(device.incoming(), k, remote_id);
    let size = size_passed(rest);
    if client_after.faults() > client.faults() {
        &&& 24 <= size <= rest.len()
        &&& device_after.incoming() == rest.skip(size as int)
        &&& grew_by_prefix(
            client_after.written(),
            client.written() + data,
            rest.subrange(24, size as int),
        )
    } else {
        &&& client_after.written() == client.written() + data
        &&& all_passed_on(client, client_after)
        &&& if ends_within(device_after.incoming(), rest, size) {
            device_after.faults() == device.faults() + 1 ==> device_after.written()
                == device.written() + answers && all_passed_on(device, device_after)
        } else {
            &&& rest.len() >= 24
            &&& device_after.incoming() == rest.skip(24)
            &&& match decode_spec(rest.take(24)) {
                Err(_) => device_after.faults() == device.faults() ==> device_after.written()
                    == device.written() + answers && all_passed_on(device, device_after),
                Ok(h) => h.command == A_CLSE && (device_after.faults() == device.faults()
                    ==> device_after.written() == device.written() + (answers + message_bytes(
                    A_CLSE,
                    FORWARD_LOCAL_ID,
                    remote_id,
                    Seq::empty(),
                )) && device_after.held_back() == 0),
            }
        }
    }
}

/// Passes what a device sends on to a client, until the device closes or either connection
/// fails. Data is acknowledged once the client has it.
#[verifier::spinoff_prover]
#[verifier::rlimit(30)]
pub fn pump_to_client<D: Transport, C: Transport>(device: &mut D, client: &mut C, remote_id: u32)
    ensures
        final(client).incoming() == old(client).incoming(),
        final(client).faults() >= old(client).faults(),
        final(device).faults() >= old(device).faults(),
        grew_by_prefix(
            final(client).written(),
            old(client).written(),
            passed_down(old(device).incoming(), remote_id).0,
        ),
        final(client).faults() == old(client).faults() && final(device).faults() == old(device).faults() ==> {
            &&& final(client).written() == old(client).written() + passed_down(
                old(device).incoming(),
                remote_id,
            ).0
            &&& final(device).written() == old(device).written() + passed_down(
                old(device).incoming(),
                remote_id,
            ).1
        },
        exists|k: nat| #[trigger]
            given_down(k, remote_id, *old(device), *final(device), *old(client), *final(client)),
{
    let ghost mut k: nat = 0;
    let ghost start = device.incoming();
    let ghost cbase = client.written();
    let ghost dbase = device.written();
    let ghost (all, answers) = passed_down(start, remote_id);
    let ghost mut data: Seq<u8> = Seq::empty();
    let ghost mut acks: Seq<u8> = Seq::empty();
    proof {
        assert(cbase + data =~= cbase);
        assert(dbase + acks =~= dbase);
        assert(data + all =~= all);
        assert(acks + answers =~= answers);
    }
    let empty: Vec<u8> = Vec::new();
    assert(empty@ =~= Seq::<u8>::empty());
    loop
        invariant
            empty@ == Seq::<u8>::empty(),
            start == old(device).incoming(),
            cbase == old(client).written(),
            dbase == old(device).written(),
            (all, answers) == passed_down(start, remote_id),
            client.incoming() == old(client).incoming(),
            client.faults() == old(client).faults(),
            device.faults() >= old(device).faults(),
            client.written() == cbase + data,
            client.held_back() == 0 || data.len() == 0 && client.held_back() == old(
                client,
            ).held_back(),
            device.faults() == old(device).faults() ==> device.written() == dbase + acks && (
            device.held_back() == 0 || acks.len() == 0 && device.held_back() == old(
                device,
            ).held_back()),
            all == data + passed_down(device.incoming(), remote_id).0,
            answers == acks + passed_down(device.incoming(), remote_id).1,
            first_passed(start, k, remote_id) == (data, acks, device.incoming()),
        decreases device.incoming().len(),
    {
        let ghost now = device.incoming();
        proof {
            assert(all.take(data.len() as int) =~= data);
            assert(data + Seq::<u8>::empty() =~= data);
            assert(acks + Seq::<u8>::empty() =~= acks);
        }
        let head = match device.read_exact(24) {
            Ok(v) => v,
            Err(_) => {
                assert(given_down(k, remote_id, *old(device), *device, *old(client), *client));
                return ;
            },
        };
        assert(now.take(24) =~= head@);
        assert(device.incoming() =~= now.skip(24));
        let hdr = match AdbMessageHeader::decode(head.as_slice()) {
            Ok(h) => h,
            Err(_) => {
                assert(given_down(k, remote_id, *old(device), *device, *old(client), *client));
                return ;
            },
        };
        if hdr.command == A_WRTE {
            let len: usize = hdr.data_length as usize;
            let payload = match device.read_exact(len) {
                Ok(v) => v,
                Err(_) => {
                    proof {
                        assert(is_tail(now.skip(24), now));
                        lemma_tail_of_tail(device.incoming(), now.skip(24), now);
                    }
                    assert(given_down(k, remote_id, *old(device), *device, *old(client), *client));
                    return ;
                },
            };
            assert(now.subrange(24, 24 + len as int) =~= payload@);
            assert(device.incoming() =~= now.skip(24 + len as int));
            let ghost before = data;
            let ghost later = passed_down(device.incoming(), remote_id);
            proof {
                assert(all =~= before + payload@ + later.0);
            }
            if len > 0 {
                match client.write_all(payload.as_slice()) {
                    Ok(()) => {},
                    Err(_) => {
                        proof {
                            let k = choose|k: int|
                                0 <= k <= payload@.len() && client.written() == (cbase + before)
                                    + #[trigger] payload@.take(k);
                            assert(all.take(before.len() + k) =~= before + payload@.take(k));
                            assert(client.written() =~= cbase + all.take(before.len() + k));
                        }
                        assert(given_down(
                            k,
                            remote_id,
                            *old(device),
                            *device,
                            *old(client),
                            *client,
                        ));
                        return ;
                    },
                }
            } else {
                assert(cbase + before + payload@ =~= cbase + before);
            }
            proof {
                data = before + payload@;
                assert(client.written() =~= cbase + data);
                assert(all.take(data.len() as int) =~= data);
            }
            if len > 0 {
                match client.flush() {
                    Ok(()) => {},
                    Err(_) => {
                        proof {
                            lemma_all_sent(cbase + before, payload@);
                        }
                        assert(given_down(
                            k,
                            remote_id,
                            *old(device),
                            *device,
                            *old(client),
                            *client,
                        ));
                        return ;
                    },
                }
            }
            let _ = send(device, A_OKAY, FORWARD_LOCAL_ID, remote_id, empty.as_slice());
            proof {
                let ack = message_bytes(A_OKAY, FORWARD_LOCAL_ID, remote_id, Seq::empty());
                let acks_before = acks;
                k = k + 1;
                acks = acks_before + ack;
                assert(dbase + acks_before + ack =~= dbase + acks);
                assert(acks_before + (ack + later.1) =~= acks + later.1);
            }
        } else if hdr.command == A_CLSE {
            let _ = send(device, A_CLSE, FORWARD_LOCAL_ID, remote_id, empty.as_slice());
            proof {
                let ack = message_bytes(A_CLSE, FORWARD_LOCAL_ID, remote_id, Seq::empty());
                assert(dbase + acks + ack =~= dbase + (acks + ack));
            }
            assert(given_down(k, remote_id, *old(device), *device, *old(client), *client));
            return ;
        } else {
            proof {
                k = k + 1;
            }
        }
    }
}

/// The messages at the front of a stream, whole and with sound headers, as they are passed to
/// a USB device; and the complaint about the header behind them, if it is not sound.
pub open spec fn messages_up(s: Seq<u8>) -> (Seq<u8>, Option<HeaderError>)
    decreases s.len(),
{
    if s.len() < 24 {
        (Seq::empty(), None)
    } else {
        match decode_spec(s.take(24)) {
            Err(e) => (Seq::empty(), Some(e)),
            Ok(h) => if s.len() < 24 + h.data_length {
                (Seq::empty(), None)
            } else {
                let (more, e) = messages_up(s.skip(24 + h.data_length as int));
                (header_bytes(h) + s.subrange(24, 24 + h.data_length as int) + more, e)
            },
        }
    }
}

/// How many bytes are read of the message at the front of a client's stream, unless the stream
/// breaks off.
pub open spec fn size_up(s: Seq<u8>) -> nat {
    if s.len() < 24 {
        24
    } else {
        match decode_spec(s.take(24)) {
            Err(_) => 24,
            Ok(h) => 24 + h.data_length as nat,
        }
    }
}

/// The message at the front of a client's stream as it is passed to a USB device, if it is whole.
pub open spec fn message_up(s: Seq<u8>) -> Option<Seq<u8>> {
    if s.len() < 24 {
        None
    } else {
        match decode_spec(s.take(24)) {
            Err(_) => None,
            Ok(h) => if s.len() < 24 + h.data_length {
                None
            } else {
                Some(header_bytes(h) + s.subrange(24, 24 + h.data_length as int))
            },
        }
    }
}

/// The first `k` messages of a client's stream as they are passed to a USB device, and the stream
/// behind them.
pub open spec fn first_up(s: Seq<u8>, k: nat) -> (Seq<u8>, Seq<u8>)
    decreases k,
{
    if k == 0 {
        (Seq::empty(), s)
    } else {
        let (done, rest) = first_up(s, (k - 1) as nat);
        match message_up(rest) {
            None => (done, rest),
            Some(m) => (done + m, rest.skip(size_up(rest) as int)),
        }
    }
}

/// A client's messages were passed to a USB device: the first `k` of them whole, and behind them the
/// client's stream broke off, or a header was not sound, or the device failed within one more.
pub open spec fn relayed_up<C: Transport, D: Transport>(
    k: nat,
    r: Result<(), String>,
    client: C,
    client_after: C,
    device: D,
    device_after: D,
) -> bool {
    let (done, rest) = first_up(client.incoming(), k);
    if client_after.faults() > client.faults() {
        &&& r is Ok
        &&& device_after.faults() == device.faults()
        &&& device_after.written() == device.written() + done
        &&& all_passed_on(device, device_after)
        &&& ends_within(client_after.incoming(), rest, size_up(rest))
    } else if device_after.faults() == device.faults() {
        &&& device_after.written() == device.written() + done
        &&& all_passed_on(device, device_after)
        &&& client_after.incoming() == rest.skip(24)
        &&& rest.len() >= 24
        &&& decode_spec(rest.take(24)) matches Err(e)
        &&& r matches Err(m)
        &&& m@ == "bad hdr from client: "@ + e.text()
    } else {
        &&& message_up(rest) matches Some(message)
        &&& client_after.incoming() == rest.skip(size_up(rest) as int)
        &&& grew_by_prefix(device_after.written(), device.written() + done, message)
        &&& r matches Err(m)
        &&& exists|e: TransportError|
            (e is Io) && m@ == "USB send: "@ + #[trigger] e.text()
    }
}

/// Passes the messages of a client on to a device that takes messages, until the client ends.
#[verifier::spinoff_prover]
#[verifier::rlimit(30)]
pub fn relay_to_device<C: Transport, D: Transport>(client: &mut C, device: &mut D) -> (r: Result<
    (),
    String,
>)
    ensures
        final(client).written() == old(client).written(),
        final(device).incoming() == old(device).incoming(),
        final(device).faults() >= old(device).faults(),
        final(client).faults() >= old(client).faults(),
        grew_by_prefix(
            final(device).written(),
            old(device).written(),
            messages_up(old(client).incoming()).0,
        ),
        final(client).faults() == old(client).faults() && final(device).faults() == old(device).faults() ==> {
            &&& final(device).written() == old(device).written() + messages_up(
                old(client).incoming(),
            ).0
            &&& messages_up(old(client).incoming()).1 matches Some(e)
            &&& r matches Err(m)
            &&& m@ == "bad hdr from client: "@ + e.text()
        },
        r is Ok <==> final(client).faults() > old(client).faults(),
        exists|k: nat| #[trigger]
            relayed_up(k, r, *old(client), *final(client), *old(device), *final(device)),
{
    let ghost start = client.incoming();
    let ghost base = device.written();
    let ghost (all, bad) = messages_up(start);
    let ghost mut done: Seq<u8> = Seq::empty();
    let ghost mut k: nat = 0;
    proof {
        assert(base + done =~= base);
        assert(done + all =~= all);
    }
    loop
        invariant
            start == old(client).incoming(),
            base == old(device).written(),
            (all, bad) == messages_up(start),
            client.written() == old(client).written(),
            client.faults() == old(client).faults(),
            device.incoming() == old(device).incoming(),
            device.faults() == old(device).faults(),
            device.written() == base + done,
            device.held_back() == 0 || done.len() == 0 && device.held_back() == old(
                device,
            ).held_back(),
            all == done + messages_up(client.incoming()).0,
            bad == messages_up(client.incoming()).1,
            first_up(start, k) == (done, client.incoming()),
        decreases client.incoming().len(),
    {
        let ghost now = client.incoming();
        proof {
            assert(all.take(done.len() as int) =~= done);
            assert(done + Seq::<u8>::empty() =~= done);
        }
        let head = match client.read_exact(24) {
            Ok(v) => v,
            Err(_) => {
                let r = Ok(());
                assert(relayed_up(k, r, *old(client), *client, *old(device), *device));
                return r;
            },
        };
        assert(now.take(24) =~= head@);
        assert(client.incoming() =~= now.skip(24));
        let header = match AdbMessageHeader::decode(head.as_slice()) {
            Ok(h) => h,
            Err(e) => {
                let mut m = owned("bad hdr from client: ");
                m.append(e.message().as_str());
                let r = Err(m);
                assert(relayed_up(k, r, *old(client), *client, *old(device), *device));
                return r;
            },
        };
        let len: usize = header.data_length as usize;
        let payload = match client.read_exact(len) {
            Ok(v) => v,
            Err(_) => {
                proof {
                    assert(is_tail(now.skip(24), now));
                    lemma_tail_of_tail(client.incoming(), now.skip(24), now);
                }
                let r = Ok(());
                assert(relayed_up(k, r, *old(client), *client, *old(device), *device));
                return r;
            },
        };
        assert(now.subrange(24, 24 + len as int) =~= payload@);
        assert(client.incoming() =~= now.skip(24 + len as int));
        let ghost before = done;
        let ghost message = header_bytes(header) + payload@;
        let ghost later = messages_up(client.incoming());
        proof {
            assert(all =~= before + message + later.0);
        }
        match device.send_message(&header, payload.as_slice()) {
            Ok(()) => {},
            Err(e) => {
                proof {
                    let k = choose|k: int|
                        0 <= k <= message.len() && device.written() == (base + before)
                            + #[trigger] message.take(k);
                    assert(all.take(before.len() + k) =~= before + message.take(k));
                    assert(device.written() =~= base + all.take(before.len() + k));
                }
                let mut m = owned("USB send: ");
                m.append(e.message().as_str());
                assert(m@ == "USB send: "@ + e.text());
                let r = Err(m);
                assert(relayed_up(k, r, *old(client), *client, *old(device), *device));
                return r;
            },
        }
        proof {
            k = k + 1;
            done = before + message;
            assert(device.written() =~= base + done);
        }
    }
}

/// The messages at the front of a stream, as they are passed to a client.
pub open spec fn messages_down(s: Seq<u8>) -> Seq<u8>
    decreases s.len(),
{
    match message_in(s) {
        None => Seq::empty(),
        Some((h, p)) => header_bytes(h) + p + messages_down(after_message(s)),
    }
}

/// The first `k` messages of a device's stream as they are passed to a client, and the stream
/// behind them.
pub open spec fn first_down(s: Seq<u8>, k: nat) -> (Seq<u8>, Seq<u8>)
    decreases k,
{
    if k == 0 {
        (Seq::empty(), s)
    } else {
        let (done, rest) = first_down(s, (k - 1) as nat);
        match message_in(rest) {
            None => (done, rest),
            Some((h, p)) => (done + (header_bytes(h) + p), after_message(rest)),
        }
    }
}

/// A device's messages were passed to a client: the first `k` of them whole, and behind them the
/// device's stream broke off, or a message was not sound, or the client failed within one more.
pub open spec fn relayed_down<D: Transport, C: Transport>(
    k: nat,
    r: Result<(), String>,
    device: D,
    device_after: D,
    client: C,
    client_after: C,
) -> bool {
    let (done, rest) = first_down(device.incoming(), k);
    if device_after.faults() > device.faults() {
        &&& client_after.written() == client.written() + done
        &&& client_after.faults() == client.faults() ==> all_passed_on(client, client_after)
        &&& ends_within(device_after.incoming(), rest, message_size(rest))
        &&& if device_after.last_fault().kind() == IoErrorKind::UnexpectedEof {
            r is Ok
        } else {
            r matches Err(m) && exists|e: TransportError|
                (e is Io) && e->Io_0.kind == device_after.last_fault().kind() && m@
                    == "USB recv: "@ + #[trigger] e.text()
        }
    } else if r is Err {
        &&& client_after.written() == client.written() + done
        &&& client_after.faults() == client.faults() ==> all_passed_on(client, client_after)
        &&& r matches Err(m)
        &&& exists|e: TransportError|
            refused_as(rest, e) && m@ == "USB recv: "@ + #[trigger] e.text()
    } else {
        &&& client_after.faults() > client.faults()
        &&& message_in(rest) matches Some((h, p))
        &&& device_after.incoming() == after_message(rest)
        &&& grew_by_prefix(
            client_after.written(),
            client.written() + done,
            header_bytes(h) + p,
        )
    }
}

/// The error for the message at the front of a stream, where it is not sound.
pub open spec fn refused_as(s: Seq<u8>, e: TransportError) -> bool {
    match received(s) {
        Received::BadHeader(f) => e matches TransportError::Header(g) && g == f,
        Received::BadPayload(_, f) => e matches TransportError::Header(g) && g == f,
        Received::TooLarge(n) => e matches TransportError::Protocol(m) && m@ == too_large_text(n),
        _ => false,
    }
}

/// Passes the messages of a device on to a client, until either connection fails.
#[verifier::spinoff_prover]
#[verifier::rlimit(30)]
pub fn relay_to_client<D: Transport, C: Transport>(device: &mut D, client: &mut C) -> (r: Result<
    (),
    String,
>)
    ensures
        final(device).written() == old(device).written(),
        final(client).incoming() == old(client).incoming(),
        final(device).faults() >= old(device).faults(),
        final(client).faults() >= old(client).faults(),
        grew_by_prefix(
            final(client).written(),
            old(client).written(),
            messages_down(old(device).incoming()),
        ),
        final(client).faults() == old(client).faults() && final(device).faults() == old(device).faults() ==> r is Err && final(client).written() == old(client).written()
            + messages_down(old(device).incoming()),
        if final(device).faults() > old(device).faults() {
            r is Ok <==> final(device).last_fault().kind() == IoErrorKind::UnexpectedEof
        } else {
            r is Ok ==> final(client).faults() > old(client).faults()
        },
        exists|k: nat| #[trigger]
            relayed_down(k, r, *old(device), *final(device), *old(client), *final(client)),
{
    let ghost start = device.incoming();
    let ghost base = client.written();
    let ghost all = messages_down(start);
    let ghost mut done: Seq<u8> = Seq::empty();
    let ghost mut k: nat = 0;
    proof {
        assert(base + done =~= base);
        assert(done + all =~= all);
    }
    loop
        invariant
            start == old(device).incoming(),
            base == old(client).written(),
            all == messages_down(start),
            device.written() == old(device).written(),
            device.faults() == old(device).faults(),
            client.incoming() == old(client).incoming(),
            client.faults() >= old(client).faults(),
            client.written() == base + done,
            client.faults() == old(client).faults() ==> client.held_back() == 0 || done.len() == 0
                && client.held_back() == old(client).held_back(),
            all == done + messages_down(device.incoming()),
            first_down(start, k) == (done, device.incoming()),
        decreases device.incoming().len(),
    {
        let ghost now = device.incoming();
        proof {
            assert(all.take(done.len() as int) =~= done);
            assert(done + Seq::<u8>::empty() =~= done);
        }
        let (header, payload) = match device.recv_message() {
            Ok(m) => m,
            Err(e) => {
                let eof = match &e {
                    TransportError::Io(io) => io.kind == IoErrorKind::UnexpectedEof,
                    _ => false,
                };
                if eof {
                    let r = Ok(());
                    assert(relayed_down(k, r, *old(device), *device, *old(client), *client));
                    return r;
                }
                let mut m = owned("USB recv: ");
                m.append(e.message().as_str());
                assert(m@ == "USB recv: "@ + e.text());
                assert(!(e is Io) ==> refused_as(now, e));
                let r = Err(m);
                assert(relayed_down(k, r, *old(device), *device, *old(client), *client));
                return r;
            },
        };
        let mut bytes: [u8; 24] = [0u8; 24];
        header.encode(&mut bytes);
        let ghost later = messages_down(device.incoming());
        match client.write_all(bytes.as_slice()) {
            Ok(()) => {},
            Err(_) => {
                proof {
                    lemma_first_of_more(
                        client.written(),
                        base + done,
                        header_bytes(header),
                        payload@,
                    );
                    lemma_sent_and_more(client.written(), base, done, header_bytes(header));
                    assert(all =~= (done + header_bytes(header)) + (payload@ + later));
                    lemma_first_of_more(
                        client.written(),
                        base,
                        done + header_bytes(header),
                        payload@ + later,
                    );
                }
                let r = Ok(());
                assert(relayed_down(k, r, *old(device), *device, *old(client), *client));
                return r;
            },
        }
        if payload.len() > 0 {
            match client.write_all(payload.as_slice()) {
                Ok(()) => {},
                Err(_) => {
                    proof {
                        let head = done + header_bytes(header);
                        lemma_sent_and_more(
                            client.written(),
                            base + done,
                            header_bytes(header),
                            payload@,
                        );
                        assert(base + done + header_bytes(header) =~= base + head);
                        lemma_sent_and_more(client.written(), base, head, payload@);
                        assert(all =~= (head + payload@) + later);
                        lemma_first_of_more(client.written(), base, head + payload@, later);
                    }
                    let r = Ok(());
                    assert(relayed_down(k, r, *old(device), *device, *old(client), *client));
                    return r;
                },
            }
        }
        let _ = client.flush();
        proof {
            let before = done;
            k = k + 1;
            done = before + (header_bytes(header) + payload@);
            assert(all =~= done + later);
            assert(base + before + header_bytes(header) + payload@ =~= base + done);
            if payload@.len() == 0 {
                assert(base + before + header_bytes(header) =~= base + done);
            }
        }
    }
}

/// Whole messages go through unchanged, byte for byte, in either direction.
pub proof fn messages_pass_unchanged(ms: Seq<Sent>)
    requires
        payloads_fit(ms),
    ensures
        messages_up(stream_of(ms)) == (stream_of(ms), None::<HeaderError>),
        messages_down(stream_of(ms)) == stream_of(ms),
    decreases ms.len(),
{
    let none = Seq::<u8>::empty();
    if ms.len() == 0 {
        assert(received(stream_of(ms)) is Short);
    } else {
        lemma_stream_step(ms, none);
        assert(stream_of(ms) + none =~= stream_of(ms));
        assert(stream_of(ms.skip(1)) + none =~= stream_of(ms.skip(1)));
        messages_pass_unchanged(ms.skip(1));
    }
}

/// What a device says on a forwarded connection before it closes: data, or messages without any.
pub open spec fn on_connection(ms: Seq<Sent>) -> bool {
    forall|i: int|
        0 <= i < ms.len() ==> (#[trigger] ms[i]).command == 0x4554_5257 || (ms[i].command
            != 0x4553_4c43 && ms[i].payload.len() == 0)
}

/// The same number of messages as there are messages of data, each saying that one was taken.
pub open spec fn taken(ms: Seq<Sent>, remote_id: u32) -> Seq<u8>
    decreases ms.len(),
{
    if ms.len() == 0 {
        Seq::empty()
    } else {
        (if ms[0].command == 0x4554_5257 {
            message_bytes(0x5941_4b4f, 1, remote_id, Seq::empty())
        } else {
            Seq::empty()
        }) + taken(ms.skip(1), remote_id)
    }
}

/// What a device sends on a forwarded connection reaches the client: all the data and nothing
/// else, in its order. Each message of data is acknowledged, and a close is answered by a close.
pub proof fn client_gets_the_data(ms: Seq<Sent>, arg0: u32, arg1: u32, rest: Seq<u8>, remote_id: u32)
    requires
        payloads_fit(ms),
        on_connection(ms),
    ensures
        passed_down(
            stream_of(ms) + (message_bytes(0x4553_4c43, arg0, arg1, Seq::empty()) + rest),
            remote_id,
        ) == (
            data_in(ms),
            taken(ms, remote_id) + message_bytes(0x4553_4c43, 1, remote_id, Seq::empty()),
        ),
        passed_down(stream_of(ms), remote_id) == (data_in(ms), taken(ms, remote_id)),
    decreases ms.len(),
{
    let none = Seq::<u8>::empty();
    let close = message_bytes(0x4553_4c43, arg0, arg1, none);
    let tail = close + rest;
    if ms.len() == 0 {
        let one = seq![Sent { command: 0x4553_4c43, arg0, arg1, payload: none }];
        assert(one.skip(1) =~= Seq::<Sent>::empty());
        assert(stream_of(one.skip(1)) =~= none);
        assert(stream_of(one) =~= close);
        lemma_stream_step(one, rest);
        assert(stream_of(ms) + tail =~= stream_of(one) + rest);
        let answer = message_bytes(0x4553_4c43, 1, remote_id, none);
        assert(taken(ms, remote_id) + answer =~= answer);
    } else {
        let left = ms.skip(1);
        lemma_stream_step(ms, tail);
        lemma_stream_step(ms, none);
        assert(stream_of(ms) + none =~= stream_of(ms));
        assert(stream_of(left) + none =~= stream_of(left));
        assert forall|i: int| 0 <= i < left.len() implies (#[trigger] left[i]).command == 0x4554_5257
            || (left[i].command != 0x4553_4c43 && left[i].payload.len() == 0) by {
            assert(left[i] == ms[i + 1]);
        }
        client_gets_the_data(left, arg0, arg1, rest, remote_id);
        let x = ms[0];
        let answer = message_bytes(0x4553_4c43, 1, remote_id, none);
        let okay = message_bytes(0x5941_4b4f, 1, remote_id, none);
        if x.command == 0x4554_5257 {
            assert(okay + (taken(left, remote_id) + answer) =~= taken(ms, remote_id) + answer);
        } else {
            assert(taken(ms, remote_id) =~= taken(left, remote_id));
            assert(data_in(ms) =~= data_in(left));
        }
    }
}

/// Messages of data for a connection.
pub open spec fn data_messages(chunks: Seq<Seq<u8>>, remote_id: u32) -> Seq<Sent> {
    Seq::new(
        chunks.len(),
        |i: int| Sent { command: 0x4554_5257, arg0: 1, arg1: remote_id, payload: chunks[i] },
    )
}

/// What a client sends reaches the device as messages of data on its connection, one for each
/// piece: put together again they are what the client sent.
pub proof fn device_gets_the_data(chunks: Seq<Seq<u8>>, remote_id: u32)
    ensures
        wrte_stream(chunks, remote_id) == stream_of(data_messages(chunks, remote_id)),
        data_in(data_messages(chunks, remote_id)) == joined_chunks(chunks),
        sent_up(chunks, true, remote_id) == stream_of(data_messages(chunks, remote_id))
            + message_bytes(0x4553_4c43, 1, remote_id, Seq::empty()),
        sent_up(chunks, false, remote_id) == stream_of(data_messages(chunks, remote_id)),
    decreases chunks.len(),
{
    let ms = data_messages(chunks, remote_id);
    if chunks.len() > 0 {
        let before = chunks.drop_last();
        device_gets_the_data(before, remote_id);
        assert(ms =~= data_messages(before, remote_id).push(ms.last()));
        lemma_stream_push(data_messages(before, remote_id), ms.last());
    }
    lemma_data_in(chunks, remote_id);
    assert(sent_up(chunks, false, remote_id) =~= stream_of(ms));
}

proof fn lemma_data_in(chunks: Seq<Seq<u8>>, remote_id: u32)
    ensures
        data_in(data_messages(chunks, remote_id)) == joined_chunks(chunks),
    decreases chunks.len(),
{
    let ms = data_messages(chunks, remote_id);
    if chunks.len() > 0 {
        assert(ms.skip(1) =~= data_messages(chunks.skip(1), remote_id));
        lemma_data_in(chunks.skip(1), remote_id);
    }
}

/// A forwarded connection is open once the device says so, under the number that it names then;
/// other messages before that change nothing, and a close ends it.
pub proof fn opened_connection_has_its_number(
    ms: Seq<Sent>,
    x: Sent,
    rest: Seq<u8>,
)
    requires
        payloads_fit(ms.push(x)),
        forall|i: int|
            0 <= i < ms.len() ==> (#[trigger] ms[i]).payload.len() == 0 && ms[i].command
                != 0x5941_4b4f && ms[i].command != 0x4553_4c43,
        x.payload.len() == 0,
    ensures
        x.command == 0x5941_4b4f ==> forward_opened(stream_of(ms.push(x)) + rest) == Some(
            (x.arg0, rest),
        ),
        x.command == 0x4553_4c43 ==> forward_opened(stream_of(ms.push(x)) + rest) is None,
    decreases ms.len(),
{
    let all = ms.push(x);
    lemma_stream_step(all, rest);
    let s = stream_of(all) + rest;
    if ms.len() == 0 {
        assert(all.skip(1) =~= Seq::<Sent>::empty());
        assert(stream_of(all.skip(1)) + rest =~= rest);
        assert(all[0] == x);
    } else {
        let left = ms.skip(1);
        assert(all[0] == ms[0]);
        assert(ms[0].payload.len() == 0);
        assert(all.skip(1) =~= left.push(x));
        assert forall|i: int| 0 <= i < left.len() implies (#[trigger] left[i]).payload.len() == 0
            && left[i].command != 0x5941_4b4f && left[i].command != 0x4553_4c43 by {
            assert(left[i] == ms[i + 1]);
        }
        opened_connection_has_its_number(left, x, rest);
    }
}

/// A device that answers the probe with its banner is talked to behind the banner; one that
/// answers otherwise is not.
pub proof fn banner_is_passed_over(x: Sent, rest: Seq<u8>)
    requires
        x.payload.len() <= 1024 * 1024,
    ensures
        behind_banner(message_bytes(x.command, x.arg0, x.arg1, x.payload) + rest)
            == if x.command == 0x4e58_4e43 {
            Some(rest)
        } else {
            None
        },
{
    let one = seq![x];
    assert(one.skip(1) =~= Seq::<Sent>::empty());
    lemma_stream_step(one, rest);
    assert(stream_of(one) =~= message_bytes(x.command, x.arg0, x.arg1, x.payload));
    assert(stream_of(one.skip(1)) + rest =~= rest);
}

} // verus!
