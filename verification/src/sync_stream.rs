//! File transfer over an open `sync:` service: SYNC messages inside WRTE messages.

use crate::bytes::{le_bytes, lemma_u32_round_trip, low_u32, push_bytes, push_u32, read_u32, truncate_len};
use crate::constants::{A_CLSE, A_OKAY, A_WRTE, MAX_PAYLOAD_V2, SYNC_DATA, SYNC_DATA_MAX, SYNC_DONE, SYNC_FAIL, SYNC_OKAY, SYNC_QUIT, SYNC_SEND};
use crate::header::{hex_text, message_bytes, u32_at};
use crate::session::{accepted_service_is_open, acknowledged, send, send_wrte, ClientError};
use crate::sync::{
    build_sync_data_chunk, build_sync_done, build_sync_send_req, data_block, path_error, path_request, send_text,
    sync_error_text, sync_header, SyncErrorModel,
};
use crate::text::{dec, decimal, from_utf8_lossy, lossy_text, number, owned, utf8_round_trip};
use crate::transport::{
    after_message, goes_on, lemma_stream_step, message_in, payloads_fit, sent_message_is_received, stream_of, Sent,
    Transport,
};
use vstd::prelude::*;
use vstd::slice::{slice_subrange, slice_to_vec};
use vstd::utf8::encode_utf8;

verus! {

/// The text of the error for a SYNC message that is cut short.
pub open spec fn truncated_text(id: u32, want: nat, got: nat) -> Seq<char> {
    "SYNC "@ + hex_text(id) + " truncated: want "@ + dec(want) + " bytes, got "@ + dec(got)
}

/// The SYNC message in a payload: its id and its data. The length field of a DONE holds a time
/// and not a length, so a DONE has no data.
pub open spec fn sync_message_in(p: Seq<u8>) -> Result<(u32, Seq<u8>), Seq<char>> {
    if p.len() < 8 {
        Err("SYNC message shorter than 8-byte header"@)
    } else {
        let id = u32_at(p, 0);
        let len = u32_at(p, 4);
        if id == SYNC_DONE {
            Ok((id, Seq::empty()))
        } else if len > p.len() - 8 {
            Err(truncated_text(id, len as nat, (p.len() - 8) as nat))
        } else {
            Ok((id, p.subrange(8, 8 + len as int)))
        }
    }
}

/// Reads the SYNC message in a payload.
pub fn parse_sync_message(payload: &[u8]) -> (r: Result<(u32, Vec<u8>), String>)
    ensures
        match r {
            Ok((id, v)) => sync_message_in(payload@) == Ok::<(u32, Seq<u8>), Seq<char>>((id, v@)),
            Err(m) => sync_message_in(payload@) == Err::<(u32, Seq<u8>), Seq<char>>(m@),
        },
{
    if payload.len() < 8 {
        return Err(owned("SYNC message shorter than 8-byte header"));
    }
    let id: u32 = read_u32(payload, 0);
    let len: u32 = read_u32(payload, 4);
    let room: usize = payload.len() - 8;
    if id == SYNC_DONE {
        let none: Vec<u8> = Vec::new();
        assert(none@ =~= Seq::<u8>::empty());
        return Ok((id, none));
    }
    if len as u64 > room as u64 {
        let mut m = owned("SYNC ");
        m.append("0x");
        m.append(number(id as u64, 16).as_str());
        m.append(" truncated: want ");
        m.append(decimal(len as u64).as_str());
        m.append(" bytes, got ");
        m.append(decimal(room as u64).as_str());
        assert(m@ =~= truncated_text(id, len as nat, room as nat));
        return Err(m);
    }
    Ok((id, slice_to_vec(slice_subrange(payload, 8, 8 + len as usize))))
}

/// What a device answers in a SYNC stream: a message, or its end.
pub enum SyncReply {
    Message(Result<(u32, Seq<u8>), Seq<char>>),
    Closed,
}

/// The next SYNC message from a device, what is sent in answer, and the stream behind.
pub open spec fn sync_reply(s: Seq<u8>, local_id: u32) -> Option<(SyncReply, Seq<u8>, Seq<u8>)>
    decreases s.len(),
{
    match message_in(s) {
        None => None,
        Some((h, p)) => if h.command == A_WRTE {
            Some(
                (
                    SyncReply::Message(sync_message_in(p)),
                    message_bytes(A_OKAY, local_id, h.arg0, Seq::empty()),
                    after_message(s),
                ),
            )
        } else if h.command == A_CLSE {
            Some(
                (
                    SyncReply::Closed,
                    message_bytes(A_CLSE, local_id, h.arg0, Seq::empty()),
                    after_message(s),
                ),
            )
        } else {
            sync_reply(after_message(s), local_id)
        },
    }
}

/// What sending some blocks comes to, each as a WRTE that is acknowledged before the next:
/// whether all were taken, what is sent, and the stream behind.
pub open spec fn blocks_sent(
    s: Seq<u8>,
    local_id: u32,
    remote_id: u32,
    blocks: Seq<Seq<u8>>,
) -> Option<(bool, Seq<u8>, Seq<u8>)>
    decreases blocks.len(),
{
    if blocks.len() == 0 {
        Some((true, Seq::empty(), s))
    } else {
        let wrte = message_bytes(A_WRTE, local_id, remote_id, blocks[0]);
        match acknowledged(s, local_id) {
            None => None,
            Some((ok, acks, rest)) => if !ok {
                Some((false, wrte + acks, rest))
            } else {
                match blocks_sent(rest, local_id, remote_id, blocks.skip(1)) {
                    Some((all, more, behind)) => Some((all, wrte + acks + more, behind)),
                    None => None,
                }
            },
        }
    }
}

/// A run of bytes cut into pieces of `size` bytes, the last of which may be shorter.
pub open spec fn chunked(data: Seq<u8>, size: nat) -> Seq<Seq<u8>>
    decreases data.len(),
{
    if data.len() == 0 || size == 0 {
        Seq::empty()
    } else if data.len() <= size {
        seq![data]
    } else {
        seq![data.take(size as int)] + chunked(data.skip(size as int), size)
    }
}

/// Some pieces one after another.
pub open spec fn joined_chunks(c: Seq<Seq<u8>>) -> Seq<u8>
    decreases c.len(),
{
    if c.len() == 0 {
        Seq::empty()
    } else {
        c[0] + joined_chunks(c.skip(1))
    }
}

/// The pieces that data is cut into make up the data, none of them is empty, and none is
/// longer than it may be.
pub proof fn chunks_make_up_the_data(data: Seq<u8>, size: nat)
    requires
        size > 0,
    ensures
        joined_chunks(chunked(data, size)) == data,
        forall|i: int|
            0 <= i < chunked(data, size).len() ==> 0 < (#[trigger] chunked(data, size)[i]).len()
                <= size,
    decreases data.len(),
{
    let c = chunked(data, size);
    if data.len() == 0 {
        assert(data =~= Seq::empty());
    } else if data.len() <= size {
        assert(c.skip(1) =~= Seq::<Seq<u8>>::empty());
        assert(joined_chunks(c.skip(1)) =~= Seq::<u8>::empty());
        assert(c[0] + Seq::<u8>::empty() =~= data);
    } else {
        let rest = data.skip(size as int);
        chunks_make_up_the_data(rest, size);
        assert(c.skip(1) =~= chunked(rest, size));
        assert(c[0] + rest =~= data);
        assert forall|i: int| 0 <= i < c.len() implies 0 < (#[trigger] c[i]).len() <= size by {
            if i > 0 {
                assert(c[i] == chunked(rest, size)[i - 1]);
            }
        }
    }
}

/// The DATA blocks for some pieces.
pub open spec fn data_blocks(c: Seq<Seq<u8>>) -> Seq<Seq<u8>> {
    Seq::new(c.len(), |i: int| data_block(c[i]))
}

/// The blocks that push a file: SEND, the DATA blocks, DONE.
pub open spec fn push_blocks(remote: Seq<char>, mode: u32, data: Seq<u8>) -> Seq<Seq<u8>> {
    seq![path_request(SYNC_SEND, send_text(remote, mode))] + data_blocks(
        chunked(data, SYNC_DATA_MAX as nat),
    ) + seq![sync_header(SYNC_DONE, 0xFFFF_FFFF)]
}

/// What the device's last word on a push means: nothing, or a complaint.
pub open spec fn push_verdict(remote: Seq<char>, id: u32, data: Seq<u8>) -> Option<Seq<char>> {
    if id == SYNC_OKAY {
        None
    } else if id == SYNC_FAIL {
        Some("device rejected push of "@ + remote + ": "@ + lossy_text(data))
    } else {
        Some("unexpected SYNC reply after DONE: "@ + hex_text(id))
    }
}

/// What to do with a SYNC message during a pull.
#[derive(Debug, PartialEq, Eq)]
pub enum PullStep {
    /// Write these bytes to the file.
    Data(Vec<u8>),
    /// The file is complete.
    Done,
    /// Give up, for this reason, and remove what was written if so told.
    Refused { message: String, remove_partial: bool },
}

/// What a [`PullStep`] says.
pub enum PullModel {
    Data(Seq<u8>),
    Done,
    Refused { message: Seq<char>, remove_partial: bool },
}

impl View for PullStep {
    type V = PullModel;

    open spec fn view(&self) -> PullModel {
        match *self {
            PullStep::Data(v) => PullModel::Data(v@),
            PullStep::Done => PullModel::Done,
            PullStep::Refused { message, remove_partial } => PullModel::Refused {
                message: message@,
                remove_partial,
            },
        }
    }
}

/// What to do with a SYNC message during a pull of `remote`.
pub open spec fn pull_model(remote: Seq<char>, id: u32, data: Seq<u8>) -> PullModel {
    if id == SYNC_DATA {
        PullModel::Data(data)
    } else if id == SYNC_DONE {
        PullModel::Done
    } else if id == SYNC_FAIL {
        PullModel::Refused {
            message: "pull "@ + remote + " failed: "@ + lossy_text(data),
            remove_partial: true,
        }
    } else if id == SYNC_OKAY {
        PullModel::Refused {
            message: "unexpected SYNC OKAY during recv of "@ + remote,
            remove_partial: false,
        }
    } else {
        PullModel::Refused {
            message: "unexpected SYNC id "@ + hex_text(id) + " during recv"@,
            remove_partial: true,
        }
    }
}

/// What to do with a SYNC message during a pull of `remote`.
pub fn pull_step(remote: &str, id: u32, data: Vec<u8>) -> (r: PullStep)
    ensures
        r@ == pull_model(remote@, id, data@),
{
    if id == SYNC_DATA {
        return PullStep::Data(data);
    }
    if id == SYNC_DONE {
        return PullStep::Done;
    }
    let mut m = String::new();
    let mut remove_partial = true;
    if id == SYNC_FAIL {
        m.append("pull ");
        m.append(remote);
        m.append(" failed: ");
        m.append(from_utf8_lossy(data.as_slice()).as_str());
        assert(m@ =~= "pull "@ + remote@ + " failed: "@ + lossy_text(data@));
    } else if id == SYNC_OKAY {
        m.append("unexpected SYNC OKAY during recv of ");
        m.append(remote);
        remove_partial = false;
        assert(m@ =~= "unexpected SYNC OKAY during recv of "@ + remote@);
    } else {
        m.append("unexpected SYNC id ");
        m.append("0x");
        m.append(number(id as u64, 16).as_str());
        m.append(" during recv");
        assert(m@ =~= "unexpected SYNC id "@ + hex_text(id) + " during recv"@);
    }
    PullStep::Refused { message: m, remove_partial }
}

/// An open `sync:` service with the connection that it runs over.
pub struct SyncStream<T> {
    transport: T,
    local_id: u32,
    remote_id: u32,
}

/// What the outcome of sending a block means, whether or not the connection failed meanwhile: it is
/// a success only if the block was sent and the device took it.
pub open spec fn block_outcome<T: Transport>(
    r: Result<(), ClientError>,
    before: T,
    after: T,
    local_id: u32,
    remote_id: u32,
    block: Seq<u8>,
) -> bool {
    let answer = blocks_sent(before.incoming(), local_id, remote_id, seq![block]);
    let sent = before.written() + message_bytes(A_WRTE, local_id, remote_id, block);
    match r {
        Ok(()) => (answer matches Some((ok, _, rest)) && ok && after.incoming() == rest) && goes_on(
            after.written(),
            sent,
        ),
        Err(ClientError::Failed(m)) => (answer matches Some((ok, _, rest)) && !ok
            && after.incoming() == rest) && goes_on(after.written(), sent) && m@
            == "Connection closed by peer"@,
        Err(ClientError::Transport(e)) => e is Io || answer is None,
        Err(_) => false,
    }
}

/// What the outcome of reading a SYNC message means, whether or not the connection failed
/// meanwhile: it is a success only if the message came and was acknowledged.
pub open spec fn reply_outcome<T: Transport>(
    r: Result<(u32, Seq<u8>), ClientError>,
    before: T,
    after: T,
    local_id: u32,
) -> bool {
    let reply = sync_reply(before.incoming(), local_id);
    match r {
        Ok((id, data)) => (reply matches Some((m, sent, rest)) && m == SyncReply::Message(
            Ok((id, data)),
        ) && after.incoming() == rest && after.written() == before.written() + sent)
            && after.faults() == before.faults(),
        Err(ClientError::Failed(t)) => reply matches Some((m, _, rest)) && after.incoming() == rest
            && match m {
            SyncReply::Closed => t@ == "SYNC connection closed by device"@,
            SyncReply::Message(Err(text)) => t@ == text,
            SyncReply::Message(Ok(_)) => false,
        },
        Err(ClientError::Transport(e)) => e is Io || reply is None,
        Err(_) => false,
    }
}

/// The device took all the blocks of a push and then said OKAY.
pub open spec fn push_accepted(
    s: Seq<u8>,
    local_id: u32,
    remote_id: u32,
    blocks: Seq<Seq<u8>>,
) -> bool {
    blocks_sent(s, local_id, remote_id, blocks) matches Some((all, _, rest)) && all && (sync_reply(
        rest,
        local_id,
    ) matches Some((SyncReply::Message(Ok((id, _))), _, _)) && id == SYNC_OKAY)
}

/// What pushing a file comes to when the connection holds.
pub open spec fn pushed<T: Transport>(
    r: Result<(), ClientError>,
    before: T,
    after: T,
    local_id: u32,
    remote_id: u32,
    remote: Seq<char>,
    blocks: Seq<Seq<u8>>,
) -> bool {
    match blocks_sent(before.incoming(), local_id, remote_id, blocks) {
        None => r matches Err(ClientError::Transport(_)),
        Some((all, sent, rest)) => if !all {
            &&& r matches Err(ClientError::Failed(m))
            &&& m@ == "Connection closed by peer"@
            &&& after.written() == before.written() + sent
            &&& after.incoming() == rest
        } else {
            match sync_reply(rest, local_id) {
                None => r matches Err(ClientError::Transport(_)),
                Some((reply, answer, behind)) => {
                    &&& after.written() == before.written() + sent + answer
                    &&& after.incoming() == behind
                    &&& match reply {
                        SyncReply::Closed => r matches Err(ClientError::Failed(m)) && m@
                            == "SYNC connection closed by device"@,
                        SyncReply::Message(Err(t)) => r matches Err(ClientError::Failed(m)) && m@
                            == t,
                        SyncReply::Message(Ok((id, data))) => match push_verdict(remote, id, data) {
                            None => r is Ok,
                            Some(t) => r matches Err(ClientError::Failed(m)) && m@ == t,
                        },
                    }
                },
            }
        },
    }
}

impl<T: Transport> SyncStream<T> {
    /// The connection.
    pub closed spec fn inner(&self) -> T {
        self.transport
    }

    /// The number of the service on this side.
    pub closed spec fn local(&self) -> u32 {
        self.local_id
    }

    /// The number of the service on the other side.
    pub closed spec fn remote(&self) -> u32 {
        self.remote_id
    }

    /// A SYNC stream over a service that is open under these numbers.
    pub fn new(transport: T, local_id: u32, remote_id: u32) -> (r: SyncStream<T>)
        ensures
            r.inner() == transport,
            r.local() == local_id,
            r.remote() == remote_id,
    {
        SyncStream { transport, local_id, remote_id }
    }

    /// Gives the connection back.
    pub fn into_inner(self) -> (r: T)
        ensures
            r == self.inner(),
    {
        self.transport
    }

    /// Sends a SYNC message that is already serialized as one WRTE, and waits until it is
    /// acknowledged.
    pub fn send_block(&mut self, block: &[u8]) -> (r: Result<(), ClientError>)
        ensures
            final(self).local() == old(self).local(),
            final(self).remote() == old(self).remote(),
            final(self).inner().faults() >= old(self).inner().faults(),
            (r matches Err(e) && e.is_io()) ==> final(self).inner().faults() > old(self).inner().faults(),
            block_outcome(
                r,
                old(self).inner(),
                final(self).inner(),
                old(self).local(),
                old(self).remote(),
                block@,
            ),
            final(self).inner().faults() == old(self).inner().faults() ==> match blocks_sent(
                old(self).inner().incoming(),
                old(self).local(),
                old(self).remote(),
                seq![block@],
            ) {
                None => r matches Err(ClientError::Transport(_)),
                Some((ok, sent, rest)) => {
                    &&& final(self).inner().written() == old(self).inner().written() + sent
                    &&& final(self).inner().incoming() == rest
                    &&& if ok {
                        r is Ok
                    } else {
                        r matches Err(ClientError::Failed(m)) && m@ == "Connection closed by peer"@
                    }
                },
            },
    {
        let ghost s = self.transport.incoming();
        let ghost base = self.transport.written();
        let r = send_wrte(&mut self.transport, self.local_id, self.remote_id, block);
        proof {
            let wrte = message_bytes(A_WRTE, self.local_id, self.remote_id, block@);
            let blocks = seq![block@];
            assert(blocks.skip(1) =~= Seq::<Seq<u8>>::empty());
            match acknowledged(s, self.local_id) {
                Some((_, acks, rest)) => {
                    assert(blocks_sent(rest, self.local_id, self.remote_id, blocks.skip(1)) == Some(
                        (true, Seq::<u8>::empty(), rest),
                    ));
                    assert(wrte + acks + Seq::<u8>::empty() =~= wrte + acks);
                    assert(base + wrte + acks =~= base + (wrte + acks));
                },
                None => {},
            }
        }
        r
    }

    /// Sends one SYNC message as one WRTE, and waits until it is acknowledged.
    pub fn send_msg(&mut self, id: u32, payload: &[u8]) -> (r: Result<(), ClientError>)
        ensures
            final(self).local() == old(self).local(),
            final(self).remote() == old(self).remote(),
            final(self).inner().faults() >= old(self).inner().faults(),
            (r matches Err(e) && e.is_io()) ==> final(self).inner().faults() > old(self).inner().faults(),
            block_outcome(
                r,
                old(self).inner(),
                final(self).inner(),
                old(self).local(),
                old(self).remote(),
                sync_header(id, low_u32(payload@.len() as int)) + payload@,
            ),
            final(self).inner().faults() == old(self).inner().faults() ==> match blocks_sent(
                old(self).inner().incoming(),
                old(self).local(),
                old(self).remote(),
                seq![sync_header(id, low_u32(payload@.len() as int)) + payload@],
            ) {
                None => r matches Err(ClientError::Transport(_)),
                Some((ok, sent, rest)) => {
                    &&& final(self).inner().written() == old(self).inner().written() + sent
                    &&& final(self).inner().incoming() == rest
                    &&& if ok {
                        r is Ok
                    } else {
                        r matches Err(ClientError::Failed(m)) && m@ == "Connection closed by peer"@
                    }
                },
            },
    {
        let mut buf: Vec<u8> = Vec::new();
        push_u32(&mut buf, id);
        push_u32(&mut buf, truncate_len(payload.len()));
        push_bytes(&mut buf, payload);
        assert(buf@ =~= sync_header(id, low_u32(payload@.len() as int)) + payload@);
        self.send_block(buf.as_slice())
    }

    /// Reads one SYNC message. Messages that only acknowledge are passed over.
    pub fn recv_msg(&mut self) -> (r: Result<(u32, Vec<u8>), ClientError>)
        ensures
            final(self).local() == old(self).local(),
            final(self).remote() == old(self).remote(),
            final(self).inner().faults() >= old(self).inner().faults(),
            (r matches Err(e) && e.is_io()) ==> final(self).inner().faults() > old(self).inner().faults(),
            reply_outcome(
                match r {
                    Ok((id, data)) => Ok((id, data@)),
                    Err(e) => Err(e),
                },
                old(self).inner(),
                final(self).inner(),
                old(self).local(),
            ),
            final(self).inner().faults() == old(self).inner().faults() ==> match sync_reply(
                old(self).inner().incoming(),
                old(self).local(),
            ) {
                None => r matches Err(ClientError::Transport(_)),
                Some((reply, sent, rest)) => {
                    &&& final(self).inner().written() == old(self).inner().written() + sent
                    &&& final(self).inner().incoming() == rest
                    &&& match reply {
                        SyncReply::Closed => r matches Err(ClientError::Failed(m)) && m@
                            == "SYNC connection closed by device"@,
                        SyncReply::Message(Err(t)) => r matches Err(ClientError::Failed(m)) && m@
                            == t,
                        SyncReply::Message(Ok((id, data))) => r matches Ok((k, v)) && k == id && v@
                            == data,
                    }
                },
            },
    {
        loop
            invariant
                self.local() == old(self).local(),
                self.remote() == old(self).remote(),
                self.inner().faults() == old(self).inner().faults(),
                self.inner().written() == old(self).inner().written(),
                sync_reply(self.inner().incoming(), self.local()) == sync_reply(
                    old(self).inner().incoming(),
                    old(self).local(),
                ),
            decreases self.inner().incoming().len(),
        {
            let (hdr, payload) = match self.transport.recv_message() {
                Ok(m) => m,
                Err(e) => {
                    return Err(ClientError::Transport(e));
                },
            };
            let empty: Vec<u8> = Vec::new();
            assert(empty@ =~= Seq::<u8>::empty());
            if hdr.command == A_WRTE {
                match send(&mut self.transport, A_OKAY, self.local_id, hdr.arg0, empty.as_slice()) {
                    Ok(()) => {},
                    Err(e) => {
                        return Err(ClientError::Transport(e));
                    },
                }
                return match parse_sync_message(payload.as_slice()) {
                    Ok(m) => Ok(m),
                    Err(m) => Err(ClientError::Failed(m)),
                };
            }
            if hdr.command == A_CLSE {
                let _ = send(
                    &mut self.transport,
                    A_CLSE,
                    self.local_id,
                    hdr.arg0,
                    empty.as_slice(),
                );
                return Err(ClientError::Failed(owned("SYNC connection closed by device")));
            }
        }
    }

    /// Reads the device's last word on a push.
    pub fn finish_push(&mut self, remote: &str) -> (r: Result<(), ClientError>)
        ensures
            final(self).local() == old(self).local(),
            final(self).remote() == old(self).remote(),
            final(self).inner().faults() >= old(self).inner().faults(),
            (r matches Err(e) && e.is_io()) ==> final(self).inner().faults() > old(self).inner().faults(),
            r is Ok ==> final(self).inner().faults() == old(self).inner().faults() && push_accepted(
                old(self).inner().incoming(),
                old(self).local(),
                old(self).remote(),
                Seq::empty(),
            ),
            final(self).inner().faults() == old(self).inner().faults() ==> pushed(
                r,
                old(self).inner(),
                final(self).inner(),
                old(self).local(),
                old(self).remote(),
                remote@,
                Seq::empty(),
            ),
    {
        let ghost base = self.transport.written();
        assert(base + Seq::<u8>::empty() =~= base);
        let (id, msg) = self.recv_msg()?;
        if id == SYNC_OKAY {
            return Ok(());
        }
        let mut m = String::new();
        if id == SYNC_FAIL {
            m.append("device rejected push of ");
            m.append(remote);
            m.append(": ");
            m.append(from_utf8_lossy(msg.as_slice()).as_str());
            assert(m@ =~= "device rejected push of "@ + remote@ + ": "@ + lossy_text(msg@));
        } else {
            m.append("unexpected SYNC reply after DONE: ");
            m.append("0x");
            m.append(number(id as u64, 16).as_str());
            assert(m@ =~= "unexpected SYNC reply after DONE: "@ + hex_text(id));
        }
        Err(ClientError::Failed(m))
    }

    /// Pushes data to a file on the device: SEND, the data in pieces, DONE, and only then the
    /// device's one word on it.
    pub fn push_bytes(&mut self, remote: &str, data: &[u8], mode: u32) -> (r: Result<
        (),
        ClientError,
    >)
        ensures
            final(self).local() == old(self).local(),
            final(self).remote() == old(self).remote(),
            final(self).inner().faults() >= old(self).inner().faults(),
            (r matches Err(e) && e.is_io()) ==> final(self).inner().faults() > old(self).inner().faults(),
            r is Ok ==> push_accepted(
                old(self).inner().incoming(),
                old(self).local(),
                old(self).remote(),
                push_blocks(remote@, mode, data@),
            ),
            match send_refusal(remote@, mode) {
                Some(e) => final(self).inner() == old(self).inner() && (r matches Err(
                    ClientError::Failed(m),
                ) && m@ == sync_error_text(e)),
                None => final(self).inner().faults() == old(self).inner().faults() ==> pushed(
                    r,
                    old(self).inner(),
                    final(self).inner(),
                    old(self).local(),
                    old(self).remote(),
                    remote@,
                    push_blocks(remote@, mode, data@),
                ),
            },
    {
        let ghost s0 = self.transport.incoming();
        let ghost base = self.transport.written();
        let ghost f0 = self.transport.faults();
        let ghost chunks = chunked(data@, SYNC_DATA_MAX as nat);
        let ghost blocks = push_blocks(remote@, mode, data@);
        let ghost mut done: Seq<u8> = Seq::empty();
        let mut buf: Vec<u8> = Vec::new();
        match build_sync_send_req(remote, mode, &mut buf) {
            Ok(()) => {},
            Err(e) => {
                return Err(ClientError::Failed(e.message()));
            },
        }
        proof {
            assert(buf@ =~= blocks[0]);
            assert(base + done =~= base);
            lemma_blocks_start(s0, self.local_id, self.remote_id, blocks);
            lemma_block_step(s0, s0, self.local_id, self.remote_id, blocks, 0, done);
        }
        self.send_block(buf.as_slice())?;
        proof {
            match blocks_sent(s0, self.local_id, self.remote_id, seq![blocks[0]]) {
                Some((_, sent, _)) => {
                    done = done + sent;
                    assert(base + done =~= base + sent);
                },
                None => {},
            }
        }
        let mut at: usize = 0;
        let ghost mut i: int = 0;
        assert(data@.skip(0) =~= data@);
        while at < data.len()
            invariant
                self.local() == old(self).local(),
                self.remote() == old(self).remote(),
                s0 == old(self).inner().incoming(),
                base == old(self).inner().written(),
                f0 == old(self).inner().faults(),
                chunks == chunked(data@, SYNC_DATA_MAX as nat),
                blocks == push_blocks(remote@, mode, data@),
                send_refusal(remote@, mode) is None,
                at <= data@.len(),
                0 <= i <= chunks.len(),
                chunks.skip(i) == chunked(data@.skip(at as int), SYNC_DATA_MAX as nat),
                self.inner().faults() >= f0,
                self.inner().faults() == f0 ==> self.inner().written() == base + done,
                blocks_step(
                    s0,
                    self.inner().incoming(),
                    self.local(),
                    self.remote(),
                    blocks,
                    i + 1,
                    done,
                ),
            decreases data@.len() - at,
        {
            let room: usize = data.len() - at;
            let size: usize = if room < SYNC_DATA_MAX {
                room
            } else {
                SYNC_DATA_MAX
            };
            let chunk = slice_subrange(data, at, at + size);
            let ghost rest = data@.skip(at as int);
            proof {
                assert(chunk@ =~= rest.take(size as int));
                if rest.len() <= SYNC_DATA_MAX {
                    assert(rest.take(size as int) =~= rest);
                }
                assert(chunked(rest, SYNC_DATA_MAX as nat)[0] == chunk@);
                assert(chunks.skip(i).len() > 0);
                assert(chunks.skip(i)[0] == chunks[i]);
                assert(chunks[i] == chunk@);
                assert(blocks[i + 1] == data_blocks(chunks)[i]);
                assert(blocks[i + 1] == data_block(chunk@));
            }
            let mut block: Vec<u8> = Vec::new();
            match build_sync_data_chunk(chunk, &mut block) {
                Ok(()) => {},
                Err(e) => {
                    assert(false);
                    return Err(ClientError::Failed(e.message()));
                },
            }
            assert(block@ =~= blocks[i + 1]);
            let ghost now = self.inner().incoming();
            proof {
                lemma_block_step(s0, now, self.local_id, self.remote_id, blocks, i + 1, done);
            }
            proof {
                match blocks_sent(now, self.local_id, self.remote_id, seq![blocks[i + 1]]) {
                    Some((_, sent, _)) => {
                        assert(base + done + sent =~= base + (done + sent));
                    },
                    None => {},
                }
            }
            self.send_block(block.as_slice())?;
            proof {
                match blocks_sent(now, self.local_id, self.remote_id, seq![blocks[i + 1]]) {
                    Some((_, sent, _)) => {
                        done = done + sent;
                    },
                    None => {},
                }
                assert(chunks.skip(i).skip(1) =~= chunks.skip(i + 1));
                assert(rest.skip(size as int) =~= data@.skip(at + size));
                if rest.len() <= SYNC_DATA_MAX {
                    assert(seq![rest].skip(1) =~= Seq::<Seq<u8>>::empty());
                } else {
                    let more = chunked(rest.skip(SYNC_DATA_MAX as int), SYNC_DATA_MAX as nat);
                    assert((seq![rest.take(SYNC_DATA_MAX as int)] + more).skip(1) =~= more);
                }
                i = i + 1;
            }
            at = at + size;
        }
        proof {
            assert(data@.skip(at as int) =~= Seq::<u8>::empty());
            assert(chunks.skip(i).len() == 0);
            assert(i == chunks.len());
        }
        let mut last: Vec<u8> = Vec::new();
        match build_sync_done(0xFFFF_FFFF, &mut last) {
            Ok(()) => {},
            Err(e) => {
                return Err(ClientError::Failed(e.message()));
            },
        }
        assert(last@ =~= blocks[i + 1]);
        let ghost now = self.inner().incoming();
        proof {
            lemma_block_step(s0, now, self.local_id, self.remote_id, blocks, i + 1, done);
        }
        proof {
            match blocks_sent(now, self.local_id, self.remote_id, seq![blocks[i + 1]]) {
                Some((_, sent, _)) => {
                    assert(base + done + sent =~= base + (done + sent));
                },
                None => {},
            }
        }
        self.send_block(last.as_slice())?;
        let ghost mid = self.inner();
        proof {
            match blocks_sent(now, self.local_id, self.remote_id, seq![blocks[i + 1]]) {
                Some((_, sent, _)) => {
                    done = done + sent;
                },
                None => {},
            }
            assert(blocks.skip(blocks.len() as int) =~= Seq::<Seq<u8>>::empty());
            assert(done + Seq::<u8>::empty() =~= done);
            assert(mid.written() + Seq::<u8>::empty() =~= mid.written());
        }
        self.finish_push(remote)
    }

    /// Reads the next SYNC message of a pull and tells what to do with it.
    pub fn next_pull_step(&mut self, remote: &str) -> (r: Result<PullStep, ClientError>)
        ensures
            final(self).local() == old(self).local(),
            final(self).remote() == old(self).remote(),
            final(self).inner().faults() >= old(self).inner().faults(),
            (r matches Err(e) && e.is_io()) ==> final(self).inner().faults() > old(self).inner().faults(),
            match r {
                Ok(step) => exists|id: u32, data: Seq<u8>|
                    step@ == #[trigger] pull_model(remote@, id, data) && reply_outcome(
                        Ok((id, data)),
                        old(self).inner(),
                        final(self).inner(),
                        old(self).local(),
                    ),
                Err(e) => reply_outcome(
                    Err(e),
                    old(self).inner(),
                    final(self).inner(),
                    old(self).local(),
                ),
            },
            final(self).inner().faults() == old(self).inner().faults() ==> match sync_reply(
                old(self).inner().incoming(),
                old(self).local(),
            ) {
                None => r matches Err(ClientError::Transport(_)),
                Some((reply, sent, rest)) => {
                    &&& final(self).inner().written() == old(self).inner().written() + sent
                    &&& final(self).inner().incoming() == rest
                    &&& match reply {
                        SyncReply::Closed => r matches Err(ClientError::Failed(m)) && m@
                            == "SYNC connection closed by device"@,
                        SyncReply::Message(Err(t)) => r matches Err(ClientError::Failed(m)) && m@
                            == t,
                        SyncReply::Message(Ok((id, data))) => r matches Ok(step) && step@
                            == pull_model(remote@, id, data),
                    }
                },
            },
    {
        let (id, data) = self.recv_msg()?;
        Ok(pull_step(remote, id, data))
    }

    /// Closes the stream: QUIT, and the end of the service. No reply is expected, and a failure
    /// to send is not minded.
    pub fn quit(&mut self) -> (r: Result<(), ClientError>)
        ensures
            r is Ok,
            final(self).inner().incoming() == old(self).inner().incoming(),
            final(self).inner().faults() >= old(self).inner().faults(),
            final(self).inner().faults() == old(self).inner().faults() ==> final(self).inner().written()
                == old(self).inner().written() + message_bytes(
                A_WRTE,
                old(self).local(),
                old(self).remote(),
                sync_header(SYNC_QUIT, 0),
            ) + message_bytes(A_CLSE, old(self).local(), old(self).remote(), Seq::empty())
                && final(self).inner().held_back() == 0,
    {
        let mut buf: Vec<u8> = Vec::new();
        push_u32(&mut buf, SYNC_QUIT);
        push_u32(&mut buf, 0);
        assert(buf@ =~= sync_header(SYNC_QUIT, 0));
        let empty: Vec<u8> = Vec::new();
        assert(empty@ =~= Seq::<u8>::empty());
        let _ = send(&mut self.transport, A_WRTE, self.local_id, self.remote_id, buf.as_slice());
        let _ = send(&mut self.transport, A_CLSE, self.local_id, self.remote_id, empty.as_slice());
        Ok(())
    }
}

/// Why no request to send a file can be made.
pub open spec fn send_refusal(remote: Seq<char>, mode: u32) -> Option<SyncErrorModel> {
    match path_error(remote, false) {
        Some(m) => Some(SyncErrorModel::InvalidPath(m)),
        None => if encode_utf8(send_text(remote, mode)).len() > u32::MAX {
            Some(SyncErrorModel::InvalidPath("Request payload length exceeds u32::MAX"@))
        } else {
            None
        },
    }
}

/// With `i` blocks sent, which made `done` go out, what is left of the stream is `now`.
spec fn blocks_step(
    start: Seq<u8>,
    now: Seq<u8>,
    local_id: u32,
    remote_id: u32,
    blocks: Seq<Seq<u8>>,
    i: int,
    done: Seq<u8>,
) -> bool {
    match blocks_sent(now, local_id, remote_id, blocks.skip(i)) {
        Some((all, more, rest)) => blocks_sent(start, local_id, remote_id, blocks) == Some(
            (all, done + more, rest),
        ),
        None => blocks_sent(start, local_id, remote_id, blocks) is None,
    }
}

proof fn lemma_blocks_start(start: Seq<u8>, local_id: u32, remote_id: u32, blocks: Seq<Seq<u8>>)
    ensures
        blocks_step(start, start, local_id, remote_id, blocks, 0, Seq::empty()),
{
    assert(blocks.skip(0) =~= blocks);
    match blocks_sent(start, local_id, remote_id, blocks) {
        Some((_, more, _)) => {
            assert(Seq::<u8>::empty() + more =~= more);
        },
        None => {},
    }
}

proof fn lemma_block_step(
    start: Seq<u8>,
    now: Seq<u8>,
    local_id: u32,
    remote_id: u32,
    blocks: Seq<Seq<u8>>,
    i: int,
    done: Seq<u8>,
)
    requires
        0 <= i < blocks.len(),
        blocks_step(start, now, local_id, remote_id, blocks, i, done),
    ensures
        match blocks_sent(now, local_id, remote_id, seq![blocks[i]]) {
            None => blocks_sent(start, local_id, remote_id, blocks) is None,
            Some((ok, sent, rest)) => if ok {
                blocks_step(start, rest, local_id, remote_id, blocks, i + 1, done + sent)
            } else {
                blocks_sent(start, local_id, remote_id, blocks) == Some((false, done + sent, rest))
            },
        },
{
    let left = blocks.skip(i);
    let one = seq![blocks[i]];
    assert(left[0] == blocks[i]);
    assert(left.skip(1) =~= blocks.skip(i + 1));
    assert(one.skip(1) =~= Seq::<Seq<u8>>::empty());
    let wrte = message_bytes(A_WRTE, local_id, remote_id, blocks[i]);
    match acknowledged(now, local_id) {
        None => {},
        Some((ok, acks, rest)) => {
            if ok {
                assert(blocks_sent(rest, local_id, remote_id, one.skip(1)) == Some(
                    (true, Seq::<u8>::empty(), rest),
                ));
                assert(wrte + acks + Seq::<u8>::empty() =~= wrte + acks);
                match blocks_sent(rest, local_id, remote_id, left.skip(1)) {
                    Some((_, more, _)) => {
                        assert(done + (wrte + acks + more) =~= done + (wrte + acks) + more);
                    },
                    None => {},
                }
            }
        },
    }
}

/// The message in a payload of a header and data is that data, all of it, whatever its length. Only
/// a DONE has none.
pub proof fn sync_message_is_read_back(id: u32, data: Seq<u8>, rest: Seq<u8>)
    requires
        id != SYNC_DONE,
        data.len() <= u32::MAX,
    ensures
        sync_message_in(sync_header(id, data.len() as u32) + data + rest) == Ok::<
            (u32, Seq<u8>),
            Seq<char>,
        >((id, data)),
{
    let n = data.len() as u32;
    let p = sync_header(id, n) + data + rest;
    lemma_u32_round_trip(id);
    lemma_u32_round_trip(n);
    assert(p.subrange(0, 4) =~= le_bytes(id as nat, 4));
    assert(p.subrange(4, 8) =~= le_bytes(n as nat, 4));
    assert(p.subrange(8, 8 + n as int) =~= data);
}

/// A block of data is read back as its data, whatever its length.
pub proof fn data_block_is_read_back(data: Seq<u8>)
    requires
        data.len() <= u32::MAX,
    ensures
        sync_message_in(data_block(data)) == Ok::<(u32, Seq<u8>), Seq<char>>((SYNC_DATA, data)),
{
    sync_message_is_read_back(SYNC_DATA, data, Seq::empty());
    assert(data_block(data) + Seq::<u8>::empty() =~= data_block(data));
}

/// A DONE is read back, whatever time it tells.
pub proof fn done_is_read_back(time: u32)
    ensures
        sync_message_in(sync_header(SYNC_DONE, time)) == Ok::<(u32, Seq<u8>), Seq<char>>(
            (SYNC_DONE, Seq::empty()),
        ),
{
    let p = sync_header(SYNC_DONE, time);
    lemma_u32_round_trip(SYNC_DONE);
    lemma_u32_round_trip(time);
    assert(p.subrange(0, 4) =~= le_bytes(SYNC_DONE as nat, 4));
}

/// What a device sends for a pull of a file that it reads in these pieces: each piece as a DATA
/// block, and DONE, each in a WRTE of its own.
pub open spec fn pull_stream(pieces: Seq<Seq<u8>>, peer: u32, local_id: u32, time: u32) -> Seq<u8>
    decreases pieces.len(),
{
    if pieces.len() == 0 {
        message_bytes(A_WRTE, peer, local_id, sync_header(SYNC_DONE, time))
    } else {
        message_bytes(A_WRTE, peer, local_id, data_block(pieces[0])) + pull_stream(
            pieces.skip(1),
            peer,
            local_id,
            time,
        )
    }
}

/// What a pull takes from a stream in `n` steps: the bytes that it is told to write, whether it is
/// told that the file is complete, and the stream behind. A refusal ends it.
pub open spec fn pulled(s: Seq<u8>, local_id: u32, remote: Seq<char>, n: nat) -> Option<
    (Seq<u8>, bool, Seq<u8>),
>
    decreases n,
{
    if n == 0 {
        Some((Seq::empty(), false, s))
    } else {
        match sync_reply(s, local_id) {
            Some((SyncReply::Message(Ok((id, data))), _, rest)) => match pull_model(
                remote,
                id,
                data,
            ) {
                PullModel::Data(d) => match pulled(rest, local_id, remote, (n - 1) as nat) {
                    Some((more, done, behind)) => Some((d + more, done, behind)),
                    None => None,
                },
                PullModel::Done => Some((Seq::empty(), true, rest)),
                PullModel::Refused { .. } => None,
            },
            _ => None,
        }
    }
}

/// A file is pulled byte for byte: the data that the steps of a pull say to write, one after
/// another, are the pieces that the device sent, and behind the last the file is complete.
pub proof fn pull_gives_the_file(
    pieces: Seq<Seq<u8>>,
    peer: u32,
    local_id: u32,
    time: u32,
    remote: Seq<char>,
    rest: Seq<u8>,
)
    requires
        forall|i: int| 0 <= i < pieces.len() ==> (#[trigger] pieces[i]).len() + 8 <= MAX_PAYLOAD_V2,
    ensures
        pulled(
            pull_stream(pieces, peer, local_id, time) + rest,
            local_id,
            remote,
            pieces.len() + 1,
        ) == Some((joined_chunks(pieces), true, rest)),
    decreases pieces.len(),
{
    let s = pull_stream(pieces, peer, local_id, time) + rest;
    if pieces.len() == 0 {
        let done = sync_header(SYNC_DONE, time);
        lemma_u32_round_trip(SYNC_DONE);
        lemma_u32_round_trip(time);
        done_is_read_back(time);
        sent_message_is_received(A_WRTE, peer, local_id, done, rest);
    } else {
        let d = pieces[0];
        let left = pieces.skip(1);
        let later = pull_stream(left, peer, local_id, time) + rest;
        let block = data_block(d);
        lemma_u32_round_trip(SYNC_DATA);
        lemma_u32_round_trip(d.len() as u32);
        assert(block.len() == d.len() + 8);
        assert(s =~= message_bytes(A_WRTE, peer, local_id, block) + later);
        data_block_is_read_back(d);
        sent_message_is_received(A_WRTE, peer, local_id, block, later);
        assert forall|i: int| 0 <= i < left.len() implies (#[trigger] left[i]).len() + 8
            <= MAX_PAYLOAD_V2 by {
            assert(left[i] == pieces[i + 1]);
        }
        pull_gives_the_file(left, peer, local_id, time, remote, rest);
        assert(pulled(later, local_id, remote, pieces.len()) == Some(
            (joined_chunks(left), true, rest),
        ));
    }
}

/// What a push sends is, block by block, a SEND with the path, a comma and the mode in decimal, the
/// file in DATA blocks of at most 64 KiB that make it up, and a DONE.
pub proof fn push_sends_the_file(remote: Seq<char>, mode: u32, data: Seq<u8>)
    requires
        encode_utf8(send_text(remote, mode)).len() <= u32::MAX,
    ensures
        ({
            let b = push_blocks(remote, mode, data);
            let n = b.len() - 1;
            &&& n >= 1
            &&& sync_message_in(b[0]) == Ok::<(u32, Seq<u8>), Seq<char>>(
                (SYNC_SEND, encode_utf8(remote + seq![','] + dec(mode as nat))),
            )
            &&& sync_message_in(b[n]) == Ok::<(u32, Seq<u8>), Seq<char>>(
                (SYNC_DONE, Seq::empty()),
            )
            &&& exists|pieces: Seq<Seq<u8>>|
                pieces.len() == n - 1 && #[trigger] joined_chunks(pieces) == data && forall|i: int|
                    1 <= i < n ==> 0 < pieces[i - 1].len() <= 65536 && sync_message_in(
                        #[trigger] b[i],
                    ) == Ok::<(u32, Seq<u8>), Seq<char>>((SYNC_DATA, pieces[i - 1]))
        }),
{
    let b = push_blocks(remote, mode, data);
    let pieces = chunked(data, SYNC_DATA_MAX as nat);
    let n = b.len() - 1;
    chunks_make_up_the_data(data, SYNC_DATA_MAX as nat);
    let text = encode_utf8(send_text(remote, mode));
    reveal_strlit(",");
    assert(","@ =~= seq![',']);
    assert(send_text(remote, mode) =~= remote + seq![','] + dec(mode as nat));
    sync_message_is_read_back(SYNC_SEND, text, Seq::empty());
    assert(path_request(SYNC_SEND, send_text(remote, mode)) + Seq::<u8>::empty() =~= path_request(
        SYNC_SEND,
        send_text(remote, mode),
    ));
    done_is_read_back(0xFFFF_FFFF);
    assert forall|i: int| 1 <= i < n implies 0 < pieces[i - 1].len() <= 65536 && sync_message_in(
        #[trigger] b[i],
    ) == Ok::<(u32, Seq<u8>), Seq<char>>((SYNC_DATA, pieces[i - 1])) by {
        assert(b[i] == data_block(pieces[i - 1]));
        assert(0 < pieces[i - 1].len() <= SYNC_DATA_MAX);
        data_block_is_read_back(pieces[i - 1]);
    }
    assert(joined_chunks(pieces) == data);
}

/// A push succeeds only on the word OKAY, and a pull writes only what came as DATA and is complete
/// only on DONE. Every other word is a failure with a text.
pub proof fn only_the_right_words_succeed(remote: Seq<char>, id: u32, data: Seq<u8>)
    ensures
        push_verdict(remote, id, data) is None <==> id == SYNC_OKAY,
        pull_model(remote, id, data) is Done <==> id == SYNC_DONE,
        pull_model(remote, id, data) is Data <==> id == SYNC_DATA,
        pull_model(remote, id, data) matches PullModel::Data(d) ==> d == data,
        pull_model(remote, id, data) matches PullModel::Refused { remove_partial, .. } ==> (
        remove_partial <==> id != SYNC_OKAY),
{
}

/// The reason that a device gives stands in the text of a failed push and of a failed pull.
pub proof fn reasons_are_told(remote: Seq<char>, reason: Seq<char>)
    ensures
        push_verdict(remote, SYNC_FAIL, encode_utf8(reason)) == Some(
            "device rejected push of "@ + remote + seq![':', ' '] + reason,
        ),
        pull_model(remote, SYNC_FAIL, encode_utf8(reason)) == (PullModel::Refused {
            message: "pull "@ + remote + " failed: "@ + reason,
            remove_partial: true,
        }),
{
    utf8_round_trip(reason);
    reveal_strlit(": ");
    assert(": "@ =~= seq![':', ' ']);
}

/// Messages that neither hold data nor close.
pub open spec fn are_no_replies(ms: Seq<Sent>) -> bool {
    forall|i: int|
        0 <= i < ms.len() ==> (#[trigger] ms[i]).command != 0x4554_5257 && ms[i].command
            != 0x4553_4c43
}

/// The reply of a device is the first message of data, whatever comes before it; it is
/// acknowledged to its sender. A close in its place is answered by a close.
pub proof fn reply_is_the_first_data(ms: Seq<Sent>, x: Sent, rest: Seq<u8>, local_id: u32)
    requires
        payloads_fit(ms),
        are_no_replies(ms),
        x.payload.len() <= 1024 * 1024,
        x.command == 0x4554_5257 || x.command == 0x4553_4c43,
    ensures
        sync_reply(
            stream_of(ms) + (message_bytes(x.command, x.arg0, x.arg1, x.payload) + rest),
            local_id,
        ) == Some(
            if x.command == 0x4554_5257 {
                (
                    SyncReply::Message(sync_message_in(x.payload)),
                    message_bytes(0x5941_4b4f, local_id, x.arg0, Seq::empty()),
                    rest,
                )
            } else {
                (
                    SyncReply::Closed,
                    message_bytes(0x4553_4c43, local_id, x.arg0, Seq::empty()),
                    rest,
                )
            },
        ),
    decreases ms.len(),
{
    let tail = message_bytes(x.command, x.arg0, x.arg1, x.payload) + rest;
    if ms.len() == 0 {
        let one = seq![x];
        assert(one.skip(1) =~= Seq::<Sent>::empty());
        lemma_stream_step(one, rest);
        assert(stream_of(one) =~= message_bytes(x.command, x.arg0, x.arg1, x.payload));
        assert(stream_of(one.skip(1)) + rest =~= rest);
        assert(stream_of(ms) + tail =~= stream_of(one) + rest);
    } else {
        let left = ms.skip(1);
        lemma_stream_step(ms, tail);
        assert(ms[0].command != 0x4554_5257 && ms[0].command != 0x4553_4c43);
        assert forall|i: int| 0 <= i < left.len() implies (#[trigger] left[i]).command != 0x4554_5257
            && left[i].command != 0x4553_4c43 by {
            assert(left[i] == ms[i + 1]);
        }
        reply_is_the_first_data(left, x, rest, local_id);
    }
}

/// Acknowledgements, as many as there are blocks.
pub open spec fn acknowledgements(n: nat, arg0: u32, arg1: u32) -> Seq<u8>
    decreases n,
{
    if n == 0 {
        Seq::empty()
    } else {
        message_bytes(0x5941_4b4f, arg0, arg1, Seq::empty()) + acknowledgements(
            (n - 1) as nat,
            arg0,
            arg1,
        )
    }
}

/// Blocks as messages of data, one behind the other.
pub open spec fn blocks_as_messages(blocks: Seq<Seq<u8>>, local_id: u32, remote_id: u32) -> Seq<u8>
    decreases blocks.len(),
{
    if blocks.len() == 0 {
        Seq::empty()
    } else {
        message_bytes(0x4554_5257, local_id, remote_id, blocks[0]) + blocks_as_messages(
            blocks.skip(1),
            local_id,
            remote_id,
        )
    }
}

/// Where a device acknowledges every block, every block is sent, each in a message of its own and
/// in their order, and what the device says then is left to be read.
pub proof fn every_block_is_sent(
    blocks: Seq<Seq<u8>>,
    local_id: u32,
    remote_id: u32,
    arg0: u32,
    arg1: u32,
    rest: Seq<u8>,
)
    ensures
        blocks_sent(
            acknowledgements(blocks.len(), arg0, arg1) + rest,
            local_id,
            remote_id,
            blocks,
        ) == Some((true, blocks_as_messages(blocks, local_id, remote_id), rest)),
    decreases blocks.len(),
{
    let n = blocks.len();
    let s = acknowledgements(n, arg0, arg1) + rest;
    if n == 0 {
        assert(s =~= rest);
    } else {
        let none = Seq::<u8>::empty();
        let ack = Sent { command: 0x5941_4b4f, arg0, arg1, payload: none };
        let left = acknowledgements((n - 1) as nat, arg0, arg1) + rest;
        let no = Seq::<Sent>::empty();
        accepted_service_is_open(no, ack, left, local_id);
        assert(s =~= stream_of(no) + (message_bytes(0x5941_4b4f, arg0, arg1, none) + left));
        every_block_is_sent(blocks.skip(1), local_id, remote_id, arg0, arg1, rest);
        let wrte = message_bytes(0x4554_5257, local_id, remote_id, blocks[0]);
        let more = blocks_as_messages(blocks.skip(1), local_id, remote_id);
        assert(crate::session::acks_for(no, local_id) =~= none);
        assert(wrte + none + more =~= wrte + more);
    }
}

} // verus!
