//! Conversations with a bootloader: asking for variables, sending images, fetching data, and
//! checking whether an update package is for the device.

use crate::android_info::{lines_ok, line_views, InfoLine, LineModel, Requirement, RequirementModel};
use crate::fastboot::{
    download, download_command, download_limit, flash, getvar, limits_are_read, parse_max_download_size, FastbootResponse,
    ResponseModel,
};
use crate::sync_stream::{chunked, chunks_make_up_the_data, joined_chunks};
use crate::text::{all_white, chars_of, dec, owned, str_eq, string_of, string_views, trim, trimmed};
use crate::transport::IoError;
use vstd::prelude::*;
use vstd::slice::slice_subrange;

verus! {

/// Something that a bootloader was sent.
pub enum FastbootEvent {
    Command(Seq<char>),
    Data(Seq<u8>),
}

/// The reply that ends what a bootloader has to say on a command, and what it sends after it.
/// Remarks before it are passed over.
pub open spec fn status_of(p: Seq<ResponseModel>) -> Option<(ResponseModel, Seq<ResponseModel>)>
    decreases p.len(),
{
    if p.len() == 0 {
        None
    } else {
        match p[0] {
            ResponseModel::Info(_) => status_of(p.skip(1)),
            ResponseModel::Text(_) => status_of(p.skip(1)),
            _ => Some((p[0], p.skip(1))),
        }
    }
}

/// The remarks before the reply.
pub open spec fn remarks_of(p: Seq<ResponseModel>) -> Seq<Seq<char>>
    decreases p.len(),
{
    if p.len() == 0 {
        Seq::empty()
    } else {
        match p[0] {
            ResponseModel::Info(s) => seq![s] + remarks_of(p.skip(1)),
            ResponseModel::Text(s) => seq![s] + remarks_of(p.skip(1)),
            _ => Seq::empty(),
        }
    }
}

/// `later` is `now` without some replies at its front.
pub open spec fn are_later(later: Seq<ResponseModel>, now: Seq<ResponseModel>) -> bool {
    exists|k: int| 0 <= k <= now.len() && later == #[trigger] now.skip(k)
}

/// What is later than later replies is later.
pub proof fn lemma_later(a: Seq<ResponseModel>, b: Seq<ResponseModel>, c: Seq<ResponseModel>)
    requires
        are_later(b, a),
        are_later(c, b),
    ensures
        are_later(c, a),
{
    let k = choose|k: int| 0 <= k <= a.len() && b == #[trigger] a.skip(k);
    let j = choose|j: int| 0 <= j <= b.len() && c == #[trigger] b.skip(j);
    assert(c =~= a.skip(k + j));
}

/// The replies behind the one that ends what a bootloader has to say are later.
pub proof fn lemma_status_is_later(p: Seq<ResponseModel>)
    ensures
        status_of(p) matches Some((_, rest)) ==> are_later(rest, p),
    decreases p.len(),
{
    if p.len() > 0 {
        assert(are_later(p.skip(1), p));
        lemma_status_is_later(p.skip(1));
        match status_of(p.skip(1)) {
            Some((_, rest)) => {
                if p[0] is Info || p[0] is Text {
                    lemma_later(p, p.skip(1), rest);
                }
            },
            None => {},
        }
    }
}

/// A connection to a bootloader.
pub trait FastbootTransport {
    /// What the bootloader was sent so far.
    open spec fn log(&self) -> Seq<FastbootEvent> {
        arbitrary()
    }

    /// The replies that the bootloader sends from here on.
    open spec fn packets(&self) -> Seq<ResponseModel> {
        arbitrary()
    }

    /// The data that the bootloader sends from here on.
    open spec fn data(&self) -> Seq<u8> {
        arbitrary()
    }

    /// How many calls failed so far.
    open spec fn faults(&self) -> nat {
        arbitrary()
    }

    /// How many of the bytes sent so far may still be held back on this side.
    open spec fn held_back(&self) -> nat {
        arbitrary()
    }

    /// Sends a command. One that fails may or may not have gone out.
    fn send_cmd(&mut self, cmd: &str) -> (r: Result<(), IoError>)
        ensures
            final(self).packets() == old(self).packets(),
            final(self).data() == old(self).data(),
            r is Ok ==> final(self).log() == old(self).log().push(FastbootEvent::Command(cmd@)),
            r is Err ==> final(self).log() == old(self).log() || final(self).log()
                == old(self).log().push(FastbootEvent::Command(cmd@)),
            final(self).faults() == old(self).faults() + if r is Ok {
                0nat
            } else {
                1nat
            },
    ;

    /// Receives the next reply.
    fn recv_packet(&mut self) -> (r: Result<FastbootResponse, IoError>)
        ensures
            final(self).log() == old(self).log(),
            final(self).data() == old(self).data(),
            match r {
                Ok(x) => old(self).packets().len() > 0 && x@ == old(self).packets()[0]
                    && final(self).packets() == old(self).packets().skip(1),
                Err(_) => final(self).packets() == old(self).packets(),
            },
            final(self).held_back() == old(self).held_back(),
            final(self).faults() == old(self).faults() + if r is Ok {
                0nat
            } else {
                1nat
            },
    ;

    /// Sends data.
    fn write_all(&mut self, data: &[u8]) -> (r: Result<(), IoError>)
        ensures
            final(self).packets() == old(self).packets(),
            final(self).data() == old(self).data(),
            r is Ok ==> final(self).log() == old(self).log().push(FastbootEvent::Data(data@)),
            final(self).faults() == old(self).faults() + if r is Ok {
                0nat
            } else {
                1nat
            },
    ;

    /// Passes on whatever is still held back.
    fn flush(&mut self) -> (r: Result<(), IoError>)
        ensures
            final(self).packets() == old(self).packets(),
            final(self).data() == old(self).data(),
            final(self).log() == old(self).log(),
            r is Ok ==> final(self).held_back() == 0,
            final(self).faults() == old(self).faults() + if r is Ok {
                0nat
            } else {
                1nat
            },
    ;

    /// Receives the next `len` bytes of data.
    fn read_exact(&mut self, len: usize) -> (r: Result<Vec<u8>, IoError>)
        ensures
            final(self).packets() == old(self).packets(),
            final(self).log() == old(self).log(),
            r matches Ok(v) ==> v@.len() == len && old(self).data() == v@ + final(self).data(),
            final(self).faults() == old(self).faults() + if r is Ok {
                0nat
            } else {
                1nat
            },
    ;

    /// Receives the reply that ends what the bootloader has to say on a command, and adds the
    /// remarks before it to a list.
    fn recv_response_with_info(&mut self, info: &mut Vec<String>) -> (r: Result<
        FastbootResponse,
        IoError,
    >)
        ensures
            final(self).log() == old(self).log(),
            final(self).data() == old(self).data(),
            final(self).faults() >= old(self).faults(),
            r is Err <==> final(self).faults() > old(self).faults(),
            r matches Ok(x) ==> status_of(old(self).packets()) == Some((x@, final(self).packets()))
                && string_views(final(info)@) == string_views(old(info)@) + remarks_of(
                old(self).packets(),
            ),
            are_later(final(self).packets(), old(self).packets()),
            final(self).held_back() == old(self).held_back(),
    {
        let ghost all = string_views(info@) + remarks_of(self.packets());
        assert(self.packets().skip(0) =~= self.packets());
        loop
            invariant
                are_later(self.packets(), old(self).packets()),
                self.held_back() == old(self).held_back(),
                self.log() == old(self).log(),
                self.data() == old(self).data(),
                self.faults() == old(self).faults(),
                status_of(self.packets()) == status_of(old(self).packets()),
                all == string_views(old(info)@) + remarks_of(old(self).packets()),
                all == string_views(info@) + remarks_of(self.packets()),
            decreases self.packets().len(),
        {
            let ghost now = self.packets();
            let ghost before = string_views(info@);
            proof {
                if now.len() > 0 {
                    assert(are_later(now.skip(1), now));
                    lemma_later(old(self).packets(), now, now.skip(1));
                }
            }
            match self.recv_packet()? {
                FastbootResponse::Info(s) => {
                    info.push(s);
                    assert(string_views(info@) =~= before.push(s@));
                    assert(before + (seq![s@] + remarks_of(now.skip(1))) =~= before.push(s@)
                        + remarks_of(now.skip(1)));
                },
                FastbootResponse::Text(s) => {
                    info.push(s);
                    assert(string_views(info@) =~= before.push(s@));
                    assert(before + (seq![s@] + remarks_of(now.skip(1))) =~= before.push(s@)
                        + remarks_of(now.skip(1)));
                },
                other => {
                    assert(before + Seq::<Seq<char>>::empty() =~= before);
                    return Ok(other);
                },
            }
        }
    }

    /// Receives the reply that ends what the bootloader has to say on a command.
    fn recv_response(&mut self) -> (r: Result<FastbootResponse, IoError>)
        ensures
            final(self).log() == old(self).log(),
            final(self).data() == old(self).data(),
            final(self).faults() >= old(self).faults(),
            r is Err <==> final(self).faults() > old(self).faults(),
            r matches Ok(x) ==> status_of(old(self).packets()) == Some((x@, final(self).packets())),
            are_later(final(self).packets(), old(self).packets()),
            final(self).held_back() == old(self).held_back(),
    {
        let mut info: Vec<String> = Vec::new();
        self.recv_response_with_info(&mut info)
    }
}

/// Why a conversation came to a bad end.
#[derive(Debug)]
pub enum FastbootError {
    /// The connection failed.
    Io(IoError),
    /// There is nothing to send.
    Empty,
    /// There is more to send than a command can announce.
    TooLarge(usize),
    /// The bootloader wants another number of bytes.
    WrongLength { expected: u32, actual: usize },
    /// The bootloader refuses, for this reason, to take or to give data.
    Refused(String),
    /// The bootloader replies something that has no place there.
    Unexpected(FastbootResponse),
    /// The bootloader refuses the data that it was sent, or regrets that which it sent.
    DataRefused(String),
    /// The bootloader refuses to carry out the command on the data.
    CommandRefused(String),
    /// The bootloader has no data to send.
    NoData,
}

/// How sending ends, where the connection holds.
pub enum FastbootEnd {
    Done(ResponseModel),
    TooLarge(nat),
    WrongLength { expected: u32, actual: nat },
    Refused(Seq<char>),
    Unexpected(ResponseModel),
    DataRefused(Seq<char>),
    CommandRefused(Seq<char>),
}

/// An outcome is this end.
pub open spec fn is_end(r: Result<FastbootResponse, FastbootError>, end: FastbootEnd) -> bool {
    match r {
        Ok(x) => end == FastbootEnd::Done(x@),
        Err(FastbootError::TooLarge(n)) => end == FastbootEnd::TooLarge(n as nat),
        Err(FastbootError::WrongLength { expected, actual }) => end == (FastbootEnd::WrongLength {
            expected,
            actual: actual as nat,
        }),
        Err(FastbootError::Refused(m)) => end == FastbootEnd::Refused(m@),
        Err(FastbootError::Unexpected(x)) => end == FastbootEnd::Unexpected(x@),
        Err(FastbootError::DataRefused(m)) => end == FastbootEnd::DataRefused(m@),
        Err(FastbootError::CommandRefused(m)) => end == FastbootEnd::CommandRefused(m@),
        _ => false,
    }
}

/// Pieces of data as they are sent.
pub open spec fn data_events(c: Seq<Seq<u8>>) -> Seq<FastbootEvent> {
    Seq::new(c.len(), |i: int| FastbootEvent::Data(c[i]))
}

/// What sending a payload comes to: what is sent, how it ends, and the replies after it. The
/// bootloader is told the size, must ask for exactly as much, gets the payload in pieces of
/// `chunk` bytes, and replies once more.
pub open spec fn download_flow(
    log: Seq<FastbootEvent>,
    packets: Seq<ResponseModel>,
    payload: Seq<u8>,
    chunk: nat,
) -> (Seq<FastbootEvent>, Option<(FastbootEnd, Seq<ResponseModel>)>) {
    let asked = log.push(FastbootEvent::Command(download_command(payload.len() as u32)));
    match status_of(packets) {
        None => (asked, None),
        Some((reply, rest)) => match reply {
            ResponseModel::Data(n) => if n != payload.len() {
                (
                    asked,
                    Some(
                        (
                            FastbootEnd::WrongLength { expected: n, actual: payload.len() },
                            rest,
                        ),
                    ),
                )
            } else {
                let sent = asked + data_events(chunked(payload, chunk));
                match status_of(rest) {
                    None => (sent, None),
                    Some((last, behind)) => match last {
                        ResponseModel::Fail(m) => (
                            sent,
                            Some((FastbootEnd::DataRefused(m), behind)),
                        ),
                        _ => (sent, Some((FastbootEnd::Done(last), behind))),
                    },
                }
            },
            ResponseModel::Fail(m) => (asked, Some((FastbootEnd::Refused(m), rest))),
            _ => (asked, Some((FastbootEnd::Unexpected(reply), rest))),
        },
    }
}

fn send_chunks<T: FastbootTransport>(transport: &mut T, payload: &[u8], chunk_size: usize) -> (r:
    Result<(), IoError>)
    requires
        chunk_size > 0,
    ensures
        final(transport).packets() == old(transport).packets(),
        final(transport).data() == old(transport).data(),
        final(transport).faults() >= old(transport).faults(),
        r is Ok <==> final(transport).faults() == old(transport).faults(),
        r is Ok ==> final(transport).log() == old(transport).log() + data_events(
            chunked(payload@, chunk_size as nat),
        ),
        r is Ok ==> final(transport).held_back() == 0,
{
    let ghost chunks = chunked(payload@, chunk_size as nat);
    let ghost base = transport.log();
    let mut at: usize = 0;
    let ghost mut i: int = 0;
    assert(payload@.skip(0) =~= payload@);
    assert(chunks.skip(0) =~= chunks);
    assert(base + data_events(chunks.take(0)) =~= base);
    while at < payload.len()
        invariant
            chunk_size > 0,
            at <= payload@.len(),
            base == old(transport).log(),
            chunks == chunked(payload@, chunk_size as nat),
            0 <= i <= chunks.len(),
            chunks.skip(i) == chunked(payload@.skip(at as int), chunk_size as nat),
            transport.packets() == old(transport).packets(),
            transport.data() == old(transport).data(),
            transport.faults() == old(transport).faults(),
            transport.log() == base + data_events(chunks.take(i)),
        decreases payload@.len() - at,
    {
        let room: usize = payload.len() - at;
        let size: usize = if room < chunk_size {
            room
        } else {
            chunk_size
        };
        let chunk = slice_subrange(payload, at, at + size);
        let ghost rest = payload@.skip(at as int);
        proof {
            assert(chunk@ =~= rest.take(size as int));
            if rest.len() <= chunk_size {
                assert(rest.take(size as int) =~= rest);
            }
            assert(chunks.skip(i).len() > 0);
            assert(chunks.skip(i)[0] == chunks[i]);
            assert(chunks[i] == chunk@);
        }
        transport.write_all(chunk)?;
        proof {
            assert(chunks.skip(i).skip(1) =~= chunks.skip(i + 1));
            assert(rest.skip(size as int) =~= payload@.skip(at + size));
            if rest.len() <= chunk_size {
                assert(seq![rest].skip(1) =~= Seq::<Seq<u8>>::empty());
            } else {
                let more = chunked(rest.skip(chunk_size as int), chunk_size as nat);
                assert((seq![rest.take(chunk_size as int)] + more).skip(1) =~= more);
            }
            assert(data_events(chunks.take(i)).push(FastbootEvent::Data(chunk@)) =~= data_events(
                chunks.take(i + 1),
            ));
            assert((base + data_events(chunks.take(i))).push(FastbootEvent::Data(chunk@)) =~= base
                + data_events(chunks.take(i + 1)));
            i = i + 1;
        }
        at = at + size;
    }
    proof {
        assert(chunks.skip(i).len() == 0);
        assert(chunks.take(i) =~= chunks);
    }
    transport.flush()
}

/// Sends a payload in pieces of `chunk_size` bytes, of which nothing is held back.
pub fn download_payload<T: FastbootTransport>(
    transport: &mut T,
    payload: &[u8],
    chunk_size: usize,
) -> (r: Result<FastbootResponse, FastbootError>)
    requires
        chunk_size > 0,
    ensures
        final(transport).data() == old(transport).data(),
        final(transport).faults() >= old(transport).faults(),
        r matches Err(FastbootError::Io(_)) <==> final(transport).faults() > old(transport).faults(),
        r is Ok ==> final(transport).held_back() == 0,
        if payload@.len() > u32::MAX {
            (r matches Err(FastbootError::TooLarge(n)) && n == payload@.len()) && *final(transport)
                == *old(transport)
        } else {
            final(transport).faults() == old(transport).faults() ==> ({
                let (log, end) = download_flow(
                    old(transport).log(),
                    old(transport).packets(),
                    payload@,
                    chunk_size as nat,
                );
                &&& final(transport).log() == log
                &&& end matches Some((e, rest))
                &&& final(transport).packets() == rest
                &&& is_end(r, e)
            })
        },
{
    let size: usize = payload.len();
    if size as u64 > u32::MAX as u64 {
        return Err(FastbootError::TooLarge(size));
    }
    match transport.send_cmd(download(size as u32).as_str()) {
        Ok(()) => {},
        Err(e) => {
            return Err(FastbootError::Io(e));
        },
    }
    let reply = match transport.recv_response() {
        Ok(x) => x,
        Err(e) => {
            return Err(FastbootError::Io(e));
        },
    };
    match reply {
        FastbootResponse::Data(expected) => {
            if expected != size as u32 {
                return Err(FastbootError::WrongLength { expected, actual: size });
            }
        },
        FastbootResponse::Fail(m) => {
            return Err(FastbootError::Refused(m));
        },
        other => {
            return Err(FastbootError::Unexpected(other));
        },
    }
    match send_chunks(transport, payload, chunk_size) {
        Ok(()) => {},
        Err(e) => {
            return Err(FastbootError::Io(e));
        },
    }
    match transport.recv_response() {
        Ok(FastbootResponse::Fail(m)) => Err(FastbootError::DataRefused(m)),
        Ok(x) => Ok(x),
        Err(e) => Err(FastbootError::Io(e)),
    }
}

/// The question for a variable.
pub open spec fn question(name: Seq<char>) -> FastbootEvent {
    FastbootEvent::Command("getvar:"@ + name)
}

/// What asking for a variable gets: a reply, unless the connection fails.
pub fn ask<T: FastbootTransport>(transport: &mut T, name: &str) -> (r: Option<FastbootResponse>)
    ensures
        final(transport).data() == old(transport).data(),
        final(transport).faults() >= old(transport).faults(),
        r is None <==> final(transport).faults() > old(transport).faults(),
        r matches Some(x) ==> final(transport).log() == old(transport).log().push(
            FastbootEvent::Command("getvar:"@ + name@),
        ) && status_of(old(transport).packets()) == Some((x@, final(transport).packets())),
        r is None ==> final(transport).log() == old(transport).log() || final(transport).log()
            == old(transport).log().push(question(name@)),
        are_later(final(transport).packets(), old(transport).packets()),
{
    assert(transport.packets().skip(0) =~= transport.packets());
    match transport.send_cmd(getvar(name).as_str()) {
        Ok(()) => {},
        Err(_) => {
            return None;
        },
    }
    match transport.recv_response() {
        Ok(x) => Some(x),
        Err(_) => None,
    }
}

/// What a reply says is the most that the bootloader takes at once.
pub open spec fn limit_in(reply: ResponseModel) -> Option<nat> {
    match reply {
        ResponseModel::Okay(s) => download_limit(s),
        _ => None,
    }
}

/// What asking for the limit comes to. If the connection fails meanwhile there is no limit, and the
/// question may or may not have gone out.
pub open spec fn limit_asked(
    log: Seq<FastbootEvent>,
    packets: Seq<ResponseModel>,
    log_after: Seq<FastbootEvent>,
    packets_after: Seq<ResponseModel>,
    limit: Option<nat>,
    held: bool,
) -> bool {
    let asked = log.push(question("max-download-size"@));
    if held {
        &&& log_after == asked
        &&& status_of(packets) matches Some((x, rest))
        &&& packets_after == rest
        &&& limit == limit_in(x)
    } else {
        &&& log_after == log || log_after == asked
        &&& are_later(packets_after, packets)
        &&& limit is None
    }
}

/// Asks for the most that the bootloader takes at once.
pub fn ask_download_limit<T: FastbootTransport>(transport: &mut T) -> (r: Option<usize>)
    ensures
        final(transport).data() == old(transport).data(),
        final(transport).faults() >= old(transport).faults(),
        final(transport).faults() > old(transport).faults() ==> r is None,
        final(transport).faults() == old(transport).faults() ==> {
            &&& final(transport).log() == old(transport).log().push(
                FastbootEvent::Command("getvar:"@ + "max-download-size"@),
            )
            &&& status_of(old(transport).packets()) matches Some((x, rest))
            &&& final(transport).packets() == rest
            &&& match r {
                Some(n) => limit_in(x) == Some(n as nat),
                None => limit_in(x) is None,
            }
        },
        limit_asked(
            old(transport).log(),
            old(transport).packets(),
            final(transport).log(),
            final(transport).packets(),
            match r {
                Some(n) => Some(n as nat),
                None => None,
            },
            final(transport).faults() == old(transport).faults(),
        ),
{
    match ask(transport, "max-download-size") {
        Some(FastbootResponse::Okay(s)) => parse_max_download_size(s.as_str()),
        _ => None,
    }
}

/// The size of the pieces in which a payload is sent. A bootloader that gives no limit, or
/// zero, gets 16 megabytes at a time.
pub open spec fn piece_size(limit: Option<nat>) -> nat {
    match limit {
        Some(n) => if n > 0 {
            n
        } else {
            0x100_0000
        },
        None => 0x100_0000,
    }
}

/// The size of the pieces in which a payload is sent.
pub fn chunk_size_for(limit: Option<usize>) -> (r: usize)
    ensures
        r == piece_size(
            match limit {
                Some(n) => Some(n as nat),
                None => None,
            },
        ),
        r > 0,
{
    match limit {
        Some(n) => if n > 0 {
            n
        } else {
            0x100_0000
        },
        None => 0x100_0000,
    }
}

/// What asking for the limit, sending a payload and giving a command on it comes to. The reply
/// to the command is not waited for.
pub open spec fn payload_flow(
    log: Seq<FastbootEvent>,
    packets: Seq<ResponseModel>,
    payload: Seq<u8>,
    command: Seq<char>,
) -> (Seq<FastbootEvent>, Option<(FastbootEnd, Seq<ResponseModel>)>) {
    let asked = log.push(FastbootEvent::Command("getvar:"@ + "max-download-size"@));
    match status_of(packets) {
        None => (asked, None),
        Some((reply, rest)) => {
            let (sent, end) = download_flow(asked, rest, payload, piece_size(limit_in(reply)));
            match end {
                Some((FastbootEnd::Done(_), _)) => (
                    sent.push(FastbootEvent::Command(command)),
                    end,
                ),
                _ => (sent, end),
            }
        },
    }
}

/// What sending a payload in pieces of `chunk` bytes and giving a command on it comes to: the
/// command follows if and only if the bootloader took the payload.
pub open spec fn command_given(
    r: Result<FastbootResponse, FastbootError>,
    log: Seq<FastbootEvent>,
    packets: Seq<ResponseModel>,
    log_after: Seq<FastbootEvent>,
    packets_after: Seq<ResponseModel>,
    payload: Seq<u8>,
    chunk: nat,
    command: Seq<char>,
) -> bool {
    let (sent, end) = download_flow(log, packets, payload, chunk);
    &&& end matches Some((e, rest))
    &&& packets_after == rest
    &&& is_end(r, e)
    &&& log_after == if e is Done {
        sent.push(FastbootEvent::Command(command))
    } else {
        sent
    }
}

/// What any outcome but a failure of the connection means: the payload went out, and the command
/// after it if and only if it was taken. The only failure that this leaves open is one of the
/// question for the limit, without which the pieces have the usual size.
pub open spec fn payload_outcome<T: FastbootTransport>(
    r: Result<FastbootResponse, FastbootError>,
    before: T,
    after: T,
    payload: Seq<u8>,
    command: Seq<char>,
) -> bool {
    let held = after.faults() == before.faults();
    exists|log: Seq<FastbootEvent>, packets: Seq<ResponseModel>, limit: Option<nat>|
        limit_asked(before.log(), before.packets(), log, packets, limit, held)
            && #[trigger] command_given(
            r,
            log,
            packets,
            after.log(),
            after.packets(),
            payload,
            piece_size(limit),
            command,
        )
}

fn download_and_command<T: FastbootTransport>(
    transport: &mut T,
    payload: &[u8],
    command: &str,
) -> (r: Result<FastbootResponse, FastbootError>)
    ensures
        final(transport).faults() >= old(transport).faults(),
        if payload@.len() > u32::MAX {
            (r matches Err(FastbootError::TooLarge(n)) && n == payload@.len()) && *final(transport)
                == *old(transport)
        } else {
            final(transport).faults() == old(transport).faults() ==> ({
                let (log, end) = payload_flow(
                    old(transport).log(),
                    old(transport).packets(),
                    payload@,
                    command@,
                );
                &&& final(transport).log() == log
                &&& end matches Some((e, rest))
                &&& final(transport).packets() == rest
                &&& is_end(r, e)
            })
        },
        (r matches Err(FastbootError::Io(_))) ==> final(transport).faults() > old(transport).faults(),
        payload@.len() <= u32::MAX && !(r matches Err(FastbootError::Io(_))) ==> payload_outcome(
            r,
            *old(transport),
            *final(transport),
            payload@,
            command@,
        ),
        r is Ok ==> final(transport).log().last() == FastbootEvent::Command(command@),
{
    let size: usize = payload.len();
    if size as u64 > u32::MAX as u64 {
        return Err(FastbootError::TooLarge(size));
    }
    let limit = ask_download_limit(transport);
    let ghost log = transport.log();
    let ghost packets = transport.packets();
    let ghost held = transport.faults() == old(transport).faults();
    let ghost asked: Option<nat> = match limit {
        Some(n) => Some(n as nat),
        None => None,
    };
    assert(limit_asked(old(transport).log(), old(transport).packets(), log, packets, asked, held));
    let chunk: usize = chunk_size_for(limit);
    let reply = match download_payload(transport, payload, chunk) {
        Ok(x) => x,
        Err(e) => {
            assert(!(e is Io) ==> command_given(
                Err(e),
                log,
                packets,
                transport.log(),
                transport.packets(),
                payload@,
                piece_size(asked),
                command@,
            ));
            return Err(e);
        },
    };
    match transport.send_cmd(command) {
        Ok(()) => {
            assert(command_given(
                Ok(reply),
                log,
                packets,
                transport.log(),
                transport.packets(),
                payload@,
                piece_size(asked),
                command@,
            ));
            Ok(reply)
        },
        Err(e) => Err(FastbootError::Io(e)),
    }
}

/// Sends a boot image and boots it.
pub fn download_and_boot_payload<T: FastbootTransport>(transport: &mut T, payload: &[u8]) -> (r:
    Result<FastbootResponse, FastbootError>)
    ensures
        final(transport).faults() >= old(transport).faults(),
        if payload@.len() > u32::MAX {
            (r matches Err(FastbootError::TooLarge(n)) && n == payload@.len()) && *final(transport)
                == *old(transport)
        } else {
            final(transport).faults() == old(transport).faults() ==> ({
                let (log, end) = payload_flow(
                    old(transport).log(),
                    old(transport).packets(),
                    payload@,
                    "boot"@,
                );
                &&& final(transport).log() == log
                &&& end matches Some((e, rest))
                &&& final(transport).packets() == rest
                &&& is_end(r, e)
            })
        },
        (r matches Err(FastbootError::Io(_))) ==> final(transport).faults() > old(transport).faults(),
        payload@.len() <= u32::MAX && !(r matches Err(FastbootError::Io(_))) ==> payload_outcome(
            r,
            *old(transport),
            *final(transport),
            payload@,
            "boot"@,
        ),
        r is Ok ==> final(transport).log().last() == FastbootEvent::Command("boot"@),
{
    download_and_command(transport, payload, "boot")
}

/// Sends an image and writes it to a partition.
pub fn download_and_flash_payload<T: FastbootTransport>(
    transport: &mut T,
    payload: &[u8],
    partition: &str,
) -> (r: Result<FastbootResponse, FastbootError>)
    ensures
        final(transport).faults() >= old(transport).faults(),
        if payload@.len() > u32::MAX {
            (r matches Err(FastbootError::TooLarge(n)) && n == payload@.len()) && *final(transport)
                == *old(transport)
        } else {
            final(transport).faults() == old(transport).faults() ==> ({
                let (log, end) = payload_flow(
                    old(transport).log(),
                    old(transport).packets(),
                    payload@,
                    "flash:"@ + partition@,
                );
                &&& final(transport).log() == log
                &&& end matches Some((e, rest))
                &&& final(transport).packets() == rest
                &&& is_end(r, e)
            })
        },
        (r matches Err(FastbootError::Io(_))) ==> final(transport).faults() > old(transport).faults(),
        payload@.len() <= u32::MAX && !(r matches Err(FastbootError::Io(_))) ==> payload_outcome(
            r,
            *old(transport),
            *final(transport),
            payload@,
            "flash:"@ + partition@,
        ),
        r is Ok ==> final(transport).log().last() == FastbootEvent::Command("flash:"@ + partition@),
{
    download_and_command(transport, payload, flash(partition).as_str())
}

/// The command on a payload is given only if the bootloader asked for exactly the payload and
/// did not refuse it.
pub proof fn command_follows_accepted_payload(
    log: Seq<FastbootEvent>,
    packets: Seq<ResponseModel>,
    payload: Seq<u8>,
    command: Seq<char>,
)
    requires
        payload.len() <= u32::MAX,
    ensures
        ({
            let (sent, end) = payload_flow(log, packets, payload, command);
            let limit = limit_in((status_of(packets)->0).0);
            if end matches Some((FastbootEnd::Done(_), _)) {
                sent == log.push(
                    FastbootEvent::Command("getvar:"@ + "max-download-size"@),
                ).push(FastbootEvent::Command(download_command(payload.len() as u32)))
                    + data_events(chunked(payload, piece_size(limit))) + seq![
                    FastbootEvent::Command(command),
                ]
            } else {
                sent.len() >= log.len() + 1 && (sent.last() == FastbootEvent::Command(
                    "getvar:"@ + "max-download-size"@,
                ) || sent.last() == FastbootEvent::Command(
                    download_command(payload.len() as u32),
                ) || sent.last() is Data)
            }
        }),
{
    let (sent, end) = payload_flow(log, packets, payload, command);
    match status_of(packets) {
        None => {},
        Some((reply, rest)) => {
            let asked = log.push(FastbootEvent::Command("getvar:"@ + "max-download-size"@));
            let told = asked.push(FastbootEvent::Command(download_command(payload.len() as u32)));
            let pieces = data_events(chunked(payload, piece_size(limit_in(reply))));
            if end matches Some((FastbootEnd::Done(_), _)) {
                assert(sent =~= told + pieces + seq![FastbootEvent::Command(command)]);
            } else {
                let (before, _) = download_flow(asked, rest, payload, piece_size(limit_in(reply)));
                assert(sent == before);
                if before != told {
                    assert(before == told + pieces);
                    if pieces.len() == 0 {
                        assert(told + pieces =~= told);
                    } else {
                        assert(before.last() == pieces.last());
                    }
                }
            }
        },
    }
}

/// Receives the announcement of data. Remarks before it are added to a list.
pub fn recv_data_response<T: FastbootTransport>(transport: &mut T, info: &mut Vec<String>) -> (r:
    Result<u32, FastbootError>)
    ensures
        final(transport).log() == old(transport).log(),
        final(transport).data() == old(transport).data(),
        final(transport).faults() >= old(transport).faults(),
        r matches Err(FastbootError::Io(_)) <==> final(transport).faults() > old(transport).faults(),
        final(transport).faults() == old(transport).faults() ==> {
            &&& string_views(final(info)@) == string_views(old(info)@) + remarks_of(
                old(transport).packets(),
            )
            &&& status_of(old(transport).packets()) matches Some((x, rest))
            &&& final(transport).packets() == rest
            &&& match x {
                ResponseModel::Data(n) => r == Ok::<u32, FastbootError>(n),
                ResponseModel::Fail(m) => r matches Err(FastbootError::Refused(t)) && t@ == m,
                _ => r matches Err(FastbootError::Unexpected(y)) && y@ == x,
            }
        },
{
    match transport.recv_response_with_info(info) {
        Ok(FastbootResponse::Data(n)) => Ok(n),
        Ok(FastbootResponse::Fail(m)) => Err(FastbootError::Refused(m)),
        Ok(other) => Err(FastbootError::Unexpected(other)),
        Err(e) => Err(FastbootError::Io(e)),
    }
}

/// Gives a command that is answered with data, and receives the announcement. Data of no bytes
/// is none.
pub fn begin_data<T: FastbootTransport>(
    transport: &mut T,
    command: &str,
    info: &mut Vec<String>,
) -> (r: Result<u32, FastbootError>)
    ensures
        final(transport).data() == old(transport).data(),
        final(transport).faults() >= old(transport).faults(),
        r matches Err(FastbootError::Io(_)) <==> final(transport).faults() > old(transport).faults(),
        final(transport).faults() == old(transport).faults() ==> {
            &&& final(transport).log() == old(transport).log().push(
                FastbootEvent::Command(command@),
            )
            &&& string_views(final(info)@) == string_views(old(info)@) + remarks_of(
                old(transport).packets(),
            )
            &&& status_of(old(transport).packets()) matches Some((x, rest))
            &&& final(transport).packets() == rest
            &&& match x {
                ResponseModel::Data(n) => if n > 0 {
                    r == Ok::<u32, FastbootError>(n)
                } else {
                    r matches Err(FastbootError::NoData)
                },
                ResponseModel::Fail(m) => r matches Err(FastbootError::Refused(t)) && t@ == m,
                _ => r matches Err(FastbootError::Unexpected(y)) && y@ == x,
            }
        },
{
    match transport.send_cmd(command) {
        Ok(()) => {},
        Err(e) => {
            return Err(FastbootError::Io(e));
        },
    }
    let n: u32 = recv_data_response(transport, info)?;
    if n == 0 {
        return Err(FastbootError::NoData);
    }
    Ok(n)
}

/// The most that is received at once.
pub const FETCH_BUFFER: usize = 0x10_0000;

/// Receives the next piece of announced data, of which `remaining` bytes are still to come.
pub fn next_data_chunk<T: FastbootTransport>(transport: &mut T, remaining: usize) -> (r: Result<
    Vec<u8>,
    IoError,
>)
    ensures
        final(transport).packets() == old(transport).packets(),
        final(transport).log() == old(transport).log(),
        final(transport).faults() >= old(transport).faults(),
        r is Err <==> final(transport).faults() > old(transport).faults(),
        r matches Ok(v) ==> v@.len() == (if remaining < FETCH_BUFFER {
            remaining
        } else {
            FETCH_BUFFER
        }) && old(transport).data() == v@ + final(transport).data(),
{
    let n: usize = if remaining < FETCH_BUFFER {
        remaining
    } else {
        FETCH_BUFFER
    };
    transport.read_exact(n)
}

/// Receives the reply after data.
pub fn finish_data<T: FastbootTransport>(transport: &mut T) -> (r: Result<
    FastbootResponse,
    FastbootError,
>)
    ensures
        final(transport).log() == old(transport).log(),
        final(transport).data() == old(transport).data(),
        final(transport).faults() >= old(transport).faults(),
        r matches Err(FastbootError::Io(_)) <==> final(transport).faults() > old(transport).faults(),
        final(transport).faults() == old(transport).faults() ==> {
            &&& status_of(old(transport).packets()) matches Some((x, rest))
            &&& final(transport).packets() == rest
            &&& match x {
                ResponseModel::Fail(m) => r matches Err(FastbootError::DataRefused(t)) && t@ == m,
                _ => r matches Ok(y) && y@ == x,
            }
        },
{
    match transport.recv_response() {
        Ok(FastbootResponse::Fail(m)) => Err(FastbootError::DataRefused(m)),
        Ok(x) => Ok(x),
        Err(e) => Err(FastbootError::Io(e)),
    }
}

/// Why a device is not the one that an update package is for.
#[derive(Debug, Clone, PartialEq, Eq)]
pub enum InfoFailure {
    /// It lacks this partition.
    MissingPartition(String),
    /// The package is only to be flashed by force, and nothing is.
    ForceRequired,
    /// A variable has not the value that it must have, or one that it must not have.
    Mismatch { invert: bool, var: String, actual: String, options: Vec<String> },
}

/// What an [`InfoFailure`] says.
pub enum FailureModel {
    MissingPartition(Seq<char>),
    ForceRequired,
    Mismatch { invert: bool, var: Seq<char>, actual: Seq<char>, options: Seq<Seq<char>> },
}

impl View for InfoFailure {
    type V = FailureModel;

    open spec fn view(&self) -> FailureModel {
        match *self {
            InfoFailure::MissingPartition(s) => FailureModel::MissingPartition(s@),
            InfoFailure::ForceRequired => FailureModel::ForceRequired,
            InfoFailure::Mismatch { invert, var, actual, options } => FailureModel::Mismatch {
                invert,
                var: var@,
                actual: actual@,
                options: string_views(options@),
            },
        }
    }
}

/// Something odd that does not keep an update from going on.
#[derive(Debug, Clone, PartialEq, Eq)]
pub enum InfoWarning {
    /// A line that is not understood.
    Syntax(String),
    /// A variable that the bootloader refuses to tell, for a reason; it counts as empty.
    Refused { var: String, reason: String },
    /// A variable that could not be had.
    Unavailable(String),
}

/// What an [`InfoWarning`] says.
pub enum WarningModel {
    Syntax(Seq<char>),
    Refused { var: Seq<char>, reason: Seq<char> },
    Unavailable(Seq<char>),
}

impl View for InfoWarning {
    type V = WarningModel;

    open spec fn view(&self) -> WarningModel {
        match *self {
            InfoWarning::Syntax(s) => WarningModel::Syntax(s@),
            InfoWarning::Refused { var, reason } => WarningModel::Refused {
                var: var@,
                reason: reason@,
            },
            InfoWarning::Unavailable(s) => WarningModel::Unavailable(s@),
        }
    }
}

/// The views of a list of warnings.
pub open spec fn warning_views(v: Seq<InfoWarning>) -> Seq<WarningModel> {
    Seq::new(v.len(), |i: int| v[i]@)
}

/// A demand that the package is flashed by force, which needs no question: nothing is flashed by
/// force, so it is not met, and met where it is inverted.
pub open spec fn asks_for_force(r: RequirementModel) -> bool {
    r.var == "force"@
}

/// The variable by which a demand is checked: a board is what a bootloader calls a product.
pub open spec fn checked_var(r: RequirementModel) -> Seq<char> {
    if r.var == "partition-exists"@ {
        "has-slot:"@ + r.options[0]
    } else if r.var == "board"@ {
        "product"@
    } else {
        r.var
    }
}

/// What the reply to a demand comes to: a failure or none, and a warning or none.
pub open spec fn demand_outcome(r: RequirementModel, reply: ResponseModel) -> (
    Option<FailureModel>,
    Option<WarningModel>,
) {
    if r.var == "partition-exists"@ {
        match reply {
            ResponseModel::Okay(v) => if v == "yes"@ || v == "no"@ {
                (None, None)
            } else {
                (Some(FailureModel::MissingPartition(r.options[0])), None)
            },
            _ => (Some(FailureModel::MissingPartition(r.options[0])), None),
        }
    } else {
        match reply {
            ResponseModel::Okay(v) => (value_outcome(r, v), None),
            ResponseModel::Fail(m) => (
                value_outcome(r, Seq::empty()),
                Some(WarningModel::Refused { var: r.var, reason: m }),
            ),
            _ => (None, Some(WarningModel::Unavailable(r.var))),
        }
    }
}

/// What the value of a variable comes to.
pub open spec fn value_outcome(r: RequirementModel, actual: Seq<char>) -> Option<FailureModel> {
    if r.options.contains(trimmed(actual)) == r.invert {
        Some(
            FailureModel::Mismatch {
                invert: r.invert,
                var: r.var,
                actual,
                options: r.options,
            },
        )
    } else {
        None
    }
}

/// What checking lines comes to.
pub struct InfoFlow {
    pub log: Seq<FastbootEvent>,
    pub packets: Seq<ResponseModel>,
    pub warnings: Seq<WarningModel>,
    pub failure: Option<FailureModel>,
}

/// A warning more, or none.
pub open spec fn warned(w: Seq<WarningModel>, more: Option<WarningModel>) -> Seq<WarningModel> {
    match more {
        Some(x) => w.push(x),
        None => w,
    }
}

/// What checking lines comes to when the connection holds: each demand is asked for in turn
/// until one is not met.
pub open spec fn info_flow(lines: Seq<LineModel>, from: InfoFlow) -> InfoFlow
    decreases lines.len(),
{
    if lines.len() == 0 {
        from
    } else {
        let rest = lines.skip(1);
        match lines[0] {
            LineModel::Blank => info_flow(rest, from),
            LineModel::Unknown(s) => info_flow(
                rest,
                InfoFlow { warnings: from.warnings.push(WarningModel::Syntax(s)), ..from },
            ),
            LineModel::Require(r) => if asks_for_force(r) {
                if r.invert {
                    info_flow(rest, from)
                } else {
                    InfoFlow { failure: Some(FailureModel::ForceRequired), ..from }
                }
            } else {
                let asked = from.log.push(FastbootEvent::Command("getvar:"@ + checked_var(r)));
                match status_of(from.packets) {
                    None => InfoFlow { log: asked, ..from },
                    Some((reply, packets)) => {
                        let (failure, warning) = demand_outcome(r, reply);
                        let next = InfoFlow {
                            log: asked,
                            packets,
                            warnings: warned(from.warnings, warning),
                            failure,
                        };
                        if failure is Some {
                            next
                        } else {
                            info_flow(rest, next)
                        }
                    },
                }
            },
        }
    }
}

/// A question that was asked: the reply, or none where the connection failed, and what was sent and
/// which replies are left after it.
pub struct Asked {
    pub answer: Option<ResponseModel>,
    pub log: Seq<FastbootEvent>,
    pub packets: Seq<ResponseModel>,
}

/// A question is asked where this was sent before it and these replies were left. An answer is the
/// reply that came; a question without one may or may not have gone out.
pub open spec fn asked_from(
    log: Seq<FastbootEvent>,
    packets: Seq<ResponseModel>,
    name: Seq<char>,
    a: Asked,
) -> bool {
    match a.answer {
        Some(x) => a.log == log.push(question(name)) && status_of(packets) == Some((x, a.packets)),
        None => (a.log == log || a.log == log.push(question(name))) && are_later(
            a.packets,
            packets,
        ),
    }
}

/// What a demand comes to when its question was asked. A variable that could not be had is warned
/// of, or, for a partition, passed over.
pub open spec fn asked_outcome(r: RequirementModel, a: Asked) -> (
    Option<FailureModel>,
    Option<WarningModel>,
) {
    match a.answer {
        Some(x) => demand_outcome(r, x),
        None => (
            None,
            if r.var == "partition-exists"@ {
                None
            } else {
                Some(WarningModel::Unavailable(r.var))
            },
        ),
    }
}

/// What checking lines comes to when these questions were asked, or nothing where the questions are
/// not those that the lines call for.
pub open spec fn info_run(lines: Seq<LineModel>, asked: Seq<Asked>, from: InfoFlow) -> Option<
    InfoFlow,
>
    decreases lines.len(),
{
    if lines.len() == 0 {
        if asked.len() == 0 {
            Some(from)
        } else {
            None
        }
    } else {
        let rest = lines.skip(1);
        match lines[0] {
            LineModel::Blank => info_run(rest, asked, from),
            LineModel::Unknown(s) => info_run(
                rest,
                asked,
                InfoFlow { warnings: from.warnings.push(WarningModel::Syntax(s)), ..from },
            ),
            LineModel::Require(r) => if asks_for_force(r) {
                if r.invert {
                    info_run(rest, asked, from)
                } else if asked.len() == 0 {
                    Some(InfoFlow { failure: Some(FailureModel::ForceRequired), ..from })
                } else {
                    None
                }
            } else if asked.len() == 0 || !asked_from(
                from.log,
                from.packets,
                checked_var(r),
                asked[0],
            ) {
                None
            } else {
                let (failure, warning) = asked_outcome(r, asked[0]);
                let next = InfoFlow {
                    log: asked[0].log,
                    packets: asked[0].packets,
                    warnings: warned(from.warnings, warning),
                    failure,
                };
                if failure is None {
                    info_run(rest, asked.skip(1), next)
                } else if asked.len() == 1 {
                    Some(next)
                } else {
                    None
                }
            },
        }
    }
}

/// How many questions got no reply.
pub open spec fn unanswered(asked: Seq<Asked>) -> nat
    decreases asked.len(),
{
    if asked.len() == 0 {
        0
    } else {
        unanswered(asked.drop_last()) + if asked.last().answer is None {
            1nat
        } else {
            0nat
        }
    }
}

/// What the outcome of checking lines means, whether or not the connection failed meanwhile: it is
/// that of the replies which came, and no more questions went without one than calls failed.
pub open spec fn info_checked<T: FastbootTransport>(
    r: Result<(), InfoFailure>,
    lines: Seq<LineModel>,
    before: T,
    after: T,
    warnings: Seq<WarningModel>,
    warnings_after: Seq<WarningModel>,
) -> bool {
    exists|asked: Seq<Asked>|
        before.faults() + #[trigger] unanswered(asked) <= after.faults() && info_run(
            lines,
            asked,
            InfoFlow { log: before.log(), packets: before.packets(), warnings, failure: None },
        ) == Some(
            InfoFlow {
                log: after.log(),
                packets: after.packets(),
                warnings: warnings_after,
                failure: match r {
                    Ok(()) => None,
                    Err(f) => Some(f@),
                },
            },
        )
}

fn contains_option(options: &Vec<String>, value: &str) -> (r: bool)
    ensures
        r == string_views(options@).contains(value@),
{
    let ghost views = string_views(options@);
    let mut i: usize = 0;
    while i < options.len()
        invariant
            i <= options@.len(),
            views == string_views(options@),
            forall|k: int| 0 <= k < i ==> views[k] != value@,
        decreases options@.len() - i,
    {
        if str_eq(options[i].as_str(), value) {
            assert(views[i as int] == value@);
            return true;
        }
        i = i + 1;
    }
    assert(!views.contains(value@));
    false
}

fn copy_options(options: &Vec<String>) -> (r: Vec<String>)
    ensures
        string_views(r@) == string_views(options@),
{
    let mut out: Vec<String> = Vec::new();
    let mut i: usize = 0;
    while i < options.len()
        invariant
            i <= options@.len(),
            out@.len() == i,
            forall|k: int| 0 <= k < i ==> (#[trigger] out@[k])@ == options@[k]@,
        decreases options@.len() - i,
    {
        out.push(options[i].clone());
        i = i + 1;
    }
    assert(string_views(out@) =~= string_views(options@));
    out
}

fn judge_value(r: &Requirement, actual: &str) -> (f: Option<InfoFailure>)
    ensures
        match f {
            Some(x) => value_outcome(r@, actual@) == Some(x@),
            None => value_outcome(r@, actual@) is None,
        },
{
    let chars = chars_of(actual);
    let value = string_of(trim(chars.as_slice()));
    let met = contains_option(&r.options, value.as_str());
    if met == r.invert {
        Some(
            InfoFailure::Mismatch {
                invert: r.invert,
                var: r.var.clone(),
                actual: owned(actual),
                options: copy_options(&r.options),
            },
        )
    } else {
        None
    }
}

fn judge_reply(r: &Requirement, reply: FastbootResponse) -> (o: (
    Option<InfoFailure>,
    Option<InfoWarning>,
))
    requires
        r.options@.len() > 0,
    ensures
        ({
            let (failure, warning) = demand_outcome(r@, reply@);
            &&& match o.0 {
                Some(x) => failure == Some(x@),
                None => failure is None,
            }
            &&& match o.1 {
                Some(x) => warning == Some(x@),
                None => warning is None,
            }
        }),
{
    assert(string_views(r.options@)[0] == r.options@[0]@);
    proof {
        reveal_strlit("");
        assert(""@ =~= Seq::<char>::empty());
    }
    if str_eq(r.var.as_str(), "partition-exists") {
        if let FastbootResponse::Okay(v) = reply {
            if str_eq(v.as_str(), "yes") || str_eq(v.as_str(), "no") {
                return (None, None);
            }
        }
        return (Some(InfoFailure::MissingPartition(r.options[0].clone())), None);
    }
    match reply {
        FastbootResponse::Okay(v) => (judge_value(r, v.as_str()), None),
        FastbootResponse::Fail(m) => (
            judge_value(r, ""),
            Some(InfoWarning::Refused { var: r.var.clone(), reason: m }),
        ),
        _ => (None, Some(InfoWarning::Unavailable(r.var.clone()))),
    }
}

/// A question more that was asked for a demand: the run goes on behind it, or ends with it where the
/// demand is not met.
proof fn lemma_trace_step(
    lines: Seq<LineModel>,
    i: int,
    start: InfoFlow,
    now: InfoFlow,
    trace: Seq<Asked>,
    a: Asked,
    r: RequirementModel,
)
    requires
        0 <= i < lines.len(),
        lines[i] == LineModel::Require(r),
        !asks_for_force(r),
        now.failure is None,
        asked_from(now.log, now.packets, checked_var(r), a),
        forall|t: Seq<Asked>|
            info_run(lines, #[trigger] (trace + t), start) == info_run(lines.skip(i), t, now),
    ensures
        unanswered(trace.push(a)) == unanswered(trace) + if a.answer is None {
            1nat
        } else {
            0nat
        },
        ({
            let (failure, warning) = asked_outcome(r, a);
            let next = InfoFlow {
                log: a.log,
                packets: a.packets,
                warnings: warned(now.warnings, warning),
                failure,
            };
            if failure is None {
                forall|t: Seq<Asked>|
                    info_run(lines, #[trigger] (trace.push(a) + t), start) == info_run(
                        lines.skip(i + 1),
                        t,
                        next,
                    )
            } else {
                info_run(lines, trace.push(a), start) == Some(next)
            }
        }),
{
    let left = lines.skip(i);
    assert(left[0] == lines[i]);
    assert(left.skip(1) =~= lines.skip(i + 1));
    assert(trace.push(a).drop_last() =~= trace);
    let (failure, warning) = asked_outcome(r, a);
    let next = InfoFlow {
        log: a.log,
        packets: a.packets,
        warnings: warned(now.warnings, warning),
        failure,
    };
    if failure is None {
        assert forall|t: Seq<Asked>|
            info_run(lines, #[trigger] (trace.push(a) + t), start) == info_run(
                lines.skip(i + 1),
                t,
                next,
            ) by {
            let more = seq![a] + t;
            assert(trace.push(a) + t =~= trace + more);
            assert(more.skip(1) =~= t);
            assert(info_run(lines, trace + more, start) == info_run(left, more, now));
        }
    } else {
        assert(trace.push(a) =~= trace + seq![a]);
        assert(info_run(lines, trace + seq![a], start) == info_run(left, seq![a], now));
    }
}

/// Checks whether a device is the one that an update package is for. A package that is to be flashed
/// by force is refused. A variable that cannot be
/// had because the connection fails is warned of, or, for a partition, passed over.
pub fn check_android_info<T: FastbootTransport>(
    transport: &mut T,
    lines: &[InfoLine],
    warnings: &mut Vec<InfoWarning>,
) -> (r: Result<(), InfoFailure>)
    requires
        lines_ok(lines@),
    ensures
        final(transport).data() == old(transport).data(),
        final(transport).faults() >= old(transport).faults(),
        final(transport).faults() == old(transport).faults() ==> ({
            let flow = info_flow(
                line_views(lines@),
                InfoFlow {
                    log: old(transport).log(),
                    packets: old(transport).packets(),
                    warnings: warning_views(old(warnings)@),
                    failure: None,
                },
            );
            &&& final(transport).log() == flow.log
            &&& final(transport).packets() == flow.packets
            &&& warning_views(final(warnings)@) == flow.warnings
            &&& match r {
                Ok(()) => flow.failure is None,
                Err(f) => flow.failure == Some(f@),
            }
        }),
        info_checked(
            r,
            line_views(lines@),
            *old(transport),
            *final(transport),
            warning_views(old(warnings)@),
            warning_views(final(warnings)@),
        ),
{
    let ghost views = line_views(lines@);
    let ghost whole = info_flow(
        views,
        InfoFlow {
            log: transport.log(),
            packets: transport.packets(),
            warnings: warning_views(warnings@),
            failure: None,
        },
    );
    let ghost start = InfoFlow {
        log: transport.log(),
        packets: transport.packets(),
        warnings: warning_views(warnings@),
        failure: None,
    };
    let ghost mut trace: Seq<Asked> = Seq::empty();
    let mut i: usize = 0;
    assert(views.skip(0) =~= views);
    proof {
        assert forall|t: Seq<Asked>| info_run(views, #[trigger] (trace + t), start) == info_run(
            views.skip(0),
            t,
            start,
        ) by {
            assert(trace + t =~= t);
        }
    }
    while i < lines.len()
        invariant
            start == (InfoFlow {
                log: old(transport).log(),
                packets: old(transport).packets(),
                warnings: warning_views(old(warnings)@),
                failure: None,
            }),
            old(transport).faults() + unanswered(trace) <= transport.faults(),
            forall|t: Seq<Asked>|
                info_run(views, #[trigger] (trace + t), start) == info_run(
                    views.skip(i as int),
                    t,
                    InfoFlow {
                        log: transport.log(),
                        packets: transport.packets(),
                        warnings: warning_views(warnings@),
                        failure: None,
                    },
                ),
            i <= lines@.len(),
            lines_ok(lines@),
            views == line_views(lines@),
            transport.data() == old(transport).data(),
            transport.faults() >= old(transport).faults(),
            whole == info_flow(
                views,
                InfoFlow {
                    log: old(transport).log(),
                    packets: old(transport).packets(),
                    warnings: warning_views(old(warnings)@),
                    failure: None,
                },
            ),
            transport.faults() == old(transport).faults() ==> whole == info_flow(
                views.skip(i as int),
                InfoFlow {
                    log: transport.log(),
                    packets: transport.packets(),
                    warnings: warning_views(warnings@),
                    failure: None,
                },
            ),
        decreases lines@.len() - i,
    {
        let ghost left = views.skip(i as int);
        let ghost before = warning_views(warnings@);
        let ghost now = InfoFlow {
            log: transport.log(),
            packets: transport.packets(),
            warnings: before,
            failure: None,
        };
        proof {
            assert(left[0] == lines@[i as int]@);
            assert(left.skip(1) =~= views.skip(i + 1));
        }
        match &lines[i] {
            InfoLine::Blank => {},
            InfoLine::Unknown(s) => {
                warnings.push(InfoWarning::Syntax(s.clone()));
                assert(warning_views(warnings@) =~= before.push(WarningModel::Syntax(s@)));
            },
            InfoLine::Require(req) if str_eq(req.var.as_str(), "force") => {
                if !req.invert {
                    proof {
                        let none = Seq::<Asked>::empty();
                        assert(trace + none =~= trace);
                        assert(info_run(views, trace + none, start) == info_run(left, none, now));
                        assert(old(transport).faults() + unanswered(trace) <= transport.faults());
                    }
                    return Err(InfoFailure::ForceRequired);
                }
            },
            InfoLine::Require(req) => {
                let is_partition = str_eq(req.var.as_str(), "partition-exists");
                let mut name = String::new();
                assert(string_views(req.options@)[0] == req.options@[0]@);
                if is_partition {
                    name.append("has-slot:");
                    name.append(req.options[0].as_str());
                } else if str_eq(req.var.as_str(), "board") {
                    name.append("product");
                } else {
                    name.append(req.var.as_str());
                }
                assert(name@ =~= checked_var(req@));
                match ask(transport, name.as_str()) {
                    None => {
                        if !is_partition {
                            warnings.push(InfoWarning::Unavailable(req.var.clone()));
                            assert(warning_views(warnings@) =~= before.push(
                                WarningModel::Unavailable(req.var@),
                            ));
                        }
                        proof {
                            let a = Asked {
                                answer: None,
                                log: transport.log(),
                                packets: transport.packets(),
                            };
                            lemma_trace_step(views, i as int, start, now, trace, a, req@);
                            trace = trace.push(a);
                        }
                    },
                    Some(reply) => {
                        let ghost a = Asked {
                            answer: Some(reply@),
                            log: transport.log(),
                            packets: transport.packets(),
                        };
                        proof {
                            lemma_trace_step(views, i as int, start, now, trace, a, req@);
                            trace = trace.push(a);
                        }
                        let (failure, warning) = judge_reply(req, reply);
                        if let Some(w) = warning {
                            let ghost wv = w@;
                            warnings.push(w);
                            assert(warning_views(warnings@) =~= before.push(wv));
                        }
                        if let Some(f) = failure {
                            assert(old(transport).faults() + unanswered(trace) <= transport.faults());
                            return Err(f);
                        }
                    },
                }
            },
        }
        i = i + 1;
    }
    assert(views.skip(i as int).len() == 0);
    proof {
        let none = Seq::<Asked>::empty();
        assert(trace + none =~= trace);
        assert(info_run(views, trace + none, start) is Some);
        assert(old(transport).faults() + unanswered(trace) <= transport.faults());
    }
    Ok(())
}

/// Replies that are remarks only.
pub open spec fn are_remarks(p: Seq<ResponseModel>) -> bool {
    forall|i: int| 0 <= i < p.len() ==> (#[trigger] p[i]) is Info || p[i] is Text
}

/// The words of a remark.
pub open spec fn remark(x: ResponseModel) -> Seq<char> {
    match x {
        ResponseModel::Info(s) => s,
        ResponseModel::Text(s) => s,
        _ => Seq::empty(),
    }
}

/// The status of a command is the first reply that is no remark; what is behind it is left, and
/// the remarks before it are told in their order.
pub proof fn status_stands_behind_remarks(
    p: Seq<ResponseModel>,
    x: ResponseModel,
    rest: Seq<ResponseModel>,
)
    requires
        are_remarks(p),
        !(x is Info || x is Text),
    ensures
        status_of(p + seq![x] + rest) == Some((x, rest)),
        remarks_of(p + seq![x] + rest) == Seq::new(p.len(), |i: int| remark(p[i])),
        status_of(p) is None,
    decreases p.len(),
{
    let all = p + seq![x] + rest;
    let texts = Seq::new(p.len(), |i: int| remark(p[i]));
    if p.len() == 0 {
        assert(all.skip(1) =~= rest);
        assert(all[0] == x);
        assert(remarks_of(all) =~= texts);
    } else {
        let left = p.skip(1);
        assert forall|i: int| 0 <= i < left.len() implies (#[trigger] left[i]) is Info || left[i] is Text by {
            assert(left[i] == p[i + 1]);
        }
        assert(all.skip(1) =~= left + seq![x] + rest);
        assert(all[0] == p[0]);
        status_stands_behind_remarks(left, x, rest);
        let later = Seq::new(left.len(), |i: int| remark(left[i]));
        assert(texts =~= seq![remark(p[0])] + later);
    }
}

/// The bytes that were sent among some events, one behind the other.
pub open spec fn bytes_sent(events: Seq<FastbootEvent>) -> Seq<u8>
    decreases events.len(),
{
    if events.len() == 0 {
        Seq::empty()
    } else {
        (match events[0] {
            FastbootEvent::Data(d) => d,
            _ => Seq::empty(),
        }) + bytes_sent(events.skip(1))
    }
}

/// Every block of data is at most this long.
pub open spec fn blocks_fit(events: Seq<FastbootEvent>, size: nat) -> bool {
    forall|i: int|
        0 <= i < events.len() ==> (#[trigger] events[i] matches FastbootEvent::Data(d) ==> d.len()
            <= size)
}

proof fn lemma_data_events(c: Seq<Seq<u8>>)
    ensures
        bytes_sent(data_events(c)) == joined_chunks(c),
    decreases c.len(),
{
    let e = data_events(c);
    if c.len() > 0 {
        assert(e.skip(1) =~= data_events(c.skip(1)));
        lemma_data_events(c.skip(1));
    }
}

/// A device that is ready for a payload gets it: behind the announcement of its size the blocks
/// put together are the payload, none of them too long, and the reply of the device is the end.
pub proof fn payload_is_delivered(
    log: Seq<FastbootEvent>,
    before: Seq<ResponseModel>,
    between: Seq<ResponseModel>,
    last: ResponseModel,
    rest: Seq<ResponseModel>,
    payload: Seq<u8>,
    chunk: nat,
) -> (data: Seq<FastbootEvent>)
    requires
        are_remarks(before),
        are_remarks(between),
        !(last is Info || last is Text),
        payload.len() <= u32::MAX,
        chunk > 0,
    ensures
        bytes_sent(data) == payload,
        blocks_fit(data, chunk),
        forall|i: int| 0 <= i < data.len() ==> (#[trigger] data[i]) is Data,
        download_flow(
            log,
            before + seq![ResponseModel::Data(payload.len() as u32)] + (between + seq![last] + rest),
            payload,
            chunk,
        ) == (
            log.push(FastbootEvent::Command(download_command(payload.len() as u32))) + data,
            Some(
                (
                    match last {
                        ResponseModel::Fail(m) => FastbootEnd::DataRefused(m),
                        _ => FastbootEnd::Done(last),
                    },
                    rest,
                ),
            ),
        ),
{
    let n = payload.len() as u32;
    status_stands_behind_remarks(before, ResponseModel::Data(n), between + seq![last] + rest);
    status_stands_behind_remarks(between, last, rest);
    chunks_make_up_the_data(payload, chunk);
    let c = chunked(payload, chunk);
    let data = data_events(c);
    lemma_data_events(c);
    assert forall|i: int| 0 <= i < data.len() implies (#[trigger] data[i] matches FastbootEvent::Data(
        d,
    ) ==> d.len() <= chunk) by {
        assert(data[i] == FastbootEvent::Data(c[i]));
    }
    data
}

/// A device that is not ready for a payload, or for one of another size, gets none of it.
pub proof fn unwanted_payload_stays(
    log: Seq<FastbootEvent>,
    before: Seq<ResponseModel>,
    x: ResponseModel,
    rest: Seq<ResponseModel>,
    payload: Seq<u8>,
    chunk: nat,
)
    requires
        are_remarks(before),
        !(x is Info || x is Text),
        payload.len() <= u32::MAX,
        x != ResponseModel::Data(payload.len() as u32),
    ensures
        download_flow(log, before + seq![x] + rest, payload, chunk) == (
            log.push(FastbootEvent::Command(download_command(payload.len() as u32))),
            Some(
                (
                    match x {
                        ResponseModel::Data(n) => FastbootEnd::WrongLength {
                            expected: n,
                            actual: payload.len(),
                        },
                        ResponseModel::Fail(m) => FastbootEnd::Refused(m),
                        _ => FastbootEnd::Unexpected(x),
                    },
                    rest,
                ),
            ),
        ),
{
    status_stands_behind_remarks(before, x, rest);
}

/// What a device names as its limit is the longest block that it gets; where it names none, or
/// zero, sixteen mebibytes are.
pub proof fn limit_of_the_device_is_kept(n: usize, a: Seq<char>, b: Seq<char>, other: ResponseModel)
    requires
        all_white(a),
        all_white(b),
        !(other is Okay),
    ensures
        piece_size(limit_in(ResponseModel::Okay(a + dec(n as nat) + b))) == if n > 0 {
            n as nat
        } else {
            16 * 1024 * 1024
        },
        piece_size(limit_in(other)) == 16 * 1024 * 1024,
{
    limits_are_read(n, a, b, 0);
}

/// A requirement on a value asks the device for it, and goes on exactly where the value is one of
/// those that are required, or, inverted, none of them. The board is asked for as the product.
pub proof fn values_are_required(
    r: RequirementModel,
    more: Seq<LineModel>,
    from: InfoFlow,
    before: Seq<ResponseModel>,
    v: Seq<char>,
    rest: Seq<ResponseModel>,
)
    requires
        r.var != "force"@,
        r.var != "partition-exists"@,
        are_remarks(before),
        from.packets == before + seq![ResponseModel::Okay(v)] + rest,
        from.failure is None,
    ensures
        ({
            let log = from.log.push(
                FastbootEvent::Command(
                    "getvar:"@ + if r.var == "board"@ {
                        "product"@
                    } else {
                        r.var
                    },
                ),
            );
            let met = exists|i: int| 0 <= i < r.options.len() && #[trigger] r.options[i] == trimmed(v);
            info_flow(seq![LineModel::Require(r)] + more, from) == if met != r.invert {
                info_flow(more, InfoFlow { log, packets: rest, ..from })
            } else {
                InfoFlow {
                    log,
                    packets: rest,
                    warnings: from.warnings,
                    failure: Some(
                        FailureModel::Mismatch {
                            invert: r.invert,
                            var: r.var,
                            actual: v,
                            options: r.options,
                        },
                    ),
                }
            }
        }),
{
    status_stands_behind_remarks(before, ResponseModel::Okay(v), rest);
    let lines = seq![LineModel::Require(r)] + more;
    assert(lines.skip(1) =~= more);
    assert(lines[0] == LineModel::Require(r));
    if r.options.contains(trimmed(v)) {
        let i = r.options.index_of(trimmed(v));
        assert(r.options[i] == trimmed(v));
    }
}

/// A device that refuses to tell a value is warned of, and the value counts as empty; one that
/// answers with something else is warned of and not held to it.
pub proof fn refused_values_are_empty(
    r: RequirementModel,
    more: Seq<LineModel>,
    from: InfoFlow,
    before: Seq<ResponseModel>,
    reason: Seq<char>,
    n: u32,
    rest: Seq<ResponseModel>,
)
    requires
        r.var != "force"@,
        r.var != "partition-exists"@,
        are_remarks(before),
        from.failure is None,
    ensures
        ({
            let log = from.log.push(
                FastbootEvent::Command(
                    "getvar:"@ + if r.var == "board"@ {
                        "product"@
                    } else {
                        r.var
                    },
                ),
            );
            let warnings = from.warnings.push(WarningModel::Refused { var: r.var, reason });
            let met = exists|i: int|
                0 <= i < r.options.len() && #[trigger] r.options[i] == Seq::<char>::empty();
            from.packets == before + seq![ResponseModel::Fail(reason)] + rest ==> info_flow(
                seq![LineModel::Require(r)] + more,
                from,
            ) == if met != r.invert {
                info_flow(more, InfoFlow { log, packets: rest, warnings, failure: None })
            } else {
                InfoFlow {
                    log,
                    packets: rest,
                    warnings,
                    failure: Some(
                        FailureModel::Mismatch {
                            invert: r.invert,
                            var: r.var,
                            actual: Seq::empty(),
                            options: r.options,
                        },
                    ),
                }
            }
        }),
        from.packets == before + seq![ResponseModel::Data(n)] + rest ==> info_flow(
            seq![LineModel::Require(r)] + more,
            from,
        ) == info_flow(
            more,
            InfoFlow {
                log: from.log.push(
                    FastbootEvent::Command(
                        "getvar:"@ + if r.var == "board"@ {
                            "product"@
                        } else {
                            r.var
                        },
                    ),
                ),
                packets: rest,
                warnings: from.warnings.push(WarningModel::Unavailable(r.var)),
                failure: None,
            },
        ),
{
    status_stands_behind_remarks(before, ResponseModel::Fail(reason), rest);
    status_stands_behind_remarks(before, ResponseModel::Data(n), rest);
    let lines = seq![LineModel::Require(r)] + more;
    assert(lines.skip(1) =~= more);
    assert(lines[0] == LineModel::Require(r));
    let none = Seq::<char>::empty();
    assert(trimmed(none) == none);
    if r.options.contains(none) {
        let i = r.options.index_of(none);
        assert(r.options[i] == none);
    }
}

/// A partition that has to be there is asked for by whether it has slots: any answer of the two
/// will do, and no other.
pub proof fn partitions_are_required(
    r: RequirementModel,
    more: Seq<LineModel>,
    from: InfoFlow,
    before: Seq<ResponseModel>,
    x: ResponseModel,
    rest: Seq<ResponseModel>,
)
    requires
        r.var == "partition-exists"@,
        are_remarks(before),
        !(x is Info || x is Text),
        from.packets == before + seq![x] + rest,
        from.failure is None,
    ensures
        ({
            let log = from.log.push(
                FastbootEvent::Command("getvar:"@ + ("has-slot:"@ + r.options[0])),
            );
            info_flow(seq![LineModel::Require(r)] + more, from) == if x == ResponseModel::Okay(
                "yes"@,
            ) || x == ResponseModel::Okay("no"@) {
                info_flow(more, InfoFlow { log, packets: rest, ..from })
            } else {
                InfoFlow {
                    log,
                    packets: rest,
                    warnings: from.warnings,
                    failure: Some(FailureModel::MissingPartition(r.options[0])),
                }
            }
        }),
{
    reveal_strlit("partition-exists");
    reveal_strlit("force");
    assert("partition-exists"@.len() != "force"@.len());
    status_stands_behind_remarks(before, x, rest);
    let lines = seq![LineModel::Require(r)] + more;
    assert(lines.skip(1) =~= more);
    assert(lines[0] == LineModel::Require(r));
}

/// Blank lines change nothing, unknown lines are warned of, and a demand to be forced ends the
/// check without a question, unless it is inverted.
pub proof fn other_lines_ask_nothing(
    s: Seq<char>,
    r: RequirementModel,
    more: Seq<LineModel>,
    from: InfoFlow,
)
    requires
        r.var == "force"@,
    ensures
        info_flow(seq![LineModel::Blank] + more, from) == info_flow(more, from),
        info_flow(seq![LineModel::Unknown(s)] + more, from) == info_flow(
            more,
            InfoFlow { warnings: from.warnings.push(WarningModel::Syntax(s)), ..from },
        ),
        info_flow(seq![LineModel::Require(r)] + more, from) == if r.invert {
            info_flow(more, from)
        } else {
            InfoFlow { failure: Some(FailureModel::ForceRequired), ..from }
        },
{
    assert((seq![LineModel::Blank] + more).skip(1) =~= more);
    assert((seq![LineModel::Unknown(s)] + more).skip(1) =~= more);
    assert((seq![LineModel::Require(r)] + more).skip(1) =~= more);
}

} // verus!
