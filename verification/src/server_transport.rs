//! A client's connection to the ADB host server.

use crate::hostwire::{
    frame, framed, fail_word, payload_in, read_length, status_in, LengthPrefix, PayloadModel,
    ReplyModel,
};
use crate::text::{bytes_eq, chars_of, from_utf8_lossy, is_prefix, lossy_text, owned, starts_with};
use crate::transport::{grew_by_prefix, is_tail, Transport, TransportError};
use vstd::prelude::*;
use vstd::utf8::encode_utf8;

verus! {

/// A connection to the ADB host server, over which requests and replies go behind their
/// lengths in four hexadecimal digits.
pub struct AdbServerTransport<T> {
    stream: T,
}

/// The request that switches a connection to a device.
pub open spec fn transport_request(serial: Option<Seq<char>>) -> Seq<char> {
    match serial {
        Some(s) => if is_prefix("host:"@, s) {
            s
        } else {
            "host:transport:"@ + s
        },
        None => "host:transport-any"@,
    }
}

/// The outcome of reading a status off the front of `before`, leaving `after`.
pub open spec fn status_read(
    r: Result<(), TransportError>,
    before: Seq<u8>,
    after: Seq<u8>,
) -> bool {
    let (model, len) = status_in(before);
    match r {
        Ok(()) => model is Okay && after == before.skip(len),
        Err(TransportError::Io(_)) => is_tail(after, before),
        Err(TransportError::Protocol(m)) => model == ReplyModel::Refused(m@) && after
            == before.skip(len),
        Err(_) => false,
    }
}

/// The outcome of reading a framed run of bytes off the front of `before`, leaving `after`.
pub open spec fn payload_read(
    r: Result<Vec<u8>, TransportError>,
    before: Seq<u8>,
    after: Seq<u8>,
) -> bool {
    match r {
        Ok(v) => payload_in(before) == PayloadModel::Data(v@) && after == before.skip(
            4 + v@.len() as int,
        ),
        Err(TransportError::Io(_)) => is_tail(after, before),
        Err(TransportError::Protocol(m)) => payload_in(before) == PayloadModel::Refused(m@)
            && after == before.skip(4),
        Err(_) => false,
    }
}

impl<T: Transport> AdbServerTransport<T> {
    /// The connection itself.
    pub closed spec fn inner(&self) -> T {
        self.stream
    }

    /// Takes over a connection to the server.
    pub fn from_stream(stream: T) -> (r: AdbServerTransport<T>)
        ensures
            r.inner() == stream,
    {
        AdbServerTransport { stream }
    }

    /// Gives the connection back.
    pub fn into_inner(self) -> (r: T)
        ensures
            r == self.inner(),
    {
        self.stream
    }

    /// Sends a request behind its length.
    pub fn send_host_request(&mut self, request: &str) -> (r: Result<(), TransportError>)
        ensures
            final(self).inner().incoming() == old(self).inner().incoming(),
            final(self).inner().faults() >= old(self).inner().faults(),
            r is Ok <==> final(self).inner().faults() == old(self).inner().faults(),
            r is Ok ==> final(self).inner().written() == old(self).inner().written() + framed(
                encode_utf8(request@),
            ),
            r is Err ==> grew_by_prefix(
                final(self).inner().written(),
                old(self).inner().written(),
                framed(encode_utf8(request@)),
            ),
            r matches Err(e) ==> e is Io,
            r is Ok ==> final(self).inner().held_back() == 0,
    {
        let bytes = frame(request.as_bytes());
        match self.stream.write_all(bytes.as_slice()) {
            Ok(()) => {},
            Err(e) => {
                return Err(TransportError::Io(e));
            },
        }
        assert(bytes@.take(bytes@.len() as int) =~= bytes@);
        match self.stream.flush() {
            Ok(()) => Ok(()),
            Err(e) => Err(TransportError::Io(e)),
        }
    }

    /// Reads the status of a request. With FAIL comes the reason, which is read too.
    pub fn read_status(&mut self) -> (r: Result<(), TransportError>)
        ensures
            final(self).inner().written() == old(self).inner().written(),
            final(self).inner().held_back() == old(self).inner().held_back(),
            final(self).inner().faults() >= old(self).inner().faults(),
            (r matches Err(TransportError::Io(_))) <==> final(self).inner().faults() > old(self).inner().faults(),
            status_read(r, old(self).inner().incoming(), final(self).inner().incoming()),
    {
        let ghost start = self.stream.incoming();
        let status = match self.stream.read_exact(4) {
            Ok(v) => v,
            Err(e) => {
                return Err(TransportError::Io(e));
            },
        };
        assert(start.take(4) =~= status@);
        assert(self.stream.incoming() =~= start.skip(4));
        let okay = crate::hostwire::okay();
        let fail: [u8; 4] = [70u8, 65u8, 73u8, 76u8];
        assert(fail@ =~= fail_word());
        if bytes_eq(status.as_slice(), okay.as_slice()) {
            return Ok(());
        }
        if !bytes_eq(status.as_slice(), fail.as_slice()) {
            let mut m = owned("Unexpected ADB server status response: ");
            m.append(from_utf8_lossy(status.as_slice()).as_str());
            return Err(TransportError::Protocol(m));
        }
        let length = match self.stream.read_exact(4) {
            Ok(v) => v,
            Err(e) => {
                proof {
                    let rest = start.skip(4);
                    let k = choose|k: int|
                        0 <= k <= rest.len() && self.stream.incoming() == #[trigger] rest.skip(k);
                    assert(self.stream.incoming() =~= start.skip(4 + k));
                }
                return Err(TransportError::Io(e));
            },
        };
        assert(start.subrange(4, 8) =~= length@);
        assert(self.stream.incoming() =~= start.skip(8));
        match read_length(length.as_slice()) {
            LengthPrefix::NotText => Err(
                TransportError::Protocol(owned("Invalid hex length prefix in FAIL response")),
            ),
            LengthPrefix::NotNumber(t) => {
                let mut m = owned("Invalid hex length in FAIL response: ");
                m.append(t.as_str());
                Err(TransportError::Protocol(m))
            },
            LengthPrefix::Length(n) => {
                let reason = match self.stream.read_exact(n) {
                    Ok(v) => v,
                    Err(e) => {
                        proof {
                            let rest = start.skip(8);
                            let k = choose|k: int|
                                0 <= k <= rest.len() && self.stream.incoming()
                                    == #[trigger] rest.skip(k);
                            assert(self.stream.incoming() =~= start.skip(8 + k));
                        }
                        return Err(TransportError::Io(e));
                    },
                };
                assert(start.subrange(8, 8 + n as int) =~= reason@);
                assert(self.stream.incoming() =~= start.skip(8 + n as int));
                let mut m = owned("ADB server error: ");
                m.append(from_utf8_lossy(reason.as_slice()).as_str());
                Err(TransportError::Protocol(m))
            },
        }
    }

    /// Reads a run of bytes behind its length.
    pub fn read_payload(&mut self) -> (r: Result<Vec<u8>, TransportError>)
        ensures
            final(self).inner().written() == old(self).inner().written(),
            final(self).inner().held_back() == old(self).inner().held_back(),
            final(self).inner().faults() >= old(self).inner().faults(),
            (r matches Err(TransportError::Io(_))) <==> final(self).inner().faults() > old(self).inner().faults(),
            payload_read(r, old(self).inner().incoming(), final(self).inner().incoming()),
    {
        let ghost start = self.stream.incoming();
        let length = match self.stream.read_exact(4) {
            Ok(v) => v,
            Err(e) => {
                return Err(TransportError::Io(e));
            },
        };
        assert(start.take(4) =~= length@);
        assert(self.stream.incoming() =~= start.skip(4));
        match read_length(length.as_slice()) {
            LengthPrefix::NotText => Err(
                TransportError::Protocol(owned("Invalid hex length prefix")),
            ),
            LengthPrefix::NotNumber(t) => {
                let mut m = owned("Invalid hex length: ");
                m.append(t.as_str());
                Err(TransportError::Protocol(m))
            },
            LengthPrefix::Length(n) => match self.stream.read_exact(n) {
                Ok(v) => {
                    assert(start.subrange(4, 4 + n as int) =~= v@);
                    assert(self.stream.incoming() =~= start.skip(4 + n as int));
                    Ok(v)
                },
                Err(e) => {
                    proof {
                        let rest = start.skip(4);
                        let k = choose|k: int|
                            0 <= k <= rest.len() && self.stream.incoming() == #[trigger] rest.skip(
                                k,
                            );
                        assert(self.stream.incoming() =~= start.skip(4 + k));
                    }
                    Err(TransportError::Io(e))
                },
            },
        }
    }

    /// Sends a request that switches the connection to a service, and reads the status.
    pub fn switch_service(&mut self, service: &str) -> (r: Result<(), TransportError>)
        ensures
            final(self).inner().faults() >= old(self).inner().faults(),
            (r matches Err(TransportError::Io(_))) <==> final(self).inner().faults() > old(self).inner().faults(),
            !(r matches Err(TransportError::Io(_))) ==> final(self).inner().held_back() == 0,
            !(r matches Err(TransportError::Io(_))) ==> final(self).inner().written() == old(self).inner().written() + framed(encode_utf8(service@)),
            status_read(r, old(self).inner().incoming(), final(self).inner().incoming()),
    {
        let ghost start = self.stream.incoming();
        match self.send_host_request(service) {
            Ok(()) => {},
            Err(e) => {
                assert(start.skip(0) =~= start);
                return Err(e);
            },
        }
        self.read_status()
    }

    /// Switches the connection to a device: the one with the serial number, or whichever there
    /// is. A serial number that is itself a host request is sent as it is.
    pub fn switch_transport(&mut self, serial: Option<&str>) -> (r: Result<(), TransportError>)
        ensures
            final(self).inner().faults() >= old(self).inner().faults(),
            (r matches Err(TransportError::Io(_))) <==> final(self).inner().faults() > old(self).inner().faults(),
            !(r matches Err(TransportError::Io(_))) ==> final(self).inner().held_back() == 0,
            !(r matches Err(TransportError::Io(_))) ==> final(self).inner().written() == old(self).inner().written() + framed(
                encode_utf8(
                    transport_request(
                        match serial {
                            Some(s) => Some(s@),
                            None => None,
                        },
                    ),
                ),
            ),
            status_read(r, old(self).inner().incoming(), final(self).inner().incoming()),
    {
        let request = switch_request(serial);
        self.switch_service(request.as_str())
    }

    /// Makes a request that is answered with data, and gives the data as text.
    pub fn execute_host_command(&mut self, request: &str) -> (r: Result<String, TransportError>)
        ensures
            final(self).inner().faults() >= old(self).inner().faults(),
            (r matches Err(TransportError::Io(_))) <==> final(self).inner().faults() > old(self).inner().faults(),
            !(r matches Err(TransportError::Io(_))) ==> final(self).inner().held_back() == 0,
            !(r matches Err(TransportError::Io(_))) ==> final(self).inner().written() == old(self).inner().written() + framed(encode_utf8(request@)),
            command_answered(r, old(self).inner().incoming(), final(self).inner().incoming()),
    {
        let ghost start = self.stream.incoming();
        match self.switch_service(request) {
            Ok(()) => {},
            Err(e) => {
                return Err(e);
            },
        }
        let ghost rest = self.stream.incoming();
        match self.read_payload() {
            Ok(v) => Ok(from_utf8_lossy(v.as_slice())),
            Err(e) => {
                proof {
                    if e is Io {
                        let k = choose|k: int|
                            0 <= k <= rest.len() && self.stream.incoming() == #[trigger] rest.skip(
                                k,
                            );
                        assert(self.stream.incoming() =~= start.skip(4 + k));
                    }
                }
                Err(e)
            },
        }
    }
}

/// The outcome of a request that is answered with data: a status off the front of `before`, the
/// data behind it, and `after` behind that.
pub open spec fn command_answered(
    r: Result<String, TransportError>,
    before: Seq<u8>,
    after: Seq<u8>,
) -> bool {
    let (model, len) = status_in(before);
    match r {
        Ok(s) => model is Okay && (payload_in(before.skip(len)) matches PayloadModel::Data(d) && s@
            == lossy_text(d) && after == before.skip(len).skip(4 + d.len() as int)),
        Err(TransportError::Io(_)) => is_tail(after, before),
        Err(TransportError::Protocol(m)) => {
            ||| model == ReplyModel::Refused(m@) && after == before.skip(len)
            ||| model is Okay && payload_in(before.skip(len)) == PayloadModel::Refused(m@) && after
                == before.skip(len).skip(4)
        },
        Err(_) => false,
    }
}

/// The request that switches a connection to a device.
pub fn switch_request(serial: Option<&str>) -> (s: String)
    ensures
        s@ == transport_request(
            match serial {
                Some(t) => Some(t@),
                None => None,
            },
        ),
{
    match serial {
        Some(s) => {
            let chars = chars_of(s);
            if starts_with(chars.as_slice(), "host:") {
                owned(s)
            } else {
                let mut m = owned("host:transport:");
                m.append(s);
                m
            }
        },
        None => owned("host:transport-any"),
    }
}

/// A device is asked for by its serial, or any device is. What is a request already is sent as it
/// stands.
pub proof fn device_is_asked_for(serial: Seq<char>, request: Seq<char>)
    requires
        serial.len() < 5 || serial.take(5) != "host:"@,
    ensures
        transport_request(Some(serial)) == "host:transport:"@ + serial,
        transport_request(None) == "host:transport-any"@,
        transport_request(Some("host:"@ + request)) == "host:"@ + request,
{
    reveal_strlit("host:");
    if serial.len() >= 5 {
        assert(serial.subrange(0, 5) =~= serial.take(5));
    }
    assert(("host:"@ + request).subrange(0, 5) =~= "host:"@);
}

} // verus!
