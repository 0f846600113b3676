use adb_fastboot::bridge::{pump_to_client, pump_to_device, relay_to_client, relay_to_device};
use adb_fastboot::constants::{A_CLSE, A_OKAY, A_OPEN, A_WRTE, MAX_PAYLOAD_V2};
use adb_fastboot::header::AdbMessageHeader;
use adb_fastboot::host_service::read_request;
use adb_fastboot::session::{send_wrte, stream_raw_to, ClientError, RawStream, ShellEvent, ShellStream};
use adb_fastboot::sync_stream::SyncStream;
use adb_fastboot::transport::{IoError, IoErrorKind, Transport, TransportError};

/// A connection that delivers its input and then fails, and that takes so many bytes and no more.
struct Wire {
    input: Vec<u8>,
    at: usize,
    output: Vec<u8>,
    room: usize,
    end: Option<IoErrorKind>,
}

/// A connection that ends behind the parts.
fn ending(parts: &[Vec<u8>]) -> Wire {
    Wire { input: parts.concat(), at: 0, output: Vec::new(), room: usize::MAX, end: None }
}

/// A connection that fails behind the parts.
fn failing(parts: &[Vec<u8>]) -> Wire {
    Wire { end: Some(IoErrorKind::TimedOut), ..ending(parts) }
}

impl Transport for Wire {
    fn read(&mut self, buf: &mut [u8]) -> Result<usize, IoError> {
        let n = buf.len().min(self.input.len() - self.at);
        if let (0, Some(kind)) = (n, self.end) {
            return Err(IoError::new(kind, "broken"));
        }
        buf[..n].copy_from_slice(&self.input[self.at..self.at + n]);
        self.at += n;
        Ok(n)
    }

    fn write(&mut self, data: &[u8]) -> Result<usize, IoError> {
        let n = data.len().min(self.room - self.output.len());
        if n == 0 {
            return Err(IoError::new(IoErrorKind::PermissionDenied, "full"));
        }
        self.output.extend_from_slice(&data[..n]);
        Ok(n)
    }

    fn flush(&mut self) -> Result<(), IoError> {
        Ok(())
    }
}

fn message(command: u32, arg0: u32, arg1: u32, payload: &[u8]) -> Vec<u8> {
    let mut head = [0u8; 24];
    AdbMessageHeader::new(command, arg0, arg1, payload).encode(&mut head);
    let mut bytes = head.to_vec();
    bytes.extend_from_slice(payload);
    bytes
}

fn failed_with(e: &ClientError, kind: IoErrorKind) -> bool {
    matches!(e, ClientError::Transport(TransportError::Io(io)) if io.kind() == kind)
}

#[test]
fn payload_behind_a_bad_header_is_left() {
    let mut header = AdbMessageHeader::new(A_WRTE, 1, 2, b"abc");
    header.data_length = MAX_PAYLOAD_V2 + 1;
    let mut head = [0u8; 24];
    header.encode(&mut head);
    let mut wire = ending(&[head.to_vec(), b"abc".to_vec()]);
    assert!(matches!(wire.recv_message(), Err(TransportError::Protocol(_))));
    assert_eq!(wire.at, 24);

    let mut bad = message(A_WRTE, 1, 2, b"abc");
    bad[20] ^= 1;
    let mut wire = ending(&[bad]);
    assert!(matches!(wire.recv_message(), Err(TransportError::Header(_))));
    assert_eq!(wire.at, 24);
}

#[test]
fn messages_break_off_with_the_kind_of_the_fault() {
    let mut wire = failing(&[message(A_WRTE, 1, 2, b"abc")[..26].to_vec()]);
    assert!(matches!(wire.recv_message(), Err(TransportError::Io(e)) if e.kind() == IoErrorKind::TimedOut));
    let mut wire = ending(&[message(A_WRTE, 1, 2, b"abc")[..26].to_vec()]);
    assert!(matches!(wire.recv_message(), Err(TransportError::Io(e)) if e.kind() == IoErrorKind::UnexpectedEof));
}

#[test]
fn requests_take_their_bytes_and_no_more() {
    let mut wire = ending(&[b"000chost:version0004".to_vec()]);
    assert_eq!(read_request(&mut wire).unwrap().as_deref(), Some("host:version"));
    assert_eq!(wire.at, 16);
}

#[test]
fn chunks_end_only_where_the_service_or_the_connection_does() {
    let mut stream = RawStream { local_id: 1, remote_id: 2 };
    assert!(matches!(stream.next_chunk(&mut ending(&[])), Ok(None)));
    let mut stream = RawStream { local_id: 1, remote_id: 2 };
    assert!(matches!(stream.next_chunk(&mut ending(&[message(A_CLSE, 2, 1, &[])])), Ok(None)));
    let mut stream = RawStream { local_id: 1, remote_id: 2 };
    let e = stream.next_chunk(&mut failing(&[])).unwrap_err();
    assert!(matches!(e, ClientError::Failed(m) if m.starts_with("stream error: ")));
}

#[test]
fn shell_events_end_only_where_the_service_or_the_connection_does() {
    let mut stream = ShellStream { local_id: 1, remote_id: 2 };
    assert!(matches!(stream.next_event(&mut ending(&[])), Ok(ShellEvent::End)));
    let mut stream = ShellStream { local_id: 1, remote_id: 2 };
    let r = stream.next_event(&mut failing(&[]));
    assert!(matches!(r, Err(TransportError::Io(io)) if io.kind() == IoErrorKind::TimedOut));
}

#[test]
fn output_up_to_the_end_is_kept() {
    let parts = [message(A_WRTE, 2, 1, b"ab"), message(A_OKAY, 3, 1, &[]), message(A_WRTE, 2, 1, b"c")];
    let mut sink = b"_".to_vec();
    let mut wire = ending(&parts);
    assert_eq!(stream_raw_to(&mut wire, 1, 2, &mut sink).unwrap(), 3);
    assert_eq!(sink, b"_abc");
    assert_eq!(wire.output, [message(A_OKAY, 1, 2, &[]), message(A_OKAY, 1, 3, &[])].concat());

    let mut sink = Vec::new();
    assert!(stream_raw_to(&mut failing(&parts), 1, 2, &mut sink).is_err());
    assert_eq!(sink, b"abc");
}

#[test]
fn output_of_a_device_goes_to_the_client() {
    let (mut device, mut client) = (ending(&[message(A_WRTE, 9, 1, b"down")]), ending(&[]));
    pump_to_client(&mut device, &mut client, 9);
    assert_eq!(client.output, b"down");
    assert_eq!(device.output, message(A_OKAY, 1, 9, &[]));

    let parts = [message(A_WRTE, 9, 1, b"down"), message(A_WRTE, 9, 1, b"more")];
    let (mut device, mut client) = (ending(&parts), Wire { room: 6, ..ending(&[]) });
    pump_to_client(&mut device, &mut client, 9);
    assert_eq!(client.output, b"downmo");
    assert_eq!(device.output, message(A_OKAY, 1, 9, &[]));
}

#[test]
fn unacknowledged_writes_fail() {
    let mut wire = failing(&[]);
    assert!(failed_with(&send_wrte(&mut wire, 1, 2, b"abc").unwrap_err(), IoErrorKind::TimedOut));
    assert_eq!(wire.output, message(A_WRTE, 1, 2, b"abc"));
    let mut wire = failing(&[message(A_WRTE, 2, 1, b"x")]);
    assert!(failed_with(&send_wrte(&mut wire, 1, 2, b"abc").unwrap_err(), IoErrorKind::TimedOut));
    assert_eq!(wire.output, [message(A_WRTE, 1, 2, b"abc"), message(A_OKAY, 1, 2, &[])].concat());
    let mut wire = Wire { room: 10, ..ending(&[message(A_OKAY, 2, 1, &[])]) };
    assert!(failed_with(&send_wrte(&mut wire, 1, 2, b"abc").unwrap_err(), IoErrorKind::PermissionDenied));
    assert_eq!(wire.at, 0);
}

#[test]
fn pushes_that_are_not_confirmed_fail() {
    let okay = message(A_OKAY, 2, 1, &[]);
    let mut stream = SyncStream::new(Wire { room: 0, ..ending(&[]) }, 1, 2);
    assert!(failed_with(&stream.push_bytes("/a", b"x", 0o644).unwrap_err(), IoErrorKind::PermissionDenied));
    let mut stream = SyncStream::new(failing(&[okay.clone()]), 1, 2);
    assert!(failed_with(&stream.push_bytes("/a", b"x", 0o644).unwrap_err(), IoErrorKind::TimedOut));
    let mut stream = SyncStream::new(failing(&[]), 1, 2);
    assert!(failed_with(&stream.finish_push("/a").unwrap_err(), IoErrorKind::TimedOut));
}

#[test]
fn clients_that_end_are_told_from_clients_that_fail() {
    let wrte = message(A_WRTE, 1, 9, b"up");
    let (mut client, mut device) = (ending(&[b"up".to_vec()]), ending(&[]));
    assert!(pump_to_device(&mut client, &mut device, 9));
    assert_eq!(device.output, [wrte.clone(), message(A_CLSE, 1, 9, &[])].concat());

    let (mut client, mut device) = (failing(&[b"up".to_vec()]), ending(&[]));
    assert!(!pump_to_device(&mut client, &mut device, 9));
    assert_eq!(device.output, wrte);

    let (mut client, mut device) = (ending(&[b"up".to_vec()]), Wire { room: 5, ..ending(&[]) });
    assert!(!pump_to_device(&mut client, &mut device, 9));
    assert_eq!(device.output, wrte[..5]);
}

#[test]
fn relays_end_with_the_device() {
    let open = message(A_OPEN, 1, 0, b"shell:");
    let (mut device, mut client) = (ending(&[open.clone()]), ending(&[]));
    assert!(relay_to_client(&mut device, &mut client).is_ok());
    assert_eq!(client.output, open);
    let (mut device, mut client) = (failing(&[open.clone()]), ending(&[]));
    assert!(relay_to_client(&mut device, &mut client).is_err());
    assert_eq!(client.output, open);
    let (mut client, mut device) = (failing(&[open.clone()]), Wire { room: 30, ..ending(&[]) });
    assert!(relay_to_device(&mut client, &mut device).is_ok());
    let (mut client, mut device) = (failing(&[open.clone()]), Wire { room: 29, ..ending(&[]) });
    assert!(relay_to_device(&mut client, &mut device).is_err());
    assert_eq!(device.output, open[..29]);
}
