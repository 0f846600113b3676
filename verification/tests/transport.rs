use adb_fastboot::client::{
    cleanup_command, forward_request, host_command, install_command, kill_server, logcat_command, needs_transport,
    open_adb_transport, package_outcome, pulled_name, reboot_service, remote_package_path, resolve_target_addr,
    reverse_request, uninstall_command, PackageOutcome, TransportPlan,
};
use adb_fastboot::constants::{A_CNXN, A_WRTE, MAX_PAYLOAD_V2};
use adb_fastboot::header::{AdbMessageHeader, HeaderError};
use adb_fastboot::hostwire::{fail_with, frame, okay, okay_with, read_length, LengthPrefix};
use adb_fastboot::server_transport::{switch_request, AdbServerTransport};
use adb_fastboot::transport::{IoError, IoErrorKind, Transport, TransportError};

/// A connection in memory: what the other side will deliver, and what it was sent.
struct Wire {
    input: Vec<u8>,
    at: usize,
    output: Vec<u8>,
    step: usize,
}

impl Wire {
    fn new(input: Vec<u8>) -> Wire {
        Wire { input, at: 0, output: Vec::new(), step: 7 }
    }
}

impl Transport for Wire {
    fn read(&mut self, buf: &mut [u8]) -> Result<usize, IoError> {
        let n = buf.len().min(self.input.len() - self.at).min(self.step);
        buf[..n].copy_from_slice(&self.input[self.at..self.at + n]);
        self.at += n;
        Ok(n)
    }

    fn write(&mut self, data: &[u8]) -> Result<usize, IoError> {
        let n = data.len().min(self.step);
        self.output.extend_from_slice(&data[..n]);
        Ok(n)
    }

    fn flush(&mut self) -> Result<(), IoError> {
        Ok(())
    }
}

fn message(command: u32, arg0: u32, arg1: u32, payload: &[u8]) -> Vec<u8> {
    let mut head = [0u8; 24];
    AdbMessageHeader::new(command, arg0, arg1, payload).encode(&mut head);
    let mut bytes = head.to_vec();
    bytes.extend_from_slice(payload);
    bytes
}

#[test]
fn message_is_sent_and_answered() {
    let mut transport = Wire::new(message(A_CNXN, 0, 0, b"OK"));
    let payload = b"hello adb";
    let hdr = AdbMessageHeader::new(A_CNXN, 1, 2, payload);
    transport.send_message(&hdr, payload).unwrap();
    assert_eq!(transport.output, message(A_CNXN, 1, 2, payload));

    let (resp_hdr, resp_payload) = transport.recv_message().unwrap();
    assert_eq!(resp_hdr.command, A_CNXN);
    assert_eq!(resp_payload, b"OK");
}

/// A connection that holds back what is written until it is flushed.
struct Buffered {
    held: Vec<u8>,
    passed: Vec<u8>,
    broken: bool,
}

impl Transport for Buffered {
    fn read(&mut self, _buf: &mut [u8]) -> Result<usize, IoError> {
        Ok(0)
    }

    fn write(&mut self, data: &[u8]) -> Result<usize, IoError> {
        self.held.extend_from_slice(data);
        Ok(data.len())
    }

    fn flush(&mut self) -> Result<(), IoError> {
        if self.broken {
            return Err(IoError::new(IoErrorKind::NotConnected, "gone"));
        }
        self.passed.append(&mut self.held);
        Ok(())
    }
}

#[test]
fn nothing_of_a_sent_message_is_held_back() {
    let mut transport = Buffered { held: Vec::new(), passed: Vec::new(), broken: false };
    let hdr = AdbMessageHeader::new(A_WRTE, 1, 2, b"data");
    transport.send_message(&hdr, b"data").unwrap();
    assert_eq!(transport.passed, message(A_WRTE, 1, 2, b"data"));
    assert!(transport.held.is_empty());

    transport.write_all(b"tail").unwrap();
    assert_eq!(transport.held, b"tail");
    transport.flush_payload(4).unwrap();
    assert!(transport.held.is_empty());

    transport.broken = true;
    assert!(matches!(transport.flush_payload(0), Err(TransportError::Io(e)) if e.kind() == IoErrorKind::NotConnected));
}

#[test]
fn what_was_sent_is_received() {
    let mut out = Wire::new(Vec::new());
    let hdr = AdbMessageHeader::new(A_WRTE, 3, 4, b"payload");
    out.send_message(&hdr, b"payload").unwrap();
    let mut back = Wire::new(out.output);
    assert_eq!(back.recv_message().unwrap(), (hdr, b"payload".to_vec()));
    assert_eq!(back.at, back.input.len());
}

#[test]
fn broken_messages_are_refused() {
    let mut bad = message(A_CNXN, 0, 0, b"x");
    bad[20] ^= 1;
    assert!(matches!(
        Wire::new(bad).recv_message(),
        Err(TransportError::Header(HeaderError::MagicMismatch { .. }))
    ));

    let mut checked = [0u8; 24];
    AdbMessageHeader::new_v1_legacy(A_CNXN, 0, 0, b"abc").encode(&mut checked);
    let mut bytes = checked.to_vec();
    bytes.extend_from_slice(b"abd");
    assert!(matches!(
        Wire::new(bytes).recv_message(),
        Err(TransportError::Header(HeaderError::ChecksumMismatch { .. }))
    ));

    let mut huge = [0u8; 24];
    let mut header = AdbMessageHeader::new(A_CNXN, 0, 0, b"");
    header.data_length = MAX_PAYLOAD_V2 + 1;
    header.encode(&mut huge);
    assert!(matches!(Wire::new(huge.to_vec()).recv_message(), Err(TransportError::Protocol(_))));

    let short = message(A_CNXN, 0, 0, b"payload")[..27].to_vec();
    assert!(matches!(Wire::new(short).recv_message(), Err(TransportError::Io(e)) if e.kind() == IoErrorKind::UnexpectedEof));
}

#[test]
fn transport_errors_have_texts() {
    let e = TransportError::ConnectFailed {
        addr: "127.0.0.1:59999".to_string(),
        source: IoError::new(IoErrorKind::Other, "refused"),
    };
    assert!(e.message().contains("59999"));
    assert!(TransportError::TlsHandshakeRequired.message().len() > 0);
}

#[test]
fn frames_have_four_hexadecimal_digits() {
    assert_eq!(frame(b"host:version"), b"000chost:version".to_vec());
    assert_eq!(okay(), b"OKAY".to_vec());
    assert_eq!(okay_with(b"hi"), b"OKAY0002hi".to_vec());
    assert_eq!(fail_with("no"), b"FAIL0002no".to_vec());
}

#[test]
fn lengths_are_read() {
    assert!(matches!(read_length(b"000c"), LengthPrefix::Length(12)));
    assert!(matches!(read_length(b"00FF"), LengthPrefix::Length(255)));
    assert!(matches!(read_length(b"00xx"), LengthPrefix::NotNumber(_)));
    assert!(matches!(read_length(&[0xff, 0xfe, 0, 0]), LengthPrefix::NotText));
}

#[test]
fn test_adb_server_transport_execute_command() {
    let dev_list = b"emulator-5554 device product:sdk model:sdk\n";
    let mut transport = AdbServerTransport::from_stream(Wire::new(okay_with(dev_list)));
    let res = transport.execute_host_command("host:devices-l").unwrap();
    assert_eq!(res, "emulator-5554 device product:sdk model:sdk\n");
    assert_eq!(transport.into_inner().output, b"000ehost:devices-l".to_vec());
}

#[test]
fn test_adb_server_transport_fail_response() {
    let mut transport = AdbServerTransport::from_stream(Wire::new(fail_with("device 'nonexistent' not found")));
    let res = transport.switch_transport(Some("nonexistent"));
    if let Err(TransportError::Protocol(msg)) = res {
        assert!(msg.contains("device 'nonexistent' not found"));
    } else {
        panic!("Expected Protocol error");
    }
    assert_eq!(transport.into_inner().output, b"001ahost:transport:nonexistent".to_vec());
}

#[test]
fn test_adb_server_devices_wire_sequence() {
    let payload = b"127.0.0.1:5555          device product:test model:test_dev\n";
    let mut transport = AdbServerTransport::from_stream(Wire::new(okay_with(payload)));
    let dev_list = transport.execute_host_command("host:devices-l").unwrap();
    assert!(dev_list.contains("127.0.0.1:5555"));
    assert!(dev_list.contains("device"));
    assert_eq!(transport.into_inner().output, b"000ehost:devices-l".to_vec());
}

#[test]
fn odd_answers_of_the_server_are_refused() {
    let mut transport = AdbServerTransport::from_stream(Wire::new(b"WHAT".to_vec()));
    assert!(matches!(transport.read_status(), Err(TransportError::Protocol(_))));
    let mut transport = AdbServerTransport::from_stream(Wire::new(b"00zz".to_vec()));
    assert!(matches!(transport.read_payload(), Err(TransportError::Protocol(_))));
    let mut transport = AdbServerTransport::from_stream(Wire::new(b"0004ab".to_vec()));
    assert!(matches!(transport.read_payload(), Err(TransportError::Io(_))));
}

#[test]
fn transports_are_switched_by_serial() {
    assert_eq!(switch_request(Some("abc")), "host:transport:abc");
    assert_eq!(switch_request(None), "host:transport-any");
}

#[test]
fn client_commands_go_through_the_server() {
    let mut answers = okay();
    answers.extend(okay_with(b"123\n"));
    let mut server = AdbServerTransport::from_stream(Wire::new(answers));
    assert_eq!(host_command(&mut server, Some("abc"), "host:jdwp").unwrap(), "123\n");
    assert_eq!(server.into_inner().output, b"0012host:transport:abc0009host:jdwp".to_vec());
    assert!(needs_transport("host:jdwp"));

    let mut server = AdbServerTransport::from_stream(Wire::new(okay_with(b"")));
    assert_eq!(host_command(&mut server, Some("abc"), "host:forward:list").unwrap(), "");
    assert_eq!(server.into_inner().output, b"0011host:forward:list".to_vec());
    assert!(!needs_transport("host:devices-l"));

    let mut server = AdbServerTransport::from_stream(Wire::new(okay()));
    kill_server(&mut server).unwrap();
    assert_eq!(server.into_inner().output, b"0009host:kill".to_vec());
}

#[test]
fn addresses_are_resolved() {
    assert_eq!(resolve_target_addr(Some("10.0.0.1:5556"), 5555), "10.0.0.1:5556");
    assert_eq!(resolve_target_addr(Some("10.0.0.1"), 5555), "10.0.0.1:5555");
    assert_eq!(resolve_target_addr(None, 5554), "127.0.0.1:5554");
}

#[test]
fn usb_mode_reports_feature_requirement_without_touching_tcp() {
    let error = match open_adb_transport(None, true, false) {
        Ok(_) => panic!("USB mode must fail clearly when the optional feature is disabled"),
        Err(error) => error,
    };
    assert!(error.contains("USB support is not enabled"));
    assert!(error.contains("--features usb"));
}

#[test]
fn transport_plans() {
    assert!(matches!(
        open_adb_transport(Some("10.0.0.1:5556"), false, false),
        Ok(TransportPlan::Tcp { addr }) if addr == "10.0.0.1:5556"
    ));
    assert!(matches!(
        open_adb_transport(Some("abc"), true, true),
        Ok(TransportPlan::Usb { serial: Some(s) }) if s == "abc"
    ));
}

#[test]
fn requests_for_rules() {
    assert_eq!(
        forward_request(false, None, false, false, Some("tcp:1"), Some("tcp:2")),
        Some("host:forward:tcp:1;tcp:2".to_string())
    );
    assert_eq!(
        forward_request(false, None, false, true, Some("tcp:1"), Some("tcp:2")),
        Some("host:forward:norebind:tcp:1;tcp:2".to_string())
    );
    assert_eq!(forward_request(true, None, false, false, None, None), Some("host:forward:list".to_string()));
    assert_eq!(forward_request(false, None, false, false, Some("tcp:1"), None), None);
    assert!(reverse_request(true, None, false, false, None, None).is_some());
}

#[test]
fn commands_for_packages() {
    assert_eq!(remote_package_path("a.apk"), "/data/local/tmp/a.apk");
    assert!(install_command("/data/local/tmp/a.apk").contains("/data/local/tmp/a.apk"));
    assert!(cleanup_command("/data/local/tmp/a.apk").starts_with("rm -f "));
    assert!(uninstall_command("com.example").contains("com.example"));
    assert!(matches!(package_outcome(b"Success\n").0, PackageOutcome::Succeeded));
    assert!(matches!(package_outcome(b"").0, PackageOutcome::NoOutput));
    assert!(matches!(package_outcome(b"Failure [X]").0, PackageOutcome::Other));
}

#[test]
fn small_client_texts() {
    assert_eq!(reboot_service(None), "reboot:");
    assert_eq!(reboot_service(Some("bootloader")), "reboot:bootloader");
    assert!(logcat_command(&["-d".to_string()]).contains("-d"));
    assert_eq!(pulled_name("/sdcard/a.txt"), Some("a.txt".to_string()));
}
