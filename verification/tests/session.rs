use adb_fastboot::adb_utils::exec_service_string;
use adb_fastboot::auth::{parse_adb_public_key_string, AdbAuth, AuthResponder};
use adb_fastboot::bridge::{open_forward, pump_to_client, pump_to_device, relay_to_client, relay_to_device};
use adb_fastboot::constants::{
    ADB_VERSION, A_AUTH, A_AUTH_RSAKEY, A_AUTH_SIGNATURE, A_AUTH_TOKEN, A_CLSE, A_CNXN, A_OKAY, A_OPEN, A_STLS,
    A_STLS_VERSION, A_WRTE, MAX_PAYLOAD_V2, SYNC_DATA, SYNC_DENT, SYNC_DONE, SYNC_FAIL, SYNC_LIST, SYNC_OKAY,
    SYNC_RECV, SYNC_SEND,
};
use adb_fastboot::features::host_cnxn_payload;
use adb_fastboot::header::AdbMessageHeader;
use adb_fastboot::keys::{verify_token_signature, PrivateKey};
use adb_fastboot::session::{
    capture, encrypted_handshake, end_input, handshake, open_service, open_shell, recv_wrte_all, send_chunk,
    send_wrte, shell_service_string, split_shell_output, stream_raw_to, ClientError, Handshake, RawStream,
    ShellEvent, ShellOutput,
};
use adb_fastboot::shell_v2::ShellV2Packet;
use adb_fastboot::sync::{
    build_sync_data_chunk, build_sync_done, build_sync_list_req, build_sync_recv_req, build_sync_send_req,
    SyncDentResponse, SyncMessageHeader,
};
use adb_fastboot::sync_stream::{parse_sync_message, pull_step, PullStep, SyncStream};
use adb_fastboot::transport::{IoError, Transport};
use rsa::pkcs8::EncodePrivateKey;
use rsa::{BigUint, RsaPrivateKey};

/// A key of the given primes, so that none has to be searched for.
fn key_of(p: &str, q: &str) -> PrivateKey {
    let number = |s: &str| BigUint::parse_bytes(s.as_bytes(), 16).unwrap();
    let key = RsaPrivateKey::from_p_q(number(p), number(q), BigUint::from(65537u32)).unwrap();
    PrivateKey::from_pkcs8_der(key.to_pkcs8_der().unwrap().as_bytes()).unwrap()
}

fn first_key() -> PrivateKey {
    key_of(
        "d2a2542aaff1922e6f5057948a9121247872b3e4c9af71d8e2082583b0566dc7\
         e9bfb905ebd2e0ea34d730d2715399d04e82ec29dca039e40c7488cd710f19b3\
         64d6f92d28c9fcb52c184189205c5e16cd56cd7e717cb147446bc2ee675d6764\
         89f3534630ec84f397c5d565ded8f363c1747eccf85a018ce8a01cf76e1b8f57",
        "f92a1f0c5bdb72311460d3cc2f554440f1539bb04e31c8485ae5ebc37669b35e\
         931ea92eb5c83d94359bc09293b8f3fe1a7ba3403488f8da907e1f5f952e5bf6\
         210bfb7821ab15371f848e0c9cf37de26f27569a7a9e8eaa4b1b304563b8e72d\
         148cd5ce2162d86a80555f0874d6663d4585ad086406f599576992c758e34749",
    )
}

/// A connection in memory: what the other side will deliver, and what it was sent.
struct Wire {
    input: Vec<u8>,
    at: usize,
    output: Vec<u8>,
    step: usize,
}

impl Wire {
    fn new(input: Vec<u8>) -> Wire {
        Wire { input, at: 0, output: Vec::new(), step: 7 }
    }
}

impl Transport for Wire {
    fn read(&mut self, buf: &mut [u8]) -> Result<usize, IoError> {
        let n = buf.len().min(self.input.len() - self.at).min(self.step);
        buf[..n].copy_from_slice(&self.input[self.at..self.at + n]);
        self.at += n;
        Ok(n)
    }

    fn write(&mut self, data: &[u8]) -> Result<usize, IoError> {
        let n = data.len().min(self.step);
        self.output.extend_from_slice(&data[..n]);
        Ok(n)
    }

    fn flush(&mut self) -> Result<(), IoError> {
        Ok(())
    }
}

fn message(command: u32, arg0: u32, arg1: u32, payload: &[u8]) -> Vec<u8> {
    let mut head = [0u8; 24];
    AdbMessageHeader::new(command, arg0, arg1, payload).encode(&mut head);
    let mut bytes = head.to_vec();
    bytes.extend_from_slice(payload);
    bytes
}

/// The messages in what was sent.
fn messages(bytes: &[u8]) -> Vec<(AdbMessageHeader, Vec<u8>)> {
    let mut wire = Wire::new(bytes.to_vec());
    let mut out = Vec::new();
    while wire.at < wire.input.len() {
        out.push(wire.recv_message().unwrap());
    }
    out
}

fn script(parts: &[Vec<u8>]) -> Wire {
    let mut wire = Wire::new(parts.concat());
    wire.step = usize::MAX;
    wire
}

fn sync_message(id: u32, payload: &[u8]) -> Vec<u8> {
    let mut head = [0u8; 8];
    SyncMessageHeader::new(id, payload.len() as u32).encode(&mut head);
    let mut bytes = head.to_vec();
    bytes.extend_from_slice(payload);
    bytes
}

#[test]
fn test_exec_out_streams_raw_bytes_byte_exact() {
    // A payload with CRLF and bytes that look like shell packets.
    let png: Vec<u8> = vec![0x89, b'P', b'N', b'G', b'\r', b'\n', 0x1a, b'\n', 0x00, 0x2d];
    let mut transport = script(&[
        message(A_OKAY, 7, 1, &[]),
        message(A_WRTE, 7, 1, &png[..5]),
        message(A_WRTE, 7, 1, &png[5..]),
        message(A_CLSE, 7, 1, &[]),
    ]);
    let args: Vec<String> = ["screencap", "-p"].iter().map(|s| s.to_string()).collect();
    let dest = exec_service_string(&args);
    let (lid, rid) = open_service(&mut transport, &dest, 1).unwrap();
    assert_eq!((lid, rid), (1, 7));
    let mut sink: Vec<u8> = Vec::new();
    let total = stream_raw_to(&mut transport, lid, rid, &mut sink).unwrap();
    assert_eq!(total, png.len());
    assert_eq!(sink, png, "exec-out must be byte-exact raw");

    let sent = messages(&transport.output);
    assert_eq!((sent[0].0.command, sent[0].1.as_slice()), (A_OPEN, b"exec:screencap '-p'".as_slice()));
    let commands: Vec<u32> = sent.iter().map(|m| m.0.command).collect();
    assert_eq!(commands, vec![A_OPEN, A_OKAY, A_OKAY, A_CLSE]);
}

#[test]
fn test_exec_in_feeds_stdin_and_closes() {
    let data: Vec<u8> = (0..300_000u32).map(|i| (i % 251) as u8).collect();
    let mut transport = script(&[
        message(A_OKAY, 7, 1, &[]),
        message(A_OKAY, 7, 1, &[]),
        message(A_OKAY, 7, 1, &[]),
    ]);
    let args: Vec<String> = ["cat", "a b"].iter().map(|s| s.to_string()).collect();
    let dest = exec_service_string(&args);
    let (lid, rid) = open_service(&mut transport, &dest, 1).unwrap();
    assert!(send_chunk(&mut transport, lid, rid, &data[..200_000]).unwrap());
    assert!(send_chunk(&mut transport, lid, rid, &data[200_000..]).unwrap());
    end_input(&mut transport, lid, rid);

    let sent = messages(&transport.output);
    assert_eq!(sent[0].1, b"exec:cat 'a b'");
    let received: Vec<u8> = sent[1..3].iter().flat_map(|m| m.1.clone()).collect();
    assert_eq!(received, data, "exec-in must deliver stdin byte-exact");
    assert_eq!(sent[3].0.command, A_CLSE);
}

#[test]
fn closed_input_ends_the_stream() {
    let mut transport = script(&[message(A_CLSE, 7, 1, &[])]);
    assert!(!send_chunk(&mut transport, 1, 7, b"data").unwrap());
}

#[test]
fn test_sync_push_daemon_faithful_okay_only_after_done() {
    let transport = script(&[
        message(A_OKAY, 7, 1, &[]),
        message(A_OKAY, 7, 1, &[]),
        message(A_OKAY, 7, 1, &[]),
        message(A_WRTE, 7, 1, &sync_message(SYNC_OKAY, &[])),
    ]);
    let mut sync = SyncStream::new(transport, 1, 7);
    sync.push_bytes("/data/local/tmp/x.bin", b"PUSHED!", 0o100644).unwrap();

    let transport = sync.into_inner();
    assert_eq!(transport.at, transport.input.len());
    let sent = messages(&transport.output);
    let ids: Vec<u32> = sent[..3].iter().map(|m| SyncMessageHeader::decode(&m.1).unwrap().id).collect();
    assert_eq!(
        ids,
        vec![SYNC_SEND, SYNC_DATA, SYNC_DONE],
        "push must be SEND → DATA → DONE with no interleaved waits"
    );
    let req = String::from_utf8_lossy(&sent[0].1[8..]).to_string();
    assert!(req.starts_with("/data/local/tmp/x.bin,33188"), "got {req}");
    assert_eq!(&sent[1].1[8..], b"PUSHED!");
    assert!(sent[2].1[8..].is_empty());
    assert_eq!(sent[3].0.command, A_OKAY);
}

#[test]
fn refused_push_tells_why() {
    let transport = script(&[
        message(A_OKAY, 7, 1, &[]),
        message(A_OKAY, 7, 1, &[]),
        message(A_WRTE, 7, 1, &sync_message(SYNC_FAIL, b"read-only")),
    ]);
    let mut sync = SyncStream::new(transport, 1, 7);
    let error = sync.push_bytes("/x", b"", 0o644).unwrap_err().message();
    assert!(error.contains("device rejected push of /x: read-only"), "got {error}");
}

#[test]
fn large_pushes_go_in_blocks() {
    let data = vec![5u8; 64 * 1024 + 1];
    let mut parts = vec![message(A_OKAY, 7, 1, &[]); 4];
    parts.push(message(A_WRTE, 7, 1, &sync_message(SYNC_OKAY, &[])));
    let mut sync = SyncStream::new(script(&parts), 1, 7);
    sync.push_bytes("/x", &data, 0o644).unwrap();
    let sent = messages(&sync.into_inner().output);
    assert_eq!(sent[1].1.len(), 8 + 64 * 1024);
    assert_eq!(sent[2].1.len(), 8 + 1);
}

#[test]
fn test_sync_pull_writes_all_data_until_done() {
    let transport = script(&[
        message(A_OKAY, 7, 1, &[]),
        message(A_WRTE, 7, 1, &sync_message(SYNC_DATA, b"AAAA")),
        message(A_WRTE, 7, 1, &sync_message(SYNC_DATA, b"BBBB")),
        message(A_WRTE, 7, 1, &sync_message(SYNC_DONE, &[])),
    ]);
    let mut sync = SyncStream::new(transport, 1, 7);
    let mut request = Vec::new();
    build_sync_recv_req("/remote/file.bin", &mut request).unwrap();
    sync.send_block(&request).unwrap();
    let mut out = Vec::new();
    loop {
        match sync.next_pull_step("/remote/file.bin").unwrap() {
            PullStep::Data(data) => out.extend_from_slice(&data),
            PullStep::Done => break,
            PullStep::Refused { message, .. } => panic!("{message}"),
        }
    }
    assert_eq!(out.len(), 8);
    assert_eq!(out, b"AAAABBBB");
    let sent = messages(&sync.into_inner().output);
    assert_eq!(SyncMessageHeader::decode(&sent[0].1).unwrap().id, SYNC_RECV);
    assert_eq!(&sent[0].1[8..], b"/remote/file.bin");
}

#[test]
fn test_sync_pull_fail_removes_partial_file() {
    let transport = script(&[
        message(A_WRTE, 7, 1, &sync_message(SYNC_DATA, b"PARTIAL")),
        message(A_WRTE, 7, 1, &sync_message(SYNC_FAIL, b"open failed")),
    ]);
    let mut sync = SyncStream::new(transport, 1, 7);
    assert!(matches!(sync.next_pull_step("/remote/x").unwrap(), PullStep::Data(d) if d == b"PARTIAL"));
    match sync.next_pull_step("/remote/x").unwrap() {
        PullStep::Refused { message, remove_partial } => {
            assert!(message.contains("pull /remote/x failed"), "got {message}");
            assert!(remove_partial, "partial file must be cleaned up on FAIL");
        }
        _ => panic!("expected a refusal"),
    }
}

#[test]
fn pull_steps() {
    assert!(matches!(pull_step("/x", SYNC_DONE, Vec::new()), PullStep::Done));
    assert!(matches!(pull_step("/x", SYNC_OKAY, Vec::new()), PullStep::Refused { remove_partial: false, .. }));
    assert!(matches!(pull_step("/x", 1, Vec::new()), PullStep::Refused { remove_partial: true, .. }));
}

#[test]
fn sync_messages_are_checked() {
    assert_eq!(parse_sync_message(&sync_message(SYNC_DATA, b"abc")), Ok((SYNC_DATA, b"abc".to_vec())));
    assert!(parse_sync_message(b"short").is_err());
    let mut cut = sync_message(SYNC_DATA, b"abc");
    cut.pop();
    assert!(parse_sync_message(&cut).is_err());
}

#[test]
fn sync_is_quit_politely() {
    let mut sync = SyncStream::new(script(&[]), 1, 7);
    sync.quit().unwrap();
    let sent = messages(&sync.into_inner().output);
    assert_eq!(&sent[0].1, b"QUIT\0\0\0\0");
    assert_eq!(sent[1].0.command, A_CLSE);
}

#[test]
fn test_handshake_auth_token_signature_loop() {
    let auth = AdbAuth::new(first_key(), "fake-adbd-test@localhost");
    let token = b"fake_adbd_token_20!".to_vec();
    let banner = b"device product::model fake-adbd".to_vec();
    let mut transport =
        script(&[message(A_AUTH, A_AUTH_TOKEN, 0, &token), message(A_CNXN, 0x01000001, 256 * 1024, &banner)]);
    let mut responder = AuthResponder::single(auth.clone());
    match handshake(&mut transport, &host_cnxn_payload(), &mut responder).unwrap() {
        Handshake::Connected(info) => assert!(info.banner.contains("fake-adbd")),
        Handshake::TlsRequired => panic!("no TLS was asked for"),
    }

    let sent = messages(&transport.output);
    assert_eq!(sent[0].0, AdbMessageHeader::new(A_CNXN, ADB_VERSION, MAX_PAYLOAD_V2, &host_cnxn_payload()));
    assert_eq!((sent[1].0.command, sent[1].0.arg0), (A_AUTH, A_AUTH_SIGNATURE));
    assert!(verify_token_signature(auth.public_key(), &token, &sent[1].1).unwrap());
}

#[test]
fn test_handshake_auth_pubkey_fallback_then_wait() {
    let auth = AdbAuth::new(first_key(), "unauth-test@localhost");
    let token = b"unauth_token_20byte!".to_vec();
    let mut transport =
        script(&[message(A_AUTH, A_AUTH_TOKEN, 0, &token), message(A_AUTH, A_AUTH_TOKEN, 0, &token)]);
    let mut responder = AuthResponder::single(auth.clone());
    let result = handshake(&mut transport, &host_cnxn_payload(), &mut responder);
    assert!(result.is_err(), "server closed without CNXN; client must error");

    let sent = messages(&transport.output);
    assert_eq!(sent[1].0.arg0, A_AUTH_SIGNATURE);
    assert!(verify_token_signature(auth.public_key(), &token, &sent[1].1).unwrap());
    assert_eq!(sent[2].0.arg0, A_AUTH_RSAKEY);
    let s = String::from_utf8(sent[2].1.clone()).unwrap();
    let (parsed, _) = parse_adb_public_key_string(&s).unwrap();
    assert_eq!(parsed, *auth.public_key());
}

#[test]
fn tls_is_asked_for_and_the_connection_made_again() {
    let auth = AdbAuth::new(first_key(), "tls@localhost");
    let mut responder = AuthResponder::single(auth);
    let mut transport = script(&[message(A_STLS, A_STLS_VERSION, 0, &[])]);
    assert!(matches!(handshake(&mut transport, b"host::", &mut responder), Ok(Handshake::TlsRequired)));

    let mut transport = script(&[message(A_CNXN, 1, 4096, b"device::tls")]);
    assert_eq!(encrypted_handshake(&mut transport, b"host::").unwrap().banner, "device::tls");
    let mut transport = script(&[message(A_AUTH, A_AUTH_TOKEN, 0, b"t")]);
    let error = encrypted_handshake(&mut transport, b"host::").unwrap_err().message();
    assert!(error.contains("0x48545541"), "got {error}");
}

#[test]
fn unexpected_answers_end_a_handshake() {
    let mut responder = AuthResponder::single(AdbAuth::new(first_key(), "x@y"));
    let mut transport = script(&[message(A_OPEN, 0, 0, &[])]);
    match handshake(&mut transport, b"host::", &mut responder) {
        Err(ClientError::Failed(m)) => assert!(m.contains("0x4e45504f"), "got {m}"),
        _ => panic!("expected a failure"),
    }
}

#[test]
fn services_may_be_closed_at_once() {
    let mut transport = script(&[message(A_CLSE, 0, 1, &[])]);
    let error = open_service(&mut transport, "shell:", 1).unwrap_err().message();
    assert!(error.contains("'shell:' closed immediately"), "got {error}");
}

#[test]
fn writes_wait_for_their_acknowledgement() {
    let mut transport = script(&[message(A_WRTE, 7, 1, b"x"), message(A_OKAY, 7, 1, &[])]);
    send_wrte(&mut transport, 1, 7, b"data").unwrap();
    let sent = messages(&transport.output);
    assert_eq!(sent[0].1, b"data");
    assert_eq!(sent[1].0.command, A_OKAY);

    let mut transport = script(&[message(A_CLSE, 7, 1, &[])]);
    assert!(send_wrte(&mut transport, 1, 7, b"data").unwrap_err().message().contains("closed by peer"));
}

#[test]
fn all_writes_are_collected() {
    let mut transport =
        script(&[message(A_WRTE, 7, 1, b"ab"), message(A_WRTE, 7, 1, b"cd"), message(A_CLSE, 7, 1, &[])]);
    assert_eq!(recv_wrte_all(&mut transport, 1).unwrap(), b"abcd");
}

#[test]
fn raw_chunks_come_one_by_one() {
    let mut transport = script(&[message(A_WRTE, 7, 1, b"ab"), message(A_CLSE, 7, 1, &[])]);
    let mut stream = RawStream { local_id: 1, remote_id: 7 };
    assert_eq!(stream.next_chunk(&mut transport).unwrap(), Some(b"ab".to_vec()));
    assert_eq!(stream.next_chunk(&mut transport).unwrap(), None);
}

#[test]
fn shell_output_is_taken_apart() {
    let mut payload = Vec::new();
    ShellV2Packet::Stdout(b"out").encode(&mut payload);
    ShellV2Packet::Stderr(b"err").encode(&mut payload);
    ShellV2Packet::ExitCode(3).encode(&mut payload);
    let (chunks, exit) = split_shell_output(&payload);
    assert_eq!(chunks.len(), 2);
    assert!(matches!(&chunks[0], ShellOutput::Stdout(d) if d == b"out"));
    assert!(matches!(&chunks[1], ShellOutput::Stderr(d) if d == b"err"));
    assert_eq!(exit, Some(3));
    let mut captured = Vec::new();
    for c in &chunks {
        capture(&mut captured, c);
    }
    assert_eq!(captured, b"outerr");

    let (chunks, exit) = split_shell_output(b"raw");
    assert!(matches!(&chunks[0], ShellOutput::Stdout(d) if d == b"raw"));
    assert_eq!(exit, None);
}

#[test]
fn shell_is_opened_and_read() {
    let mut payload = Vec::new();
    ShellV2Packet::Stdout(b"hi\n").encode(&mut payload);
    ShellV2Packet::ExitCode(0).encode(&mut payload);
    let mut transport =
        script(&[message(A_OKAY, 7, 1, &[]), message(A_WRTE, 7, 1, &payload), message(A_CLSE, 7, 1, &[])]);
    let mut stream = open_shell(&mut transport, "device::features=shell_v2", "echo hi").unwrap();
    match stream.next_event(&mut transport).unwrap() {
        ShellEvent::Output { chunks, exit } => {
            assert_eq!(chunks.len(), 1);
            assert_eq!(exit, Some(0));
        }
        ShellEvent::End => panic!("too early"),
    }
    assert!(matches!(stream.next_event(&mut transport).unwrap(), ShellEvent::End));
    assert_eq!(messages(&transport.output)[0].1, b"shell,v2,raw:echo hi");
}

#[test]
fn shell_needs_the_feature() {
    assert_eq!(shell_service_string("device::features=shell_v2,cmd", "ls").unwrap(), "shell,v2,raw:ls");
    assert!(shell_service_string("device::", "ls").unwrap_err().contains("shell_v2"));
}

#[test]
fn test_adb_push_sync_wire_sequence() {
    let mut transport = script(&[
        message(A_CNXN, ADB_VERSION, MAX_PAYLOAD_V2, b"device::"),
        message(A_OKAY, 2, 1, &[]),
        message(A_OKAY, 2, 1, &[]),
        message(A_WRTE, 2, 1, &sync_message(SYNC_OKAY, &[])),
    ]);
    let cnxn_payload = b"host::features=push_sync";
    let cnxn_hdr = AdbMessageHeader::new(A_CNXN, ADB_VERSION, MAX_PAYLOAD_V2, cnxn_payload);
    transport.send_message(&cnxn_hdr, cnxn_payload).unwrap();
    let (cnxn_ack, _) = transport.recv_message().unwrap();
    assert_eq!(cnxn_ack.command, A_CNXN);

    let open_hdr = AdbMessageHeader::new(A_OPEN, 1, 0, b"sync:");
    transport.send_message(&open_hdr, b"sync:").unwrap();
    let (okay_ack, _) = transport.recv_message().unwrap();
    assert_eq!(okay_ack.command, A_OKAY);

    let mut sync_payload = Vec::new();
    build_sync_send_req("/sdcard/test.txt", 0o100644, &mut sync_payload).unwrap();
    build_sync_data_chunk(b"TESTDATA", &mut sync_payload).unwrap();
    build_sync_done(1720000000, &mut sync_payload).unwrap();
    let wrte_hdr = AdbMessageHeader::new(A_WRTE, 1, okay_ack.arg0, &sync_payload);
    transport.send_message(&wrte_hdr, &sync_payload).unwrap();
    let (wrte_ack, _) = transport.recv_message().unwrap();
    assert_eq!(wrte_ack.command, A_OKAY);

    let (sync_resp_hdr, sync_resp_payload) = transport.recv_message().unwrap();
    assert_eq!(sync_resp_hdr.command, A_WRTE);
    let sync_stat = SyncMessageHeader::decode(&sync_resp_payload[..8]).unwrap();
    assert_eq!(sync_stat.id, SYNC_OKAY);

    let sent = messages(&transport.output);
    assert_eq!(sent[1].1, b"sync:");
    assert_eq!(SyncMessageHeader::decode(&sent[2].1[..8]).unwrap().id, SYNC_SEND);
}

#[test]
fn test_adb_pull_sync_wire_sequence() {
    let mut sync_stream = Vec::new();
    build_sync_data_chunk(b"PULLED_CONTENT", &mut sync_stream).unwrap();
    build_sync_done(0, &mut sync_stream).unwrap();
    let mut transport = script(&[
        message(A_CNXN, ADB_VERSION, MAX_PAYLOAD_V2, b"device::"),
        message(A_OKAY, 2, 1, &[]),
        message(A_OKAY, 2, 1, &[]),
        message(A_WRTE, 2, 1, &sync_stream),
    ]);
    let cnxn_payload = b"host::features=push_sync";
    let cnxn_hdr = AdbMessageHeader::new(A_CNXN, ADB_VERSION, MAX_PAYLOAD_V2, cnxn_payload);
    transport.send_message(&cnxn_hdr, cnxn_payload).unwrap();
    let (cnxn_ack, _) = transport.recv_message().unwrap();
    assert_eq!(cnxn_ack.command, A_CNXN);

    let open_hdr = AdbMessageHeader::new(A_OPEN, 1, 0, b"sync:");
    transport.send_message(&open_hdr, b"sync:").unwrap();
    let (okay_ack, _) = transport.recv_message().unwrap();
    assert_eq!(okay_ack.command, A_OKAY);

    let mut sync_req = Vec::new();
    build_sync_recv_req("/sdcard/remote.txt", &mut sync_req).unwrap();
    let wrte_hdr = AdbMessageHeader::new(A_WRTE, 1, okay_ack.arg0, &sync_req);
    transport.send_message(&wrte_hdr, &sync_req).unwrap();
    let (wrte_ack, _) = transport.recv_message().unwrap();
    assert_eq!(wrte_ack.command, A_OKAY);

    let (sync_resp_hdr, sync_resp_payload) = transport.recv_message().unwrap();
    assert_eq!(sync_resp_hdr.command, A_WRTE);
    let sync_data_hdr = SyncMessageHeader::decode(&sync_resp_payload[..8]).unwrap();
    assert_eq!(sync_data_hdr.id, SYNC_DATA);
    let end = 8 + sync_data_hdr.length as usize;
    assert_eq!(&sync_resp_payload[8..end], b"PULLED_CONTENT");
    assert_eq!(SyncMessageHeader::decode(&sync_resp_payload[end..]).unwrap().id, SYNC_DONE);

    let sent = messages(&transport.output);
    assert_eq!(sent[1].1, b"sync:");
    assert_eq!(SyncMessageHeader::decode(&sent[2].1[..8]).unwrap().id, SYNC_RECV);
}

#[test]
fn test_adb_interactive_shell_wire_sequence() {
    let mut output = Vec::new();
    ShellV2Packet::Stdout(b"interactive shell ready\n").encode(&mut output);
    ShellV2Packet::ExitCode(0).encode(&mut output);
    let mut transport = script(&[
        message(A_CNXN, ADB_VERSION, MAX_PAYLOAD_V2, b"device::features=shell_v2"),
        message(A_OKAY, 2, 1, &[]),
        message(A_OKAY, 2, 1, &[]),
        message(A_WRTE, 2, 1, &output),
    ]);
    let cnxn_payload = b"host::features=shell_v2";
    let cnxn_hdr = AdbMessageHeader::new(A_CNXN, ADB_VERSION, MAX_PAYLOAD_V2, cnxn_payload);
    transport.send_message(&cnxn_hdr, cnxn_payload).unwrap();
    let (cnxn_ack, _) = transport.recv_message().unwrap();
    assert_eq!(cnxn_ack.command, A_CNXN);

    let open_hdr = AdbMessageHeader::new(A_OPEN, 1, 0, b"shell,v2,raw:");
    transport.send_message(&open_hdr, b"shell,v2,raw:").unwrap();
    let (okay_ack, _) = transport.recv_message().unwrap();
    assert_eq!(okay_ack.command, A_OKAY);

    let mut winsz_payload = Vec::new();
    ShellV2Packet::WindowSizeChange { rows: 24, cols: 80 }.encode(&mut winsz_payload);
    let wrte_hdr = AdbMessageHeader::new(A_WRTE, 1, okay_ack.arg0, &winsz_payload);
    transport.send_message(&wrte_hdr, &winsz_payload).unwrap();
    let (wrte_ack, _) = transport.recv_message().unwrap();
    assert_eq!(wrte_ack.command, A_OKAY);

    let (shell_resp_hdr, shell_resp_payload) = transport.recv_message().unwrap();
    assert_eq!(shell_resp_hdr.command, A_WRTE);
    let (parsed_out, consumed) = ShellV2Packet::parse(&shell_resp_payload).unwrap();
    assert_eq!(parsed_out, ShellV2Packet::Stdout(b"interactive shell ready\n"));
    let (parsed_exit, _) = ShellV2Packet::parse(&shell_resp_payload[consumed..]).unwrap();
    assert_eq!(parsed_exit, ShellV2Packet::ExitCode(0));

    let sent = messages(&transport.output);
    assert_eq!(sent[1].1, b"shell,v2,raw:");
    match ShellV2Packet::parse(&sent[2].1).unwrap().0 {
        ShellV2Packet::WindowSizeChange { rows, cols } => assert_eq!((rows, cols), (24, 80)),
        _ => panic!("Expected WindowSizeChange packet"),
    }
}

#[test]
fn test_adb_sync_list_dent_wire_sequence() {
    let entry = |id: u32, mode: u32, size: u32, name: &str| SyncDentResponse {
        id,
        mode,
        size,
        mtime: 1720000000,
        namelen: name.len() as u32,
        name: name.to_string(),
    };
    let mut dent_stream = Vec::new();
    entry(SYNC_DENT, 0o100644, 512, "file.txt").encode(&mut dent_stream).unwrap();
    entry(SYNC_DENT, 0o040755, 0, "subdir").encode(&mut dent_stream).unwrap();
    entry(SYNC_DONE, 0, 0, "").encode(&mut dent_stream).unwrap();
    let mut transport = script(&[message(A_OKAY, 2, 1, &[]), message(A_WRTE, 2, 1, &dent_stream)]);

    let mut list_req = Vec::new();
    build_sync_list_req("/sdcard/testdir", &mut list_req).unwrap();
    send_wrte(&mut transport, 1, 2, &list_req).unwrap();
    let (sync_resp_hdr, sync_resp_payload) = transport.recv_message().unwrap();
    assert_eq!(sync_resp_hdr.command, A_WRTE);

    let dent1 = SyncDentResponse::decode(&sync_resp_payload[..28]).unwrap();
    assert_eq!(dent1.id, SYNC_DENT);
    assert_eq!(dent1.name, "file.txt");
    assert_eq!(dent1.size, 512);
    let dent2 = SyncDentResponse::decode(&sync_resp_payload[28..28 + 26]).unwrap();
    assert_eq!(dent2.id, SYNC_DENT);
    assert_eq!(dent2.name, "subdir");
    assert_eq!(dent2.mode, 0o040755);
    let sent = messages(&transport.output);
    assert_eq!(SyncMessageHeader::decode(&sent[0].1[..8]).unwrap().id, SYNC_LIST);
}

#[test]
fn forwarded_connections_are_opened_and_pumped() {
    let mut device = script(&[
        message(A_CNXN, ADB_VERSION, MAX_PAYLOAD_V2, b"device::"),
        message(A_OKAY, 9, 1, &[]),
        message(A_OKAY, 9, 1, &[]),
    ]);
    assert_eq!(open_forward(&mut device, "tcp:9000"), Some(9));
    let sent = messages(&device.output);
    assert_eq!(sent[0].0.command, A_CNXN);
    assert_eq!((sent[1].0.command, &sent[1].1[..8]), (A_OPEN, b"tcp:9000".as_slice()));

    device.output.clear();
    let mut client = script(&[b"from the client".to_vec()]);
    pump_to_device(&mut client, &mut device, 9);
    let sent = messages(&device.output);
    assert_eq!((sent[0].0.command, sent[0].1.as_slice()), (A_WRTE, b"from the client".as_slice()));

    let mut device = script(&[message(A_WRTE, 9, 1, b"from the device"), message(A_CLSE, 9, 1, &[])]);
    let mut client = script(&[]);
    pump_to_client(&mut device, &mut client, 9);
    assert_eq!(client.output, b"from the device");
    assert_eq!(messages(&device.output)[0].0.command, A_OKAY);
}

#[test]
fn messages_are_relayed_whole() {
    let one = message(A_OPEN, 1, 0, b"shell:");
    let two = message(A_WRTE, 1, 2, b"ls");
    let mut client = script(&[one.clone(), two.clone()]);
    let mut device = script(&[]);
    let _ = relay_to_device(&mut client, &mut device);
    assert_eq!(device.output, [one.clone(), two].concat());

    let mut device = script(&[one.clone()]);
    let mut client = script(&[]);
    let _ = relay_to_client(&mut device, &mut client);
    assert_eq!(client.output, one);
}
