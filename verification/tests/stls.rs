use adb_fastboot::constants::{A_AUTH, A_CNXN, A_OPEN, A_STLS, A_STLS_VERSION, A_STLS_VERSION_MIN};
use adb_fastboot::header::AdbMessageHeader;
use adb_fastboot::stls::{StlsAction, StlsError, StlsPacket, StlsState, StlsStateMachine};

fn frame(command: u32, arg0: u32, arg1: u32, payload: &[u8]) -> (AdbMessageHeader, Vec<u8>) {
    (AdbMessageHeader::new(command, arg0, arg1, payload), payload.to_vec())
}

#[test]
fn parses_a_stls_version_and_requires_empty_payload() {
    let (header, payload) = frame(A_STLS, A_STLS_VERSION, 0, &[]);
    assert_eq!(StlsPacket::parse(&header, &payload), Ok(StlsPacket::Stls { version: A_STLS_VERSION }));

    let (header, payload) = frame(A_STLS, A_STLS_VERSION, 1, &[]);
    assert!(matches!(StlsPacket::parse(&header, &payload), Err(StlsError::MalformedRequest { .. })));
}

#[test]
fn plaintext_cnxn_establishes_without_being_called_tls_fallback() {
    let (header, payload) = frame(A_CNXN, 1, 4096, b"device::features=shell_v2");
    let packet = StlsPacket::parse(&header, &payload).unwrap();
    let mut machine = StlsStateMachine::new();
    assert_eq!(machine.on_packet(packet), Ok(StlsAction::EstablishedPlaintext));
    assert_eq!(machine.state(), StlsState::Established);
}

#[test]
fn stls_requires_tls_then_resends_cnxn_on_encrypted_stream() {
    let (header, payload) = frame(A_STLS, A_STLS_VERSION, 0, &[]);
    let mut machine = StlsStateMachine::new();
    let packet = StlsPacket::parse(&header, &payload).unwrap();
    assert_eq!(machine.on_packet(packet), Ok(StlsAction::UpgradeTls { version: A_STLS_VERSION }));
    assert_eq!(machine.on_tls_ready(), Ok(StlsAction::SendEncryptedCnxn));

    let (cnxn_header, cnxn_payload) = frame(A_CNXN, 1, 4096, b"device::tls");
    let cnxn = StlsPacket::parse(&cnxn_header, &cnxn_payload).unwrap();
    assert_eq!(machine.on_encrypted_cnxn(cnxn), Ok(StlsAction::EstablishedTls));
}

#[test]
fn unsupported_version_and_missing_tls_are_typed_errors() {
    let mut machine = StlsStateMachine::new();
    let result = machine.on_packet(StlsPacket::Stls { version: A_STLS_VERSION_MIN - 1 });
    assert_eq!(
        result,
        Err(StlsError::UnsupportedVersion { version: A_STLS_VERSION_MIN - 1, minimum: A_STLS_VERSION_MIN })
    );
    let err = machine.on_packet_without_tls(StlsPacket::Stls { version: A_STLS_VERSION });
    assert_eq!(err, Err(StlsError::TlsRequired { version: A_STLS_VERSION }));
    assert_eq!(machine.state(), StlsState::AwaitingResponse);
}

#[test]
fn encrypted_path_rejects_plaintext_or_auth_packets() {
    let mut machine = StlsStateMachine::new();
    machine.on_packet(StlsPacket::Stls { version: A_STLS_VERSION }).unwrap();
    machine.on_tls_ready().unwrap();
    let err = machine.on_encrypted_cnxn(StlsPacket::Auth { auth_type: 1, payload: vec![] });
    assert!(matches!(err, Err(StlsError::InvalidTransition { state: StlsState::AwaitingEncryptedCnxn, .. })));
}

#[test]
fn other_commands_and_lengths_are_refused() {
    let (header, payload) = frame(A_OPEN, 0, 0, &[]);
    assert_eq!(StlsPacket::parse(&header, &payload), Err(StlsError::UnexpectedCommand { command: A_OPEN }));

    let (header, _) = frame(A_AUTH, 1, 0, b"four");
    assert_eq!(StlsPacket::parse(&header, b"xyz"), Err(StlsError::PayloadLength { expected: 4, actual: 3 }));

    let (header, payload) = frame(A_AUTH, 1, 0, b"four");
    assert_eq!(
        StlsPacket::parse(&header, &payload),
        Ok(StlsPacket::Auth { auth_type: 1, payload: b"four".to_vec() })
    );
}

#[test]
fn no_way_back_to_plaintext_after_stls() {
    let mut machine = StlsStateMachine::new();
    machine.on_packet(StlsPacket::Stls { version: A_STLS_VERSION }).unwrap();
    let cnxn = StlsPacket::Cnxn { version: 1, max_payload: 4096, banner: b"device::".to_vec() };
    assert!(matches!(machine.on_packet(cnxn), Err(StlsError::InvalidTransition { .. })));
    assert_eq!(machine.state(), StlsState::AwaitingTls);
}

#[test]
fn auth_comes_before_the_connection() {
    let mut machine = StlsStateMachine::new();
    let auth = StlsPacket::Auth { auth_type: 1, payload: vec![0; 20] };
    assert_eq!(machine.on_packet(auth), Ok(StlsAction::HandleAuth));
    assert_eq!(machine.state(), StlsState::AwaitingAuth);
    let cnxn = StlsPacket::Cnxn { version: 1, max_payload: 4096, banner: b"device::".to_vec() };
    assert_eq!(machine.on_packet(cnxn), Ok(StlsAction::EstablishedPlaintext));
}
