use adb_fastboot::pairing::{
    finish_cipher, validate_pairing_code, PairingCipher, PairingClient, PairingError, PairingPacket, PairingPacketType,
    MAX_PAIRING_PAYLOAD,
};

#[test]
fn aosp_header_is_six_bytes_big_endian() {
    let packet = PairingPacket::new(PairingPacketType::Spake2Msg, vec![0xaa; 0x0102]).unwrap();
    assert_eq!(packet.encode_header(), [1, 0, 0, 0, 1, 2]);
    let mut wire = Vec::new();
    packet.write_to(&mut wire).unwrap();
    assert_eq!(wire.len(), 6 + 0x0102);
    assert_eq!(PairingPacket::read_from(&wire).unwrap(), packet);
}

#[test]
fn rejects_legacy_spap_and_unknown_types() {
    assert!(PairingPacket::read_from(b"SPAP\x01\0\0\0").is_err());
    assert!(PairingPacket::read_from(&[1, 9, 0, 0, 0, 1, 0]).is_err());
}

#[test]
fn aosp_sequence_nonce_cipher_round_trip_and_no_nonce_on_wire() {
    let material = [7u8; 32];
    let mut enc = PairingCipher::from_spake2_key(&material).unwrap();
    let mut dec = PairingCipher::from_spake2_key(&material).unwrap();
    let wire = enc.encrypt(b"peer-info").unwrap();
    assert_eq!(wire.len(), b"peer-info".len() + 16);
    assert_eq!(dec.decrypt(&wire).unwrap(), b"peer-info");
    assert_ne!(wire, [&[0u8; 12][..], b"peer-info"].concat());
}

#[test]
fn client_refuses_to_claim_compatibility() {
    let mut client = PairingClient::new("123456").unwrap();
    let mut io = Vec::<u8>::new();
    assert_eq!(client.execute_pairing(&mut io), Err(PairingError::UnsupportedSpake2));
}

#[test]
fn nonces_change_with_every_message() {
    let material = [9u8; 32];
    let mut enc = PairingCipher::from_spake2_key(&material).unwrap();
    let first = enc.encrypt(b"same").unwrap();
    let second = enc.encrypt(b"same").unwrap();
    assert_ne!(first, second);

    let mut dec = PairingCipher::from_spake2_key(&material).unwrap();
    assert_eq!(dec.decrypt(&first).unwrap(), b"same");
    assert_eq!(dec.decrypt(&second).unwrap(), b"same");
}

#[test]
fn messages_out_of_turn_or_tampered_with_are_refused() {
    let material = [9u8; 32];
    let mut enc = PairingCipher::from_spake2_key(&material).unwrap();
    let _first = enc.encrypt(b"one").unwrap();
    let second = enc.encrypt(b"two").unwrap();
    let mut dec = PairingCipher::from_spake2_key(&material).unwrap();
    assert!(matches!(dec.decrypt(&second), Err(PairingError::Crypto(_))));

    let mut enc = PairingCipher::from_spake2_key(&material).unwrap();
    let mut wire = enc.encrypt(b"one").unwrap();
    wire[0] ^= 1;
    let mut dec = PairingCipher::from_spake2_key(&material).unwrap();
    assert!(matches!(dec.decrypt(&wire), Err(PairingError::Crypto(_))));
}

#[test]
fn other_key_material_makes_another_cipher() {
    let mut enc = PairingCipher::from_spake2_key(&[1u8; 32]).unwrap();
    let wire = enc.encrypt(b"secret").unwrap();
    let mut dec = PairingCipher::from_spake2_key(&[2u8; 32]).unwrap();
    assert!(dec.decrypt(&wire).is_err());
}

#[test]
fn payload_size_is_bounded() {
    assert!(PairingPacket::new(PairingPacketType::PeerInfo, vec![0; MAX_PAIRING_PAYLOAD]).is_ok());
    assert!(matches!(
        PairingPacket::new(PairingPacketType::PeerInfo, vec![0; MAX_PAIRING_PAYLOAD + 1]),
        Err(PairingError::InvalidPayload(_))
    ));
    assert_eq!(PairingPacket::parse_header(&[1, 1, 0, 0, 0, 7]), Ok((PairingPacketType::PeerInfo, 7)));
    assert!(matches!(PairingPacket::parse_header(&[1, 1, 0, 0, 0, 0]), Err(PairingError::InvalidHeader(_))));
    assert!(matches!(PairingPacket::read_from(&[1, 0, 0]), Err(PairingError::Io(_))));
}

#[test]
fn pairing_codes_are_checked() {
    assert_eq!(validate_pairing_code("123456"), Ok(()));
    assert_eq!(validate_pairing_code(""), Err(PairingError::InvalidPairingCode));
    assert_eq!(PairingClient::new("123456").unwrap().pairing_code(), "123456");
}

#[test]
fn codes_of_packet_types() {
    assert_eq!(PairingPacketType::Spake2Msg.code(), 0);
    assert_eq!(PairingPacketType::PeerInfo.code(), 1);
    assert_eq!(PairingPacketType::from_code(1), Ok(PairingPacketType::PeerInfo));
    assert!(PairingPacketType::from_code(2).is_err());
}

#[test]
fn cipher_outcomes() {
    assert_eq!(finish_cipher(Some(vec![1]), "failed", 0), Ok(vec![1]));
    assert!(matches!(finish_cipher(None, "failed", 0), Err(PairingError::Crypto(_))));
    assert!(PairingError::TlsRequired.message().len() > 0);
}
