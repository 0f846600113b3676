use adb_fastboot::constants::{A_AUTH, A_AUTH_RSAKEY, A_AUTH_TOKEN, A_CNXN, A_WRTE};
use adb_fastboot::header::{encode_message, AdbMessageHeader, AuthMessage, AuthType, HeaderError};

#[test]
fn test_header_encode_decode_roundtrip() {
    let payload = b"host::features=shell_v2,cmd";
    let header = AdbMessageHeader::new(A_CNXN, 0x01000000, 256 * 1024, payload);

    let mut buf = [0u8; 24];
    header.encode(&mut buf);

    let decoded = AdbMessageHeader::decode(&buf).unwrap();
    assert_eq!(header, decoded);
    assert!(decoded.verify_payload(payload).is_ok());
}

#[test]
fn test_header_corrupt_magic() {
    let payload = b"test";
    let header = AdbMessageHeader::new(A_CNXN, 0, 0, payload);
    let mut buf = [0u8; 24];
    header.encode(&mut buf);
    buf[20] ^= 0xFF; // Corrupt magic

    assert!(matches!(AdbMessageHeader::decode(&buf), Err(HeaderError::MagicMismatch { .. })));
}

#[test]
fn test_header_checksum_mismatch() {
    let payload = b"correct payload";
    let mut header = AdbMessageHeader::new(A_CNXN, 0, 0, payload);
    // A new header has no checksum: set one to see a mismatch.
    header.data_check = header.data_check.wrapping_add(42);
    let corrupt_payload = b"corrupt payload"; // same length (15 bytes), different bytes

    assert!(matches!(header.verify_payload(corrupt_payload), Err(HeaderError::ChecksumMismatch { .. })));
}

#[test]
fn test_header_skip_checksum_v1_compat() {
    let payload = b"modern adbd payload";
    let mut header = AdbMessageHeader::new(A_CNXN, 0, 0, payload);
    header.data_check = 0;

    assert!(header.verify_payload(payload).is_ok());
}

#[test]
fn test_header_legacy_v1_checksum_helpers() {
    let payload = b"legacy adbd payload";
    let expected_checksum = AdbMessageHeader::calculate_checksum(payload);
    assert_ne!(expected_checksum, 0);

    let legacy_hdr = AdbMessageHeader::new_v1_legacy(A_CNXN, 0, 0, payload);
    assert_eq!(legacy_hdr.data_check, expected_checksum);
    assert!(legacy_hdr.verify_payload(payload).is_ok());

    let corrupt_payload = b"legacy adbd payloae"; // same length
    assert!(matches!(legacy_hdr.verify_payload(corrupt_payload), Err(HeaderError::ChecksumMismatch { .. })));

    let builder_hdr = AdbMessageHeader::new(A_CNXN, 0, 0, payload).with_checksum(payload);
    assert_eq!(builder_hdr.data_check, expected_checksum);
    assert!(builder_hdr.verify_payload(payload).is_ok());
}

#[test]
fn test_header_buffer_too_short() {
    let buf = [0u8; 10];
    assert_eq!(AdbMessageHeader::decode(&buf), Err(HeaderError::BufferTooShort(10)));
}

#[test]
fn test_auth_message_and_header() {
    let token_data = b"random_20_bytes_token_data!!";
    let auth_msg = AuthMessage::token(token_data);
    assert_eq!(auth_msg.auth_type, AuthType::Token);

    let header = auth_msg.to_header();
    assert_eq!(header.command, A_AUTH);
    assert_eq!(header.arg0, A_AUTH_TOKEN);
    assert_eq!(header.arg1, 0);
    assert_eq!(header.data_length, token_data.len() as u32);

    assert!(header.is_auth());
    assert_eq!(header.auth_type(), Some(AuthType::Token));

    let sig_msg = AuthMessage::signature(b"rsa_signature_bytes");
    let sig_header = sig_msg.to_header();
    assert_eq!(sig_header.auth_type(), Some(AuthType::Signature));

    let key_msg = AuthMessage::rsakey(b"rsa_public_key_bytes");
    let key_header = key_msg.to_header();
    assert_eq!(key_header.auth_type(), Some(AuthType::RsaKey));
}

#[test]
fn header_bytes_are_little_endian() {
    let header = AdbMessageHeader::new(A_CNXN, 0x01020304, 0x0a0b0c0d, b"hi");
    let mut buf = [0u8; 24];
    header.encode(&mut buf);
    assert_eq!(
        buf,
        [
            b'C', b'N', b'X', b'N', 4, 3, 2, 1, 0x0d, 0x0c, 0x0b, 0x0a, 2, 0, 0, 0, 0, 0, 0, 0, 0xbc, 0xb1, 0xa7,
            0xb1
        ]
    );
    assert_eq!(header.magic, A_CNXN ^ 0xffff_ffff);
}

#[test]
fn checksum_is_the_sum_of_the_bytes() {
    assert_eq!(AdbMessageHeader::calculate_checksum(&[]), 0);
    assert_eq!(AdbMessageHeader::calculate_checksum(&[1, 2, 255]), 258);
    let header = AdbMessageHeader::new_v1_legacy(A_WRTE, 1, 2, &[1, 2, 255]);
    assert_eq!(
        header.verify_payload(&[1, 2, 254]),
        Err(HeaderError::ChecksumMismatch { expected: 258, got: 257 })
    );
}

#[test]
fn magic_mismatch_tells_both_values() {
    let mut buf = [0u8; 24];
    AdbMessageHeader::new(A_WRTE, 0, 0, &[]).encode(&mut buf);
    buf[23] = 0;
    let got = u32::from_le_bytes([buf[20], buf[21], buf[22], 0]);
    assert_eq!(
        AdbMessageHeader::decode(&buf),
        Err(HeaderError::MagicMismatch { expected: A_WRTE ^ 0xffff_ffff, got })
    );
}

#[test]
fn auth_types_go_there_and_back() {
    for n in [1u32, 2, 3, 77] {
        assert_eq!(AuthType::from_u32(n).to_u32(), n);
    }
    assert_eq!(AuthType::from_u32(77), AuthType::Unknown(77));
    let header = AdbMessageHeader::new_auth(A_AUTH_RSAKEY, b"key");
    assert_eq!(header.auth_type(), Some(AuthType::RsaKey));
    assert_eq!(AdbMessageHeader::new(A_WRTE, 1, 0, &[]).auth_type(), None);
}

#[test]
fn message_is_header_and_payload() {
    let bytes = encode_message(A_WRTE, 5, 6, b"xyz");
    assert_eq!(bytes.len(), 27);
    let header = AdbMessageHeader::decode(&bytes).unwrap();
    assert_eq!((header.command, header.arg0, header.arg1, header.data_length), (A_WRTE, 5, 6, 3));
    assert_eq!(&bytes[24..], b"xyz");
}

#[test]
fn header_errors_have_texts() {
    assert!(HeaderError::BufferTooShort(10).message().contains("10"));
    assert!(HeaderError::MagicMismatch { expected: 1, got: 2 }.message().len() > 0);
    assert!(HeaderError::ChecksumMismatch { expected: 1, got: 2 }.message().len() > 0);
}
