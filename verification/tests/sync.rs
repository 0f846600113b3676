use adb_fastboot::constants::{
    SYNC_DATA, SYNC_DENT, SYNC_DENT_V2, SYNC_DONE, SYNC_LIST, SYNC_RECV_V2, SYNC_SEND, SYNC_STA2,
};
use adb_fastboot::sync::{
    build_recv_v2_req, build_send_v2_req, build_sync_data_chunk, build_sync_done, build_sync_done_u64,
    build_sync_list_req, build_sync_recv_req, build_sync_send_req, build_sync_stat_req, saturating_mtime_u32,
    SyncDentResponse, SyncDentV2Response, SyncMessageHeader, SyncProtocolError, SyncStatResponse, SyncStatV2Response,
};

fn put_u32(buf: &mut [u8], at: usize, n: u32) {
    buf[at..at + 4].copy_from_slice(&n.to_le_bytes());
}

#[test]
fn test_sync_header_roundtrip() {
    let hdr = SyncMessageHeader::new(SYNC_SEND, 1024);
    let mut buf = [0u8; 8];
    hdr.encode(&mut buf);

    let decoded = SyncMessageHeader::decode(&buf).unwrap();
    assert_eq!(hdr, decoded);
}

#[test]
fn test_sync_stat_decode() {
    let mut buf = [0u8; 12];
    put_u32(&mut buf, 0, 0o100644); // regular file -rw-r--r--
    put_u32(&mut buf, 4, 2048); // size
    put_u32(&mut buf, 8, 1720000000); // mtime

    let stat = SyncStatResponse::decode(&buf).unwrap();
    assert_eq!(stat.mode, 0o100644);
    assert_eq!(stat.size, 2048);
    assert_eq!(stat.mtime, 1720000000);
    assert!(stat.path_exists());
}

#[test]
fn test_sync_stat_v2_roundtrip() {
    let original = SyncStatV2Response {
        id: SYNC_STA2,
        error: 0,
        dev: 2049,
        ino: 12345678,
        mode: 0o100644,
        nlink: 1,
        uid: 1000,
        gid: 1000,
        size: 104857600,
        atime: 1720000001,
        mtime: 1720000002,
        ctime: 1720000003,
    };

    let mut buf = [0u8; 72];
    original.encode(&mut buf);

    let decoded = SyncStatV2Response::decode(&buf).unwrap();
    assert_eq!(original, decoded);
    assert!(decoded.is_ok());
    assert_eq!(decoded.mtime_u32(), 1720000002);
}

#[test]
fn test_sync_dent_response_encode_decode() {
    let dent = SyncDentResponse {
        id: SYNC_DENT,
        mode: 0o100644,
        size: 1024,
        mtime: 1720000000,
        namelen: 8,
        name: "test.txt".to_string(),
    };

    let mut out = Vec::new();
    dent.encode(&mut out).unwrap();
    assert_eq!(out.len(), 20 + 8);

    let decoded = SyncDentResponse::decode(&out).unwrap();
    assert_eq!(dent, decoded);
    assert_eq!(decoded.total_size(), 28);
}

#[test]
fn test_sync_dent_v2_response_encode_decode() {
    let stat_v2 = SyncStatV2Response {
        id: SYNC_DENT_V2,
        error: 0,
        dev: 2049,
        ino: 12345678,
        mode: 0o100644,
        nlink: 1,
        uid: 1000,
        gid: 1000,
        size: 4096,
        atime: 1720000001,
        mtime: 1720000002,
        ctime: 1720000003,
    };
    let dent_v2 = SyncDentV2Response { stat: stat_v2, namelen: 8, name: "test.txt".to_string() };

    let mut out = Vec::new();
    dent_v2.encode(&mut out).unwrap();
    assert_eq!(out.len(), 76 + 8);

    let decoded = SyncDentV2Response::decode(&out).unwrap();
    assert_eq!(dent_v2, decoded);
    assert_eq!(decoded.total_size(), 84);
}

#[test]
fn test_sync_list_req_builder() {
    let mut buf = Vec::new();
    build_sync_list_req("/sdcard/testdir", &mut buf).unwrap();

    let hdr = SyncMessageHeader::decode(&buf[..8]).unwrap();
    assert_eq!(hdr.id, SYNC_LIST);
    assert_eq!(hdr.length, 15);
    assert_eq!(&buf[8..], b"/sdcard/testdir");
}

#[test]
fn test_path_validation_empty() {
    let mut buf = Vec::new();
    assert!(build_sync_send_req("", 0o644, &mut buf).is_err());
    assert!(build_sync_recv_req("", &mut buf).is_err());
    assert!(build_sync_list_req("", &mut buf).is_err());
    assert!(build_sync_stat_req("", &mut buf).is_err());
    assert!(build_send_v2_req("", 0o644, 0, &mut buf).is_err());
    assert!(build_recv_v2_req("", 0, &mut buf).is_err());
}

#[test]
fn test_path_validation_nul_byte() {
    let mut buf = Vec::new();
    assert!(build_sync_send_req("/sdcard/\0test", 0o644, &mut buf).is_err());
    assert!(build_sync_recv_req("/sdcard/\0test", &mut buf).is_err());
}

#[test]
fn test_sync_send_req_comma_rejection() {
    let mut buf = Vec::new();
    // V1 send should reject paths containing ','
    assert_eq!(
        build_sync_send_req("/sdcard/foo,bar", 0o644, &mut buf),
        Err(SyncProtocolError::InvalidPath("Path cannot contain ',' in V1 SEND request".to_string()))
    );
    // V2 send allows ','
    assert!(build_send_v2_req("/sdcard/foo,bar", 0o644, 0, &mut buf).is_ok());
}

#[test]
fn test_sync_dent_namelen_overflow() {
    let mut buf = vec![0u8; 20];
    // Set namelen to u32::MAX
    put_u32(&mut buf, 16, u32::MAX);

    let err = SyncDentResponse::decode(&buf);
    assert!(err.is_err());
}

#[test]
fn test_saturating_mtime_u32() {
    assert_eq!(saturating_mtime_u32(-100), 0);
    assert_eq!(saturating_mtime_u32(1000), 1000);
    assert_eq!(saturating_mtime_u32(i64::MAX), u32::MAX);
}

#[test]
fn send_request_bytes() {
    let mut buf = Vec::new();
    build_sync_send_req("/data/x", 0o100644, &mut buf).unwrap();
    assert_eq!(&buf[..4], b"SEND");
    let text = "/data/x,33188";
    assert_eq!(&buf[4..8], (text.len() as u32).to_le_bytes());
    assert_eq!(&buf[8..], text.as_bytes());
}

#[test]
fn second_receive_request_bytes() {
    let mut buf = Vec::new();
    build_recv_v2_req("/a", 2, &mut buf).unwrap();
    assert_eq!(buf, [b"RCV2".as_slice(), &[2, 0, 0, 0], b"/a", b"RCV2", &[2, 0, 0, 0]].concat());
    assert_eq!(SYNC_RECV_V2, u32::from_le_bytes(*b"RCV2"));
}

#[test]
fn data_and_done_bytes() {
    let mut buf = Vec::new();
    build_sync_data_chunk(b"abc", &mut buf).unwrap();
    build_sync_done(7, &mut buf).unwrap();
    build_sync_done_u64(u64::MAX, &mut buf).unwrap();
    let data = SyncMessageHeader::decode(&buf).unwrap();
    assert_eq!((data.id, data.length), (SYNC_DATA, 3));
    assert_eq!(&buf[8..11], b"abc");
    let done = SyncMessageHeader::decode(&buf[11..]).unwrap();
    assert_eq!((done.id, done.length), (SYNC_DONE, 7));
    let late = SyncMessageHeader::decode(&buf[19..]).unwrap();
    assert_eq!((late.id, late.length), (SYNC_DONE, u32::MAX));
}

#[test]
fn short_buffers_are_refused() {
    assert_eq!(
        SyncMessageHeader::decode(&[0; 7]),
        Err(SyncProtocolError::HeaderTooShort { expected: 8, got: 7 })
    );
    assert_eq!(
        SyncStatResponse::decode(&[0; 11]),
        Err(SyncProtocolError::HeaderTooShort { expected: 12, got: 11 })
    );
    assert!(SyncStatV2Response::decode(&[0; 71]).is_err());
    assert!(SyncDentV2Response::decode(&[0; 75]).is_err());
}

#[test]
fn stat_without_a_mode_tells_of_no_file() {
    let mut buf = [0u8; 12];
    let stat = SyncStatResponse { mode: 0, size: 0, mtime: 0 };
    stat.encode(&mut buf);
    assert!(!SyncStatResponse::decode(&buf).unwrap().path_exists());
    assert!(SyncProtocolError::SyncFail("no".to_string()).message().contains("no"));
}
