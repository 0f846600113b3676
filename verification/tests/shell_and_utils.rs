use adb_fastboot::adb_utils::{escape_arg, exec_service_string};
use adb_fastboot::shell_v2::{ShellV2Error, ShellV2Packet};

#[test]
fn test_shell_v2_stdout_roundtrip() {
    let text = b"Linux dali 6.6.50+ #1 SMP PREEMPT";
    let original = ShellV2Packet::Stdout(text);

    let mut encoded = Vec::new();
    original.encode(&mut encoded);

    let (parsed, consumed) = ShellV2Packet::parse(&encoded).unwrap();
    assert_eq!(parsed, original);
    assert_eq!(consumed, encoded.len());
}

#[test]
fn test_shell_v2_exit_code() {
    let original = ShellV2Packet::ExitCode(0);
    let mut encoded = Vec::new();
    original.encode(&mut encoded);

    let (parsed, _) = ShellV2Packet::parse(&encoded).unwrap();
    assert_eq!(parsed, ShellV2Packet::ExitCode(0));
}

#[test]
fn every_packet_is_read_back() {
    let packets = vec![
        ShellV2Packet::Stdin(b"in"),
        ShellV2Packet::Stdout(b""),
        ShellV2Packet::Stderr(b"err"),
        ShellV2Packet::ExitCode(130),
        ShellV2Packet::CloseStdin,
        ShellV2Packet::WindowSizeChange { rows: 24, cols: 80 },
    ];
    for p in packets {
        let mut bytes = Vec::new();
        p.encode(&mut bytes);
        let size = bytes.len();
        bytes.extend_from_slice(b"next");
        assert_eq!(ShellV2Packet::parse(&bytes), Ok((p, size)));
    }
}

#[test]
fn shell_packet_bytes() {
    let mut bytes = Vec::new();
    ShellV2Packet::Stderr(b"ab").encode(&mut bytes);
    assert_eq!(bytes, vec![2, 2, 0, 0, 0, b'a', b'b']);
}

#[test]
fn shell_packet_errors() {
    assert_eq!(ShellV2Packet::parse(&[1, 0, 0, 0]), Err(ShellV2Error::HeaderTooShort));
    assert_eq!(
        ShellV2Packet::parse(&[1, 5, 0, 0, 0, 1, 2]),
        Err(ShellV2Error::PayloadTooShort { expected: 10, got: 7 })
    );
    assert_eq!(ShellV2Packet::parse(&[9, 0, 0, 0, 0]), Err(ShellV2Error::UnknownStreamId(9)));
    assert!(ShellV2Error::UnknownStreamId(9).message().contains("9"));
}

#[test]
fn test_escape_arg_matches_aosp() {
    assert_eq!(escape_arg("abc"), "'abc'");
    assert_eq!(escape_arg(""), "''");
    // single embedded quote
    assert_eq!(escape_arg("a'b"), "'a'\\''b'");
    // consecutive quotes (the tricky case: ' -> '\'' twice)
    assert_eq!(escape_arg("a''b"), "'a'\\'''\\''b'");
    // leading and trailing quotes
    assert_eq!(escape_arg("'x'"), "''\\''x'\\'''");
    // spaces and specials need no more than the quotes around them
    assert_eq!(escape_arg("-p"), "'-p'");
    assert_eq!(escape_arg("a b"), "'a b'");
    assert_eq!(escape_arg("$HOME"), "'$HOME'");
}

#[test]
fn test_exec_service_string_construction() {
    // `adb exec-out screencap -p` -> "exec:screencap '-p'"
    let args: Vec<String> = ["screencap", "-p"].iter().map(|s| s.to_string()).collect();
    assert_eq!(exec_service_string(&args), "exec:screencap '-p'");

    // the program's name stays raw even with a quote in it
    let args: Vec<String> = ["i'test"].iter().map(|s| s.to_string()).collect();
    assert_eq!(exec_service_string(&args), "exec:i'test");

    // empty command list -> bare "exec:" (callers must reject first)
    assert_eq!(exec_service_string(&[]), "exec:");
}
