use adb_fastboot::android_info::{parse_android_info, InfoLine, Requirement};
use adb_fastboot::fastboot::{
    create_logical_partition, delete_logical_partition, download, erase, fetch, flash, format_command, getvar,
    image_path, parse_max_download_size, parse_response, parse_u64, reboot, resize_logical_partition, set_active,
    FastbootResponse, NumberError,
};
use adb_fastboot::fastboot_flow::{
    ask, ask_download_limit, begin_data, check_android_info, chunk_size_for, download_and_boot_payload,
    download_and_flash_payload, download_payload, finish_data, next_data_chunk, recv_data_response, FastbootError,
    FastbootTransport, InfoFailure, InfoWarning,
};
use adb_fastboot::transport::{IoError, IoErrorKind};
use adb_fastboot::update::{
    aosp_images, begin_update, flash_entry, flash_image, flash_split, is_boot_image, is_sparse_image, needs_split,
    partition_with_slot, plan_image, take_step, update_steps, ImagePlan, UpdateSession, UpdateStep, UpdateStop,
};
use std::collections::VecDeque;

#[derive(Debug, PartialEq, Eq)]
enum Sent {
    Command(String),
    Data(Vec<u8>),
}

/// A bootloader that replies what it was told to.
struct Bootloader {
    sent: Vec<Sent>,
    replies: VecDeque<Vec<u8>>,
    data: VecDeque<u8>,
    refused: Option<String>,
}

fn bootloader(replies: &[&str]) -> Bootloader {
    Bootloader {
        sent: Vec::new(),
        replies: replies.iter().map(|r| r.as_bytes().to_vec()).collect(),
        data: VecDeque::new(),
        refused: None,
    }
}

impl FastbootTransport for Bootloader {
    fn send_cmd(&mut self, cmd: &str) -> Result<(), IoError> {
        if self.refused.as_deref() == Some(cmd) {
            return Err(IoError::new(IoErrorKind::NotConnected, "gone"));
        }
        self.sent.push(Sent::Command(cmd.to_string()));
        Ok(())
    }

    fn recv_packet(&mut self) -> Result<FastbootResponse, IoError> {
        let packet = self.replies.pop_front().ok_or(IoError::new(IoErrorKind::UnexpectedEof, "closed"))?;
        parse_response(&packet).ok_or(IoError::new(IoErrorKind::InvalidData, "no response"))
    }

    fn write_all(&mut self, data: &[u8]) -> Result<(), IoError> {
        self.sent.push(Sent::Data(data.to_vec()));
        Ok(())
    }

    fn flush(&mut self) -> Result<(), IoError> {
        Ok(())
    }

    fn read_exact(&mut self, len: usize) -> Result<Vec<u8>, IoError> {
        if self.data.len() < len {
            return Err(IoError::new(IoErrorKind::UnexpectedEof, "short"));
        }
        Ok(self.data.drain(..len).collect())
    }
}

fn command(text: &str) -> Sent {
    Sent::Command(text.to_string())
}

#[test]
fn test_parse_max_download_size() {
    assert_eq!(parse_max_download_size("0x20000000"), Some(536870912));
    assert_eq!(parse_max_download_size("0X04000000"), Some(67108864));
    assert_eq!(parse_max_download_size("536870912"), Some(536870912));
    assert_eq!(parse_max_download_size("  0x100000 \n"), Some(1048576));
    assert_eq!(parse_max_download_size("invalid"), None);
    assert_eq!(parse_max_download_size(""), None);
}

#[test]
fn test_parse_max_download_size_suffixes() {
    assert_eq!(parse_max_download_size("512MB"), Some(536870912));
    assert_eq!(parse_max_download_size("1024K"), Some(1048576));
    assert_eq!(parse_max_download_size("1GB"), Some(1073741824));
    assert_eq!(parse_max_download_size("256M"), Some(268435456));
    assert_eq!(parse_max_download_size("1024kb"), Some(1048576));
    assert_eq!(parse_max_download_size("512 mb"), Some(536870912));
    assert_eq!(parse_max_download_size("0x200MB"), Some(536870912));
}

#[test]
fn odd_sizes() {
    assert_eq!(parse_max_download_size("ff"), Some(255));
    assert_eq!(parse_max_download_size("1b"), Some(0x1b));
    assert_eq!(parse_max_download_size("zzb"), None);
    assert_eq!(parse_max_download_size("MB"), None);
    assert_eq!(parse_max_download_size("0xffffffffffffffffG"), None);
}

#[test]
fn numbers_in_arguments() {
    assert_eq!(parse_u64(" 0x10 "), Ok(16));
    assert_eq!(parse_u64("1048576"), Ok(1048576));
    assert_eq!(parse_u64(""), Err(NumberError::Empty));
    assert_eq!(parse_u64("12x"), Err(NumberError::InvalidDigit));
    assert_eq!(parse_u64("99999999999999999999999"), Err(NumberError::TooLarge));
    assert_eq!(NumberError::InvalidDigit.message(), "invalid digit found in string");
}

#[test]
fn responses_are_read() {
    assert_eq!(parse_response(b"OKAYdone"), Some(FastbootResponse::Okay("done".to_string())));
    assert_eq!(parse_response(b"FAILno"), Some(FastbootResponse::Fail("no".to_string())));
    assert_eq!(parse_response(b"DATA00000005"), Some(FastbootResponse::Data(5)));
    assert_eq!(parse_response(b"INFOx"), Some(FastbootResponse::Info("x".to_string())));
    assert_eq!(parse_response(b"TEXTx"), Some(FastbootResponse::Text("x".to_string())));
    assert_eq!(parse_response(b"DATAzz"), None);
    assert_eq!(parse_response(b"OK"), None);
}

#[test]
fn commands_are_written() {
    assert_eq!(download(5), "download:00000005");
    assert_eq!(flash("boot"), "flash:boot");
    assert_eq!(erase("cache"), "erase:cache");
    assert_eq!(getvar("all"), "getvar:all");
    assert_eq!(set_active("b"), "set_active:b");
    assert_eq!(reboot(None), "reboot");
    assert_eq!(reboot(Some("bootloader")), "reboot-bootloader");
    assert_eq!(format_command("userdata", None), "format:userdata");
    assert_eq!(format_command("userdata", Some("ext4")), "format:ext4:userdata");
    assert_eq!(create_logical_partition("system_a", 1048576), "create-logical-partition:system_a:1048576");
    assert_eq!(delete_logical_partition("system_a"), "delete-logical-partition:system_a");
    assert_eq!(resize_logical_partition("system_a", 2097152), "resize-logical-partition:system_a:2097152");
    assert_eq!(image_path("/out", "boot"), "/out/boot.img");
}

#[test]
fn fetch_command_uses_aosp_optional_range_fields() {
    assert_eq!(fetch("boot", None, None), "fetch:boot");
    assert_eq!(fetch("boot", Some(0x1000), None), "fetch:boot:0x00001000");
    assert_eq!(fetch("boot", Some(0x1000), Some(0x2000)), "fetch:boot:0x00001000:0x00002000");
}

#[test]
fn getvar_all_collects_multiple_info_responses_from_fake_peer() {
    let mut transport = bootloader(&["INFOproduct:demo\n", "INFOcurrent-slot: a\n", "OKAY"]);
    transport.send_cmd("getvar:all").unwrap();
    let mut info = Vec::new();
    let response = transport.recv_response_with_info(&mut info).unwrap();

    assert_eq!(info, vec!["product:demo\n", "current-slot: a\n"]);
    assert_eq!(response, FastbootResponse::Okay(String::new()));
}

#[test]
fn set_active_sends_aosp_wire_command_to_fake_peer() {
    let mut transport = bootloader(&["OKAY"]);
    transport.send_cmd(&set_active("b")).unwrap();
    assert_eq!(transport.recv_response().unwrap(), FastbootResponse::Okay(String::new()));
    assert_eq!(transport.sent, vec![command("set_active:b")]);
}

#[test]
fn test_fastboot_flash_wire_sequence() {
    let mut transport = bootloader(&["DATA00000005", "INFOwriting data...\n", "OKAY", "OKAY"]);
    let dl_cmd = download(5);
    transport.send_cmd(&dl_cmd).unwrap();
    let dl_resp = transport.recv_response().unwrap();
    assert_eq!(dl_resp, FastbootResponse::Data(5));

    transport.write_all(b"HELLO").unwrap();
    transport.flush().unwrap();
    let post_dl_resp = transport.recv_response().unwrap();
    assert_eq!(post_dl_resp, FastbootResponse::Okay("".to_string()));

    transport.send_cmd(&flash("boot")).unwrap();
    let flash_resp = transport.recv_response().unwrap();
    assert_eq!(flash_resp, FastbootResponse::Okay("".to_string()));
    assert_eq!(
        transport.sent,
        vec![command("download:00000005"), Sent::Data(b"HELLO".to_vec()), command("flash:boot")]
    );
}

#[test]
fn payloads_go_in_pieces() {
    let mut transport = bootloader(&["DATA00000005", "OKAYgot it"]);
    let reply = download_payload(&mut transport, b"HELLO", 2).unwrap();
    assert_eq!(reply, FastbootResponse::Okay("got it".to_string()));
    assert_eq!(
        transport.sent,
        vec![
            command("download:00000005"),
            Sent::Data(b"HE".to_vec()),
            Sent::Data(b"LL".to_vec()),
            Sent::Data(b"O".to_vec())
        ]
    );
}

#[test]
fn refused_payloads_are_told_apart() {
    let fails = |replies: &[&str]| download_payload(&mut bootloader(replies), b"HELLO", 2).unwrap_err();
    assert!(matches!(fails(&["DATA00000004"]), FastbootError::WrongLength { expected: 4, actual: 5 }));
    assert!(matches!(fails(&["FAILtoo big"]), FastbootError::Refused(m) if m == "too big"));
    assert!(matches!(fails(&["OKAY"]), FastbootError::Unexpected(FastbootResponse::Okay(_))));
    assert!(matches!(fails(&["DATA00000005", "FAILbad"]), FastbootError::DataRefused(m) if m == "bad"));
    assert!(matches!(fails(&[]), FastbootError::Io(_)));
}

#[test]
fn boot_and_flash_follow_the_payload() {
    let mut transport = bootloader(&["OKAY0x4", "DATA00000005", "OKAY"]);
    download_and_boot_payload(&mut transport, b"HELLO").unwrap();
    assert_eq!(
        transport.sent,
        vec![
            command("getvar:max-download-size"),
            command("download:00000005"),
            Sent::Data(b"HELL".to_vec()),
            Sent::Data(b"O".to_vec()),
            command("boot")
        ]
    );

    let mut transport = bootloader(&["FAILunknown", "DATA00000005", "OKAY"]);
    download_and_flash_payload(&mut transport, b"HELLO", "boot_a").unwrap();
    assert_eq!(
        transport.sent,
        vec![
            command("getvar:max-download-size"),
            command("download:00000005"),
            Sent::Data(b"HELLO".to_vec()),
            command("flash:boot_a")
        ]
    );

    let mut transport = bootloader(&["FAILunknown", "FAILno"]);
    assert!(download_and_flash_payload(&mut transport, b"HELLO", "boot_a").is_err());
    assert!(!transport.sent.contains(&command("flash:boot_a")));
}

#[test]
fn variables_are_asked_for() {
    let mut transport = bootloader(&["OKAYraven"]);
    assert_eq!(ask(&mut transport, "product"), Some(FastbootResponse::Okay("raven".to_string())));
    assert_eq!(transport.sent, vec![command("getvar:product")]);
    assert_eq!(ask_download_limit(&mut bootloader(&["OKAY16M"])), Some(16 << 20));
    assert_eq!(ask_download_limit(&mut bootloader(&["FAIL"])), None);
    assert_eq!(chunk_size_for(None), 16 << 20);
    assert_eq!(chunk_size_for(Some(0)), 16 << 20);
    assert_eq!(chunk_size_for(Some(7)), 7);
}

#[test]
fn fetch_accepts_info_before_data_like_aosp_run_and_read_buffer() {
    let mut transport = bootloader(&["INFOreading boot\n", "DATA00000005", "OKAYdone"]);
    transport.data.extend(b"HELLO");
    let mut info = Vec::new();
    let size = begin_data(&mut transport, &fetch("boot", None, None), &mut info).unwrap();
    assert_eq!(size, 5);
    assert_eq!(info, vec!["reading boot\n"]);
    assert_eq!(next_data_chunk(&mut transport, size as usize).unwrap(), b"HELLO");
    let response = finish_data(&mut transport).unwrap();
    assert_eq!(response, FastbootResponse::Okay("done".to_string()));
    assert_eq!(transport.sent, vec![command("fetch:boot")]);
}

#[test]
fn data_replies_are_checked() {
    let mut info = Vec::new();
    assert!(matches!(
        recv_data_response(&mut bootloader(&["FAILno"]), &mut info),
        Err(FastbootError::Refused(m)) if m == "no"
    ));
    assert!(matches!(
        recv_data_response(&mut bootloader(&["OKAY"]), &mut info),
        Err(FastbootError::Unexpected(_))
    ));
    assert!(matches!(
        begin_data(&mut bootloader(&["DATA00000000"]), "get_staged", &mut info),
        Err(FastbootError::NoData)
    ));
    assert!(matches!(finish_data(&mut bootloader(&["FAILlate"])), Err(FastbootError::DataRefused(_))));
}

#[test]
fn requirement_lines() {
    let lines = parse_android_info("# comment\n\nrequire board=raven or oriole\nrequire inverse version=1\nrubbish\n");
    assert_eq!(lines[0], InfoLine::Blank);
    assert_eq!(lines[1], InfoLine::Blank);
    assert_eq!(
        lines[2],
        InfoLine::Require(Requirement {
            invert: false,
            var: "board".to_string(),
            options: vec!["raven".to_string(), "oriole".to_string()]
        })
    );
    assert_eq!(
        lines[3],
        InfoLine::Require(Requirement {
            invert: true,
            var: "version".to_string(),
            options: vec!["1".to_string()]
        })
    );
    assert_eq!(lines[4], InfoLine::Unknown("rubbish".to_string()));
}

#[test]
fn boards_are_checked_by_product() {
    let lines = parse_android_info("require board=raven or oriole\n");
    let mut warnings = Vec::new();
    let mut transport = bootloader(&["OKAYoriole"]);
    assert_eq!(check_android_info(&mut transport, &lines, &mut warnings), Ok(()));
    assert_eq!(transport.sent, vec![command("getvar:product")]);
    assert_eq!(
        check_android_info(&mut bootloader(&["OKAYbluejay"]), &lines, &mut warnings),
        Err(InfoFailure::Mismatch {
            invert: false,
            var: "board".to_string(),
            actual: "bluejay".to_string(),
            options: vec!["raven".to_string(), "oriole".to_string()]
        })
    );
    assert!(warnings.is_empty());
}

#[test]
fn partitions_must_be_there() {
    let lines = parse_android_info("require partition-exists=vendor_boot\n");
    let mut warnings = Vec::new();
    let mut transport = bootloader(&["OKAYyes"]);
    assert_eq!(check_android_info(&mut transport, &lines, &mut warnings), Ok(()));
    assert_eq!(transport.sent, vec![command("getvar:has-slot:vendor_boot")]);
    assert_eq!(
        check_android_info(&mut bootloader(&["FAIL"]), &lines, &mut warnings),
        Err(InfoFailure::MissingPartition("vendor_boot".to_string()))
    );
}

#[test]
fn odd_lines_and_replies_are_warned_of() {
    let mut warnings = Vec::new();
    let lines = parse_android_info("rubbish\nrequire inverse version=1\nrequire other=2");
    let mut transport = bootloader(&["FAILunknown", "DATA00000001"]);
    assert_eq!(check_android_info(&mut transport, &lines, &mut warnings), Ok(()));
    assert_eq!(
        warnings,
        vec![
            InfoWarning::Syntax("rubbish".to_string()),
            InfoWarning::Refused { var: "version".to_string(), reason: "unknown".to_string() },
            InfoWarning::Unavailable("other".to_string())
        ]
    );
}

#[test]
fn update_goes_through_the_table() {
    let names = vec!["system.img".to_string(), "boot.img".to_string(), "vendor.img".to_string()];
    let steps = update_steps(&names);
    assert_eq!(steps.len(), aosp_images().len());
    assert_eq!(steps.len(), 24);
    let flashed: Vec<&str> = steps
        .iter()
        .filter_map(|s| match s {
            UpdateStep::Flash(e) => Some(e.file),
            _ => None,
        })
        .collect();
    assert_eq!(flashed, vec!["boot.img", "system.img", "vendor.img"]);

    let steps = update_steps(&["boot.img".to_string()]);
    assert!(matches!(steps.last(), Some(UpdateStep::Missing(e)) if e.file == "system.img"));
    assert_eq!(steps.len(), 13);
}

#[test]
fn update_begins_with_questions_only() {
    let info = "require board=raven\n";
    let mut transport =
        bootloader(&["OKAYbl-1", "FAIL", "OKAYS123", "OKAYraven", "OKAY0x100", "OKAY a "]);
    let mut warnings = Vec::new();
    let session = begin_update(&mut transport, info, &mut warnings).unwrap();
    assert_eq!(session.limit, Some(256));
    assert_eq!(session.slot.as_deref(), Some("a"));
    assert_eq!(session.shown, vec![Some("bl-1".to_string()), None, Some("S123".to_string())]);
    assert!(transport.sent.iter().all(|s| matches!(s, Sent::Command(c) if c.starts_with("getvar:"))));
    assert_eq!(transport.sent.len(), 6);

    let mut transport = bootloader(&["OKAY", "OKAY", "OKAY", "OKAYother"]);
    assert!(begin_update(&mut transport, info, &mut warnings).is_err());
    assert_eq!(transport.sent.len(), 4);
}

#[test]
fn images_are_planned() {
    assert_eq!(plan_image(&[], None), ImagePlan::Empty);
    assert_eq!(plan_image(&[1], None), ImagePlan::Whole);
    assert_eq!(plan_image(&[1; 10], Some(10)), ImagePlan::Whole);
    assert_eq!(plan_image(&[1; 10], Some(0)), ImagePlan::Whole);
    assert_eq!(plan_image(&[1; 10], Some(9)), ImagePlan::Split { limit: 9, sparse: false });
    let mut sparse = vec![0u8; 28];
    sparse[..4].copy_from_slice(&0xED26FF3Au32.to_le_bytes());
    assert_eq!(plan_image(&sparse, Some(9)), ImagePlan::Split { limit: 9, sparse: true });
    assert!(is_sparse_image(&sparse));
    assert!(!is_sparse_image(&sparse[..27]));
    assert!(needs_split(Some(9), 10));
    assert!(is_boot_image(b"ANDROID!rest"));
    assert!(!is_boot_image(b"ANDROID"));
}

#[test]
fn partitions_get_their_slot() {
    assert_eq!(partition_with_slot("boot", Some("a")), "boot_a");
    assert_eq!(partition_with_slot("boot_", Some("a")), "boot_");
    assert_eq!(partition_with_slot("boot", None), "boot");
}

#[test]
fn images_are_flashed() {
    let mut transport = bootloader(&["DATA00000003", "OKAY", "OKAYwritten"]);
    let reply = flash_image(&mut transport, b"abc", None, "boot").unwrap();
    assert_eq!(reply, FastbootResponse::Okay("written".to_string()));
    let mut transport = bootloader(&["DATA00000003", "OKAY", "FAILlocked"]);
    assert!(matches!(
        flash_image(&mut transport, b"abc", None, "boot"),
        Err(FastbootError::CommandRefused(m)) if m == "locked"
    ));
    assert!(matches!(flash_image(&mut transport, b"", None, "boot"), Err(FastbootError::Empty)));
}

#[test]
fn parts_are_flashed_in_turn() {
    let parts = vec![b"ab".to_vec(), b"c".to_vec()];
    let mut transport = bootloader(&["DATA00000002", "OKAY", "OKAY", "DATA00000001", "OKAY", "FAILfull"]);
    match flash_split(&mut transport, &parts, "super") {
        Err((done, FastbootError::CommandRefused(m))) => {
            assert_eq!(done, 1);
            assert_eq!(m, "full");
        }
        _ => panic!("expected a refusal"),
    }
    assert_eq!(transport.sent.iter().filter(|s| **s == command("flash:super")).count(), 2);
}

#[test]
fn entries_go_to_the_current_slot() {
    let boot = aosp_images()[0];
    let session = UpdateSession { limit: Some(4), slot: Some("b".to_string()), shown: Vec::new() };
    let mut transport = bootloader(&["DATA00000003", "OKAY", "OKAY"]);
    assert!(matches!(flash_entry(&mut transport, &session, &boot, b"abc", &[]), Ok(1)));
    assert_eq!(transport.sent.last(), Some(&command("flash:boot_b")));

    let parts = vec![b"abc".to_vec(), b"de".to_vec()];
    let mut transport = bootloader(&["DATA00000003", "OKAY", "OKAY", "DATA00000002", "OKAY", "OKAY"]);
    assert!(matches!(flash_entry(&mut transport, &session, &boot, b"abcde", &parts), Ok(2)));
    assert!(matches!(
        flash_entry(&mut transport, &session, &boot, b"", &[]),
        Err((0, FastbootError::Empty))
    ));
}

#[test]
fn commands_that_cannot_be_sent_fail() {
    let mut transport = bootloader(&["FAILunknown", "DATA00000005", "OKAY"]);
    transport.refused = Some("flash:boot_a".to_string());
    let failure = download_and_flash_payload(&mut transport, b"HELLO", "boot_a").unwrap_err();
    assert!(matches!(failure, FastbootError::Io(e) if e.kind() == IoErrorKind::NotConnected));
    assert_eq!(transport.sent.last(), Some(&Sent::Data(b"HELLO".to_vec())));

    let mut transport = bootloader(&["FAILunknown", "DATA00000005", "OKAY"]);
    transport.refused = Some("boot".to_string());
    assert!(matches!(download_and_boot_payload(&mut transport, b"HELLO"), Err(FastbootError::Io(_))));
}

#[test]
fn questions_that_cannot_be_asked_are_warned_of() {
    let lines = parse_android_info("require version=1\nrequire other=2");
    let mut transport = bootloader(&["OKAY2"]);
    transport.refused = Some("getvar:version".to_string());
    let mut warnings = Vec::new();
    assert_eq!(check_android_info(&mut transport, &lines, &mut warnings), Ok(()));
    assert_eq!(warnings, vec![InfoWarning::Unavailable("version".to_string())]);
    assert_eq!(transport.sent, vec![command("getvar:other")]);
}

#[test]
fn update_that_fails_has_written_nothing() {
    let mut transport = bootloader(&["OKAY", "OKAY", "OKAY", "OKAYother"]);
    let mut warnings = Vec::new();
    assert!(begin_update(&mut transport, "require board=raven\n", &mut warnings).is_err());
    assert!(transport.sent.iter().all(|s| matches!(s, Sent::Command(c) if c.starts_with("getvar:"))));
}

#[test]
fn parts_before_a_failure_are_counted() {
    let parts = vec![b"AB".to_vec(), b"CD".to_vec()];
    let mut transport = bootloader(&["DATA00000002", "OKAY", "OKAY", "DATA00000002", "OKAY"]);
    let failure = flash_split(&mut transport, &parts, "system").unwrap_err();
    assert!(matches!(failure, (1, FastbootError::Io(e)) if e.kind() == IoErrorKind::UnexpectedEof));
}

#[test]
fn force_is_always_demanded() {
    let mut warnings = Vec::new();
    let mut transport = bootloader(&["OKAYraven"]);
    let lines = parse_android_info("require board=raven\nrequire force=1\nrequire other=2");
    assert_eq!(check_android_info(&mut transport, &lines, &mut warnings), Err(InfoFailure::ForceRequired));
    assert_eq!(transport.sent, vec![command("getvar:product")]);

    let mut transport = bootloader(&["OKAY2"]);
    let lines = parse_android_info("require inverse force=1\nrequire other=2");
    assert_eq!(check_android_info(&mut transport, &lines, &mut warnings), Ok(()));
    assert_eq!(transport.sent, vec![command("getvar:other")]);
    assert!(warnings.is_empty());
}

/// Takes the steps of an update with these files, each of which holds its own name, and tells which
/// partitions were written.
fn flashed(files: &[&str], replies: &[&str]) -> (Vec<String>, Option<UpdateStop>) {
    let names: Vec<String> = files.iter().map(|f| f.to_string()).collect();
    let session = UpdateSession { limit: None, slot: Some("a".to_string()), shown: Vec::new() };
    let mut transport = bootloader(replies);
    let mut stop = None;
    for step in update_steps(&names) {
        let data = match &step {
            UpdateStep::Flash(e) => e.file.as_bytes().to_vec(),
            _ => Vec::new(),
        };
        if let Err(why) = take_step(&mut transport, &session, &step, &data, &[]) {
            stop = Some(why);
            break;
        }
    }
    let written = transport
        .sent
        .iter()
        .filter_map(|s| match s {
            Sent::Command(c) => c.strip_prefix("flash:").map(|p| p.to_string()),
            Sent::Data(_) => None,
        })
        .collect();
    (written, stop)
}

#[test]
fn whole_updates() {
    let boot = ["DATA00000008", "OKAY", "OKAY"];
    let system = ["DATA0000000a", "OKAY", "OKAY"];
    let all = [boot, boot, system].concat();
    let (written, stop) = flashed(&["system.img", "boot.img", "dtbo.img", "notes.txt"], &all);
    assert_eq!(written, ["boot_a", "dtbo_a", "system_a"]);
    assert!(stop.is_none());

    let (written, stop) = flashed(&["boot.img", "dtbo.img", "vendor.img"], &all);
    assert_eq!(written, ["boot_a", "dtbo_a"]);
    assert!(matches!(stop, Some(UpdateStop::Missing(e)) if e.file == "system.img"));

    let refused = [boot, ["DATA00000008", "OKAY", "FAILlocked"]].concat();
    let (written, stop) = flashed(&["boot.img", "dtbo.img", "system.img"], &refused);
    assert_eq!(written, ["boot_a", "dtbo_a"]);
    assert!(matches!(stop, Some(UpdateStop::Failed(e, 0, FastbootError::CommandRefused(_))) if e.file == "dtbo.img"));
}
