use adb_fastboot::features::host_supported_features;

#[derive(Clone, Copy, Debug, Eq, PartialEq)]
enum AcceptanceStatus {
    /// The wire format or the state machine is there and tested.
    ProtocolImplemented,
    /// There is code, but no command uses it yet.
    CodeEvidence,
    /// There is a command for it.
    CliImplemented,
    /// It was not tried with a real device.
    RealDeviceUnverified,
}

impl AcceptanceStatus {
    fn label(self) -> &'static str {
        match self {
            Self::ProtocolImplemented => "protocol implemented",
            Self::CodeEvidence => "code evidence",
            Self::CliImplemented => "CLI implemented",
            Self::RealDeviceUnverified => "real-device unverified",
        }
    }

    fn is_accepted(self) -> bool {
        matches!(self, Self::ProtocolImplemented | Self::CliImplemented)
    }

    fn is_code_evidence(self) -> bool {
        matches!(self, Self::CodeEvidence)
    }
}

#[derive(Clone, Copy, Debug)]
struct FeatureStatus {
    module: &'static str,
    feature: &'static str,
    status: AcceptanceStatus,
}

fn row(module: &'static str, feature: &'static str, status: AcceptanceStatus) -> FeatureStatus {
    FeatureStatus { module, feature, status }
}

// A matrix of what is accepted, not a list of advertised commands.
fn matrix() -> Vec<FeatureStatus> {
    vec![
        row("ADB", "24-byte header checksum/magic", AcceptanceStatus::ProtocolImplemented),
        row("ADB", "Shell v2 / window-size change", AcceptanceStatus::ProtocolImplemented),
        row("ADB", "STAT_V2 / LSTAT_V2 protocol", AcceptanceStatus::ProtocolImplemented),
        row("ADB", "Single-file push/pull", AcceptanceStatus::CliImplemented),
        row("ADB", "ADB TCP socket transport", AcceptanceStatus::ProtocolImplemented),
        row("ADB", "RSA key auth (A_AUTH signature/RSAKEY)", AcceptanceStatus::ProtocolImplemented),
        row("ADB", "ADB server lifecycle (start/stop/restart, 5037)", AcceptanceStatus::CliImplemented),
        row("USB", "Protocol USB adapters (ADB/Fastboot)", AcceptanceStatus::CodeEvidence),
        row("USB", "Optional rusb USB backends (ADB/Fastboot)", AcceptanceStatus::CodeEvidence),
        row("USB", "CLI USB transport integration", AcceptanceStatus::CliImplemented),
        row("USB", "Real-device USB verification", AcceptanceStatus::RealDeviceUnverified),
        row("Fastboot", "Response parser (OKAY/FAIL/DATA/INFO/TEXT)", AcceptanceStatus::ProtocolImplemented),
        row("Fastboot", "Command formatter (getvar/flash/erase/reboot)", AcceptanceStatus::ProtocolImplemented),
        row("Fastboot", "Flash download/payload/flash flow", AcceptanceStatus::CliImplemented),
        row("Fastboot", "Logical partition commands", AcceptanceStatus::CliImplemented),
        row("Fastboot", "fastboot fetch file output", AcceptanceStatus::CliImplemented),
    ]
}

fn find(feature: &str) -> FeatureStatus {
    matrix()
        .iter()
        .copied()
        .find(|item| item.feature == feature)
        .unwrap_or_else(|| panic!("missing acceptance-matrix row: {feature}"))
}

#[test]
fn required_incomplete_features_are_not_reported_as_supported() {
    for feature in ["Real-device USB verification"] {
        let item = find(feature);
        assert!(!item.status.is_accepted(), "{feature} must remain incomplete or unverified");
    }
}

#[test]
fn usb_code_evidence_is_not_mistaken_for_cli_completion() {
    let adapter = find("Protocol USB adapters (ADB/Fastboot)");
    let backend = find("Optional rusb USB backends (ADB/Fastboot)");
    let cli = find("CLI USB transport integration");
    let device = find("Real-device USB verification");

    for item in [adapter, backend] {
        assert!(item.status.is_code_evidence(), "USB adapter/backend must be classified as code evidence");
        assert!(
            !item.status.is_accepted(),
            "USB backend code evidence must not be reported as accepted CLI support"
        );
    }
    assert_eq!(cli.status, AcceptanceStatus::CliImplemented);
    assert!(cli.status.is_accepted());
    assert_eq!(device.status, AcceptanceStatus::RealDeviceUnverified);
    assert!(!device.status.is_accepted());
}

#[test]
fn audit_adb_fastboot_features() {
    let mut accepted = 0usize;
    let mut code_evidence = 0usize;
    for item in matrix() {
        println!("[{}] {:<48} : {}", item.module, item.feature, item.status.label());
        if item.status.is_accepted() {
            accepted += 1;
        }
        if item.status.is_code_evidence() {
            code_evidence += 1;
        }
    }
    assert_eq!(accepted + code_evidence + 1, matrix().len());
    assert!(host_supported_features().contains(&"shell_v2"));
}
