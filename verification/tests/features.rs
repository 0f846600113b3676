use adb_fastboot::features::{
    can_use_feature, features_to_string, host_cnxn_payload, host_supported_features, parse_banner_features,
};

#[test]
fn test_parse_banner_features() {
    // Typical modern device banner.
    let banner = "device::ro.product.name=raven;ro.product.model=Pixel 6 Pro;ro.product.device=raven;features=shell_v2,cmd,stat_v2,ls_v2,apex,abb,fixed_push_mkdir,sendrecv_v2,sendrecv_v2_zstd";
    let feats = parse_banner_features(banner);
    assert!(feats.contains(&"shell_v2".to_string()));
    assert!(feats.contains(&"sendrecv_v2_zstd".to_string()));
    assert_eq!(feats.len(), 9);

    // Banner without features.
    assert!(parse_banner_features("device::ro.product.name=x").is_empty());

    // NUL-terminated CNXN payload.
    let feats = parse_banner_features("host::features=shell_v2,cmd\0");
    assert_eq!(feats, vec!["shell_v2".to_string(), "cmd".to_string()]);
}

#[test]
fn test_can_use_feature_requires_both_sides() {
    // Device supports it, host advertises it → usable.
    let device = vec!["shell_v2".to_string(), "apex".to_string()];
    assert!(can_use_feature(&device, "shell_v2"));
    // Device supports something that the host does not → unusable.
    assert!(!can_use_feature(&device, "apex"));
    // Host implements it but device doesn't → unusable.
    assert!(!can_use_feature(&[], "shell_v2"));
}

#[test]
fn test_host_supported_features_are_only_implemented_ones() {
    let f = host_supported_features();
    for name in [
        "shell_v2",
        "cmd",
        "stat_v2",
        "ls_v2",
        "sendrecv_v2",
        "sendrecv_v2_brotli",
        "sendrecv_v2_lz4",
        "sendrecv_v2_zstd",
        "sendrecv_v2_dry_run_send",
        "fixed_push_symlink_timestamp",
    ] {
        assert!(f.contains(&name), "missing {name}");
    }
    // Capabilities that are not there must never appear.
    for bad in ["abb", "abb_exec", "apex", "remount_shell", "libusb", "push_sync"] {
        assert!(!f.contains(&bad), "must not advertise {bad}");
    }
}

#[test]
fn test_host_cnxn_payload_shape() {
    let payload = host_cnxn_payload();
    let s = String::from_utf8(payload).unwrap();
    assert!(s.starts_with("host::features="), "got {s}");
    assert!(s.contains("shell_v2"));
    assert!(!s.contains("abb"));
}

#[test]
fn banner_of_the_host_is_read_back() {
    let banner = String::from_utf8(host_cnxn_payload()).unwrap();
    let names: Vec<String> = host_supported_features().iter().map(|s| s.to_string()).collect();
    assert_eq!(parse_banner_features(&banner), names);
}

#[test]
fn features_are_joined_with_commas() {
    assert_eq!(features_to_string(&["a", "b", "c"]), "a,b,c");
    assert_eq!(features_to_string(&["only"]), "only");
    assert_eq!(features_to_string(&[]), "");
}

#[test]
fn banner_without_features_has_none() {
    assert_eq!(parse_banner_features("host::features="), Vec::<String>::new());
}
