use adb_fastboot::constants::{ADB_VERSION, A_CNXN, MAX_PAYLOAD_V2};
use adb_fastboot::header::AdbMessageHeader;
use adb_fastboot::host_service::{
    bridge_ended, bridge_plan, dispatch_host_service, finish_connect, finish_forward, parse_spec_pair, probe_device,
    read_request, track_update, wait_answer, BridgePlan, HostAction,
};
use adb_fastboot::registry::{
    is_usable_state, local_binding, DeviceEntry, DeviceOrigin, DeviceState, TransportRegistry,
};
use adb_fastboot::transport::{IoError, Transport};
use adb_fastboot::usb_android::DeviceCandidate;

/// A connection in memory: what the other side will deliver, and what it was sent.
struct Wire {
    input: Vec<u8>,
    at: usize,
    output: Vec<u8>,
    step: usize,
}

impl Wire {
    fn new(input: Vec<u8>) -> Wire {
        Wire { input, at: 0, output: Vec::new(), step: 7 }
    }
}

impl Transport for Wire {
    fn read(&mut self, buf: &mut [u8]) -> Result<usize, IoError> {
        let n = buf.len().min(self.input.len() - self.at).min(self.step);
        buf[..n].copy_from_slice(&self.input[self.at..self.at + n]);
        self.at += n;
        Ok(n)
    }

    fn write(&mut self, data: &[u8]) -> Result<usize, IoError> {
        let n = data.len().min(self.step);
        self.output.extend_from_slice(&data[..n]);
        Ok(n)
    }

    fn flush(&mut self) -> Result<(), IoError> {
        Ok(())
    }
}

fn tcp_device(serial: &str, state: DeviceState) -> DeviceEntry {
    DeviceEntry {
        serial: serial.to_string(),
        state,
        origin: DeviceOrigin::Tcp { ip: "127.0.0.1".to_string(), port: 5555 },
        product: None,
        model: None,
        device_name: None,
        transport_features: None,
    }
}

fn reply(registry: &mut TransportRegistry, cmd: &str) -> Vec<u8> {
    match dispatch_host_service(registry, cmd) {
        HostAction::Reply(bytes) => bytes,
        HostAction::Refuse { reply, .. } => reply,
        _ => panic!("no plain reply to {cmd}"),
    }
}

#[test]
fn test_transport_selection_accepts_only_aosp_online_states() {
    assert!(is_usable_state(DeviceState::Device));
    assert!(is_usable_state(DeviceState::Recovery));
    assert!(is_usable_state(DeviceState::Sideload));
    assert!(is_usable_state(DeviceState::Bootloader));
    assert!(!is_usable_state(DeviceState::Offline));
    assert!(!is_usable_state(DeviceState::Authorizing));
    assert!(!is_usable_state(DeviceState::Connecting));
    assert!(!is_usable_state(DeviceState::NoPerm));
}

#[test]
fn test_connect_consumes_response_cnxn_banner_length() {
    let banner = b"device::features=shell_v2;".to_vec();
    let mut bytes = [0u8; 24];
    AdbMessageHeader::new(A_CNXN, ADB_VERSION, MAX_PAYLOAD_V2, &banner).encode(&mut bytes);
    let mut device = Wire::new([bytes.to_vec(), banner].concat());

    let mut registry = TransportRegistry::new();
    let (host, port) = match dispatch_host_service(&mut registry, "host:connect:127.0.0.1:40123") {
        HostAction::Connect { host, port } => (host, port),
        _ => panic!("expected a connection"),
    };
    assert_eq!((host.as_str(), port), ("127.0.0.1", 40123));
    let found = probe_device(&mut device);
    assert_eq!(device.at, device.input.len());
    finish_connect(&mut registry, &host, port, "127.0.0.1".to_string(), found);
    assert_eq!(
        registry.find_by_serial("127.0.0.1:40123").unwrap().transport_features.as_deref(),
        Some("device::features=shell_v2;")
    );
}

#[test]
fn test_parse_spec_pair() {
    let pair = |a: &str, b: &str| Some((a.to_string(), b.to_string()));
    assert_eq!(parse_spec_pair("tcp:8080;tcp:9000"), pair("tcp:8080", "tcp:9000"));
    assert_eq!(parse_spec_pair("tcp:8080:tcp:9000"), pair("tcp:8080", "tcp:9000"));
    assert_eq!(parse_spec_pair("localabstract:foo;tcp:9000"), pair("localabstract:foo", "tcp:9000"));
    assert_eq!(parse_spec_pair("localabstract:foo:tcp:9000"), pair("localabstract:foo", "tcp:9000"));
    assert_eq!(parse_spec_pair("invalid"), None);
}

#[test]
fn test_track_devices_emits_initial_snapshot() {
    let mut registry = TransportRegistry::new();
    assert!(matches!(dispatch_host_service(&mut registry, "host:track-devices"), HostAction::Track));
    let (list, bytes) = track_update(&registry, None).unwrap();
    assert!(list.is_empty());
    assert_eq!(bytes, b"0000");
    assert!(track_update(&registry, Some(&list)).is_none());
    registry.devices.push(tcp_device("one", DeviceState::Device));
    assert!(track_update(&registry, Some(&list)).is_some());
}

#[test]
fn test_wait_for_device_acknowledges_available_transport() {
    let mut registry = TransportRegistry::new();
    assert!(matches!(dispatch_host_service(&mut registry, "host:wait-for-device"), HostAction::Wait));
    assert_eq!(wait_answer(&registry, true), None);
    registry.devices.push(tcp_device("test-device", DeviceState::Device));
    assert_eq!(wait_answer(&registry, true), Some(b"OKAY".to_vec()));
}

#[test]
fn test_registry_forward_management() {
    let mut reg = TransportRegistry::new();
    let res = reg.add_forward("tcp:0", "tcp:9000", false, Some(41000), 1).unwrap();
    assert!(!res.is_empty());
    assert!(reg.list_forwards().contains("tcp:9000"));

    let res_dup = reg.add_forward(&format!("tcp:{res}"), "tcp:9000", true, Some(41000), 2);
    assert!(res_dup.is_err());

    assert!(reg.forward_active(1));
    assert!(reg.remove_forward(&format!("tcp:{res}")));
    assert!(reg.list_forwards().is_empty());
    assert!(!reg.forward_active(1));
}

#[test]
fn test_registry_reverse_management() {
    let mut reg = TransportRegistry::new();
    assert!(reg.add_reverse("tcp:8080", "tcp:9000", false).is_ok());
    assert!(reg.list_reverses().contains("tcp:8080 tcp:9000"));

    assert!(reg.add_reverse("tcp:8080", "tcp:9000", true).is_err());

    assert!(reg.remove_reverse("tcp:8080"));
    assert!(reg.list_reverses().is_empty());
}

#[test]
fn rules_are_replaced_not_doubled() {
    let mut reg = TransportRegistry::new();
    reg.add_forward("tcp:1", "tcp:2", false, Some(1), 1).unwrap();
    reg.add_forward("tcp:1", "tcp:3", false, Some(1), 2).unwrap();
    assert_eq!(reg.forwards.len(), 1);
    assert!(reg.list_forwards().contains("tcp:3"));
    assert!(!reg.forward_active(1));
    reg.remove_all_forwards();
    assert!(reg.forwards.is_empty());
    reg.add_reverse("tcp:1", "tcp:2", false).unwrap();
    reg.remove_all_reverses();
    assert!(reg.reverses.is_empty());
}

#[test]
fn local_sockets_are_bound_by_their_spec() {
    assert_eq!(local_binding("tcp:8080"), Ok(Some(8080)));
    assert_eq!(local_binding("tcp:0"), Ok(Some(0)));
    assert!(local_binding("tcp:70000").is_err());
}

#[test]
fn refreshing_follows_the_bus() {
    let mut reg = TransportRegistry::new();
    reg.upsert_tcp_device("10.0.0.1".to_string(), 5555, "10.0.0.1:5555".to_string());
    let plugged = vec![DeviceCandidate { bus_number: 1, address: 4, serial: Some("ABC".to_string()) }];
    reg.refresh_usb_devices(&plugged);
    assert!(reg.find_by_serial("ABC").is_some());
    assert!(reg.find_by_serial("10.0.0.1:5555").is_some());
    reg.refresh_usb_devices(&[]);
    assert!(reg.find_by_serial("ABC").is_none());
    assert!(reg.find_by_serial("10.0.0.1:5555").is_some());
    reg.remove_all_tcp_devices();
    assert!(reg.devices.is_empty());
}

#[test]
fn serials_stay_distinct() {
    let mut reg = TransportRegistry::new();
    reg.upsert_tcp_device("10.0.0.1".to_string(), 5555, "a".to_string());
    reg.upsert_tcp_device("10.0.0.2".to_string(), 5556, "a".to_string());
    assert_eq!(reg.devices.len(), 1);
    assert!(reg.remove_device("a"));
    assert!(!reg.remove_device("a"));
}

#[test]
fn only_usable_devices_are_picked() {
    let mut reg = TransportRegistry::new();
    reg.devices.push(tcp_device("off", DeviceState::Offline));
    assert!(reg.find_any_device().is_none());
    reg.devices.push(tcp_device("on", DeviceState::Device));
    assert_eq!(reg.find_any_device().unwrap().serial, "on");
}

#[test]
fn devices_are_listed() {
    let mut reg = TransportRegistry::new();
    reg.devices.push(tcp_device("abc", DeviceState::Device));
    assert_eq!(reg.list_devices(false), "abc\tdevice\n");
    assert!(reg.list_devices(true).starts_with("abc"));
    assert_eq!(DeviceState::NoPerm.as_str(), "no permissions");
}

#[test]
fn plain_services_reply() {
    let mut reg = TransportRegistry::new();
    assert_eq!(reply(&mut reg, "host:version"), b"OKAY00071000001".to_vec());
    assert!(matches!(dispatch_host_service(&mut reg, "host:kill"), HostAction::Stop(b) if b == b"OKAY"));
    reg.devices.push(tcp_device("abc", DeviceState::Device));
    assert_eq!(reply(&mut reg, "host:devices"), b"OKAY000babc\tdevice\n".to_vec());
    let features = String::from_utf8(reply(&mut reg, "host:host-features")).unwrap();
    assert!(features.contains("shell_v2"));
    assert!(!features.contains("abb"));
    assert_eq!(&reply(&mut reg, "host:no-such-thing")[..4], b"FAIL");
}

#[test]
fn transports_are_bridged_or_refused() {
    let mut reg = TransportRegistry::new();
    assert!(matches!(
        dispatch_host_service(&mut reg, "host:transport:abc"),
        HostAction::Refuse { .. } | HostAction::Reply(_)
    ));
    reg.devices.push(tcp_device("abc", DeviceState::Device));
    assert!(matches!(
        dispatch_host_service(&mut reg, "host:transport:abc"),
        HostAction::Bridge { serial } if serial == "abc"
    ));
    assert!(matches!(bridge_plan(&reg, "abc"), BridgePlan::Tcp { port: 5555, .. }));
    assert!(matches!(bridge_plan(&reg, "missing"), BridgePlan::Missing(_)));
    let _ = bridge_ended(&mut reg, "abc", true, false);
}

#[test]
fn forwards_are_made_after_binding() {
    let mut reg = TransportRegistry::new();
    let (local, remote, no_rebind, port) = match dispatch_host_service(&mut reg, "host:forward:tcp:0;tcp:9000") {
        HostAction::Forward { local, remote, no_rebind, port } => (local, remote, no_rebind, port),
        _ => panic!("expected a binding"),
    };
    assert_eq!((local.as_str(), remote.as_str(), no_rebind, port), ("tcp:0", "tcp:9000", false, Some(0)));
    let bytes = finish_forward(&mut reg, &local, &remote, no_rebind, Ok(Some(41000)), 5);
    assert_eq!(&bytes[..4], b"OKAY");
    assert!(reg.forward_active(5));
    let bytes = finish_forward(&mut reg, &local, &remote, no_rebind, Err("busy".to_string()), 6);
    assert_eq!(&bytes[..4], b"FAIL");
    assert_eq!(&reply(&mut reg, "host:forward:killforward-all")[..4], b"OKAY");
    assert!(reg.forwards.is_empty());
}

#[test]
fn requests_are_framed() {
    let mut client = Wire::new(b"000chost:versionmore".to_vec());
    assert_eq!(read_request(&mut client), Ok(Some("host:version".to_string())));
    assert_eq!(client.at, 16);
    assert!(read_request(&mut Wire::new(b"zzzz".to_vec())).is_err());
}

#[test]
fn failed_probes_connect_nothing() {
    let mut reg = TransportRegistry::new();
    assert_eq!(probe_device(&mut Wire::new(Vec::new())), None);
    let bytes = finish_connect(&mut reg, "10.0.0.1", 5555, "10.0.0.1".to_string(), None);
    assert_eq!(bytes, b"FAIL0025connection refused: not an ADB device".to_vec());
    assert!(reg.devices.is_empty());
}
