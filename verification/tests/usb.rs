use adb_fastboot::constants::A_CNXN;
use adb_fastboot::header::AdbMessageHeader;
use adb_fastboot::transport::{IoError, IoErrorKind, Transport, TransportError};
use adb_fastboot::usb::{
    adb_interface_number, descriptor_info, is_adb_interface, no_device_opened, parse_adb_interface_descriptors,
    select_adb_candidate, should_send_zlp, usb_io_error, EndpointDescriptor, InterfaceDescriptor, RusbAdbCandidate,
    RusbAdbSelector, RusbUsbTransportError, UsbEndpointInfo, UsbInterface, UsbTransport, UsbTransportAdapter,
    UsbTransportError,
};
use adb_fastboot::usb_android::{
    adb_devices, candidate_by_serial, device_path, ioc, map_io_error, node_number, read_serial, usbdevfs_bulk,
    usbdevfs_claiminterface, usbdevfs_disconnect_claim, DeviceCandidate, SysfsEntry, UsbAndroidError, UsbNode,
};
use std::collections::VecDeque;
use std::sync::{Arc, Mutex};

fn interface_and_endpoints() -> Vec<u8> {
    vec![
        9, 4, 3, 0, 2, 0xff, 0x42, 1, 0, 7, 5, 0x83, 3, 64, 0, 0, 7, 5, 0x02, 2, 64, 0, 0, 7, 5, 0x84, 2, 64, 0, 0,
    ]
}

#[test]
fn parses_adb_bulk_endpoints_without_hardcoded_addresses() {
    let info = parse_adb_interface_descriptors(&interface_and_endpoints()).unwrap();
    assert_eq!(info.interface_number, 3);
    assert_eq!(info.bulk_in_endpoint_address, 0x84);
    assert_eq!(info.bulk_out_endpoint_address, 0x02);
    assert_eq!(info.out_max_packet_size, 64);
}

#[test]
fn rejects_non_bulk_only_interface() {
    let descriptors = vec![9, 4, 3, 0, 1, 0xff, 0x42, 1, 0, 7, 5, 0x81, 3, 64, 0, 0];
    assert_eq!(
        parse_adb_interface_descriptors(&descriptors),
        Err(UsbTransportError::MissingBulkEndpoint { interface_number: 3, missing: "IN" })
    );
}

#[test]
fn rejects_truncated_endpoint_descriptor() {
    let descriptors = vec![9, 4, 3, 0, 1, 0xff, 0x42, 1, 0, 6, 5, 0x81, 2, 64, 0];
    assert!(matches!(
        parse_adb_interface_descriptors(&descriptors),
        Err(UsbTransportError::MalformedDescriptor { .. })
    ));
}

#[test]
fn zlp_only_for_nonzero_packet_aligned_payload() {
    assert!(should_send_zlp(64, 64));
    assert!(should_send_zlp(128, 64));
    assert!(!should_send_zlp(0, 64));
    assert!(!should_send_zlp(63, 64));
}

#[derive(Clone, Default)]
struct FakeUsb {
    state: Arc<Mutex<FakeState>>,
}

struct FakeState {
    input: VecDeque<u8>,
    writes: Vec<Vec<u8>>,
    read_limit: usize,
    write_limit: usize,
    read_error: Option<UsbTransportError>,
    write_error: Option<UsbTransportError>,
}

impl Default for FakeState {
    fn default() -> Self {
        Self {
            input: VecDeque::new(),
            writes: Vec::new(),
            read_limit: usize::MAX,
            write_limit: usize::MAX,
            read_error: None,
            write_error: None,
        }
    }
}

impl UsbTransport for FakeUsb {
    fn endpoint_info(&self) -> UsbEndpointInfo {
        UsbEndpointInfo {
            interface_number: 1,
            bulk_in_endpoint_address: 0x81,
            bulk_out_endpoint_address: 0x02,
            out_max_packet_size: 64,
        }
    }

    fn bulk_read(&mut self, endpoint: u8, buffer: &mut [u8]) -> Result<usize, UsbTransportError> {
        assert_eq!(endpoint, 0x81);
        let mut state = self.state.lock().unwrap();
        if let Some(error) = state.read_error.take() {
            return Err(error);
        }
        let count = buffer.len().min(state.input.len()).min(state.read_limit);
        for byte in buffer.iter_mut().take(count) {
            *byte = state.input.pop_front().unwrap();
        }
        Ok(count)
    }

    fn bulk_write(&mut self, endpoint: u8, buffer: &[u8]) -> Result<usize, UsbTransportError> {
        assert_eq!(endpoint, 0x02);
        let mut state = self.state.lock().unwrap();
        if let Some(error) = state.write_error.take() {
            return Err(error);
        }
        let count = buffer.len().min(state.write_limit);
        state.writes.push(buffer[..count].to_vec());
        Ok(count)
    }
}

fn fake() -> FakeUsb {
    FakeUsb { state: Arc::new(Mutex::new(FakeState::default())) }
}

#[test]
fn selects_adb_candidate_by_serial_and_bus_address() {
    let candidates = vec![
        RusbAdbCandidate { serial: Some("one".into()), bus_number: 2, address: 3 },
        RusbAdbCandidate { serial: None, bus_number: 2, address: 4 },
    ];
    assert_eq!(
        select_adb_candidate(&candidates, RusbAdbSelector::Serial("one")).unwrap().bus_address(),
        (2, 3)
    );
    assert_eq!(
        select_adb_candidate(&candidates, RusbAdbSelector::BusAddress { bus_number: 2, address: 4 }).unwrap().serial,
        None
    );
}

#[test]
fn rejects_unmatched_adb_candidate_without_fabricating_serial() {
    let candidates = vec![RusbAdbCandidate { serial: None, bus_number: 1, address: 7 }];
    assert!(matches!(
        select_adb_candidate(&candidates, RusbAdbSelector::Serial("missing")),
        Err(RusbUsbTransportError::NoMatchingDevice { .. })
    ));
}

#[test]
fn adapter_reuses_adb_framing_and_handles_short_bulk_io() {
    let payload = b"hello";
    let header = AdbMessageHeader::new(A_CNXN, 7, 9, payload);
    let mut encoded_header = [0u8; 24];
    header.encode(&mut encoded_header);
    let mut wire = encoded_header.to_vec();
    wire.extend_from_slice(payload);
    let fake = fake();
    {
        let mut state = fake.state.lock().unwrap();
        state.input.extend(wire);
        state.read_limit = 2;
        state.write_limit = 5;
    }
    let state = fake.state.clone();
    let mut adapter = UsbTransportAdapter::new(fake);
    let sent = AdbMessageHeader::new(A_CNXN, 1, 2, payload);
    adapter.send_message(&sent, payload).unwrap();
    let (received, received_payload) = adapter.recv_message().unwrap();
    assert_eq!(received, header);
    assert_eq!(received_payload, payload);
    let writes = &state.lock().unwrap().writes;
    assert_ne!(writes.last(), Some(&Vec::new()));
    assert_eq!(writes.iter().map(Vec::len).sum::<usize>(), 29);
}

#[test]
fn adapter_zlp_uses_payload_length_not_header_plus_payload() {
    for (payload_len, want_zlp) in [(40usize, false), (64, true)] {
        let fake = fake();
        let state = fake.state.clone();
        let mut adapter = UsbTransportAdapter::new(fake);
        let payload = vec![0u8; payload_len];
        let header = AdbMessageHeader::new(A_CNXN, 1, 2, &payload);
        adapter.send_message(&header, &payload).unwrap();

        let writes = &state.lock().unwrap().writes;
        assert_eq!(writes.iter().filter(|write| write.is_empty()).count(), usize::from(want_zlp));
    }
}

#[test]
fn adapter_propagates_bulk_errors() {
    let fake_usb = fake();
    fake_usb.state.lock().unwrap().write_error = Some(UsbTransportError::Timeout);
    let mut adapter = UsbTransportAdapter::new(fake_usb);
    let header = AdbMessageHeader::new(A_CNXN, 0, 0, &[]);
    assert!(matches!(adapter.send_message(&header, &[]),
        Err(TransportError::Io(error)) if error.kind() == IoErrorKind::TimedOut));

    let fake_usb = fake();
    fake_usb.state.lock().unwrap().read_error = Some(UsbTransportError::Disconnected);
    let mut adapter = UsbTransportAdapter::new(fake_usb);
    assert!(matches!(adapter.recv_message(),
        Err(TransportError::Io(error)) if error.kind() == IoErrorKind::NotConnected));
}

#[test]
fn adapter_propagates_zlp_error() {
    let fake = fake();
    let state = fake.state.clone();
    let mut adapter = UsbTransportAdapter::new(fake);
    adapter.write_all(&[0; 64]).unwrap();
    state.lock().unwrap().write_error = Some(UsbTransportError::PermissionDenied);
    assert!(matches!(adapter.flush(), Err(error) if error.kind() == IoErrorKind::PermissionDenied));
}

#[test]
fn adapter_gives_its_parts_back() {
    let usb = fake();
    usb.state.lock().unwrap().write_limit = 7;
    let adapter = UsbTransportAdapter::new(usb);
    assert_eq!(adapter.endpoint_info().out_max_packet_size, 64);
    assert_eq!(adapter.into_inner().state.lock().unwrap().write_limit, 7);
}

#[test]
fn adb_interfaces_are_known_by_their_codes() {
    assert!(is_adb_interface(0xff, 0x42, 1));
    assert!(is_adb_interface(0xdc, 0x02, 1));
    assert!(!is_adb_interface(0xff, 0x42, 3));
    assert!(!is_adb_interface(8, 6, 80));
}

#[test]
fn descriptor_errors() {
    assert_eq!(parse_adb_interface_descriptors(&[]), Err(UsbTransportError::NoAdbInterface));
    assert_eq!(
        parse_adb_interface_descriptors(&[9, 4, 3, 0, 1, 8, 6, 80, 0]),
        Err(UsbTransportError::NoAdbInterface)
    );
    assert!(matches!(
        parse_adb_interface_descriptors(&[0, 4]),
        Err(UsbTransportError::MalformedDescriptor { .. })
    ));
    let only_in = vec![9, 4, 3, 0, 1, 0xff, 0x42, 1, 0, 7, 5, 0x81, 2, 64, 0, 0];
    assert_eq!(
        parse_adb_interface_descriptors(&only_in),
        Err(UsbTransportError::MissingBulkEndpoint { interface_number: 3, missing: "OUT" })
    );
    let zero = vec![9, 4, 3, 0, 2, 0xff, 0x42, 1, 0, 7, 5, 0x02, 2, 0, 0, 0, 7, 5, 0x84, 2, 0, 0, 0];
    assert_eq!(
        parse_adb_interface_descriptors(&zero),
        Err(UsbTransportError::ZeroPacketSize { interface_number: 3 })
    );
    assert!(UsbTransportError::NoAdbInterface.message().len() > 0);
}

#[test]
fn usb_errors_become_io_errors() {
    assert_eq!(usb_io_error(UsbTransportError::Timeout).kind(), IoErrorKind::TimedOut);
    assert_eq!(usb_io_error(UsbTransportError::Disconnected).kind(), IoErrorKind::NotConnected);
    assert_eq!(usb_io_error(UsbTransportError::NoDevice).kind(), IoErrorKind::NotFound);
    assert_eq!(usb_io_error(UsbTransportError::PermissionDenied).kind(), IoErrorKind::PermissionDenied);
}

fn adb_interface(number: u8) -> UsbInterface {
    UsbInterface {
        number,
        descriptors: vec![InterfaceDescriptor {
            interface_number: number,
            class_code: 0xff,
            sub_class_code: 0x42,
            protocol_code: 1,
            endpoints: vec![
                EndpointDescriptor { address: 0x81, is_bulk: true, is_input: true, max_packet_size: 512 },
                EndpointDescriptor { address: 0x01, is_bulk: true, is_input: false, max_packet_size: 512 },
            ],
        }],
    }
}

#[test]
fn interface_models_give_endpoints() {
    let interfaces = vec![adb_interface(2)];
    assert_eq!(adb_interface_number(&interfaces), Some(2));
    assert_eq!(
        descriptor_info(&interfaces, 2),
        Ok(UsbEndpointInfo {
            interface_number: 2,
            bulk_in_endpoint_address: 0x81,
            bulk_out_endpoint_address: 0x01,
            out_max_packet_size: 512
        })
    );
    assert_eq!(adb_interface_number(&[]), None);
    assert!(descriptor_info(&interfaces, 1).is_err());
}

#[test]
fn why_no_device_was_opened() {
    assert!(matches!(no_device_opened(None, true), RusbUsbTransportError::PermissionDenied));
    assert!(matches!(no_device_opened(None, false), RusbUsbTransportError::NoDevice));
    let selector = RusbAdbSelector::Serial("x");
    assert!(matches!(
        no_device_opened(Some(&selector), false),
        RusbUsbTransportError::NoMatchingDevice { .. }
    ));
}

#[test]
fn ambiguous_candidates_are_refused() {
    let candidates = vec![
        RusbAdbCandidate { serial: Some("one".into()), bus_number: 2, address: 3 },
        RusbAdbCandidate { serial: Some("one".into()), bus_number: 2, address: 4 },
    ];
    assert!(matches!(
        select_adb_candidate(&candidates, RusbAdbSelector::Serial("one")),
        Err(RusbUsbTransportError::AmbiguousDevice { .. })
    ));
}

#[test]
fn ioctl_constants_are_well_formed() {
    assert!(usbdevfs_bulk() != 0);
    assert!(usbdevfs_claiminterface() != 0);
    assert!(usbdevfs_disconnect_claim() != 0);
}

#[test]
fn ioctl_numbers() {
    assert_eq!(usbdevfs_bulk(), 0xc018_5502);
    assert_eq!(usbdevfs_claiminterface(), 0x8004_550f);
    assert_eq!(usbdevfs_disconnect_claim(), 0x8108_551b);
    assert_eq!(ioc(2, 0x55, 15, 4), 0x8004_550f);
    assert_eq!(ioc(6, 0x55, 15, 0x1_4004), 0xc004_550f);
}

#[test]
fn usb_nodes_are_numbered() {
    assert_eq!(device_path(1, 23), "/dev/bus/usb/001/023");
    assert_eq!(node_number("023"), Some(23));
    assert_eq!(node_number("256"), None);
    assert_eq!(node_number("x"), None);
}

#[test]
fn adb_nodes_are_found() {
    let nodes = vec![
        UsbNode { bus_name: "001".into(), address_name: "002".into(), descriptors: interface_and_endpoints() },
        UsbNode { bus_name: "001".into(), address_name: "003".into(), descriptors: vec![9, 4, 0, 0, 0, 9, 0, 0, 0] },
        UsbNode { bus_name: "dev".into(), address_name: "004".into(), descriptors: interface_and_endpoints() },
    ];
    assert_eq!(adb_devices(&nodes), vec![(1, 2)]);
}

#[test]
fn serials_come_from_the_matching_entry() {
    let entries = vec![
        SysfsEntry {
            name: "1-1".into(),
            busnum: Some("1".into()),
            devnum: Some("4".into()),
            serial: Some("OTHER".into()),
        },
        SysfsEntry {
            name: "1-2".into(),
            busnum: Some("1".into()),
            devnum: Some("5".into()),
            serial: Some("ABC".into()),
        },
    ];
    assert_eq!(read_serial(&entries, 1, 5), Some("ABC".to_string()));
    assert_eq!(read_serial(&entries, 2, 5), None);

    let candidates = vec![
        DeviceCandidate { bus_number: 1, address: 4, serial: None },
        DeviceCandidate { bus_number: 1, address: 5, serial: Some("ABC".into()) },
    ];
    assert_eq!(candidate_by_serial(&candidates, "ABC"), Some(1));
    assert_eq!(candidate_by_serial(&candidates, "nope"), None);
}

#[test]
fn system_errors_become_usb_errors() {
    assert_eq!(map_io_error(IoError::new(IoErrorKind::TimedOut, "t")), UsbTransportError::Timeout);
    assert_eq!(
        map_io_error(IoError::new(IoErrorKind::PermissionDenied, "p")),
        UsbTransportError::PermissionDenied
    );
    assert!(UsbAndroidError::NoDevice.message().len() > 0);
}
