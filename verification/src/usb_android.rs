//! ADB devices on the Linux usbfs: request numbers, device nodes, and which of the nodes is an
//! ADB device.

use crate::text::{
    chars_of, dec, decimal, digit_value, find_char, is_prefix, lemma_find_from, number_round_trip, number_value,
    padded, padding_keeps_the_value, parse_unsigned, starts_with, str_eq, unsigned_spec, zero_pad,
};
use crate::transport::{IoError, IoErrorKind};
use crate::usb::{interface_from, parse_adb_interface_descriptors, UsbErrorModel, UsbTransportError};
use vstd::prelude::*;

verus! {

/// The direction of a request from which the kernel's answer is read.
pub const IOC_READ: u32 = 2;

/// The direction of a request that is written and answered.
pub const IOC_READWRITE: u32 = 3;

/// The number of an ioctl request: its direction in the two highest bits, then 14 bits for the
/// size of the argument, a byte for the type and a byte for the number in it.
pub open spec fn request_number(dir: int, typ: int, nr: int, size: int) -> int {
    dir * 0x4000_0000 + size * 0x1_0000 + typ * 0x100 + nr
}

/// The number of an ioctl request. A direction or a size with more bits than it has room for runs
/// into its neighbours.
pub fn ioc(dir: u32, typ: u8, nr: u8, size: usize) -> (r: u32)
    ensures
        r == (dir << 30u32) | ((size as u32) << 16u32) | ((typ as u32) << 8u32) | (nr as u32),
        dir < 4 && size < 0x4000 ==> r == request_number(
            dir as int,
            typ as int,
            nr as int,
            size as int,
        ),
{
    let s: u32 = size as u32;
    assert(dir < 4 && s < 0x4000 ==> (dir << 30u32) | (s << 16u32) | ((typ as u32) << 8u32) | (
    nr as u32) == dir * 0x4000_0000 + s * 0x1_0000 + typ * 0x100 + nr) by (bit_vector);
    (dir << 30u32) | (s << 16u32) | ((typ as u32) << 8u32) | (nr as u32)
}

/// The type of the usbfs requests.
pub const USBDEVFS_TYPE: u8 = 0x55;

/// The size of `struct usbdevfs_bulktransfer` with 64-bit pointers.
pub const BULK_TRANSFER_SIZE: usize = 24;

/// The size of `struct usbdevfs_disconnect_claim`.
pub const DISCONNECT_CLAIM_SIZE: usize = 264;

/// The request that makes a bulk transfer.
pub fn usbdevfs_bulk() -> (r: u32)
    ensures
        r == request_number(3, USBDEVFS_TYPE as int, 2, BULK_TRANSFER_SIZE as int),
{
    ioc(IOC_READWRITE, USBDEVFS_TYPE, 2, BULK_TRANSFER_SIZE)
}

/// The request that claims an interface after detaching its driver.
pub fn usbdevfs_disconnect_claim() -> (r: u32)
    ensures
        r == request_number(2, USBDEVFS_TYPE as int, 27, DISCONNECT_CLAIM_SIZE as int),
{
    ioc(IOC_READ, USBDEVFS_TYPE, 27, DISCONNECT_CLAIM_SIZE)
}

/// The request that claims an interface.
pub fn usbdevfs_claiminterface() -> (r: u32)
    ensures
        r == request_number(2, USBDEVFS_TYPE as int, 15, 4),
{
    ioc(IOC_READ, USBDEVFS_TYPE, 15, 4)
}

/// Requests that differ in direction, type, number or size have different numbers.
pub proof fn request_numbers_are_distinct(
    dir: int,
    typ: int,
    nr: int,
    size: int,
    dir2: int,
    typ2: int,
    nr2: int,
    size2: int,
)
    requires
        0 <= dir < 4,
        0 <= dir2 < 4,
        0 <= typ < 256,
        0 <= typ2 < 256,
        0 <= nr < 256,
        0 <= nr2 < 256,
        0 <= size < 0x4000,
        0 <= size2 < 0x4000,
        request_number(dir, typ, nr, size) == request_number(dir2, typ2, nr2, size2),
    ensures
        dir == dir2,
        typ == typ2,
        nr == nr2,
        size == size2,
{
}

/// A number of three digits at least.
pub open spec fn three_digits(n: u8) -> Seq<char> {
    zero_pad(dec(n as nat), 3)
}

/// The device node of a device.
pub open spec fn node_path(bus_number: u8, address: u8) -> Seq<char> {
    "/dev/bus/usb/"@ + three_digits(bus_number) + "/"@ + three_digits(address)
}

/// The device node of a device.
pub fn device_path(bus_number: u8, address: u8) -> (s: String)
    ensures
        s@ == node_path(bus_number, address),
{
    let mut s = String::new();
    s.append("/dev/bus/usb/");
    s.append(padded(bus_number as u64, 10, 3).as_str());
    s.append("/");
    s.append(padded(address as u64, 10, 3).as_str());
    assert(s@ =~= node_path(bus_number, address));
    s
}

/// A candidate ADB device discovered on the usbfs.
#[derive(Clone, Debug)]
pub struct DeviceCandidate {
    pub bus_number: u8,
    pub address: u8,
    pub serial: Option<String>,
}

/// What can go wrong with finding and opening a device.
#[derive(Debug)]
pub enum UsbAndroidError {
    NoDevice,
    PermissionDenied,
    Descriptor(UsbTransportError),
    Io(IoError),
}

impl UsbAndroidError {
    /// The text of the error.
    pub open spec fn text(self) -> Seq<char> {
        match self {
            UsbAndroidError::NoDevice => "USB device not found"@,
            UsbAndroidError::PermissionDenied => "USB permission denied"@,
            UsbAndroidError::Descriptor(e) => "USB descriptor parse error: "@ + e@.text(),
            UsbAndroidError::Io(e) => "USB I/O error: "@ + e.message@,
        }
    }

    /// The text of the error.
    pub fn message(&self) -> (s: String)
        ensures
            s@ == self.text(),
    {
        let mut s = String::new();
        match self {
            UsbAndroidError::NoDevice => {
                s.append("USB device not found");
            },
            UsbAndroidError::PermissionDenied => {
                s.append("USB permission denied");
            },
            UsbAndroidError::Descriptor(e) => {
                s.append("USB descriptor parse error: ");
                s.append(e.message().as_str());
            },
            UsbAndroidError::Io(e) => {
                s.append("USB I/O error: ");
                s.append(e.message.as_str());
            },
        }
        assert(s@ =~= self.text());
        s
    }
}

/// What a failed transfer means.
pub open spec fn transfer_error(kind: IoErrorKind, message: Seq<char>) -> UsbErrorModel {
    match kind {
        IoErrorKind::PermissionDenied => UsbErrorModel::PermissionDenied,
        IoErrorKind::TimedOut | IoErrorKind::WouldBlock => UsbErrorModel::Timeout,
        IoErrorKind::NotConnected => UsbErrorModel::Disconnected,
        IoErrorKind::NotFound => UsbErrorModel::NoDevice,
        _ => UsbErrorModel::Io(message),
    }
}

/// What a failed transfer means.
pub fn map_io_error(e: IoError) -> (r: UsbTransportError)
    ensures
        r@ == transfer_error(e.kind, e.message@),
{
    match e.kind {
        IoErrorKind::PermissionDenied => UsbTransportError::PermissionDenied,
        IoErrorKind::TimedOut => UsbTransportError::Timeout,
        IoErrorKind::WouldBlock => UsbTransportError::Timeout,
        IoErrorKind::NotConnected => UsbTransportError::Disconnected,
        IoErrorKind::NotFound => UsbTransportError::NoDevice,
        _ => UsbTransportError::Io(e.message),
    }
}

/// A device node under /dev/bus/usb: the names on its path, and what reading it gave.
#[derive(Clone, Debug)]
pub struct UsbNode {
    pub bus_name: String,
    pub address_name: String,
    pub descriptors: Vec<u8>,
}

/// The bus number and address of a node that is an ADB device.
pub open spec fn adb_node(node: UsbNode) -> Option<(u8, u8)> {
    match (unsigned_spec(node.bus_name@, 10, 255), unsigned_spec(node.address_name@, 10, 255)) {
        (Some(bus), Some(address)) => if node.descriptors@.len() > 0 && interface_from(
            node.descriptors@,
            0,
            None,
        ) is Ok {
            Some((bus as u8, address as u8))
        } else {
            None
        },
        _ => None,
    }
}

/// The ADB devices among some nodes, in their order.
pub open spec fn adb_nodes_of(nodes: Seq<UsbNode>) -> Seq<(u8, u8)>
    decreases nodes.len(),
{
    if nodes.len() == 0 {
        Seq::empty()
    } else {
        let before = adb_nodes_of(nodes.drop_last());
        match adb_node(nodes.last()) {
            Some(n) => before.push(n),
            None => before,
        }
    }
}

/// The number that a directory entry is named by, if it is named by a number of one byte.
pub fn node_number(name: &str) -> (r: Option<u8>)
    ensures
        match r {
            Some(n) => unsigned_spec(name@, 10, 255) == Some(n as nat),
            None => unsigned_spec(name@, 10, 255) is None,
        },
{
    let chars = chars_of(name);
    match parse_unsigned(chars.as_slice(), 10, 255) {
        Some(n) => Some(n as u8),
        None => None,
    }
}

/// The bus number and address of a node, if it is an ADB device.
pub fn adb_device_at(node: &UsbNode) -> (r: Option<(u8, u8)>)
    ensures
        r == adb_node(*node),
{
    match (node_number(node.bus_name.as_str()), node_number(node.address_name.as_str())) {
        (Some(bus), Some(address)) => {
            if node.descriptors.len() == 0 {
                return None;
            }
            match parse_adb_interface_descriptors(node.descriptors.as_slice()) {
                Ok(_) => Some((bus, address)),
                Err(_) => None,
            }
        },
        _ => None,
    }
}

/// The ADB devices among some nodes, in their order.
pub fn adb_devices(nodes: &[UsbNode]) -> (r: Vec<(u8, u8)>)
    ensures
        r@ == adb_nodes_of(nodes@),
{
    let mut found: Vec<(u8, u8)> = Vec::new();
    let mut i: usize = 0;
    assert(nodes@.take(0) =~= Seq::empty());
    while i < nodes.len()
        invariant
            i <= nodes@.len(),
            found@ == adb_nodes_of(nodes@.take(i as int)),
        decreases nodes@.len() - i,
    {
        assert(nodes@.take(i + 1).drop_last() =~= nodes@.take(i as int));
        if let Some(n) = adb_device_at(&nodes[i]) {
            found.push(n);
        }
        i = i + 1;
    }
    assert(nodes@.take(i as int) =~= nodes@);
    found
}

/// The first candidate with a serial number.
pub fn candidate_by_serial(candidates: &[DeviceCandidate], serial: &str) -> (r: Option<usize>)
    ensures
        match r {
            Some(i) => i < candidates@.len() && has_serial(candidates@[i as int], serial@)
                && forall|j: int| 0 <= j < i ==> !has_serial(#[trigger] candidates@[j], serial@),
            None => forall|j: int|
                0 <= j < candidates@.len() ==> !has_serial(#[trigger] candidates@[j], serial@),
        },
{
    let mut i: usize = 0;
    while i < candidates.len()
        invariant
            i <= candidates@.len(),
            forall|j: int| 0 <= j < i ==> !has_serial(#[trigger] candidates@[j], serial@),
        decreases candidates@.len() - i,
    {
        if let Some(s) = &candidates[i].serial {
            if str_eq(s.as_str(), serial) {
                return Some(i);
            }
        }
        i = i + 1;
    }
    None
}

/// The device gave this serial number.
pub open spec fn has_serial(c: DeviceCandidate, serial: Seq<char>) -> bool {
    c.serial is Some && (c.serial->0)@ == serial
}

/// An entry of /sys/bus/usb/devices with the attributes that could be read.
#[derive(Clone, Debug)]
pub struct SysfsEntry {
    pub name: String,
    pub busnum: Option<String>,
    pub devnum: Option<String>,
    pub serial: Option<String>,
}

/// The entry is that of an interface or of a host controller.
pub open spec fn is_no_device(name: Seq<char>) -> bool {
    name.contains(':') || is_prefix("usb"@, name)
}

/// The serial number of a device by the entries: that of the first entry with its bus number
/// and address. An entry of a device without these numbers ends the search.
pub open spec fn serial_among(entries: Seq<SysfsEntry>, bus: u8, address: u8) -> Option<Seq<char>>
    decreases entries.len(),
{
    if entries.len() == 0 {
        None
    } else {
        let e = entries[0];
        if is_no_device(e.name@) {
            serial_among(entries.skip(1), bus, address)
        } else if e.busnum is None || e.devnum is None {
            None
        } else if (e.busnum->0)@ == dec(bus as nat) && (e.devnum->0)@ == dec(address as nat) {
            match e.serial {
                Some(s) => Some(s@),
                None => None,
            }
        } else {
            serial_among(entries.skip(1), bus, address)
        }
    }
}

fn contains_colon(s: &[char]) -> (r: bool)
    ensures
        r == s@.contains(':'),
{
    proof {
        lemma_find_from(s@, ':', 0);
    }
    match find_char(s, ':', 0) {
        Some(i) => {
            assert(s@[i as int] == ':');
            true
        },
        None => {
            assert(!s@.contains(':'));
            false
        },
    }
}

/// The serial number of a device by the entries of the sysfs.
pub fn read_serial(entries: &[SysfsEntry], bus: u8, address: u8) -> (r: Option<String>)
    ensures
        match r {
            Some(s) => serial_among(entries@, bus, address) == Some(s@),
            None => serial_among(entries@, bus, address) is None,
        },
{
    let bus_text = decimal(bus as u64);
    let address_text = decimal(address as u64);
    let mut i: usize = 0;
    assert(entries@.skip(0) =~= entries@);
    while i < entries.len()
        invariant
            i <= entries@.len(),
            bus_text@ == dec(bus as nat),
            address_text@ == dec(address as nat),
            serial_among(entries@.skip(i as int), bus, address) == serial_among(
                entries@,
                bus,
                address,
            ),
        decreases entries@.len() - i,
    {
        let e = &entries[i];
        assert(entries@.skip(i as int).skip(1) =~= entries@.skip(i + 1));
        assert(entries@.skip(i as int)[0] == *e);
        let name = chars_of(e.name.as_str());
        if contains_colon(name.as_slice()) || starts_with(name.as_slice(), "usb") {
            i = i + 1;
            continue ;
        }
        match (&e.busnum, &e.devnum) {
            (Some(b), Some(d)) => {
                if str_eq(b.as_str(), bus_text.as_str()) && str_eq(
                    d.as_str(),
                    address_text.as_str(),
                ) {
                    return match &e.serial {
                        Some(s) => Some(s.clone()),
                        None => None,
                    };
                }
            },
            _ => {
                return None;
            },
        }
        i = i + 1;
    }
    None
}

proof fn lemma_byte_digits(n: u8)
    ensures
        dec(n as nat).len() <= 3,
{
    if n >= 10 {
        assert(dec(n as nat) == dec(n as nat / 10).push(crate::text::digit_char(n as nat % 10)));
        if n >= 100 {
            let m = n as nat / 10;
            assert(dec(m) == dec(m / 10).push(crate::text::digit_char(m % 10)));
            assert(dec(m / 10).len() == 1);
        } else {
            assert(dec(n as nat / 10).len() == 1);
        }
    }
}

/// The numbers of a bus and of a device on it are written in three digits, and are read back from
/// the names of a device node.
pub proof fn node_numbers_are_read_back(n: u8)
    ensures
        three_digits(n).len() == 3,
        forall|i: int| 0 <= i < 3 ==> '0' <= #[trigger] three_digits(n)[i] <= '9',
        number_value(three_digits(n), 10) == n,
        unsigned_spec(three_digits(n), 10, 255) == Some(n as nat),
{
    number_round_trip(n as nat, 10);
    lemma_byte_digits(n);
    padding_keeps_the_value(dec(n as nat), 3, 10);
    let t = three_digits(n);
    assert forall|i: int| 0 <= i < 3 implies '0' <= #[trigger] t[i] <= '9' by {
        assert(digit_value(t[i]) < 10);
    }
    assert('0' <= t[0] <= '9');
}

/// A node whose names are the digits of two numbers and whose descriptors hold an ADB interface is
/// that device; without such an interface it is none.
pub proof fn nodes_are_devices(node: UsbNode, bus: u8, address: u8)
    requires
        node.bus_name@ == three_digits(bus),
        node.address_name@ == three_digits(address),
    ensures
        adb_node(node) == if node.descriptors@.len() > 0 && interface_from(
            node.descriptors@,
            0,
            None,
        ) is Ok {
            Some((bus, address))
        } else {
            None
        },
{
    node_numbers_are_read_back(bus);
    node_numbers_are_read_back(address);
}

/// Every node that is a device is listed, in the order of the nodes.
pub proof fn devices_are_listed_in_order(nodes: Seq<UsbNode>, x: UsbNode)
    ensures
        adb_nodes_of(Seq::empty()) == Seq::<(u8, u8)>::empty(),
        adb_nodes_of(nodes.push(x)) == adb_nodes_of(nodes) + match adb_node(x) {
            Some(n) => seq![n],
            None => Seq::empty(),
        },
{
    assert(nodes.push(x).drop_last() =~= nodes);
    assert(adb_nodes_of(nodes) + Seq::<(u8, u8)>::empty() =~= adb_nodes_of(nodes));
    if let Some(n) = adb_node(x) {
        assert(adb_nodes_of(nodes).push(n) =~= adb_nodes_of(nodes) + seq![n]);
    }
}

/// An entry of another device: one of an interface or a host controller, or one with other
/// numbers.
pub open spec fn is_other_entry(e: SysfsEntry, bus: u8, address: u8) -> bool {
    ||| e.name@.contains(':')
    ||| e.name@.len() >= 3 && e.name@.take(3) == "usb"@
    ||| e.busnum is Some && e.devnum is Some && !((e.busnum->0)@ == dec(bus as nat) && (
    e.devnum->0)@ == dec(address as nat))
}

/// The serial of a device is that of the first entry with its two numbers.
pub proof fn serial_is_that_of_the_numbers(
    a: Seq<SysfsEntry>,
    e: SysfsEntry,
    b: Seq<SysfsEntry>,
    bus: u8,
    address: u8,
)
    requires
        forall|i: int| 0 <= i < a.len() ==> is_other_entry(#[trigger] a[i], bus, address),
        !e.name@.contains(':'),
        e.name@.len() < 3 || e.name@.take(3) != "usb"@,
        e.busnum is Some && (e.busnum->0)@ == dec(bus as nat),
        e.devnum is Some && (e.devnum->0)@ == dec(address as nat),
    ensures
        serial_among(a + seq![e] + b, bus, address) == match e.serial {
            Some(s) => Some(s@),
            None => None,
        },
        serial_among(a, bus, address) is None,
    decreases a.len(),
{
    reveal_strlit("usb");
    let all = a + seq![e] + b;
    if a.len() == 0 {
        assert(all[0] == e);
        if e.name@.len() >= 3 {
            assert(e.name@.subrange(0, 3) =~= e.name@.take(3));
        }
    } else {
        let x = a[0];
        let left = a.skip(1);
        assert(is_other_entry(a[0], bus, address));
        if x.name@.len() >= 3 {
            assert(x.name@.subrange(0, 3) =~= x.name@.take(3));
        }
        assert(all[0] == x);
        assert(all.skip(1) =~= left + seq![e] + b);
        assert forall|i: int| 0 <= i < left.len() implies is_other_entry(
            #[trigger] left[i],
            bus,
            address,
        ) by {
            assert(left[i] == a[i + 1]);
        }
        serial_is_that_of_the_numbers(left, e, b, bus, address);
    }
}

/// An error of a transfer keeps its kind, as far as transfers have it; every other is told with
/// its message.
pub proof fn transfer_errors_keep_their_kind(kind: IoErrorKind, message: Seq<char>)
    ensures
        transfer_error(kind, message).kind() == match kind {
            IoErrorKind::PermissionDenied => IoErrorKind::PermissionDenied,
            IoErrorKind::TimedOut => IoErrorKind::TimedOut,
            IoErrorKind::WouldBlock => IoErrorKind::TimedOut,
            IoErrorKind::NotConnected => IoErrorKind::NotConnected,
            IoErrorKind::NotFound => IoErrorKind::NotFound,
            _ => IoErrorKind::Other,
        },
        transfer_error(kind, message).kind() == IoErrorKind::Other ==> transfer_error(kind, message)
            == UsbErrorModel::Io(message),
{
}

} // verus!
