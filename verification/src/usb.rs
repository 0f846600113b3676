//! ADB over USB: finding the ADB interface among a device's descriptors, and carrying ADB
//! messages over its bulk endpoints. The transfers themselves are made by an implementation
//! of [`UsbTransport`].

use crate::text::{dec, decimal, str_eq};
use crate::transport::{Fault, IoError, IoErrorKind, Transport, TransportError};
use vstd::prelude::*;

verus! {

pub const INTERFACE_DESCRIPTOR: u8 = 0x04;

pub const ENDPOINT_DESCRIPTOR: u8 = 0x05;

pub const BULK_TRANSFER_TYPE: u8 = 0x02;

pub const USB_DIRECTION_IN: u8 = 0x80;

pub const ADB_CLASS: u8 = 0xff;

pub const ADB_SUBCLASS: u8 = 0x42;

pub const ADB_PROTOCOL: u8 = 0x01;

pub const ADB_DBC_CLASS: u8 = 0xdc;

pub const ADB_DBC_SUBCLASS: u8 = 0x02;

/// The descriptor-derived values needed by a USB ADB adapter.
#[derive(Clone, Copy, Debug, Eq, PartialEq, Structural)]
pub struct UsbEndpointInfo {
    pub interface_number: u8,
    pub bulk_in_endpoint_address: u8,
    pub bulk_out_endpoint_address: u8,
    pub out_max_packet_size: u16,
}

/// What can go wrong with a USB device.
#[derive(Debug, Eq, PartialEq)]
pub enum UsbTransportError {
    MalformedDescriptor { offset: usize, reason: &'static str },
    NoAdbInterface,
    MissingBulkEndpoint { interface_number: u8, missing: &'static str },
    InconsistentPacketSize { interface_number: u8 },
    ZeroPacketSize { interface_number: u8 },
    Io(String),
    Disconnected,
    Timeout,
    PermissionDenied,
    NoDevice,
}

/// What a [`UsbTransportError`] says.
pub enum UsbErrorModel {
    MalformedDescriptor { offset: int, reason: Seq<char> },
    NoAdbInterface,
    MissingBulkEndpoint { interface_number: u8, missing: Seq<char> },
    InconsistentPacketSize { interface_number: u8 },
    ZeroPacketSize { interface_number: u8 },
    Io(Seq<char>),
    Disconnected,
    Timeout,
    PermissionDenied,
    NoDevice,
}

impl View for UsbTransportError {
    type V = UsbErrorModel;

    open spec fn view(&self) -> UsbErrorModel {
        match *self {
            UsbTransportError::MalformedDescriptor { offset, reason } =>
                UsbErrorModel::MalformedDescriptor { offset: offset as int, reason: reason@ },
            UsbTransportError::NoAdbInterface => UsbErrorModel::NoAdbInterface,
            UsbTransportError::MissingBulkEndpoint { interface_number, missing } =>
                UsbErrorModel::MissingBulkEndpoint { interface_number, missing: missing@ },
            UsbTransportError::InconsistentPacketSize { interface_number } =>
                UsbErrorModel::InconsistentPacketSize { interface_number },
            UsbTransportError::ZeroPacketSize { interface_number } =>
                UsbErrorModel::ZeroPacketSize { interface_number },
            UsbTransportError::Io(m) => UsbErrorModel::Io(m@),
            UsbTransportError::Disconnected => UsbErrorModel::Disconnected,
            UsbTransportError::Timeout => UsbErrorModel::Timeout,
            UsbTransportError::PermissionDenied => UsbErrorModel::PermissionDenied,
            UsbTransportError::NoDevice => UsbErrorModel::NoDevice,
        }
    }
}

impl UsbErrorModel {
    /// The text of the error.
    pub open spec fn text(self) -> Seq<char> {
        match self {
            UsbErrorModel::MalformedDescriptor { offset, reason } =>
                "malformed USB descriptor at offset "@ + dec(offset as nat) + ": "@ + reason,
            UsbErrorModel::NoAdbInterface => "ADB USB interface was not found"@,
            UsbErrorModel::MissingBulkEndpoint { interface_number, missing } => "ADB interface "@
                + dec(interface_number as nat) + " is missing a bulk "@ + missing + " endpoint"@,
            UsbErrorModel::InconsistentPacketSize { interface_number } => "ADB interface "@ + dec(
                interface_number as nat,
            ) + " has inconsistent bulk endpoint packet sizes"@,
            UsbErrorModel::ZeroPacketSize { interface_number } => "ADB interface "@ + dec(
                interface_number as nat,
            ) + " has a zero bulk endpoint packet size"@,
            UsbErrorModel::Io(m) => "USB transport I/O error: "@ + m,
            UsbErrorModel::Disconnected => "USB transport is disconnected"@,
            UsbErrorModel::Timeout => "USB transport operation timed out"@,
            UsbErrorModel::PermissionDenied => "USB transport permission denied"@,
            UsbErrorModel::NoDevice => "no USB device was found"@,
        }
    }

    /// The kind of failure that the error is to a reader or writer of the connection.
    pub open spec fn kind(self) -> IoErrorKind {
        match self {
            UsbErrorModel::Disconnected => IoErrorKind::NotConnected,
            UsbErrorModel::Timeout => IoErrorKind::TimedOut,
            UsbErrorModel::PermissionDenied => IoErrorKind::PermissionDenied,
            UsbErrorModel::NoDevice => IoErrorKind::NotFound,
            UsbErrorModel::Io(_) => IoErrorKind::Other,
            _ => IoErrorKind::InvalidData,
        }
    }
}

impl UsbTransportError {
    /// The text of the error.
    pub fn message(&self) -> (s: String)
        ensures
            s@ == self@.text(),
    {
        let mut s = String::new();
        match self {
            UsbTransportError::MalformedDescriptor { offset, reason } => {
                s.append("malformed USB descriptor at offset ");
                s.append(decimal(*offset as u64).as_str());
                s.append(": ");
                s.append(reason);
            },
            UsbTransportError::NoAdbInterface => {
                s.append("ADB USB interface was not found");
            },
            UsbTransportError::MissingBulkEndpoint { interface_number, missing } => {
                s.append("ADB interface ");
                s.append(decimal(*interface_number as u64).as_str());
                s.append(" is missing a bulk ");
                s.append(missing);
                s.append(" endpoint");
            },
            UsbTransportError::InconsistentPacketSize { interface_number } => {
                s.append("ADB interface ");
                s.append(decimal(*interface_number as u64).as_str());
                s.append(" has inconsistent bulk endpoint packet sizes");
            },
            UsbTransportError::ZeroPacketSize { interface_number } => {
                s.append("ADB interface ");
                s.append(decimal(*interface_number as u64).as_str());
                s.append(" has a zero bulk endpoint packet size");
            },
            UsbTransportError::Io(m) => {
                s.append("USB transport I/O error: ");
                s.append(m.as_str());
            },
            UsbTransportError::Disconnected => {
                s.append("USB transport is disconnected");
            },
            UsbTransportError::Timeout => {
                s.append("USB transport operation timed out");
            },
            UsbTransportError::PermissionDenied => {
                s.append("USB transport permission denied");
            },
            UsbTransportError::NoDevice => {
                s.append("no USB device was found");
            },
        }
        assert(s@ =~= self@.text());
        s
    }
}

/// An outcome with the error by its content.
pub open spec fn usb_outcome<T>(r: Result<T, UsbTransportError>) -> Result<T, UsbErrorModel> {
    match r {
        Ok(v) => Ok(v),
        Err(e) => Err(e@),
    }
}

/// The class, subclass and protocol of an ADB interface, over USB proper or over the debug
/// capability of a host controller.
pub open spec fn adb_interface(class: u8, subclass: u8, protocol: u8) -> bool {
    protocol == ADB_PROTOCOL && ((class == ADB_CLASS && subclass == ADB_SUBCLASS) || (class
        == ADB_DBC_CLASS && subclass == ADB_DBC_SUBCLASS))
}

/// Whether an interface of this class, subclass and protocol speaks ADB.
pub fn is_adb_interface(class: u8, subclass: u8, protocol: u8) -> (r: bool)
    ensures
        r == adb_interface(class, subclass, protocol),
{
    protocol == ADB_PROTOCOL && ((class == ADB_CLASS && subclass == ADB_SUBCLASS) || (class
        == ADB_DBC_CLASS && subclass == ADB_DBC_SUBCLASS))
}

/// An ADB interface and the bulk endpoints found for it so far, each with its packet size.
#[derive(Clone, Copy)]
pub struct InterfaceCandidate {
    pub number: u8,
    pub in_ep: Option<(u8, u16)>,
    pub out_ep: Option<(u8, u16)>,
    pub packet_size: Option<u16>,
}

impl InterfaceCandidate {
    /// Both directions were found.
    pub open spec fn is_complete(self) -> bool {
        self.in_ep is Some && self.out_ep is Some && self.packet_size is Some
    }

    /// What a complete candidate comes to.
    pub open spec fn info(self) -> UsbEndpointInfo {
        UsbEndpointInfo {
            interface_number: self.number,
            bulk_in_endpoint_address: (self.in_ep->0).0,
            bulk_out_endpoint_address: (self.out_ep->0).0,
            out_max_packet_size: (self.out_ep->0).1,
        }
    }

    /// The candidate of an interface of which no endpoint is known yet.
    pub open spec fn fresh(number: u8) -> InterfaceCandidate {
        InterfaceCandidate { number, in_ep: None, out_ep: None, packet_size: None }
    }
}

/// The candidate after one more endpoint. Only bulk endpoints count, they all have one packet
/// size, and the first of each direction stays.
pub open spec fn with_endpoint(
    c: InterfaceCandidate,
    address: u8,
    attributes: u8,
    size: u16,
) -> Result<InterfaceCandidate, UsbErrorModel> {
    if attributes & 3 != BULK_TRANSFER_TYPE {
        Ok(c)
    } else if size == 0 {
        Err(UsbErrorModel::ZeroPacketSize { interface_number: c.number })
    } else if c.packet_size is Some && c.packet_size->0 != size {
        Err(UsbErrorModel::InconsistentPacketSize { interface_number: c.number })
    } else {
        let input = address & USB_DIRECTION_IN != 0;
        Ok(
            InterfaceCandidate {
                number: c.number,
                in_ep: if input && c.in_ep is None {
                    Some((address, size))
                } else {
                    c.in_ep
                },
                out_ep: if !input && c.out_ep is None {
                    Some((address, size))
                } else {
                    c.out_ep
                },
                packet_size: Some(size),
            },
        )
    }
}

/// What a candidate is worth when no more endpoints follow.
pub open spec fn completed(c: InterfaceCandidate) -> Result<
    Option<UsbEndpointInfo>,
    UsbErrorModel,
> {
    if c.is_complete() {
        Ok(Some(c.info()))
    } else if c.in_ep is None {
        Err(UsbErrorModel::MissingBulkEndpoint { interface_number: c.number, missing: "IN"@ })
    } else if c.out_ep is None {
        Err(UsbErrorModel::MissingBulkEndpoint { interface_number: c.number, missing: "OUT"@ })
    } else {
        Ok(None)
    }
}

/// A little-endian pair of bytes.
pub open spec fn pair_value(low: u8, high: u8) -> u16 {
    (low + 256 * high) as u16
}

/// The ADB interface in a run of descriptors from `at` on, with what was found before it. The
/// first byte of a descriptor is its length, the second its type. An interface without both
/// bulk directions is passed over unless it is the last.
pub open spec fn interface_from(
    d: Seq<u8>,
    at: int,
    found: Option<InterfaceCandidate>,
) -> Result<UsbEndpointInfo, UsbErrorModel>
    decreases d.len() - at,
{
    if at < 0 || at >= d.len() {
        match found {
            Some(c) => match completed(c) {
                Ok(Some(info)) => Ok(info),
                Ok(None) => Err(UsbErrorModel::NoAdbInterface),
                Err(e) => Err(e),
            },
            None => Err(UsbErrorModel::NoAdbInterface),
        }
    } else if d.len() - at < 2 {
        Err(
            UsbErrorModel::MalformedDescriptor {
                offset: at,
                reason: "descriptor header is truncated"@,
            },
        )
    } else if d[at] < 2 || at + d[at] > d.len() {
        Err(
            UsbErrorModel::MalformedDescriptor {
                offset: at,
                reason: "invalid descriptor length"@,
            },
        )
    } else if d[at + 1] == INTERFACE_DESCRIPTOR {
        if d[at] < 9 {
            Err(
                UsbErrorModel::MalformedDescriptor {
                    offset: at,
                    reason: "interface descriptor is shorter than 9 bytes"@,
                },
            )
        } else if found is Some && found->0.is_complete() {
            Ok(found->0.info())
        } else if adb_interface(d[at + 5], d[at + 6], d[at + 7]) {
            interface_from(d, at + d[at], Some(InterfaceCandidate::fresh(d[at + 2])))
        } else {
            interface_from(d, at + d[at], None)
        }
    } else if d[at + 1] == ENDPOINT_DESCRIPTOR {
        if d[at] < 7 {
            Err(
                UsbErrorModel::MalformedDescriptor {
                    offset: at,
                    reason: "endpoint descriptor is shorter than 7 bytes"@,
                },
            )
        } else {
            match found {
                None => interface_from(d, at + d[at], None),
                Some(c) => match with_endpoint(
                    c,
                    d[at + 2],
                    d[at + 3],
                    pair_value(d[at + 4], d[at + 5]),
                ) {
                    Ok(next) => interface_from(d, at + d[at], Some(next)),
                    Err(e) => Err(e),
                },
            }
        }
    } else {
        interface_from(d, at + d[at], found)
    }
}

fn add_endpoint(c: InterfaceCandidate, address: u8, attributes: u8, size: u16) -> (r: Result<
    InterfaceCandidate,
    UsbTransportError,
>)
    ensures
        usb_outcome(r) == with_endpoint(c, address, attributes, size),
{
    if attributes & 0x03 != BULK_TRANSFER_TYPE {
        return Ok(c);
    }
    if size == 0 {
        return Err(UsbTransportError::ZeroPacketSize { interface_number: c.number });
    }
    if let Some(previous) = c.packet_size {
        if previous != size {
            return Err(UsbTransportError::InconsistentPacketSize { interface_number: c.number });
        }
    }
    let mut next = c;
    next.packet_size = Some(size);
    if address & USB_DIRECTION_IN != 0 {
        if next.in_ep.is_none() {
            next.in_ep = Some((address, size));
        }
    } else if next.out_ep.is_none() {
        next.out_ep = Some((address, size));
    }
    Ok(next)
}

/// What a candidate is worth when no more endpoints follow.
pub fn complete_endpoint_info(c: InterfaceCandidate) -> (r: Result<
    Option<UsbEndpointInfo>,
    UsbTransportError,
>)
    ensures
        usb_outcome(r) == completed(c),
{
    match (c.in_ep, c.out_ep, c.packet_size) {
        (Some(input), Some(output), Some(_)) => Ok(
            Some(
                UsbEndpointInfo {
                    interface_number: c.number,
                    bulk_in_endpoint_address: input.0,
                    bulk_out_endpoint_address: output.0,
                    out_max_packet_size: output.1,
                },
            ),
        ),
        (None, _, _) => Err(
            UsbTransportError::MissingBulkEndpoint { interface_number: c.number, missing: "IN" },
        ),
        (_, None, _) => Err(
            UsbTransportError::MissingBulkEndpoint { interface_number: c.number, missing: "OUT" },
        ),
        _ => Ok(None),
    }
}

/// Parses the raw descriptors of the active configuration and returns the first complete ADB
/// interface with bulk IN and OUT endpoints. Endpoint addresses and the interface number come
/// from the descriptors.
pub fn parse_adb_interface_descriptors(descriptors: &[u8]) -> (r: Result<
    UsbEndpointInfo,
    UsbTransportError,
>)
    ensures
        usb_outcome(r) == interface_from(descriptors@, 0, None),
{
    let mut offset: usize = 0;
    let mut candidate: Option<InterfaceCandidate> = None;
    while offset < descriptors.len()
        invariant
            offset <= descriptors@.len(),
            interface_from(descriptors@, offset as int, candidate) == interface_from(
                descriptors@,
                0,
                None,
            ),
        decreases descriptors@.len() - offset,
    {
        let room: usize = descriptors.len() - offset;
        if room < 2 {
            return Err(
                UsbTransportError::MalformedDescriptor {
                    offset,
                    reason: "descriptor header is truncated",
                },
            );
        }
        let length: usize = descriptors[offset] as usize;
        if length < 2 || length > room {
            return Err(
                UsbTransportError::MalformedDescriptor {
                    offset,
                    reason: "invalid descriptor length",
                },
            );
        }
        let kind: u8 = descriptors[offset + 1];
        if kind == INTERFACE_DESCRIPTOR {
            if length < 9 {
                return Err(
                    UsbTransportError::MalformedDescriptor {
                        offset,
                        reason: "interface descriptor is shorter than 9 bytes",
                    },
                );
            }
            if let Some(c) = candidate {
                if c.in_ep.is_some() && c.out_ep.is_some() && c.packet_size.is_some() {
                    match complete_endpoint_info(c)? {
                        Some(info) => {
                            return Ok(info);
                        },
                        None => {},
                    }
                }
            }
            candidate = None;
            if is_adb_interface(
                descriptors[offset + 5],
                descriptors[offset + 6],
                descriptors[offset + 7],
            ) {
                candidate = Some(
                    InterfaceCandidate {
                        number: descriptors[offset + 2],
                        in_ep: None,
                        out_ep: None,
                        packet_size: None,
                    },
                );
            }
        } else if kind == ENDPOINT_DESCRIPTOR {
            if length < 7 {
                return Err(
                    UsbTransportError::MalformedDescriptor {
                        offset,
                        reason: "endpoint descriptor is shorter than 7 bytes",
                    },
                );
            }
            if let Some(c) = candidate {
                let low: u8 = descriptors[offset + 4];
                let high: u8 = descriptors[offset + 5];
                let size: u16 = low as u16 + 256 * (high as u16);
                candidate = Some(
                    add_endpoint(c, descriptors[offset + 2], descriptors[offset + 3], size)?,
                );
            }
        }
        offset = offset + length;
    }
    if let Some(c) = candidate {
        if let Some(info) = complete_endpoint_info(c)? {
            return Ok(info);
        }
    }
    Err(UsbTransportError::NoAdbInterface)
}

/// What holds of a candidate at every point of a scan.
spec fn sound(c: InterfaceCandidate) -> bool {
    &&& c.in_ep matches Some(e) ==> e.0 & USB_DIRECTION_IN != 0 && c.packet_size == Some(e.1)
    &&& c.out_ep matches Some(e) ==> e.0 & USB_DIRECTION_IN == 0 && c.packet_size == Some(e.1)
    &&& c.packet_size matches Some(n) ==> n != 0
}

proof fn lemma_scan_is_sound(d: Seq<u8>, at: int, found: Option<InterfaceCandidate>)
    requires
        found matches Some(c) ==> sound(c),
    ensures
        interface_from(d, at, found) matches Ok(info) ==> info.bulk_in_endpoint_address
            & USB_DIRECTION_IN != 0 && info.bulk_out_endpoint_address & USB_DIRECTION_IN == 0
            && info.out_max_packet_size != 0,
    decreases d.len() - at,
{
    if 0 <= at < d.len() && d.len() - at >= 2 && d[at] >= 2 && at + d[at] <= d.len() {
        let next = at + d[at];
        if d[at + 1] == INTERFACE_DESCRIPTOR {
            lemma_scan_is_sound(d, next, Some(InterfaceCandidate::fresh(d[at + 2])));
            lemma_scan_is_sound(d, next, None);
        } else if d[at + 1] == ENDPOINT_DESCRIPTOR {
            match found {
                None => lemma_scan_is_sound(d, next, None),
                Some(c) => match with_endpoint(
                    c,
                    d[at + 2],
                    d[at + 3],
                    pair_value(d[at + 4], d[at + 5]),
                ) {
                    Ok(n) => lemma_scan_is_sound(d, next, Some(n)),
                    Err(_) => {},
                },
            }
        } else {
            lemma_scan_is_sound(d, next, found);
        }
    }
}

/// The endpoints of an interface that was found have the right directions, and a packet size
/// that is not zero.
pub proof fn found_interface_is_usable(d: Seq<u8>)
    ensures
        interface_from(d, 0, None) matches Ok(info) ==> info.bulk_in_endpoint_address
            & USB_DIRECTION_IN != 0 && info.bulk_out_endpoint_address & USB_DIRECTION_IN == 0
            && info.out_max_packet_size != 0,
{
    lemma_scan_is_sound(d, 0, None);
}

/// A transfer whose length is a positive multiple of the packet size ends with an empty packet.
pub open spec fn zlp_due(payload_len: int, out_max_packet_size: u16) -> bool {
    payload_len != 0 && out_max_packet_size != 0 && payload_len % (out_max_packet_size as int) == 0
}

/// Whether the writer must send an OUT zero-length packet.
pub fn should_send_zlp(payload_len: usize, out_max_packet_size: u16) -> (r: bool)
    ensures
        r == zlp_due(payload_len as int, out_max_packet_size),
{
    payload_len != 0 && out_max_packet_size != 0 && payload_len % (out_max_packet_size as usize)
        == 0
}

/// A bulk transfer to the device: what was to be sent, and how much of it the device took, or how
/// the transfer failed.
pub struct BulkWrite {
    pub endpoint: u8,
    pub data: Seq<u8>,
    pub taken: Result<nat, UsbErrorModel>,
}

/// An authorized ADB USB connection, whatever makes its transfers.
pub trait UsbTransport {
    /// The endpoints that the device's descriptors name.
    open spec fn endpoints(&self) -> UsbEndpointInfo {
        arbitrary()
    }

    /// The bytes that the device delivers from here on at an endpoint.
    open spec fn arriving(&self, endpoint: u8) -> Seq<u8> {
        arbitrary()
    }

    /// The transfers to the device so far.
    open spec fn transfers(&self) -> Seq<BulkWrite> {
        arbitrary()
    }

    /// How many reads failed, or came to nothing, so far.
    open spec fn read_faults(&self) -> nat {
        arbitrary()
    }

    fn endpoint_info(&self) -> (r: UsbEndpointInfo)
        ensures
            r == self.endpoints(),
    ;

    fn bulk_read(&mut self, endpoint: u8, buffer: &mut [u8]) -> (r: Result<
        usize,
        UsbTransportError,
    >)
        ensures
            final(buffer)@.len() == old(buffer)@.len(),
            final(self).transfers() == old(self).transfers(),
            match r {
                Ok(n) => n <= old(buffer)@.len() && old(self).arriving(endpoint) == final(buffer)@.take(n as int) + final(self).arriving(endpoint),
                Err(_) => final(self).arriving(endpoint) == old(self).arriving(endpoint),
            },
            final(self).read_faults() == old(self).read_faults() + match r {
                Ok(n) => if n == 0 && old(buffer)@.len() > 0 {
                    1nat
                } else {
                    0nat
                },
                Err(_) => 1nat,
            },
    ;

    fn bulk_write(&mut self, endpoint: u8, buffer: &[u8]) -> (r: Result<usize, UsbTransportError>)
        ensures
            forall|e: u8| final(self).arriving(e) == old(self).arriving(e),
            final(self).read_faults() == old(self).read_faults(),
            final(self).transfers() == old(self).transfers().push(
                BulkWrite {
                    endpoint,
                    data: buffer@,
                    taken: match r {
                        Ok(n) => Ok(n as nat),
                        Err(e) => Err(e@),
                    },
                },
            ),
    ;
}

/// The bytes that a device took at an endpoint over a run of transfers. A transfer that claims
/// more than it was given counts for nothing.
pub open spec fn taken_bytes(t: Seq<BulkWrite>, endpoint: u8) -> Seq<u8>
    decreases t.len(),
{
    if t.len() == 0 {
        Seq::empty()
    } else {
        let last = t.last();
        let before = taken_bytes(t.drop_last(), endpoint);
        if last.endpoint == endpoint && last.taken is Ok && last.taken->Ok_0 <= last.data.len() {
            before + last.data.take(last.taken->Ok_0 as int)
        } else {
            before
        }
    }
}

/// A transfer that failed, or was given bytes and moved none of them or claims more than these.
pub open spec fn is_faulty(w: BulkWrite) -> bool {
    match w.taken {
        Ok(n) => w.data.len() > 0 && (n == 0 || n > w.data.len()),
        Err(_) => true,
    }
}

/// How many transfers went wrong.
pub open spec fn faulty_transfers(t: Seq<BulkWrite>) -> nat
    decreases t.len(),
{
    if t.len() == 0 {
        0
    } else {
        faulty_transfers(t.drop_last()) + if is_faulty(t.last()) {
            1nat
        } else {
            0nat
        }
    }
}

/// Adapts a bulk-only USB backend to the regular ADB message transport.
///
/// The backend must already represent an authorized connection. This adapter only maps
/// descriptor-derived endpoints to reads and writes.
pub struct UsbTransportAdapter<T> {
    backend: T,
    endpoints: UsbEndpointInfo,
    pending_out_bytes: usize,
    last: Ghost<Fault>,
}

impl<T: UsbTransport> UsbTransportAdapter<T> {
    /// What makes the transfers.
    pub closed spec fn backend(&self) -> T {
        self.backend
    }

    /// The endpoints in use.
    pub closed spec fn info(&self) -> UsbEndpointInfo {
        self.endpoints
    }

    /// How many bytes were written since the last flush.
    pub closed spec fn pending(&self) -> usize {
        self.pending_out_bytes
    }

    /// How the last call failed of those that did.
    pub closed spec fn last(&self) -> Fault {
        self.last@
    }

    /// An adapter that uses the endpoints of the backend.
    pub fn new(backend: T) -> (r: UsbTransportAdapter<T>)
        ensures
            r.backend() == backend,
            r.info() == backend.endpoints(),
            r.pending() == 0,
    {
        let endpoints = backend.endpoint_info();
        UsbTransportAdapter { backend, endpoints, pending_out_bytes: 0, last: Ghost(arbitrary()) }
    }

    /// The endpoints in use.
    pub fn endpoint_info(&self) -> (r: UsbEndpointInfo)
        ensures
            r == self.info(),
    {
        self.endpoints
    }

    /// Gives the backend back.
    pub fn into_inner(self) -> (r: T)
        ensures
            r == self.backend(),
    {
        self.backend
    }

    /// Sends an empty packet if one is due after `len` bytes, and starts counting anew.
    fn end_transfer(&mut self, len: usize) -> (r: Result<(), IoError>)
        ensures
            final(self).info() == old(self).info(),
            forall|e: u8|
                final(self).backend().arriving(e) == #[trigger] old(self).backend().arriving(e),
            final(self).backend().read_faults() == old(self).backend().read_faults(),
            ended(
                r,
                old(self).backend().transfers(),
                final(self).backend().transfers(),
                old(self).info(),
                len as int,
            ),
            final(self).pending() == if r is Ok {
                0
            } else {
                old(self).pending()
            },
            final(self).last() == match r {
                Ok(()) => old(self).last(),
                Err(e) => Fault::Failed(e.kind),
            },
    {
        if should_send_zlp(len, self.endpoints.out_max_packet_size) {
            let empty: Vec<u8> = Vec::new();
            assert(empty@ =~= Seq::<u8>::empty());
            let ghost before = self.backend.transfers();
            let result = self.backend.bulk_write(
                self.endpoints.bulk_out_endpoint_address,
                empty.as_slice(),
            );
            assert(self.backend.transfers().drop_last() =~= before);
            match result {
                Ok(_) => {},
                Err(e) => {
                    let failure = usb_io_error(e);
                    self.last = Ghost(Fault::Failed(failure.kind));
                    return Err(failure);
                },
            }
        }
        self.pending_out_bytes = 0;
        Ok(())
    }
}

/// What ending a transfer of `len` bytes does: an empty packet if and only if one is due, and
/// failure if and only if that packet failed, told as the packet's own error.
pub open spec fn ended(
    r: Result<(), IoError>,
    before: Seq<BulkWrite>,
    after: Seq<BulkWrite>,
    info: UsbEndpointInfo,
    len: int,
) -> bool {
    if zlp_due(len, info.out_max_packet_size) {
        &&& after.len() == before.len() + 1
        &&& after.drop_last() == before
        &&& after.last().endpoint == info.bulk_out_endpoint_address
        &&& after.last().data == Seq::<u8>::empty()
        &&& match after.last().taken {
            Ok(_) => r is Ok,
            Err(u) => r matches Err(e) && e.kind == u.kind() && e.message@ == u.text(),
        }
    } else {
        after == before && r is Ok
    }
}

/// A USB error as a failure of the connection.
pub fn usb_io_error(error: UsbTransportError) -> (e: IoError)
    ensures
        e.kind == error@.kind(),
        e.message@ == error@.text(),
{
    let message = error.message();
    let kind = match error {
        UsbTransportError::Disconnected => IoErrorKind::NotConnected,
        UsbTransportError::Timeout => IoErrorKind::TimedOut,
        UsbTransportError::PermissionDenied => IoErrorKind::PermissionDenied,
        UsbTransportError::NoDevice => IoErrorKind::NotFound,
        UsbTransportError::Io(_) => IoErrorKind::Other,
        _ => IoErrorKind::InvalidData,
    };
    IoError { kind, message }
}

impl<T: UsbTransport> Transport for UsbTransportAdapter<T> {
    open spec fn incoming(&self) -> Seq<u8> {
        self.backend().arriving(self.info().bulk_in_endpoint_address)
    }

    open spec fn written(&self) -> Seq<u8> {
        taken_bytes(self.backend().transfers(), self.info().bulk_out_endpoint_address)
    }

    open spec fn faults(&self) -> nat {
        faulty_transfers(self.backend().transfers()) + self.backend().read_faults()
    }

    open spec fn last_fault(&self) -> Fault {
        self.last()
    }

    /// The bytes of a transfer that was not ended.
    open spec fn held_back(&self) -> nat {
        self.pending() as nat
    }

    fn read(&mut self, buffer: &mut [u8]) -> (r: Result<usize, IoError>)
        ensures
            final(self).info() == old(self).info(),
            final(self).pending() == old(self).pending(),
            old(buffer)@.len() == 0 ==> (r matches Ok(n) && n == 0),
    {
        if buffer.len() == 0 {
            assert(buffer@.take(0) + self.incoming() =~= self.incoming());
            return Ok(0);
        }
        let result = self.backend.bulk_read(self.endpoints.bulk_in_endpoint_address, buffer);
        assert(self.held_back() == old(self).held_back());
        match result {
            Ok(n) => {
                if n == 0 {
                    self.last = Ghost(Fault::Ended);
                }
                Ok(n)
            },
            Err(e) => {
                let failure = usb_io_error(e);
                self.last = Ghost(Fault::Failed(failure.kind));
                Err(failure)
            },
        }
    }

    fn write(&mut self, buffer: &[u8]) -> (r: Result<usize, IoError>)
        ensures
            final(self).info() == old(self).info(),
            buffer@.len() == 0 ==> (r matches Ok(n) && n == 0) && final(self).backend() == old(self).backend() && final(self).pending() == old(self).pending(),
            buffer@.len() > 0 ==> {
                let t = final(self).backend().transfers();
                &&& t.len() == old(self).backend().transfers().len() + 1
                &&& t.drop_last() == old(self).backend().transfers()
                &&& t.last().endpoint == old(self).info().bulk_out_endpoint_address
                &&& t.last().data == buffer@
                &&& match t.last().taken {
                    Ok(n) => if n <= buffer@.len() {
                        r matches Ok(k) && k == n
                    } else {
                        r matches Err(e) && e.kind == IoErrorKind::InvalidData
                    },
                    Err(u) => r matches Err(e) && e.kind == u.kind() && e.message@ == u.text(),
                }
                &&& final(self).pending() == match r {
                    Ok(n) => if old(self).pending() + n > usize::MAX {
                        usize::MAX
                    } else {
                        (old(self).pending() + n) as usize
                    },
                    Err(_) => old(self).pending(),
                }
            },
    {
        if buffer.len() == 0 {
            assert(buffer@.take(0) =~= Seq::<u8>::empty());
            assert(self.written() + buffer@.take(0) =~= self.written());
            return Ok(0);
        }
        let ghost before = self.backend.transfers();
        let result = self.backend.bulk_write(self.endpoints.bulk_out_endpoint_address, buffer);
        assert(self.backend.transfers().drop_last() =~= before);
        assert(self.held_back() == old(self).held_back());
        match result {
            Ok(n) => {
                if n > buffer.len() {
                    self.last = Ghost(Fault::Failed(IoErrorKind::InvalidData));
                    return Err(
                        IoError::new(
                            IoErrorKind::InvalidData,
                            "USB bulk_write returned more bytes than requested",
                        ),
                    );
                }
                if n == 0 {
                    self.last = Ghost(Fault::Stuck);
                }
                self.pending_out_bytes = self.pending_out_bytes.saturating_add(n);
                Ok(n)
            },
            Err(e) => {
                let failure = usb_io_error(e);
                self.last = Ghost(Fault::Failed(failure.kind));
                Err(failure)
            },
        }
    }

    fn flush(&mut self) -> (r: Result<(), IoError>)
        ensures
            final(self).info() == old(self).info(),
            ended(
                r,
                old(self).backend().transfers(),
                final(self).backend().transfers(),
                old(self).info(),
                old(self).pending() as int,
            ),
            final(self).pending() == if r is Ok {
                0
            } else {
                old(self).pending()
            },
    {
        let len: usize = self.pending_out_bytes;
        let r = self.end_transfer(len);
        assert(self.written() =~= old(self).written());
        r
    }

    /// The decision on an empty packet goes by the payload only: the header of a message is a
    /// transfer of its own.
    fn flush_payload(&mut self, payload_len: usize) -> (r: Result<(), TransportError>)
        ensures
            final(self).info() == old(self).info(),
            ended(
                match r {
                    Err(TransportError::Io(e)) => Err(e),
                    _ => Ok(()),
                },
                old(self).backend().transfers(),
                final(self).backend().transfers(),
                old(self).info(),
                payload_len as int,
            ),
            final(self).pending() == if r is Ok {
                0
            } else {
                old(self).pending()
            },
    {
        let r = self.end_transfer(payload_len);
        assert(self.written() =~= old(self).written());
        match r {
            Ok(()) => Ok(()),
            Err(e) => Err(TransportError::Io(e)),
        }
    }
}

/// A real ADB USB device that was discovered. `serial` is `None` when the string descriptor
/// cannot be read; it is never synthesized from the bus address.
#[derive(Clone, Debug, Eq, PartialEq)]
pub struct RusbAdbCandidate {
    pub serial: Option<String>,
    pub bus_number: u8,
    pub address: u8,
}

impl RusbAdbCandidate {
    /// Where the device sits.
    pub fn bus_address(&self) -> (r: (u8, u8))
        ensures
            r == (self.bus_number, self.address),
    {
        (self.bus_number, self.address)
    }
}

/// What can go wrong with finding and opening a device through libusb. What libusb itself
/// reports is kept as its text.
#[derive(Debug)]
pub enum RusbUsbTransportError {
    Init(String),
    NoDevice,
    PermissionDenied,
    Descriptor(UsbTransportError),
    Io(String),
    NoMatchingDevice { selector: String },
    AmbiguousDevice { selector: String },
}

impl RusbUsbTransportError {
    /// The text of the error.
    pub open spec fn text(self) -> Seq<char> {
        match self {
            RusbUsbTransportError::Init(m) => "libusb initialization failed: "@ + m@,
            RusbUsbTransportError::NoDevice => "no ADB USB device was found"@,
            RusbUsbTransportError::PermissionDenied => "libusb device access denied"@,
            RusbUsbTransportError::Descriptor(e) => "ADB USB descriptor error: "@ + e@.text(),
            RusbUsbTransportError::Io(m) => "libusb I/O error: "@ + m@,
            RusbUsbTransportError::NoMatchingDevice { selector } =>
                "no ADB USB device matched selector "@ + selector@,
            RusbUsbTransportError::AmbiguousDevice { selector } =>
                "multiple ADB USB devices matched selector "@ + selector@,
        }
    }

    /// The text of the error.
    pub fn message(&self) -> (s: String)
        ensures
            s@ == self.text(),
    {
        let mut s = String::new();
        match self {
            RusbUsbTransportError::Init(m) => {
                s.append("libusb initialization failed: ");
                s.append(m.as_str());
            },
            RusbUsbTransportError::NoDevice => {
                s.append("no ADB USB device was found");
            },
            RusbUsbTransportError::PermissionDenied => {
                s.append("libusb device access denied");
            },
            RusbUsbTransportError::Descriptor(e) => {
                s.append("ADB USB descriptor error: ");
                s.append(e.message().as_str());
            },
            RusbUsbTransportError::Io(m) => {
                s.append("libusb I/O error: ");
                s.append(m.as_str());
            },
            RusbUsbTransportError::NoMatchingDevice { selector } => {
                s.append("no ADB USB device matched selector ");
                s.append(selector.as_str());
            },
            RusbUsbTransportError::AmbiguousDevice { selector } => {
                s.append("multiple ADB USB devices matched selector ");
                s.append(selector.as_str());
            },
        }
        assert(s@ =~= self.text());
        s
    }
}

/// Which device is meant.
pub enum RusbAdbSelector<'a> {
    Serial(&'a str),
    BusAddress { bus_number: u8, address: u8 },
}

impl<'a> RusbAdbSelector<'a> {
    /// The selector as text.
    pub open spec fn text(self) -> Seq<char> {
        match self {
            RusbAdbSelector::Serial(serial) => "serial="@ + serial@,
            RusbAdbSelector::BusAddress { bus_number, address } => "bus-address="@ + dec(
                bus_number as nat,
            ) + "-"@ + dec(address as nat),
        }
    }

    /// The selector means this device.
    pub open spec fn selects(self, c: RusbAdbCandidate) -> bool {
        match self {
            RusbAdbSelector::Serial(serial) => c.serial is Some && (c.serial->0)@ == serial@,
            RusbAdbSelector::BusAddress { bus_number, address } => c.bus_number == bus_number
                && c.address == address,
        }
    }

    /// The selector as text.
    pub fn label(&self) -> (s: String)
        ensures
            s@ == self.text(),
    {
        let mut s = String::new();
        match self {
            RusbAdbSelector::Serial(serial) => {
                s.append("serial=");
                s.append(serial);
            },
            RusbAdbSelector::BusAddress { bus_number, address } => {
                s.append("bus-address=");
                s.append(decimal(*bus_number as u64).as_str());
                s.append("-");
                s.append(decimal(*address as u64).as_str());
            },
        }
        assert(s@ =~= self.text());
        s
    }

    /// Whether the selector means this device.
    pub fn matches_candidate(&self, candidate: &RusbAdbCandidate) -> (r: bool)
        ensures
            r == self.selects(*candidate),
    {
        match self {
            RusbAdbSelector::Serial(serial) => match &candidate.serial {
                Some(s) => str_eq(s.as_str(), serial),
                None => false,
            },
            RusbAdbSelector::BusAddress { bus_number, address } => candidate.bus_number
                == *bus_number && candidate.address == *address,
        }
    }
}

/// The one device that a selector means.
pub fn select_adb_candidate<'a>(
    candidates: &'a [RusbAdbCandidate],
    selector: RusbAdbSelector<'_>,
) -> (r: Result<&'a RusbAdbCandidate, RusbUsbTransportError>)
    ensures
        match r {
            Ok(c) => exists|i: int|
                0 <= i < candidates@.len() && #[trigger] candidates@[i] == *c && selector.selects(*c)
                    && forall|j: int|
                    0 <= j < candidates@.len() && j != i ==> !selector.selects(
                        #[trigger] candidates@[j],
                    ),
            Err(RusbUsbTransportError::NoMatchingDevice { selector: s }) => s@ == selector.text()
                && forall|j: int|
                0 <= j < candidates@.len() ==> !selector.selects(#[trigger] candidates@[j]),
            Err(RusbUsbTransportError::AmbiguousDevice { selector: s }) => s@ == selector.text()
                && exists|i: int, j: int|
                0 <= i < j < candidates@.len() && selector.selects(#[trigger] candidates@[i])
                    && selector.selects(#[trigger] candidates@[j]),
            Err(_) => false,
        },
{
    let mut found: Option<usize> = None;
    let mut i: usize = 0;
    while i < candidates.len()
        invariant
            i <= candidates@.len(),
            match found {
                Some(k) => k < i && selector.selects(candidates@[k as int]) && forall|j: int|
                    0 <= j < i && j != k ==> !selector.selects(#[trigger] candidates@[j]),
                None => forall|j: int|
                    0 <= j < i ==> !selector.selects(#[trigger] candidates@[j]),
            },
        decreases candidates@.len() - i,
    {
        if selector.matches_candidate(&candidates[i]) {
            match found {
                Some(k) => {
                    assert(k < i && selector.selects(candidates@[k as int]) && selector.selects(
                        candidates@[i as int],
                    ));
                    return Err(
                        RusbUsbTransportError::AmbiguousDevice { selector: selector.label() },
                    );
                },
                None => {
                    found = Some(i);
                },
            }
        }
        i = i + 1;
    }
    match found {
        Some(k) => Ok(&candidates[k]),
        None => Err(RusbUsbTransportError::NoMatchingDevice { selector: selector.label() }),
    }
}

/// An endpoint as libusb describes it.
#[derive(Clone, Copy, Debug, PartialEq, Eq, Structural)]
pub struct EndpointDescriptor {
    pub address: u8,
    pub is_bulk: bool,
    pub is_input: bool,
    pub max_packet_size: u16,
}

/// One setting of an interface as libusb describes it.
#[derive(Clone, Debug)]
pub struct InterfaceDescriptor {
    pub interface_number: u8,
    pub class_code: u8,
    pub sub_class_code: u8,
    pub protocol_code: u8,
    pub endpoints: Vec<EndpointDescriptor>,
}

impl InterfaceDescriptor {
    /// The setting is one of an ADB interface.
    pub open spec fn speaks_adb(self) -> bool {
        adb_interface(self.class_code, self.sub_class_code, self.protocol_code)
    }
}

/// An interface of a configuration with its settings.
#[derive(Clone, Debug)]
pub struct UsbInterface {
    pub number: u8,
    pub descriptors: Vec<InterfaceDescriptor>,
}

/// The first setting in a list that speaks ADB.
pub open spec fn adb_setting(d: Seq<InterfaceDescriptor>) -> Option<InterfaceDescriptor>
    decreases d.len(),
{
    if d.len() == 0 {
        None
    } else if d[0].speaks_adb() {
        Some(d[0])
    } else {
        adb_setting(d.skip(1))
    }
}

/// The number of the first interface that speaks ADB.
pub open spec fn adb_number(interfaces: Seq<UsbInterface>) -> Option<u8>
    decreases interfaces.len(),
{
    if interfaces.len() == 0 {
        None
    } else {
        match adb_setting(interfaces[0].descriptors@) {
            Some(d) => Some(d.interface_number),
            None => adb_number(interfaces.skip(1)),
        }
    }
}

/// The first interface with a number.
pub open spec fn numbered(interfaces: Seq<UsbInterface>, number: u8) -> Option<UsbInterface>
    decreases interfaces.len(),
{
    if interfaces.len() == 0 {
        None
    } else if interfaces[0].number == number {
        Some(interfaces[0])
    } else {
        numbered(interfaces.skip(1), number)
    }
}

/// The last bulk endpoint of a direction, by its address and packet size.
pub open spec fn last_bulk(e: Seq<EndpointDescriptor>, input: bool) -> Option<(u8, u16)>
    decreases e.len(),
{
    if e.len() == 0 {
        None
    } else if e.last().is_bulk && e.last().is_input == input {
        Some((e.last().address, e.last().max_packet_size))
    } else {
        last_bulk(e.drop_last(), input)
    }
}

/// The endpoints to use of an interface that has these.
pub open spec fn endpoints_of(number: u8, e: Seq<EndpointDescriptor>) -> Result<
    UsbEndpointInfo,
    UsbErrorModel,
> {
    match (last_bulk(e, true), last_bulk(e, false)) {
        (None, _) => Err(
            UsbErrorModel::MissingBulkEndpoint { interface_number: number, missing: "IN"@ },
        ),
        (_, None) => Err(
            UsbErrorModel::MissingBulkEndpoint { interface_number: number, missing: "OUT"@ },
        ),
        (Some(i), Some(o)) => if i.1 == 0 || o.1 == 0 {
            Err(UsbErrorModel::ZeroPacketSize { interface_number: number })
        } else if i.1 != o.1 {
            Err(UsbErrorModel::InconsistentPacketSize { interface_number: number })
        } else {
            Ok(
                UsbEndpointInfo {
                    interface_number: number,
                    bulk_in_endpoint_address: i.0,
                    bulk_out_endpoint_address: o.0,
                    out_max_packet_size: o.1,
                },
            )
        },
    }
}

/// The endpoints to use of the interface with a number.
pub open spec fn described_endpoints(interfaces: Seq<UsbInterface>, number: u8) -> Result<
    UsbEndpointInfo,
    UsbErrorModel,
> {
    match numbered(interfaces, number) {
        None => Err(UsbErrorModel::NoAdbInterface),
        Some(i) => match adb_setting(i.descriptors@) {
            None => Err(UsbErrorModel::NoAdbInterface),
            Some(d) => endpoints_of(number, d.endpoints@),
        },
    }
}

fn find_adb_setting(d: &Vec<InterfaceDescriptor>) -> (r: Option<&InterfaceDescriptor>)
    ensures
        match r {
            Some(x) => adb_setting(d@) == Some(*x),
            None => adb_setting(d@) is None,
        },
{
    let mut i: usize = 0;
    assert(d@.skip(0) =~= d@);
    while i < d.len()
        invariant
            i <= d@.len(),
            adb_setting(d@.skip(i as int)) == adb_setting(d@),
        decreases d@.len() - i,
    {
        if is_adb_interface(d[i].class_code, d[i].sub_class_code, d[i].protocol_code) {
            return Some(&d[i]);
        }
        assert(d@.skip(i as int).skip(1) =~= d@.skip(i + 1));
        i = i + 1;
    }
    None
}

/// The number of the first interface of a configuration that speaks ADB.
pub fn adb_interface_number(interfaces: &[UsbInterface]) -> (r: Option<u8>)
    ensures
        r == adb_number(interfaces@),
{
    let mut i: usize = 0;
    assert(interfaces@.skip(0) =~= interfaces@);
    while i < interfaces.len()
        invariant
            i <= interfaces@.len(),
            adb_number(interfaces@.skip(i as int)) == adb_number(interfaces@),
        decreases interfaces@.len() - i,
    {
        if let Some(d) = find_adb_setting(&interfaces[i].descriptors) {
            return Some(d.interface_number);
        }
        assert(interfaces@.skip(i as int).skip(1) =~= interfaces@.skip(i + 1));
        i = i + 1;
    }
    None
}

fn find_numbered(interfaces: &[UsbInterface], number: u8) -> (r: Option<&UsbInterface>)
    ensures
        match r {
            Some(x) => numbered(interfaces@, number) == Some(*x),
            None => numbered(interfaces@, number) is None,
        },
{
    let mut i: usize = 0;
    assert(interfaces@.skip(0) =~= interfaces@);
    while i < interfaces.len()
        invariant
            i <= interfaces@.len(),
            numbered(interfaces@.skip(i as int), number) == numbered(interfaces@, number),
        decreases interfaces@.len() - i,
    {
        if interfaces[i].number == number {
            return Some(&interfaces[i]);
        }
        assert(interfaces@.skip(i as int).skip(1) =~= interfaces@.skip(i + 1));
        i = i + 1;
    }
    None
}

/// The bulk endpoints of the ADB interface with a number.
pub fn descriptor_info(interfaces: &[UsbInterface], interface_number: u8) -> (r: Result<
    UsbEndpointInfo,
    UsbTransportError,
>)
    ensures
        usb_outcome(r) == described_endpoints(interfaces@, interface_number),
{
    let interface = match find_numbered(interfaces, interface_number) {
        Some(i) => i,
        None => {
            return Err(UsbTransportError::NoAdbInterface);
        },
    };
    let descriptor = match find_adb_setting(&interface.descriptors) {
        Some(d) => d,
        None => {
            return Err(UsbTransportError::NoAdbInterface);
        },
    };
    let mut bulk_in: Option<(u8, u16)> = None;
    let mut bulk_out: Option<(u8, u16)> = None;
    let endpoints = &descriptor.endpoints;
    let mut i: usize = 0;
    assert(endpoints@.take(0) =~= Seq::empty());
    while i < endpoints.len()
        invariant
            i <= endpoints@.len(),
            bulk_in == last_bulk(endpoints@.take(i as int), true),
            bulk_out == last_bulk(endpoints@.take(i as int), false),
        decreases endpoints@.len() - i,
    {
        let e = endpoints[i];
        assert(endpoints@.take(i + 1).drop_last() =~= endpoints@.take(i as int));
        if e.is_bulk {
            if e.is_input {
                bulk_in = Some((e.address, e.max_packet_size));
            } else {
                bulk_out = Some((e.address, e.max_packet_size));
            }
        }
        i = i + 1;
    }
    assert(endpoints@.take(i as int) =~= endpoints@);
    match (bulk_in, bulk_out) {
        (None, _) => Err(
            UsbTransportError::MissingBulkEndpoint { interface_number, missing: "IN" },
        ),
        (_, None) => Err(
            UsbTransportError::MissingBulkEndpoint { interface_number, missing: "OUT" },
        ),
        (Some(input), Some(output)) => {
            if input.1 == 0 || output.1 == 0 {
                return Err(UsbTransportError::ZeroPacketSize { interface_number });
            }
            if input.1 != output.1 {
                return Err(UsbTransportError::InconsistentPacketSize { interface_number });
            }
            Ok(
                UsbEndpointInfo {
                    interface_number,
                    bulk_in_endpoint_address: input.0,
                    bulk_out_endpoint_address: output.0,
                    out_max_packet_size: output.1,
                },
            )
        },
    }
}

/// The error to give when no device could be opened.
pub fn no_device_opened(selector: Option<&RusbAdbSelector<'_>>, saw_access_denied: bool) -> (r:
    RusbUsbTransportError)
    ensures
        match selector {
            Some(s) => r matches RusbUsbTransportError::NoMatchingDevice { selector: t } && t@
                == s.text(),
            None => if saw_access_denied {
                r is PermissionDenied
            } else {
                r is NoDevice
            },
        },
{
    match selector {
        Some(s) => RusbUsbTransportError::NoMatchingDevice { selector: s.label() },
        None => if saw_access_denied {
            RusbUsbTransportError::PermissionDenied
        } else {
            RusbUsbTransportError::NoDevice
        },
    }
}

/// A descriptor of a device.
pub enum Described {
    /// An interface: its number, the setting, the count of its endpoints, its class, subclass and
    /// protocol, and the index of its name.
    Interface { number: u8, setting: u8, count: u8, class: u8, subclass: u8, protocol: u8, name: u8 },
    /// An endpoint: its address, its attributes, the size of its packets and its interval.
    Endpoint { address: u8, attributes: u8, low: u8, high: u8, interval: u8 },
    /// Anything else: its kind and what it holds.
    Other { kind: u8, body: Seq<u8> },
}

/// A descriptor as bytes: its length, its kind and what it holds.
pub open spec fn described_bytes(x: Described) -> Seq<u8> {
    match x {
        Described::Interface { number, setting, count, class, subclass, protocol, name } => seq![
            9u8,
            4,
            number,
            setting,
            count,
            class,
            subclass,
            protocol,
            name,
        ],
        Described::Endpoint { address, attributes, low, high, interval } => seq![
            7u8,
            5,
            address,
            attributes,
            low,
            high,
            interval,
        ],
        Described::Other { kind, body } => seq![(2 + body.len()) as u8, kind] + body,
    }
}

/// A descriptor that says nothing of ADB.
pub open spec fn is_foreign(x: Described) -> bool {
    match x {
        Described::Interface { class, subclass, protocol, .. } => !(protocol == 1 && (class == 0xff
            && subclass == 0x42 || class == 0xdc && subclass == 2)),
        Described::Endpoint { .. } => true,
        Described::Other { kind, body } => kind != 4 && kind != 5 && body.len() <= 253,
    }
}

/// Descriptors one behind the other.
pub open spec fn all_described(xs: Seq<Described>) -> Seq<u8>
    decreases xs.len(),
{
    if xs.len() == 0 {
        Seq::empty()
    } else {
        described_bytes(xs[0]) + all_described(xs.skip(1))
    }
}

proof fn lemma_foreign(before: Seq<u8>, xs: Seq<Described>, rest: Seq<u8>)
    requires
        forall|i: int| 0 <= i < xs.len() ==> is_foreign(#[trigger] xs[i]),
    ensures
        interface_from(before + all_described(xs) + rest, before.len() as int, None)
            == interface_from(
            before + all_described(xs) + rest,
            (before + all_described(xs)).len() as int,
            None,
        ),
    decreases xs.len(),
{
    let d = before + all_described(xs) + rest;
    if xs.len() > 0 {
        let x = xs[0];
        let w = described_bytes(x);
        let left = xs.skip(1);
        assert(is_foreign(xs[0]));
        assert forall|i: int| 0 <= i < left.len() implies is_foreign(#[trigger] left[i]) by {
            assert(left[i] == xs[i + 1]);
        }
        lemma_foreign(before + w, left, rest);
        assert((before + w) + all_described(left) =~= before + all_described(xs));
        let at = before.len() as int;
        assert(forall|k: int| 0 <= k < w.len() ==> d[at + k] == w[k]) by {
            assert(d =~= before + (w + (all_described(left) + rest)));
        }
        assert(d[at + 0] == w[0] && d[at + 1] == w[1]);
        assert(d.len() >= at + w.len());
        match x {
            Described::Interface { class, subclass, protocol, .. } => {
                assert(d[at + 5] == w[5] && d[at + 6] == w[6] && d[at + 7] == w[7]);
            },
            _ => {},
        }
        assert(interface_from(d, at, None) == interface_from(d, at + w.len(), None));
    } else {
        assert(before + all_described(xs) =~= before);
    }
}

/// Among the descriptors of a device the interface that speaks ADB is found, with its number, its
/// two bulk endpoints whichever comes first, and the size of their packets; what stands before it
/// and what comes with the next interface do not matter.
pub proof fn described_interface_is_found(
    before: Seq<Described>,
    number: u8,
    setting: u8,
    count: u8,
    name: u8,
    input: u8,
    output: u8,
    attributes: (u8, u8),
    low: u8,
    high: u8,
    interval: u8,
    input_first: bool,
    dbc: bool,
    next: Option<Described>,
    rest: Seq<u8>,
)
    requires
        forall|i: int| 0 <= i < before.len() ==> is_foreign(#[trigger] before[i]),
        input & 0x80 != 0,
        output & 0x80 == 0,
        attributes.0 & 3 == 2,
        attributes.1 & 3 == 2,
        low != 0 || high != 0,
        next matches Some(x) ==> x is Interface,
        next is None ==> rest.len() == 0,
    ensures
        ({
            let adb = Described::Interface {
                number,
                setting,
                count,
                class: if dbc {
                    0xdc
                } else {
                    0xff
                },
                subclass: if dbc {
                    2
                } else {
                    0x42
                },
                protocol: 1,
                name,
            };
            let first = Described::Endpoint {
                address: if input_first {
                    input
                } else {
                    output
                },
                attributes: attributes.0,
                low,
                high,
                interval,
            };
            let second = Described::Endpoint {
                address: if input_first {
                    output
                } else {
                    input
                },
                attributes: attributes.1,
                low,
                high,
                interval,
            };
            let more = match next {
                Some(x) => described_bytes(x),
                None => Seq::empty(),
            };
            interface_from(
                all_described(before) + (described_bytes(adb) + described_bytes(first)
                    + described_bytes(second) + more + rest),
                0,
                None,
            ) == Ok::<UsbEndpointInfo, UsbErrorModel>(
                UsbEndpointInfo {
                    interface_number: number,
                    bulk_in_endpoint_address: input,
                    bulk_out_endpoint_address: output,
                    out_max_packet_size: (low + 256 * high) as u16,
                },
            )
        }),
{
    let adb = Described::Interface {
        number,
        setting,
        count,
        class: if dbc {
            0xdc
        } else {
            0xff
        },
        subclass: if dbc {
            2
        } else {
            0x42
        },
        protocol: 1,
        name,
    };
    let a = described_bytes(adb);
    let first_address = if input_first {
        input
    } else {
        output
    };
    let second_address = if input_first {
        output
    } else {
        input
    };
    let b = described_bytes(
        Described::Endpoint {
            address: first_address,
            attributes: attributes.0,
            low,
            high,
            interval,
        },
    );
    let c = described_bytes(
        Described::Endpoint {
            address: second_address,
            attributes: attributes.1,
            low,
            high,
            interval,
        },
    );
    let more = match next {
        Some(x) => described_bytes(x),
        None => Seq::empty(),
    };
    let tail = a + b + c + more + rest;
    let head = all_described(before);
    let d = head + tail;
    let none = Seq::<u8>::empty();
    lemma_foreign(none, before, tail);
    assert(none + head =~= head);
    let at = head.len() as int;
    assert(interface_from(d, 0, None) == interface_from(d, at, None));
    assert(forall|k: int| 0 <= k < tail.len() ==> d[at + k] == tail[k]);
    assert(tail[0] == 9 && tail[1] == 4 && tail[2] == number && tail[5] == a[5] && tail[6] == a[6]
        && tail[7] == 1);
    assert(tail[9] == 7 && tail[10] == 5 && tail[11] == first_address && tail[12] == attributes.0
        && tail[13] == low && tail[14] == high);
    assert(tail[16] == 7 && tail[17] == 5 && tail[18] == second_address && tail[19] == attributes.1
        && tail[20] == low && tail[21] == high);
    let size = pair_value(low, high);
    assert(size != 0);
    let fresh = InterfaceCandidate::fresh(number);
    assert(d[at + 0] == tail[0] && d[at + 1] == tail[1] && d[at + 2] == tail[2] && d[at + 5]
        == tail[5] && d[at + 6] == tail[6] && d[at + 7] == tail[7]);
    assert(interface_from(d, at, None) == interface_from(d, at + 9, Some(fresh)));
    assert(d[at + 9] == tail[9] && d[at + 10] == tail[10] && d[at + 11] == tail[11] && d[at + 12]
        == tail[12] && d[at + 13] == tail[13] && d[at + 14] == tail[14]);
    let one = with_endpoint(fresh, first_address, attributes.0, size);
    assert(one is Ok);
    assert(interface_from(d, at + 9, Some(fresh)) == interface_from(d, at + 16, Some(one->Ok_0)));
    assert(d[at + 16] == tail[16] && d[at + 17] == tail[17] && d[at + 18] == tail[18] && d[at + 19]
        == tail[19] && d[at + 20] == tail[20] && d[at + 21] == tail[21]);
    let two = with_endpoint(one->Ok_0, second_address, attributes.1, size);
    assert(two is Ok);
    assert(interface_from(d, at + 16, Some(one->Ok_0)) == interface_from(
        d,
        at + 23,
        Some(two->Ok_0),
    ));
    assert(two->Ok_0.is_complete());
    if next is Some {
        assert(d[at + 23] == tail[23] && d[at + 24] == tail[24]);
        assert(tail[23] == 9 && tail[24] == 4);
    } else {
        assert(d.len() == at + 23);
    }
}

/// A transfer is ended by an empty packet exactly where it fills its last packet.
pub proof fn full_packets_need_an_end(k: nat, size: u16, part: nat)
    requires
        size > 0,
        part < size,
    ensures
        k > 0 ==> zlp_due(k * size, size),
        part > 0 ==> !zlp_due(k * size + part, size),
        !zlp_due(0, size),
{
    vstd::arithmetic::div_mod::lemma_fundamental_div_mod_converse(
        k * size + part,
        size as int,
        k as int,
        part as int,
    );
    vstd::arithmetic::div_mod::lemma_fundamental_div_mod_converse(
        k * size,
        size as int,
        k as int,
        0,
    );
    assert(k > 0 ==> k * size > 0) by (nonlinear_arith)
        requires
            size > 0,
    ;
    assert(k * size >= 0) by (nonlinear_arith)
        requires
            k >= 0,
            size > 0,
    ;
}

/// These two kinds of interface speak ADB, and no others.
pub proof fn adb_has_two_interfaces(class: u8, subclass: u8, protocol: u8)
    ensures
        adb_interface(class, subclass, protocol) <==> protocol == 1 && (class == 255 && subclass
            == 66 || class == 220 && subclass == 2),
{
}

/// Of the settings of an interface the first that speaks ADB counts.
pub proof fn first_adb_setting_counts(
    a: Seq<InterfaceDescriptor>,
    x: InterfaceDescriptor,
    b: Seq<InterfaceDescriptor>,
)
    requires
        forall|i: int|
            0 <= i < a.len() ==> !adb_interface(
                (#[trigger] a[i]).class_code,
                a[i].sub_class_code,
                a[i].protocol_code,
            ),
    ensures
        adb_setting(a) is None,
        adb_interface(x.class_code, x.sub_class_code, x.protocol_code) ==> adb_setting(
            a + seq![x] + b,
        ) == Some(x),
    decreases a.len(),
{
    let all = a + seq![x] + b;
    if a.len() == 0 {
        assert(all[0] == x);
    } else {
        let left = a.skip(1);
        assert(!a[0].speaks_adb());
        assert(all[0] == a[0]);
        assert(all.skip(1) =~= left + seq![x] + b);
        assert forall|i: int| 0 <= i < left.len() implies !adb_interface(
            (#[trigger] left[i]).class_code,
            left[i].sub_class_code,
            left[i].protocol_code,
        ) by {
            assert(left[i] == a[i + 1]);
        }
        first_adb_setting_counts(left, x, b);
    }
}

/// Of the interfaces of a device the first with a setting that speaks ADB counts, and it is found
/// again by its number.
pub proof fn first_adb_interface_counts(a: Seq<UsbInterface>, x: UsbInterface, b: Seq<UsbInterface>)
    requires
        forall|i: int|
            0 <= i < a.len() ==> adb_setting((#[trigger] a[i]).descriptors@) is None && a[i].number
                != x.number,
    ensures
        adb_number(a) is None,
        numbered(a, x.number) is None,
        numbered(a + seq![x] + b, x.number) == Some(x),
        adb_setting(x.descriptors@) matches Some(d) ==> adb_number(a + seq![x] + b) == Some(
            d.interface_number,
        ) && described_endpoints(a + seq![x] + b, x.number) == endpoints_of(
            x.number,
            d.endpoints@,
        ),
        adb_setting(x.descriptors@) is None ==> described_endpoints(a + seq![x] + b, x.number)
            == Err::<UsbEndpointInfo, UsbErrorModel>(UsbErrorModel::NoAdbInterface),
    decreases a.len(),
{
    let all = a + seq![x] + b;
    if a.len() == 0 {
        assert(all[0] == x);
    } else {
        let left = a.skip(1);
        assert(adb_setting(a[0].descriptors@) is None && a[0].number != x.number);
        assert(all[0] == a[0]);
        assert(all.skip(1) =~= left + seq![x] + b);
        assert forall|i: int| 0 <= i < left.len() implies adb_setting(
            (#[trigger] left[i]).descriptors@,
        ) is None && left[i].number != x.number by {
            assert(left[i] == a[i + 1]);
        }
        first_adb_interface_counts(left, x, b);
    }
}

proof fn lemma_last_bulk(e: Seq<EndpointDescriptor>, i: int, input: bool)
    requires
        0 <= i < e.len(),
        e[i].is_bulk,
        e[i].is_input == input,
        forall|j: int|
            i < j < e.len() ==> !((#[trigger] e[j]).is_bulk && e[j].is_input == input),
    ensures
        last_bulk(e, input) == Some((e[i].address, e[i].max_packet_size)),
    decreases e.len(),
{
    if i < e.len() - 1 {
        assert(!(e[e.len() - 1].is_bulk && e[e.len() - 1].is_input == input));
        lemma_last_bulk(e.drop_last(), i, input);
    }
}

proof fn lemma_no_bulk(e: Seq<EndpointDescriptor>, input: bool)
    requires
        forall|j: int| 0 <= j < e.len() ==> !((#[trigger] e[j]).is_bulk && e[j].is_input == input),
    ensures
        last_bulk(e, input) is None,
    decreases e.len(),
{
    if e.len() > 0 {
        assert(!(e[e.len() - 1].is_bulk && e[e.len() - 1].is_input == input));
        lemma_no_bulk(e.drop_last(), input);
    }
}

/// An interface is used by its last bulk endpoint of each direction, which must have packets of
/// one size that is not zero; one without both is refused.
pub proof fn bulk_endpoints_are_used(
    number: u8,
    e: Seq<EndpointDescriptor>,
    i: int,
    o: int,
)
    requires
        0 <= i < e.len(),
        0 <= o < e.len(),
        e[i].is_bulk && e[i].is_input,
        e[o].is_bulk && !e[o].is_input,
        forall|j: int| i < j < e.len() ==> !((#[trigger] e[j]).is_bulk && e[j].is_input),
        forall|j: int| o < j < e.len() ==> !((#[trigger] e[j]).is_bulk && !e[j].is_input),
    ensures
        endpoints_of(number, e) == if e[i].max_packet_size == 0 || e[o].max_packet_size == 0 {
            Err::<UsbEndpointInfo, UsbErrorModel>(
                UsbErrorModel::ZeroPacketSize { interface_number: number },
            )
        } else if e[i].max_packet_size != e[o].max_packet_size {
            Err(UsbErrorModel::InconsistentPacketSize { interface_number: number })
        } else {
            Ok(
                UsbEndpointInfo {
                    interface_number: number,
                    bulk_in_endpoint_address: e[i].address,
                    bulk_out_endpoint_address: e[o].address,
                    out_max_packet_size: e[o].max_packet_size,
                },
            )
        },
{
    assert forall|j: int| i < j < e.len() implies !((#[trigger] e[j]).is_bulk && e[j].is_input
        == true) by {}
    assert forall|j: int| o < j < e.len() implies !((#[trigger] e[j]).is_bulk && e[j].is_input
        == false) by {}
    lemma_last_bulk(e, i, true);
    lemma_last_bulk(e, o, false);
}

/// An interface without a bulk endpoint of one direction is refused, and the direction is told.
pub proof fn missing_endpoints_are_told(number: u8, e: Seq<EndpointDescriptor>)
    ensures
        (forall|j: int| 0 <= j < e.len() ==> !((#[trigger] e[j]).is_bulk && e[j].is_input))
            ==> endpoints_of(number, e) == Err::<UsbEndpointInfo, UsbErrorModel>(
            UsbErrorModel::MissingBulkEndpoint { interface_number: number, missing: "IN"@ },
        ),
        (forall|j: int| 0 <= j < e.len() ==> !((#[trigger] e[j]).is_bulk && !e[j].is_input)) && (
        last_bulk(e, true) is Some) ==> endpoints_of(number, e) == Err::<
            UsbEndpointInfo,
            UsbErrorModel,
        >(UsbErrorModel::MissingBulkEndpoint { interface_number: number, missing: "OUT"@ }),
{
    if forall|j: int| 0 <= j < e.len() ==> !((#[trigger] e[j]).is_bulk && e[j].is_input) {
        assert forall|j: int| 0 <= j < e.len() implies !((#[trigger] e[j]).is_bulk && e[j].is_input
            == true) by {}
        lemma_no_bulk(e, true);
    }
    if forall|j: int| 0 <= j < e.len() ==> !((#[trigger] e[j]).is_bulk && !e[j].is_input) {
        assert forall|j: int| 0 <= j < e.len() implies !((#[trigger] e[j]).is_bulk && e[j].is_input
            == false) by {}
        lemma_no_bulk(e, false);
    }
}

/// What was written is what the transfers to the endpoint took, one behind the other.
pub proof fn taken_bytes_add_up(t: Seq<BulkWrite>, endpoint: u8, w: BulkWrite, n: nat)
    requires
        n <= w.data.len(),
        w.taken == Ok::<nat, UsbErrorModel>(n),
    ensures
        taken_bytes(Seq::empty(), endpoint) == Seq::<u8>::empty(),
        taken_bytes(t.push(w), endpoint) == taken_bytes(t, endpoint) + if w.endpoint == endpoint {
            w.data.take(n as int)
        } else {
            Seq::empty()
        },
{
    assert(t.push(w).drop_last() =~= t);
    assert(taken_bytes(t, endpoint) + Seq::<u8>::empty() =~= taken_bytes(t, endpoint));
}

} // verus!
