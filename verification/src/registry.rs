//! What the host server knows: the devices, and the sockets that are forwarded to and from
//! them.

use crate::text::{
    char_views, chars_of, dec, decimal, digit_value, from_utf8_lossy, is_prefix, is_tight, joined,
    joining_is_undone_by_splitting, lossy_text, number_round_trip, opt_view, owned, padded, parse_unsigned, split,
    split_char, starts_with, str_eq, string_of, trim, trimmed, trimming_keeps_the_middle, unsigned_spec,
};
use crate::usb_android::{three_digits, DeviceCandidate};
use vstd::prelude::*;
use vstd::slice::slice_subrange;

verus! {

/// The state of a device.
#[derive(Debug, Clone, Copy, PartialEq, Eq, Structural)]
pub enum DeviceState {
    Offline,
    Device,
    Recovery,
    Sideload,
    Bootloader,
    Authorizing,
    Connecting,
    NoPerm,
    Unknown,
}

/// The name of a state.
pub open spec fn state_text(s: DeviceState) -> Seq<char> {
    match s {
        DeviceState::Offline => "offline"@,
        DeviceState::Device => "device"@,
        DeviceState::Recovery => "recovery"@,
        DeviceState::Sideload => "sideload"@,
        DeviceState::Bootloader => "bootloader"@,
        DeviceState::Authorizing => "authorizing"@,
        DeviceState::Connecting => "connecting"@,
        DeviceState::NoPerm => "no permissions"@,
        DeviceState::Unknown => "unknown"@,
    }
}

impl DeviceState {
    /// The name of the state.
    pub fn as_str(&self) -> (r: &'static str)
        ensures
            r@ == state_text(*self),
    {
        match self {
            DeviceState::Offline => "offline",
            DeviceState::Device => "device",
            DeviceState::Recovery => "recovery",
            DeviceState::Sideload => "sideload",
            DeviceState::Bootloader => "bootloader",
            DeviceState::Authorizing => "authorizing",
            DeviceState::Connecting => "connecting",
            DeviceState::NoPerm => "no permissions",
            DeviceState::Unknown => "unknown",
        }
    }
}

/// A device in this state takes requests.
pub open spec fn usable(state: DeviceState) -> bool {
    state == DeviceState::Device || state == DeviceState::Recovery || state == DeviceState::Sideload
        || state == DeviceState::Bootloader
}

/// Whether a device in this state may be selected for a service. One that is connecting,
/// authorizing or offline may not.
pub fn is_usable_state(state: DeviceState) -> (r: bool)
    ensures
        r == usable(state),
{
    match state {
        DeviceState::Device => true,
        DeviceState::Recovery => true,
        DeviceState::Sideload => true,
        DeviceState::Bootloader => true,
        _ => false,
    }
}

/// How a device is reached.
#[derive(Debug, Clone, PartialEq, Eq)]
pub enum DeviceOrigin {
    Usb,
    Tcp { ip: String, port: u16 },
}

/// What a [`DeviceOrigin`] says.
pub enum OriginModel {
    Usb,
    Tcp { ip: Seq<char>, port: u16 },
}

impl View for DeviceOrigin {
    type V = OriginModel;

    open spec fn view(&self) -> OriginModel {
        match *self {
            DeviceOrigin::Usb => OriginModel::Usb,
            DeviceOrigin::Tcp { ip, port } => OriginModel::Tcp { ip: ip@, port },
        }
    }
}

impl DeviceOrigin {
    /// Another value that says the same.
    pub fn duplicate(&self) -> (r: DeviceOrigin)
        ensures
            r@ == self@,
    {
        match self {
            DeviceOrigin::Usb => DeviceOrigin::Usb,
            DeviceOrigin::Tcp { ip, port } => DeviceOrigin::Tcp { ip: ip.clone(), port: *port },
        }
    }

    fn is_usb(&self) -> (r: bool)
        ensures
            r == (self@ is Usb),
    {
        match self {
            DeviceOrigin::Usb => true,
            DeviceOrigin::Tcp { ip: _, port: _ } => false,
        }
    }
}

/// A device.
#[derive(Debug, Clone)]
pub struct DeviceEntry {
    pub serial: String,
    pub state: DeviceState,
    pub origin: DeviceOrigin,
    pub product: Option<String>,
    pub model: Option<String>,
    pub device_name: Option<String>,
    pub transport_features: Option<String>,
}

/// What a [`DeviceEntry`] says.
pub struct DeviceModel {
    pub serial: Seq<char>,
    pub state: DeviceState,
    pub origin: OriginModel,
    pub product: Option<Seq<char>>,
    pub model: Option<Seq<char>>,
    pub device_name: Option<Seq<char>>,
    pub transport_features: Option<Seq<char>>,
}

impl View for DeviceEntry {
    type V = DeviceModel;

    open spec fn view(&self) -> DeviceModel {
        DeviceModel {
            serial: self.serial@,
            state: self.state,
            origin: self.origin@,
            product: opt_view(self.product),
            model: opt_view(self.model),
            device_name: opt_view(self.device_name),
            transport_features: opt_view(self.transport_features),
        }
    }
}

/// A socket on this machine that leads to a device. `id` tells the rule from every other, one
/// that came before it under the same name included.
#[derive(Debug, Clone)]
pub struct ForwardRule {
    pub serial: String,
    pub local: String,
    pub remote: String,
    pub id: u64,
}

/// What a [`ForwardRule`] says.
pub struct ForwardModel {
    pub serial: Seq<char>,
    pub local: Seq<char>,
    pub remote: Seq<char>,
    pub id: u64,
}

impl View for ForwardRule {
    type V = ForwardModel;

    open spec fn view(&self) -> ForwardModel {
        ForwardModel {
            serial: self.serial@,
            local: self.local@,
            remote: self.remote@,
            id: self.id,
        }
    }
}

/// A socket on a device that leads to this machine.
#[derive(Debug, Clone)]
pub struct ReverseRule {
    pub serial: String,
    pub remote: String,
    pub local: String,
}

/// What a [`ReverseRule`] says.
pub struct ReverseModel {
    pub serial: Seq<char>,
    pub remote: Seq<char>,
    pub local: Seq<char>,
}

impl View for ReverseRule {
    type V = ReverseModel;

    open spec fn view(&self) -> ReverseModel {
        ReverseModel { serial: self.serial@, remote: self.remote@, local: self.local@ }
    }
}

/// The views of a list.
pub open spec fn views_of<T: View>(v: Seq<T>) -> Seq<T::V> {
    Seq::new(v.len(), |i: int| v[i]@)
}

/// The elements of a list that a condition holds of, in their order.
pub open spec fn kept<M>(s: Seq<M>, keep: spec_fn(M) -> bool) -> Seq<M>
    decreases s.len(),
{
    if s.len() == 0 {
        s
    } else {
        let before = kept(s.drop_last(), keep);
        if keep(s.last()) {
            before.push(s.last())
        } else {
            before
        }
    }
}

/// What is kept of a list is in the list and meets the condition, and what is in the list and
/// meets the condition is kept.
pub proof fn lemma_kept<M>(s: Seq<M>, keep: spec_fn(M) -> bool)
    ensures
        kept(s, keep).len() <= s.len(),
        forall|i: int|
            0 <= i < kept(s, keep).len() ==> keep(#[trigger] kept(s, keep)[i]) && s.contains(
                kept(s, keep)[i],
            ),
        forall|i: int|
            0 <= i < s.len() && keep(#[trigger] s[i]) ==> kept(s, keep).contains(s[i]),
    decreases s.len(),
{
    if s.len() > 0 {
        let front = s.drop_last();
        lemma_kept(front, keep);
        let k = kept(s, keep);
        let kf = kept(front, keep);
        assert forall|i: int| 0 <= i < k.len() implies keep(#[trigger] k[i]) && s.contains(k[i]) by {
            if i < kf.len() {
                assert(k[i] == kf[i]);
                assert(front.contains(kf[i]));
                let j = choose|j: int| 0 <= j < front.len() && front[j] == kf[i];
                assert(s[j] == k[i]);
            } else {
                assert(s[s.len() - 1] == k[i]);
            }
        }
        assert forall|i: int| 0 <= i < s.len() && keep(#[trigger] s[i]) implies k.contains(s[i]) by {
            if i < front.len() {
                assert(front[i] == s[i]);
                assert(kf.contains(front[i]));
                let j = choose|j: int| 0 <= j < kf.len() && kf[j] == front[i];
                assert(k[j] == s[i]);
            } else {
                assert(k[k.len() - 1] == s[i]);
            }
        }
    }
}

/// What all elements of a list have is what all that is kept of it have, pairs included.
proof fn lemma_kept_pairwise<M>(
    s: Seq<M>,
    keep: spec_fn(M) -> bool,
    apart: spec_fn(M, M) -> bool,
)
    requires
        forall|i: int, j: int| 0 <= i < j < s.len() ==> apart(#[trigger] s[i], #[trigger] s[j]),
    ensures
        forall|i: int, j: int|
            0 <= i < j < kept(s, keep).len() ==> apart(
                #[trigger] kept(s, keep)[i],
                #[trigger] kept(s, keep)[j],
            ),
    decreases s.len(),
{
    if s.len() > 0 {
        let front = s.drop_last();
        assert forall|i: int, j: int| 0 <= i < j < front.len() implies apart(
            #[trigger] front[i],
            #[trigger] front[j],
        ) by {
            assert(apart(s[i], s[j]));
        }
        lemma_kept_pairwise(front, keep, apart);
        lemma_kept(front, keep);
        let k = kept(s, keep);
        let kf = kept(front, keep);
        assert forall|i: int, j: int| 0 <= i < j < k.len() implies apart(
            #[trigger] k[i],
            #[trigger] k[j],
        ) by {
            if j < kf.len() {
                assert(apart(kf[i], kf[j]));
            } else {
                assert(front.contains(kf[i]));
                let a = choose|a: int| 0 <= a < front.len() && front[a] == kf[i];
                assert(apart(s[a], s[s.len() - 1]));
            }
        }
    }
}

/// What the host server knows.
pub struct TransportRegistry {
    pub devices: Vec<DeviceEntry>,
    pub forwards: Vec<ForwardRule>,
    pub reverses: Vec<ReverseRule>,
}

/// What a [`TransportRegistry`] says.
pub struct RegistryModel {
    pub devices: Seq<DeviceModel>,
    pub forwards: Seq<ForwardModel>,
    pub reverses: Seq<ReverseModel>,
}

impl View for TransportRegistry {
    type V = RegistryModel;

    open spec fn view(&self) -> RegistryModel {
        RegistryModel {
            devices: views_of(self.devices@),
            forwards: views_of(self.forwards@),
            reverses: views_of(self.reverses@),
        }
    }
}

impl RegistryModel {
    /// No two devices have one serial number, no two forwarded sockets one name on this
    /// machine, and no two reversed ones one name on the device.
    pub open spec fn wf(self) -> bool {
        &&& forall|i: int, j: int|
            0 <= i < j < self.devices.len() ==> (#[trigger] self.devices[i]).serial != (
            #[trigger] self.devices[j]).serial
        &&& forall|i: int, j: int|
            0 <= i < j < self.forwards.len() ==> (#[trigger] self.forwards[i]).local != (
            #[trigger] self.forwards[j]).local
        &&& forall|i: int, j: int|
            0 <= i < j < self.reverses.len() ==> (#[trigger] self.reverses[i]).remote != (
            #[trigger] self.reverses[j]).remote
    }
}

/// The index of the first device with a serial number, or the number of devices.
pub open spec fn device_index(devices: Seq<DeviceModel>, serial: Seq<char>) -> int
    decreases devices.len(),
{
    if devices.len() == 0 {
        0
    } else if devices[0].serial == serial {
        0
    } else {
        1 + device_index(devices.skip(1), serial)
    }
}

/// The first device with a serial number.
pub open spec fn device_by_serial(devices: Seq<DeviceModel>, serial: Seq<char>) -> Option<DeviceModel> {
    let i = device_index(devices, serial);
    if i < devices.len() {
        Some(devices[i])
    } else {
        None
    }
}

/// What the index of a serial number means.
pub proof fn lemma_device_index(devices: Seq<DeviceModel>, serial: Seq<char>)
    ensures
        0 <= device_index(devices, serial) <= devices.len(),
        device_index(devices, serial) < devices.len() ==> devices[device_index(
            devices,
            serial,
        )].serial == serial,
        forall|k: int|
            0 <= k < device_index(devices, serial) ==> (#[trigger] devices[k]).serial != serial,
    decreases devices.len(),
{
    if devices.len() > 0 && devices[0].serial != serial {
        let rest = devices.skip(1);
        lemma_device_index(rest, serial);
        assert forall|k: int| 0 <= k < device_index(devices, serial) implies (
        #[trigger] devices[k]).serial != serial by {
            if k > 0 {
                assert(rest[k - 1] == devices[k]);
            }
        }
    }
}

/// The first device that takes requests.
pub open spec fn any_device(devices: Seq<DeviceModel>) -> Option<DeviceModel>
    decreases devices.len(),
{
    if devices.len() == 0 {
        None
    } else if usable(devices[0].state) {
        Some(devices[0])
    } else {
        any_device(devices.skip(1))
    }
}

/// A device that is selected without being named takes requests, and there is one whenever any
/// device does.
pub proof fn selected_device_is_usable(devices: Seq<DeviceModel>)
    ensures
        any_device(devices) matches Some(d) ==> usable(d.state) && devices.contains(d),
        any_device(devices) is None ==> forall|i: int|
            0 <= i < devices.len() ==> !usable((#[trigger] devices[i]).state),
    decreases devices.len(),
{
    if devices.len() > 0 && !usable(devices[0].state) {
        let rest = devices.skip(1);
        selected_device_is_usable(rest);
        match any_device(devices) {
            Some(d) => {
                let j = choose|j: int| 0 <= j < rest.len() && rest[j] == d;
                assert(devices[j + 1] == d);
            },
            None => {
                assert forall|i: int| 0 <= i < devices.len() implies !usable(
                    (#[trigger] devices[i]).state,
                ) by {
                    if i > 0 {
                        assert(rest[i - 1] == devices[i]);
                    }
                }
            },
        }
    } else if devices.len() > 0 {
        assert(devices.contains(devices[0]));
    }
}

/// A device that was found on the bus.
pub open spec fn usb_device(serial: Seq<char>) -> DeviceModel {
    DeviceModel {
        serial,
        state: DeviceState::Device,
        origin: OriginModel::Usb,
        product: None,
        model: None,
        device_name: None,
        transport_features: None,
    }
}

/// A device that was connected to over TCP.
pub open spec fn tcp_device(serial: Seq<char>, ip: Seq<char>, port: u16) -> DeviceModel {
    DeviceModel {
        serial,
        state: DeviceState::Device,
        origin: OriginModel::Tcp { ip, port },
        product: None,
        model: None,
        device_name: None,
        transport_features: None,
    }
}

/// The name of a device on the bus: its serial number, or where it sits if it has none.
pub open spec fn bus_name(c: DeviceCandidate) -> Seq<char> {
    match c.serial {
        Some(s) => s@,
        None => three_digits(c.bus_number) + three_digits(c.address),
    }
}

/// The names of the devices on the bus.
pub open spec fn bus_names(c: Seq<DeviceCandidate>) -> Seq<Seq<char>> {
    Seq::new(c.len(), |i: int| bus_name(c[i]))
}

/// The devices with those of the names added that are not there yet.
pub open spec fn with_usb(devices: Seq<DeviceModel>, names: Seq<Seq<char>>) -> Seq<DeviceModel>
    decreases names.len(),
{
    if names.len() == 0 {
        devices
    } else {
        let before = with_usb(devices, names.drop_last());
        if device_by_serial(before, names.last()) is Some {
            before
        } else {
            before.push(usb_device(names.last()))
        }
    }
}

/// A device stays if it is not a USB device or is on the bus.
pub open spec fn still_there(names: Seq<Seq<char>>) -> spec_fn(DeviceModel) -> bool {
    |d: DeviceModel| !(d.origin is Usb) || names.contains(d.serial)
}

/// The devices after a look at the bus.
pub open spec fn refreshed(devices: Seq<DeviceModel>, names: Seq<Seq<char>>) -> Seq<DeviceModel> {
    kept(with_usb(devices, names), still_there(names))
}

/// The devices after a TCP device has answered: it is usable now, and new if it was not known.
pub open spec fn with_tcp(
    devices: Seq<DeviceModel>,
    serial: Seq<char>,
    ip: Seq<char>,
    port: u16,
) -> Seq<DeviceModel> {
    let i = device_index(devices, serial);
    if i < devices.len() {
        devices.update(i, DeviceModel { state: DeviceState::Device, ..devices[i] })
    } else {
        devices.push(tcp_device(serial, ip, port))
    }
}

/// Any device but the one with this serial number.
pub open spec fn other_serial(serial: Seq<char>) -> spec_fn(DeviceModel) -> bool {
    |d: DeviceModel| d.serial != serial
}

/// A USB device.
pub open spec fn on_usb() -> spec_fn(DeviceModel) -> bool {
    |d: DeviceModel| d.origin is Usb
}

/// One line of the list of devices.
pub open spec fn device_line(d: DeviceModel, verbose: bool) -> Seq<char> {
    let head = d.serial + "\t"@ + state_text(d.state);
    if verbose {
        head + " product:"@ + or_unknown(d.product) + " model:"@ + or_unknown(d.model)
            + " device:"@ + or_unknown(d.device_name) + "\n"@
    } else {
        head + "\n"@
    }
}

/// A text, or `unknown`.
pub open spec fn or_unknown(s: Option<Seq<char>>) -> Seq<char> {
    match s {
        Some(t) => t,
        None => "unknown"@,
    }
}

/// The list of devices.
pub open spec fn device_list(devices: Seq<DeviceModel>, verbose: bool) -> Seq<char>
    decreases devices.len(),
{
    if devices.len() == 0 {
        Seq::empty()
    } else {
        device_list(devices.drop_last(), verbose) + device_line(devices.last(), verbose)
    }
}

fn unknown_or(s: &Option<String>) -> (r: &str)
    ensures
        r@ == or_unknown(opt_view(*s)),
{
    match s {
        Some(t) => t.as_str(),
        None => "unknown",
    }
}

fn candidate_name(c: &DeviceCandidate) -> (s: String)
    ensures
        s@ == bus_name(*c),
{
    match &c.serial {
        Some(s) => s.clone(),
        None => {
            let mut s = padded(c.bus_number as u64, 10, 3);
            s.append(padded(c.address as u64, 10, 3).as_str());
            s
        },
    }
}

fn names_contain(names: &Vec<String>, name: &str) -> (r: bool)
    ensures
        r == crate::text::string_views(names@).contains(name@),
{
    let ghost views = crate::text::string_views(names@);
    let mut i: usize = 0;
    while i < names.len()
        invariant
            i <= names@.len(),
            views == crate::text::string_views(names@),
            forall|k: int| 0 <= k < i ==> views[k] != name@,
        decreases names@.len() - i,
    {
        if str_eq(names[i].as_str(), name) {
            assert(views[i as int] == name@);
            return true;
        }
        i = i + 1;
    }
    assert(!views.contains(name@));
    false
}

impl TransportRegistry {
    /// Nothing is known yet.
    pub fn new() -> (r: TransportRegistry)
        ensures
            r@.wf(),
            r@.devices.len() == 0,
            r@.forwards.len() == 0,
            r@.reverses.len() == 0,
    {
        TransportRegistry { devices: Vec::new(), forwards: Vec::new(), reverses: Vec::new() }
    }

    /// The index of the first device with a serial number.
    fn position(&self, serial: &str) -> (r: Option<usize>)
        ensures
            match r {
                Some(i) => i == device_index(self@.devices, serial@) && i < self@.devices.len(),
                None => device_index(self@.devices, serial@) == self@.devices.len(),
            },
    {
        let ghost m = self@.devices;
        let mut i: usize = 0;
        assert(m.skip(0) =~= m);
        while i < self.devices.len()
            invariant
                i <= self.devices@.len(),
                m == self@.devices,
                i + device_index(m.skip(i as int), serial@) == device_index(m, serial@),
            decreases self.devices@.len() - i,
        {
            assert(m.skip(i as int)[0] == self.devices@[i as int]@);
            if str_eq(self.devices[i].serial.as_str(), serial) {
                return Some(i);
            }
            assert(m.skip(i as int).skip(1) =~= m.skip(i + 1));
            i = i + 1;
        }
        None
    }

    /// The device with a serial number.
    pub fn find_by_serial(&self, serial: &str) -> (r: Option<&DeviceEntry>)
        ensures
            match r {
                Some(d) => device_by_serial(self@.devices, serial@) == Some(d@),
                None => device_by_serial(self@.devices, serial@) is None,
            },
    {
        match self.position(serial) {
            Some(i) => Some(&self.devices[i]),
            None => None,
        }
    }

    /// The first device that takes requests.
    pub fn find_any_device(&self) -> (r: Option<&DeviceEntry>)
        ensures
            match r {
                Some(d) => any_device(self@.devices) == Some(d@),
                None => any_device(self@.devices) is None,
            },
    {
        let ghost m = self@.devices;
        let mut i: usize = 0;
        assert(m.skip(0) =~= m);
        while i < self.devices.len()
            invariant
                i <= self.devices@.len(),
                m == self@.devices,
                any_device(m.skip(i as int)) == any_device(m),
            decreases self.devices@.len() - i,
        {
            assert(m.skip(i as int)[0] == self.devices@[i as int]@);
            if is_usable_state(self.devices[i].state) {
                return Some(&self.devices[i]);
            }
            assert(m.skip(i as int).skip(1) =~= m.skip(i + 1));
            i = i + 1;
        }
        None
    }

    /// The list of devices, one line for each.
    pub fn list_devices(&self, verbose: bool) -> (s: String)
        ensures
            s@ == device_list(self@.devices, verbose),
    {
        let mut out = String::new();
        let ghost m = self@.devices;
        let mut i: usize = 0;
        assert(m.take(0) =~= Seq::empty());
        while i < self.devices.len()
            invariant
                i <= self.devices@.len(),
                m == self@.devices,
                out@ == device_list(m.take(i as int), verbose),
            decreases self.devices@.len() - i,
        {
            let d = &self.devices[i];
            let ghost before = out@;
            out.append(d.serial.as_str());
            out.append("\t");
            out.append(d.state.as_str());
            if verbose {
                out.append(" product:");
                out.append(unknown_or(&d.product));
                out.append(" model:");
                out.append(unknown_or(&d.model));
                out.append(" device:");
                out.append(unknown_or(&d.device_name));
            }
            out.append("\n");
            proof {
                assert(out@ =~= before + device_line(m[i as int], verbose));
                assert(m.take(i + 1).drop_last() =~= m.take(i as int));
            }
            i = i + 1;
        }
        assert(m.take(i as int) =~= m);
        out
    }

    /// Brings the devices up to date with those on the bus.
    pub fn refresh_usb_devices(&mut self, candidates: &[DeviceCandidate])
        ensures
            final(self)@.devices == refreshed(old(self)@.devices, bus_names(candidates@)),
            final(self)@.forwards == old(self)@.forwards,
            final(self)@.reverses == old(self)@.reverses,
    {
        let ghost start = self@.devices;
        let ghost names = bus_names(candidates@);
        let mut known: Vec<String> = Vec::new();
        let mut i: usize = 0;
        assert(names.take(0) =~= Seq::empty());
        while i < candidates.len()
            invariant
                i <= candidates@.len(),
                names == bus_names(candidates@),
                start == old(self)@.devices,
                self@.forwards == old(self)@.forwards,
                self@.reverses == old(self)@.reverses,
                self@.devices == with_usb(start, names.take(i as int)),
                crate::text::string_views(known@) == names.take(i as int),
            decreases candidates@.len() - i,
        {
            let name = candidate_name(&candidates[i]);
            let ghost before = self@.devices;
            proof {
                assert(names.take(i + 1).drop_last() =~= names.take(i as int));
                assert(names.take(i + 1).last() == name@);
            }
            if self.find_by_serial(name.as_str()).is_none() {
                self.devices.push(
                    DeviceEntry {
                        serial: name.clone(),
                        state: DeviceState::Device,
                        origin: DeviceOrigin::Usb,
                        product: None,
                        model: None,
                        device_name: None,
                        transport_features: None,
                    },
                );
                assert(self@.devices =~= before.push(usb_device(name@)));
            }
            known.push(name);
            assert(crate::text::string_views(known@) =~= names.take(i + 1));
            i = i + 1;
        }
        assert(names.take(i as int) =~= names);
        let ghost all = self@.devices;
        let ghost keep = still_there(names);
        let mut at: usize = 0;
        let ghost mut seen: int = 0;
        assert(all.take(0) =~= Seq::empty());
        assert(all.skip(0) =~= all);
        assert(kept(all.take(0), keep) + all.skip(0) =~= all);
        while at < self.devices.len()
            invariant
                0 <= seen <= all.len(),
                at <= self.devices@.len(),
                keep == still_there(names),
                crate::text::string_views(known@) == names,
                self@.forwards == old(self)@.forwards,
                self@.reverses == old(self)@.reverses,
                at == kept(all.take(seen), keep).len(),
                self@.devices == kept(all.take(seen), keep) + all.skip(seen),
            decreases self.devices@.len() - at,
        {
            let ghost now = self@.devices;
            proof {
                assert(seen < all.len());
                assert(all.take(seen + 1).drop_last() =~= all.take(seen));
                assert(all.take(seen + 1).last() == all[seen]);
                assert(now[at as int] == all.skip(seen)[0]);
            }
            if self.devices[at].origin.is_usb() && !names_contain(
                &known,
                self.devices[at].serial.as_str(),
            ) {
                self.devices.remove(at);
                proof {
                    assert(self@.devices =~= now.remove(at as int));
                    assert(self@.devices =~= kept(all.take(seen + 1), keep) + all.skip(seen + 1));
                }
            } else {
                proof {
                    assert(now =~= kept(all.take(seen + 1), keep) + all.skip(seen + 1));
                }
                at = at + 1;
            }
            proof {
                seen = seen + 1;
            }
        }
        proof {
            assert(all.skip(seen).len() == 0);
            assert(all.take(seen) =~= all);
            assert(self@.devices =~= kept(all, keep));
        }
    }

    /// Notes that a TCP device has answered.
    pub fn upsert_tcp_device(&mut self, ip: String, port: u16, serial: String)
        ensures
            final(self)@.devices == with_tcp(old(self)@.devices, serial@, ip@, port),
            final(self)@.forwards == old(self)@.forwards,
            final(self)@.reverses == old(self)@.reverses,
    {
        let ghost before = self@.devices;
        match self.position(serial.as_str()) {
            Some(i) => {
                self.devices[i].state = DeviceState::Device;
                assert(self@.devices =~= before.update(
                    i as int,
                    DeviceModel { state: DeviceState::Device, ..before[i as int] },
                ));
            },
            None => {
                let ghost name = serial@;
                let ghost addr = ip@;
                self.devices.push(
                    DeviceEntry {
                        serial,
                        state: DeviceState::Device,
                        origin: DeviceOrigin::Tcp { ip, port },
                        product: None,
                        model: None,
                        device_name: None,
                        transport_features: None,
                    },
                );
                assert(self@.devices =~= before.push(tcp_device(name, addr, port)));
            },
        }
    }

    /// Forgets the device with a serial number, and tells whether there was one.
    pub fn remove_device(&mut self, serial: &str) -> (r: bool)
        ensures
            final(self)@.devices == kept(old(self)@.devices, other_serial(serial@)),
            final(self)@.forwards == old(self)@.forwards,
            final(self)@.reverses == old(self)@.reverses,
            r == (device_by_serial(old(self)@.devices, serial@) is Some),
    {
        let ghost all = self@.devices;
        let ghost keep = other_serial(serial@);
        let found = self.find_by_serial(serial).is_some();
        let mut at: usize = 0;
        let ghost mut seen: int = 0;
        assert(all.take(0) =~= Seq::empty());
        assert(kept(all.take(0), keep) + all.skip(0) =~= all);
        while at < self.devices.len()
            invariant
                0 <= seen <= all.len(),
                at <= self.devices@.len(),
                keep == other_serial(serial@),
                self@.forwards == old(self)@.forwards,
                self@.reverses == old(self)@.reverses,
                at == kept(all.take(seen), keep).len(),
                self@.devices == kept(all.take(seen), keep) + all.skip(seen),
            decreases self.devices@.len() - at,
        {
            let ghost now = self@.devices;
            proof {
                assert(seen < all.len());
                assert(all.take(seen + 1).drop_last() =~= all.take(seen));
                assert(all.take(seen + 1).last() == all[seen]);
                assert(now[at as int] == all.skip(seen)[0]);
            }
            if str_eq(self.devices[at].serial.as_str(), serial) {
                self.devices.remove(at);
                proof {
                    assert(self@.devices =~= now.remove(at as int));
                    assert(self@.devices =~= kept(all.take(seen + 1), keep) + all.skip(seen + 1));
                }
            } else {
                proof {
                    assert(now =~= kept(all.take(seen + 1), keep) + all.skip(seen + 1));
                }
                at = at + 1;
            }
            proof {
                seen = seen + 1;
            }
        }
        proof {
            assert(all.skip(seen).len() == 0);
            assert(all.take(seen) =~= all);
            assert(self@.devices =~= kept(all, keep));
        }
        found
    }

    /// Forgets all TCP devices.
    pub fn remove_all_tcp_devices(&mut self)
        ensures
            final(self)@.devices == kept(old(self)@.devices, on_usb()),
            final(self)@.forwards == old(self)@.forwards,
            final(self)@.reverses == old(self)@.reverses,
    {
        let ghost all = self@.devices;
        let ghost keep = on_usb();
        let mut at: usize = 0;
        let ghost mut seen: int = 0;
        assert(all.take(0) =~= Seq::empty());
        assert(kept(all.take(0), keep) + all.skip(0) =~= all);
        while at < self.devices.len()
            invariant
                0 <= seen <= all.len(),
                at <= self.devices@.len(),
                keep == on_usb(),
                self@.forwards == old(self)@.forwards,
                self@.reverses == old(self)@.reverses,
                at == kept(all.take(seen), keep).len(),
                self@.devices == kept(all.take(seen), keep) + all.skip(seen),
            decreases self.devices@.len() - at,
        {
            let ghost now = self@.devices;
            proof {
                assert(seen < all.len());
                assert(all.take(seen + 1).drop_last() =~= all.take(seen));
                assert(all.take(seen + 1).last() == all[seen]);
                assert(now[at as int] == all.skip(seen)[0]);
            }
            if !self.devices[at].origin.is_usb() {
                self.devices.remove(at);
                proof {
                    assert(self@.devices =~= now.remove(at as int));
                    assert(self@.devices =~= kept(all.take(seen + 1), keep) + all.skip(seen + 1));
                }
            } else {
                proof {
                    assert(now =~= kept(all.take(seen + 1), keep) + all.skip(seen + 1));
                }
                at = at + 1;
            }
            proof {
                seen = seen + 1;
            }
        }
        proof {
            assert(all.skip(seen).len() == 0);
            assert(all.take(seen) =~= all);
            assert(self@.devices =~= kept(all, keep));
        }
    }
}

/// Made of decimal digits only.
pub open spec fn all_digits(s: Seq<char>) -> bool {
    forall|i: int| 0 <= i < s.len() ==> '0' <= #[trigger] s[i] <= '9'
}

fn is_all_digits(s: &[char]) -> (r: bool)
    ensures
        r == all_digits(s@),
{
    let mut i: usize = 0;
    while i < s.len()
        invariant
            i <= s@.len(),
            forall|k: int| 0 <= k < i ==> '0' <= #[trigger] s@[k] <= '9',
        decreases s@.len() - i,
    {
        if !('0' <= s[i] && s[i] <= '9') {
            assert(!('0' <= s@[i as int] <= '9'));
            return false;
        }
        i = i + 1;
    }
    true
}

/// A port by its number alone or behind `tcp:`.
pub open spec fn names_port(spec_text: Seq<char>) -> bool {
    is_prefix("tcp:"@, spec_text) || all_digits(spec_text)
}

/// The port that a local end asks for, if it asks for one.
pub open spec fn port_asked(local: Seq<char>) -> Result<Option<u16>, Seq<char>> {
    if !names_port(local) {
        Ok(None)
    } else {
        let digits = if is_prefix("tcp:"@, local) {
            local.skip(4)
        } else {
            local
        };
        match unsigned_spec(digits, 10, 65535) {
            Some(n) => Ok(Some(n as u16)),
            None => Err("invalid port in local spec: "@ + local),
        }
    }
}

/// The port on which to listen for a local end, if it is a port.
pub fn local_binding(local_spec: &str) -> (r: Result<Option<u16>, String>)
    ensures
        match r {
            Ok(p) => port_asked(local_spec@) == Ok::<Option<u16>, Seq<char>>(p),
            Err(m) => port_asked(local_spec@) == Err::<Option<u16>, Seq<char>>(m@),
        },
{
    let chars = chars_of(local_spec);
    let prefixed = starts_with(chars.as_slice(), "tcp:");
    proof {
        reveal_strlit("tcp:");
    }
    if !prefixed && !is_all_digits(chars.as_slice()) {
        return Ok(None);
    }
    let parsed = if prefixed {
        let rest = slice_subrange(chars.as_slice(), 4, chars.len());
        assert(rest@ =~= local_spec@.skip(4));
        parse_unsigned(rest, 10, 65535)
    } else {
        parse_unsigned(chars.as_slice(), 10, 65535)
    };
    match parsed {
        Some(n) => Ok(Some(n as u16)),
        None => {
            let mut m = owned("invalid port in local spec: ");
            m.append(local_spec);
            Err(m)
        },
    }
}

/// The name under which a forwarded socket is kept: the port that was bound, or the local end
/// as it was given.
pub open spec fn forward_name(local: Seq<char>, bound: Option<u16>) -> Seq<char> {
    match bound {
        Some(p) => "tcp:"@ + dec(p as nat),
        None => local,
    }
}

/// A local end with `tcp:` in front where it is a mere number.
pub open spec fn canonical_local(local: Seq<char>) -> Seq<char> {
    if !is_prefix("tcp:"@, local) && all_digits(local) {
        "tcp:"@ + local
    } else {
        local
    }
}

/// Any rule but the one of this local end.
pub open spec fn other_local(local: Seq<char>) -> spec_fn(ForwardModel) -> bool {
    |f: ForwardModel| f.local != canonical_local(local) && f.local != local
}

/// A rule of this local end.
pub open spec fn has_local(forwards: Seq<ForwardModel>, local: Seq<char>) -> bool {
    exists|i: int| 0 <= i < forwards.len() && (#[trigger] forwards[i]).local == local
}

/// Any rule but the one of this end on the device.
pub open spec fn other_remote(remote: Seq<char>) -> spec_fn(ReverseModel) -> bool {
    |r: ReverseModel| r.remote != remote
}

/// A rule of this end on the device.
pub open spec fn has_remote(reverses: Seq<ReverseModel>, remote: Seq<char>) -> bool {
    exists|i: int| 0 <= i < reverses.len() && (#[trigger] reverses[i]).remote == remote
}

/// The serial number that a rule is for: that of the first device that takes requests, or that
/// of a device on this machine.
pub open spec fn default_serial(devices: Seq<DeviceModel>) -> Seq<char> {
    match any_device(devices) {
        Some(d) => d.serial,
        None => "127.0.0.1:5555"@,
    }
}

/// The list of forwarded sockets.
pub open spec fn forward_list(f: Seq<ForwardModel>) -> Seq<char>
    decreases f.len(),
{
    if f.len() == 0 {
        Seq::empty()
    } else {
        forward_list(f.drop_last()) + (f.last().serial + " "@ + f.last().local + " "@
            + f.last().remote + "\n"@)
    }
}

/// The list of reversed sockets.
pub open spec fn reverse_list(r: Seq<ReverseModel>) -> Seq<char>
    decreases r.len(),
{
    if r.len() == 0 {
        Seq::empty()
    } else {
        reverse_list(r.drop_last()) + (r.last().serial + " "@ + r.last().remote + " "@
            + r.last().local + "\n"@)
    }
}

/// The rules after one was added under a name.
pub open spec fn with_forward(m: RegistryModel, name: Seq<char>, remote: Seq<char>, id: u64) -> Seq<
    ForwardModel,
> {
    kept(m.forwards, other_local(name)).push(
        ForwardModel { serial: default_serial(m.devices), local: name, remote, id },
    )
}

/// The rules after one was added for an end on the device.
pub open spec fn with_reverse(m: RegistryModel, remote: Seq<char>, local: Seq<char>) -> Seq<
    ReverseModel,
> {
    kept(m.reverses, other_remote(remote)).push(
        ReverseModel { serial: default_serial(m.devices), remote, local },
    )
}

impl TransportRegistry {
    /// The serial number that a new rule is for.
    fn rule_serial(&self) -> (s: String)
        ensures
            s@ == default_serial(self@.devices),
    {
        match self.find_any_device() {
            Some(d) => d.serial.clone(),
            None => owned("127.0.0.1:5555"),
        }
    }

    fn has_forward(&self, local: &str) -> (r: bool)
        ensures
            r == has_local(self@.forwards, local@),
    {
        let mut i: usize = 0;
        while i < self.forwards.len()
            invariant
                i <= self.forwards@.len(),
                forall|k: int| 0 <= k < i ==> (#[trigger] self@.forwards[k]).local != local@,
            decreases self.forwards@.len() - i,
        {
            if str_eq(self.forwards[i].local.as_str(), local) {
                assert(self@.forwards[i as int].local == local@);
                return true;
            }
            i = i + 1;
        }
        false
    }

    /// Whether a rule is still in force.
    pub fn forward_active(&self, id: u64) -> (r: bool)
        ensures
            r == exists|i: int|
                0 <= i < self@.forwards.len() && (#[trigger] self@.forwards[i]).id == id,
    {
        let mut i: usize = 0;
        while i < self.forwards.len()
            invariant
                i <= self.forwards@.len(),
                forall|k: int| 0 <= k < i ==> (#[trigger] self@.forwards[k]).id != id,
            decreases self.forwards@.len() - i,
        {
            if self.forwards[i].id == id {
                assert(self@.forwards[i as int].id == id);
                return true;
            }
            i = i + 1;
        }
        false
    }

    /// The list of forwarded sockets, one line for each.
    pub fn list_forwards(&self) -> (s: String)
        ensures
            s@ == forward_list(self@.forwards),
    {
        let mut out = String::new();
        let ghost m = self@.forwards;
        let mut i: usize = 0;
        assert(m.take(0) =~= Seq::empty());
        while i < self.forwards.len()
            invariant
                i <= self.forwards@.len(),
                m == self@.forwards,
                out@ == forward_list(m.take(i as int)),
            decreases self.forwards@.len() - i,
        {
            let f = &self.forwards[i];
            let ghost before = out@;
            out.append(f.serial.as_str());
            out.append(" ");
            out.append(f.local.as_str());
            out.append(" ");
            out.append(f.remote.as_str());
            out.append("\n");
            proof {
                let x = m[i as int];
                assert(out@ =~= before + (x.serial + " "@ + x.local + " "@ + x.remote + "\n"@));
                assert(m.take(i + 1).drop_last() =~= m.take(i as int));
            }
            i = i + 1;
        }
        assert(m.take(i as int) =~= m);
        out
    }

    /// Ends the forwarding of a local end, and tells whether it was forwarded.
    pub fn remove_forward(&mut self, local: &str) -> (r: bool)
        ensures
            final(self)@.forwards == kept(old(self)@.forwards, other_local(local@)),
            final(self)@.devices == old(self)@.devices,
            final(self)@.reverses == old(self)@.reverses,
            r == (has_local(old(self)@.forwards, local@) || has_local(
                old(self)@.forwards,
                canonical_local(local@),
            )),
    {
        let chars = chars_of(local);
        let mut canonical = owned(local);
        if !starts_with(chars.as_slice(), "tcp:") && is_all_digits(chars.as_slice()) {
            canonical = owned("tcp:");
            canonical.append(local);
        }
        let found = self.has_forward(local) || self.has_forward(canonical.as_str());
        let ghost all = self@.forwards;
        let ghost keep = other_local(local@);
        let mut at: usize = 0;
        let ghost mut seen: int = 0;
        assert(all.take(0) =~= Seq::empty());
        assert(kept(all.take(0), keep) + all.skip(0) =~= all);
        while at < self.forwards.len()
            invariant
                0 <= seen <= all.len(),
                at <= self.forwards@.len(),
                canonical@ == canonical_local(local@),
                keep == other_local(local@),
                self@.devices == old(self)@.devices,
                self@.reverses == old(self)@.reverses,
                at == kept(all.take(seen), keep).len(),
                self@.forwards == kept(all.take(seen), keep) + all.skip(seen),
            decreases self.forwards@.len() - at,
        {
            let ghost now = self@.forwards;
            proof {
                assert(seen < all.len());
                assert(all.take(seen + 1).drop_last() =~= all.take(seen));
                assert(all.take(seen + 1).last() == all[seen]);
                assert(now[at as int] == all.skip(seen)[0]);
            }
            if str_eq(self.forwards[at].local.as_str(), canonical.as_str()) || str_eq(
                self.forwards[at].local.as_str(),
                local,
            ) {
                self.forwards.remove(at);
                proof {
                    assert(self@.forwards =~= now.remove(at as int));
                    assert(self@.forwards =~= kept(all.take(seen + 1), keep) + all.skip(seen + 1));
                }
            } else {
                proof {
                    assert(now =~= kept(all.take(seen + 1), keep) + all.skip(seen + 1));
                }
                at = at + 1;
            }
            proof {
                seen = seen + 1;
            }
        }
        proof {
            assert(all.skip(seen).len() == 0);
            assert(all.take(seen) =~= all);
            assert(self@.forwards =~= kept(all, keep));
        }
        found
    }

    /// Ends all forwarding.
    pub fn remove_all_forwards(&mut self)
        ensures
            final(self)@.forwards == Seq::<ForwardModel>::empty(),
            final(self)@.devices == old(self)@.devices,
            final(self)@.reverses == old(self)@.reverses,
    {
        self.forwards = Vec::new();
        assert(self@.forwards =~= Seq::<ForwardModel>::empty());
    }

    /// Forwards a local end to one on the device, in place of what it led to before. `bound` is
    /// the port that is listened on, where the local end is a port. Gives the port as text where
    /// any would do, else nothing.
    pub fn add_forward(
        &mut self,
        local_spec: &str,
        remote_spec: &str,
        no_rebind: bool,
        bound: Option<u16>,
        id: u64,
    ) -> (r: Result<String, String>)
        ensures
            final(self)@.devices == old(self)@.devices,
            final(self)@.reverses == old(self)@.reverses,
            ({
                let name = forward_name(local_spec@, bound);
                if no_rebind && has_local(old(self)@.forwards, name) {
                    final(self)@.forwards == old(self)@.forwards && (r matches Err(m) && m@
                        == "forward '"@ + name + "' already exists"@)
                } else {
                    final(self)@.forwards == with_forward(old(self)@, name, remote_spec@, id) && (
                    r matches Ok(s) && s@ == if local_spec@ == "tcp:0"@ || local_spec@ == "0"@ {
                        dec(
                            match bound {
                                Some(p) => p as nat,
                                None => 0,
                            },
                        )
                    } else {
                        Seq::empty()
                    })
                }
            }),
    {
        let name = match bound {
            Some(p) => {
                let mut s = owned("tcp:");
                s.append(decimal(p as u64).as_str());
                s
            },
            None => owned(local_spec),
        };
        if no_rebind && self.has_forward(name.as_str()) {
            let mut m = owned("forward '");
            m.append(name.as_str());
            m.append("' already exists");
            return Err(m);
        }
        self.remove_forward(name.as_str());
        let serial = self.rule_serial();
        let ghost before = self@.forwards;
        self.forwards.push(ForwardRule { serial, local: name, remote: owned(remote_spec), id });
        assert(self@.forwards =~= with_forward(
            old(self)@,
            forward_name(local_spec@, bound),
            remote_spec@,
            id,
        ));
        if str_eq(local_spec, "tcp:0") || str_eq(local_spec, "0") {
            let port: u16 = match bound {
                Some(p) => p,
                None => 0,
            };
            Ok(decimal(port as u64))
        } else {
            let s = String::new();
            assert(s@ =~= Seq::<char>::empty());
            Ok(s)
        }
    }

    fn has_reverse(&self, remote: &str) -> (r: bool)
        ensures
            r == has_remote(self@.reverses, remote@),
    {
        let mut i: usize = 0;
        while i < self.reverses.len()
            invariant
                i <= self.reverses@.len(),
                forall|k: int| 0 <= k < i ==> (#[trigger] self@.reverses[k]).remote != remote@,
            decreases self.reverses@.len() - i,
        {
            if str_eq(self.reverses[i].remote.as_str(), remote) {
                assert(self@.reverses[i as int].remote == remote@);
                return true;
            }
            i = i + 1;
        }
        false
    }

    /// The list of reversed sockets, one line for each.
    pub fn list_reverses(&self) -> (s: String)
        ensures
            s@ == reverse_list(self@.reverses),
    {
        let mut out = String::new();
        let ghost m = self@.reverses;
        let mut i: usize = 0;
        assert(m.take(0) =~= Seq::empty());
        while i < self.reverses.len()
            invariant
                i <= self.reverses@.len(),
                m == self@.reverses,
                out@ == reverse_list(m.take(i as int)),
            decreases self.reverses@.len() - i,
        {
            let f = &self.reverses[i];
            let ghost before = out@;
            out.append(f.serial.as_str());
            out.append(" ");
            out.append(f.remote.as_str());
            out.append(" ");
            out.append(f.local.as_str());
            out.append("\n");
            proof {
                let x = m[i as int];
                assert(out@ =~= before + (x.serial + " "@ + x.remote + " "@ + x.local + "\n"@));
                assert(m.take(i + 1).drop_last() =~= m.take(i as int));
            }
            i = i + 1;
        }
        assert(m.take(i as int) =~= m);
        out
    }

    /// Ends the reversing of an end on the device, and tells whether it was reversed.
    pub fn remove_reverse(&mut self, remote: &str) -> (r: bool)
        ensures
            final(self)@.reverses == kept(old(self)@.reverses, other_remote(remote@)),
            final(self)@.devices == old(self)@.devices,
            final(self)@.forwards == old(self)@.forwards,
            r == has_remote(old(self)@.reverses, remote@),
    {
        let found = self.has_reverse(remote);
        let ghost all = self@.reverses;
        let ghost keep = other_remote(remote@);
        let mut at: usize = 0;
        let ghost mut seen: int = 0;
        assert(all.take(0) =~= Seq::empty());
        assert(kept(all.take(0), keep) + all.skip(0) =~= all);
        while at < self.reverses.len()
            invariant
                0 <= seen <= all.len(),
                at <= self.reverses@.len(),
                keep == other_remote(remote@),
                self@.devices == old(self)@.devices,
                self@.forwards == old(self)@.forwards,
                at == kept(all.take(seen), keep).len(),
                self@.reverses == kept(all.take(seen), keep) + all.skip(seen),
            decreases self.reverses@.len() - at,
        {
            let ghost now = self@.reverses;
            proof {
                assert(seen < all.len());
                assert(all.take(seen + 1).drop_last() =~= all.take(seen));
                assert(all.take(seen + 1).last() == all[seen]);
                assert(now[at as int] == all.skip(seen)[0]);
            }
            if str_eq(self.reverses[at].remote.as_str(), remote) {
                self.reverses.remove(at);
                proof {
                    assert(self@.reverses =~= now.remove(at as int));
                    assert(self@.reverses =~= kept(all.take(seen + 1), keep) + all.skip(seen + 1));
                }
            } else {
                proof {
                    assert(now =~= kept(all.take(seen + 1), keep) + all.skip(seen + 1));
                }
                at = at + 1;
            }
            proof {
                seen = seen + 1;
            }
        }
        proof {
            assert(all.skip(seen).len() == 0);
            assert(all.take(seen) =~= all);
            assert(self@.reverses =~= kept(all, keep));
        }
        found
    }

    /// Ends all reversing.
    pub fn remove_all_reverses(&mut self)
        ensures
            final(self)@.reverses == Seq::<ReverseModel>::empty(),
            final(self)@.devices == old(self)@.devices,
            final(self)@.forwards == old(self)@.forwards,
    {
        self.reverses = Vec::new();
        assert(self@.reverses =~= Seq::<ReverseModel>::empty());
    }

    /// Reverses an end on the device to one on this machine, in place of what it led to before.
    pub fn add_reverse(&mut self, remote: &str, local: &str, no_rebind: bool) -> (r: Result<
        (),
        String,
    >)
        ensures
            final(self)@.devices == old(self)@.devices,
            final(self)@.forwards == old(self)@.forwards,
            if no_rebind && has_remote(old(self)@.reverses, remote@) {
                final(self)@.reverses == old(self)@.reverses && (r matches Err(m) && m@
                    == "reverse forward '"@ + remote@ + "' already exists"@)
            } else {
                final(self)@.reverses == with_reverse(old(self)@, remote@, local@) && r is Ok
            },
    {
        if no_rebind && self.has_reverse(remote) {
            let mut m = owned("reverse forward '");
            m.append(remote);
            m.append("' already exists");
            return Err(m);
        }
        self.remove_reverse(remote);
        let serial = self.rule_serial();
        self.reverses.push(ReverseRule { serial, remote: owned(remote), local: owned(local) });
        assert(self@.reverses =~= with_reverse(old(self)@, remote@, local@));
        Ok(())
    }
}

/// What the last piece that starts with a key says behind it.
pub open spec fn last_value(pieces: Seq<Seq<char>>, key: Seq<char>) -> Option<Seq<char>>
    decreases pieces.len(),
{
    if pieces.len() == 0 {
        None
    } else if is_prefix(key, pieces.last()) {
        Some(pieces.last().skip(key.len() as int))
    } else {
        last_value(pieces.drop_last(), key)
    }
}

/// A value, or else what was there before.
pub open spec fn or_before(new: Option<Seq<char>>, before: Option<Seq<char>>) -> Option<Seq<char>> {
    match new {
        Some(v) => Some(v),
        None => before,
    }
}

/// A device after its banner was read.
pub open spec fn with_banner(d: DeviceModel, banner: Seq<char>) -> DeviceModel {
    let pieces = split(trimmed(banner), ';');
    DeviceModel {
        transport_features: Some(banner),
        product: or_before(last_value(pieces, "product="@), d.product),
        model: or_before(last_value(pieces, "model="@), d.model),
        device_name: or_before(last_value(pieces, "device="@), d.device_name),
        ..d
    }
}

fn find_last_value(pieces: &Vec<Vec<char>>, key: &str, before: Option<String>) -> (r: Option<String>)
    ensures
        opt_view(r) == or_before(last_value(char_views(pieces@), key@), opt_view(before)),
{
    let ghost views = char_views(pieces@);
    let k = chars_of(key);
    let mut i: usize = pieces.len();
    assert(views.take(i as int) =~= views);
    while i > 0
        invariant
            i <= pieces@.len(),
            k@ == key@,
            views == char_views(pieces@),
            last_value(views.take(i as int), key@) == last_value(views, key@),
        decreases i,
    {
        let piece = pieces[i - 1].as_slice();
        assert(views.take(i as int).last() == piece@);
        assert(views.take(i as int).drop_last() =~= views.take(i - 1));
        if starts_with(piece, key) {
            let value = slice_subrange(piece, k.len(), piece.len());
            assert(value@ =~= piece@.skip(key@.len() as int));
            return Some(string_of(value));
        }
        i = i - 1;
    }
    assert(views.take(0).len() == 0);
    before
}

impl TransportRegistry {
    /// Notes what a device's banner tells of it.
    pub fn note_banner(&mut self, serial: &str, banner: &[u8])
        ensures
            final(self)@.forwards == old(self)@.forwards,
            final(self)@.reverses == old(self)@.reverses,
            ({
                let i = device_index(old(self)@.devices, serial@);
                final(self)@.devices == if i < old(self)@.devices.len() {
                    old(self)@.devices.update(
                        i,
                        with_banner(old(self)@.devices[i], lossy_text(banner@)),
                    )
                } else {
                    old(self)@.devices
                }
            }),
    {
        let ghost all = self@.devices;
        if let Some(i) = self.position(serial) {
            let text = from_utf8_lossy(banner);
            let chars = chars_of(text.as_str());
            let pieces = split_char(trim(chars.as_slice()), ';');
            let d = &self.devices[i];
            let updated = DeviceEntry {
                serial: d.serial.clone(),
                state: d.state,
                origin: d.origin.duplicate(),
                product: find_last_value(&pieces, "product=", copied(&d.product)),
                model: find_last_value(&pieces, "model=", copied(&d.model)),
                device_name: find_last_value(&pieces, "device=", copied(&d.device_name)),
                transport_features: Some(text),
            };
            assert(updated@ == with_banner(all[i as int], lossy_text(banner@)));
            self.devices[i] = updated;
            assert(self@.devices =~= all.update(
                i as int,
                with_banner(all[i as int], lossy_text(banner@)),
            ));
        }
    }
}

fn copied(s: &Option<String>) -> (r: Option<String>)
    ensures
        opt_view(r) == opt_view(*s),
{
    match s {
        Some(t) => Some(t.clone()),
        None => None,
    }
}

spec fn apart_serials() -> spec_fn(DeviceModel, DeviceModel) -> bool {
    |a: DeviceModel, b: DeviceModel| a.serial != b.serial
}

spec fn distinct_serials(d: Seq<DeviceModel>) -> bool {
    forall|i: int, j: int|
        0 <= i < j < d.len() ==> (#[trigger] d[i]).serial != (#[trigger] d[j]).serial
}

proof fn lemma_kept_serials(d: Seq<DeviceModel>, keep: spec_fn(DeviceModel) -> bool)
    requires
        distinct_serials(d),
    ensures
        distinct_serials(kept(d, keep)),
{
    let apart = apart_serials();
    assert forall|i: int, j: int| 0 <= i < j < d.len() implies apart(
        #[trigger] d[i],
        #[trigger] d[j],
    ) by {}
    lemma_kept_pairwise(d, keep, apart);
    let k = kept(d, keep);
    assert forall|i: int, j: int| 0 <= i < j < k.len() implies (#[trigger] k[i]).serial != (
    #[trigger] k[j]).serial by {
        assert(apart(k[i], k[j]));
    }
}

proof fn lemma_pushed_serial(d: Seq<DeviceModel>, x: DeviceModel)
    requires
        distinct_serials(d),
        device_by_serial(d, x.serial) is None,
    ensures
        distinct_serials(d.push(x)),
{
    lemma_device_index(d, x.serial);
}

proof fn lemma_with_usb(d: Seq<DeviceModel>, names: Seq<Seq<char>>)
    requires
        distinct_serials(d),
    ensures
        distinct_serials(with_usb(d, names)),
        forall|i: int| 0 <= i < d.len() ==> with_usb(d, names).contains(#[trigger] d[i]),
        forall|k: int|
            0 <= k < names.len() ==> device_by_serial(with_usb(d, names), #[trigger] names[k])
                is Some,
        forall|i: int|
            0 <= i < with_usb(d, names).len() ==> d.contains(#[trigger] with_usb(d, names)[i]) || (
            with_usb(d, names)[i] == usb_device(with_usb(d, names)[i].serial) && names.contains(
                with_usb(d, names)[i].serial,
            )),
    decreases names.len(),
{
    let w = with_usb(d, names);
    if names.len() == 0 {
        assert forall|i: int| 0 <= i < d.len() implies w.contains(#[trigger] d[i]) by {
            assert(w[i] == d[i]);
        }
    } else {
        let front = names.drop_last();
        let before = with_usb(d, front);
        let last = names.last();
        lemma_with_usb(d, front);
        if device_by_serial(before, last) is None {
            lemma_pushed_serial(before, usb_device(last));
            lemma_device_index(w, last);
            assert(w[w.len() - 1].serial == last);
        }
        assert forall|i: int| 0 <= i < d.len() implies w.contains(#[trigger] d[i]) by {
            let j = choose|j: int| 0 <= j < before.len() && before[j] == d[i];
            assert(w[j] == d[i]);
        }
        assert forall|k: int| 0 <= k < names.len() implies device_by_serial(
            w,
            #[trigger] names[k],
        ) is Some by {
            lemma_device_index(w, names[k]);
            if k < front.len() {
                assert(front[k] == names[k]);
                lemma_device_index(before, names[k]);
                let j = device_index(before, names[k]);
                assert(w[j].serial == names[k]);
            }
        }
        assert forall|i: int| 0 <= i < w.len() implies d.contains(#[trigger] w[i]) || (w[i]
            == usb_device(w[i].serial) && names.contains(w[i].serial)) by {
            if i < before.len() {
                assert(w[i] == before[i]);
                if !d.contains(before[i]) {
                    let k = choose|k: int| 0 <= k < front.len() && front[k] == w[i].serial;
                    assert(names[k] == w[i].serial);
                }
            } else {
                assert(names[names.len() - 1] == w[i].serial);
            }
        }
    }
}

/// Serial numbers stay distinct through a look at the bus, the coming of a TCP device and the
/// going of any.
pub proof fn serials_stay_distinct(
    m: RegistryModel,
    names: Seq<Seq<char>>,
    serial: Seq<char>,
    ip: Seq<char>,
    port: u16,
)
    requires
        m.wf(),
    ensures
        (RegistryModel { devices: refreshed(m.devices, names), ..m }).wf(),
        (RegistryModel { devices: with_tcp(m.devices, serial, ip, port), ..m }).wf(),
        (RegistryModel { devices: kept(m.devices, other_serial(serial)), ..m }).wf(),
        (RegistryModel { devices: kept(m.devices, on_usb()), ..m }).wf(),
{
    let d = m.devices;
    assert(distinct_serials(d));
    lemma_with_usb(d, names);
    lemma_kept_serials(with_usb(d, names), still_there(names));
    lemma_kept_serials(d, other_serial(serial));
    lemma_kept_serials(d, on_usb());
    lemma_device_index(d, serial);
    if device_index(d, serial) < d.len() {
        let w = with_tcp(d, serial, ip, port);
        assert forall|i: int, j: int| 0 <= i < j < w.len() implies (#[trigger] w[i]).serial != (
        #[trigger] w[j]).serial by {
            assert(w[i].serial == d[i].serial);
            assert(w[j].serial == d[j].serial);
        }
    } else {
        lemma_pushed_serial(d, tcp_device(serial, ip, port));
    }
}

/// After a look at the bus, every device on it is known, no USB device is known that is not on
/// it, and the devices that are not USB devices are those from before.
pub proof fn refresh_follows_the_bus(m: RegistryModel, names: Seq<Seq<char>>)
    requires
        m.wf(),
    ensures
        forall|d: DeviceModel| #[trigger]
            refreshed(m.devices, names).contains(d) && d.origin is Usb ==> names.contains(d.serial),
        forall|d: DeviceModel|
            !(d.origin is Usb) ==> (m.devices.contains(d) <==> #[trigger] refreshed(
                m.devices,
                names,
            ).contains(d)),
        forall|k: int|
            0 <= k < names.len() ==> device_by_serial(
                refreshed(m.devices, names),
                #[trigger] names[k],
            ) is Some,
{
    let d0 = m.devices;
    let w = with_usb(d0, names);
    let keep = still_there(names);
    let r = refreshed(d0, names);
    assert(distinct_serials(d0));
    lemma_with_usb(d0, names);
    lemma_kept(w, keep);
    assert forall|d: DeviceModel| #[trigger] r.contains(d) && d.origin is Usb implies names.contains(
        d.serial,
    ) by {
        let i = choose|i: int| 0 <= i < r.len() && r[i] == d;
        assert(keep(r[i]));
    }
    assert forall|d: DeviceModel| !(d.origin is Usb) implies (d0.contains(d)
        <==> #[trigger] r.contains(d)) by {
        if d0.contains(d) {
            let i = choose|i: int| 0 <= i < d0.len() && d0[i] == d;
            assert(w.contains(d0[i]));
            let j = choose|j: int| 0 <= j < w.len() && w[j] == d;
            assert(keep(w[j]));
        }
        if r.contains(d) {
            let i = choose|i: int| 0 <= i < r.len() && r[i] == d;
            assert(w.contains(r[i]));
            let j = choose|j: int| 0 <= j < w.len() && w[j] == d;
            assert(d0.contains(w[j]));
        }
    }
    assert forall|k: int| 0 <= k < names.len() implies device_by_serial(r, #[trigger] names[k])
        is Some by {
        assert(device_by_serial(w, names[k]) is Some);
        lemma_device_index(w, names[k]);
        let i = device_index(w, names[k]);
        assert(names.contains(names[k]));
        assert(keep(w[i]));
        assert(r.contains(w[i]));
        let j = choose|j: int| 0 <= j < r.len() && r[j] == w[i];
        lemma_device_index(r, names[k]);
    }
}

/// Names of forwarded and reversed sockets stay distinct through adding and removing.
pub proof fn rules_stay_distinct(
    m: RegistryModel,
    name: Seq<char>,
    other_end: Seq<char>,
    id: u64,
)
    requires
        m.wf(),
    ensures
        (RegistryModel { forwards: with_forward(m, name, other_end, id), ..m }).wf(),
        (RegistryModel { forwards: kept(m.forwards, other_local(name)), ..m }).wf(),
        (RegistryModel { reverses: with_reverse(m, name, other_end), ..m }).wf(),
        (RegistryModel { reverses: kept(m.reverses, other_remote(name)), ..m }).wf(),
{
    let fs = m.forwards;
    let rs = m.reverses;
    let fapart = |a: ForwardModel, b: ForwardModel| a.local != b.local;
    let rapart = |a: ReverseModel, b: ReverseModel| a.remote != b.remote;
    assert forall|i: int, j: int| 0 <= i < j < fs.len() implies fapart(
        #[trigger] fs[i],
        #[trigger] fs[j],
    ) by {}
    assert forall|i: int, j: int| 0 <= i < j < rs.len() implies rapart(
        #[trigger] rs[i],
        #[trigger] rs[j],
    ) by {}
    lemma_kept_pairwise(fs, other_local(name), fapart);
    lemma_kept_pairwise(rs, other_remote(name), rapart);
    lemma_kept(fs, other_local(name));
    lemma_kept(rs, other_remote(name));
    let kf = kept(fs, other_local(name));
    let kr = kept(rs, other_remote(name));
    assert forall|i: int, j: int| 0 <= i < j < kf.len() implies (#[trigger] kf[i]).local != (
    #[trigger] kf[j]).local by {
        assert(fapart(kf[i], kf[j]));
    }
    assert forall|i: int, j: int| 0 <= i < j < kr.len() implies (#[trigger] kr[i]).remote != (
    #[trigger] kr[j]).remote by {
        assert(rapart(kr[i], kr[j]));
    }
    assert forall|i: int| 0 <= i < kf.len() implies (#[trigger] kf[i]).local != name by {
        assert(other_local(name)(kf[i]));
    }
    assert forall|i: int| 0 <= i < kr.len() implies (#[trigger] kr[i]).remote != name by {
        assert(other_remote(name)(kr[i]));
    }
}

proof fn lemma_kept_again<M>(s: Seq<M>, keep: spec_fn(M) -> bool)
    ensures
        kept(kept(s, keep), keep) == kept(s, keep),
    decreases s.len(),
{
    if s.len() > 0 {
        lemma_kept_again(s.drop_last(), keep);
        let before = kept(s.drop_last(), keep);
        if keep(s.last()) {
            assert(before.push(s.last()).drop_last() =~= before);
        }
    }
}

/// Removing what was added under a name leaves what removing the name would have left, and
/// finds it.
pub proof fn removing_undoes_adding(
    m: RegistryModel,
    name: Seq<char>,
    other_end: Seq<char>,
    id: u64,
)
    ensures
        kept(with_forward(m, name, other_end, id), other_local(name)) == kept(
            m.forwards,
            other_local(name),
        ),
        has_local(with_forward(m, name, other_end, id), name),
        kept(with_reverse(m, name, other_end), other_remote(name)) == kept(
            m.reverses,
            other_remote(name),
        ),
        has_remote(with_reverse(m, name, other_end), name),
{
    lemma_kept_again(m.forwards, other_local(name));
    lemma_kept_again(m.reverses, other_remote(name));
    let f = with_forward(m, name, other_end, id);
    let r = with_reverse(m, name, other_end);
    assert(f.drop_last() =~= kept(m.forwards, other_local(name)));
    assert(r.drop_last() =~= kept(m.reverses, other_remote(name)));
    assert(f[f.len() - 1].local == name);
    assert(r[r.len() - 1].remote == name);
}

proof fn lemma_kept_all<M>(s: Seq<M>, keep: spec_fn(M) -> bool)
    requires
        forall|i: int| 0 <= i < s.len() ==> keep(#[trigger] s[i]),
    ensures
        kept(s, keep) == s,
    decreases s.len(),
{
    if s.len() > 0 {
        let t = s.drop_last();
        assert forall|i: int| 0 <= i < t.len() implies keep(#[trigger] t[i]) by {
            assert(t[i] == s[i]);
        }
        lemma_kept_all(t, keep);
        assert(t.push(s.last()) =~= s);
    }
}

proof fn lemma_kept_concat<M>(a: Seq<M>, b: Seq<M>, keep: spec_fn(M) -> bool)
    ensures
        kept(a + b, keep) == kept(a, keep) + kept(b, keep),
    decreases b.len(),
{
    if b.len() == 0 {
        assert(a + b =~= a);
        assert(kept(a, keep) + kept(b, keep) =~= kept(a, keep));
    } else {
        assert((a + b).drop_last() =~= a + b.drop_last());
        assert((a + b).last() == b.last());
        lemma_kept_concat(a, b.drop_last(), keep);
        assert(kept(a + b, keep) =~= kept(a, keep) + kept(b, keep));
    }
}

proof fn lemma_kept_but_one<M>(s: Seq<M>, i: int, keep: spec_fn(M) -> bool)
    requires
        0 <= i < s.len(),
        !keep(s[i]),
        forall|j: int| 0 <= j < s.len() && j != i ==> keep(#[trigger] s[j]),
    ensures
        kept(s, keep) == s.remove(i),
{
    let a = s.take(i);
    let b = s.skip(i + 1);
    let x = seq![s[i]];
    assert(s =~= a + (x + b));
    lemma_kept_concat(a, x + b, keep);
    lemma_kept_concat(x, b, keep);
    assert forall|j: int| 0 <= j < a.len() implies keep(#[trigger] a[j]) by {
        assert(a[j] == s[j]);
    }
    assert forall|j: int| 0 <= j < b.len() implies keep(#[trigger] b[j]) by {
        assert(b[j] == s[j + i + 1]);
    }
    lemma_kept_all(a, keep);
    lemma_kept_all(b, keep);
    assert(x.drop_last() =~= Seq::<M>::empty());
    assert(kept(x.drop_last(), keep) =~= Seq::<M>::empty());
    assert(kept(x, keep) =~= Seq::<M>::empty());
    assert(s.remove(i) =~= a + (Seq::<M>::empty() + b));
}

/// Taking away a device by its serial takes away that device and no other; where there is none
/// of that serial, nothing is taken away.
pub proof fn one_device_is_removed(m: RegistryModel, i: int, serial: Seq<char>)
    requires
        m.wf(),
    ensures
        0 <= i < m.devices.len() ==> kept(m.devices, other_serial(m.devices[i].serial))
            == m.devices.remove(i),
        (forall|j: int| 0 <= j < m.devices.len() ==> (#[trigger] m.devices[j]).serial != serial)
            ==> kept(m.devices, other_serial(serial)) == m.devices,
{
    if 0 <= i < m.devices.len() {
        let keep = other_serial(m.devices[i].serial);
        assert forall|j: int| 0 <= j < m.devices.len() && j != i implies keep(
            #[trigger] m.devices[j],
        ) by {
            if j < i {
                assert(m.devices[j].serial != m.devices[i].serial);
            } else {
                assert(m.devices[i].serial != m.devices[j].serial);
            }
        }
        lemma_kept_but_one(m.devices, i, keep);
    }
    if forall|j: int| 0 <= j < m.devices.len() ==> (#[trigger] m.devices[j]).serial != serial {
        lemma_kept_all(m.devices, other_serial(serial));
    }
}

/// Taking away what is connected over the network leaves every device on USB, in its order, and
/// nothing else.
pub proof fn usb_devices_stay(a: Seq<DeviceModel>, d: DeviceModel, b: Seq<DeviceModel>)
    ensures
        kept(a + seq![d] + b, on_usb()) == kept(a, on_usb()) + (if d.origin == OriginModel::Usb {
            seq![d]
        } else {
            Seq::empty()
        }) + kept(b, on_usb()),
        kept(Seq::<DeviceModel>::empty(), on_usb()) == Seq::<DeviceModel>::empty(),
{
    let x = seq![d];
    lemma_kept_concat(a + x, b, on_usb());
    lemma_kept_concat(a, x, on_usb());
    assert(x.drop_last() =~= Seq::<DeviceModel>::empty());
    assert(kept(x.drop_last(), on_usb()) =~= Seq::<DeviceModel>::empty());
    assert(kept(x, on_usb()) =~= if d.origin == OriginModel::Usb {
        x
    } else {
        Seq::empty()
    });
}

/// Adding a device over the network: one that is known is back, and keeps all that is known of
/// it; one that is not is added behind the others with its address. No other device changes.
pub proof fn network_device_is_added(
    m: RegistryModel,
    serial: Seq<char>,
    ip: Seq<char>,
    port: u16,
    i: int,
)
    requires
        m.wf(),
    ensures
        0 <= i < m.devices.len() ==> with_tcp(m.devices, m.devices[i].serial, ip, port)
            == m.devices.update(
            i,
            DeviceModel {
                serial: m.devices[i].serial,
                state: DeviceState::Device,
                origin: m.devices[i].origin,
                product: m.devices[i].product,
                model: m.devices[i].model,
                device_name: m.devices[i].device_name,
                transport_features: m.devices[i].transport_features,
            },
        ),
        (forall|j: int| 0 <= j < m.devices.len() ==> (#[trigger] m.devices[j]).serial != serial)
            ==> with_tcp(m.devices, serial, ip, port) == m.devices + seq![
            DeviceModel {
                serial,
                state: DeviceState::Device,
                origin: OriginModel::Tcp { ip, port },
                product: None,
                model: None,
                device_name: None,
                transport_features: None,
            },
        ],
{
    if 0 <= i < m.devices.len() {
        let known = m.devices[i].serial;
        lemma_device_index(m.devices, known);
        let k = device_index(m.devices, known);
        if k < i {
            assert(m.devices[k].serial != m.devices[i].serial);
        } else if i < k {
            assert(m.devices[i].serial != known);
        }
    }
    lemma_device_index(m.devices, serial);
    assert(m.devices.push(tcp_device(serial, ip, port)) =~= m.devices + seq![
        tcp_device(serial, ip, port),
    ]);
}

/// A device is found by its serial, wherever it stands, and only one that is there is found.
pub proof fn devices_are_found(m: RegistryModel, i: int, serial: Seq<char>)
    requires
        m.wf(),
    ensures
        0 <= i < m.devices.len() ==> device_by_serial(m.devices, m.devices[i].serial) == Some(
            m.devices[i],
        ),
        device_by_serial(m.devices, serial) is None <==> forall|j: int|
            0 <= j < m.devices.len() ==> (#[trigger] m.devices[j]).serial != serial,
{
    if 0 <= i < m.devices.len() {
        let known = m.devices[i].serial;
        lemma_device_index(m.devices, known);
        let k = device_index(m.devices, known);
        if k < i {
            assert(m.devices[k].serial != m.devices[i].serial);
        } else if i < k {
            assert(m.devices[i].serial != known);
        }
    }
    lemma_device_index(m.devices, serial);
}

/// Where any device will do, it is the first that can be used.
pub proof fn first_usable_device_is_taken(
    a: Seq<DeviceModel>,
    d: DeviceModel,
    b: Seq<DeviceModel>,
)
    requires
        forall|i: int|
            0 <= i < a.len() ==> {
                let state = (#[trigger] a[i]).state;
                state != DeviceState::Device && state != DeviceState::Recovery && state
                    != DeviceState::Sideload && state != DeviceState::Bootloader
            },
    ensures
        any_device(a) is None,
        d.state == DeviceState::Device || d.state == DeviceState::Recovery || d.state
            == DeviceState::Sideload || d.state == DeviceState::Bootloader ==> any_device(
            a + seq![d] + b,
        ) == Some(d) && default_serial(a + seq![d] + b) == d.serial,
        default_serial(a) == "127.0.0.1:5555"@,
    decreases a.len(),
{
    let all = a + seq![d] + b;
    if a.len() == 0 {
        assert(all[0] == d);
    } else {
        assert(!usable(a[0].state));
        let left = a.skip(1);
        assert(all[0] == a[0]);
        assert(all.skip(1) =~= left + seq![d] + b);
        assert forall|i: int| 0 <= i < left.len() implies !usable((#[trigger] left[i]).state) by {
            assert(left[i] == a[i + 1]);
        }
        first_usable_device_is_taken(left, d, b);
    }
}

/// The words of the states differ from each other, and a device can be used exactly in the states
/// of these four words.
pub proof fn states_have_their_words(s: DeviceState, t: DeviceState)
    ensures
        state_text(s) == state_text(t) ==> s == t,
        usable(s) <==> {
            ||| state_text(s) == "device"@
            ||| state_text(s) == "recovery"@
            ||| state_text(s) == "sideload"@
            ||| state_text(s) == "bootloader"@
        },
        state_text(DeviceState::Offline) == "offline"@,
        state_text(DeviceState::Device) == "device"@,
        state_text(DeviceState::Recovery) == "recovery"@,
        state_text(DeviceState::Sideload) == "sideload"@,
        state_text(DeviceState::Bootloader) == "bootloader"@,
        state_text(DeviceState::Authorizing) == "authorizing"@,
        state_text(DeviceState::Connecting) == "connecting"@,
        state_text(DeviceState::NoPerm) == "no permissions"@,
        state_text(DeviceState::Unknown) == "unknown"@,
{
    reveal_strlit("offline");
    reveal_strlit("device");
    reveal_strlit("recovery");
    reveal_strlit("sideload");
    reveal_strlit("bootloader");
    reveal_strlit("authorizing");
    reveal_strlit("connecting");
    reveal_strlit("no permissions");
    reveal_strlit("unknown");
    assert("offline"@[0] == 'o' && "device"@[0] == 'd' && "recovery"@[0] == 'r' && "sideload"@[0]
        == 's' && "bootloader"@[0] == 'b' && "authorizing"@[0] == 'a' && "connecting"@[0] == 'c'
        && "no permissions"@[0] == 'n' && "unknown"@[0] == 'u');
}

/// A list of devices has one line for each, in their order: the serial, a tab and the state, and
/// in the long form the product, the model and the device.
pub proof fn devices_are_listed_line_by_line(a: Seq<DeviceModel>, d: DeviceModel, verbose: bool)
    ensures
        device_list(Seq::empty(), verbose) == Seq::<char>::empty(),
        device_list(a + seq![d], verbose) == device_list(a, verbose) + (d.serial + seq!['\t']
            + state_text(d.state) + (if verbose {
            " product:"@ + (match d.product {
                Some(x) => x,
                None => "unknown"@,
            }) + (" model:"@ + match d.model {
                Some(x) => x,
                None => "unknown"@,
            }) + (" device:"@ + match d.device_name {
                Some(x) => x,
                None => "unknown"@,
            })
        } else {
            Seq::empty()
        }) + seq!['\n']),
{
    reveal_strlit("\t");
    reveal_strlit("\n");
    assert("\t"@ =~= seq!['\t']);
    assert("\n"@ =~= seq!['\n']);
    let all = a + seq![d];
    assert(all.drop_last() =~= a);
    assert(all.last() == d);
    let product = match d.product {
        Some(x) => x,
        None => "unknown"@,
    };
    let model = match d.model {
        Some(x) => x,
        None => "unknown"@,
    };
    let device = match d.device_name {
        Some(x) => x,
        None => "unknown"@,
    };
    let head = d.serial + seq!['\t'] + state_text(d.state);
    if verbose {
        assert(device_line(d, verbose) =~= head + (" product:"@ + product + (" model:"@ + model) + (
        " device:"@ + device)) + seq!['\n']);
    } else {
        assert(device_line(d, verbose) =~= head + Seq::empty() + seq!['\n']);
    }
}

/// A list of rules has one line for each, in their order: the serial and the two ends.
pub proof fn rules_are_listed_line_by_line(
    a: Seq<ForwardModel>,
    f: ForwardModel,
    b: Seq<ReverseModel>,
    r: ReverseModel,
)
    ensures
        forward_list(Seq::empty()) == Seq::<char>::empty(),
        forward_list(a + seq![f]) == forward_list(a) + (f.serial + seq![' '] + f.local + seq![' ']
            + f.remote + seq!['\n']),
        reverse_list(Seq::empty()) == Seq::<char>::empty(),
        reverse_list(b + seq![r]) == reverse_list(b) + (r.serial + seq![' '] + r.remote + seq![' ']
            + r.local + seq!['\n']),
{
    reveal_strlit(" ");
    reveal_strlit("\n");
    assert(" "@ =~= seq![' ']);
    assert("\n"@ =~= seq!['\n']);
    assert((a + seq![f]).drop_last() =~= a);
    assert((b + seq![r]).drop_last() =~= b);
}

proof fn lemma_decimal(p: u16)
    ensures
        unsigned_spec(dec(p as nat), 10, 65535) == Some(p as nat),
        all_digits(dec(p as nat)),
        dec(p as nat).len() > 0,
        !is_prefix("tcp:"@, dec(p as nat)),
{
    reveal_strlit("tcp:");
    let d = dec(p as nat);
    number_round_trip(p as nat, 10);
    assert forall|i: int| 0 <= i < d.len() implies '0' <= #[trigger] d[i] <= '9' by {
        assert(digit_value(d[i]) < 10);
    }
    assert('0' <= d[0] <= '9');
    if is_prefix("tcp:"@, d) {
        assert(d.subrange(0, 4)[0] == d[0]);
    }
}

/// A port may be named alone or behind `tcp:`: either way it is that port, the rule bears the
/// same name, and either way the rule is taken away again.
pub proof fn ports_are_named_either_way(
    m: RegistryModel,
    p: u16,
    bound: u16,
    remote: Seq<char>,
    id: u64,
)
    ensures
        port_asked(dec(p as nat)) == Ok::<Option<u16>, Seq<char>>(Some(p)),
        port_asked("tcp:"@ + dec(p as nat)) == Ok::<Option<u16>, Seq<char>>(Some(p)),
        forward_name(dec(p as nat), Some(bound)) == "tcp:"@ + dec(bound as nat),
        forward_name("tcp:"@ + dec(p as nat), Some(bound)) == "tcp:"@ + dec(bound as nat),
        canonical_local(dec(p as nat)) == "tcp:"@ + dec(p as nat),
        canonical_local("tcp:"@ + dec(p as nat)) == "tcp:"@ + dec(p as nat),
        ({
            let after = with_forward(m, "tcp:"@ + dec(p as nat), remote, id);
            &&& after.last().local == "tcp:"@ + dec(p as nat)
            &&& after.last().remote == remote
            &&& after.last().id == id
            &&& !has_local(kept(after, other_local(dec(p as nat))), "tcp:"@ + dec(p as nat))
            &&& !has_local(kept(after, other_local("tcp:"@ + dec(p as nat))), "tcp:"@ + dec(p as nat))
        }),
{
    reveal_strlit("tcp:");
    lemma_decimal(p);
    let d = dec(p as nat);
    let t = "tcp:"@ + d;
    assert(t.subrange(0, 4) =~= "tcp:"@);
    assert(t.skip(4) =~= d);
    let after = with_forward(m, t, remote, id);
    lemma_kept(after, other_local(d));
    lemma_kept(after, other_local(t));
}

/// A name that is neither a port nor begins with `tcp:` asks for no port, and is the name of its
/// rule as it stands.
pub proof fn other_names_stand(local: Seq<char>, i: int)
    requires
        0 <= i < local.len(),
        !('0' <= local[i] <= '9'),
        local.len() < 4 || local.take(4) != "tcp:"@,
    ensures
        port_asked(local) == Ok::<Option<u16>, Seq<char>>(None),
        forward_name(local, None) == local,
        canonical_local(local) == local,
{
    reveal_strlit("tcp:");
    if local.len() >= 4 {
        assert(local.subrange(0, 4) =~= local.take(4));
    }
}

/// A rule is added behind the others for the device that is taken by default. It takes the place
/// of the rule of its name; every other rule stays.
pub proof fn rules_are_added(
    m: RegistryModel,
    name: Seq<char>,
    other_end: Seq<char>,
    id: u64,
    f: ForwardModel,
    r: ReverseModel,
)
    requires
        canonical_local(name) == name,
    ensures
        with_forward(m, name, other_end, id).last() == (ForwardModel {
            serial: default_serial(m.devices),
            local: name,
            remote: other_end,
            id,
        }),
        f.local != name ==> (with_forward(m, name, other_end, id).contains(f)
            <==> m.forwards.contains(f)),
        with_reverse(m, name, other_end).last() == (ReverseModel {
            serial: default_serial(m.devices),
            remote: name,
            local: other_end,
        }),
        r.remote != name ==> (with_reverse(m, name, other_end).contains(r)
            <==> m.reverses.contains(r)),
        forall|i: int|
            0 <= i < with_forward(m, name, other_end, id).len() - 1 ==> (#[trigger] with_forward(
                m,
                name,
                other_end,
                id,
            )[i]).local != name,
        forall|i: int|
            0 <= i < with_reverse(m, name, other_end).len() - 1 ==> (#[trigger] with_reverse(
                m,
                name,
                other_end,
            )[i]).remote != name,
{
    lemma_kept(m.forwards, other_local(name));
    lemma_kept(m.reverses, other_remote(name));
    let fs = kept(m.forwards, other_local(name));
    let rs = kept(m.reverses, other_remote(name));
    let fa = with_forward(m, name, other_end, id);
    let ra = with_reverse(m, name, other_end);
    if f.local != name {
        if fa.contains(f) {
            let i = fa.index_of(f);
            assert(fa[i] == f);
            assert(fs[i] == f);
            assert(m.forwards.contains(fs[i]));
        }
        if m.forwards.contains(f) {
            let i = m.forwards.index_of(f);
            assert(m.forwards[i] == f);
            assert(fs.contains(m.forwards[i]));
            let k = fs.index_of(f);
            assert(fa[k] == f);
        }
    }
    if r.remote != name {
        if ra.contains(r) {
            let i = ra.index_of(r);
            assert(ra[i] == r);
            assert(rs[i] == r);
            assert(m.reverses.contains(rs[i]));
        }
        if m.reverses.contains(r) {
            let i = m.reverses.index_of(r);
            assert(m.reverses[i] == r);
            assert(rs.contains(m.reverses[i]));
            let k = rs.index_of(r);
            assert(ra[k] == r);
        }
    }
    assert forall|i: int| 0 <= i < fa.len() - 1 implies (#[trigger] fa[i]).local != name by {
        assert(fa[i] == fs[i]);
    }
    assert forall|i: int| 0 <= i < ra.len() - 1 implies (#[trigger] ra[i]).remote != name by {
        assert(ra[i] == rs[i]);
    }
}

proof fn lemma_last_value(pieces: Seq<Seq<char>>, key: Seq<char>, i: int, v: Seq<char>)
    requires
        0 <= i < pieces.len(),
        pieces[i] == key + v,
        forall|j: int| i < j < pieces.len() ==> !is_prefix(key, #[trigger] pieces[j]),
    ensures
        last_value(pieces, key) == Some(v),
    decreases pieces.len(),
{
    if i == pieces.len() - 1 {
        assert((key + v).subrange(0, key.len() as int) =~= key);
        assert((key + v).skip(key.len() as int) =~= v);
    } else {
        assert(!is_prefix(key, pieces[pieces.len() - 1]));
        lemma_last_value(pieces.drop_last(), key, i, v);
    }
}

proof fn lemma_no_value(pieces: Seq<Seq<char>>, key: Seq<char>)
    requires
        forall|j: int| 0 <= j < pieces.len() ==> !is_prefix(key, #[trigger] pieces[j]),
    ensures
        last_value(pieces, key) is None,
    decreases pieces.len(),
{
    if pieces.len() > 0 {
        assert(!is_prefix(key, pieces[pieces.len() - 1]));
        lemma_no_value(pieces.drop_last(), key);
    }
}

/// What a device says of itself is taken over field by field: the last piece of its banner that
/// names a product, a model or a device is what is known, and what it does not name stays. The
/// banner itself is kept, and nothing else changes.
pub proof fn banner_tells_the_device(
    d: DeviceModel,
    pieces: Seq<Seq<char>>,
    i: int,
    key: Seq<char>,
    v: Seq<char>,
)
    requires
        pieces.len() > 0,
        forall|k: int| 0 <= k < pieces.len() ==> !(#[trigger] pieces[k]).contains(';'),
        is_tight(joined(pieces, ';')),
        0 <= i < pieces.len() && pieces[i] == key + v && (forall|j: int|
            i < j < pieces.len() ==> !is_prefix(key, #[trigger] pieces[j])) || (i < 0 && forall|
            j: int,
        |
            0 <= j < pieces.len() ==> !is_prefix(key, #[trigger] pieces[j])),
    ensures
        ({
            let after = with_banner(d, joined(pieces, ';'));
            &&& after.serial == d.serial
            &&& after.state == d.state
            &&& after.origin == d.origin
            &&& after.transport_features == Some(joined(pieces, ';'))
            &&& key == "product="@ ==> after.product == if i >= 0 {
                Some(v)
            } else {
                d.product
            }
            &&& key == "model="@ ==> after.model == if i >= 0 {
                Some(v)
            } else {
                d.model
            }
            &&& key == "device="@ ==> after.device_name == if i >= 0 {
                Some(v)
            } else {
                d.device_name
            }
        }),
{
    let text = joined(pieces, ';');
    let none = Seq::<char>::empty();
    trimming_keeps_the_middle(none, text, none);
    joining_is_undone_by_splitting(pieces, ';');
    if i >= 0 {
        lemma_last_value(pieces, key, i, v);
    } else {
        lemma_no_value(pieces, key);
    }
}

proof fn lemma_new_on_bus(devices: Seq<DeviceModel>, names: Seq<Seq<char>>, d: DeviceModel)
    ensures
        devices.contains(d) ==> with_usb(devices, names).contains(d),
        with_usb(devices, names).contains(d) && !devices.contains(d) ==> d == usb_device(d.serial)
            && names.contains(d.serial) && forall|j: int|
            0 <= j < devices.len() ==> (#[trigger] devices[j]).serial != d.serial,
    decreases names.len(),
{
    if names.len() > 0 {
        let last = names.last();
        let front = names.drop_last();
        lemma_new_on_bus(devices, front, d);
        let before = with_usb(devices, front);
        let after = with_usb(devices, names);
        if before.contains(d) {
            let i = before.index_of(d);
            assert(after[i] == d);
        }
        if after.contains(d) && !devices.contains(d) {
            let i = after.index_of(d);
            assert(after[i] == d);
            if i < before.len() {
                assert(before[i] == d);
                assert(before.contains(d));
                let k = front.index_of(d.serial);
                assert(names[k] == d.serial);
            } else {
                assert(d == usb_device(last));
                assert(names[names.len() - 1] == last);
                lemma_device_index(before, last);
                assert forall|j: int| 0 <= j < devices.len() implies (#[trigger] devices[j]).serial
                    != d.serial by {
                    lemma_new_on_bus(devices, front, devices[j]);
                    assert(devices.contains(devices[j]));
                    let k = before.index_of(devices[j]);
                    assert(before[k] == devices[j]);
                }
            }
        }
    }
}

/// A look at the bus keeps a device on USB that is still there as it is known; what is new there
/// can be used at once, and nothing more is known of it than its serial.
pub proof fn bus_devices_appear(m: RegistryModel, names: Seq<Seq<char>>, d: DeviceModel)
    ensures
        m.devices.contains(d) && names.contains(d.serial) ==> refreshed(m.devices, names).contains(d),
        refreshed(m.devices, names).contains(d) && !m.devices.contains(d) ==> d == (DeviceModel {
            serial: d.serial,
            state: DeviceState::Device,
            origin: OriginModel::Usb,
            product: None,
            model: None,
            device_name: None,
            transport_features: None,
        }) && names.contains(d.serial) && forall|j: int|
            0 <= j < m.devices.len() ==> (#[trigger] m.devices[j]).serial != d.serial,
{
    let all = with_usb(m.devices, names);
    let keep = still_there(names);
    lemma_new_on_bus(m.devices, names, d);
    lemma_kept(all, keep);
    let left = refreshed(m.devices, names);
    if m.devices.contains(d) && names.contains(d.serial) {
        let i = all.index_of(d);
        assert(all[i] == d);
        assert(keep(all[i]));
    }
    if left.contains(d) {
        let i = left.index_of(d);
        assert(left[i] == d);
        assert(all.contains(left[i]));
    }
}

/// A device on the bus is called by its serial, and without one by its two numbers in three
/// digits each.
pub proof fn bus_devices_have_names(c: DeviceCandidate)
    ensures
        c.serial matches Some(s) ==> bus_name(c) == s@,
        c.serial is None ==> bus_name(c).len() == 6 && crate::text::number_value(
            bus_name(c).take(3),
            10,
        ) == c.bus_number && crate::text::number_value(bus_name(c).skip(3), 10) == c.address,
{
    crate::usb_android::node_numbers_are_read_back(c.bus_number);
    crate::usb_android::node_numbers_are_read_back(c.address);
    if c.serial is None {
        assert(bus_name(c).take(3) =~= three_digits(c.bus_number));
        assert(bus_name(c).skip(3) =~= three_digits(c.address));
    }
}

} // verus!
