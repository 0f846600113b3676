//! The services of the host server: what is done on a request, and what is answered.

use crate::constants::{ADB_VERSION, A_CNXN, MAX_PAYLOAD_V2};
use crate::features::{features_to_string, host_features, joined};
use crate::header::{
    decode_spec, encode_message, header_bytes, header_of, header_round_trip, lemma_header_bytes, message_bytes,
    AdbMessageHeader,
};
use crate::hostwire::{
    fail_with, fail_word, frame, framed, length_in, length_round_trip, okay, okay_with, okay_word, read_length,
    LengthModel, LengthPrefix,
};
use crate::registry::{
    any_device, canonical_local, device_by_serial, device_index, device_list, devices_are_found, forward_list,
    has_local, has_remote, is_usable_state, kept, lemma_device_index, lemma_kept, local_binding,
    network_device_is_added, on_usb, one_device_is_removed, other_local, other_remote, other_serial, port_asked,
    ports_are_named_either_way, reverse_list, state_text, usable, with_banner, with_reverse, with_tcp, DeviceModel,
    DeviceOrigin, DeviceState, ForwardModel, OriginModel, RegistryModel, ReverseModel, TransportRegistry,
};
use crate::text::{
    chars_of, dec, decimal, digit_value, digits, find_char, find_from, from_utf8, is_prefix, lossy_text, number,
    number_round_trip, owned, parse_unsigned, starts_with, str_eq, string_of, unsigned_spec, utf8_round_trip,
};
use crate::transport::{is_tail, Transport};
use vstd::prelude::*;
use vstd::slice::slice_subrange;
use vstd::utf8::{decode_utf8, encode_utf8, valid_utf8};

verus! {

/// The version that the server reports.
pub const SERVER_VERSION: u32 = 0x01000001;

/// The length of the word, if any, that a socket name starts with and that has a colon of its
/// own.
pub open spec fn kind_length(s: Seq<char>) -> int {
    if is_prefix("tcp:"@, s) {
        "tcp:"@.len() as int
    } else if is_prefix("localabstract:"@, s) {
        "localabstract:"@.len() as int
    } else if is_prefix("localreserved:"@, s) {
        "localreserved:"@.len() as int
    } else if is_prefix("localfilesystem:"@, s) {
        "localfilesystem:"@.len() as int
    } else if is_prefix("dev:"@, s) {
        "dev:"@.len() as int
    } else if is_prefix("jdwp:"@, s) {
        "jdwp:"@.len() as int
    } else {
        0
    }
}

/// What stands before and behind the character at `i`.
pub open spec fn cut_at(s: Seq<char>, i: int) -> (Seq<char>, Seq<char>) {
    (s.take(i), s.skip(i + 1))
}

/// The two ends of a pair: what a semicolon parts, or else a colon. A colon that belongs to the
/// first end's kind does not part, unless there is no other.
pub open spec fn pair_of(s: Seq<char>) -> Option<(Seq<char>, Seq<char>)> {
    let semi = find_from(s, ';', 0);
    let behind = find_from(s, ':', kind_length(s));
    let first = find_from(s, ':', 0);
    if semi < s.len() {
        Some(cut_at(s, semi))
    } else if behind < s.len() {
        Some(cut_at(s, behind))
    } else if first < s.len() {
        Some(cut_at(s, first))
    } else {
        None
    }
}

fn kind_len(s: &[char]) -> (r: usize)
    ensures
        r == kind_length(s@),
        r <= s@.len(),
{
    proof {
        reveal_strlit("tcp:");
        reveal_strlit("localabstract:");
        reveal_strlit("localreserved:");
        reveal_strlit("localfilesystem:");
        reveal_strlit("dev:");
        reveal_strlit("jdwp:");
    }
    if starts_with(s, "tcp:") {
        4
    } else if starts_with(s, "localabstract:") {
        14
    } else if starts_with(s, "localreserved:") {
        14
    } else if starts_with(s, "localfilesystem:") {
        16
    } else if starts_with(s, "dev:") {
        4
    } else if starts_with(s, "jdwp:") {
        5
    } else {
        0
    }
}

fn cut(s: &[char], i: usize) -> (r: (String, String))
    requires
        i < s@.len(),
    ensures
        (r.0@, r.1@) == cut_at(s@, i as int),
{
    let n: usize = s.len();
    let a = slice_subrange(s, 0, i);
    let b = slice_subrange(s, i + 1, n);
    assert(a@ =~= s@.take(i as int));
    assert(b@ =~= s@.skip(i + 1));
    (string_of(a), string_of(b))
}

/// Parts a pair of socket names.
pub fn parse_spec_pair(s: &str) -> (r: Option<(String, String)>)
    ensures
        match r {
            Some((a, b)) => pair_of(s@) == Some((a@, b@)),
            None => pair_of(s@) is None,
        },
{
    let chars = chars_of(s);
    let k: usize = kind_len(chars.as_slice());
    if let Some(i) = find_char(chars.as_slice(), ';', 0) {
        return Some(cut(chars.as_slice(), i));
    }
    if let Some(i) = find_char(chars.as_slice(), ':', k) {
        return Some(cut(chars.as_slice(), i));
    }
    if let Some(i) = find_char(chars.as_slice(), ':', 0) {
        return Some(cut(chars.as_slice(), i));
    }
    None
}

/// What the server does on a request.
#[derive(Debug, PartialEq, Eq)]
pub enum HostAction {
    /// Answer with these bytes.
    Reply(Vec<u8>),
    /// Answer with these bytes, and end the server.
    Stop(Vec<u8>),
    /// Answer OKAY, and send the list of devices whenever it changes.
    Track,
    /// Answer OKAY when there is a device that takes requests.
    Wait,
    /// Answer OKAY, and from then on pass everything between the client and this device.
    Bridge { serial: String },
    /// Answer with these bytes, and end the connection for this reason.
    Refuse { reply: Vec<u8>, message: String },
    /// See whether there is a device at this address.
    Connect { host: String, port: u16 },
    /// Listen on the port, if there is one, and forward.
    Forward { local: String, remote: String, no_rebind: bool, port: Option<u16> },
    /// End the connection without an answer, for this reason.
    Close(String),
}

/// What a [`HostAction`] says.
pub enum ActionModel {
    Reply(Seq<u8>),
    Stop(Seq<u8>),
    Track,
    Wait,
    Bridge { serial: Seq<char> },
    Refuse { reply: Seq<u8>, message: Seq<char> },
    Connect { host: Seq<char>, port: u16 },
    Forward { local: Seq<char>, remote: Seq<char>, no_rebind: bool, port: Option<u16> },
    Close(Seq<char>),
}

impl View for HostAction {
    type V = ActionModel;

    open spec fn view(&self) -> ActionModel {
        match *self {
            HostAction::Reply(v) => ActionModel::Reply(v@),
            HostAction::Stop(v) => ActionModel::Stop(v@),
            HostAction::Track => ActionModel::Track,
            HostAction::Wait => ActionModel::Wait,
            HostAction::Bridge { serial } => ActionModel::Bridge { serial: serial@ },
            HostAction::Refuse { reply, message } => ActionModel::Refuse {
                reply: reply@,
                message: message@,
            },
            HostAction::Connect { host, port } => ActionModel::Connect { host: host@, port },
            HostAction::Forward { local, remote, no_rebind, port } => ActionModel::Forward {
                local: local@,
                remote: remote@,
                no_rebind,
                port,
            },
            HostAction::Close(m) => ActionModel::Close(m@),
        }
    }
}

/// The answer with a text.
pub open spec fn okay_reply(text: Seq<char>) -> Seq<u8> {
    okay_word() + framed(encode_utf8(text))
}

/// The answer that a request failed.
pub open spec fn fail_reply(text: Seq<char>) -> Seq<u8> {
    fail_word() + framed(encode_utf8(text))
}

fn reply(text: &str) -> (r: HostAction)
    ensures
        r@ == ActionModel::Reply(okay_reply(text@)),
{
    HostAction::Reply(okay_with(text.as_bytes()))
}

fn refuse(text: &str) -> (r: HostAction)
    ensures
        r@ == ActionModel::Reply(fail_reply(text@)),
{
    HostAction::Reply(fail_with(text))
}

/// A word in quotation marks, with a beginning and an end.
pub open spec fn quoted(head: Seq<char>, word: Seq<char>, tail: Seq<char>) -> Seq<char> {
    head + word + tail
}

fn quote(head: &str, word: &str, tail: &str) -> (s: String)
    ensures
        s@ == quoted(head@, word@, tail@),
{
    let mut s = owned(head);
    s.append(word);
    s.append(tail);
    s
}

/// `s` without its first `n` characters.
fn behind(s: &[char], n: usize) -> (r: String)
    requires
        n <= s@.len(),
    ensures
        r@ == s@.skip(n as int),
{
    let rest = slice_subrange(s, n, s.len());
    assert(rest@ =~= s@.skip(n as int));
    string_of(rest)
}

fn strip_prefix(s: &[char], prefix: &str) -> (r: Option<String>)
    ensures
        match r {
            Some(t) => is_prefix(prefix@, s@) && t@ == s@.skip(prefix@.len() as int),
            None => !is_prefix(prefix@, s@),
        },
{
    let p = chars_of(prefix);
    if starts_with(s, prefix) {
        Some(behind(s, p.len()))
    } else {
        None
    }
}

/// What stands behind a prefix.
pub open spec fn after(prefix: Seq<char>, s: Seq<char>) -> Seq<char> {
    s.skip(prefix.len() as int)
}

/// What is done to forward the two ends of a pair.
pub open spec fn forward_pair(pair: Seq<char>, no_rebind: bool, complaint: Seq<char>) -> ActionModel {
    match pair_of(pair) {
        Some((local, remote)) => match port_asked(local) {
            Ok(port) => ActionModel::Forward { local, remote, no_rebind, port },
            Err(m) => ActionModel::Reply(fail_reply(m)),
        },
        None => ActionModel::Reply(fail_reply(complaint)),
    }
}

/// What is done on a request about forwarded sockets, and what the registry is after it.
pub open spec fn forward_action(m: RegistryModel, sub: Seq<char>) -> (ActionModel, RegistryModel) {
    if sub == "list"@ {
        (ActionModel::Reply(okay_reply(forward_list(m.forwards))), m)
    } else if sub == "killforward-all"@ || sub == "remove-all"@ {
        (
            ActionModel::Reply(okay_reply(Seq::empty())),
            RegistryModel { forwards: Seq::empty(), ..m },
        )
    } else if is_prefix("killforward:"@, sub) || is_prefix("remove:"@, sub) {
        let local = if is_prefix("killforward:"@, sub) {
            after("killforward:"@, sub)
        } else {
            after("remove:"@, sub)
        };
        let found = has_local(m.forwards, local) || has_local(m.forwards, canonical_local(local));
        (
            ActionModel::Reply(
                if found {
                    okay_reply(Seq::empty())
                } else {
                    fail_reply(quoted("forward '"@, local, "' not found"@))
                },
            ),
            RegistryModel { forwards: kept(m.forwards, other_local(local)), ..m },
        )
    } else if is_prefix("norebind:"@, sub) {
        (
            forward_pair(
                after("norebind:"@, sub),
                true,
                "invalid forward norebind format: use local;remote"@,
            ),
            m,
        )
    } else {
        (forward_pair(sub, false, "invalid forward: "@ + sub), m)
    }
}

fn pair_action(pair: &str, no_rebind: bool, complaint: &str) -> (r: HostAction)
    ensures
        r@ == forward_pair(pair@, no_rebind, complaint@),
{
    match parse_spec_pair(pair) {
        Some((local, remote)) => match local_binding(local.as_str()) {
            Ok(port) => HostAction::Forward { local, remote, no_rebind, port },
            Err(m) => refuse(m.as_str()),
        },
        None => refuse(complaint),
    }
}

/// Serves a request about forwarded sockets.
pub fn handle_forward(registry: &mut TransportRegistry, sub: &str) -> (r: HostAction)
    ensures
        (r@, final(registry)@) == forward_action(old(registry)@, sub@),
{
    let chars = chars_of(sub);
    let c = chars.as_slice();
    let empty = "";
    proof {
        reveal_strlit("");
        assert(""@ =~= Seq::<char>::empty());
    }
    if str_eq(sub, "list") {
        return reply(registry.list_forwards().as_str());
    }
    if str_eq(sub, "killforward-all") || str_eq(sub, "remove-all") {
        registry.remove_all_forwards();
        return reply(empty);
    }
    let killed = match strip_prefix(c, "killforward:") {
        Some(l) => Some(l),
        None => strip_prefix(c, "remove:"),
    };
    if let Some(local) = killed {
        return if registry.remove_forward(local.as_str()) {
            reply(empty)
        } else {
            refuse(quote("forward '", local.as_str(), "' not found").as_str())
        };
    }
    match strip_prefix(c, "norebind:") {
        Some(rest) => pair_action(
            rest.as_str(),
            true,
            "invalid forward norebind format: use local;remote",
        ),
        None => {
            let mut complaint = owned("invalid forward: ");
            complaint.append(sub);
            pair_action(sub, false, complaint.as_str())
        },
    }
}

/// What is done to reverse the two ends of a pair.
pub open spec fn reverse_pair(
    m: RegistryModel,
    pair: Seq<char>,
    no_rebind: bool,
    complaint: Seq<char>,
) -> (ActionModel, RegistryModel) {
    match pair_of(pair) {
        Some((remote, local)) => if no_rebind && has_remote(m.reverses, remote) {
            (
                ActionModel::Reply(
                    fail_reply("reverse forward '"@ + remote + "' already exists"@),
                ),
                m,
            )
        } else {
            (
                ActionModel::Reply(okay_reply(Seq::empty())),
                RegistryModel { reverses: with_reverse(m, remote, local), ..m },
            )
        },
        None => (ActionModel::Reply(fail_reply(complaint)), m),
    }
}

/// What a request to end the reversing of one socket names, if it is one.
pub open spec fn reverse_killed(sub: Seq<char>) -> Option<Seq<char>> {
    if is_prefix("killreverse:"@, sub) {
        Some(after("killreverse:"@, sub))
    } else if is_prefix("killforward:"@, sub) {
        Some(after("killforward:"@, sub))
    } else if is_prefix("remove:"@, sub) {
        Some(after("remove:"@, sub))
    } else {
        None
    }
}

/// What is done on a request about reversed sockets, and what the registry is after it.
pub open spec fn reverse_action(m: RegistryModel, sub: Seq<char>) -> (ActionModel, RegistryModel) {
    let format = "invalid reverse format: use remote;local or remote:local"@;
    if sub == "list"@ {
        (ActionModel::Reply(okay_reply(reverse_list(m.reverses))), m)
    } else if sub == "killforward-all"@ || sub == "killreverse-all"@ || sub == "remove-all"@ {
        (
            ActionModel::Reply(okay_reply(Seq::empty())),
            RegistryModel { reverses: Seq::empty(), ..m },
        )
    } else if reverse_killed(sub) is Some {
        let remote = reverse_killed(sub)->0;
        (
            ActionModel::Reply(
                if has_remote(m.reverses, remote) {
                    okay_reply(Seq::empty())
                } else {
                    fail_reply(quoted("reverse forward '"@, remote, "' not found"@))
                },
            ),
            RegistryModel { reverses: kept(m.reverses, other_remote(remote)), ..m },
        )
    } else if is_prefix("norebind:"@, sub) {
        reverse_pair(m, after("norebind:"@, sub), true, format)
    } else if is_prefix("forward:"@, sub) {
        reverse_pair(m, after("forward:"@, sub), false, format)
    } else {
        reverse_pair(m, sub, false, "invalid reverse: "@ + sub)
    }
}

fn add_pair(
    registry: &mut TransportRegistry,
    pair: &str,
    no_rebind: bool,
    complaint: &str,
) -> (r: HostAction)
    ensures
        (r@, final(registry)@) == reverse_pair(old(registry)@, pair@, no_rebind, complaint@),
{
    proof {
        reveal_strlit("");
        assert(""@ =~= Seq::<char>::empty());
    }
    match parse_spec_pair(pair) {
        Some((remote, local)) => match registry.add_reverse(
            remote.as_str(),
            local.as_str(),
            no_rebind,
        ) {
            Ok(()) => reply(""),
            Err(m) => refuse(m.as_str()),
        },
        None => refuse(complaint),
    }
}

/// Serves a request about reversed sockets.
pub fn handle_reverse(registry: &mut TransportRegistry, sub: &str) -> (r: HostAction)
    ensures
        (r@, final(registry)@) == reverse_action(old(registry)@, sub@),
{
    let chars = chars_of(sub);
    let c = chars.as_slice();
    let empty = "";
    let format = "invalid reverse format: use remote;local or remote:local";
    proof {
        reveal_strlit("");
        assert(""@ =~= Seq::<char>::empty());
    }
    if str_eq(sub, "list") {
        return reply(registry.list_reverses().as_str());
    }
    if str_eq(sub, "killforward-all") || str_eq(sub, "killreverse-all") || str_eq(
        sub,
        "remove-all",
    ) {
        registry.remove_all_reverses();
        return reply(empty);
    }
    let killed = match strip_prefix(c, "killreverse:") {
        Some(r) => Some(r),
        None => match strip_prefix(c, "killforward:") {
            Some(r) => Some(r),
            None => strip_prefix(c, "remove:"),
        },
    };
    if let Some(remote) = killed {
        return if registry.remove_reverse(remote.as_str()) {
            reply(empty)
        } else {
            refuse(quote("reverse forward '", remote.as_str(), "' not found").as_str())
        };
    }
    if let Some(rest) = strip_prefix(c, "norebind:") {
        return add_pair(registry, rest.as_str(), true, format);
    }
    if let Some(rest) = strip_prefix(c, "forward:") {
        return add_pair(registry, rest.as_str(), false, format);
    }
    let mut complaint = owned("invalid reverse: ");
    complaint.append(sub);
    add_pair(registry, sub, false, complaint.as_str())
}

/// The index of the last `c` in `s`, or -1.
pub open spec fn last_index(s: Seq<char>, c: char) -> int
    decreases s.len(),
{
    if s.len() == 0 {
        -1
    } else if s.last() == c {
        s.len() - 1
    } else {
        last_index(s.drop_last(), c)
    }
}

fn find_last(s: &[char], c: char) -> (r: Option<usize>)
    ensures
        match r {
            Some(i) => i == last_index(s@, c) && i < s@.len(),
            None => last_index(s@, c) == -1,
        },
{
    let mut i: usize = s.len();
    assert(s@.take(i as int) =~= s@);
    while i > 0
        invariant
            i <= s@.len(),
            last_index(s@.take(i as int), c) == last_index(s@, c),
        decreases i,
    {
        assert(s@.take(i as int).last() == s@[i - 1]);
        if s[i - 1] == c {
            return Some(i - 1);
        }
        assert(s@.take(i as int).drop_last() =~= s@.take(i - 1));
        i = i - 1;
    }
    None
}

/// What is done on a request to connect to `host:port`. Without a host it is this machine.
pub open spec fn connect_action(target: Seq<char>) -> ActionModel {
    let i = last_index(target, ':');
    if i < 0 {
        ActionModel::Close("invalid connect format: use host:port"@)
    } else {
        let (host, port) = cut_at(target, i);
        match unsigned_spec(port, 10, 65535) {
            None => ActionModel::Close("invalid port: "@ + port),
            Some(n) => ActionModel::Connect {
                host: if host.len() == 0 {
                    "127.0.0.1"@
                } else {
                    host
                },
                port: n as u16,
            },
        }
    }
}

fn plan_connect(target: &str) -> (r: HostAction)
    ensures
        r@ == connect_action(target@),
{
    let chars = chars_of(target);
    match find_last(chars.as_slice(), ':') {
        None => HostAction::Close(owned("invalid connect format: use host:port")),
        Some(i) => {
            let (host, port) = cut(chars.as_slice(), i);
            let digits = chars_of(port.as_str());
            match parse_unsigned(digits.as_slice(), 10, 65535) {
                None => {
                    let mut m = owned("invalid port: ");
                    m.append(port.as_str());
                    HostAction::Close(m)
                },
                Some(n) => {
                    let name = chars_of(host.as_str());
                    if name.len() == 0 {
                        HostAction::Connect { host: owned("127.0.0.1"), port: n as u16 }
                    } else {
                        HostAction::Connect { host, port: n as u16 }
                    }
                },
            }
        },
    }
}

/// Where a device is, as text.
pub open spec fn origin_path(o: OriginModel) -> Seq<char> {
    match o {
        OriginModel::Usb => "usb"@,
        OriginModel::Tcp { ip, port } => ip + ":"@ + dec(port as nat),
    }
}

/// What is done on a request for a property of the device at hand.
pub open spec fn property_action(m: RegistryModel, cmd: Seq<char>) -> ActionModel {
    match any_device(m.devices) {
        None => ActionModel::Reply(fail_reply("device not found"@)),
        Some(d) => ActionModel::Reply(
            okay_reply(
                if cmd == "host:get-state"@ {
                    state_text(d.state)
                } else if cmd == "host:get-serialno"@ {
                    d.serial
                } else {
                    origin_path(d.origin)
                },
            ),
        ),
    }
}

/// What is done on a request to switch to a device. Only one that takes requests is switched to.
pub open spec fn transport_action(m: RegistryModel, serial: Seq<char>) -> ActionModel {
    let missing = quoted("device '"@, serial, "' not found"@);
    match device_by_serial(m.devices, serial) {
        Some(d) => if usable(d.state) {
            ActionModel::Bridge { serial }
        } else {
            ActionModel::Refuse { reply: fail_reply(missing), message: missing }
        },
        None => ActionModel::Refuse { reply: fail_reply(missing), message: missing },
    }
}

/// What is done on a request to disconnect, and what the registry is after it.
pub open spec fn disconnect_action(m: RegistryModel, serial: Option<Seq<char>>) -> (
    ActionModel,
    RegistryModel,
) {
    match serial {
        None => {
            let left = kept(m.devices, on_usb());
            let text = "disconnected "@ + dec((m.devices.len() - left.len()) as nat) + " devices"@;
            (ActionModel::Reply(okay_reply(text)), RegistryModel { devices: left, ..m })
        },
        Some(s) => {
            let text = if device_by_serial(m.devices, s) is Some {
                okay_reply("disconnected "@ + s)
            } else {
                fail_reply(quoted("device '"@, s, "' not found"@))
            };
            (
                ActionModel::Reply(text),
                RegistryModel { devices: kept(m.devices, other_serial(s)), ..m },
            )
        },
    }
}

/// What is done on a request, and what the registry is after it.
pub open spec fn host_action(m: RegistryModel, cmd: Seq<char>) -> (ActionModel, RegistryModel) {
    if cmd == "host:version"@ {
        (ActionModel::Reply(okay_reply(digits(SERVER_VERSION as nat, 16))), m)
    } else if cmd == "host:kill"@ {
        (ActionModel::Stop(okay_word()), m)
    } else if cmd == "host:devices"@ {
        (ActionModel::Reply(okay_reply(device_list(m.devices, false))), m)
    } else if cmd == "host:devices-l"@ {
        (ActionModel::Reply(okay_reply(device_list(m.devices, true))), m)
    } else if cmd == "host:track-devices"@ {
        (ActionModel::Track, m)
    } else if cmd == "host:wait-for-device"@ || cmd == "host:wait-for-any-device"@ {
        (ActionModel::Wait, m)
    } else if cmd == "host:get-state"@ || cmd == "host:get-serialno"@ || cmd
        == "host:get-devpath"@ {
        (property_action(m, cmd), m)
    } else if is_prefix("host:transport:"@, cmd) {
        (transport_action(m, after("host:transport:"@, cmd)), m)
    } else if cmd == "host:transport-any"@ {
        (
            ActionModel::Reply(
                if any_device(m.devices) is Some {
                    okay_word()
                } else {
                    fail_reply("no devices available"@)
                },
            ),
            m,
        )
    } else if is_prefix("host:connect:"@, cmd) {
        (connect_action(after("host:connect:"@, cmd)), m)
    } else if cmd == "host:disconnect"@ {
        disconnect_action(m, None)
    } else if is_prefix("host:disconnect:"@, cmd) {
        disconnect_action(m, Some(after("host:disconnect:"@, cmd)))
    } else if is_prefix("host:forward:"@, cmd) {
        forward_action(m, after("host:forward:"@, cmd))
    } else if is_prefix("host:reverse:"@, cmd) {
        reverse_action(m, after("host:reverse:"@, cmd))
    } else if is_prefix("reverse:"@, cmd) {
        reverse_action(m, after("reverse:"@, cmd))
    } else if cmd == "host:host-features"@ {
        (ActionModel::Reply(okay_reply(joined(host_features()))), m)
    } else if cmd == "host:jdwp"@ {
        (ActionModel::Reply(okay_reply(Seq::empty())), m)
    } else {
        (ActionModel::Reply(fail_reply("unknown host service: "@ + cmd)), m)
    }
}

fn serve_property(registry: &TransportRegistry, cmd: &str) -> (r: HostAction)
    ensures
        r@ == property_action(registry@, cmd@),
{
    match registry.find_any_device() {
        None => refuse("device not found"),
        Some(d) => {
            if str_eq(cmd, "host:get-state") {
                reply(d.state.as_str())
            } else if str_eq(cmd, "host:get-serialno") {
                reply(d.serial.as_str())
            } else {
                let path = match &d.origin {
                    DeviceOrigin::Usb => owned("usb"),
                    DeviceOrigin::Tcp { ip, port } => {
                        let mut s = ip.clone();
                        s.append(":");
                        s.append(decimal(*port as u64).as_str());
                        s
                    },
                };
                reply(path.as_str())
            }
        },
    }
}

fn serve_transport(registry: &TransportRegistry, serial: String) -> (r: HostAction)
    ensures
        r@ == transport_action(registry@, serial@),
{
    let known = match registry.find_by_serial(serial.as_str()) {
        Some(d) => is_usable_state(d.state),
        None => false,
    };
    if known {
        return HostAction::Bridge { serial };
    }
    let message = quote("device '", serial.as_str(), "' not found");
    HostAction::Refuse { reply: fail_with(message.as_str()), message }
}

fn serve_disconnect(registry: &mut TransportRegistry, serial: Option<String>) -> (r: HostAction)
    ensures
        (r@, final(registry)@) == disconnect_action(
            old(registry)@,
            match serial {
                Some(s) => Some(s@),
                None => None,
            },
        ),
{
    match serial {
        None => {
            let before: usize = registry.devices.len();
            let ghost m = registry@;
            registry.remove_all_tcp_devices();
            proof {
                crate::registry::lemma_kept(m.devices, on_usb());
            }
            let gone: usize = before - registry.devices.len();
            let mut text = owned("disconnected ");
            text.append(decimal(gone as u64).as_str());
            text.append(" devices");
            reply(text.as_str())
        },
        Some(s) => {
            if registry.remove_device(s.as_str()) {
                let mut text = owned("disconnected ");
                text.append(s.as_str());
                reply(text.as_str())
            } else {
                refuse(quote("device '", s.as_str(), "' not found").as_str())
            }
        },
    }
}

/// Serves a request: changes the registry, and tells what to do.
pub fn dispatch_host_service(registry: &mut TransportRegistry, cmd: &str) -> (r: HostAction)
    ensures
        (r@, final(registry)@) == host_action(old(registry)@, cmd@),
{
    let chars = chars_of(cmd);
    let c = chars.as_slice();
    proof {
        reveal_strlit("");
        assert(""@ =~= Seq::<char>::empty());
    }
    if str_eq(cmd, "host:version") {
        return reply(number(SERVER_VERSION as u64, 16).as_str());
    }
    if str_eq(cmd, "host:kill") {
        return HostAction::Stop(okay());
    }
    if str_eq(cmd, "host:devices") {
        return reply(registry.list_devices(false).as_str());
    }
    if str_eq(cmd, "host:devices-l") {
        return reply(registry.list_devices(true).as_str());
    }
    if str_eq(cmd, "host:track-devices") {
        return HostAction::Track;
    }
    if str_eq(cmd, "host:wait-for-device") || str_eq(cmd, "host:wait-for-any-device") {
        return HostAction::Wait;
    }
    if str_eq(cmd, "host:get-state") || str_eq(cmd, "host:get-serialno") || str_eq(
        cmd,
        "host:get-devpath",
    ) {
        return serve_property(registry, cmd);
    }
    if let Some(serial) = strip_prefix(c, "host:transport:") {
        return serve_transport(registry, serial);
    }
    if str_eq(cmd, "host:transport-any") {
        return if registry.find_any_device().is_some() {
            HostAction::Reply(okay())
        } else {
            refuse("no devices available")
        };
    }
    if let Some(target) = strip_prefix(c, "host:connect:") {
        return plan_connect(target.as_str());
    }
    if str_eq(cmd, "host:disconnect") {
        return serve_disconnect(registry, None);
    }
    if let Some(serial) = strip_prefix(c, "host:disconnect:") {
        return serve_disconnect(registry, Some(serial));
    }
    if let Some(sub) = strip_prefix(c, "host:forward:") {
        return handle_forward(registry, sub.as_str());
    }
    if let Some(sub) = strip_prefix(c, "host:reverse:") {
        return handle_reverse(registry, sub.as_str());
    }
    if let Some(sub) = strip_prefix(c, "reverse:") {
        return handle_reverse(registry, sub.as_str());
    }
    if str_eq(cmd, "host:host-features") {
        let features = crate::features::host_supported_features();
        return reply(features_to_string(features.as_slice()).as_str());
    }
    if str_eq(cmd, "host:jdwp") {
        return reply("");
    }
    let mut complaint = owned("unknown host service: ");
    complaint.append(cmd);
    refuse(complaint.as_str())
}

/// Completes a request to forward, with the port that is listened on or the reason why none is:
/// notes the rule, and gives the answer.
pub fn finish_forward(
    registry: &mut TransportRegistry,
    local: &str,
    remote: &str,
    no_rebind: bool,
    bound: Result<Option<u16>, String>,
    id: u64,
) -> (r: Vec<u8>)
    ensures
        final(registry)@.devices == old(registry)@.devices,
        final(registry)@.reverses == old(registry)@.reverses,
        match bound {
            Err(e) => final(registry)@ == old(registry)@ && r@ == fail_reply(
                "cannot bind listener for "@ + local@ + ": "@ + e@,
            ),
            Ok(port) => {
                let name = crate::registry::forward_name(local@, port);
                if no_rebind && has_local(old(registry)@.forwards, name) {
                    final(registry)@ == old(registry)@ && r@ == fail_reply(
                        "forward '"@ + name + "' already exists"@,
                    )
                } else {
                    final(registry)@.forwards == crate::registry::with_forward(
                        old(registry)@,
                        name,
                        remote@,
                        id,
                    ) && r@ == okay_reply(
                        if local@ == "tcp:0"@ || local@ == "0"@ {
                            dec(
                                match port {
                                    Some(p) => p as nat,
                                    None => 0,
                                },
                            )
                        } else {
                            Seq::empty()
                        },
                    )
                }
            },
        },
{
    match bound {
        Err(e) => {
            let mut m = owned("cannot bind listener for ");
            m.append(local);
            m.append(": ");
            m.append(e.as_str());
            fail_with(m.as_str())
        },
        Ok(port) => match registry.add_forward(local, remote, no_rebind, port, id) {
            Ok(s) => okay_with(s.as_str().as_bytes()),
            Err(m) => fail_with(m.as_str()),
        },
    }
}

/// The list of devices to send to a client that tracks it: the list behind its length, unless
/// it is the one that was sent last.
pub fn track_update(registry: &TransportRegistry, last: Option<&str>) -> (r: Option<(
    String,
    Vec<u8>,
)>)
    ensures
        ({
            let list = device_list(registry@.devices, false);
            match r {
                Some((s, bytes)) => s@ == list && bytes@ == framed(encode_utf8(list)) && !(
                last matches Some(l) && l@ == list),
                None => last matches Some(l) && l@ == list,
            }
        }),
{
    let current = registry.list_devices(false);
    if let Some(l) = last {
        if str_eq(l, current.as_str()) {
            return None;
        }
    }
    let bytes = frame(current.as_str().as_bytes());
    Some((current, bytes))
}

/// The answer to a client that waits for a device: OKAY once there is one that takes requests,
/// FAIL once the server ends, and nothing yet before that.
pub fn wait_answer(registry: &TransportRegistry, running: bool) -> (r: Option<Vec<u8>>)
    ensures
        match r {
            Some(v) => if running {
                any_device(registry@.devices) is Some && v@ == okay_word()
            } else {
                v@ == fail_reply("server is shutting down"@)
            },
            None => running && any_device(registry@.devices) is None,
        },
{
    if !running {
        return Some(fail_with("server is shutting down"));
    }
    if registry.find_any_device().is_some() {
        Some(okay())
    } else {
        None
    }
}

/// What a client asks.
pub enum RequestModel {
    /// This.
    Command(Seq<char>),
    /// Nothing that can be served, for this reason.
    Bad(Seq<char>),
    /// The request has not come to its end.
    Short,
}

/// The request at the front of a stream.
pub open spec fn request_in(s: Seq<u8>) -> RequestModel {
    if s.len() < 4 {
        RequestModel::Short
    } else {
        match length_in(s.take(4)) {
            LengthModel::NotText => RequestModel::Bad("Invalid UTF-8 in length prefix"@),
            LengthModel::NotNumber(t) => RequestModel::Bad("Invalid hex length: "@ + t),
            LengthModel::Length(n) => if n == 0 || n > 4096 {
                RequestModel::Bad("Invalid command length: "@ + dec(n))
            } else if s.len() < 4 + n {
                RequestModel::Short
            } else {
                let bytes = s.subrange(4, 4 + n as int);
                if valid_utf8(bytes) {
                    RequestModel::Command(decode_utf8(bytes))
                } else {
                    RequestModel::Bad("Command is not valid UTF-8"@)
                }
            },
        }
    }
}

/// Reads a request. A client that goes away before it has begun one is no error.
pub fn read_request<T: Transport>(client: &mut T) -> (r: Result<Option<String>, String>)
    ensures
        final(client).written() == old(client).written(),
        final(client).faults() >= old(client).faults(),
        is_tail(final(client).incoming(), old(client).incoming()),
        match r {
            Ok(Some(s)) => request_in(old(client).incoming()) == RequestModel::Command(s@)
                && final(client).faults() == old(client).faults() && (length_in(
                old(client).incoming().take(4),
            ) matches LengthModel::Length(n) && n > 0 && final(client).incoming()
                == old(client).incoming().skip(4 + n as int)),
            Ok(None) => final(client).faults() > old(client).faults(),
            Err(m) => if final(client).faults() == old(client).faults() {
                request_in(old(client).incoming()) == RequestModel::Bad(m@)
            } else {
                is_prefix("Failed to read command: "@, m@)
            },
        },
{
    let ghost start = client.incoming();
    let prefix = match client.read_exact(4) {
        Ok(v) => v,
        Err(_) => {
            return Ok(None);
        },
    };
    assert(start.take(4) =~= prefix@);
    assert(client.incoming() =~= start.skip(4));
    let len: usize = match read_length(prefix.as_slice()) {
        LengthPrefix::NotText => {
            return Err(owned("Invalid UTF-8 in length prefix"));
        },
        LengthPrefix::NotNumber(t) => {
            let mut m = owned("Invalid hex length: ");
            m.append(t.as_str());
            return Err(m);
        },
        LengthPrefix::Length(n) => n,
    };
    if len == 0 || len > 4096 {
        let mut m = owned("Invalid command length: ");
        m.append(decimal(len as u64).as_str());
        return Err(m);
    }
    let bytes = match client.read_exact(len) {
        Ok(v) => v,
        Err(e) => {
            proof {
                let rest = start.skip(4);
                let k = choose|k: int|
                    0 <= k <= rest.len() && client.incoming() == #[trigger] rest.skip(k);
                assert(client.incoming() =~= start.skip(4 + k));
            }
            let mut m = owned("Failed to read command: ");
            m.append(e.message.as_str());
            assert(m@.take("Failed to read command: "@.len() as int) =~= "Failed to read command: "@);
            return Err(m);
        },
    };
    assert(start.subrange(4, 4 + len as int) =~= bytes@);
    assert(client.incoming() =~= start.skip(4 + len as int));
    match from_utf8(bytes.as_slice()) {
        Some(s) => Ok(Some(s)),
        None => Err(owned("Command is not valid UTF-8")),
    }
}

/// A request that a client frames is the request that the server reads.
pub proof fn framed_request_is_read(cmd: Seq<char>, rest: Seq<u8>)
    requires
        0 < encode_utf8(cmd).len() <= 4096,
    ensures
        request_in(framed(encode_utf8(cmd)) + rest) == RequestModel::Command(cmd),
{
    let bytes = encode_utf8(cmd);
    let s = framed(bytes) + rest;
    crate::hostwire::length_round_trip(bytes.len());
    crate::text::utf8_round_trip(cmd);
    assert(s.take(4) =~= encode_utf8(crate::hostwire::hex_length(bytes.len())));
    assert(s.subrange(4, 4 + bytes.len() as int) =~= bytes);
}

/// The message by which a device is asked who it is.
pub open spec fn probe_message() -> Seq<u8> {
    message_bytes(A_CNXN, ADB_VERSION, MAX_PAYLOAD_V2, encode_utf8("host::"@))
}

/// What an answer to the probe says: nothing if it is none, else the banner if it has one of a
/// bearable length.
pub open spec fn probed(s: Seq<u8>) -> Option<Option<Seq<u8>>> {
    match decode_spec(s.take(24)) {
        Ok(h) => if h.command != A_CNXN {
            None
        } else if 0 < h.data_length < 4096 {
            Some(Some(s.subrange(24, 24 + h.data_length as int)))
        } else {
            Some(None)
        },
        Err(_) => None,
    }
}

/// What is said of a device that was found, whether or not its banner came whole: it answered the
/// probe, and its banner is what it sent, or zeros if that broke off.
pub open spec fn found_device(s: Seq<u8>, banner: Option<Seq<u8>>, whole: bool) -> bool {
    match decode_spec(s.take(24)) {
        Ok(h) => h.command == A_CNXN && match banner {
            None => !(0 < h.data_length < 4096),
            Some(b) => 0 < h.data_length < 4096 && b == if whole {
                s.subrange(24, 24 + h.data_length as int)
            } else {
                Seq::new(h.data_length as nat, |i: int| 0u8)
            },
        },
        Err(_) => false,
    }
}

/// Asks at a connection whether there is a device. The banner that follows the answer is as
/// long as the answer says; one that breaks off counts as that many zeros.
pub fn probe_device<T: Transport>(stream: &mut T) -> (r: Option<Option<Vec<u8>>>)
    ensures
        final(stream).faults() >= old(stream).faults(),
        final(stream).faults() == old(stream).faults() ==> {
            &&& final(stream).written() == old(stream).written() + probe_message()
            &&& final(stream).held_back() == 0
            &&& match r {
                None => probed(old(stream).incoming()) is None,
                Some(None) => probed(old(stream).incoming()) == Some(None::<Seq<u8>>),
                Some(Some(v)) => probed(old(stream).incoming()) == Some(Some(v@)),
            }
        },
        r matches Some(banner) ==> final(stream).written() == old(stream).written() + probe_message()
            && final(stream).held_back() == 0 && found_device(
            old(stream).incoming(),
            match banner {
                Some(v) => Some(v@),
                None => None,
            },
            final(stream).faults() == old(stream).faults(),
        ),
{
    let ghost start = stream.incoming();
    let probe = encode_message(A_CNXN, ADB_VERSION, MAX_PAYLOAD_V2, "host::".as_bytes());
    match stream.write_all(probe.as_slice()) {
        Ok(()) => {},
        Err(_) => {
            return None;
        },
    }
    match stream.flush() {
        Ok(()) => {},
        Err(_) => {
            return None;
        },
    }
    let bytes = match stream.read_exact(24) {
        Ok(v) => v,
        Err(_) => {
            return None;
        },
    };
    assert(start.take(24) =~= bytes@);
    let header = match AdbMessageHeader::decode(bytes.as_slice()) {
        Ok(h) => h,
        Err(_) => {
            return None;
        },
    };
    if header.command != A_CNXN {
        return None;
    }
    if 0 < header.data_length && header.data_length < 4096 {
        let len: usize = header.data_length as usize;
        match stream.read_exact(len) {
            Ok(v) => {
                assert(start.subrange(24, 24 + len as int) =~= v@);
                Some(Some(v))
            },
            Err(_) => {
                let zeros: Vec<u8> = vec![0u8; len];
                assert(zeros@ =~= Seq::new(len as nat, |i: int| 0u8));
                Some(Some(zeros))
            },
        }
    } else {
        Some(None)
    }
}

/// The name of a device at an address.
pub open spec fn tcp_serial(host: Seq<char>, port: u16) -> Seq<char> {
    host + ":"@ + dec(port as nat)
}

/// The devices after a probe was answered with `banner`.
pub open spec fn connected(
    devices: Seq<DeviceModel>,
    serial: Seq<char>,
    ip: Seq<char>,
    port: u16,
    banner: Option<Seq<u8>>,
) -> Seq<DeviceModel> {
    let there = with_tcp(devices, serial, ip, port);
    let i = device_index(there, serial);
    match banner {
        Some(b) => there.update(i, with_banner(there[i], lossy_text(b))),
        None => there,
    }
}

proof fn lemma_connected(devices: Seq<DeviceModel>, serial: Seq<char>, ip: Seq<char>, port: u16)
    ensures
        ({
            let there = with_tcp(devices, serial, ip, port);
            device_index(there, serial) < there.len()
        }),
{
    let there = with_tcp(devices, serial, ip, port);
    lemma_device_index(devices, serial);
    lemma_device_index(there, serial);
    let i = device_index(devices, serial);
    assert(there[i].serial == serial);
}

/// Completes a request to connect: notes the device, if the probe found one, and gives the
/// answer. `ip` is the address that `host` stands for.
pub fn finish_connect(
    registry: &mut TransportRegistry,
    host: &str,
    port: u16,
    ip: String,
    found: Option<Option<Vec<u8>>>,
) -> (r: Vec<u8>)
    ensures
        final(registry)@.forwards == old(registry)@.forwards,
        final(registry)@.reverses == old(registry)@.reverses,
        match found {
            None => final(registry)@.devices == old(registry)@.devices && r@ == fail_reply(
                "connection refused: not an ADB device"@,
            ),
            Some(banner) => final(registry)@.devices == connected(
                old(registry)@.devices,
                tcp_serial(host@, port),
                ip@,
                port,
                match banner {
                    Some(b) => Some(b@),
                    None => None,
                },
            ) && r@ == okay_reply(tcp_serial(host@, port)),
        },
{
    match found {
        None => fail_with("connection refused: not an ADB device"),
        Some(banner) => {
            let mut serial = owned(host);
            serial.append(":");
            serial.append(decimal(port as u64).as_str());
            proof {
                lemma_connected(registry@.devices, serial@, ip@, port);
            }
            registry.upsert_tcp_device(ip, port, serial.clone());
            if let Some(b) = banner {
                registry.note_banner(serial.as_str(), b.as_slice());
            }
            okay_with(serial.as_str().as_bytes())
        },
    }
}

/// A device that answered a probe is known by its address from then on, and takes requests.
pub proof fn connected_device_is_usable(
    devices: Seq<DeviceModel>,
    serial: Seq<char>,
    ip: Seq<char>,
    port: u16,
    banner: Option<Seq<u8>>,
)
    ensures
        device_by_serial(connected(devices, serial, ip, port, banner), serial) matches Some(d)
            && usable(d.state),
{
    let there = with_tcp(devices, serial, ip, port);
    let c = connected(devices, serial, ip, port, banner);
    lemma_connected(devices, serial, ip, port);
    lemma_device_index(devices, serial);
    lemma_device_index(there, serial);
    lemma_device_index(c, serial);
    let i = device_index(there, serial);
    let k = device_index(devices, serial);
    assert(there[k].serial == serial);
    assert(i <= k);
    if i < k {
        assert(there[i].serial == devices[i].serial);
    }
    assert(c[i].serial == serial);
    let j = device_index(c, serial);
    assert(j <= i);
    if j < i {
        assert(c[j].serial == there[j].serial);
    }
}

/// A connection is switched to a device only if the device is known and takes requests.
pub proof fn only_usable_devices_are_bridged(m: RegistryModel, cmd: Seq<char>)
    ensures
        host_action(m, cmd).0 matches ActionModel::Bridge { serial } ==> (device_by_serial(
            m.devices,
            serial,
        ) matches Some(d) && usable(d.state)),
{
}

/// Serving a request keeps the registry well-formed.
pub proof fn dispatch_keeps_registry_well_formed(m: RegistryModel, cmd: Seq<char>)
    requires
        m.wf(),
    ensures
        host_action(m, cmd).1.wf(),
{
    let names: Seq<Seq<char>> = Seq::empty();
    let s1 = after("host:disconnect:"@, cmd);
    crate::registry::serials_stay_distinct(m, names, s1, Seq::empty(), 0);
    let f = after("host:forward:"@, cmd);
    crate::registry::rules_stay_distinct(m, after("killforward:"@, f), Seq::empty(), 0);
    crate::registry::rules_stay_distinct(m, after("remove:"@, f), Seq::empty(), 0);
    lemma_reverse_keeps_well_formed(m, after("host:reverse:"@, cmd));
    lemma_reverse_keeps_well_formed(m, after("reverse:"@, cmd));
}

proof fn lemma_reverse_keeps_well_formed(m: RegistryModel, sub: Seq<char>)
    requires
        m.wf(),
    ensures
        reverse_action(m, sub).1.wf(),
{
    if reverse_killed(sub) is Some {
        crate::registry::rules_stay_distinct(m, reverse_killed(sub)->0, Seq::empty(), 0);
    }
    lemma_pair_keeps_well_formed(m, after("norebind:"@, sub));
    lemma_pair_keeps_well_formed(m, after("forward:"@, sub));
    lemma_pair_keeps_well_formed(m, sub);
}

proof fn lemma_pair_keeps_well_formed(m: RegistryModel, pair: Seq<char>)
    requires
        m.wf(),
    ensures
        forall|no_rebind: bool, complaint: Seq<char>|
            (#[trigger] reverse_pair(m, pair, no_rebind, complaint)).1.wf(),
{
    match pair_of(pair) {
        Some((remote, local)) => {
            crate::registry::rules_stay_distinct(m, remote, local, 0);
        },
        None => {},
    }
}

/// Where the traffic of a bridged connection goes.
#[derive(Debug, PartialEq, Eq)]
pub enum BridgePlan {
    Tcp { ip: String, port: u16 },
    Usb,
    /// Nowhere, for this reason.
    Missing(String),
}

/// Tells where the traffic for a device goes.
pub fn bridge_plan(registry: &TransportRegistry, serial: &str) -> (r: BridgePlan)
    ensures
        match device_by_serial(registry@.devices, serial@) {
            Some(d) => match d.origin {
                OriginModel::Tcp { ip, port } => r matches BridgePlan::Tcp { ip: i, port: p } && i@
                    == ip && p == port,
                OriginModel::Usb => r is Usb,
            },
            None => r matches BridgePlan::Missing(m) && m@ == quoted(
                "device '"@,
                serial@,
                "' not found"@,
            ),
        },
{
    match registry.find_by_serial(serial) {
        Some(d) => match &d.origin {
            DeviceOrigin::Tcp { ip, port } => BridgePlan::Tcp { ip: ip.clone(), port: *port },
            DeviceOrigin::Usb => BridgePlan::Usb,
        },
        None => BridgePlan::Missing(quote("device '", serial, "' not found")),
    }
}

/// Notes that a bridge has ended: a TCP device that was bridged is gone. Tells whether one was
/// forgotten.
pub fn bridge_ended(
    registry: &mut TransportRegistry,
    serial: &str,
    was_tcp: bool,
    succeeded: bool,
) -> (r: bool)
    ensures
        final(registry)@ == if was_tcp && succeeded {
            RegistryModel {
                devices: kept(old(registry)@.devices, other_serial(serial@)),
                ..old(registry)@
            }
        } else {
            old(registry)@
        },
        r == (was_tcp && succeeded && device_by_serial(old(registry)@.devices, serial@) is Some),
{
    if was_tcp && succeeded {
        registry.remove_device(serial)
    } else {
        false
    }
}

proof fn lemma_last_index(s: Seq<char>, c: char, tail: Seq<char>)
    requires
        forall|i: int| 0 <= i < tail.len() ==> #[trigger] tail[i] != c,
    ensures
        last_index(s + seq![c] + tail, c) == s.len(),
    decreases tail.len(),
{
    let all = s + seq![c] + tail;
    if tail.len() == 0 {
        assert(all.last() == c);
    } else {
        assert(all.last() == tail.last());
        lemma_last_index(s, c, tail.drop_last());
        assert(all.drop_last() =~= s + seq![c] + tail.drop_last());
    }
}

/// A number in decimal is a number without a sign in front, and is read back.
proof fn lemma_decimal_is_read(n: nat, max: nat)
    requires
        n <= max,
    ensures
        unsigned_spec(dec(n), 10, max) == Some(n),
        forall|i: int| 0 <= i < dec(n).len() ==> '0' <= #[trigger] dec(n)[i] <= '9',
{
    number_round_trip(n, 10);
    let d = dec(n);
    assert forall|i: int| 0 <= i < d.len() implies '0' <= #[trigger] d[i] <= '9' by {
        assert(digit_value(d[i]) < 10);
    }
    assert(digit_value(d[0]) < 10);
}

/// A request that differs from a word in one place is not that word, and does not begin with it.
proof fn lemma_not_word(cmd: Seq<char>, word: Seq<char>, i: int)
    requires
        0 <= i < word.len(),
        i < cmd.len() ==> cmd[i] != word[i],
    ensures
        cmd != word,
        !is_prefix(word, cmd),
{
    if is_prefix(word, cmd) {
        assert(cmd.subrange(0, word.len() as int)[i] == cmd[i]);
    }
}

/// What stands behind a prefix of a request is all the rest of it.
proof fn lemma_after(prefix: Seq<char>, rest: Seq<char>)
    ensures
        is_prefix(prefix, prefix + rest),
        after(prefix, prefix + rest) == rest,
{
    assert((prefix + rest).subrange(0, prefix.len() as int) =~= prefix);
    assert((prefix + rest).skip(prefix.len() as int) =~= rest);
}

/// A request to connect to a host and a port leads to that host and that port, whatever they are.
/// Only where no host is named it is this machine.
pub proof fn connect_goes_where_it_is_told(m: RegistryModel, host: Seq<char>, port: u16)
    ensures
        host_action(m, "host:connect:"@ + host + seq![':'] + dec(port as nat)) == (
            ActionModel::Connect {
                host: if host.len() == 0 {
                    "127.0.0.1"@
                } else {
                    host
                },
                port,
            },
            m,
        ),
{
    let target = host + seq![':'] + dec(port as nat);
    let cmd = "host:connect:"@ + host + seq![':'] + dec(port as nat);
    assert(cmd =~= "host:connect:"@ + target);
    lemma_after("host:connect:"@, target);
    reveal_strlit("host:connect:");
    reveal_strlit("host:version");
    lemma_not_word(cmd, "host:version"@, 5);
    reveal_strlit("host:kill");
    lemma_not_word(cmd, "host:kill"@, 5);
    reveal_strlit("host:devices");
    lemma_not_word(cmd, "host:devices"@, 5);
    reveal_strlit("host:devices-l");
    lemma_not_word(cmd, "host:devices-l"@, 5);
    reveal_strlit("host:track-devices");
    lemma_not_word(cmd, "host:track-devices"@, 5);
    reveal_strlit("host:wait-for-device");
    lemma_not_word(cmd, "host:wait-for-device"@, 5);
    reveal_strlit("host:wait-for-any-device");
    lemma_not_word(cmd, "host:wait-for-any-device"@, 5);
    reveal_strlit("host:get-state");
    lemma_not_word(cmd, "host:get-state"@, 5);
    reveal_strlit("host:get-serialno");
    lemma_not_word(cmd, "host:get-serialno"@, 5);
    reveal_strlit("host:get-devpath");
    lemma_not_word(cmd, "host:get-devpath"@, 5);
    reveal_strlit("host:transport:");
    lemma_not_word(cmd, "host:transport:"@, 5);
    reveal_strlit("host:transport-any");
    lemma_not_word(cmd, "host:transport-any"@, 5);
    lemma_decimal_is_read(port as nat, 65535);
    lemma_last_index(host, ':', dec(port as nat));
    assert(target.take(host.len() as int) =~= host);
    assert(target.skip(host.len() as int + 1) =~= dec(port as nat));
}

proof fn lemma_transport(m: RegistryModel, rest: Seq<char>)
    ensures
        host_action(m, "host:transport:"@ + rest) == (transport_action(m, rest), m),
{
    let cmd = "host:transport:"@ + rest;
    lemma_after("host:transport:"@, rest);
    reveal_strlit("host:transport:");
    reveal_strlit("host:version");
    lemma_not_word(cmd, "host:version"@, 5);
    reveal_strlit("host:kill");
    lemma_not_word(cmd, "host:kill"@, 5);
    reveal_strlit("host:devices");
    lemma_not_word(cmd, "host:devices"@, 5);
    reveal_strlit("host:devices-l");
    lemma_not_word(cmd, "host:devices-l"@, 5);
    reveal_strlit("host:track-devices");
    lemma_not_word(cmd, "host:track-devices"@, 8);
    reveal_strlit("host:wait-for-device");
    lemma_not_word(cmd, "host:wait-for-device"@, 5);
    reveal_strlit("host:wait-for-any-device");
    lemma_not_word(cmd, "host:wait-for-any-device"@, 5);
    reveal_strlit("host:get-state");
    lemma_not_word(cmd, "host:get-state"@, 5);
    reveal_strlit("host:get-serialno");
    lemma_not_word(cmd, "host:get-serialno"@, 5);
    reveal_strlit("host:get-devpath");
    lemma_not_word(cmd, "host:get-devpath"@, 5);
}

proof fn lemma_disconnect(m: RegistryModel, rest: Seq<char>)
    ensures
        host_action(m, "host:disconnect:"@ + rest) == disconnect_action(m, Some(rest)),
{
    let cmd = "host:disconnect:"@ + rest;
    lemma_after("host:disconnect:"@, rest);
    reveal_strlit("host:disconnect:");
    reveal_strlit("host:version");
    lemma_not_word(cmd, "host:version"@, 5);
    reveal_strlit("host:kill");
    lemma_not_word(cmd, "host:kill"@, 5);
    reveal_strlit("host:devices");
    lemma_not_word(cmd, "host:devices"@, 6);
    reveal_strlit("host:devices-l");
    lemma_not_word(cmd, "host:devices-l"@, 6);
    reveal_strlit("host:track-devices");
    lemma_not_word(cmd, "host:track-devices"@, 5);
    reveal_strlit("host:wait-for-device");
    lemma_not_word(cmd, "host:wait-for-device"@, 5);
    reveal_strlit("host:wait-for-any-device");
    lemma_not_word(cmd, "host:wait-for-any-device"@, 5);
    reveal_strlit("host:get-state");
    lemma_not_word(cmd, "host:get-state"@, 5);
    reveal_strlit("host:get-serialno");
    lemma_not_word(cmd, "host:get-serialno"@, 5);
    reveal_strlit("host:get-devpath");
    lemma_not_word(cmd, "host:get-devpath"@, 5);
    reveal_strlit("host:transport:");
    lemma_not_word(cmd, "host:transport:"@, 5);
    reveal_strlit("host:transport-any");
    lemma_not_word(cmd, "host:transport-any"@, 5);
    reveal_strlit("host:connect:");
    lemma_not_word(cmd, "host:connect:"@, 5);
    reveal_strlit("host:disconnect");
    assert(cmd.len() > "host:disconnect"@.len());
}

proof fn lemma_forward(m: RegistryModel, rest: Seq<char>)
    ensures
        host_action(m, "host:forward:"@ + rest) == forward_action(m, rest),
{
    let cmd = "host:forward:"@ + rest;
    lemma_after("host:forward:"@, rest);
    reveal_strlit("host:forward:");
    reveal_strlit("host:version");
    lemma_not_word(cmd, "host:version"@, 5);
    reveal_strlit("host:kill");
    lemma_not_word(cmd, "host:kill"@, 5);
    reveal_strlit("host:devices");
    lemma_not_word(cmd, "host:devices"@, 5);
    reveal_strlit("host:devices-l");
    lemma_not_word(cmd, "host:devices-l"@, 5);
    reveal_strlit("host:track-devices");
    lemma_not_word(cmd, "host:track-devices"@, 5);
    reveal_strlit("host:wait-for-device");
    lemma_not_word(cmd, "host:wait-for-device"@, 5);
    reveal_strlit("host:wait-for-any-device");
    lemma_not_word(cmd, "host:wait-for-any-device"@, 5);
    reveal_strlit("host:get-state");
    lemma_not_word(cmd, "host:get-state"@, 5);
    reveal_strlit("host:get-serialno");
    lemma_not_word(cmd, "host:get-serialno"@, 5);
    reveal_strlit("host:get-devpath");
    lemma_not_word(cmd, "host:get-devpath"@, 5);
    reveal_strlit("host:transport:");
    lemma_not_word(cmd, "host:transport:"@, 5);
    reveal_strlit("host:transport-any");
    lemma_not_word(cmd, "host:transport-any"@, 5);
    reveal_strlit("host:connect:");
    lemma_not_word(cmd, "host:connect:"@, 5);
    reveal_strlit("host:disconnect");
    lemma_not_word(cmd, "host:disconnect"@, 5);
    reveal_strlit("host:disconnect:");
    lemma_not_word(cmd, "host:disconnect:"@, 5);
}

proof fn lemma_host_reverse(m: RegistryModel, rest: Seq<char>)
    ensures
        host_action(m, "host:reverse:"@ + rest) == reverse_action(m, rest),
{
    let cmd = "host:reverse:"@ + rest;
    lemma_after("host:reverse:"@, rest);
    reveal_strlit("host:reverse:");
    reveal_strlit("host:version");
    lemma_not_word(cmd, "host:version"@, 5);
    reveal_strlit("host:kill");
    lemma_not_word(cmd, "host:kill"@, 5);
    reveal_strlit("host:devices");
    lemma_not_word(cmd, "host:devices"@, 5);
    reveal_strlit("host:devices-l");
    lemma_not_word(cmd, "host:devices-l"@, 5);
    reveal_strlit("host:track-devices");
    lemma_not_word(cmd, "host:track-devices"@, 5);
    reveal_strlit("host:wait-for-device");
    lemma_not_word(cmd, "host:wait-for-device"@, 5);
    reveal_strlit("host:wait-for-any-device");
    lemma_not_word(cmd, "host:wait-for-any-device"@, 5);
    reveal_strlit("host:get-state");
    lemma_not_word(cmd, "host:get-state"@, 5);
    reveal_strlit("host:get-serialno");
    lemma_not_word(cmd, "host:get-serialno"@, 5);
    reveal_strlit("host:get-devpath");
    lemma_not_word(cmd, "host:get-devpath"@, 5);
    reveal_strlit("host:transport:");
    lemma_not_word(cmd, "host:transport:"@, 5);
    reveal_strlit("host:transport-any");
    lemma_not_word(cmd, "host:transport-any"@, 5);
    reveal_strlit("host:connect:");
    lemma_not_word(cmd, "host:connect:"@, 5);
    reveal_strlit("host:disconnect");
    lemma_not_word(cmd, "host:disconnect"@, 5);
    reveal_strlit("host:disconnect:");
    lemma_not_word(cmd, "host:disconnect:"@, 5);
    reveal_strlit("host:forward:");
    lemma_not_word(cmd, "host:forward:"@, 5);
}

proof fn lemma_reverse(m: RegistryModel, rest: Seq<char>)
    ensures
        host_action(m, "reverse:"@ + rest) == reverse_action(m, rest),
{
    let cmd = "reverse:"@ + rest;
    lemma_after("reverse:"@, rest);
    reveal_strlit("reverse:");
    reveal_strlit("host:version");
    lemma_not_word(cmd, "host:version"@, 0);
    reveal_strlit("host:kill");
    lemma_not_word(cmd, "host:kill"@, 0);
    reveal_strlit("host:devices");
    lemma_not_word(cmd, "host:devices"@, 0);
    reveal_strlit("host:devices-l");
    lemma_not_word(cmd, "host:devices-l"@, 0);
    reveal_strlit("host:track-devices");
    lemma_not_word(cmd, "host:track-devices"@, 0);
    reveal_strlit("host:wait-for-device");
    lemma_not_word(cmd, "host:wait-for-device"@, 0);
    reveal_strlit("host:wait-for-any-device");
    lemma_not_word(cmd, "host:wait-for-any-device"@, 0);
    reveal_strlit("host:get-state");
    lemma_not_word(cmd, "host:get-state"@, 0);
    reveal_strlit("host:get-serialno");
    lemma_not_word(cmd, "host:get-serialno"@, 0);
    reveal_strlit("host:get-devpath");
    lemma_not_word(cmd, "host:get-devpath"@, 0);
    reveal_strlit("host:transport:");
    lemma_not_word(cmd, "host:transport:"@, 0);
    reveal_strlit("host:transport-any");
    lemma_not_word(cmd, "host:transport-any"@, 0);
    reveal_strlit("host:connect:");
    lemma_not_word(cmd, "host:connect:"@, 0);
    reveal_strlit("host:disconnect");
    lemma_not_word(cmd, "host:disconnect"@, 0);
    reveal_strlit("host:disconnect:");
    lemma_not_word(cmd, "host:disconnect:"@, 0);
    reveal_strlit("host:forward:");
    lemma_not_word(cmd, "host:forward:"@, 0);
    reveal_strlit("host:reverse:");
    lemma_not_word(cmd, "host:reverse:"@, 0);
}

proof fn lemma_version(m: RegistryModel)
    ensures
        host_action(m, "host:version"@) == (ActionModel::Reply(okay_reply(digits(0x100_0001, 16))), m),
{
    let cmd = "host:version"@;
    reveal_strlit("host:version");
}

proof fn lemma_kill(m: RegistryModel)
    ensures
        host_action(m, "host:kill"@) == (ActionModel::Stop(okay_word()), m),
{
    let cmd = "host:kill"@;
    reveal_strlit("host:kill");
    reveal_strlit("host:version");
    lemma_not_word(cmd, "host:version"@, 5);
}

proof fn lemma_devices(m: RegistryModel)
    ensures
        host_action(m, "host:devices"@) == (ActionModel::Reply(okay_reply(device_list(m.devices, false))), m),
{
    let cmd = "host:devices"@;
    reveal_strlit("host:devices");
    reveal_strlit("host:version");
    lemma_not_word(cmd, "host:version"@, 5);
    reveal_strlit("host:kill");
    lemma_not_word(cmd, "host:kill"@, 5);
}

proof fn lemma_devices_l(m: RegistryModel)
    ensures
        host_action(m, "host:devices-l"@) == (ActionModel::Reply(okay_reply(device_list(m.devices, true))), m),
{
    let cmd = "host:devices-l"@;
    reveal_strlit("host:devices-l");
    reveal_strlit("host:version");
    lemma_not_word(cmd, "host:version"@, 5);
    reveal_strlit("host:kill");
    lemma_not_word(cmd, "host:kill"@, 5);
    reveal_strlit("host:devices");
    assert(cmd.len() > "host:devices"@.len());
}

proof fn lemma_track(m: RegistryModel)
    ensures
        host_action(m, "host:track-devices"@) == (ActionModel::Track, m),
{
    let cmd = "host:track-devices"@;
    reveal_strlit("host:track-devices");
    reveal_strlit("host:version");
    lemma_not_word(cmd, "host:version"@, 5);
    reveal_strlit("host:kill");
    lemma_not_word(cmd, "host:kill"@, 5);
    reveal_strlit("host:devices");
    lemma_not_word(cmd, "host:devices"@, 5);
    reveal_strlit("host:devices-l");
    lemma_not_word(cmd, "host:devices-l"@, 5);
}

proof fn lemma_wait(m: RegistryModel)
    ensures
        host_action(m, "host:wait-for-device"@) == (ActionModel::Wait, m),
{
    let cmd = "host:wait-for-device"@;
    reveal_strlit("host:wait-for-device");
    reveal_strlit("host:version");
    lemma_not_word(cmd, "host:version"@, 5);
    reveal_strlit("host:kill");
    lemma_not_word(cmd, "host:kill"@, 5);
    reveal_strlit("host:devices");
    lemma_not_word(cmd, "host:devices"@, 5);
    reveal_strlit("host:devices-l");
    lemma_not_word(cmd, "host:devices-l"@, 5);
    reveal_strlit("host:track-devices");
    lemma_not_word(cmd, "host:track-devices"@, 5);
}

proof fn lemma_wait_any(m: RegistryModel)
    ensures
        host_action(m, "host:wait-for-any-device"@) == (ActionModel::Wait, m),
{
    let cmd = "host:wait-for-any-device"@;
    reveal_strlit("host:wait-for-any-device");
    reveal_strlit("host:version");
    lemma_not_word(cmd, "host:version"@, 5);
    reveal_strlit("host:kill");
    lemma_not_word(cmd, "host:kill"@, 5);
    reveal_strlit("host:devices");
    lemma_not_word(cmd, "host:devices"@, 5);
    reveal_strlit("host:devices-l");
    lemma_not_word(cmd, "host:devices-l"@, 5);
    reveal_strlit("host:track-devices");
    lemma_not_word(cmd, "host:track-devices"@, 5);
    reveal_strlit("host:wait-for-device");
    lemma_not_word(cmd, "host:wait-for-device"@, 14);
}

proof fn lemma_get_state(m: RegistryModel)
    ensures
        host_action(m, "host:get-state"@) == (property_action(m, "host:get-state"@), m),
{
    let cmd = "host:get-state"@;
    reveal_strlit("host:get-state");
    reveal_strlit("host:version");
    lemma_not_word(cmd, "host:version"@, 5);
    reveal_strlit("host:kill");
    lemma_not_word(cmd, "host:kill"@, 5);
    reveal_strlit("host:devices");
    lemma_not_word(cmd, "host:devices"@, 5);
    reveal_strlit("host:devices-l");
    lemma_not_word(cmd, "host:devices-l"@, 5);
    reveal_strlit("host:track-devices");
    lemma_not_word(cmd, "host:track-devices"@, 5);
    reveal_strlit("host:wait-for-device");
    lemma_not_word(cmd, "host:wait-for-device"@, 5);
    reveal_strlit("host:wait-for-any-device");
    lemma_not_word(cmd, "host:wait-for-any-device"@, 5);
}

proof fn lemma_get_serialno(m: RegistryModel)
    ensures
        host_action(m, "host:get-serialno"@) == (property_action(m, "host:get-serialno"@), m),
{
    let cmd = "host:get-serialno"@;
    reveal_strlit("host:get-serialno");
    reveal_strlit("host:version");
    lemma_not_word(cmd, "host:version"@, 5);
    reveal_strlit("host:kill");
    lemma_not_word(cmd, "host:kill"@, 5);
    reveal_strlit("host:devices");
    lemma_not_word(cmd, "host:devices"@, 5);
    reveal_strlit("host:devices-l");
    lemma_not_word(cmd, "host:devices-l"@, 5);
    reveal_strlit("host:track-devices");
    lemma_not_word(cmd, "host:track-devices"@, 5);
    reveal_strlit("host:wait-for-device");
    lemma_not_word(cmd, "host:wait-for-device"@, 5);
    reveal_strlit("host:wait-for-any-device");
    lemma_not_word(cmd, "host:wait-for-any-device"@, 5);
    reveal_strlit("host:get-state");
    lemma_not_word(cmd, "host:get-state"@, 10);
}

proof fn lemma_get_devpath(m: RegistryModel)
    ensures
        host_action(m, "host:get-devpath"@) == (property_action(m, "host:get-devpath"@), m),
{
    let cmd = "host:get-devpath"@;
    reveal_strlit("host:get-devpath");
    reveal_strlit("host:version");
    lemma_not_word(cmd, "host:version"@, 5);
    reveal_strlit("host:kill");
    lemma_not_word(cmd, "host:kill"@, 5);
    reveal_strlit("host:devices");
    lemma_not_word(cmd, "host:devices"@, 5);
    reveal_strlit("host:devices-l");
    lemma_not_word(cmd, "host:devices-l"@, 5);
    reveal_strlit("host:track-devices");
    lemma_not_word(cmd, "host:track-devices"@, 5);
    reveal_strlit("host:wait-for-device");
    lemma_not_word(cmd, "host:wait-for-device"@, 5);
    reveal_strlit("host:wait-for-any-device");
    lemma_not_word(cmd, "host:wait-for-any-device"@, 5);
    reveal_strlit("host:get-state");
    lemma_not_word(cmd, "host:get-state"@, 9);
    reveal_strlit("host:get-serialno");
    lemma_not_word(cmd, "host:get-serialno"@, 9);
}

proof fn lemma_disconnect_all(m: RegistryModel)
    ensures
        host_action(m, "host:disconnect"@) == disconnect_action(m, None),
{
    let cmd = "host:disconnect"@;
    reveal_strlit("host:disconnect");
    reveal_strlit("host:version");
    lemma_not_word(cmd, "host:version"@, 5);
    reveal_strlit("host:kill");
    lemma_not_word(cmd, "host:kill"@, 5);
    reveal_strlit("host:devices");
    lemma_not_word(cmd, "host:devices"@, 6);
    reveal_strlit("host:devices-l");
    lemma_not_word(cmd, "host:devices-l"@, 6);
    reveal_strlit("host:track-devices");
    lemma_not_word(cmd, "host:track-devices"@, 5);
    reveal_strlit("host:wait-for-device");
    lemma_not_word(cmd, "host:wait-for-device"@, 5);
    reveal_strlit("host:wait-for-any-device");
    lemma_not_word(cmd, "host:wait-for-any-device"@, 5);
    reveal_strlit("host:get-state");
    lemma_not_word(cmd, "host:get-state"@, 5);
    reveal_strlit("host:get-serialno");
    lemma_not_word(cmd, "host:get-serialno"@, 5);
    reveal_strlit("host:get-devpath");
    lemma_not_word(cmd, "host:get-devpath"@, 5);
    reveal_strlit("host:transport:");
    lemma_not_word(cmd, "host:transport:"@, 5);
    reveal_strlit("host:transport-any");
    lemma_not_word(cmd, "host:transport-any"@, 5);
    reveal_strlit("host:connect:");
    lemma_not_word(cmd, "host:connect:"@, 5);
}

proof fn lemma_jdwp(m: RegistryModel)
    ensures
        host_action(m, "host:jdwp"@) == (ActionModel::Reply(okay_reply(Seq::empty())), m),
{
    let cmd = "host:jdwp"@;
    reveal_strlit("host:jdwp");
    reveal_strlit("host:version");
    lemma_not_word(cmd, "host:version"@, 5);
    reveal_strlit("host:kill");
    lemma_not_word(cmd, "host:kill"@, 5);
    reveal_strlit("host:devices");
    lemma_not_word(cmd, "host:devices"@, 5);
    reveal_strlit("host:devices-l");
    lemma_not_word(cmd, "host:devices-l"@, 5);
    reveal_strlit("host:track-devices");
    lemma_not_word(cmd, "host:track-devices"@, 5);
    reveal_strlit("host:wait-for-device");
    lemma_not_word(cmd, "host:wait-for-device"@, 5);
    reveal_strlit("host:wait-for-any-device");
    lemma_not_word(cmd, "host:wait-for-any-device"@, 5);
    reveal_strlit("host:get-state");
    lemma_not_word(cmd, "host:get-state"@, 5);
    reveal_strlit("host:get-serialno");
    lemma_not_word(cmd, "host:get-serialno"@, 5);
    reveal_strlit("host:get-devpath");
    lemma_not_word(cmd, "host:get-devpath"@, 5);
    reveal_strlit("host:transport:");
    lemma_not_word(cmd, "host:transport:"@, 5);
    reveal_strlit("host:transport-any");
    lemma_not_word(cmd, "host:transport-any"@, 5);
    reveal_strlit("host:connect:");
    lemma_not_word(cmd, "host:connect:"@, 5);
    reveal_strlit("host:disconnect");
    lemma_not_word(cmd, "host:disconnect"@, 5);
    reveal_strlit("host:disconnect:");
    lemma_not_word(cmd, "host:disconnect:"@, 5);
    reveal_strlit("host:forward:");
    lemma_not_word(cmd, "host:forward:"@, 5);
    reveal_strlit("host:reverse:");
    lemma_not_word(cmd, "host:reverse:"@, 5);
    reveal_strlit("reverse:");
    lemma_not_word(cmd, "reverse:"@, 0);
    reveal_strlit("host:host-features");
    lemma_not_word(cmd, "host:host-features"@, 5);
}

/// A request for a device by its serial leads to that device exactly where it is there and can be
/// used, and is refused otherwise.
pub proof fn named_device_is_bridged(m: RegistryModel, serial: Seq<char>)
    requires
        m.wf(),
    ensures
        ({
            let there = exists|i: int|
                0 <= i < m.devices.len() && (#[trigger] m.devices[i]).serial == serial && (
                m.devices[i].state == DeviceState::Device || m.devices[i].state
                    == DeviceState::Recovery || m.devices[i].state == DeviceState::Sideload
                    || m.devices[i].state == DeviceState::Bootloader);
            let missing = "device '"@ + serial + "' not found"@;
            host_action(m, "host:transport:"@ + serial) == (
                if there {
                    ActionModel::Bridge { serial }
                } else {
                    ActionModel::Refuse { reply: fail_reply(missing), message: missing }
                },
                m,
            )
        }),
{
    lemma_transport(m, serial);
    lemma_device_index(m.devices, serial);
    let k = device_index(m.devices, serial);
    if k < m.devices.len() && usable(m.devices[k].state) {
        assert(m.devices[k].serial == serial);
    }
    assert forall|i: int|
        0 <= i < m.devices.len() && (#[trigger] m.devices[i]).serial == serial implies i == k by {
        devices_are_found(m, i, serial);
        if i < k {
            assert(m.devices[i].serial != serial);
        } else if k < i {
            assert(m.devices[k].serial != m.devices[i].serial);
        }
    }
}

/// A device that is disconnected by its serial is gone, and no other; all at once, those over the
/// network are, and their number is told.
pub proof fn disconnecting_takes_away(m: RegistryModel, serial: Seq<char>, i: int)
    requires
        m.wf(),
    ensures
        0 <= i < m.devices.len() && m.devices[i].serial == serial ==> host_action(
            m,
            "host:disconnect:"@ + serial,
        ) == (
            ActionModel::Reply(okay_reply("disconnected "@ + serial)),
            RegistryModel { devices: m.devices.remove(i), ..m },
        ),
        (forall|j: int| 0 <= j < m.devices.len() ==> (#[trigger] m.devices[j]).serial != serial)
            ==> host_action(m, "host:disconnect:"@ + serial) == (
            ActionModel::Reply(fail_reply("device '"@ + serial + "' not found"@)),
            m,
        ),
        host_action(m, "host:disconnect"@) == (
            ActionModel::Reply(
                okay_reply(
                    "disconnected "@ + dec(
                        (m.devices.len() - kept(m.devices, on_usb()).len()) as nat,
                    ) + " devices"@,
                ),
            ),
            RegistryModel { devices: kept(m.devices, on_usb()), ..m },
        ),
{
    lemma_disconnect(m, serial);
    lemma_disconnect_all(m);
    one_device_is_removed(m, i, serial);
    devices_are_found(m, i, serial);
    if forall|j: int| 0 <= j < m.devices.len() ==> (#[trigger] m.devices[j]).serial != serial {
        assert(RegistryModel { devices: kept(m.devices, other_serial(serial)), ..m } == m);
    }
}

/// The questions that have one word are answered from what is known, and change nothing.
pub proof fn questions_are_answered(m: RegistryModel)
    ensures
        host_action(m, "host:version"@) == (
            ActionModel::Reply(okay_reply(digits(0x100_0001, 16))),
            m,
        ),
        host_action(m, "host:kill"@) == (ActionModel::Stop(seq![0x4fu8, 0x4b, 0x41, 0x59]), m),
        host_action(m, "host:devices"@) == (
            ActionModel::Reply(okay_reply(device_list(m.devices, false))),
            m,
        ),
        host_action(m, "host:devices-l"@) == (
            ActionModel::Reply(okay_reply(device_list(m.devices, true))),
            m,
        ),
        host_action(m, "host:track-devices"@) == (ActionModel::Track, m),
        host_action(m, "host:wait-for-device"@) == (ActionModel::Wait, m),
        host_action(m, "host:wait-for-any-device"@) == (ActionModel::Wait, m),
        host_action(m, "host:jdwp"@) == (ActionModel::Reply(okay_reply(Seq::empty())), m),
{
    lemma_version(m);
    lemma_kill(m);
    lemma_devices(m);
    lemma_devices_l(m);
    lemma_track(m);
    lemma_wait(m);
    lemma_wait_any(m);
    lemma_jdwp(m);
    assert(okay_word() =~= seq![0x4fu8, 0x4b, 0x41, 0x59]);
}

/// What is asked of the device that is taken by default is told of that device: its state, its
/// serial, and where it is.
pub proof fn properties_are_told(m: RegistryModel)
    ensures
        ({
            let asked = |d: DeviceModel, text: Seq<char>| ActionModel::Reply(okay_reply(text));
            let none = ActionModel::Reply(fail_reply("device not found"@));
            match any_device(m.devices) {
                Some(d) => {
                    &&& host_action(m, "host:get-state"@) == (asked(d, state_text(d.state)), m)
                    &&& host_action(m, "host:get-serialno"@) == (asked(d, d.serial), m)
                    &&& host_action(m, "host:get-devpath"@) == (
                        asked(
                            d,
                            match d.origin {
                                OriginModel::Usb => "usb"@,
                                OriginModel::Tcp { ip, port } => ip + seq![':'] + dec(port as nat),
                            },
                        ),
                        m,
                    )
                },
                None => {
                    &&& host_action(m, "host:get-state"@) == (none, m)
                    &&& host_action(m, "host:get-serialno"@) == (none, m)
                    &&& host_action(m, "host:get-devpath"@) == (none, m)
                },
            }
        }),
{
    lemma_get_state(m);
    lemma_get_serialno(m);
    lemma_get_devpath(m);
    reveal_strlit(":");
    assert(":"@ =~= seq![':']);
    reveal_strlit("host:get-state");
    reveal_strlit("host:get-serialno");
    reveal_strlit("host:get-devpath");
    assert("host:get-state"@[10] != "host:get-serialno"@[10]);
    assert("host:get-state"@[9] != "host:get-devpath"@[9]);
    assert("host:get-serialno"@[9] != "host:get-devpath"@[9]);
}

proof fn lemma_host_word(cmd: Seq<char>, word: Seq<char>)
    requires
        cmd.len() < 5 || cmd.take(5) != "host:"@,
        word.len() >= 5,
        word.take(5) =~= "host:"@,
    ensures
        cmd != word,
        !is_prefix(word, cmd),
{
    reveal_strlit("host:");
    if is_prefix(word, cmd) {
        assert(cmd.subrange(0, word.len() as int).take(5) =~= cmd.take(5));
    }
}

/// A request that is for neither the host nor a reverse connection is unknown, and said to be.
pub proof fn other_requests_are_unknown(m: RegistryModel, cmd: Seq<char>)
    requires
        cmd.len() < 5 || cmd.take(5) != "host:"@,
        cmd.len() < 8 || cmd.take(8) != "reverse:"@,
    ensures
        host_action(m, cmd) == (
            ActionModel::Reply(fail_reply("unknown host service: "@ + cmd)),
            m,
        ),
{
    reveal_strlit("host:");
    reveal_strlit("reverse:");
    if cmd.len() >= 8 {
        assert(cmd.subrange(0, 8) =~= cmd.take(8));
    }
    reveal_strlit("host:version");
    lemma_host_word(cmd, "host:version"@);
    reveal_strlit("host:kill");
    lemma_host_word(cmd, "host:kill"@);
    reveal_strlit("host:devices");
    lemma_host_word(cmd, "host:devices"@);
    reveal_strlit("host:devices-l");
    lemma_host_word(cmd, "host:devices-l"@);
    reveal_strlit("host:track-devices");
    lemma_host_word(cmd, "host:track-devices"@);
    reveal_strlit("host:wait-for-device");
    lemma_host_word(cmd, "host:wait-for-device"@);
    reveal_strlit("host:wait-for-any-device");
    lemma_host_word(cmd, "host:wait-for-any-device"@);
    reveal_strlit("host:get-state");
    lemma_host_word(cmd, "host:get-state"@);
    reveal_strlit("host:get-serialno");
    lemma_host_word(cmd, "host:get-serialno"@);
    reveal_strlit("host:get-devpath");
    lemma_host_word(cmd, "host:get-devpath"@);
    reveal_strlit("host:transport:");
    lemma_host_word(cmd, "host:transport:"@);
    reveal_strlit("host:transport-any");
    lemma_host_word(cmd, "host:transport-any"@);
    reveal_strlit("host:connect:");
    lemma_host_word(cmd, "host:connect:"@);
    reveal_strlit("host:disconnect");
    lemma_host_word(cmd, "host:disconnect"@);
    reveal_strlit("host:disconnect:");
    lemma_host_word(cmd, "host:disconnect:"@);
    reveal_strlit("host:forward:");
    lemma_host_word(cmd, "host:forward:"@);
    reveal_strlit("host:reverse:");
    lemma_host_word(cmd, "host:reverse:"@);
    reveal_strlit("host:host-features");
    lemma_host_word(cmd, "host:host-features"@);
    reveal_strlit("host:jdwp");
    lemma_host_word(cmd, "host:jdwp"@);
}

proof fn lemma_find_there(s: Seq<char>, c: char, i: int, e: int)
    requires
        0 <= i <= e < s.len(),
        s[e] == c,
        forall|k: int| i <= k < e ==> #[trigger] s[k] != c,
    ensures
        find_from(s, c, i) == e,
    decreases e - i,
{
    if i < e {
        lemma_find_there(s, c, i + 1, e);
    }
}

proof fn lemma_find_nowhere(s: Seq<char>, c: char, i: int)
    requires
        0 <= i <= s.len(),
        forall|k: int| i <= k < s.len() ==> #[trigger] s[k] != c,
    ensures
        find_from(s, c, i) == s.len(),
    decreases s.len() - i,
{
    if i < s.len() {
        lemma_find_nowhere(s, c, i + 1);
    }
}

/// The words that a socket name may begin with, each with a colon of its own.
pub open spec fn socket_kinds() -> Seq<Seq<char>> {
    seq![
        "tcp:"@,
        "localabstract:"@,
        "localreserved:"@,
        "localfilesystem:"@,
        "dev:"@,
        "jdwp:"@,
    ]
}

proof fn lemma_kind(k: int, rest: Seq<char>)
    requires
        0 <= k < socket_kinds().len(),
    ensures
        kind_length(socket_kinds()[k] + rest) == socket_kinds()[k].len(),
        socket_kinds()[k].len() > 0,
        socket_kinds()[k].last() == ':',
        !socket_kinds()[k].contains(';'),
{
    reveal_strlit("tcp:");
    reveal_strlit("localabstract:");
    reveal_strlit("localreserved:");
    reveal_strlit("localfilesystem:");
    reveal_strlit("dev:");
    reveal_strlit("jdwp:");
    let word = socket_kinds()[k];
    let s = word + rest;
    lemma_after(word, rest);
    if k == 1 {
        lemma_not_word(s, "tcp:"@, 0);
    } else if k == 2 {
        lemma_not_word(s, "tcp:"@, 0);
        lemma_not_word(s, "localabstract:"@, 5);
    } else if k == 3 {
        lemma_not_word(s, "tcp:"@, 0);
        lemma_not_word(s, "localabstract:"@, 5);
        lemma_not_word(s, "localreserved:"@, 5);
    } else if k == 4 {
        lemma_not_word(s, "tcp:"@, 0);
        lemma_not_word(s, "localabstract:"@, 0);
        lemma_not_word(s, "localreserved:"@, 0);
        lemma_not_word(s, "localfilesystem:"@, 0);
    } else if k == 5 {
        lemma_not_word(s, "tcp:"@, 0);
        lemma_not_word(s, "localabstract:"@, 0);
        lemma_not_word(s, "localreserved:"@, 0);
        lemma_not_word(s, "localfilesystem:"@, 0);
        lemma_not_word(s, "dev:"@, 0);
    }
}

/// Two socket names are told apart at a semicolon. Without one they are told apart at the first
/// colon that is not the colon of the kind of the first name.
pub proof fn pairs_are_taken_apart(
    a: Seq<char>,
    b: Seq<char>,
    k: int,
    name: Seq<char>,
    other: Seq<char>,
)
    requires
        !a.contains(';'),
        0 <= k < socket_kinds().len(),
        !name.contains(';'),
        !name.contains(':'),
        !other.contains(';'),
    ensures
        pair_of(a + seq![';'] + b) == Some((a, b)),
        pair_of(socket_kinds()[k] + name + seq![':'] + other) == Some(
            (socket_kinds()[k] + name, other),
        ),
        pair_of(name) is None,
{
    let s = a + seq![';'] + b;
    let n = a.len() as int;
    assert forall|i: int| 0 <= i < n implies #[trigger] s[i] != ';' by {
        assert(s[i] == a[i]);
        assert(a.contains(a[i]));
    }
    lemma_find_there(s, ';', 0, n);
    assert(s.take(n) =~= a);
    assert(s.skip(n + 1) =~= b);
    let word = socket_kinds()[k];
    let t = word + name + seq![':'] + other;
    lemma_kind(k, name + seq![':'] + other);
    assert(t =~= word + (name + seq![':'] + other));
    let e = (word.len() + name.len()) as int;
    assert forall|i: int| 0 <= i < t.len() implies #[trigger] t[i] != ';' by {
        if i < word.len() {
            assert(t[i] == word[i]);
            assert(word.contains(word[i]));
        } else if i < e {
            assert(t[i] == name[i - word.len()]);
            assert(name.contains(name[i - word.len()]));
        } else if i > e {
            assert(t[i] == other[i - e - 1]);
            assert(other.contains(other[i - e - 1]));
        }
    }
    lemma_find_nowhere(t, ';', 0);
    assert forall|i: int| word.len() <= i < e implies #[trigger] t[i] != ':' by {
        assert(t[i] == name[i - word.len()]);
        assert(name.contains(name[i - word.len()]));
    }
    lemma_find_there(t, ':', word.len() as int, e);
    assert(t.take(e) =~= word + name);
    assert(t.skip(e + 1) =~= other);
    assert forall|i: int| 0 <= i < name.len() implies #[trigger] name[i] != ';' && name[i] != ':' by {
        assert(name.contains(name[i]));
    }
    lemma_find_nowhere(name, ';', 0);
    lemma_find_nowhere(name, ':', 0);
    lemma_kind_bound(name);
    if kind_length(name) <= name.len() {
        lemma_find_nowhere(name, ':', kind_length(name));
    }
}

proof fn lemma_kind_bound(s: Seq<char>)
    ensures
        0 <= kind_length(s) <= s.len(),
{
}

/// A first name that is none of the words behind `host:forward:` or `host:reverse:`.
pub open spec fn is_socket_name(local: Seq<char>) -> bool {
    &&& local.len() > 1
    &&& local[0] == 'l' ==> local[1] == 'o'
    &&& local[0] != 'k' && local[0] != 'r' && local[0] != 'n' && local[0] != 'f'
    &&& !local.contains(';')
}

proof fn lemma_forward_is_pair(m: RegistryModel, local: Seq<char>, remote: Seq<char>)
    requires
        is_socket_name(local),
    ensures
        forward_action(m, local + seq![';'] + remote) == (forward_pair(local + seq![';'] + remote, false, "invalid forward: "@ + (local + seq![';'] + remote)), m),
{
    let sub = local + seq![';'] + remote;
    assert(sub[0] == local[0] && sub[1] == local[1]);
    reveal_strlit("list");
    if local[0] == 'l' {
        lemma_not_word(sub, "list"@, 1);
    } else {
        lemma_not_word(sub, "list"@, 0);
    }
    reveal_strlit("killforward-all");
    lemma_not_word(sub, "killforward-all"@, 0);
    reveal_strlit("remove-all");
    lemma_not_word(sub, "remove-all"@, 0);
    reveal_strlit("killforward:");
    lemma_not_word(sub, "killforward:"@, 0);
    reveal_strlit("remove:");
    lemma_not_word(sub, "remove:"@, 0);
    reveal_strlit("norebind:");
    lemma_not_word(sub, "norebind:"@, 0);
}

proof fn lemma_reverse_is_pair(m: RegistryModel, local: Seq<char>, remote: Seq<char>)
    requires
        is_socket_name(local),
    ensures
        reverse_action(m, local + seq![';'] + remote) == reverse_pair(m, local + seq![';'] + remote, false, "invalid reverse: "@ + (local + seq![';'] + remote)),
{
    let sub = local + seq![';'] + remote;
    assert(sub[0] == local[0] && sub[1] == local[1]);
    reveal_strlit("list");
    if local[0] == 'l' {
        lemma_not_word(sub, "list"@, 1);
    } else {
        lemma_not_word(sub, "list"@, 0);
    }
    reveal_strlit("killforward-all");
    lemma_not_word(sub, "killforward-all"@, 0);
    reveal_strlit("killreverse-all");
    lemma_not_word(sub, "killreverse-all"@, 0);
    reveal_strlit("remove-all");
    lemma_not_word(sub, "remove-all"@, 0);
    reveal_strlit("killreverse:");
    lemma_not_word(sub, "killreverse:"@, 0);
    reveal_strlit("killforward:");
    lemma_not_word(sub, "killforward:"@, 0);
    reveal_strlit("remove:");
    lemma_not_word(sub, "remove:"@, 0);
    reveal_strlit("norebind:");
    lemma_not_word(sub, "norebind:"@, 0);
    reveal_strlit("forward:");
    lemma_not_word(sub, "forward:"@, 0);
}

proof fn lemma_forward_norebind(m: RegistryModel, rest: Seq<char>)
    ensures
        forward_action(m, "norebind:"@ + rest) == (forward_pair(rest, true, "invalid forward norebind format: use local;remote"@), m),
{
    let cmd = "norebind:"@ + rest;
    lemma_after("norebind:"@, rest);
    reveal_strlit("norebind:");
    reveal_strlit("list");
    lemma_not_word(cmd, "list"@, 0);
    reveal_strlit("killforward-all");
    lemma_not_word(cmd, "killforward-all"@, 0);
    reveal_strlit("remove-all");
    lemma_not_word(cmd, "remove-all"@, 0);
    reveal_strlit("killforward:");
    lemma_not_word(cmd, "killforward:"@, 0);
    reveal_strlit("remove:");
    lemma_not_word(cmd, "remove:"@, 0);
}

proof fn lemma_forward_killforward(m: RegistryModel, rest: Seq<char>)
    ensures
        forward_action(m, "killforward:"@ + rest) == forward_killed(m, rest),
{
    let cmd = "killforward:"@ + rest;
    lemma_after("killforward:"@, rest);
    reveal_strlit("killforward:");
    reveal_strlit("list");
    lemma_not_word(cmd, "list"@, 0);
    reveal_strlit("killforward-all");
    lemma_not_word(cmd, "killforward-all"@, 11);
    reveal_strlit("remove-all");
    lemma_not_word(cmd, "remove-all"@, 0);
}

proof fn lemma_forward_remove(m: RegistryModel, rest: Seq<char>)
    ensures
        forward_action(m, "remove:"@ + rest) == forward_killed(m, rest),
{
    let cmd = "remove:"@ + rest;
    lemma_after("remove:"@, rest);
    reveal_strlit("remove:");
    reveal_strlit("list");
    lemma_not_word(cmd, "list"@, 0);
    reveal_strlit("killforward-all");
    lemma_not_word(cmd, "killforward-all"@, 0);
    reveal_strlit("remove-all");
    lemma_not_word(cmd, "remove-all"@, 6);
    reveal_strlit("killforward:");
    lemma_not_word(cmd, "killforward:"@, 0);
}

proof fn lemma_reverse_norebind(m: RegistryModel, rest: Seq<char>)
    ensures
        reverse_action(m, "norebind:"@ + rest) == reverse_pair(m, rest, true, "invalid reverse format: use remote;local or remote:local"@),
{
    let cmd = "norebind:"@ + rest;
    lemma_after("norebind:"@, rest);
    reveal_strlit("norebind:");
    reveal_strlit("list");
    lemma_not_word(cmd, "list"@, 0);
    reveal_strlit("killforward-all");
    lemma_not_word(cmd, "killforward-all"@, 0);
    reveal_strlit("killreverse-all");
    lemma_not_word(cmd, "killreverse-all"@, 0);
    reveal_strlit("remove-all");
    lemma_not_word(cmd, "remove-all"@, 0);
    reveal_strlit("killreverse:");
    lemma_not_word(cmd, "killreverse:"@, 0);
    reveal_strlit("killforward:");
    lemma_not_word(cmd, "killforward:"@, 0);
    reveal_strlit("remove:");
    lemma_not_word(cmd, "remove:"@, 0);
}

proof fn lemma_reverse_forward(m: RegistryModel, rest: Seq<char>)
    ensures
        reverse_action(m, "forward:"@ + rest) == reverse_pair(m, rest, false, "invalid reverse format: use remote;local or remote:local"@),
{
    let cmd = "forward:"@ + rest;
    lemma_after("forward:"@, rest);
    reveal_strlit("forward:");
    reveal_strlit("list");
    lemma_not_word(cmd, "list"@, 0);
    reveal_strlit("killforward-all");
    lemma_not_word(cmd, "killforward-all"@, 0);
    reveal_strlit("killreverse-all");
    lemma_not_word(cmd, "killreverse-all"@, 0);
    reveal_strlit("remove-all");
    lemma_not_word(cmd, "remove-all"@, 0);
    reveal_strlit("killreverse:");
    lemma_not_word(cmd, "killreverse:"@, 0);
    reveal_strlit("killforward:");
    lemma_not_word(cmd, "killforward:"@, 0);
    reveal_strlit("remove:");
    lemma_not_word(cmd, "remove:"@, 0);
    reveal_strlit("norebind:");
    lemma_not_word(cmd, "norebind:"@, 0);
}

proof fn lemma_reverse_killreverse(m: RegistryModel, rest: Seq<char>)
    ensures
        reverse_action(m, "killreverse:"@ + rest) == reverse_gone(m, rest),
{
    let cmd = "killreverse:"@ + rest;
    lemma_after("killreverse:"@, rest);
    reveal_strlit("killreverse:");
    reveal_strlit("list");
    lemma_not_word(cmd, "list"@, 0);
    reveal_strlit("killforward-all");
    lemma_not_word(cmd, "killforward-all"@, 4);
    reveal_strlit("killreverse-all");
    lemma_not_word(cmd, "killreverse-all"@, 11);
    reveal_strlit("remove-all");
    lemma_not_word(cmd, "remove-all"@, 0);
}

proof fn lemma_reverse_killforward(m: RegistryModel, rest: Seq<char>)
    ensures
        reverse_action(m, "killforward:"@ + rest) == reverse_gone(m, rest),
{
    let cmd = "killforward:"@ + rest;
    lemma_after("killforward:"@, rest);
    reveal_strlit("killforward:");
    reveal_strlit("list");
    lemma_not_word(cmd, "list"@, 0);
    reveal_strlit("killforward-all");
    lemma_not_word(cmd, "killforward-all"@, 11);
    reveal_strlit("killreverse-all");
    lemma_not_word(cmd, "killreverse-all"@, 4);
    reveal_strlit("remove-all");
    lemma_not_word(cmd, "remove-all"@, 0);
    reveal_strlit("killreverse:");
    lemma_not_word(cmd, "killreverse:"@, 4);
}

proof fn lemma_reverse_remove(m: RegistryModel, rest: Seq<char>)
    ensures
        reverse_action(m, "remove:"@ + rest) == reverse_gone(m, rest),
{
    let cmd = "remove:"@ + rest;
    lemma_after("remove:"@, rest);
    reveal_strlit("remove:");
    reveal_strlit("list");
    lemma_not_word(cmd, "list"@, 0);
    reveal_strlit("killforward-all");
    lemma_not_word(cmd, "killforward-all"@, 0);
    reveal_strlit("killreverse-all");
    lemma_not_word(cmd, "killreverse-all"@, 0);
    reveal_strlit("remove-all");
    lemma_not_word(cmd, "remove-all"@, 6);
    reveal_strlit("killreverse:");
    lemma_not_word(cmd, "killreverse:"@, 0);
    reveal_strlit("killforward:");
    lemma_not_word(cmd, "killforward:"@, 0);
}

proof fn lemma_forward_list(m: RegistryModel)
    ensures
        forward_action(m, "list"@) == (ActionModel::Reply(okay_reply(forward_list(m.forwards))), m),
{
    let cmd = "list"@;
    reveal_strlit("list");
}

proof fn lemma_forward_killforward_all(m: RegistryModel)
    ensures
        forward_action(m, "killforward-all"@) == (ActionModel::Reply(okay_reply(Seq::empty())), RegistryModel { forwards: Seq::empty(), ..m }),
{
    let cmd = "killforward-all"@;
    reveal_strlit("killforward-all");
    reveal_strlit("list");
    lemma_not_word(cmd, "list"@, 0);
}

proof fn lemma_forward_remove_all(m: RegistryModel)
    ensures
        forward_action(m, "remove-all"@) == (ActionModel::Reply(okay_reply(Seq::empty())), RegistryModel { forwards: Seq::empty(), ..m }),
{
    let cmd = "remove-all"@;
    reveal_strlit("remove-all");
    reveal_strlit("list");
    lemma_not_word(cmd, "list"@, 0);
    reveal_strlit("killforward-all");
    lemma_not_word(cmd, "killforward-all"@, 0);
}

proof fn lemma_reverse_list(m: RegistryModel)
    ensures
        reverse_action(m, "list"@) == (ActionModel::Reply(okay_reply(reverse_list(m.reverses))), m),
{
    let cmd = "list"@;
    reveal_strlit("list");
}

proof fn lemma_reverse_killforward_all(m: RegistryModel)
    ensures
        reverse_action(m, "killforward-all"@) == (ActionModel::Reply(okay_reply(Seq::empty())), RegistryModel { reverses: Seq::empty(), ..m }),
{
    let cmd = "killforward-all"@;
    reveal_strlit("killforward-all");
    reveal_strlit("list");
    lemma_not_word(cmd, "list"@, 0);
}

proof fn lemma_reverse_killreverse_all(m: RegistryModel)
    ensures
        reverse_action(m, "killreverse-all"@) == (ActionModel::Reply(okay_reply(Seq::empty())), RegistryModel { reverses: Seq::empty(), ..m }),
{
    let cmd = "killreverse-all"@;
    reveal_strlit("killreverse-all");
    reveal_strlit("list");
    lemma_not_word(cmd, "list"@, 0);
    reveal_strlit("killforward-all");
    lemma_not_word(cmd, "killforward-all"@, 4);
}

proof fn lemma_reverse_remove_all(m: RegistryModel)
    ensures
        reverse_action(m, "remove-all"@) == (ActionModel::Reply(okay_reply(Seq::empty())), RegistryModel { reverses: Seq::empty(), ..m }),
{
    let cmd = "remove-all"@;
    reveal_strlit("remove-all");
    reveal_strlit("list");
    lemma_not_word(cmd, "list"@, 0);
    reveal_strlit("killforward-all");
    lemma_not_word(cmd, "killforward-all"@, 0);
    reveal_strlit("killreverse-all");
    lemma_not_word(cmd, "killreverse-all"@, 0);
}

/// Taking away a forward: what is answered, and what is left.
pub open spec fn forward_killed(m: RegistryModel, local: Seq<char>) -> (ActionModel, RegistryModel) {
    (
        ActionModel::Reply(
            if has_local(m.forwards, local) || has_local(m.forwards, canonical_local(local)) {
                okay_reply(Seq::empty())
            } else {
                fail_reply("forward '"@ + local + "' not found"@)
            },
        ),
        RegistryModel { forwards: kept(m.forwards, other_local(local)), ..m },
    )
}

/// Taking away a reverse connection: what is answered, and what is left.
pub open spec fn reverse_gone(m: RegistryModel, remote: Seq<char>) -> (ActionModel, RegistryModel) {
    (
        ActionModel::Reply(
            if has_remote(m.reverses, remote) {
                okay_reply(Seq::empty())
            } else {
                fail_reply("reverse forward '"@ + remote + "' not found"@)
            },
        ),
        RegistryModel { reverses: kept(m.reverses, other_remote(remote)), ..m },
    )
}

/// A request to forward a port leads to that port and that other end, and says whether a rule
/// that is there already may be replaced. Listing, taking away one and taking away all do that.
pub proof fn forwards_go_where_they_are_told(
    m: RegistryModel,
    port: u16,
    local: Seq<char>,
    remote: Seq<char>,
    f: ForwardModel,
)
    requires
        is_socket_name(local),
        port_asked(local) == Ok::<Option<u16>, Seq<char>>(None),
    ensures
        host_action(m, "host:forward:"@ + ("tcp:"@ + dec(port as nat) + seq![';'] + remote)) == (
            ActionModel::Forward {
                local: "tcp:"@ + dec(port as nat),
                remote,
                no_rebind: false,
                port: Some(port),
            },
            m,
        ),
        host_action(
            m,
            "host:forward:"@ + ("norebind:"@ + ("tcp:"@ + dec(port as nat) + seq![';'] + remote)),
        ) == (
            ActionModel::Forward {
                local: "tcp:"@ + dec(port as nat),
                remote,
                no_rebind: true,
                port: Some(port),
            },
            m,
        ),
        host_action(m, "host:forward:"@ + (local + seq![';'] + remote)) == (
            ActionModel::Forward { local, remote, no_rebind: false, port: None },
            m,
        ),
        host_action(m, "host:forward:"@ + ("norebind:"@ + (local + seq![';'] + remote))) == (
            ActionModel::Forward { local, remote, no_rebind: true, port: None },
            m,
        ),
        host_action(m, "host:forward:"@ + "list"@) == (
            ActionModel::Reply(okay_reply(forward_list(m.forwards))),
            m,
        ),
        host_action(m, "host:forward:"@ + "killforward-all"@) == (
            ActionModel::Reply(okay_reply(Seq::empty())),
            RegistryModel { devices: m.devices, forwards: Seq::empty(), reverses: m.reverses },
        ),
        host_action(m, "host:forward:"@ + "remove-all"@) == (
            ActionModel::Reply(okay_reply(Seq::empty())),
            RegistryModel { devices: m.devices, forwards: Seq::empty(), reverses: m.reverses },
        ),
        host_action(m, "host:forward:"@ + ("killforward:"@ + local)) == forward_killed(m, local),
        host_action(m, "host:forward:"@ + ("remove:"@ + local)) == forward_killed(m, local),
        forward_killed(m, local).1.forwards.contains(f) <==> m.forwards.contains(f) && f.local
            != local && f.local != canonical_local(local),
{
    let t = "tcp:"@ + dec(port as nat);
    reveal_strlit("tcp:");
    lemma_decimal_is_read(port as nat, 65535);
    assert forall|i: int| 0 <= i < t.len() implies #[trigger] t[i] != ';' by {
        if i >= 4 {
            assert(t[i] == dec(port as nat)[i - 4]);
        }
    }
    assert(is_socket_name(t)) by {
        assert(t[0] == 't');
    }
    ports_are_named_either_way(m, port, port, remote, 0);
    let none = Seq::<char>::empty();
    pairs_are_taken_apart(t, remote, 0, none, none);
    pairs_are_taken_apart(local, remote, 0, none, none);
    lemma_forward(m, t + seq![';'] + remote);
    lemma_forward(m, "norebind:"@ + (t + seq![';'] + remote));
    lemma_forward(m, local + seq![';'] + remote);
    lemma_forward(m, "norebind:"@ + (local + seq![';'] + remote));
    lemma_forward(m, "list"@);
    lemma_forward(m, "killforward-all"@);
    lemma_forward(m, "remove-all"@);
    lemma_forward(m, "killforward:"@ + local);
    lemma_forward(m, "remove:"@ + local);
    lemma_forward_is_pair(m, t, remote);
    lemma_forward_is_pair(m, local, remote);
    lemma_forward_norebind(m, t + seq![';'] + remote);
    lemma_forward_norebind(m, local + seq![';'] + remote);
    lemma_forward_list(m);
    lemma_forward_killforward_all(m);
    lemma_forward_remove_all(m);
    lemma_forward_killforward(m, local);
    lemma_forward_remove(m, local);
    lemma_kept(m.forwards, other_local(local));
    let left = kept(m.forwards, other_local(local));
    if left.contains(f) {
        let i = left.index_of(f);
        assert(left[i] == f);
    }
    if m.forwards.contains(f) {
        let i = m.forwards.index_of(f);
        assert(m.forwards[i] == f);
    }
}

/// A request for a reverse connection, to the host or to the device, makes the rule that it names,
/// unless one that is there must not be replaced.
pub proof fn reverses_go_where_they_are_told(
    m: RegistryModel,
    remote: Seq<char>,
    local: Seq<char>,
    sub: Seq<char>,
)
    requires
        !remote.contains(';'),
    ensures
        host_action(m, "reverse:"@ + sub) == host_action(m, "host:reverse:"@ + sub),
        host_action(m, "reverse:"@ + ("forward:"@ + (remote + seq![';'] + local))) == (
            ActionModel::Reply(okay_reply(Seq::empty())),
            RegistryModel {
                devices: m.devices,
                forwards: m.forwards,
                reverses: with_reverse(m, remote, local),
            },
        ),
        host_action(m, "reverse:"@ + ("norebind:"@ + (remote + seq![';'] + local))) == if has_remote(
            m.reverses,
            remote,
        ) {
            (
                ActionModel::Reply(
                    fail_reply("reverse forward '"@ + remote + "' already exists"@),
                ),
                m,
            )
        } else {
            (
                ActionModel::Reply(okay_reply(Seq::empty())),
                RegistryModel {
                    devices: m.devices,
                    forwards: m.forwards,
                    reverses: with_reverse(m, remote, local),
                },
            )
        },
{
    let none = Seq::<char>::empty();
    let pair = remote + seq![';'] + local;
    pairs_are_taken_apart(remote, local, 0, none, none);
    lemma_reverse(m, sub);
    lemma_host_reverse(m, sub);
    lemma_reverse(m, "forward:"@ + pair);
    lemma_reverse(m, "norebind:"@ + pair);
    lemma_reverse_forward(m, pair);
    lemma_reverse_norebind(m, pair);
}

/// Reverse connections are listed, and one or all are taken away.
pub proof fn reverses_are_taken_away(m: RegistryModel, remote: Seq<char>, r: ReverseModel)
    ensures
        host_action(m, "reverse:"@ + "list"@) == (
            ActionModel::Reply(okay_reply(reverse_list(m.reverses))),
            m,
        ),
        host_action(m, "reverse:"@ + "killforward-all"@) == (
            ActionModel::Reply(okay_reply(Seq::empty())),
            RegistryModel { devices: m.devices, forwards: m.forwards, reverses: Seq::empty() },
        ),
        host_action(m, "reverse:"@ + "killreverse-all"@) == (
            ActionModel::Reply(okay_reply(Seq::empty())),
            RegistryModel { devices: m.devices, forwards: m.forwards, reverses: Seq::empty() },
        ),
        host_action(m, "reverse:"@ + "remove-all"@) == (
            ActionModel::Reply(okay_reply(Seq::empty())),
            RegistryModel { devices: m.devices, forwards: m.forwards, reverses: Seq::empty() },
        ),
        host_action(m, "reverse:"@ + ("killforward:"@ + remote)) == reverse_gone(m, remote),
        host_action(m, "reverse:"@ + ("killreverse:"@ + remote)) == reverse_gone(m, remote),
        host_action(m, "reverse:"@ + ("remove:"@ + remote)) == reverse_gone(m, remote),
        reverse_gone(m, remote).1.reverses.contains(r) <==> m.reverses.contains(r) && r.remote
            != remote,
{
    lemma_reverse(m, "list"@);
    lemma_reverse(m, "killforward-all"@);
    lemma_reverse(m, "killreverse-all"@);
    lemma_reverse(m, "remove-all"@);
    lemma_reverse(m, "killforward:"@ + remote);
    lemma_reverse(m, "killreverse:"@ + remote);
    lemma_reverse(m, "remove:"@ + remote);
    lemma_reverse_list(m);
    lemma_reverse_killforward_all(m);
    lemma_reverse_killreverse_all(m);
    lemma_reverse_remove_all(m);
    lemma_reverse_killforward(m, remote);
    lemma_reverse_killreverse(m, remote);
    lemma_reverse_remove(m, remote);
    lemma_kept(m.reverses, other_remote(remote));
    let left = kept(m.reverses, other_remote(remote));
    if left.contains(r) {
        let i = left.index_of(r);
        assert(left[i] == r);
    }
    if m.reverses.contains(r) {
        let i = m.reverses.index_of(r);
        assert(m.reverses[i] == r);
    }
}

/// A peer that answers with a banner is a device, and the banner is what it says of itself. One
/// that answers with another message is none.
pub proof fn answering_device_is_found(
    command: u32,
    arg0: u32,
    arg1: u32,
    banner: Seq<u8>,
    rest: Seq<u8>,
)
    requires
        banner.len() < 4096,
    ensures
        probed(message_bytes(command, arg0, arg1, banner) + rest) == if command != 0x4e58_4e43 {
            None
        } else if banner.len() == 0 {
            Some(None::<Seq<u8>>)
        } else {
            Some(Some(banner))
        },
{
    let h = header_of(command, arg0, arg1, banner);
    let s = message_bytes(command, arg0, arg1, banner) + rest;
    lemma_header_bytes(h);
    header_round_trip(h);
    assert(s.take(24) =~= header_bytes(h));
    assert(s.subrange(24, 24 + banner.len() as int) =~= banner);
}

/// A pair of names right behind `host:reverse:` makes the rule of the two names.
pub proof fn lemma_reverse_pair_request(m: RegistryModel, remote: Seq<char>, local: Seq<char>)
    requires
        is_socket_name(remote),
    ensures
        host_action(m, "host:reverse:"@ + (remote + seq![';'] + local)) == (
            ActionModel::Reply(okay_reply(Seq::empty())),
            RegistryModel {
                devices: m.devices,
                forwards: m.forwards,
                reverses: with_reverse(m, remote, local),
            },
        ),
{
    let none = Seq::<char>::empty();
    pairs_are_taken_apart(remote, local, 0, none, none);
    lemma_host_reverse(m, remote + seq![';'] + local);
    lemma_reverse_is_pair(m, remote, local);
}

/// A request of no bytes or of more than four kibibytes is refused, and its length is told.
pub proof fn overlong_requests_are_refused(data: Seq<u8>, rest: Seq<u8>)
    requires
        data.len() == 0 || 4096 < data.len() <= 0xffff,
    ensures
        request_in(framed(data) + rest) == RequestModel::Bad(
            "Invalid command length: "@ + dec(data.len()),
        ),
{
    length_round_trip(data.len());
    let s = framed(data) + rest;
    assert(s.take(4) =~= encode_utf8(crate::hostwire::hex_length(data.len())));
}

/// A device that was connected is known under its address with what its banner tells; of the
/// other devices nothing changes.
pub proof fn connected_device_is_known(
    m: RegistryModel,
    serial: Seq<char>,
    ip: Seq<char>,
    port: u16,
    banner: Seq<char>,
)
    requires
        m.wf(),
        forall|j: int| 0 <= j < m.devices.len() ==> (#[trigger] m.devices[j]).serial != serial,
    ensures
        ({
            let fresh = DeviceModel {
                serial,
                state: DeviceState::Device,
                origin: OriginModel::Tcp { ip, port },
                product: None,
                model: None,
                device_name: None,
                transport_features: None,
            };
            &&& connected(m.devices, serial, ip, port, Some(encode_utf8(banner))) == m.devices
                + seq![with_banner(fresh, banner)]
            &&& connected(m.devices, serial, ip, port, None) == m.devices + seq![fresh]
        }),
{
    let fresh = DeviceModel {
        serial,
        state: DeviceState::Device,
        origin: OriginModel::Tcp { ip, port },
        product: None,
        model: None,
        device_name: None,
        transport_features: None,
    };
    utf8_round_trip(banner);
    network_device_is_added(m, serial, ip, port, 0);
    let there = m.devices + seq![fresh];
    lemma_device_index(there, serial);
    let n = m.devices.len() as int;
    assert(there[n] == fresh);
    let i = device_index(there, serial);
    if i < n {
        assert(there[i] == m.devices[i]);
    }
    assert(i == n) by {
        if i > n {
            assert(there[n].serial != serial);
        }
    }
    assert(there.update(n, with_banner(fresh, banner)) =~= m.devices + seq![
        with_banner(fresh, banner),
    ]);
}

/// The address of a device is its host, a colon and its port.
pub proof fn devices_are_named_by_address(host: Seq<char>, port: u16)
    ensures
        tcp_serial(host, port) == host + seq![':'] + dec(port as nat),
{
    reveal_strlit(":");
    assert(":"@ =~= seq![':']);
}

} // verus!
