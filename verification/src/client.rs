//! What the command-line client decides: where to connect, what to ask the host server, what
//! to run on the device, and what to make of the answers.

use crate::hostwire::framed;
use crate::server_transport::{command_answered, status_read, transport_request, AdbServerTransport};
use crate::session::ClientError;
use crate::text::{
    all_white, chars_of, dec, decimal, find_char, from_utf8_lossy, is_prefix, lemma_find_from, lossy_text, owned,
    starts_with, string_of, string_views, trim, trimmed, trimming_keeps_the_middle, trimming_leaves_white_space,
    utf8_round_trip,
};
use crate::transport::{Transport, TransportError};
use crate::host_service::{
    fail_reply, forward_killed, forwards_go_where_they_are_told, host_action, is_socket_name,
    lemma_reverse_pair_request, okay_reply, reverse_gone, reverses_are_taken_away, reverses_go_where_they_are_told,
    ActionModel,
};
use crate::registry::{
    forward_list, has_remote, port_asked, reverse_list, with_reverse, ForwardModel, RegistryModel, ReverseModel,
};
use vstd::prelude::*;
use vstd::slice::slice_subrange;
use vstd::utf8::encode_utf8;

verus! {

/// The port on which a device listens.
pub const ADBD_PORT: u16 = 5555;

/// The port on which the host server listens.
pub const ADB_SERVER_PORT: u16 = 5037;

/// An optional text.
pub open spec fn opt_text(s: Option<&str>) -> Option<Seq<char>> {
    match s {
        Some(t) => Some(t@),
        None => None,
    }
}

/// Where a serial number leads: an address with a port stays as it is, one without gets the
/// default port, and without a serial number it is this machine.
pub open spec fn target_addr(serial: Option<Seq<char>>, port: u16) -> Seq<char> {
    match serial {
        Some(s) => if s.contains(':') {
            s
        } else {
            s + ":"@ + dec(port as nat)
        },
        None => "127.0.0.1:"@ + dec(port as nat),
    }
}

fn has_colon(s: &[char]) -> (r: bool)
    ensures
        r == s@.contains(':'),
{
    proof {
        lemma_find_from(s@, ':', 0);
    }
    match find_char(s, ':', 0) {
        Some(i) => {
            assert(s@[i as int] == ':');
            true
        },
        None => {
            assert(!s@.contains(':'));
            false
        },
    }
}

/// Where a serial number leads.
pub fn resolve_target_addr(serial: Option<&str>, default_port: u16) -> (r: String)
    ensures
        r@ == target_addr(opt_text(serial), default_port),
{
    match serial {
        Some(s) => {
            let chars = chars_of(s);
            let mut r = owned(s);
            if !has_colon(chars.as_slice()) {
                r.append(":");
                r.append(decimal(default_port as u64).as_str());
            }
            r
        },
        None => {
            let mut r = owned("127.0.0.1:");
            r.append(decimal(default_port as u64).as_str());
            r
        },
    }
}

/// How to reach a device.
#[derive(Debug, PartialEq, Eq)]
pub enum TransportPlan {
    /// Over TCP, at this address.
    Tcp { addr: String },
    /// Over USB; a failure is final.
    Usb { serial: Option<String> },
    /// Over USB, and if that fails over TCP at this address.
    UsbThenTcp { serial: Option<String>, addr: String },
}

/// What a [`TransportPlan`] says.
pub enum PlanModel {
    Tcp { addr: Seq<char> },
    Usb { serial: Option<Seq<char>> },
    UsbThenTcp { serial: Option<Seq<char>>, addr: Seq<char> },
}

impl View for TransportPlan {
    type V = PlanModel;

    open spec fn view(&self) -> PlanModel {
        match *self {
            TransportPlan::Tcp { addr } => PlanModel::Tcp { addr: addr@ },
            TransportPlan::Usb { serial } => PlanModel::Usb {
                serial: crate::text::opt_view(serial),
            },
            TransportPlan::UsbThenTcp { serial, addr } => PlanModel::UsbThenTcp {
                serial: crate::text::opt_view(serial),
                addr: addr@,
            },
        }
    }
}

/// How to reach a device. A serial number with a colon is a TCP address. Otherwise USB is used
/// where it was asked for, and tried first where it was not; `usb_available` tells whether this
/// build has it.
pub open spec fn plan_for(
    serial: Option<Seq<char>>,
    use_usb: bool,
    usb_available: bool,
) -> Result<PlanModel, Seq<char>> {
    let addr = target_addr(serial, ADBD_PORT);
    if serial is Some && (serial->0).contains(':') {
        Ok(PlanModel::Tcp { addr })
    } else if use_usb {
        if usb_available {
            Ok(PlanModel::Usb { serial })
        } else {
            Err("USB support is not enabled; rebuild with `--features usb`"@)
        }
    } else if usb_available {
        Ok(PlanModel::UsbThenTcp { serial, addr })
    } else {
        Ok(PlanModel::Tcp { addr })
    }
}

/// Tells how to reach a device.
pub fn open_adb_transport(serial: Option<&str>, use_usb: bool, usb_available: bool) -> (r: Result<
    TransportPlan,
    String,
>)
    ensures
        match r {
            Ok(p) => plan_for(opt_text(serial), use_usb, usb_available) == Ok::<
                PlanModel,
                Seq<char>,
            >(p@),
            Err(m) => plan_for(opt_text(serial), use_usb, usb_available) == Err::<
                PlanModel,
                Seq<char>,
            >(m@),
        },
{
    let addr = resolve_target_addr(serial, ADBD_PORT);
    let mut name: Option<String> = None;
    if let Some(s) = serial {
        let chars = chars_of(s);
        if has_colon(chars.as_slice()) {
            return Ok(TransportPlan::Tcp { addr });
        }
        name = Some(owned(s));
    }
    if use_usb {
        if usb_available {
            return Ok(TransportPlan::Usb { serial: name });
        }
        return Err(owned("USB support is not enabled; rebuild with `--features usb`"));
    }
    if usb_available {
        return Ok(TransportPlan::UsbThenTcp { serial: name, addr });
    }
    Ok(TransportPlan::Tcp { addr })
}

/// A request that is made to a device, not to the server itself.
pub open spec fn addresses_device(request: Seq<char>) -> bool {
    !is_prefix("host:forward"@, request) && !is_prefix("host:reverse"@, request) && !is_prefix(
        "host:devices"@,
        request,
    )
}

/// Whether the connection must be switched to a device before a request.
pub fn needs_transport(request: &str) -> (r: bool)
    ensures
        r == addresses_device(request@),
{
    let chars = chars_of(request);
    !starts_with(chars.as_slice(), "host:forward") && !starts_with(
        chars.as_slice(),
        "host:reverse",
    ) && !starts_with(chars.as_slice(), "host:devices")
}

/// Makes a request of the host server, after switching to the device where that is needed.
pub fn host_command<T: Transport>(
    server: &mut AdbServerTransport<T>,
    serial: Option<&str>,
    request: &str,
) -> (r: Result<String, ClientError>)
    ensures
        final(server).inner().faults() >= old(server).inner().faults(),
        r is Ok ==> final(server).inner().faults() == old(server).inner().faults(),
        final(server).inner().faults() == old(server).inner().faults() ==> final(server).inner().held_back()
            == 0,
        final(server).inner().faults() == old(server).inner().faults() ==> {
            let switch = framed(encode_utf8(transport_request(opt_text(serial))));
            let command = framed(encode_utf8(request@));
            if !addresses_device(request@) {
                &&& final(server).inner().written() == old(server).inner().written() + command
                &&& command_done(
                    r,
                    old(server).inner().incoming(),
                    final(server).inner().incoming(),
                )
            } else {
                ||| final(server).inner().written() == old(server).inner().written() + switch && (
                r matches Err(ClientError::Transport(e)) && status_read(
                    Err(e),
                    old(server).inner().incoming(),
                    final(server).inner().incoming(),
                ))
                ||| final(server).inner().written() == old(server).inner().written() + switch
                    + command && exists|mid: Seq<u8>|
                    #[trigger] status_read(Ok(()), old(server).inner().incoming(), mid)
                        && command_done(r, mid, final(server).inner().incoming())
            }
        },
{
    let ghost start = server.inner().incoming();
    if needs_transport(request) {
        match server.switch_transport(serial) {
            Ok(()) => {},
            Err(e) => {
                return Err(ClientError::Transport(e));
            },
        }
        assert(status_read(Ok(()), start, server.inner().incoming()));
    }
    let ghost mid = server.inner().incoming();
    match server.execute_host_command(request) {
        Ok(s) => {
            assert(command_done(Ok(s), mid, server.inner().incoming()));
            Ok(s)
        },
        Err(e) => {
            assert(command_answered(Err(e), mid, server.inner().incoming()));
            let mut m = owned("ADB host command failed: ");
            m.append(e.message().as_str());
            Err(ClientError::Failed(m))
        },
    }
}

/// The outcome of a command, told to the user.
pub open spec fn command_done(
    r: Result<String, ClientError>,
    before: Seq<u8>,
    after: Seq<u8>,
) -> bool {
    match r {
        Ok(s) => command_answered(Ok(s), before, after),
        Err(ClientError::Failed(m)) => exists|e: TransportError|
            #[trigger] command_answered(Err(e), before, after) && m@ == "ADB host command failed: "@
                + e.text(),
        Err(_) => false,
    }
}

/// Asks the host server to end, and reads its answer.
pub fn kill_server<T: Transport>(server: &mut AdbServerTransport<T>) -> (r: Result<
    (),
    TransportError,
>)
    ensures
        final(server).inner().faults() >= old(server).inner().faults(),
        (r matches Err(TransportError::Io(_))) <==> final(server).inner().faults() > old(server).inner().faults(),
        !(r matches Err(TransportError::Io(_))) ==> final(server).inner().held_back() == 0,
        final(server).inner().faults() == old(server).inner().faults() ==> final(server).inner().written() == old(server).inner().written() + framed(encode_utf8("host:kill"@)),
        status_read(r, old(server).inner().incoming(), final(server).inner().incoming()),
{
    server.switch_service("host:kill")
}

/// A request about forwarded or reversed sockets. `list` goes before `remove`, that before
/// `remove_all`, and without any of these both ends must be named.
pub open spec fn socket_request(
    kind: Seq<char>,
    list: bool,
    remove: Option<Seq<char>>,
    remove_all: bool,
    no_rebind: bool,
    from: Option<Seq<char>>,
    to: Option<Seq<char>>,
) -> Option<Seq<char>> {
    let head = "host:"@ + kind + ":"@;
    if list {
        Some(head + "list"@)
    } else if remove is Some {
        Some(head + "kill"@ + kind + ":"@ + remove->0)
    } else if remove_all {
        Some(head + "kill"@ + kind + "-all"@)
    } else if from is Some && to is Some {
        if no_rebind {
            Some(head + "norebind:"@ + from->0 + ";"@ + to->0)
        } else {
            Some(head + from->0 + ";"@ + to->0)
        }
    } else {
        None
    }
}

fn build_socket_request(
    kind: &str,
    list: bool,
    remove: Option<&str>,
    remove_all: bool,
    no_rebind: bool,
    from: Option<&str>,
    to: Option<&str>,
) -> (r: Option<String>)
    ensures
        match r {
            Some(s) => socket_request(
                kind@,
                list,
                opt_text(remove),
                remove_all,
                no_rebind,
                opt_text(from),
                opt_text(to),
            ) == Some(s@),
            None => socket_request(
                kind@,
                list,
                opt_text(remove),
                remove_all,
                no_rebind,
                opt_text(from),
                opt_text(to),
            ) is None,
        },
{
    let mut s = owned("host:");
    s.append(kind);
    s.append(":");
    if list {
        s.append("list");
        return Some(s);
    }
    if let Some(name) = remove {
        s.append("kill");
        s.append(kind);
        s.append(":");
        s.append(name);
        return Some(s);
    }
    if remove_all {
        s.append("kill");
        s.append(kind);
        s.append("-all");
        return Some(s);
    }
    match (from, to) {
        (Some(a), Some(b)) => {
            if no_rebind {
                s.append("norebind:");
            }
            s.append(a);
            s.append(";");
            s.append(b);
            Some(s)
        },
        _ => None,
    }
}

/// The request that a `forward` command makes; `None` where it does not say enough.
pub fn forward_request(
    list: bool,
    remove: Option<&str>,
    remove_all: bool,
    no_rebind: bool,
    local: Option<&str>,
    remote: Option<&str>,
) -> (r: Option<String>)
    ensures
        match r {
            Some(s) => socket_request(
                "forward"@,
                list,
                opt_text(remove),
                remove_all,
                no_rebind,
                opt_text(local),
                opt_text(remote),
            ) == Some(s@),
            None => socket_request(
                "forward"@,
                list,
                opt_text(remove),
                remove_all,
                no_rebind,
                opt_text(local),
                opt_text(remote),
            ) is None,
        },
{
    build_socket_request("forward", list, remove, remove_all, no_rebind, local, remote)
}

/// The request that a `reverse` command makes; `None` where it does not say enough.
pub fn reverse_request(
    list: bool,
    remove: Option<&str>,
    remove_all: bool,
    no_rebind: bool,
    remote: Option<&str>,
    local: Option<&str>,
) -> (r: Option<String>)
    ensures
        match r {
            Some(s) => socket_request(
                "reverse"@,
                list,
                opt_text(remove),
                remove_all,
                no_rebind,
                opt_text(remote),
                opt_text(local),
            ) == Some(s@),
            None => socket_request(
                "reverse"@,
                list,
                opt_text(remove),
                remove_all,
                no_rebind,
                opt_text(remote),
                opt_text(local),
            ) is None,
        },
{
    build_socket_request("reverse", list, remove, remove_all, no_rebind, remote, local)
}

/// The service that reboots a device.
pub fn reboot_service(target: Option<&str>) -> (s: String)
    ensures
        s@ == "reboot:"@ + match target {
            Some(t) => t@,
            None => Seq::empty(),
        },
{
    let mut s = owned("reboot:");
    if let Some(t) = target {
        s.append(t);
    } else {
        assert(s@ =~= "reboot:"@ + Seq::<char>::empty());
    }
    s
}

/// Some words with a space in front of each.
pub open spec fn spaced(words: Seq<Seq<char>>) -> Seq<char>
    decreases words.len(),
{
    if words.len() == 0 {
        Seq::empty()
    } else {
        spaced(words.drop_last()) + " "@ + words.last()
    }
}

/// The command that shows the log, with its arguments.
pub fn logcat_command(args: &[String]) -> (s: String)
    ensures
        s@ == "logcat"@ + spaced(string_views(args@)),
{
    let mut s = owned("logcat");
    let ghost views = string_views(args@);
    let mut i: usize = 0;
    assert(views.take(0) =~= Seq::empty());
    assert(s@ =~= "logcat"@ + spaced(views.take(0)));
    while i < args.len()
        invariant
            i <= args@.len(),
            views == string_views(args@),
            s@ == "logcat"@ + spaced(views.take(i as int)),
        decreases args@.len() - i,
    {
        assert(views.take(i + 1).drop_last() =~= views.take(i as int));
        s.append(" ");
        s.append(args[i].as_str());
        assert(s@ =~= "logcat"@ + spaced(views.take(i + 1)));
        i = i + 1;
    }
    assert(views.take(i as int) =~= views);
    s
}

/// Where a package is put on the device before it is installed.
pub fn remote_package_path(file_name: &str) -> (s: String)
    ensures
        s@ == "/data/local/tmp/"@ + file_name@,
{
    let mut s = owned("/data/local/tmp/");
    s.append(file_name);
    s
}

/// The command that installs a package from a path on the device.
pub fn install_command(path: &str) -> (s: String)
    ensures
        s@ == "pm install -r \""@ + path@ + "\""@,
{
    let mut s = owned("pm install -r \"");
    s.append(path);
    s.append("\"");
    s
}

/// The command that removes a package file from the device.
pub fn cleanup_command(path: &str) -> (s: String)
    ensures
        s@ == "rm -f \""@ + path@ + "\""@,
{
    let mut s = owned("rm -f \"");
    s.append(path);
    s.append("\"");
    s
}

/// The command that uninstalls a package.
pub fn uninstall_command(package: &str) -> (s: String)
    ensures
        s@ == "pm uninstall "@ + package@,
{
    let mut s = owned("pm uninstall ");
    s.append(package);
    s
}

/// `needle` stands in `s` from `i` on.
pub open spec fn stands_at(s: Seq<char>, needle: Seq<char>, i: int) -> bool {
    0 <= i && i + needle.len() <= s.len() && s.subrange(i, i + needle.len() as int) == needle
}

/// `needle` stands somewhere in `s`.
pub open spec fn contains_text(s: Seq<char>, needle: Seq<char>) -> bool {
    exists|i: int| #[trigger] stands_at(s, needle, i)
}

/// Whether `needle` stands somewhere in `s`.
pub fn has_text(s: &[char], needle: &str) -> (r: bool)
    ensures
        r == contains_text(s@, needle@),
{
    let n = chars_of(needle);
    if n.len() > s.len() {
        return false;
    }
    let total: usize = s.len();
    let last: usize = total - n.len();
    let mut i: usize = 0;
    while i <= last
        invariant
            total == s@.len(),
            n@ == needle@,
            last + n@.len() == s@.len(),
            i <= last + 1,
            forall|k: int| 0 <= k < i ==> !stands_at(s@, needle@, k),
        decreases last + 1 - i,
    {
        if crate::text::chars_eq(slice_subrange(s, i, i + n.len()), n.as_slice()) {
            assert(stands_at(s@, needle@, i as int));
            return true;
        }
        if i == last {
            assert forall|k: int| !stands_at(s@, needle@, k) by {
                if stands_at(s@, needle@, k) {
                    assert(k <= last);
                }
            }
            return false;
        }
        i = i + 1;
    }
    false
}

/// What the package manager made of a request.
#[derive(Debug, Clone, Copy, PartialEq, Eq, Structural)]
pub enum PackageOutcome {
    Succeeded,
    NoOutput,
    Other,
}

/// What the package manager's output says: success where it says so, else nothing or
/// something else.
pub open spec fn package_outcome_of(output: Seq<u8>) -> PackageOutcome {
    let t = trimmed(lossy_text(output));
    if contains_text(t, "Success"@) {
        PackageOutcome::Succeeded
    } else if t.len() == 0 {
        PackageOutcome::NoOutput
    } else {
        PackageOutcome::Other
    }
}

/// What the package manager's output says, and the output itself without the white space round
/// it.
pub fn package_outcome(output: &[u8]) -> (r: (PackageOutcome, String))
    ensures
        r.0 == package_outcome_of(output@),
        r.1@ == trimmed(lossy_text(output@)),
{
    let text = from_utf8_lossy(output);
    let chars = chars_of(text.as_str());
    let t = trim(chars.as_slice());
    let outcome = if has_text(t, "Success") {
        PackageOutcome::Succeeded
    } else if t.len() == 0 {
        PackageOutcome::NoOutput
    } else {
        PackageOutcome::Other
    };
    (outcome, string_of(t))
}

/// Where the last piece of a path starts.
pub open spec fn base_start(path: Seq<char>) -> int
    decreases path.len(),
{
    if path.len() == 0 || path.last() == '/' {
        path.len() as int
    } else {
        base_start(path.drop_last())
    }
}

/// The last piece of a path, unless it is empty.
pub open spec fn base_name(path: Seq<char>) -> Option<Seq<char>> {
    let name = path.skip(base_start(path));
    if name.len() == 0 {
        None
    } else {
        Some(name)
    }
}

proof fn lemma_base_start(path: Seq<char>)
    ensures
        0 <= base_start(path) <= path.len(),
    decreases path.len(),
{
    if path.len() > 0 && path.last() != '/' {
        lemma_base_start(path.drop_last());
    }
}

/// The name under which a pulled file goes into a directory: the last piece of its path on the
/// device, if there is one.
pub fn pulled_name(remote: &str) -> (r: Option<String>)
    ensures
        match r {
            Some(s) => base_name(remote@) == Some(s@),
            None => base_name(remote@) is None,
        },
{
    let chars = chars_of(remote);
    let mut i: usize = chars.len();
    assert(chars@.take(i as int) =~= chars@);
    proof {
        lemma_base_start(chars@);
    }
    while i > 0 && chars[i - 1] != '/'
        invariant
            i <= chars@.len(),
            base_start(chars@.take(i as int)) == base_start(chars@),
        decreases i,
    {
        assert(chars@.take(i as int).drop_last() =~= chars@.take(i - 1));
        i = i - 1;
    }
    assert(base_start(chars@) == i);
    if i == chars.len() {
        return None;
    }
    let name = slice_subrange(chars.as_slice(), i, chars.len());
    assert(name@ =~= chars@.skip(i as int));
    Some(string_of(name))
}

/// An address that names a port is taken as it stands; to a host alone the port is added; and
/// without a host it is this machine.
pub proof fn addresses_are_completed(host: Seq<char>, rest: Seq<char>, port: u16)
    requires
        !host.contains(':'),
    ensures
        target_addr(Some(host), port) == host + seq![':'] + dec(port as nat),
        target_addr(Some(host + seq![':'] + rest), port) == host + seq![':'] + rest,
        target_addr(None, port) == "127.0.0.1"@ + seq![':'] + dec(port as nat),
{
    reveal_strlit(":");
    reveal_strlit("127.0.0.1:");
    reveal_strlit("127.0.0.1");
    assert(":"@ =~= seq![':']);
    assert("127.0.0.1:"@ =~= "127.0.0.1"@ + seq![':']);
    let full = host + seq![':'] + rest;
    assert(full[host.len() as int] == ':');
    assert(target_addr(None, port) =~= "127.0.0.1"@ + seq![':'] + dec(port as nat));
}

/// A device that is named by an address is reached over the network and nowhere else; one that is
/// not is reached over USB where that is asked for, and otherwise there first and then over the
/// network, as far as USB is there at all.
pub proof fn plans_follow_the_request(host: Seq<char>, rest: Seq<char>, usb: bool, available: bool)
    requires
        !host.contains(':'),
    ensures
        plan_for(Some(host + seq![':'] + rest), usb, available) == Ok::<PlanModel, Seq<char>>(
            PlanModel::Tcp { addr: host + seq![':'] + rest },
        ),
        plan_for(Some(host), true, true) == Ok::<PlanModel, Seq<char>>(
            PlanModel::Usb { serial: Some(host) },
        ),
        plan_for(None, true, true) == Ok::<PlanModel, Seq<char>>(PlanModel::Usb { serial: None }),
        plan_for(Some(host), true, false) is Err,
        plan_for(None, true, false) is Err,
        plan_for(Some(host), false, true) == Ok::<PlanModel, Seq<char>>(
            PlanModel::UsbThenTcp {
                serial: Some(host),
                addr: host + seq![':'] + dec(5555),
            },
        ),
        plan_for(None, false, true) == Ok::<PlanModel, Seq<char>>(
            PlanModel::UsbThenTcp { serial: None, addr: "127.0.0.1"@ + seq![':'] + dec(5555) },
        ),
        plan_for(Some(host), false, false) == Ok::<PlanModel, Seq<char>>(
            PlanModel::Tcp { addr: host + seq![':'] + dec(5555) },
        ),
        plan_for(None, false, false) == Ok::<PlanModel, Seq<char>>(
            PlanModel::Tcp { addr: "127.0.0.1"@ + seq![':'] + dec(5555) },
        ),
{
    addresses_are_completed(host, rest, 5555);
    assert((host + seq![':'] + rest)[host.len() as int] == ':');
}

proof fn lemma_request_parts()
    ensures
        "host:"@ + "forward"@ + ":"@ == "host:forward:"@,
        "host:"@ + "reverse"@ + ":"@ == "host:reverse:"@,
        "kill"@ + "forward"@ + ":"@ == "killforward:"@,
        "kill"@ + "reverse"@ + ":"@ == "killreverse:"@,
        "kill"@ + "forward"@ + "-all"@ == "killforward-all"@,
        "kill"@ + "reverse"@ + "-all"@ == "killreverse-all"@,
        ";"@ == seq![';'],
{
    reveal_strlit("host:");
    reveal_strlit("forward");
    reveal_strlit("reverse");
    reveal_strlit(":");
    reveal_strlit(";");
    reveal_strlit("kill");
    reveal_strlit("-all");
    reveal_strlit("host:forward:");
    reveal_strlit("host:reverse:");
    reveal_strlit("killforward:");
    reveal_strlit("killreverse:");
    reveal_strlit("killforward-all");
    reveal_strlit("killreverse-all");
    assert("host:"@ + "forward"@ + ":"@ =~= "host:forward:"@);
    assert("host:"@ + "reverse"@ + ":"@ =~= "host:reverse:"@);
    assert("kill"@ + "forward"@ + ":"@ =~= "killforward:"@);
    assert("kill"@ + "reverse"@ + ":"@ =~= "killreverse:"@);
    assert("kill"@ + "forward"@ + "-all"@ =~= "killforward-all"@);
    assert("kill"@ + "reverse"@ + "-all"@ =~= "killreverse-all"@);
    assert(";"@ =~= seq![';']);
}

proof fn lemma_forward_texts(from: Seq<char>, to: Seq<char>, no_rebind: bool)
    ensures
        socket_request("forward"@, false, None, false, false, Some(from), Some(to)) == Some(
            "host:forward:"@ + (from + seq![';'] + to),
        ),
        socket_request("forward"@, false, None, false, true, Some(from), Some(to)) == Some(
            "host:forward:"@ + ("norebind:"@ + (from + seq![';'] + to)),
        ),
        socket_request("forward"@, true, None, false, no_rebind, None, None) == Some(
            "host:forward:"@ + "list"@,
        ),
        socket_request("forward"@, false, Some(from), false, no_rebind, None, None) == Some(
            "host:forward:"@ + ("killforward:"@ + from),
        ),
        socket_request("forward"@, false, None, true, no_rebind, None, None) == Some(
            "host:forward:"@ + "killforward-all"@,
        ),
{
    lemma_request_parts();
    let head = "host:forward:"@;
    let pair = from + seq![';'] + to;
    assert(head + from + seq![';'] + to =~= head + pair);
    assert(head + "norebind:"@ + from + seq![';'] + to =~= head + ("norebind:"@ + pair));
    assert(head + "kill"@ + "forward"@ + ":"@ + from =~= head + (("kill"@ + "forward"@ + ":"@)
        + from));
    assert(head + "kill"@ + "forward"@ + "-all"@ =~= head + ("kill"@ + "forward"@ + "-all"@));
}

proof fn lemma_reverse_texts(from: Seq<char>, to: Seq<char>, no_rebind: bool)
    ensures
        socket_request("reverse"@, false, None, false, false, Some(from), Some(to)) == Some(
            "host:reverse:"@ + (from + seq![';'] + to),
        ),
        socket_request("reverse"@, false, None, false, true, Some(from), Some(to)) == Some(
            "host:reverse:"@ + ("norebind:"@ + (from + seq![';'] + to)),
        ),
        socket_request("reverse"@, true, None, false, no_rebind, None, None) == Some(
            "host:reverse:"@ + "list"@,
        ),
        socket_request("reverse"@, false, Some(from), false, no_rebind, None, None) == Some(
            "host:reverse:"@ + ("killreverse:"@ + from),
        ),
        socket_request("reverse"@, false, None, true, no_rebind, None, None) == Some(
            "host:reverse:"@ + "killreverse-all"@,
        ),
{
    lemma_request_parts();
    let head = "host:reverse:"@;
    let pair = from + seq![';'] + to;
    assert(head + from + seq![';'] + to =~= head + pair);
    assert(head + "norebind:"@ + from + seq![';'] + to =~= head + ("norebind:"@ + pair));
    assert(head + "kill"@ + "reverse"@ + ":"@ + from =~= head + (("kill"@ + "reverse"@ + ":"@)
        + from));
    assert(head + "kill"@ + "reverse"@ + "-all"@ =~= head + ("kill"@ + "reverse"@ + "-all"@));
}

/// What a client asks of its forwards the server understands as it was meant: to make one, with
/// or without replacing one that is there, to list them, and to take away one or all.
#[verifier::rlimit(60)]
#[verifier::spinoff_prover]
pub proof fn forward_requests_are_understood(
    m: RegistryModel,
    local: Seq<char>,
    remote: Seq<char>,
    no_rebind: bool,
    f: ForwardModel,
)
    requires
        is_socket_name(local),
        port_asked(local) == Ok::<Option<u16>, Seq<char>>(None),
    ensures
        socket_request(
            "forward"@,
            false,
            None,
            false,
            no_rebind,
            Some(local),
            Some(remote),
        ) matches Some(request) && host_action(m, request) == (
            ActionModel::Forward { local, remote, no_rebind, port: None },
            m,
        ),
        socket_request(
            "forward"@,
            true,
            None,
            false,
            no_rebind,
            None,
            None,
        ) matches Some(request) && host_action(m, request) == (
            ActionModel::Reply(okay_reply(forward_list(m.forwards))),
            m,
        ),
        socket_request(
            "forward"@,
            false,
            Some(local),
            false,
            no_rebind,
            None,
            None,
        ) matches Some(request) && host_action(m, request) == forward_killed(m, local),
        socket_request(
            "forward"@,
            false,
            None,
            true,
            no_rebind,
            None,
            None,
        ) matches Some(request) && host_action(m, request) == (
            ActionModel::Reply(okay_reply(Seq::empty())),
            RegistryModel { devices: m.devices, forwards: Seq::empty(), reverses: m.reverses },
        ),
{
    lemma_forward_texts(local, remote, no_rebind);
    forwards_go_where_they_are_told(m, 0, local, remote, f);
}

/// What a client asks of its reverse connections the server understands as it was meant.
#[verifier::rlimit(60)]
#[verifier::spinoff_prover]
pub proof fn reverse_requests_are_understood(
    m: RegistryModel,
    remote: Seq<char>,
    local: Seq<char>,
    r: ReverseModel,
)
    requires
        is_socket_name(remote),
    ensures
        socket_request(
            "reverse"@,
            false,
            None,
            false,
            false,
            Some(remote),
            Some(local),
        ) matches Some(request) && host_action(m, request) == (
            ActionModel::Reply(okay_reply(Seq::empty())),
            RegistryModel {
                devices: m.devices,
                forwards: m.forwards,
                reverses: with_reverse(m, remote, local),
            },
        ),
        socket_request(
            "reverse"@,
            false,
            None,
            false,
            true,
            Some(remote),
            Some(local),
        ) matches Some(request) && host_action(m, request) == if has_remote(m.reverses, remote) {
            (
                ActionModel::Reply(
                    fail_reply("reverse forward '"@ + remote + "' already exists"@),
                ),
                m,
            )
        } else {
            (
                ActionModel::Reply(okay_reply(Seq::empty())),
                RegistryModel {
                    devices: m.devices,
                    forwards: m.forwards,
                    reverses: with_reverse(m, remote, local),
                },
            )
        },
        socket_request(
            "reverse"@,
            true,
            None,
            false,
            false,
            None,
            None,
        ) matches Some(request) && host_action(m, request) == (
            ActionModel::Reply(okay_reply(reverse_list(m.reverses))),
            m,
        ),
        socket_request(
            "reverse"@,
            false,
            Some(remote),
            false,
            false,
            None,
            None,
        ) matches Some(request) && host_action(m, request) == reverse_gone(m, remote),
        socket_request(
            "reverse"@,
            false,
            None,
            true,
            false,
            None,
            None,
        ) matches Some(request) && host_action(m, request) == (
            ActionModel::Reply(okay_reply(Seq::empty())),
            RegistryModel { devices: m.devices, forwards: m.forwards, reverses: Seq::empty() },
        ),
{
    let pair = remote + seq![';'] + local;
    lemma_reverse_texts(remote, local, false);
    lemma_reverse_pair_request(m, remote, local);
    reverses_go_where_they_are_told(m, remote, local, "norebind:"@ + pair);
    reverses_go_where_they_are_told(m, remote, local, "list"@);
    reverses_go_where_they_are_told(m, remote, local, "killreverse:"@ + remote);
    reverses_go_where_they_are_told(m, remote, local, "killreverse-all"@);
    reverses_are_taken_away(m, remote, r);
}

/// The words of a command stand one behind the other with a space before each.
pub proof fn words_are_spaced(words: Seq<Seq<char>>, x: Seq<char>)
    ensures
        spaced(Seq::empty()) == Seq::<char>::empty(),
        spaced(words.push(x)) == spaced(words) + seq![' '] + x,
{
    reveal_strlit(" ");
    assert(" "@ =~= seq![' ']);
    assert(words.push(x).drop_last() =~= words);
}

/// A package manager that says `Success` anywhere has succeeded; one that says nothing but white
/// space has given no output; and nothing else is taken for success.
pub proof fn success_is_heard(a: Seq<char>, b: Seq<char>, w: Seq<char>, output: Seq<u8>)
    requires
        all_white(w),
    ensures
        package_outcome_of(encode_utf8(a + "Success"@ + b)) == PackageOutcome::Succeeded,
        package_outcome_of(encode_utf8(w)) == PackageOutcome::NoOutput,
        package_outcome_of(output) == PackageOutcome::Succeeded ==> exists|i: int|
            #[trigger] stands_at(trimmed(lossy_text(output)), "Success"@, i),
{
    reveal_strlit("Success");
    let word = "Success"@;
    let s = a + word + b;
    utf8_round_trip(s);
    utf8_round_trip(w);
    let (x, y) = trimming_leaves_white_space(s);
    let t = trimmed(s);
    let n = a.len() as int;
    assert(s[n] == 'S' && s[n + 6] == 's');
    if x.len() > n {
        assert(x[n] == s[n]);
    }
    if n + 7 > x.len() + t.len() {
        let k = n + 6;
        if k >= x.len() + t.len() {
            assert(y[k - x.len() - t.len()] == s[k]);
        }
    }
    let i = n - x.len();
    assert(t.subrange(i, i + 7) =~= word) by {
        assert forall|k: int| 0 <= k < 7 implies t[i + k] == word[k] by {
            assert(s[n + k] == word[k]);
            assert(s[n + k] == t[i + k]);
        }
    }
    assert(stands_at(t, word, i));
    let none = Seq::<char>::empty();
    trimming_keeps_the_middle(w, none, none);
    assert(w + none + none =~= w);
    if contains_text(none, word) {
        let k = choose|k: int| #[trigger] stands_at(none, word, k);
        assert(none.len() >= 7);
    }
}

proof fn lemma_base_at(dir: Seq<char>, name: Seq<char>)
    requires
        !name.contains('/'),
        dir.len() == 0 || dir.last() == '/',
    ensures
        base_start(dir + name) == dir.len(),
    decreases name.len(),
{
    let s = dir + name;
    if name.len() == 0 {
        assert(s =~= dir);
    } else {
        assert(s.last() == name.last());
        assert(name.contains(name.last()));
        assert(s.drop_last() =~= dir + name.drop_last());
        assert forall|k: int| 0 <= k < name.drop_last().len() implies name.drop_last()[k] != '/' by {
            assert(name.contains(name[k]));
        }
        lemma_base_at(dir, name.drop_last());
    }
}

/// A file that is pulled is called what stands behind the last slash of its path.
pub proof fn pulled_file_keeps_its_name(dir: Seq<char>, name: Seq<char>)
    requires
        name.len() > 0,
        !name.contains('/'),
    ensures
        base_name(dir + seq!['/'] + name) == Some(name),
        base_name(name) == Some(name),
        base_name(dir + seq!['/']) is None,
{
    let d = dir + seq!['/'];
    let none = Seq::<char>::empty();
    lemma_base_at(d, name);
    lemma_base_at(none, name);
    lemma_base_at(d, none);
    assert((d + name).skip(d.len() as int) =~= name);
    assert(none + name =~= name);
    assert(name.skip(0) =~= name);
    assert(d + none =~= d);
    assert(d.skip(d.len() as int) =~= none);
}

/// Requests about devices, forwards and reverse connections go to the server itself; before any
/// other one a device is chosen.
pub proof fn server_requests_need_no_device(rest: Seq<char>, other: Seq<char>)
    requires
        other.len() < 5 || other.take(5) != "host:"@,
    ensures
        !addresses_device("host:forward"@ + rest),
        !addresses_device("host:reverse"@ + rest),
        !addresses_device("host:devices"@ + rest),
        addresses_device(other),
{
    reveal_strlit("host:");
    reveal_strlit("host:forward");
    reveal_strlit("host:reverse");
    reveal_strlit("host:devices");
    assert(("host:forward"@ + rest).subrange(0, 12) =~= "host:forward"@);
    assert(("host:reverse"@ + rest).subrange(0, 12) =~= "host:reverse"@);
    assert(("host:devices"@ + rest).subrange(0, 12) =~= "host:devices"@);
    if is_prefix("host:forward"@, other) || is_prefix("host:reverse"@, other) || is_prefix(
        "host:devices"@,
        other,
    ) {
        assert(other.subrange(0, 12).take(5) =~= other.take(5));
        assert("host:forward"@.take(5) =~= "host:"@);
        assert("host:reverse"@.take(5) =~= "host:"@);
        assert("host:devices"@.take(5) =~= "host:"@);
    }
}

} // verus!
