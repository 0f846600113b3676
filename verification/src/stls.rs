//! The upgrade of a connection to TLS: which packet leads where. The TLS handshake itself is
//! the caller's; this module tells when it is due.

use crate::constants::{A_AUTH, A_CNXN, A_STLS, A_STLS_VERSION, A_STLS_VERSION_MIN};
use crate::header::{header_of, own_payload_is_accepted, verify_spec, AdbMessageHeader};
use vstd::prelude::*;
use vstd::slice::slice_to_vec;

verus! {

/// A packet relevant to the initial ADB connection/TLS transition.
#[derive(Debug, Clone, PartialEq, Eq)]
pub enum StlsPacket {
    /// A plaintext or post-TLS connection response.
    Cnxn { version: u32, max_payload: u32, banner: Vec<u8> },
    /// A legacy plaintext authentication packet. Authentication itself is outside this state
    /// boundary.
    Auth { auth_type: u32, payload: Vec<u8> },
    /// A request to start the stream TLS protocol.
    Stls { version: u32 },
}

/// What a packet says.
pub enum StlsPacketModel {
    Cnxn { version: u32, max_payload: u32, banner: Seq<u8> },
    Auth { auth_type: u32, payload: Seq<u8> },
    Stls { version: u32 },
}

impl View for StlsPacket {
    type V = StlsPacketModel;

    open spec fn view(&self) -> StlsPacketModel {
        match *self {
            StlsPacket::Cnxn { version, max_payload, banner } => StlsPacketModel::Cnxn {
                version,
                max_payload,
                banner: banner@,
            },
            StlsPacket::Auth { auth_type, payload } => StlsPacketModel::Auth {
                auth_type,
                payload: payload@,
            },
            StlsPacket::Stls { version } => StlsPacketModel::Stls { version },
        }
    }
}

/// State of the packet-level connection negotiation.
#[derive(Debug, Clone, Copy, PartialEq, Eq, Structural)]
pub enum StlsState {
    /// The initial CNXN has been sent; either plaintext CNXN, AUTH, or STLS is expected.
    AwaitingResponse,
    /// Legacy RSA AUTH is in progress.
    AwaitingAuth,
    /// A valid A_STLS request was received; the caller must now establish TLS.
    AwaitingTls,
    /// TLS is ready and the caller must resend CNXN over the encrypted stream.
    AwaitingEncryptedCnxn,
    /// A CNXN response has completed negotiation.
    Established,
}

/// Action requested from the caller after consuming a packet or completing the TLS handshake.
#[derive(Debug, Clone, Copy, PartialEq, Eq, Structural)]
pub enum StlsAction {
    /// Continue legacy authentication handling.
    HandleAuth,
    /// Upgrade the byte stream using the indicated ADB TLS version.
    UpgradeTls { version: u32 },
    /// Send the original CNXN again over the encrypted stream.
    SendEncryptedCnxn,
    /// Negotiation completed without TLS. This is a normal CNXN response, not a downgrade
    /// after A_STLS.
    EstablishedPlaintext,
    /// Negotiation completed after the A_STLS transition.
    EstablishedTls,
}

/// Explicit errors for unsupported or invalid A_STLS transitions.
#[derive(Debug, PartialEq, Eq)]
pub enum StlsError {
    /// A command that has no place in the negotiation.
    UnexpectedCommand { command: u32 },
    /// The payload does not belong to the header.
    PayloadLength { expected: usize, actual: usize },
    /// A request that breaks the rules of A_STLS.
    MalformedRequest { reason: &'static str },
    /// A version that is not supported.
    UnsupportedVersion { version: u32, minimum: u32 },
    /// TLS is called for and not available.
    TlsRequired { version: u32 },
    /// A packet that the state does not allow.
    InvalidTransition { state: StlsState, packet: StlsPacket },
}

/// What an error says.
pub enum StlsErrorModel {
    UnexpectedCommand { command: u32 },
    PayloadLength { expected: int, actual: int },
    MalformedRequest { reason: Seq<char> },
    UnsupportedVersion { version: u32, minimum: u32 },
    TlsRequired { version: u32 },
    InvalidTransition { state: StlsState, packet: StlsPacketModel },
}

impl View for StlsError {
    type V = StlsErrorModel;

    open spec fn view(&self) -> StlsErrorModel {
        match *self {
            StlsError::UnexpectedCommand { command } => StlsErrorModel::UnexpectedCommand {
                command,
            },
            StlsError::PayloadLength { expected, actual } => StlsErrorModel::PayloadLength {
                expected: expected as int,
                actual: actual as int,
            },
            StlsError::MalformedRequest { reason } => StlsErrorModel::MalformedRequest {
                reason: reason@,
            },
            StlsError::UnsupportedVersion { version, minimum } =>
                StlsErrorModel::UnsupportedVersion { version, minimum },
            StlsError::TlsRequired { version } => StlsErrorModel::TlsRequired { version },
            StlsError::InvalidTransition { state, packet } => StlsErrorModel::InvalidTransition {
                state,
                packet: packet@,
            },
        }
    }
}

/// The packet of a frame.
pub open spec fn packet_in(header: AdbMessageHeader, payload: Seq<u8>) -> Result<
    StlsPacketModel,
    StlsErrorModel,
> {
    if verify_spec(header, payload) is Err {
        Err(
            StlsErrorModel::PayloadLength {
                expected: header.data_length as int,
                actual: payload.len() as int,
            },
        )
    } else if header.command == A_CNXN {
        Ok(
            StlsPacketModel::Cnxn {
                version: header.arg0,
                max_payload: header.arg1,
                banner: payload,
            },
        )
    } else if header.command == A_AUTH {
        Ok(StlsPacketModel::Auth { auth_type: header.arg0, payload })
    } else if header.command == A_STLS {
        if payload.len() > 0 || header.arg1 != 0 {
            Err(
                StlsErrorModel::MalformedRequest {
                    reason: "A_STLS must have an empty payload and arg1=0"@,
                },
            )
        } else {
            Ok(StlsPacketModel::Stls { version: header.arg0 })
        }
    } else {
        Err(StlsErrorModel::UnexpectedCommand { command: header.command })
    }
}

/// What a result of parsing says.
pub open spec fn packet_result(r: Result<StlsPacket, StlsError>) -> Result<
    StlsPacketModel,
    StlsErrorModel,
> {
    match r {
        Ok(p) => Ok(p@),
        Err(e) => Err(e@),
    }
}

impl StlsPacket {
    /// Decodes a received frame into the packets of the negotiation. Other commands are
    /// refused rather than treated as a successful response.
    pub fn parse(header: &AdbMessageHeader, payload: &[u8]) -> (r: Result<StlsPacket, StlsError>)
        ensures
            packet_result(r) == packet_in(*header, payload@),
    {
        if header.verify_payload(payload).is_err() {
            return Err(
                StlsError::PayloadLength {
                    expected: header.data_length as usize,
                    actual: payload.len(),
                },
            );
        }
        if header.command == A_CNXN {
            Ok(
                StlsPacket::Cnxn {
                    version: header.arg0,
                    max_payload: header.arg1,
                    banner: slice_to_vec(payload),
                },
            )
        } else if header.command == A_AUTH {
            Ok(StlsPacket::Auth { auth_type: header.arg0, payload: slice_to_vec(payload) })
        } else if header.command == A_STLS {
            if payload.len() > 0 || header.arg1 != 0 {
                return Err(
                    StlsError::MalformedRequest {
                        reason: "A_STLS must have an empty payload and arg1=0",
                    },
                );
            }
            Ok(StlsPacket::Stls { version: header.arg0 })
        } else {
            Err(StlsError::UnexpectedCommand { command: header.command })
        }
    }
}

/// An outcome of a step: the next state and the action, or an error.
pub type Step = Result<(StlsState, StlsAction), StlsErrorModel>;

/// The version of A_STLS is supported.
pub open spec fn supported(version: u32) -> bool {
    version >= A_STLS_VERSION_MIN && version == A_STLS_VERSION
}

/// The refusal of a packet in a state.
pub open spec fn refused(state: StlsState, packet: StlsPacketModel) -> Step {
    Err(StlsErrorModel::InvalidTransition { state, packet })
}

/// What a packet leads to.
pub open spec fn packet_step(state: StlsState, packet: StlsPacketModel) -> Step {
    if state == StlsState::AwaitingResponse || state == StlsState::AwaitingAuth {
        match packet {
            StlsPacketModel::Cnxn { .. } => Ok(
                (StlsState::Established, StlsAction::EstablishedPlaintext),
            ),
            StlsPacketModel::Auth { .. } => Ok((StlsState::AwaitingAuth, StlsAction::HandleAuth)),
            StlsPacketModel::Stls { version } => if supported(version) {
                Ok((StlsState::AwaitingTls, StlsAction::UpgradeTls { version }))
            } else {
                Err(
                    StlsErrorModel::UnsupportedVersion { version, minimum: A_STLS_VERSION_MIN },
                )
            },
        }
    } else {
        refused(state, packet)
    }
}

/// What the end of the TLS handshake leads to.
pub open spec fn tls_ready_step(state: StlsState) -> Step {
    if state == StlsState::AwaitingTls {
        Ok((StlsState::AwaitingEncryptedCnxn, StlsAction::SendEncryptedCnxn))
    } else {
        refused(state, StlsPacketModel::Stls { version: A_STLS_VERSION })
    }
}

/// What a packet leads to where there is no TLS.
pub open spec fn plain_step(state: StlsState, packet: StlsPacketModel) -> Step {
    match packet {
        StlsPacketModel::Stls { version } => if supported(version) {
            Err(StlsErrorModel::TlsRequired { version })
        } else {
            Err(StlsErrorModel::UnsupportedVersion { version, minimum: A_STLS_VERSION_MIN })
        },
        _ => packet_step(state, packet),
    }
}

/// What a packet on the encrypted stream leads to.
pub open spec fn encrypted_step(state: StlsState, packet: StlsPacketModel) -> Step {
    if state == StlsState::AwaitingEncryptedCnxn && packet is Cnxn {
        Ok((StlsState::Established, StlsAction::EstablishedTls))
    } else {
        refused(state, packet)
    }
}

/// A result and the state behind it are those of a step; an error leaves the state as it was.
pub open spec fn took(
    before: StlsState,
    r: Result<StlsAction, StlsError>,
    after: StlsState,
    step: Step,
) -> bool {
    match r {
        Ok(a) => step == Ok::<(StlsState, StlsAction), StlsErrorModel>((after, a)),
        Err(e) => step == Err::<(StlsState, StlsAction), StlsErrorModel>(e@) && after == before,
    }
}

/// An event of the negotiation.
pub enum StlsEvent {
    Packet(StlsPacketModel),
    TlsReady,
    PlainPacket(StlsPacketModel),
    EncryptedCnxn(StlsPacketModel),
}

/// What an event leads to.
pub open spec fn event_step(state: StlsState, event: StlsEvent) -> Step {
    match event {
        StlsEvent::Packet(p) => packet_step(state, p),
        StlsEvent::TlsReady => tls_ready_step(state),
        StlsEvent::PlainPacket(p) => plain_step(state, p),
        StlsEvent::EncryptedCnxn(p) => encrypted_step(state, p),
    }
}

/// The actions that a run of events asks for, and the state behind it. Refused events change
/// nothing.
pub open spec fn run(state: StlsState, events: Seq<StlsEvent>) -> (Seq<StlsAction>, StlsState)
    decreases events.len(),
{
    if events.len() == 0 {
        (seq![], state)
    } else {
        let (actions, s) = run(state, events.drop_last());
        match event_step(s, events.last()) {
            Ok((next, a)) => (actions.push(a), next),
            Err(_) => (actions, s),
        }
    }
}

/// The TLS upgrade is under way or done.
pub open spec fn upgrading(actions: Seq<StlsAction>) -> bool {
    exists|i: int| 0 <= i < actions.len() && (#[trigger] actions[i]) is UpgradeTls
}

proof fn lemma_run(events: Seq<StlsEvent>)
    ensures
        ({
            let (actions, s) = run(StlsState::AwaitingResponse, events);
            &&& (s == StlsState::AwaitingResponse || s == StlsState::AwaitingAuth)
                ==> !upgrading(actions) && forall|i: int|
                0 <= i < actions.len() ==> #[trigger] actions[i] == StlsAction::HandleAuth
            &&& (s == StlsState::AwaitingTls || s == StlsState::AwaitingEncryptedCnxn)
                ==> upgrading(actions) && forall|i: int|
                0 <= i < actions.len() ==> #[trigger] actions[i]
                    != StlsAction::EstablishedPlaintext && actions[i] != StlsAction::EstablishedTls
            &&& s == StlsState::Established ==> actions.len() > 0 && (actions.last()
                == StlsAction::EstablishedTls && upgrading(actions) || actions.last()
                == StlsAction::EstablishedPlaintext && !upgrading(actions)) && forall|i: int|
                0 <= i < actions.len() - 1 ==> #[trigger] actions[i]
                    != StlsAction::EstablishedPlaintext && actions[i] != StlsAction::EstablishedTls
        }),
    decreases events.len(),
{
    if events.len() > 0 {
        let before = events.drop_last();
        lemma_run(before);
        let (prev, p) = run(StlsState::AwaitingResponse, before);
        let (actions, s) = run(StlsState::AwaitingResponse, events);
        match event_step(p, events.last()) {
            Ok((next, a)) => {
                assert(actions == prev.push(a));
                assert(actions[prev.len() as int] == a);
                if upgrading(prev) {
                    let w = choose|i: int| 0 <= i < prev.len() && (#[trigger] prev[i]) is UpgradeTls;
                    assert(actions[w] is UpgradeTls);
                }
                if upgrading(actions) {
                    let w = choose|i: int|
                        0 <= i < actions.len() && (#[trigger] actions[i]) is UpgradeTls;
                    if w < prev.len() {
                        assert(prev[w] is UpgradeTls);
                    }
                }
                assert forall|i: int| 0 <= i < prev.len() implies #[trigger] actions[i]
                    == prev[i] by {}
            },
            Err(_) => {},
        }
    }
}

/// Whatever events come from the start on: once the upgrade to TLS was asked for, the
/// connection is never established as plaintext; and it is established with TLS only if the
/// upgrade was asked for.
pub proof fn no_fallback_to_plaintext(events: Seq<StlsEvent>)
    ensures
        ({
            let (actions, _) = run(StlsState::AwaitingResponse, events);
            &&& upgrading(actions) ==> !actions.contains(StlsAction::EstablishedPlaintext)
            &&& actions.contains(StlsAction::EstablishedTls) ==> upgrading(actions)
        }),
{
    lemma_run(events);
    let (actions, s) = run(StlsState::AwaitingResponse, events);
    if actions.contains(StlsAction::EstablishedPlaintext) {
        let w = choose|i: int|
            0 <= i < actions.len() && actions[i] == StlsAction::EstablishedPlaintext;
        assert(actions[w] == StlsAction::EstablishedPlaintext);
    }
    if actions.contains(StlsAction::EstablishedTls) {
        let w = choose|i: int| 0 <= i < actions.len() && actions[i] == StlsAction::EstablishedTls;
        assert(actions[w] == StlsAction::EstablishedTls);
    }
}

/// Small, transport-independent A_STLS state machine.
#[derive(Debug, Clone, Copy, PartialEq, Eq)]
pub struct StlsStateMachine {
    state: StlsState,
}

impl Default for StlsStateMachine {
    fn default() -> (m: StlsStateMachine)
        ensures
            m.current() == StlsState::AwaitingResponse,
    {
        Self::new()
    }
}

fn is_supported(version: u32) -> (r: bool)
    ensures
        r == supported(version),
{
    version >= A_STLS_VERSION_MIN && version == A_STLS_VERSION
}

impl StlsStateMachine {
    /// The state.
    pub closed spec fn current(&self) -> StlsState {
        self.state
    }

    /// A machine that waits for the first response.
    pub fn new() -> (m: StlsStateMachine)
        ensures
            m.current() == StlsState::AwaitingResponse,
    {
        StlsStateMachine { state: StlsState::AwaitingResponse }
    }

    /// The state.
    pub fn state(&self) -> (s: StlsState)
        ensures
            s == self.current(),
    {
        self.state
    }

    /// Consumes a received packet. `A_STLS` always leads to the TLS action; there is no
    /// silent fallback to plaintext.
    pub fn on_packet(&mut self, packet: StlsPacket) -> (r: Result<StlsAction, StlsError>)
        ensures
            took(
                old(self).current(),
                r,
                final(self).current(),
                packet_step(old(self).current(), packet@),
            ),
    {
        if self.state != StlsState::AwaitingResponse && self.state != StlsState::AwaitingAuth {
            return Err(StlsError::InvalidTransition { state: self.state, packet });
        }
        match packet {
            StlsPacket::Cnxn { .. } => {
                self.state = StlsState::Established;
                Ok(StlsAction::EstablishedPlaintext)
            },
            StlsPacket::Auth { .. } => {
                self.state = StlsState::AwaitingAuth;
                Ok(StlsAction::HandleAuth)
            },
            StlsPacket::Stls { version } => {
                if !is_supported(version) {
                    return Err(
                        StlsError::UnsupportedVersion { version, minimum: A_STLS_VERSION_MIN },
                    );
                }
                self.state = StlsState::AwaitingTls;
                Ok(StlsAction::UpgradeTls { version })
            },
        }
    }

    /// The TLS handshake is complete. The next packet must be the encrypted CNXN response
    /// after the caller resends CNXN.
    pub fn on_tls_ready(&mut self) -> (r: Result<StlsAction, StlsError>)
        ensures
            took(
                old(self).current(),
                r,
                final(self).current(),
                tls_ready_step(old(self).current()),
            ),
    {
        if self.state != StlsState::AwaitingTls {
            return Err(
                StlsError::InvalidTransition {
                    state: self.state,
                    packet: StlsPacket::Stls { version: A_STLS_VERSION },
                },
            );
        }
        self.state = StlsState::AwaitingEncryptedCnxn;
        Ok(StlsAction::SendEncryptedCnxn)
    }

    /// Consumes a received packet where there is no TLS. A plaintext CNXN remains valid,
    /// while A_STLS is an error that leaves the state as it was.
    pub fn on_packet_without_tls(&mut self, packet: StlsPacket) -> (r: Result<
        StlsAction,
        StlsError,
    >)
        ensures
            took(
                old(self).current(),
                r,
                final(self).current(),
                plain_step(old(self).current(), packet@),
            ),
    {
        match packet {
            StlsPacket::Stls { version } => {
                if !is_supported(version) {
                    return Err(
                        StlsError::UnsupportedVersion { version, minimum: A_STLS_VERSION_MIN },
                    );
                }
                Err(StlsError::TlsRequired { version })
            },
            other => self.on_packet(other),
        }
    }

    /// Consumes the CNXN response that comes after the TLS upgrade.
    pub fn on_encrypted_cnxn(&mut self, packet: StlsPacket) -> (r: Result<StlsAction, StlsError>)
        ensures
            took(
                old(self).current(),
                r,
                final(self).current(),
                encrypted_step(old(self).current(), packet@),
            ),
    {
        if self.state != StlsState::AwaitingEncryptedCnxn {
            return Err(StlsError::InvalidTransition { state: self.state, packet });
        }
        match packet {
            StlsPacket::Cnxn { .. } => {
                self.state = StlsState::Established;
                Ok(StlsAction::EstablishedTls)
            },
            other => Err(StlsError::InvalidTransition { state: self.state, packet: other }),
        }
    }
}

/// The three messages of a connection's beginning are told apart by their commands, with what
/// they hold; a call for encryption holds nothing but its version, and others are unexpected.
pub proof fn messages_are_told_apart(command: u32, arg0: u32, arg1: u32, payload: Seq<u8>)
    requires
        payload.len() < 0x1_0000_0000,
    ensures
        packet_in(header_of(command, arg0, arg1, payload), payload) == if command == 0x4e58_4e43 {
            Ok::<StlsPacketModel, StlsErrorModel>(
                StlsPacketModel::Cnxn { version: arg0, max_payload: arg1, banner: payload },
            )
        } else if command == 0x4854_5541 {
            Ok(StlsPacketModel::Auth { auth_type: arg0, payload })
        } else if command == 0x534c_5453 {
            if payload.len() == 0 && arg1 == 0 {
                Ok(StlsPacketModel::Stls { version: arg0 })
            } else {
                Err(
                    StlsErrorModel::MalformedRequest {
                        reason: "A_STLS must have an empty payload and arg1=0"@,
                    },
                )
            }
        } else {
            Err(StlsErrorModel::UnexpectedCommand { command })
        },
{
    own_payload_is_accepted(command, arg0, arg1, payload);
}

/// Packets of authentication only.
pub open spec fn are_auth(events: Seq<StlsEvent>) -> bool {
    forall|i: int|
        0 <= i < events.len() ==> (#[trigger] events[i] matches StlsEvent::Packet(p) && p is Auth)
}

proof fn lemma_auth_goes_on(events: Seq<StlsEvent>)
    requires
        are_auth(events),
    ensures
        ({
            let (actions, state) = run(StlsState::AwaitingResponse, events);
            &&& actions.len() == events.len()
            &&& forall|i: int| 0 <= i < actions.len() ==> #[trigger] actions[i]
                == StlsAction::HandleAuth
            &&& state == if events.len() == 0 {
                StlsState::AwaitingResponse
            } else {
                StlsState::AwaitingAuth
            }
        }),
    decreases events.len(),
{
    if events.len() > 0 {
        let before = events.drop_last();
        assert(events[events.len() - 1] matches StlsEvent::Packet(p) && p is Auth);
        assert forall|i: int| 0 <= i < before.len() implies (
        #[trigger] before[i] matches StlsEvent::Packet(p) && p is Auth) by {
            assert(before[i] == events[i]);
        }
        lemma_auth_goes_on(before);
    }
}

/// However often authentication is asked for first, a connection then is established as it
/// stands, or it is upgraded, connected again over the encrypted stream, and established.
pub proof fn connection_takes_its_course(
    auth: Seq<StlsEvent>,
    hello: StlsPacketModel,
    again: StlsPacketModel,
)
    requires
        are_auth(auth),
        hello is Cnxn,
        again is Cnxn,
    ensures
        run(StlsState::AwaitingResponse, auth.push(StlsEvent::Packet(hello))) == (
            run(StlsState::AwaitingResponse, auth).0.push(StlsAction::EstablishedPlaintext),
            StlsState::Established,
        ),
        run(
            StlsState::AwaitingResponse,
            auth.push(
                StlsEvent::Packet(StlsPacketModel::Stls { version: 0x0100_0000 }),
            ).push(StlsEvent::TlsReady).push(StlsEvent::EncryptedCnxn(again)),
        ) == (
            run(StlsState::AwaitingResponse, auth).0.push(
                StlsAction::UpgradeTls { version: 0x0100_0000 },
            ).push(StlsAction::SendEncryptedCnxn).push(StlsAction::EstablishedTls),
            StlsState::Established,
        ),
        forall|i: int|
            0 <= i < auth.len() ==> #[trigger] run(StlsState::AwaitingResponse, auth).0[i]
                == StlsAction::HandleAuth,
{
    lemma_auth_goes_on(auth);
    let start = StlsState::AwaitingResponse;
    let call = StlsEvent::Packet(StlsPacketModel::Stls { version: 0x0100_0000 });
    let one = auth.push(call);
    let two = one.push(StlsEvent::TlsReady);
    let three = two.push(StlsEvent::EncryptedCnxn(again));
    assert(auth.push(StlsEvent::Packet(hello)).drop_last() =~= auth);
    assert(one.drop_last() =~= auth);
    assert(two.drop_last() =~= one);
    assert(three.drop_last() =~= two);
    assert(run(start, one) == (
        run(start, auth).0.push(StlsAction::UpgradeTls { version: 0x0100_0000 }),
        StlsState::AwaitingTls,
    ));
    assert(run(start, two) == (
        run(start, one).0.push(StlsAction::SendEncryptedCnxn),
        StlsState::AwaitingEncryptedCnxn,
    ));
}

/// Only one version is spoken, and without encryption at hand a call for it ends the attempt.
pub proof fn one_version_is_spoken(version: u32, state: StlsState)
    requires
        state == StlsState::AwaitingResponse || state == StlsState::AwaitingAuth,
    ensures
        version != 0x0100_0000 ==> packet_step(state, StlsPacketModel::Stls { version }) == Err::<
            (StlsState, StlsAction),
            StlsErrorModel,
        >(StlsErrorModel::UnsupportedVersion { version, minimum: 0x0100_0000 }),
        version != 0x0100_0000 ==> plain_step(state, StlsPacketModel::Stls { version }) == Err::<
            (StlsState, StlsAction),
            StlsErrorModel,
        >(StlsErrorModel::UnsupportedVersion { version, minimum: 0x0100_0000 }),
        plain_step(state, StlsPacketModel::Stls { version: 0x0100_0000 }) == Err::<
            (StlsState, StlsAction),
            StlsErrorModel,
        >(StlsErrorModel::TlsRequired { version: 0x0100_0000 }),
{
}

/// Nothing happens out of turn: encryption is ready only where it was called for, an encrypted
/// connection comes only behind that, and an established connection takes nothing more.
pub proof fn nothing_happens_out_of_turn(state: StlsState, packet: StlsPacketModel)
    ensures
        tls_ready_step(state) is Ok <==> state == StlsState::AwaitingTls,
        encrypted_step(state, packet) is Ok <==> state == StlsState::AwaitingEncryptedCnxn
            && packet is Cnxn,
        state == StlsState::AwaitingTls || state == StlsState::AwaitingEncryptedCnxn || state
            == StlsState::Established ==> packet_step(state, packet) == Err::<
            (StlsState, StlsAction),
            StlsErrorModel,
        >(StlsErrorModel::InvalidTransition { state, packet }),
{
}

} // verus!
