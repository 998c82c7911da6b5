//! The acceptor: its construction from a configuration, and the decision it
//! takes for each connection once the handshake has been read.
//!
//! A connection whose handshake is accepted becomes a TCP or UDP session. Any
//! other connection is handed to the fallback target together with every byte
//! already read from it, so that it looks like a connection to that service.

use crate::credential::{credentials_of, CredentialSet};
use crate::fallback::{parse_host_port, FallbackTarget};
use crate::header::{
    handshake_outcome, lemma_frame_round_trip, read_handshake, result_view, AddressKind,
    Address, Command, HandshakeError, HeaderModel, TrojanRequestHeader, encode_frame, header_wf,
};
use vstd::prelude::*;
use vstd::utf8::encode_utf8;

verus! {

/// What an acceptor is built from: the shared secret and the fallback
/// target as `host:port`.
pub struct TrojanAcceptorConfig {
    pub password: String,
    pub fallback_addr: String,
}

#[derive(Clone, Copy, Debug, PartialEq, Eq, Structural)]
pub enum ConfigError {
    /// The fallback target is not a valid `host:port`.
    InvalidFallbackAddress,
}

/// What to do with a connection whose handshake has been read.
pub enum AcceptDecision {
    /// Hand the stream to the caller as a TCP session to this destination.
    Tcp(Address),
    /// Hand the stream to the caller as a UDP session.
    Udp,
    /// Connect to the target, send it these bytes first, then relay.
    Fallback(FallbackTarget, Vec<u8>),
}

pub enum DecisionModel {
    Tcp(AddressKind, Seq<u8>, u16),
    Udp,
    Fallback((Seq<u8>, u16), Seq<u8>),
}

impl View for AcceptDecision {
    type V = DecisionModel;

    open spec fn view(&self) -> DecisionModel {
        match self {
            AcceptDecision::Tcp(a) => DecisionModel::Tcp(a.kind, a.host@, a.port),
            AcceptDecision::Udp => DecisionModel::Udp,
            AcceptDecision::Fallback(t, b) => DecisionModel::Fallback(t@, b@),
        }
    }
}

/// The decision for a handshake outcome: the session its command asks for, or
/// the fallback target with every byte read.
pub open spec fn decide(
    outcome: Result<HeaderModel, HandshakeError>,
    read_ahead: Seq<u8>,
    fallback: (Seq<u8>, u16),
) -> DecisionModel {
    match outcome {
        Ok(h) => match h.command {
            Command::TcpConnect => DecisionModel::Tcp(h.kind, h.host, h.port),
            Command::UdpAssociate => DecisionModel::Udp,
        },
        Err(_) => DecisionModel::Fallback(fallback, read_ahead),
    }
}

/// Accepts disguised handshakes on connections that an inner acceptor yields.
pub struct TrojanAcceptor<T> {
    valid_hash: CredentialSet,
    fallback_addr: FallbackTarget,
    inner: T,
}

impl<T> TrojanAcceptor<T> {
    /// The credentials admitted.
    pub closed spec fn credentials(&self) -> Set<Seq<u8>> {
        self.valid_hash@
    }

    /// The fallback target.
    pub closed spec fn fallback(&self) -> (Seq<u8>, u16) {
        self.fallback_addr@
    }

    pub closed spec fn inner_spec(&self) -> &T {
        &self.inner
    }

    /// Builds an acceptor: the credential set from the secret, and the
    /// fallback target parsed from its `host:port` text. Fails only when that
    /// text does not parse.
    pub fn new(config: &TrojanAcceptorConfig, inner: T) -> (r: Result<Self, ConfigError>)
        ensures
            r is Err <==> parse_host_port(encode_utf8(config.fallback_addr@)) is None,
            r matches Err(e) ==> e == ConfigError::InvalidFallbackAddress,
            r matches Ok(a) ==> {
                &&& a.credentials() == credentials_of(encode_utf8(config.password@))
                &&& parse_host_port(encode_utf8(config.fallback_addr@)) == Some(a.fallback())
                &&& *a.inner_spec() == inner
            },
    {
        let valid_hash = CredentialSet::from_secret(config.password.as_str());
        match FallbackTarget::parse(config.fallback_addr.as_str().as_bytes()) {
            Some(fallback_addr) => Ok(TrojanAcceptor { valid_hash, fallback_addr, inner }),
            None => Err(ConfigError::InvalidFallbackAddress),
        }
    }

    /// The acceptor whose connections are examined.
    pub fn inner(&self) -> (r: &T)
        ensures
            r == self.inner_spec(),
    {
        &self.inner
    }

    /// The credentials admitted.
    pub fn valid_hash(&self) -> (r: &CredentialSet)
        ensures
            r@ == self.credentials(),
    {
        &self.valid_hash
    }

    /// The fallback target.
    pub fn fallback_addr(&self) -> (r: &FallbackTarget)
        ensures
            r@ == self.fallback(),
    {
        &self.fallback_addr
    }

    /// Decides what becomes of a connection, given the handshake outcome and
    /// every byte read from it while reading the handshake.
    pub fn dispatch(
        &self,
        outcome: Result<TrojanRequestHeader, HandshakeError>,
        read_ahead: Vec<u8>,
    ) -> (r: AcceptDecision)
        ensures
            r@ == decide(result_view(outcome), read_ahead@, self.fallback()),
    {
        match outcome {
            Ok(header) => match header.command {
                Command::TcpConnect => AcceptDecision::Tcp(header.address),
                Command::UdpAssociate => AcceptDecision::Udp,
            },
            Err(_) => AcceptDecision::Fallback(self.fallback_addr.duplicate(), read_ahead),
        }
    }

    /// Reads the handshake from bytes already received on a connection that
    /// then ended, and decides what becomes of it.
    pub fn classify(&self, input: &[u8]) -> (r: AcceptDecision)
        ensures
            r@ == decide(
                handshake_outcome(input@, self.credentials()).0,
                input@.subrange(0, handshake_outcome(input@, self.credentials()).1 as int),
                self.fallback(),
            ),
    {
        let (outcome, read_ahead) = read_handshake(input, &self.valid_hash);
        self.dispatch(outcome, read_ahead)
    }
}

/// A connection whose handshake fails goes to the acceptor's fallback
/// target, which is sent first exactly the bytes read before the failure
/// was found, a prefix of what the client sent.
pub proof fn lemma_failure_goes_to_fallback<T>(a: TrojanAcceptor<T>, input: Seq<u8>)
    requires
        handshake_outcome(input, a.credentials()).0 is Err,
    ensures
        ({
            let (outcome, n) = handshake_outcome(input, a.credentials());
            &&& n <= input.len()
            &&& decide(outcome, input.subrange(0, n as int), a.fallback())
                == DecisionModel::Fallback(a.fallback(), input.subrange(0, n as int))
        }),
{
    lemma_outcome_within_input(input, a.credentials(), 0);
}

proof fn lemma_outcome_within_input(input: Seq<u8>, valid: Set<Seq<u8>>, n: nat)
    requires
        n <= input.len(),
    ensures
        crate::header::outcome_from(input, valid, n).1 <= input.len(),
    decreases input.len() - n,
{
    if n < input.len() {
        lemma_outcome_within_input(input, valid, n + 1);
    }
}

/// A well-formed frame with an admitted credential and the UDP command
/// always becomes a UDP session, whatever payload follows it.
pub proof fn lemma_udp_frame_yields_udp<T>(a: TrojanAcceptor<T>, h: HeaderModel, payload: Seq<u8>)
    requires
        header_wf(h),
        a.credentials().contains(h.hash),
        h.command == Command::UdpAssociate,
    ensures
        ({
            let input = encode_frame(h) + payload;
            let (outcome, n) = handshake_outcome(input, a.credentials());
            decide(outcome, input.subrange(0, n as int), a.fallback()) == DecisionModel::Udp
        }),
{
    lemma_frame_round_trip(h, payload, a.credentials());
}

/// Two acceptors built from the same configuration admit the same
/// credentials and fall back to the same target.
pub proof fn lemma_same_config_same_behaviour<T, U>(
    config: TrojanAcceptorConfig,
    a: TrojanAcceptor<T>,
    b: TrojanAcceptor<U>,
    candidate: Seq<u8>,
)
    requires
        a.credentials() == credentials_of(encode_utf8(config.password@)),
        b.credentials() == credentials_of(encode_utf8(config.password@)),
        parse_host_port(encode_utf8(config.fallback_addr@)) == Some(a.fallback()),
        parse_host_port(encode_utf8(config.fallback_addr@)) == Some(b.fallback()),
    ensures
        a.credentials().contains(candidate) == b.credentials().contains(candidate),
        a.fallback() == b.fallback(),
{
}

} // verus!
