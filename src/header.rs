//! The handshake frame: its wire layout, a step function that tells a reader
//! how many more bytes it needs or what the frame says, and a parser for a
//! frame already in hand.
//!
//! Layout: a 56-byte credential, CR LF, a command byte, an address (a kind byte,
//! then four IPv4 bytes, sixteen IPv6 bytes, or a length byte and that many
//! domain bytes), a big-endian port, CR LF. What follows is payload.

use crate::credential::{CredentialSet, CREDENTIAL_LEN};
use vstd::prelude::*;
use vstd::slice::slice_to_vec;

verus! {

pub const CR: u8 = 13;

pub const LF: u8 = 10;

pub const CMD_TCP_CONNECT: u8 = 1;

pub const CMD_UDP_ASSOCIATE: u8 = 3;

pub const ATYP_IPV4: u8 = 1;

pub const ATYP_DOMAIN: u8 = 3;

pub const ATYP_IPV6: u8 = 4;

/// Offset of the command byte.
pub const COMMAND_POS: usize = 58;

/// Offset of the address kind byte.
pub const KIND_POS: usize = 59;

#[derive(Clone, Copy, Debug, PartialEq, Eq, Structural)]
pub enum Command {
    TcpConnect,
    UdpAssociate,
}

#[derive(Clone, Copy, Debug, PartialEq, Eq, Structural)]
pub enum AddressKind {
    Ipv4,
    Domain,
    Ipv6,
}

/// Why a handshake was not accepted.
#[derive(Clone, Copy, Debug, PartialEq, Eq, Structural)]
pub enum HandshakeError {
    /// The credential is not in the set.
    AuthenticationFailure,
    /// A separator, the command, or the address is badly encoded.
    MalformedFrame,
    /// The stream ended or failed before the frame was complete.
    TransportReadFailure,
}

/// A destination: IPv4 or IPv6 octets, or the bytes of a domain name, and a port.
#[derive(Clone, Debug)]
pub struct Address {
    pub kind: AddressKind,
    pub host: Vec<u8>,
    pub port: u16,
}

/// What a handshake frame carries.
#[derive(Clone, Debug)]
pub struct TrojanRequestHeader {
    pub hash: Vec<u8>,
    pub command: Command,
    pub address: Address,
}

/// A header as values.
pub struct HeaderModel {
    pub hash: Seq<u8>,
    pub command: Command,
    pub kind: AddressKind,
    pub host: Seq<u8>,
    pub port: u16,
}

impl View for TrojanRequestHeader {
    type V = HeaderModel;

    open spec fn view(&self) -> HeaderModel {
        HeaderModel {
            hash: self.hash@,
            command: self.command,
            kind: self.address.kind,
            host: self.address.host@,
            port: self.address.port,
        }
    }
}

/// What the parser makes of the bytes read so far.
pub enum StepModel {
    /// The frame is not complete: this many more bytes are needed to go on.
    Read(nat),
    /// The frame is complete and occupies this many leading bytes.
    Accepted(HeaderModel, nat),
    Rejected(HandshakeError),
}

pub enum Step {
    Read(usize),
    Accepted(TrojanRequestHeader, usize),
    Rejected(HandshakeError),
}

impl View for Step {
    type V = StepModel;

    open spec fn view(&self) -> StepModel {
        match self {
            Step::Read(n) => StepModel::Read(*n as nat),
            Step::Accepted(h, n) => StepModel::Accepted(h@, *n as nat),
            Step::Rejected(e) => StepModel::Rejected(*e),
        }
    }
}

pub open spec fn command_of(b: u8) -> Option<Command> {
    if b == CMD_TCP_CONNECT {
        Some(Command::TcpConnect)
    } else if b == CMD_UDP_ASSOCIATE {
        Some(Command::UdpAssociate)
    } else {
        None
    }
}

pub open spec fn command_byte(c: Command) -> u8 {
    match c {
        Command::TcpConnect => CMD_TCP_CONNECT,
        Command::UdpAssociate => CMD_UDP_ASSOCIATE,
    }
}

pub open spec fn kind_of(b: u8) -> Option<AddressKind> {
    if b == ATYP_IPV4 {
        Some(AddressKind::Ipv4)
    } else if b == ATYP_DOMAIN {
        Some(AddressKind::Domain)
    } else if b == ATYP_IPV6 {
        Some(AddressKind::Ipv6)
    } else {
        None
    }
}

pub open spec fn kind_byte(k: AddressKind) -> u8 {
    match k {
        AddressKind::Ipv4 => ATYP_IPV4,
        AddressKind::Domain => ATYP_DOMAIN,
        AddressKind::Ipv6 => ATYP_IPV6,
    }
}

/// Offset of the first host byte, given the address kind byte.
pub open spec fn host_start(kind: u8) -> int {
    if kind == ATYP_DOMAIN {
        KIND_POS + 2
    } else {
        KIND_POS + 1
    }
}

/// Number of host bytes, once the kind byte (and a domain's length byte) is read.
pub open spec fn host_len(buf: Seq<u8>) -> int {
    if buf[KIND_POS as int] == ATYP_IPV4 {
        4
    } else if buf[KIND_POS as int] == ATYP_IPV6 {
        16
    } else {
        buf[KIND_POS + 1] as int
    }
}

/// Length of the whole frame, once its address layout is known.
pub open spec fn frame_end(buf: Seq<u8>) -> int {
    host_start(buf[KIND_POS as int]) + host_len(buf) + 4
}

pub open spec fn port_at(buf: Seq<u8>, p: int) -> u16 {
    (buf[p] as int * 256 + buf[p + 1] as int) as u16
}

pub open spec fn is_crlf_at(buf: Seq<u8>, p: int) -> bool {
    buf[p] == CR && buf[p + 1] == LF
}

/// The parser's verdict on the bytes `buf` read so far, checked strictly in
/// wire order: credential, separator, command, address, port, terminator.
pub open spec fn spec_step(buf: Seq<u8>, valid: Set<Seq<u8>>) -> StepModel {
    let n = buf.len() as int;
    if n < CREDENTIAL_LEN {
        StepModel::Read((CREDENTIAL_LEN - n) as nat)
    } else if !valid.contains(buf.subrange(0, CREDENTIAL_LEN as int)) {
        StepModel::Rejected(HandshakeError::AuthenticationFailure)
    } else if n < COMMAND_POS {
        StepModel::Read((COMMAND_POS - n) as nat)
    } else if !is_crlf_at(buf, CREDENTIAL_LEN as int) {
        StepModel::Rejected(HandshakeError::MalformedFrame)
    } else if n < KIND_POS {
        StepModel::Read(1)
    } else if command_of(buf[COMMAND_POS as int]) is None {
        StepModel::Rejected(HandshakeError::MalformedFrame)
    } else if n < KIND_POS + 1 {
        StepModel::Read(1)
    } else if kind_of(buf[KIND_POS as int]) is None {
        StepModel::Rejected(HandshakeError::MalformedFrame)
    } else if buf[KIND_POS as int] == ATYP_DOMAIN && n < KIND_POS + 2 {
        StepModel::Read(1)
    } else if buf[KIND_POS as int] == ATYP_DOMAIN && buf[KIND_POS + 1] == 0 {
        StepModel::Rejected(HandshakeError::MalformedFrame)
    } else if n < frame_end(buf) {
        StepModel::Read((frame_end(buf) - n) as nat)
    } else if !is_crlf_at(buf, frame_end(buf) - 2) {
        StepModel::Rejected(HandshakeError::MalformedFrame)
    } else {
        let start = host_start(buf[KIND_POS as int]);
        let hl = host_len(buf);
        StepModel::Accepted(
            HeaderModel {
                hash: buf.subrange(0, CREDENTIAL_LEN as int),
                command: command_of(buf[COMMAND_POS as int])->Some_0,
                kind: kind_of(buf[KIND_POS as int])->Some_0,
                host: buf.subrange(start, start + hl),
                port: port_at(buf, start + hl),
            },
            frame_end(buf) as nat,
        )
    }
}

fn command_from_byte(b: u8) -> (r: Option<Command>)
    ensures
        r == command_of(b),
{
    if b == CMD_TCP_CONNECT {
        Some(Command::TcpConnect)
    } else if b == CMD_UDP_ASSOCIATE {
        Some(Command::UdpAssociate)
    } else {
        None
    }
}

fn kind_from_byte(b: u8) -> (r: Option<AddressKind>)
    ensures
        r == kind_of(b),
{
    if b == ATYP_IPV4 {
        Some(AddressKind::Ipv4)
    } else if b == ATYP_DOMAIN {
        Some(AddressKind::Domain)
    } else if b == ATYP_IPV6 {
        Some(AddressKind::Ipv6)
    } else {
        None
    }
}

/// Examines the bytes read so far from a connection: asks for more, accepts
/// the frame, or rejects it.
pub fn step(buf: &[u8], valid: &CredentialSet) -> (r: Step)
    ensures
        r@ == spec_step(buf@, valid@),
{
    let n = buf.len();
    if n < CREDENTIAL_LEN {
        return Step::Read(CREDENTIAL_LEN - n);
    }
    if !valid.contains(&buf[0..CREDENTIAL_LEN]) {
        return Step::Rejected(HandshakeError::AuthenticationFailure);
    }
    if n < COMMAND_POS {
        return Step::Read(COMMAND_POS - n);
    }
    if buf[CREDENTIAL_LEN] != CR || buf[CREDENTIAL_LEN + 1] != LF {
        return Step::Rejected(HandshakeError::MalformedFrame);
    }
    if n < KIND_POS {
        return Step::Read(1);
    }
    let command = match command_from_byte(buf[COMMAND_POS]) {
        Some(c) => c,
        None => {
            return Step::Rejected(HandshakeError::MalformedFrame);
        },
    };
    if n < KIND_POS + 1 {
        return Step::Read(1);
    }
    let kind_b = buf[KIND_POS];
    let kind = match kind_from_byte(kind_b) {
        Some(k) => k,
        None => {
            return Step::Rejected(HandshakeError::MalformedFrame);
        },
    };
    let (start, hl): (usize, usize) = if kind_b == ATYP_DOMAIN {
        if n < KIND_POS + 2 {
            return Step::Read(1);
        }
        if buf[KIND_POS + 1] == 0 {
            return Step::Rejected(HandshakeError::MalformedFrame);
        }
        (KIND_POS + 2, buf[KIND_POS + 1] as usize)
    } else if kind_b == ATYP_IPV4 {
        (KIND_POS + 1, 4)
    } else {
        (KIND_POS + 1, 16)
    };
    let end = start + hl + 4;
    assert(end == frame_end(buf@));
    if n < end {
        return Step::Read(end - n);
    }
    if buf[end - 2] != CR || buf[end - 1] != LF {
        return Step::Rejected(HandshakeError::MalformedFrame);
    }
    let p = start + hl;
    let port: u16 = (buf[p] as u16) * 256 + (buf[p + 1] as u16);
    let header = TrojanRequestHeader {
        hash: slice_to_vec(&buf[0..CREDENTIAL_LEN]),
        command,
        address: Address { kind, host: slice_to_vec(&buf[start..p]), port },
    };
    Step::Accepted(header, end)
}

/// The outcome of reading a connection that delivers `input` and then ends,
/// starting from its first `n` bytes: the first prefix on which the parser
/// decides, or a transport failure once every byte is read. The number is how
/// many bytes were read.
pub open spec fn outcome_from(input: Seq<u8>, valid: Set<Seq<u8>>, n: nat) -> (
    Result<HeaderModel, HandshakeError>,
    nat,
)
    decreases input.len() - n,
{
    match spec_step(input.subrange(0, n as int), valid) {
        StepModel::Read(_) => if n >= input.len() {
            (Err(HandshakeError::TransportReadFailure), n)
        } else {
            outcome_from(input, valid, n + 1)
        },
        StepModel::Accepted(h, _) => (Ok(h), n),
        StepModel::Rejected(e) => (Err(e), n),
    }
}

/// The outcome of reading a handshake from a connection that delivers `input`.
pub open spec fn handshake_outcome(input: Seq<u8>, valid: Set<Seq<u8>>) -> (
    Result<HeaderModel, HandshakeError>,
    nat,
) {
    outcome_from(input, valid, 0)
}

pub open spec fn result_view(r: Result<TrojanRequestHeader, HandshakeError>) -> Result<
    HeaderModel,
    HandshakeError,
> {
    match r {
        Ok(h) => Ok(h@),
        Err(e) => Err(e),
    }
}

/// Reads a handshake from bytes already in hand, taking at each step as many
/// bytes as the parser asks for, as a reader of the connection does. Returns
/// the verdict and every byte read.
pub fn read_handshake(input: &[u8], valid: &CredentialSet) -> (r: (
    Result<TrojanRequestHeader, HandshakeError>,
    Vec<u8>,
))
    ensures
        result_view(r.0) == handshake_outcome(input@, valid@).0,
        r.1@ == input@.subrange(0, handshake_outcome(input@, valid@).1 as int),
{
    let mut buf: Vec<u8> = Vec::new();
    let mut n: usize = 0;
    assert(buf@ =~= input@.subrange(0, 0));
    loop
        invariant
            n <= input@.len(),
            buf@ == input@.subrange(0, n as int),
            handshake_outcome(input@, valid@) == outcome_from(input@, valid@, n as nat),
        decreases input@.len() - n,
    {
        match step(buf.as_slice(), valid) {
            Step::Read(k) => {
                if n >= input.len() {
                    return (Err(HandshakeError::TransportReadFailure), buf);
                }
                let target: usize = if k > input.len() - n {
                    input.len()
                } else {
                    n + k
                };
                proof {
                    lemma_requested_bytes_hold_no_decision(input@, valid@, n as nat);
                    lemma_skip_reads(input@, valid@, n as nat, target as nat);
                }
                while n < target
                    invariant
                        n <= target <= input@.len(),
                        buf@ == input@.subrange(0, n as int),
                    decreases target - n,
                {
                    buf.push(input[n]);
                    n = n + 1;
                    assert(buf@ =~= input@.subrange(0, n as int));
                }
            },
            Step::Accepted(h, _) => {
                return (Ok(h), buf);
            },
            Step::Rejected(e) => {
                return (Err(e), buf);
            },
        }
    }
}

/// When the parser asks for `k` more bytes, none of the prefixes in between
/// is decided: reading up to `k` bytes at once skips no verdict and reads no
/// byte past the frame.
pub proof fn lemma_requested_bytes_hold_no_decision(input: Seq<u8>, valid: Set<Seq<u8>>, n: nat)
    requires
        n <= input.len(),
        spec_step(input.subrange(0, n as int), valid) is Read,
    ensures
        spec_step(input.subrange(0, n as int), valid)->Read_0 >= 1,
        forall|m: int|
            n <= m < n + spec_step(input.subrange(0, n as int), valid)->Read_0 && m <= input.len()
                ==> spec_step(#[trigger] input.subrange(0, m), valid) is Read,
{
    let a = input.subrange(0, n as int);
    assert forall|m: int|
        n <= m < n + spec_step(a, valid)->Read_0 && m <= input.len() implies spec_step(
        #[trigger] input.subrange(0, m),
        valid,
    ) is Read by {
        let b = input.subrange(0, m);
        assert(forall|i: int| 0 <= i < n ==> b[i] == a[i]);
        if n >= CREDENTIAL_LEN {
            assert(b.subrange(0, CREDENTIAL_LEN as int) =~= a.subrange(0, CREDENTIAL_LEN as int));
        }
        if n > KIND_POS + 1 || (n > KIND_POS && a[KIND_POS as int] != ATYP_DOMAIN) {
            assert(frame_end(b) == frame_end(a));
        }
    }
}

/// Reading on past prefixes on which the parser asks for more changes nothing.
pub proof fn lemma_skip_reads(input: Seq<u8>, valid: Set<Seq<u8>>, a: nat, b: nat)
    requires
        a <= b <= input.len(),
        forall|m: int| a <= m < b ==> spec_step(input.subrange(0, m), valid) is Read,
    ensures
        outcome_from(input, valid, a) == outcome_from(input, valid, b),
    decreases b - a,
{
    if a < b {
        assert(spec_step(input.subrange(0, a as int), valid) is Read);
        lemma_skip_reads(input, valid, a + 1, b);
    }
}

/// A frame whose credential is not in the set is rejected for authentication
/// once the credential is read, whatever follows it.
pub proof fn lemma_unknown_credential_rejected(input: Seq<u8>, valid: Set<Seq<u8>>)
    requires
        input.len() >= CREDENTIAL_LEN,
        !valid.contains(input.subrange(0, CREDENTIAL_LEN as int)),
    ensures
        handshake_outcome(input, valid) == (
        Err::<HeaderModel, HandshakeError>(HandshakeError::AuthenticationFailure),
        CREDENTIAL_LEN as nat,
        ),
{
    lemma_skip_reads(input, valid, 0, CREDENTIAL_LEN as nat);
    assert(input.subrange(0, CREDENTIAL_LEN as int).subrange(0, CREDENTIAL_LEN as int)
        =~= input.subrange(0, CREDENTIAL_LEN as int));
}

/// A frame with a valid credential and an unknown command byte is rejected
/// as malformed, and exactly the bytes up to and including that byte are read.
pub proof fn lemma_unknown_command_rejected(input: Seq<u8>, valid: Set<Seq<u8>>)
    requires
        input.len() > COMMAND_POS,
        valid.contains(input.subrange(0, CREDENTIAL_LEN as int)),
        is_crlf_at(input, CREDENTIAL_LEN as int),
        command_of(input[COMMAND_POS as int]) is None,
    ensures
        handshake_outcome(input, valid) == (
        Err::<HeaderModel, HandshakeError>(HandshakeError::MalformedFrame),
        KIND_POS as nat,
        ),
{
    assert forall|m: int| 0 <= m < KIND_POS implies spec_step(input.subrange(0, m), valid) is Read by {
        if m >= CREDENTIAL_LEN {
            assert(input.subrange(0, m).subrange(0, CREDENTIAL_LEN as int) =~= input.subrange(
                0,
                CREDENTIAL_LEN as int,
            ));
        }
    }
    lemma_skip_reads(input, valid, 0, KIND_POS as nat);
    assert(input.subrange(0, KIND_POS as int).subrange(0, CREDENTIAL_LEN as int)
        =~= input.subrange(0, CREDENTIAL_LEN as int));
}

/// A header whose hash and host have the lengths the frame layout allows.
pub open spec fn header_wf(h: HeaderModel) -> bool {
    &&& h.hash.len() == CREDENTIAL_LEN
    &&& match h.kind {
        AddressKind::Ipv4 => h.host.len() == 4,
        AddressKind::Ipv6 => h.host.len() == 16,
        AddressKind::Domain => 1 <= h.host.len() <= 255,
    }
}

/// The frame that carries `h`.
pub open spec fn encode_frame(h: HeaderModel) -> Seq<u8> {
    let len_byte: Seq<u8> = if h.kind == AddressKind::Domain {
        seq![h.host.len() as u8]
    } else {
        Seq::empty()
    };
    h.hash + seq![CR, LF, command_byte(h.command), kind_byte(h.kind)] + len_byte + h.host + seq![
        (h.port / 256) as u8,
        (h.port % 256) as u8,
        CR,
        LF,
    ]
}

/// Reading a well-formed frame with an admitted credential, followed by any
/// payload, yields exactly the header it encodes and reads no payload byte.
pub proof fn lemma_frame_round_trip(h: HeaderModel, payload: Seq<u8>, valid: Set<Seq<u8>>)
    requires
        header_wf(h),
        valid.contains(h.hash),
    ensures
        handshake_outcome(encode_frame(h) + payload, valid) == (
        Ok::<HeaderModel, HandshakeError>(h),
        encode_frame(h).len(),
        ),
{
    let f = encode_frame(h);
    let input = f + payload;
    let dom: int = if h.kind == AddressKind::Domain { 1 } else { 0 };
    let start: int = KIND_POS + 1 + dom;
    let end: int = start + h.host.len() + 4;
    assert(f.len() == end);
    assert forall|i: int| 0 <= i < CREDENTIAL_LEN implies #[trigger] input[i] == h.hash[i] by {}
    assert(input[CREDENTIAL_LEN as int] == CR);
    assert(input[CREDENTIAL_LEN + 1] == LF);
    assert(input[COMMAND_POS as int] == command_byte(h.command));
    assert(input[KIND_POS as int] == kind_byte(h.kind));
    if dom == 1 {
        assert(input[KIND_POS + 1] == h.host.len() as u8);
    }
    assert forall|i: int| 0 <= i < h.host.len() implies #[trigger] input[start + i] == h.host[i] by {}
    assert(input[end - 4] == (h.port / 256) as u8);
    assert(input[end - 3] == (h.port % 256) as u8);
    assert(input[end - 2] == CR);
    assert(input[end - 1] == LF);
    assert(input.subrange(0, CREDENTIAL_LEN as int) =~= h.hash);
    assert forall|m: int| 0 <= m < end implies spec_step(input.subrange(0, m), valid) is Read by {
        let b = input.subrange(0, m);
        if m >= CREDENTIAL_LEN {
            assert(b.subrange(0, CREDENTIAL_LEN as int) =~= h.hash);
        }
        if m > KIND_POS + dom {
            assert(frame_end(b) == end);
        }
    }
    lemma_skip_reads(input, valid, 0, end as nat);
    let b = input.subrange(0, end);
    assert(b.subrange(0, CREDENTIAL_LEN as int) =~= h.hash);
    assert(frame_end(b) == end);
    assert(b.subrange(start, start + h.host.len()) =~= h.host);
    assert(port_at(b, end - 4) == h.port) by {
        let p = h.port as int;
        assert(p == (p / 256) * 256 + p % 256) by (nonlinear_arith);
    }
    assert(command_of(b[COMMAND_POS as int]) == Some(h.command));
    assert(kind_of(b[KIND_POS as int]) == Some(h.kind));
}

} // verus!
