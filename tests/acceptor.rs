use trojan_acceptor::acceptor::{AcceptDecision, ConfigError, TrojanAcceptor, TrojanAcceptorConfig};
use trojan_acceptor::credential::{hex_encode, password_to_hash, CredentialSet};
use trojan_acceptor::fallback::FallbackTarget;
use trojan_acceptor::header::{read_handshake, step, AddressKind, Command, HandshakeError, Step};

fn config(password: &str, fallback: &str) -> TrojanAcceptorConfig {
    TrojanAcceptorConfig { password: password.to_string(), fallback_addr: fallback.to_string() }
}

fn acceptor() -> TrojanAcceptor<()> {
    match TrojanAcceptor::new(&config("secret123", "127.0.0.1:8080"), ()) {
        Ok(a) => a,
        Err(_) => panic!("valid configuration refused"),
    }
}

fn frame(hash: &[u8], command: u8, address: &[u8], port: u16) -> Vec<u8> {
    let mut f = hash.to_vec();
    f.extend_from_slice(b"\r\n");
    f.push(command);
    f.extend_from_slice(address);
    f.push((port >> 8) as u8);
    f.push((port & 0xff) as u8);
    f.extend_from_slice(b"\r\n");
    f
}

fn domain(name: &str) -> Vec<u8> {
    let mut a = vec![3u8, name.len() as u8];
    a.extend_from_slice(name.as_bytes());
    a
}

fn good_hash() -> Vec<u8> {
    password_to_hash("secret123")
}

#[test]
fn hash_of_empty_secret_is_sha224_hex() {
    let h = password_to_hash("");
    assert_eq!(h, b"d14a028c2a3a2bc9476102bb288234c415a2b01f828ea62ac5b3e42f".to_vec());
}

#[test]
fn hash_is_56_lowercase_hex_digits() {
    let h = password_to_hash("secret123");
    assert_eq!(h.len(), 56);
    assert!(h.iter().all(|b| b.is_ascii_digit() || (b'a'..=b'f').contains(b)));
    assert_ne!(h, password_to_hash("secret124"));
}

#[test]
fn hex_encoding_of_bytes() {
    assert_eq!(hex_encode(&[0x00, 0xab, 0xff, 0x10]), b"00abff10".to_vec());
    assert_eq!(hex_encode(&[]), Vec::<u8>::new());
}

#[test]
fn credential_set_admits_only_derived_hash() {
    let set = CredentialSet::from_secret("secret123");
    assert!(set.contains(&good_hash()));
    assert!(!set.contains(&password_to_hash("other")));
    assert!(!set.contains(b""));
    assert!(!set.contains(b"secret123"));
    let mut truncated = good_hash();
    truncated.pop();
    assert!(!set.contains(&truncated));
}

#[test]
fn same_secret_gives_same_membership() {
    let a = CredentialSet::from_secret("secret123");
    let b = CredentialSet::from_secret("secret123");
    for candidate in [good_hash(), password_to_hash("x"), b"abc".to_vec()] {
        assert_eq!(a.contains(&candidate), b.contains(&candidate));
    }
}

#[test]
fn step_asks_for_missing_bytes() {
    let set = CredentialSet::from_secret("secret123");
    assert!(matches!(step(&[], &set), Step::Read(56)));
    assert!(matches!(step(&good_hash()[..10], &set), Step::Read(46)));
    let mut b = good_hash();
    assert!(matches!(step(&b, &set), Step::Read(2)));
    b.extend_from_slice(b"\r\n");
    assert!(matches!(step(&b, &set), Step::Read(1)));
    b.push(1);
    assert!(matches!(step(&b, &set), Step::Read(1)));
    b.push(3);
    assert!(matches!(step(&b, &set), Step::Read(1)));
    b.push(11);
    assert!(matches!(step(&b, &set), Step::Read(15)));
}

#[test]
fn tcp_connect_to_domain_is_accepted() {
    let input = frame(&good_hash(), 1, &domain("example.com"), 443);
    match acceptor().classify(&input) {
        AcceptDecision::Tcp(a) => {
            assert_eq!(a.kind, AddressKind::Domain);
            assert_eq!(a.host, b"example.com".to_vec());
            assert_eq!(a.port, 443);
        },
        _ => panic!("expected a TCP session"),
    }
}

#[test]
fn round_trip_reads_exactly_the_frame() {
    let f = frame(&good_hash(), 1, &[1, 10, 0, 0, 7], 8080);
    let mut input = f.clone();
    input.extend_from_slice(b"GET / HTTP/1.1\r\n");
    let set = CredentialSet::from_secret("secret123");
    let (outcome, read) = read_handshake(&input, &set);
    assert_eq!(read, f);
    let h = match outcome {
        Ok(h) => h,
        Err(e) => panic!("frame refused: {:?}", e),
    };
    assert_eq!(h.hash, good_hash());
    assert_eq!(h.command, Command::TcpConnect);
    assert_eq!(h.address.kind, AddressKind::Ipv4);
    assert_eq!(h.address.host, vec![10, 0, 0, 7]);
    assert_eq!(h.address.port, 8080);
}

#[test]
fn ipv6_address_is_read() {
    let mut addr = vec![4u8];
    addr.extend_from_slice(&[0x20, 0x01, 0x0d, 0xb8, 0, 0, 0, 0, 0, 0, 0, 0, 0, 0, 0, 1]);
    let input = frame(&good_hash(), 1, &addr, 0x1f90);
    match acceptor().classify(&input) {
        AcceptDecision::Tcp(a) => {
            assert_eq!(a.kind, AddressKind::Ipv6);
            assert_eq!(a.host, addr[1..].to_vec());
            assert_eq!(a.port, 8080);
        },
        _ => panic!("expected a TCP session"),
    }
}

#[test]
fn udp_associate_gives_udp() {
    let input = frame(&good_hash(), 3, &[1, 8, 8, 8, 8], 53);
    assert!(matches!(acceptor().classify(&input), AcceptDecision::Udp));
    let input = frame(&good_hash(), 3, &domain("dns.example"), 53);
    assert!(matches!(acceptor().classify(&input), AcceptDecision::Udp));
}

#[test]
fn unknown_command_is_malformed_and_replayed() {
    let input = frame(&good_hash(), 2, &domain("example.com"), 443);
    let set = CredentialSet::from_secret("secret123");
    let (outcome, read) = read_handshake(&input, &set);
    assert!(matches!(outcome, Err(HandshakeError::MalformedFrame)));
    assert_eq!(read, input[..59].to_vec());
    match acceptor().classify(&input) {
        AcceptDecision::Fallback(t, replay) => {
            assert_eq!(t.host, b"127.0.0.1".to_vec());
            assert_eq!(t.port, 8080);
            assert_eq!(replay, input[..59].to_vec());
        },
        _ => panic!("expected the fallback"),
    }
}

#[test]
fn unknown_credential_fails_authentication() {
    let input = frame(&password_to_hash("wrong"), 1, &domain("example.com"), 443);
    let set = CredentialSet::from_secret("secret123");
    let (outcome, read) = read_handshake(&input, &set);
    assert!(matches!(outcome, Err(HandshakeError::AuthenticationFailure)));
    assert_eq!(read, input[..56].to_vec());
    match acceptor().classify(&input) {
        AcceptDecision::Fallback(_, replay) => assert_eq!(replay, input[..56].to_vec()),
        _ => panic!("expected the fallback"),
    }
}

#[test]
fn short_probe_goes_to_fallback_with_its_bytes() {
    let input = b"\x16\x03\x01\x02\x00".to_vec();
    let set = CredentialSet::from_secret("secret123");
    let (outcome, read) = read_handshake(&input, &set);
    assert!(matches!(outcome, Err(HandshakeError::TransportReadFailure)));
    assert_eq!(read, input);
    match acceptor().classify(&input) {
        AcceptDecision::Fallback(t, replay) => {
            assert_eq!(t.host, b"127.0.0.1".to_vec());
            assert_eq!(t.port, 8080);
            assert_eq!(replay, input);
        },
        _ => panic!("expected the fallback"),
    }
}

#[test]
fn empty_connection_goes_to_fallback() {
    match acceptor().classify(&[]) {
        AcceptDecision::Fallback(_, replay) => assert!(replay.is_empty()),
        _ => panic!("expected the fallback"),
    }
}

#[test]
fn bad_separators_are_malformed() {
    let set = CredentialSet::from_secret("secret123");
    let mut input = frame(&good_hash(), 1, &domain("example.com"), 443);
    input[56] = b'\n';
    let (outcome, read) = read_handshake(&input, &set);
    assert!(matches!(outcome, Err(HandshakeError::MalformedFrame)));
    assert_eq!(read.len(), 58);
    let mut input = frame(&good_hash(), 1, &domain("example.com"), 443);
    let last = input.len() - 1;
    input[last] = b'x';
    let (outcome, read) = read_handshake(&input, &set);
    assert!(matches!(outcome, Err(HandshakeError::MalformedFrame)));
    assert_eq!(read, input);
}

#[test]
fn bad_address_kind_and_empty_domain_are_malformed() {
    let set = CredentialSet::from_secret("secret123");
    let input = frame(&good_hash(), 1, &[5, 1, 2, 3, 4], 80);
    let (outcome, read) = read_handshake(&input, &set);
    assert!(matches!(outcome, Err(HandshakeError::MalformedFrame)));
    assert_eq!(read.len(), 60);
    let input = frame(&good_hash(), 1, &[3, 0], 80);
    let (outcome, read) = read_handshake(&input, &set);
    assert!(matches!(outcome, Err(HandshakeError::MalformedFrame)));
    assert_eq!(read.len(), 61);
}

#[test]
fn truncated_frame_is_a_transport_failure() {
    let set = CredentialSet::from_secret("secret123");
    let input = frame(&good_hash(), 1, &domain("example.com"), 443);
    let cut = &input[..input.len() - 1];
    let (outcome, read) = read_handshake(cut, &set);
    assert!(matches!(outcome, Err(HandshakeError::TransportReadFailure)));
    assert_eq!(read, cut.to_vec());
}

#[test]
fn fallback_target_parsing() {
    let t = FallbackTarget::parse(b"127.0.0.1:8080").unwrap();
    assert_eq!(t.host, b"127.0.0.1".to_vec());
    assert_eq!(t.port, 8080);
    let t = FallbackTarget::parse(b"[::1]:65535").unwrap();
    assert_eq!(t.host, b"[::1]".to_vec());
    assert_eq!(t.port, 65535);
    let t = FallbackTarget::parse(b"example.com:0").unwrap();
    assert_eq!(t.port, 0);
    assert!(FallbackTarget::parse(b"example.com").is_none());
    assert!(FallbackTarget::parse(b":80").is_none());
    assert!(FallbackTarget::parse(b"host:").is_none());
    assert!(FallbackTarget::parse(b"host:65536").is_none());
    assert!(FallbackTarget::parse(b"host:99999999999999999999").is_none());
    assert!(FallbackTarget::parse(b"host:8o").is_none());
    assert!(FallbackTarget::parse(b"").is_none());
    let long = vec![b'a'; 256];
    let mut s = long.clone();
    s.extend_from_slice(b":80");
    assert!(FallbackTarget::parse(&s).is_none());
    let mut s = long[..255].to_vec();
    s.extend_from_slice(b":80");
    assert_eq!(FallbackTarget::parse(&s).unwrap().host.len(), 255);
}

#[test]
fn construction_rejects_bad_fallback() {
    let r = TrojanAcceptor::new(&config("secret123", "not an address"), ());
    assert!(matches!(r, Err(ConfigError::InvalidFallbackAddress)));
}

#[test]
fn construction_keeps_configuration() {
    let a = acceptor();
    assert!(a.valid_hash().contains(&good_hash()));
    assert_eq!(a.fallback_addr().host, b"127.0.0.1".to_vec());
    assert_eq!(a.fallback_addr().port, 8080);
    let b = acceptor();
    assert_eq!(a.valid_hash().contains(&good_hash()), b.valid_hash().contains(&good_hash()));
    assert_eq!(*a.inner(), ());
}
