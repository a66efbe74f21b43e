use newt::wg::{
    generate_keys, peer_index_of, public_from_b64, Inbound, Pump, StaticSecret,
};

#[test]
fn key_roundtrip() {
    let k = generate_keys();
    let pk = public_from_b64(&k.public_b64).unwrap();
    assert_eq!(pk.as_bytes().len(), 32);
    assert_eq!(pk, k.secret.public());
    assert_ne!(pk.bytes, k.secret.bytes);
}

#[test]
fn keys_are_those_of_the_curve() {
    // RFC 7748, section 6.1.
    let secret = StaticSecret {
        bytes: [
            0x77, 0x07, 0x6d, 0x0a, 0x73, 0x18, 0xa5, 0x7d, 0x3c, 0x16, 0xc1, 0x72, 0x51, 0xb2,
            0x66, 0x45, 0xdf, 0x4c, 0x2f, 0x87, 0xeb, 0xc0, 0x99, 0x2a, 0xb1, 0x77, 0xfb, 0xa5,
            0x1d, 0xb9, 0x2c, 0x2a,
        ],
    };
    let public = [
        0x85, 0x20, 0xf0, 0x09, 0x89, 0x30, 0xa7, 0x54, 0x74, 0x8b, 0x7d, 0xdc, 0xb4, 0x3e, 0xf7,
        0x5a, 0x0d, 0xbf, 0x3a, 0x0d, 0x26, 0x38, 0x1a, 0xf4, 0xeb, 0xa4, 0xa9, 0x8e, 0xaa, 0x9b,
        0x4e, 0x6a,
    ];
    assert_eq!(secret.public().bytes, public);
    assert_eq!(secret.public().to_b64(), "hSDwCYkwp1R0i33ctD73Wg2/Og0mOBr066SpjqqbTmo=");
    assert_ne!(StaticSecret::random().bytes, StaticSecret::random().bytes);
}

#[test]
fn bad_keys_say_why() {
    assert!(public_from_b64("!").unwrap_err().starts_with("bad pubkey b64: "));
    assert_eq!(public_from_b64("AAAA").unwrap_err(), "pubkey not 32 bytes");
    let k = generate_keys();
    assert!(public_from_b64(&format!(" \n{}\t", k.public_b64)).is_ok());
}

fn pumps() -> (Pump, Pump) {
    let a = StaticSecret::random();
    let b = StaticSecret::random();
    (Pump::with_index(a, b.public(), 1280, 7), Pump::with_index(b, a.public(), 1280, 9))
}

#[test]
fn two_pumps_complete_handshake() {
    let a_sec = StaticSecret::random();
    let b_sec = StaticSecret::random();
    let a_pub = a_sec.public();
    let b_pub = b_sec.public();
    let mut a = Pump::new(a_sec, b_pub, 1280);
    let mut b = Pump::new(b_sec, a_pub, 1280);

    // A initiates by sending a (dummy) packet; encapsulate triggers handshake init.
    let init = a.encapsulate(&[0u8; 20]).expect("handshake init");
    // B processes init -> should produce a network reply (handshake response).
    let mut reply = match b.decapsulate(&init) {
        Inbound::Network(b) => Some(b),
        _ => None,
    };
    while let Inbound::Network(extra) = b.drain() {
        reply = Some(extra);
    }
    let reply = reply.expect("handshake response");
    // A processes response; handshake completes (may emit keepalive to network).
    let _ = a.decapsulate(&reply);
    while let Inbound::Network(_) = a.drain() {}
    // No panic and both produced bytes => handshake codec works.
    assert!(!init.is_empty());
}

fn ipv4_packet(len: u8) -> Vec<u8> {
    let mut p = vec![0u8; len as usize];
    p[0] = 0x45;
    p[3] = len;
    p
}

#[test]
fn queued_packets_arrive_once_the_session_is_up() {
    let (mut a, mut b) = pumps();
    let first = ipv4_packet(40);
    let second = ipv4_packet(60);
    let init = a.encapsulate(&first).unwrap();
    assert_eq!(init.len(), 148);
    assert_eq!(u32::from_le_bytes([init[4], init[5], init[6], init[7]]) >> 8, 7);
    // While the handshake is under way packets wait.
    assert!(a.encapsulate(&second).is_none());
    assert!(a.initiate_handshake().is_none());
    let response = b.receive(&init);
    let response = match &response[..] {
        [Inbound::Network(r)] => r.clone(),
        _ => panic!("one response"),
    };
    assert_eq!(peer_index_of(&response), Some(7));
    let sent = a.receive(&response);
    // A keepalive, then the packets that waited.
    let sizes: Vec<usize> = sent
        .iter()
        .map(|s| match s {
            Inbound::Network(b) => b.len(),
            _ => panic!("datagram"),
        })
        .collect();
    assert_eq!(sizes, vec![32, 72, 92]);
    let mut got = Vec::new();
    for s in &sent {
        if let Inbound::Network(d) = s {
            assert_eq!(peer_index_of(d), Some(9));
            for r in b.receive(d) {
                if let Inbound::Packet(p) = r {
                    got.push(p);
                }
            }
        }
    }
    assert_eq!(got, vec![first, second]);
    // The session encrypts at once now.
    assert_eq!(a.encapsulate(&ipv4_packet(20)).unwrap().len(), 52);
    assert!(matches!(a.drain(), Inbound::Nothing));
}

#[test]
fn noise_is_ignored() {
    let (mut a, _) = pumps();
    assert!(a.receive(&[1, 2, 3]).is_empty());
    assert!(a.receive(&[4, 0, 0, 0, 9, 9, 9]).is_empty());
    assert!(matches!(a.decapsulate(&[0u8; 148]), Inbound::Nothing));
    assert!(matches!(a.decapsulate(&[]), Inbound::Nothing));
}

#[test]
fn timers_send_nothing_at_first() {
    let (mut a, _) = pumps();
    assert!(a.update_timers().is_none());
    assert_eq!(a.initiate_handshake().unwrap().len(), 148);
    assert!(a.update_timers().is_none());
}

#[test]
fn datagrams_name_their_peer() {
    let mut d = vec![0u8; 32];
    d[0] = 4;
    d[4..8].copy_from_slice(&((5u32 << 8) | 3).to_le_bytes());
    assert_eq!(peer_index_of(&d), Some(5));
    d[0] = 3;
    assert_eq!(peer_index_of(&d), Some(5));
    d[0] = 2;
    d[8..12].copy_from_slice(&((0xabcdefu32 << 8) | 255).to_le_bytes());
    assert_eq!(peer_index_of(&d), Some(0xabcdef));
    assert_eq!(peer_index_of(&d[..11]), None);
    d[0] = 1;
    assert_eq!(peer_index_of(&d), None);
    assert_eq!(peer_index_of(&[4, 0, 0, 0, 1, 1, 1]), None);
}

#[test]
fn data_messages_that_do_not_fit_are_dropped() {
    let (mut a, mut b) = pumps();
    let init = a.initiate_handshake().unwrap();
    let response = match b.decapsulate(&init) {
        Inbound::Network(r) => r,
        _ => panic!("response"),
    };
    let keepalive = match a.decapsulate(&response) {
        Inbound::Network(k) => k,
        _ => panic!("keepalive"),
    };
    assert!(matches!(b.decapsulate(&keepalive), Inbound::Nothing));
    let packet = ipv4_packet(80);
    let sent = a.encapsulate(&packet).unwrap();
    // A counter for which the window has no room, and a message too long.
    let mut spent = sent.clone();
    spent[8..16].copy_from_slice(&0xffff_ffff_ffff_fc00u64.to_le_bytes());
    assert!(matches!(b.decapsulate(&spent), Inbound::Nothing));
    let mut last = sent.clone();
    last[8..16].copy_from_slice(&0xffff_ffff_ffff_fbffu64.to_le_bytes());
    assert!(matches!(b.decapsulate(&last), Inbound::Nothing));
    let mut long = sent.clone();
    long.resize(1549, 0);
    assert!(matches!(b.decapsulate(&long), Inbound::Nothing));
    long.truncate(1548);
    assert!(matches!(b.decapsulate(&long), Inbound::Nothing));
    // None of them disturbed the session, and a message is taken once.
    assert!(matches!(b.decapsulate(&sent), Inbound::Packet(p) if p == packet));
    assert!(matches!(b.decapsulate(&sent), Inbound::Nothing));
    let back = ipv4_packet(50);
    let reply = b.encapsulate(&back).unwrap();
    assert!(matches!(a.decapsulate(&reply), Inbound::Packet(p) if p == back));
    assert!(matches!(a.decapsulate(&vec![9u8; 70000]), Inbound::Nothing));
}
