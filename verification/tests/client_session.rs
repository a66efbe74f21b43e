use newt::net::{IpAddr, SocketAddr};
use newt::olm::control::Command;
use newt::olm::holepunch::ExitNode;
use newt::olm::proto::{topic, SiteConfig};
use newt::olm::session::{ClientAction, ClientSession, Identity};
use newt::wg::{Inbound, Pump, StaticSecret};

fn addr(n: u8) -> SocketAddr {
    SocketAddr::new(IpAddr::V4([n; 4]), n as u16)
}

fn session(secret: StaticSecret) -> ClientSession {
    let identity = Identity {
        public_b64: secret.public().to_b64(),
        version: "v".into(),
        org_id: "org".into(),
        user_token: "u".into(),
    };
    let nodes = vec![
        ExitNode { addr: addr(8), server_pub: StaticSecret::random().public().to_b64() },
        ExitNode { addr: addr(9), server_pub: "none".into() },
    ];
    ClientSession::new(secret, 1280, identity, "id".into(), "tok".into(), nodes)
}

fn site(id: i64, key: &str, subnet: &str) -> SiteConfig {
    SiteConfig {
        site_id: id,
        public_key: key.to_string(),
        remote_subnets: vec![subnet.to_string()],
        ..Default::default()
    }
}

fn ipv4(dst: [u8; 4]) -> Vec<u8> {
    let mut p = vec![0u8; 20];
    p[0] = 0x45;
    p[3] = 20;
    p[16..20].copy_from_slice(&dst);
    p
}

#[test]
fn a_session_registers_and_punches_until_connected() {
    let mut s = session(StaticSecret::random());
    assert_eq!(s.registration().typ, topic::REGISTER);
    assert_eq!(s.registration().data["orgId"], "org");
    let acts = s.tick();
    assert_eq!(acts.len(), 2);
    assert!(matches!(&acts[0], ClientAction::Register(m) if m.data["olmVersion"] == "v"));
    assert!(matches!(&acts[1], ClientAction::Send(_, to) if *to == addr(8)));
    assert!(!s.is_connected());
    assert_eq!(s.peer_count(), 0);
    assert!(s.datagram(&[4u8; 40]).is_empty());
    assert!(s.packets(&vec![ipv4([10, 0, 0, 1])]).is_empty());
    assert!(s.command(Command::Remove(1)).is_empty());
}

#[test]
fn a_connected_session_carries_packets() {
    let ours = StaticSecret::random();
    let theirs = StaticSecret::random();
    let mut s = session(ours);
    let sites = vec![site(1, &theirs.public().to_b64(), "10.1.0.0/16")];
    let acts = s.connect(&sites, &vec![Some(addr(3))]);
    assert!(s.is_connected());
    assert_eq!(s.peer_count(), 1);
    let init = match &acts[..] {
        [ClientAction::Route(ranges, true), ClientAction::Send(init, to)] => {
            assert_eq!(ranges.len(), 1);
            assert_eq!(*to, addr(3));
            init.clone()
        }
        _ => panic!("routes, then the initiation"),
    };
    // Connected: no registration, only the punch.
    assert!(matches!(&s.tick()[..], [ClientAction::Send(_, to)] if *to == addr(8)));
    let packet = ipv4([10, 1, 2, 3]);
    // A long packet is dropped where no peer owns its destination.
    let mut long = ipv4([8, 8, 8, 8]);
    long.resize(2000, 0);
    assert!(s.takes(&long));
    assert!(s.packets(&vec![long.clone()]).is_empty());
    long[16..20].copy_from_slice(&[10, 1, 2, 3]);
    assert!(!s.takes(&long));
    // A data message too long for the buffers is dropped, as is any other noise.
    assert!(s.datagram(&vec![4u8, 0, 0, 0, 0, 1, 0, 0].repeat(300)).is_empty());
    assert!(s.datagram(&vec![0u8; 5000]).is_empty());
    // The packet waits for the session; one without an owner is dropped.
    assert!(s.packets(&vec![packet.clone(), ipv4([8, 8, 8, 8])]).is_empty());
    let mut remote = Pump::new(theirs, ours.public(), 1280);
    let reply = match remote.receive(&init).pop() {
        Some(Inbound::Network(b)) => b,
        _ => panic!("response"),
    };
    let mut got = Vec::new();
    for act in s.datagram(&reply) {
        match act {
            ClientAction::Send(b, to) => {
                assert_eq!(to, addr(3));
                for r in remote.receive(&b) {
                    if let Inbound::Packet(p) = r {
                        got.push(p);
                    }
                }
            }
            _ => panic!("datagrams only"),
        }
    }
    assert_eq!(got, vec![packet.clone()]);
    let acts = s.packets(&vec![packet.clone(), ipv4([8, 8, 8, 8]), packet.clone()]);
    assert_eq!(acts.len(), 2);
    let back = remote.encapsulate(&ipv4([10, 9, 9, 9])).unwrap();
    assert!(matches!(&s.datagram(&back)[..], [ClientAction::Deliver(p)] if *p == ipv4([10, 9, 9, 9])));
}

#[test]
fn commands_change_a_connected_session() {
    let mut s = session(StaticSecret::random());
    s.connect(&Vec::new(), &Vec::new());
    assert!(s.is_connected());
    let k = StaticSecret::random().public().to_b64();
    let acts = s.command(Command::Sites(
        vec![site(1, &k, "10.1.0.0/16"), site(2, &k, "10.2.0.0/16")],
        vec![Some(addr(1)), None],
    ));
    assert!(matches!(&acts[..], [ClientAction::Route(r, false), ClientAction::Send(_, _)] if r.len() == 1));
    assert_eq!(s.peer_count(), 1);
    let acts = s.command(Command::Remove(1));
    assert!(matches!(&acts[..], [ClientAction::Route(r, false)] if r.is_empty()));
    // Only added subnets need their routes.
    let acts = s.command(Command::AddSubnets(7, vec!["10.7.0.0/16".into()]));
    assert!(matches!(&acts[..], [ClientAction::Route(r, true)] if r.len() == 1));
    assert_eq!(s.peer_count(), 0);
    // Connecting again starts over.
    s.connect(&vec![site(3, &k, "10.3.0.0/16")], &vec![Some(addr(3))]);
    assert_eq!(s.peer_count(), 1);
}

#[test]
fn a_sync_is_the_current_peer_set() {
    let mut s = session(StaticSecret::random());
    let k = StaticSecret::random().public().to_b64();
    // Nothing happens before the initial peer set.
    assert!(s.sync(vec![site(1, &k, "10.1.0.0/16")], vec![Some(addr(1))]).is_empty());
    assert!(!s.is_connected());
    s.connect(
        &vec![site(1, &k, "10.1.0.0/16"), site(2, &k, "10.2.0.0/16"), site(3, &k, "10.3.0.0/16")],
        &vec![Some(addr(1)), Some(addr(2)), Some(addr(3))],
    );
    assert_eq!(s.peer_count(), 3);
    // Site 1 is not named and goes, 2 is replaced, 3 stays without an endpoint, 4 is new.
    let acts = s.sync(
        vec![site(2, &k, "10.2.0.0/16"), site(3, &k, "10.3.0.0/16"), site(4, &k, "10.4.0.0/16")],
        vec![Some(addr(5)), None, Some(addr(4))],
    );
    assert_eq!(s.peer_count(), 3);
    assert!(matches!(
        &acts[..],
        [ClientAction::Route(r, false), ClientAction::Send(_, a), ClientAction::Send(_, b)]
            if r.len() == 2 && *a == addr(5) && *b == addr(4)
    ));
    s.command(Command::Remove(1));
    assert_eq!(s.peer_count(), 3);
    s.command(Command::Sync(Vec::new(), Vec::new()));
    assert_eq!(s.peer_count(), 0);
    assert!(s.is_connected());
}
