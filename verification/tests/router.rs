use newt::net::{IpAddr, SocketAddr};
use newt::olm::router::{Cidr, Out, Router};
use newt::wg::{Inbound, Pump, StaticSecret};

fn ip(s: &str) -> IpAddr {
    IpAddr::parse(s).unwrap()
}

fn addr(s: &str, port: u16) -> SocketAddr {
    SocketAddr::new(ip(s), port)
}

#[test]
fn cidr_contains_v4() {
    let c = Cidr::parse("10.0.0.0/24").unwrap();
    assert!(c.contains(ip("10.0.0.5")));
    assert!(!c.contains(ip("10.0.1.5")));
    let host = Cidr::parse("10.0.0.7").unwrap();
    assert_eq!(host.prefix(), 32);
    assert!(host.contains(ip("10.0.0.7")));
    assert!(!host.contains(ip("10.0.0.8")));
}

#[test]
fn cidr_odd_prefix() {
    let c = Cidr::parse("192.168.0.0/20").unwrap();
    assert!(c.contains(ip("192.168.5.1")));
    assert!(!c.contains(ip("192.168.16.1")));
}

#[test]
fn cidr_edges() {
    let all = Cidr::parse(" 1.2.3.4/0 ").unwrap();
    assert!(all.contains(ip("255.0.0.1")));
    assert!(!all.contains(ip("::1")));
    let v6 = Cidr::parse("fd00::/9").unwrap();
    assert!(v6.contains(ip("fd7f::1")));
    assert!(!v6.contains(ip("fd80::1")));
    assert_eq!(Cidr::parse("::1").unwrap().prefix(), 128);
    assert_eq!(Cidr::parse("::1").unwrap().parts(), (ip("::1"), 128));
    for bad in ["10.0.0.0/33", "::/129", "10.0.0.0/", "10.0.0.0/a", "10.0.0/8", "", "/8", "1.1.1.1/8/8"]
    {
        assert!(Cidr::parse(bad).is_none(), "{bad}");
    }
}

fn router() -> Router {
    Router::new(StaticSecret::random(), 1280)
}

fn a_pubkey() -> String {
    StaticSecret::random().public().to_b64()
}

#[test]
fn upsert_emits_handshake_and_routes_by_prefix() {
    let mut r = router();
    let ep1 = addr("1.1.1.1", 51820);
    let ep2 = addr("2.2.2.2", 51820);
    let init = r.upsert_peer(1, &a_pubkey(), ep1, vec![Cidr::parse("10.0.0.0/16").unwrap()]);
    assert!(init.is_some(), "handshake initiation expected");
    r.upsert_peer(2, &a_pubkey(), ep2, vec![Cidr::parse("10.0.5.0/24").unwrap()]);
    assert_eq!(r.peer_count(), 2);

    // 10.0.5.9 matches both /16 (peer1) and /24 (peer2): longest prefix wins -> peer2/ep2.
    assert_eq!(r.route_target(ip("10.0.5.9")), Some(ep2));
    // 10.0.9.9 matches only peer1.
    assert_eq!(r.route_target(ip("10.0.9.9")), Some(ep1));
    // Unroutable destination.
    assert_eq!(r.route_target(ip("8.8.8.8")), None);
}

#[test]
fn upsert_replaces_same_site() {
    let mut r = router();
    let ep = addr("1.1.1.1", 1);
    r.upsert_peer(1, &a_pubkey(), ep, vec![Cidr::parse("10.0.0.0/24").unwrap()]);
    r.upsert_peer(1, &a_pubkey(), ep, vec![Cidr::parse("10.0.0.0/24").unwrap()]);
    assert_eq!(r.peer_count(), 1);
    r.remove_peer(1);
    assert_eq!(r.peer_count(), 0);
}

#[test]
fn a_bad_key_changes_nothing() {
    let mut r = router();
    let ep = addr("1.1.1.1", 1);
    r.upsert_peer(1, &a_pubkey(), ep, vec![Cidr::parse("10.0.0.0/24").unwrap()]);
    assert!(r.upsert_peer(1, "nope", addr("9.9.9.9", 9), vec![]).is_none());
    assert_eq!(r.route_target(ip("10.0.0.1")), Some(ep));
}

#[test]
fn ties_go_to_the_first_peer() {
    let mut r = router();
    let range = || vec![Cidr::parse("10.0.0.0/24").unwrap()];
    r.upsert_peer(1, &a_pubkey(), addr("1.1.1.1", 1), range());
    r.upsert_peer(2, &a_pubkey(), addr("2.2.2.2", 2), range());
    assert_eq!(r.route_target(ip("10.0.0.1")), Some(addr("1.1.1.1", 1)));
    r.remove_peer(1);
    assert_eq!(r.route_target(ip("10.0.0.1")), Some(addr("2.2.2.2", 2)));
}

#[test]
fn ranges_and_endpoints_change_in_place() {
    let mut r = router();
    let c = |s: &str| Cidr::parse(s).unwrap();
    r.upsert_peer(1, &a_pubkey(), addr("1.1.1.1", 1), vec![c("10.0.0.0/24")]);
    r.set_endpoint(1, addr("3.3.3.3", 3));
    r.set_endpoint(99, addr("4.4.4.4", 4));
    assert_eq!(r.route_target(ip("10.0.0.1")), Some(addr("3.3.3.3", 3)));
    r.add_cidrs(1, vec![c("10.1.0.0/24"), c("10.2.0.0/24")]);
    assert!(r.route_target(ip("10.2.0.1")).is_some());
    let listed: Vec<String> = r.all_cidrs().iter().map(|(s, c)| format!("{s} {:?}", c.parts())).collect();
    assert_eq!(listed.len(), 3);
    assert_eq!(listed[1], format!("1 {:?}", (ip("10.1.0.0"), 24u8)));
    r.remove_cidrs(1, &[c("10.1.0.0/24"), c("10.2.0.0/25")]);
    assert!(r.route_target(ip("10.1.0.1")).is_none());
    assert!(r.route_target(ip("10.2.0.1")).is_some());
    r.set_cidrs(1, vec![]);
    assert!(r.all_cidrs().is_empty());
}

/// Minimal IPv4 header with the given destination (src 0.0.0.0, proto 0).
fn ipv4_to(dst: &str) -> Vec<u8> {
    let mut p = vec![0u8; 20];
    p[0] = 0x45;
    p[3] = 20;
    match ip(dst) {
        IpAddr::V4(o) => p[16..20].copy_from_slice(&o),
        IpAddr::V6(_) => panic!("IPv4 expected"),
    }
    p
}

#[test]
fn packets_travel_through_the_owning_peer() {
    let ours = StaticSecret::random();
    let theirs = StaticSecret::random();
    let mut r = Router::new(ours, 1280);
    r.upsert_peer(5, &a_pubkey(), addr("5.5.5.5", 5), vec![Cidr::parse("10.5.0.0/16").unwrap()]);
    let ep = addr("7.7.7.7", 7);
    let (init, to) = r
        .upsert_peer(6, &theirs.public().to_b64(), ep, vec![Cidr::parse("10.6.0.0/16").unwrap()])
        .unwrap();
    assert_eq!(to, ep);
    let mut site = Pump::new(theirs, ours.public(), 1280);
    let packet = ipv4_to("10.6.1.1");
    // The handshake is under way: the packet waits.
    assert!(r.route_outbound(&packet).is_none());
    assert!(r.route_outbound(&ipv4_to("8.8.8.8")).is_none());
    assert!(r.route_outbound(&[]).is_none());
    let response = match site.receive(&init).pop() {
        Some(Inbound::Network(b)) => b,
        _ => panic!("response"),
    };
    let mut got = Vec::new();
    for out in r.handle_inbound(&response) {
        match out {
            Out::ToNet(b, to) => {
                assert_eq!(to, ep);
                for i in site.receive(&b) {
                    if let Inbound::Packet(p) = i {
                        got.push(p);
                    }
                }
            }
            Out::ToHost(_) => panic!("no packet yet"),
        }
    }
    assert_eq!(got, vec![packet.clone()]);
    // And back.
    let back = site.encapsulate(&ipv4_to("10.0.0.9")).unwrap();
    let outs = r.handle_inbound(&back);
    assert!(matches!(&outs[..], [Out::ToHost(p)] if *p == ipv4_to("10.0.0.9")));
    let (_, to) = r.route_outbound(&packet).unwrap();
    assert_eq!(to, ep);
    assert!(r.handle_inbound(&[9u8; 40]).is_empty());
    assert!(r.tick().is_empty());
}

#[test]
fn version_six_packets_are_routed() {
    let mut r = router();
    r.upsert_peer(1, &a_pubkey(), addr("1.1.1.1", 1), vec![Cidr::parse("fd00::/8").unwrap()]);
    let mut p = vec![0u8; 40];
    p[0] = 0x60;
    p[24] = 0xfd;
    // Owned, but the handshake is under way.
    assert!(r.route_outbound(&p).is_none());
    assert_eq!(r.route_target(ip("fd00::1")), Some(addr("1.1.1.1", 1)));
}

#[test]
fn long_packets_without_an_owner_are_dropped() {
    let mut r = router();
    r.upsert_peer(1, &a_pubkey(), addr("1.1.1.1", 1), vec![Cidr::parse("10.0.0.0/8").unwrap()]);
    let long = |dst: &str| {
        let mut p = ipv4_to(dst);
        p.resize(1501, 0);
        p
    };
    assert!(r.takes(&long("8.8.8.8")));
    assert!(r.route_outbound(&long("8.8.8.8")).is_none());
    assert!(r.takes(&[0u8; 4000]));
    assert!(r.route_outbound(&[0u8; 4000]).is_none());
    assert!(!r.takes(&long("10.1.1.1")));
    assert!(r.takes(&ipv4_to("10.1.1.1")));
    assert!(r.takes(&long("10.1.1.1")[..1500]));
}
