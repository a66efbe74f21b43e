use newt::bridge::{Bridge, BridgeAction, BridgeEvent, Pulled};
use newt::net::IpAddr;
use newt::netstack::VirtualDevice;
use newt::proto::{TargetsByType, WgData};
use newt::tunnel::{
    checksum, endpoint_parts, icmp_echo, open_pump, ports_to_reopen, promote, services, setup,
    Listener, SitePlane,
};
use newt::wg::{Inbound, Pump, StaticSecret};

#[test]
fn rx_token_yields_packet_and_tx_queues() {
    let mut d = VirtualDevice::new(1280);
    d.rx.push_back(vec![1, 2, 3]);
    let (rx, tx) = d.receive().unwrap();
    let got = rx.consume(|b| b.to_vec());
    assert_eq!(got, vec![1, 2, 3]);
    tx.consume(4, |b| {
        b.copy_from_slice(&[9, 9, 9, 9]);
    });
    assert_eq!(d.tx.pop_front().unwrap(), vec![9, 9, 9, 9]);
}

#[test]
fn device_queues_keep_order() {
    let mut d = VirtualDevice::new(1400);
    assert_eq!(d.mtu, 1400);
    assert!(d.receive().is_none());
    d.deliver(vec![1]);
    d.deliver(vec![2]);
    let n = d.transmit().consume(2, |b| {
        assert_eq!(b, [0, 0]);
        b[0] = 5;
        b.len()
    });
    assert_eq!(n, 2);
    let (rx, tx) = d.receive().unwrap();
    assert_eq!(rx.consume(|b| b[0]), 1);
    tx.consume(1, |b| b[0] = 6);
    assert_eq!(d.drain_tx(), vec![vec![5, 0], vec![6]]);
    assert!(d.drain_tx().is_empty());
    assert_eq!(d.rx.len(), 1);
}

#[test]
fn echo_requests_are_exact() {
    let p = icmp_echo([10, 0, 0, 2], [10, 0, 0, 1], 1, 1);
    assert_eq!(
        p,
        [
            0x45, 0, 0, 36, 0, 0, 0x40, 0, 64, 1, 0x26, 0xd7, 10, 0, 0, 2, 10, 0, 0, 1, 8, 0, 0x33,
            0x53, 0, 1, 0, 1, 110, 101, 119, 116, 112, 105, 110, 103
        ]
    );
    assert_eq!(checksum(&p[..20]), 0);
    assert_eq!(checksum(&p[20..]), 0);
}

#[test]
fn checksums_fold_and_pad() {
    assert_eq!(checksum(&[]), 0xffff);
    assert_eq!(checksum(&[0, 1]), 0xfffe);
    assert_eq!(checksum(&[0xff]), 0x00ff);
    assert_eq!(checksum(&[0xff, 0xff, 0, 1]), 0xfffe);
    // RFC 1071, section 3.
    assert_eq!(checksum(&[0x00, 0x01, 0xf2, 0x03, 0xf4, 0xf5, 0xf6, 0xf7]), !0xddf2);
}

fn wg(server_ip: &str, tunnel_ip: &str, tcp: &[&str]) -> WgData {
    WgData {
        endpoint: "h:1".into(),
        public_key: String::new(),
        server_ip: server_ip.into(),
        tunnel_ip: tunnel_ip.into(),
        relay_port: 0,
        targets: TargetsByType {
            tcp: tcp.iter().map(|s| s.to_string()).collect(),
            udp: Vec::new(),
        },
        chain_id: String::new(),
    }
}

#[test]
fn setup_reads_addresses_and_targets() {
    let s = setup(&wg("10.0.0.1", "10.0.0.2", &["80:h:81", "bad", "90:[::1]:91"])).unwrap();
    assert_eq!(s.ip, IpAddr::V4([10, 0, 0, 2]));
    assert_eq!(s.server_ip, [10, 0, 0, 1]);
    assert_eq!(s.tunnel_ip, [10, 0, 0, 2]);
    let listed: Vec<(u16, &str)> = s.services.iter().map(|x| (x.port, x.target.as_str())).collect();
    assert_eq!(listed, vec![(80, "h:81"), (90, "::1:91")]);
    assert!(services(&Vec::new()).is_empty());
}

#[test]
fn setup_says_what_is_wrong_first() {
    let err = |s: &str, t: &str| setup(&wg(s, t, &[])).err().unwrap();
    assert_eq!(err("x", "x"), "bad tunnelIP");
    assert_eq!(err("x", "10.0.0.2"), "bad serverIP");
    // An address that the stack takes, but no ping source.
    assert_eq!(err("x", "fd00::1"), "bad serverIP");
    assert_eq!(err("10.0.0.1", "fd00::1"), "bad tunnelIP");
    assert_eq!(err("10.0.0.1", "10.0.0.02"), "bad tunnelIP");
}

#[test]
fn endpoints_split_at_the_last_colon() {
    assert_eq!(endpoint_parts("h:51820").unwrap(), ("h".to_string(), 51820));
    assert_eq!(endpoint_parts("a:b:1").unwrap(), ("a:b".to_string(), 1));
    assert_eq!(endpoint_parts("h").unwrap_err(), "bad endpoint");
    assert_eq!(endpoint_parts("h:").unwrap_err(), "bad endpoint");
    assert_eq!(endpoint_parts("h:99999").unwrap_err(), "bad endpoint");
}

#[test]
fn the_pump_opens_with_an_initiation() {
    let ours = StaticSecret::random();
    let theirs = StaticSecret::random();
    let (pump, init) = open_pump(ours, &theirs.public().to_b64(), 1280).ok().unwrap();
    let mut plane = SitePlane::new(pump, [10, 0, 0, 1], [10, 0, 0, 2]);
    let mut node = Pump::new(theirs, ours.public(), 1280);
    let reply = match node.receive(&init).pop() {
        Some(Inbound::Network(b)) => b,
        _ => panic!("response"),
    };
    let mut device = VirtualDevice::new(1280);
    let back = plane.datagram(&mut device, &reply);
    assert_eq!(back.len(), 1);
    assert!(device.rx.is_empty());
    assert!(node.receive(&back[0]).is_empty());
    // Now packets flow into the device.
    let ping = icmp_echo([10, 0, 0, 1], [10, 0, 0, 2], 1, 1);
    let dg = node.encapsulate(&ping).unwrap();
    assert!(plane.datagram(&mut device, &dg).is_empty());
    assert_eq!(device.rx.pop_front().unwrap(), ping);
    // And out of the stack, in order.
    let other = icmp_echo([10, 0, 0, 2], [10, 0, 0, 1], 7, 7);
    let sent = plane.send(&vec![ping.clone(), other.clone()]);
    assert_eq!(packets_of(&mut node, &sent), vec![ping, other]);
    assert!(plane.send(&Vec::new()).is_empty());
    // Pings count on.
    for seq in 1..4u16 {
        let sent = vec![plane.ping().unwrap()];
        assert_eq!(
            packets_of(&mut node, &sent),
            vec![icmp_echo([10, 0, 0, 2], [10, 0, 0, 1], 1, seq)]
        );
    }
    assert_eq!(open_pump(ours, "AAAA", 1280).err().unwrap(), "pubkey not 32 bytes");
}

fn packets_of(pump: &mut Pump, datagrams: &[Vec<u8>]) -> Vec<Vec<u8>> {
    let mut out = Vec::new();
    for d in datagrams {
        for r in pump.receive(d) {
            if let Inbound::Packet(p) = r {
                out.push(p);
            }
        }
    }
    out
}

fn listeners() -> Vec<Listener<u32>> {
    (0..4u32)
        .map(|i| Listener { port: 100 + i as u16, target: format!("t{i}"), handle: i })
        .collect()
}

fn summary(ls: &[Listener<u32>]) -> Vec<(u16, String, u32)> {
    ls.iter().map(|l| (l.port, l.target.clone(), l.handle)).collect()
}

#[test]
fn promotion_replaces_active_listeners() {
    let mut ls = listeners();
    let active = vec![true, false, true, false];
    assert_eq!(ports_to_reopen(&ls, &active), vec![102, 100]);
    let promoted = promote(&mut ls, &active, &vec![12, 10]);
    assert_eq!(
        summary(&promoted),
        vec![(102, "t2".to_string(), 2), (100, "t0".to_string(), 0)]
    );
    assert_eq!(
        summary(&ls),
        vec![
            (102, "t2".to_string(), 12),
            (101, "t1".to_string(), 1),
            (103, "t3".to_string(), 3),
            (100, "t0".to_string(), 10)
        ]
    );
    let mut services: Vec<u16> = ls.iter().map(|l| l.port).collect();
    services.sort();
    assert_eq!(services, vec![100, 101, 102, 103]);
}

#[test]
fn promotion_of_none_and_of_all() {
    let mut ls = listeners();
    assert!(promote(&mut ls, &vec![false; 4], &vec![]).is_empty());
    assert_eq!(summary(&ls), summary(&listeners()));
    let all = vec![true; 4];
    assert_eq!(ports_to_reopen(&ls, &all), vec![103, 102, 101, 100]);
    let out = promote(&mut ls, &all, &vec![93, 92, 91, 90]);
    assert_eq!(out.len(), 4);
    let mut handles: Vec<(u16, u32)> = ls.iter().map(|l| (l.port, l.handle)).collect();
    handles.sort();
    assert_eq!(handles, vec![(100, 90), (101, 91), (102, 92), (103, 93)]);
}

#[test]
fn a_bridge_pass_moves_both_ways() {
    let mut b = Bridge::new();
    assert!(matches!(b.step(BridgeEvent::Begin), BridgeAction::Reserve));
    assert!(matches!(b.step(BridgeEvent::Reserved(true)), BridgeAction::Receive));
    assert!(
        matches!(b.step(BridgeEvent::Received(vec![1, 2])), BridgeAction::Forward(c) if c == [1, 2])
    );
    assert!(matches!(b.step(BridgeEvent::Forwarded), BridgeAction::Reserve));
    assert!(matches!(b.step(BridgeEvent::Reserved(false)), BridgeAction::Pull));
    assert!(matches!(
        b.step(BridgeEvent::Pulled(Pulled::Chunk(vec![7, 8, 9]))),
        BridgeAction::Flush(c) if c == [7, 8, 9]
    ));
    assert!(matches!(b.step(BridgeEvent::Flushed(2)), BridgeAction::AskOpen));
    assert!(matches!(b.step(BridgeEvent::Open(true)), BridgeAction::Rest));
    // The remainder goes first in the next pass.
    assert!(
        matches!(b.step(BridgeEvent::Received(vec![])), BridgeAction::Flush(c) if c == [9])
    );
    assert!(matches!(b.step(BridgeEvent::Flushed(1)), BridgeAction::AskOpen));
}

#[test]
fn a_bridge_closes_only_when_flushed() {
    let mut b = Bridge::new();
    assert!(matches!(b.step(BridgeEvent::Pulled(Pulled::Empty)), BridgeAction::AskOpen));
    assert!(matches!(b.step(BridgeEvent::Pulled(Pulled::Disconnected)), BridgeAction::Close));
    assert!(matches!(b.step(BridgeEvent::Closed), BridgeAction::AskOpen));
    assert!(matches!(b.step(BridgeEvent::Open(false)), BridgeAction::Reap));
    let mut b = Bridge::new();
    b.step(BridgeEvent::Pulled(Pulled::Chunk(vec![1, 2])));
    assert!(matches!(b.step(BridgeEvent::Flushed(2)), BridgeAction::AskOpen));
    b.step(BridgeEvent::Pulled(Pulled::Disconnected));
    assert!(matches!(b.step(BridgeEvent::Reserved(false)), BridgeAction::Pull));
}
