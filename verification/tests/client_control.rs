use newt::bytes::ByteOrder;
use newt::config::{AccessMode, Forward};
use newt::holepunch::{build, build_with};
use newt::net::{IpAddr, SocketAddr};
use newt::olm::backend::select;
use newt::olm::control::{
    apply, build_router, client_step, endpoint_to_resolve, kind_of, parse_cidrs,
    parse_exit_nodes, register_msg, token_of, tunnel_address, ClientStep, Command, Kind, Payload,
};
use newt::olm::holepunch::{ExitNode, HolePunch};
use newt::olm::kernel::host_prefix;
use newt::olm::netlink::{
    push_attr, push_attr_in, AckError, Netlink, IFA_LOCAL, RTA_DST, RTA_OIF,
};
use newt::olm::proto::{topic, SiteConfig, WgData};
use newt::olm::tun::{assigned_name, name_field};
use newt::olm::userspace::{forward_dest, PortAllocator};
use newt::wg::StaticSecret;
use base64::Engine as _;
use chacha20poly1305::aead::Aead;
use chacha20poly1305::KeyInit;
use serde_json::Value;

fn ip(s: &str) -> IpAddr {
    IpAddr::parse(s).unwrap()
}

#[test]
fn attr_is_padded_to_4() {
    let mut b = Vec::new();
    push_attr(&mut b, RTA_OIF, &7u32.to_ne_bytes());
    assert_eq!(b.len(), 8); // 4 header + 4 data
    let mut b = Vec::new();
    push_attr(&mut b, RTA_DST, &[10, 0, 0, 0]);
    assert_eq!(b.len(), 8);
    let mut b = Vec::new();
    push_attr(&mut b, IFA_LOCAL, &[1, 2, 3, 4, 5, 6]); // 6 bytes -> pad to 8 + 4 hdr = 12
    assert_eq!(b.len(), 12);
}

#[test]
fn attributes_are_in_the_order_of_the_machine() {
    let mut b = vec![1, 2, 3, 4];
    push_attr(&mut b, 0x0102, &[9, 8, 7]);
    let mut want = vec![1, 2, 3, 4];
    want.extend_from_slice(&7u16.to_ne_bytes());
    want.extend_from_slice(&0x0102u16.to_ne_bytes());
    want.extend_from_slice(&[9, 8, 7, 0]);
    assert_eq!(b, want);
    let mut b = Vec::new();
    push_attr_in(ByteOrder::Big, &mut b, 0x0102, &[9]);
    assert_eq!(b, [0, 5, 1, 2, 9, 0, 0, 0]);
    let mut b = Vec::new();
    push_attr_in(ByteOrder::Little, &mut b, 0x0102, &[]);
    assert_eq!(b, [4, 0, 2, 1]);
}

#[test]
fn netlink_requests_are_exact() {
    let mut nl = Netlink::with_order(ByteOrder::Little);
    assert_eq!(
        nl.set_mtu(3, 1280),
        [
            40, 0, 0, 0, 16, 0, 5, 0, 1, 0, 0, 0, 0, 0, 0, 0, 0, 0, 0, 0, 3, 0, 0, 0, 0, 0, 0, 0, 0,
            0, 0, 0, 8, 0, 4, 0, 0, 5, 0, 0
        ]
    );
    assert_eq!(
        nl.add_addr(3, ip("10.0.0.2"), 32),
        [
            40, 0, 0, 0, 20, 0, 5, 5, 2, 0, 0, 0, 0, 0, 0, 0, 2, 32, 0, 0, 3, 0, 0, 0, 8, 0, 2, 0,
            10, 0, 0, 2, 8, 0, 1, 0, 10, 0, 0, 2
        ]
    );
    assert_eq!(
        nl.link_up(3),
        [
            32, 0, 0, 0, 16, 0, 5, 0, 3, 0, 0, 0, 0, 0, 0, 0, 0, 0, 0, 0, 3, 0, 0, 0, 1, 0, 0, 0, 1,
            0, 0, 0
        ]
    );
    let route = nl.add_route(3, ip("fd00::"), 8);
    assert_eq!(route[..12], [56, 0, 0, 0, 24, 0, 5, 5, 4, 0, 0, 0]);
    assert_eq!(route[16..28], [10, 8, 0, 0, 254, 3, 253, 1, 0, 0, 0, 0]);
    assert_eq!(route[28..34], [20, 0, 1, 0, 0xfd, 0]);
    assert_eq!(route[48..], [8, 0, 4, 0, 3, 0, 0, 0]);
    let mut native = Netlink::new();
    let m = native.link_up(1);
    assert_eq!(m[..4], 32u32.to_ne_bytes());
    assert_eq!(m[4..6], 16u16.to_ne_bytes());
}

fn ack(order: ByteOrder, msg_type: u8, code: [u8; 4]) -> Vec<u8> {
    let mut a = vec![0u8; 36];
    match order {
        ByteOrder::Little => a[4] = msg_type,
        ByteOrder::Big => a[5] = msg_type,
    }
    a[16..20].copy_from_slice(&code);
    a
}

#[test]
fn acknowledgements_report_errors() {
    let nl = Netlink::with_order(ByteOrder::Little);
    assert_eq!(nl.read_ack(&[0u8; 19]), Err(AckError::Short));
    assert_eq!(nl.read_ack(&ack(ByteOrder::Little, 2, [0; 4])), Ok(()));
    assert_eq!(
        nl.read_ack(&ack(ByteOrder::Little, 2, (-17i32).to_le_bytes())),
        Err(AckError::Os(17))
    );
    assert_eq!(
        nl.read_ack(&ack(ByteOrder::Little, 2, 5i32.to_le_bytes())),
        Err(AckError::Os(-5))
    );
    // Another message is not an error.
    assert_eq!(nl.read_ack(&ack(ByteOrder::Little, 3, [1; 4])), Ok(()));
    let big = Netlink::with_order(ByteOrder::Big);
    assert_eq!(
        big.read_ack(&ack(ByteOrder::Big, 2, (-1i32).to_be_bytes())),
        Err(AckError::Os(1))
    );
    assert_eq!(
        big.read_ack(&ack(ByteOrder::Big, 2, i32::MIN.to_be_bytes())),
        Err(AckError::Os(i32::MIN))
    );
}

fn text(v: &Value) -> String {
    v.as_str().unwrap_or_default().to_string()
}

fn texts(v: &Value) -> Vec<String> {
    v.as_array().map(|a| a.iter().map(text).collect()).unwrap_or_default()
}

#[test]
fn parses_connect_with_sites() {
    let raw = r#"{
            "tunnelIP":"100.89.0.5","utilitySubnet":"100.90.0.0/24",
            "sites":[{
                "siteId":7,"name":"hq","publicKey":"abc=",
                "relayEndpoint":"1.2.3.4:21820","endpoint":"5.6.7.8:51820",
                "remoteSubnets":["10.0.0.0/24"],"allowedIps":["100.89.0.7/32"]
            }]
        }"#;
    let v: Value = serde_json::from_str(raw).unwrap();
    let sites = v["sites"]
        .as_array()
        .unwrap()
        .iter()
        .map(|s| SiteConfig {
            site_id: s["siteId"].as_i64().unwrap(),
            name: text(&s["name"]),
            endpoint: text(&s["endpoint"]),
            relay_endpoint: text(&s["relayEndpoint"]),
            public_key: text(&s["publicKey"]),
            remote_subnets: texts(&s["remoteSubnets"]),
            allowed_ips: texts(&s["allowedIps"]),
            ..Default::default()
        })
        .collect();
    let wg = WgData {
        sites,
        tunnel_ip: text(&v["tunnelIP"]),
        utility_subnet: text(&v["utilitySubnet"]),
    };
    assert_eq!(wg.tunnel_ip, "100.89.0.5");
    assert_eq!(wg.sites.len(), 1);
    let s = &wg.sites[0];
    assert_eq!(s.site_id, 7);
    assert_eq!(s.wg_endpoint(), "1.2.3.4:21820");
    let cidrs: Vec<&String> = s.routed_cidrs();
    assert_eq!(cidrs.len(), 2);
    assert_eq!(cidrs, ["10.0.0.0/24", "100.89.0.7/32"]);
}

#[test]
fn wg_endpoint_falls_back_to_direct() {
    let s = SiteConfig { endpoint: "9.9.9.9:51820".into(), ..Default::default() };
    assert_eq!(s.wg_endpoint(), "9.9.9.9:51820");
}

#[test]
fn topics_have_kinds() {
    for (t, k) in [
        (topic::CONNECT, Kind::Connect),
        (topic::PEER_ADD, Kind::Upsert),
        (topic::PEER_UPDATE, Kind::Upsert),
        (topic::PEER_REMOVE, Kind::Remove),
        (topic::PEER_RELAY, Kind::Relay),
        (topic::PEER_UNRELAY, Kind::Unrelay),
        (topic::PEER_DATA_ADD, Kind::DataAdd),
        (topic::PEER_DATA_REMOVE, Kind::DataRemove),
        (topic::SYNC, Kind::Sync),
        (topic::ERROR, Kind::Error),
        (topic::TERMINATE, Kind::Terminate),
        (topic::PEER_DATA_UPDATE, Kind::Other),
        (topic::REGISTER, Kind::Other),
        ("", Kind::Other),
    ] {
        assert_eq!(kind_of(t), k, "{t}");
    }
}

#[test]
fn registration_is_complete() {
    let m = register_msg("K", "rust-1", "org", "tok");
    assert_eq!(m.typ, "olm/wg/register");
    let want = [
        r#"{"fingerprint":{},"olmAgent":"newt-rust","olmVersion":"rust-1","orgId":"org","#,
        r#""postures":{},"publicKey":"K","relay":true,"userToken":"tok"}"#,
    ];
    assert_eq!(m.data.to_string(), want.concat());
}

#[test]
fn exit_nodes_are_read_with_their_relay_ports() {
    let raw = r#"{"token":"t","exitNodes":[
        {"endpoint":"a.example:51820","publicKey":"K1","relayPort":1234},
        {"endpoint":"bare","publicKey":"K2"},
        {"endpoint":"c:1","publicKey":"K3","relayPort":65536},
        {"endpoint":"d:1","publicKey":"K4","relayPort":65537},
        {"endpoint":"e:1"}, {"publicKey":"K5"}, {"endpoint":":9","publicKey":"K6"},
        {"endpoint":"f:1","publicKey":"K7","relayPort":-1}, 5
    ]}"#;
    let v: Value = serde_json::from_str(raw).unwrap();
    let nodes: Vec<(String, u16, String)> = parse_exit_nodes(&v)
        .into_iter()
        .map(|n| (n.host, n.relay_port, n.server_pub))
        .collect();
    let want = [
        ("a.example", 1234, "K1"),
        ("bare", 21820, "K2"),
        ("c", 21820, "K3"),
        ("d", 1, "K4"),
        ("f", 21820, "K7"),
    ];
    assert_eq!(nodes.len(), want.len());
    for (n, w) in nodes.iter().zip(want) {
        assert_eq!((n.0.as_str(), n.1, n.2.as_str()), w);
    }
    assert!(parse_exit_nodes(&Value::Null).is_empty());
    assert_eq!(token_of(&v).unwrap(), "t");
    assert_eq!(token_of(&Value::Null).unwrap_err(), "no token in olm get-token response");
}

#[test]
fn tunnel_addresses_drop_their_prefix() {
    assert_eq!(tunnel_address("100.89.0.5/24").unwrap(), ip("100.89.0.5"));
    assert_eq!(tunnel_address("fd00::1").unwrap(), ip("fd00::1"));
    assert_eq!(tunnel_address("").unwrap_err(), "bad olm tunnelIP");
    assert_eq!(tunnel_address("/24").unwrap_err(), "bad olm tunnelIP");
}

fn site(id: i64, key: &str, subnets: &[&str]) -> SiteConfig {
    SiteConfig {
        site_id: id,
        public_key: key.to_string(),
        endpoint: "e:1".into(),
        remote_subnets: subnets.iter().map(|s| s.to_string()).collect(),
        ..Default::default()
    }
}

fn key() -> String {
    StaticSecret::random().public().to_b64()
}

#[test]
fn sites_join_the_router() {
    let ep = |n: u8| Some(SocketAddr::new(IpAddr::V4([n, n, n, n]), n as u16));
    let sites = vec![
        site(1, &key(), &["10.1.0.0/16", "junk"]),
        site(2, "", &["10.2.0.0/16"]),
        site(3, &key(), &["10.3.0.0/16"]),
        site(4, "not a key", &["10.4.0.0/16"]),
        site(5, &key(), &["10.1.2.0/24"]),
    ];
    assert!(endpoint_to_resolve(&sites[1]).is_none());
    assert_eq!(endpoint_to_resolve(&sites[0]), Some("e:1"));
    let eps = vec![ep(1), ep(2), None, ep(4), ep(5)];
    let (mut router, joined) = build_router(StaticSecret::random(), 1280, &sites, &eps);
    assert_eq!(router.peer_count(), 2);
    assert_eq!(joined.inits.len(), 2);
    assert_eq!(joined.inits[0].0.len(), 148);
    assert_eq!(Some(joined.inits[1].1), ep(5));
    // Ranges of a site whose key is none are still listed.
    assert_eq!(joined.ranges.len(), 3);
    assert_eq!(router.route_target(ip("10.1.2.3")), ep(5));
    assert_eq!(router.route_target(ip("10.3.0.1")), None);
    let again = apply(&mut router, Command::Sites(vec![site(5, &key(), &[])], vec![ep(6)]));
    assert_eq!(again.inits.len(), 1);
    assert_eq!(router.peer_count(), 2);
    assert_eq!(router.route_target(ip("10.1.2.3")), ep(1));
}

#[test]
fn subnets_come_and_go() {
    let list = |s: &[&str]| s.iter().map(|x| x.to_string()).collect::<Vec<String>>();
    let ep = SocketAddr::new(ip("1.1.1.1"), 1);
    let (mut router, _) =
        build_router(StaticSecret::random(), 1280, &vec![site(1, &key(), &[])], &vec![Some(ep)]);
    let added = apply(&mut router, Command::AddSubnets(1, list(&["10.0.0.0/8", "x"])));
    assert_eq!(added.ranges.len(), 1);
    assert!(added.inits.is_empty());
    assert_eq!(router.route_target(ip("10.9.9.9")), Some(ep));
    let moved = SocketAddr::new(ip("2.2.2.2"), 2);
    apply(&mut router, Command::Endpoint(1, Some(moved)));
    assert_eq!(router.route_target(ip("10.9.9.9")), Some(moved));
    apply(&mut router, Command::Endpoint(1, None));
    assert_eq!(router.route_target(ip("10.9.9.9")), Some(moved));
    let removed = apply(&mut router, Command::RemoveSubnets(1, list(&["10.0.0.0/8"])));
    assert!(removed.ranges.is_empty());
    assert_eq!(router.route_target(ip("10.9.9.9")), None);
    apply(&mut router, Command::Remove(1));
    assert_eq!(router.peer_count(), 0);
    assert_eq!(parse_cidrs(&list(&["1.1.1.1", "nope", "::/0"])).len(), 2);
}

#[test]
fn hole_punches_are_sealed_for_the_server() {
    let eph = StaticSecret { bytes: [3; 32] };
    let server = StaticSecret { bytes: [5; 32] };
    let d = build_with("olmId", "id", "tok", "PUB", &server.public().to_b64(), &eph, &[7; 12])
        .unwrap();
    let v: Value = serde_json::from_slice(&d).unwrap();
    assert_eq!(v["ephemeralPublicKey"], eph.public().to_b64().as_str());
    assert_eq!(v["nonce"], "BwcHBwcHBwcHBwcH");
    let b64 = base64::engine::general_purpose::STANDARD;
    let sealed = b64.decode(v["ciphertext"].as_str().unwrap()).unwrap();
    // The server opens it with its own key and the ephemeral one.
    let shared = x25519_dalek::StaticSecret::from(server.bytes)
        .diffie_hellman(&x25519_dalek::PublicKey::from(eph.public().bytes));
    let opened = open(shared.as_bytes(), &[7; 12], &sealed);
    assert_eq!(opened, br#"{"olmId":"id","publicKey":"PUB","token":"tok"}"#);
    assert_eq!(sealed.len(), opened.len() + 16);
}

fn open(key: &[u8; 32], nonce: &[u8; 12], sealed: &[u8]) -> Vec<u8> {
    let cipher = chacha20poly1305::ChaCha20Poly1305::new(chacha20poly1305::Key::from_slice(key));
    cipher.decrypt(chacha20poly1305::Nonce::from_slice(nonce), sealed).unwrap()
}

#[test]
fn hole_punches_need_a_key_and_are_fresh() {
    let k = key();
    assert!(build("newtId", "i", "t", "p", "AAAA").is_none());
    assert!(build("newtId", "i", "t", "p", "?").is_none());
    let a = build("newtId", "i", "t", "p", &k).unwrap();
    let b = build("newtId", "i", "t", "p", &format!(" {k} ")).unwrap();
    assert_ne!(a, b);
}

#[test]
fn every_reachable_node_is_punched() {
    let mut hp = HolePunch::new("id".into(), "PUB".into(), "tok".into());
    assert!(hp.is_empty());
    assert!(hp.datagrams().is_empty());
    let node = |n: u8, k: &str| ExitNode {
        addr: SocketAddr::new(IpAddr::V4([n; 4]), n as u16),
        server_pub: k.to_string(),
    };
    hp.set_nodes(vec![node(1, &key()), node(2, "bad"), node(3, &key())]);
    assert!(!hp.is_empty());
    let sent = hp.datagrams();
    let to: Vec<u16> = sent.iter().map(|d| d.1.port).collect();
    assert_eq!(to, vec![1, 3]);
    let v: Value = serde_json::from_slice(&sent[0].0).unwrap();
    assert!(v["ciphertext"].is_string());
}

#[test]
fn interface_names_fit_their_field() {
    assert_eq!(name_field("olm"), *b"olm\0\0\0\0\0\0\0\0\0\0\0\0\0");
    assert_eq!(name_field("abcdefghijklmnopqrst"), *b"abcdefghijklmno\0");
    assert_eq!(assigned_name(&name_field("olm0")), "olm0");
    assert_eq!(assigned_name(b"abcdefghijklmnop"), "abcdefghijklmnop");
    assert_eq!(assigned_name(&[0xe9, 0, 65, 0, 0, 0, 0, 0, 0, 0, 0, 0, 0, 0, 0, 0]), "\u{e9}");
    assert_eq!(assigned_name(&name_field("")), "");
}

#[test]
fn local_ports_take_turns() {
    let mut p = PortAllocator::new();
    let mut seen = std::collections::HashSet::new();
    for i in 0..40001u32 {
        let port = p.alloc_port();
        assert_eq!(port as u32, 20000 + i);
        assert!(seen.insert(port));
    }
    assert_eq!(p.alloc_port(), 20000);
}

#[test]
fn forwards_lead_to_addresses() {
    let f = |h: &str| Forward { listen_port: 1, dest_host: h.into(), dest_port: 2 };
    assert_eq!(forward_dest(&f("10.0.0.5")).unwrap(), ip("10.0.0.5"));
    assert_eq!(
        forward_dest(&f("name")).unwrap_err(),
        "forward dest must be an IP address: name"
    );
}

#[test]
fn backends_are_selected_by_mode() {
    assert_eq!(select(AccessMode::Userspace, None, false), Ok(AccessMode::Userspace));
    assert_eq!(select(AccessMode::Kernel, Some(1), true), Ok(AccessMode::Kernel));
    assert_eq!(
        select(AccessMode::Userspace, Some(1080), true).unwrap_err(),
        "OLM_SOCKS_PORT is reserved and not yet implemented; use OLM_FORWARDS"
    );
    assert_eq!(
        select(AccessMode::Kernel, None, false).unwrap_err(),
        "kernel TUN access mode is only supported on Linux; set OLM_ACCESS_MODE=userspace"
    );
    assert_eq!(host_prefix(ip("1.1.1.1")), 32);
    assert_eq!(host_prefix(ip("::1")), 128);
}

#[test]
fn messages_call_for_steps() {
    let to = SocketAddr::new(ip("1.1.1.1"), 1);
    let sites = || Payload::Sites(vec![site(1, &key(), &[])], vec![Some(to)]);
    assert!(matches!(client_step(Kind::Connect, sites()), ClientStep::Connect(s, _) if s.len() == 1));
    assert!(matches!(
        client_step(Kind::Upsert, sites()),
        ClientStep::Change(Command::Sites(s, _)) if s[0].site_id == 1
    ));
    assert!(matches!(
        client_step(Kind::Sync, sites()),
        ClientStep::Change(Command::Sync(_, e)) if e == vec![Some(to)]
    ));
    assert!(matches!(
        client_step(Kind::Remove, Payload::Site(4)),
        ClientStep::Change(Command::Remove(4))
    ));
    for kind in [Kind::Relay, Kind::Unrelay] {
        assert!(matches!(
            client_step(kind, Payload::Endpoint(5, Some(to))),
            ClientStep::Change(Command::Endpoint(5, Some(a))) if a == to
        ));
    }
    let subnets = || Payload::Subnets(6, vec!["10.0.0.0/8".to_string()]);
    assert!(matches!(
        client_step(Kind::DataAdd, subnets()),
        ClientStep::Change(Command::AddSubnets(6, _))
    ));
    assert!(matches!(
        client_step(Kind::DataRemove, subnets()),
        ClientStep::Change(Command::RemoveSubnets(6, _))
    ));
    assert!(matches!(client_step(Kind::Terminate, Payload::Unread), ClientStep::End));
    assert!(matches!(client_step(Kind::Terminate, sites()), ClientStep::End));
    for kind in [Kind::Error, Kind::Other, Kind::Remove, Kind::DataAdd] {
        assert!(matches!(client_step(kind, sites()), ClientStep::Nothing));
    }
    assert!(matches!(client_step(Kind::Sync, Payload::Unread), ClientStep::Nothing));
}

#[test]
fn a_sync_drops_what_it_does_not_name() {
    let ep = |n: u8| Some(SocketAddr::new(IpAddr::V4([n, n, n, n]), n as u16));
    let sites = vec![site(1, &key(), &["10.1.0.0/16"]), site(2, &key(), &["10.2.0.0/16"])];
    let (mut router, _) =
        build_router(StaticSecret::random(), 1280, &sites, &vec![ep(1), ep(2)]);
    let named = vec![site(2, &key(), &["10.3.0.0/16"]), site(3, &key(), &["10.4.0.0/16"])];
    let joined = apply(&mut router, Command::Sync(named, vec![ep(4), ep(3)]));
    assert_eq!(joined.inits.len(), 2);
    assert_eq!(joined.ranges.len(), 2);
    assert_eq!(router.peer_count(), 2);
    assert_eq!(router.route_target(ip("10.1.0.1")), None);
    assert_eq!(router.route_target(ip("10.2.0.1")), None);
    assert_eq!(router.route_target(ip("10.3.0.1")), ep(4));
    assert_eq!(router.route_target(ip("10.4.0.1")), ep(3));
    router.retain_sites(&vec![3, 9]);
    assert_eq!(router.peer_count(), 1);
    assert_eq!(router.route_target(ip("10.4.0.1")), ep(3));
}
