use newt::log::{enabled, set_level, INFO};
use newt::net::{IpAddr, SocketAddr};

#[test]
fn ipv4_addresses_are_read_strictly() {
    assert_eq!(IpAddr::parse("0.10.200.255"), Some(IpAddr::V4([0, 10, 200, 255])));
    for bad in ["1.2.3", "1.2.3.4.5", "1.2.3.256", "1.2.3.04", "1.2.3.", " 1.2.3.4", "1.2.3.+4", "1.2.3.1000", ""] {
        assert_eq!(IpAddr::parse(bad), None, "{bad}");
    }
}

#[test]
fn ipv6_addresses_are_read() {
    let cases: [(&str, [u16; 8]); 15] = [
        ("::", [0x0, 0x0, 0x0, 0x0, 0x0, 0x0, 0x0, 0x0]),
        ("::1", [0x0, 0x0, 0x0, 0x0, 0x0, 0x0, 0x0, 0x1]),
        ("1::", [0x1, 0x0, 0x0, 0x0, 0x0, 0x0, 0x0, 0x0]),
        ("1:2:3:4:5:6:7:8", [0x1, 0x2, 0x3, 0x4, 0x5, 0x6, 0x7, 0x8]),
        ("1:2:3:4:5:6:7::", [0x1, 0x2, 0x3, 0x4, 0x5, 0x6, 0x7, 0x0]),
        ("::2:3:4:5:6:7:8", [0x0, 0x2, 0x3, 0x4, 0x5, 0x6, 0x7, 0x8]),
        ("1:2::7:8", [0x1, 0x2, 0x0, 0x0, 0x0, 0x0, 0x7, 0x8]),
        ("fd00:ABCD::ef", [0xfd00, 0xabcd, 0x0, 0x0, 0x0, 0x0, 0x0, 0xef]),
        ("0001:0:0:0:0:0:0:000f", [0x1, 0x0, 0x0, 0x0, 0x0, 0x0, 0x0, 0xf]),
        ("::1.2.3.4", [0x0, 0x0, 0x0, 0x0, 0x0, 0x0, 0x102, 0x304]),
        ("1:2:3:4:5:6:1.2.3.4", [0x1, 0x2, 0x3, 0x4, 0x5, 0x6, 0x102, 0x304]),
        ("64:ff9b::192.0.2.33", [0x64, 0xff9b, 0x0, 0x0, 0x0, 0x0, 0xc000, 0x221]),
        ("1::2:3.4.5.6", [0x1, 0x0, 0x0, 0x0, 0x0, 0x2, 0x304, 0x506]),
        ("::ffff:1.2.3.4", [0x0, 0x0, 0x0, 0x0, 0x0, 0xffff, 0x102, 0x304]),
        ("1::1:2:3:4:1.2.3.4", [0x1, 0x0, 0x1, 0x2, 0x3, 0x4, 0x102, 0x304]),
    ];
    for (s, groups) in cases {
        let mut octets = [0u8; 16];
        for (i, g) in groups.iter().enumerate() {
            octets[2 * i..2 * i + 2].copy_from_slice(&g.to_be_bytes());
        }
        assert_eq!(IpAddr::parse(s), Some(IpAddr::V6(octets)), "{s}");
    }
}

#[test]
fn bad_ipv6_addresses_are_refused() {
    for s in [
        "12345::",
        "1:2:3",
        "1:2:3:4:5:6:7:8:9",
        ":::",
        "1::2::3",
        "1:",
        ":1",
        "1:2:3:4:5:6:7:8::",
        "::1:2:3:4:5:6:7:8",
        "1.2.3.4::",
        "::1.2.3.4:5",
        "1:2:3:4:5:6:7:1.2.3.4",
        "::1.2.3",
        "::g",
        "::1%0",
        "1:2:3:4:5:6:7:",
        "::01.2.3.4",
        "[::1]",
        "1::1:2:3:4:5:6:1.2.3.4",
    ] {
        assert_eq!(IpAddr::parse(s), None, "{s}");
    }
}

#[test]
fn addresses_compare_by_content() {
    let a = IpAddr::parse("1.2.3.4").unwrap();
    let b = IpAddr::parse("::1.2.3.4").unwrap();
    assert!(a.same_as(&a));
    assert!(!a.same_as(&b));
    assert!(a.is_ipv4() && !b.is_ipv4());
    assert_eq!(a.octets(), vec![1, 2, 3, 4]);
    assert_eq!(b.octets().len(), 16);
    let s = SocketAddr::new(a, 5);
    assert_eq!((s.ip, s.port, s.flowinfo, s.scope_id), (a, 5, 0, 0));
}

#[test]
fn levels_are_named_in_any_case() {
    let mut level = INFO;
    for (name, want) in [("debug", 1), ("Info", 2), ("WARN", 3), ("eRRor", 4), ("loud", 2)] {
        set_level(&mut level, name);
        assert_eq!(level, want, "{name}");
    }
    set_level(&mut level, "warn");
    assert!(!enabled(level, 2));
    assert!(enabled(level, 3));
    assert!(enabled(level, 4));
}
