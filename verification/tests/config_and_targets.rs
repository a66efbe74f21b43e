use newt::config::{AccessMode, Config};
use newt::target::Target;

#[test]
fn parses_ipv4() {
    let t = Target::parse("3001:192.168.1.1:80").unwrap();
    assert_eq!(
        t,
        Target { listen_port: 3001, host: "192.168.1.1".to_string(), target_port: 80 }
    );
}

#[test]
fn parses_bracketed_ipv6() {
    let t = Target::parse("3001:[::1]:8080").unwrap();
    assert_eq!(t.host, "::1");
    assert_eq!(t.listen_port, 3001);
    assert_eq!(t.target_port, 8080);
}

#[test]
fn rejects_missing_parts() {
    assert!(Target::parse("3001:host").is_none());
    assert!(Target::parse("notaport:host:80").is_none());
}

#[test]
fn targets_read_back_their_parts() {
    for host in ["h", "", "a:b", "x]y", "2001:db8::1"] {
        let t = Target::parse(&format!("1:{host}:65535")).unwrap();
        assert_eq!((t.listen_port, t.host.as_str(), t.target_port), (1, host, 65535));
    }
    for host in ["h", "", "a:b", "[x"] {
        let t = Target::parse(&format!("65535:[{host}]:0")).unwrap();
        assert_eq!((t.listen_port, t.host.as_str(), t.target_port), (65535, host, 0));
    }
    assert!(Target::parse("1:[h:2").is_none());
    assert!(Target::parse("1:[h]2").is_none());
    assert!(Target::parse("1:h:65536").is_none());
    assert!(Target::parse("").is_none());
    assert_eq!(Target::parse("+1:h:+2").unwrap().target_port, 2);
}

#[test]
fn cli_overrides_env_and_builds_site() {
    let env = |k: &str| match k {
        "PANGOLIN_ENDPOINT" => Some("https://env".into()),
        "NEWT_ID" => Some("envid".into()),
        "NEWT_SECRET" => Some("envsecret".into()),
        _ => None,
    };
    let args = vec!["--endpoint".into(), "https://cli".into()];
    let c = Config::from_sources(&env, &args, true).unwrap();
    let site = c.site.expect("site role");
    assert_eq!(site.endpoint, "https://cli");
    assert_eq!(site.id, "envid");
    assert!(c.client.is_none());
}

#[test]
fn no_role_errors() {
    let env = |k: &str| match k {
        "PANGOLIN_ENDPOINT" => Some("https://x".into()),
        _ => None,
    };
    assert!(Config::from_sources(&env, &[], true).is_err());
}

#[test]
fn missing_endpoint_errors() {
    let env = |_: &str| None;
    assert!(Config::from_sources(&env, &[], true).is_err());
}

#[test]
fn both_roles_active() {
    let env = |k: &str| match k {
        "PANGOLIN_ENDPOINT" => Some("https://x".into()),
        "NEWT_ID" => Some("n".into()),
        "NEWT_SECRET" => Some("ns".into()),
        "OLM_ID" => Some("o".into()),
        "OLM_SECRET" => Some("os".into()),
        _ => None,
    };
    let c = Config::from_sources(&env, &[], true).unwrap();
    assert!(c.site.is_some());
    let client = c.client.expect("client role");
    assert_eq!(client.id, "o");
}

#[test]
fn parses_forwards_and_access() {
    let env = |k: &str| match k {
        "PANGOLIN_ENDPOINT" => Some("https://x".into()),
        "OLM_ID" => Some("o".into()),
        "OLM_SECRET" => Some("os".into()),
        "OLM_ACCESS_MODE" => Some("userspace".into()),
        "OLM_FORWARDS" => Some("8080:10.0.0.5:80, 9090:10.0.0.6:443".into()),
        _ => None,
    };
    let c = Config::from_sources(&env, &[], true).unwrap();
    let client = c.client.unwrap();
    assert_eq!(client.access, AccessMode::Userspace);
    assert_eq!(client.forwards.len(), 2);
    assert_eq!(client.forwards[0].listen_port, 8080);
    assert_eq!(client.forwards[1].dest_host, "10.0.0.6");
    assert_eq!(client.forwards[1].dest_port, 443);
}

fn site_env(k: &str) -> Option<String> {
    match k {
        "PANGOLIN_ENDPOINT" => Some("https://x".into()),
        "NEWT_ID" => Some("n".into()),
        "NEWT_SECRET" => Some("s".into()),
        _ => None,
    }
}

fn client_env(k: &str) -> Option<String> {
    match k {
        "PANGOLIN_ENDPOINT" => Some("https://x".into()),
        "OLM_ID" => Some("o".into()),
        "OLM_SECRET" => Some("s".into()),
        _ => None,
    }
}

fn args(list: &[&str]) -> Vec<String> {
    list.iter().map(|s| s.to_string()).collect()
}

#[test]
fn defaults_follow_the_documentation() {
    let c = Config::from_sources(&site_env, &[], true).unwrap();
    assert_eq!(c.log_level, "INFO");
    let site = c.site.unwrap();
    assert_eq!(site.mtu, 1280);
    assert!(!site.skip_tls_verify);
    assert_eq!(site.dns, "9.9.9.9");
    assert_eq!(site.ping_interval, 15);
    assert_eq!(site.udp_idle_timeout, 90);
    let linux = Config::from_sources(&client_env, &[], true).unwrap().client.unwrap();
    assert_eq!(linux.access, AccessMode::Kernel);
    assert_eq!(linux.interface, "olm");
    assert!(linux.forwards.is_empty());
    let other = Config::from_sources(&client_env, &[], false).unwrap().client.unwrap();
    assert_eq!(other.access, AccessMode::Userspace);
}

#[test]
fn the_last_flag_decides() {
    let list = args(&["--mtu", "1400", "--mtu", "1300"]);
    assert_eq!(Config::from_sources(&site_env, &list, true).unwrap().site.unwrap().mtu, 1300);
}

#[test]
fn bad_values_are_refused() {
    for list in [
        &["--mtu", "x"][..],
        &["--mtu"][..],
        &["--olm-access", "magic"][..],
        &["--olm-forwards", "80"][..],
        &["--olm-forwards", "a:h:1"][..],
        &["--olm-forwards", "1:h:b"][..],
        &["--no-such-flag"][..],
    ] {
        assert!(Config::from_sources(&site_env, &args(list), true).is_err(), "{list:?}");
    }
    let env = |k: &str| match k {
        "PING_INTERVAL" => Some("soon".to_string()),
        _ => site_env(k),
    };
    assert!(Config::from_sources(&env, &[], true).is_err());
}

#[test]
fn durations_are_read_back() {
    let with = |v: &str| {
        let v = v.to_string();
        Config::from_sources(
            &move |k: &str| match k {
                "NEWT_UDP_PROXY_IDLE_TIMEOUT" | "PING_INTERVAL" => Some(v.clone()),
                _ => site_env(k),
            },
            &[],
            true,
        )
    };
    for n in [0u64, 7, 90, 3600, u64::MAX] {
        for text in [format!("{n}"), format!("{n}s"), format!("{n}sss"), format!("+{n}s")] {
            let site = with(&text).unwrap().site.unwrap();
            assert_eq!((site.udp_idle_timeout, site.ping_interval), (n, n));
        }
    }
    for text in ["", "s", "1m", "-1s", "+", "1 s", "18446744073709551616"] {
        assert_eq!(with(text).unwrap_err(), "bad duration");
    }
}
