use newt::proto::{topic, ExitNode, ExitNodeData, TargetsByType, WgData, WsMessage};
use newt::sm::{Action, Event, Sm, State, PING_RESEND_MS, REGISTER_RESEND_MS};
use newt::tunnel::to_event;
use serde_json::Value;

fn sm() -> Sm {
    Sm::new("PUBKEY".into(), "rust-0.1.0".into(), false)
}

fn text(v: &Value) -> String {
    v.as_str().unwrap_or_default().to_string()
}

fn exit_node_data(raw: &str) -> ExitNodeData {
    let v: Value = serde_json::from_str(raw).unwrap();
    let exit_nodes = v["exitNodes"]
        .as_array()
        .unwrap()
        .iter()
        .map(|n| ExitNode {
            id: n["exitNodeId"].as_i64().unwrap(),
            name: text(&n["exitNodeName"]),
            endpoint: text(&n["endpoint"]),
            weight: Value::from(n["weight"].as_f64().unwrap_or(0.0)),
            was_previously_connected: n["wasPreviouslyConnected"].as_bool().unwrap_or(false),
        })
        .collect();
    ExitNodeData { exit_nodes, chain_id: text(&v["chainId"]) }
}

fn texts(v: &Value) -> Vec<String> {
    match v.as_array() {
        Some(a) => a.iter().map(text).collect(),
        None => Vec::new(),
    }
}

fn wg_data(raw: &str) -> WgData {
    let v: Value = serde_json::from_str(raw).unwrap();
    WgData {
        endpoint: text(&v["endpoint"]),
        public_key: text(&v["publicKey"]),
        server_ip: text(&v["serverIP"]),
        tunnel_ip: text(&v["tunnelIP"]),
        relay_port: v["relayPort"].as_u64().unwrap_or(0) as u16,
        targets: TargetsByType {
            tcp: texts(&v["targets"]["tcp"]),
            udp: texts(&v["targets"]["udp"]),
        },
        chain_id: text(&v["chainId"]),
    }
}

fn some_wg() -> WgData {
    wg_data(
        r#"{"endpoint":"1.2.3.4:51820","publicKey":"k","serverIP":"10.0.0.1","tunnelIP":"10.0.0.2"}"#,
    )
}

fn sent(acts: &[Action]) -> Vec<&WsMessage> {
    acts.iter()
        .filter_map(|a| match a {
            Action::Send(m) => Some(m),
            _ => None,
        })
        .collect()
}

#[test]
fn parses_wg_connect_payload() {
    let raw = r#"{
            "endpoint":"1.2.3.4:51820","publicKey":"abc=","serverIP":"10.0.0.1",
            "tunnelIP":"10.0.0.2","relayPort":21820,
            "targets":{"tcp":["3001:127.0.0.1:80"],"udp":[]},"chainId":"x"
        }"#;
    let wg = wg_data(raw);
    assert_eq!(wg.tunnel_ip, "10.0.0.2");
    assert_eq!(wg.relay_port, 21820);
    assert_eq!(wg.targets.tcp, vec!["3001:127.0.0.1:80"]);
}

#[test]
fn roundtrips_envelope() {
    let mut data = Value::from(serde_json::Map::new());
    data["noCloud"] = Value::from(false);
    data["chainId"] = Value::from("c1");
    let m = WsMessage { typ: topic::PING_REQUEST.into(), data, config_version: None };
    let s = m.envelope();
    assert!(s.contains("\"type\":\"newt/ping/request\""));
    assert!(!s.contains("configVersion"));
    assert_eq!(s, r#"{"type":"newt/ping/request","data":{"chainId":"c1","noCloud":false}}"#);
}

#[test]
fn envelope_carries_version_and_escapes() {
    let m = WsMessage { typ: "a\"b".into(), data: Value::from(7), config_version: Some(-12) };
    let s = m.envelope();
    assert_eq!(s, r#"{"type":"a\"b","data":7,"configVersion":-12}"#);
    let v: Value = serde_json::from_str(&s).unwrap();
    assert_eq!(v["type"], "a\"b");
    let m = WsMessage { typ: "t".into(), data: Value::Null, config_version: Some(i64::MIN) };
    assert_eq!(m.envelope(), r#"{"type":"t","data":null,"configVersion":-9223372036854775808}"#);
}

#[test]
fn requests_exit_nodes_on_connect() {
    let mut sm = sm();
    let acts = sm.step(Event::WsConnected);
    assert_eq!(sm.state, State::RequestingExitNodes);
    match &acts[0] {
        Action::Send(m) => assert_eq!(m.typ, topic::PING_REQUEST),
        _ => panic!("expected Send ping/request"),
    }
}

#[test]
fn registers_with_first_exit_node() {
    let mut sm = sm();
    sm.step(Event::WsConnected);
    let data = exit_node_data(
        r#"{"exitNodes":[{"exitNodeId":7,"endpoint":"e:1","weight":1.0}],"chainId":""}"#,
    );
    let acts = sm.step(Event::ExitNodes(data));
    assert_eq!(sm.state, State::Registering);
    match &acts[0] {
        Action::Send(m) => {
            assert_eq!(m.typ, topic::WG_REGISTER);
            assert!(m.data["pingResults"][0]["exitNodeId"] == 7);
        }
        _ => panic!("expected Send wg/register"),
    }
}

#[test]
fn brings_up_on_wg_connect() {
    let mut sm = sm();
    sm.step(Event::WsConnected);
    let data =
        exit_node_data(r#"{"exitNodes":[{"exitNodeId":7,"endpoint":"e:1"}],"chainId":""}"#);
    sm.step(Event::ExitNodes(data));
    let wg = wg_data(
        r#"{"endpoint":"1.2.3.4:51820","publicKey":"k","serverIP":"10.0.0.1","tunnelIP":"10.0.0.2"}"#,
    );
    let acts = sm.step(Event::WgConnect(wg));
    assert_eq!(sm.state, State::Connected);
    assert!(acts.iter().any(|a| matches!(a, Action::BringUp(_))));
}

#[test]
fn reconnect_tears_down_and_rerequests() {
    let mut sm = sm();
    sm.state = State::Connected;
    let acts = sm.step(Event::Reconnect);
    assert!(matches!(acts[0], Action::Teardown));
    assert_eq!(sm.state, State::RequestingExitNodes);
}

#[test]
fn tick_resends_pending_request() {
    let mut sm = sm();
    sm.step(Event::WsConnected); // schedules a resend at +3000ms
    let acts = sm.step(Event::Tick(PING_RESEND_MS));
    assert!(matches!(acts.first(), Some(Action::Send(_))));
}

#[test]
fn requests_carry_the_identity() {
    let mut sm = Sm::new("KEY".into(), "v9".into(), true);
    let acts = sm.step(Event::WsConnected);
    let m = sent(&acts)[0];
    assert_eq!(m.data.to_string(), r#"{"chainId":"","noCloud":true}"#);
    assert_eq!(m.config_version, None);
    let data = exit_node_data(
        r#"{"exitNodes":[{"exitNodeId":-3,"exitNodeName":"n","endpoint":"e","weight":2.5,
            "wasPreviouslyConnected":true},{"exitNodeId":9}],"chainId":"c"}"#,
    );
    let acts = sm.step(Event::ExitNodes(data));
    assert_eq!(acts.len(), 1);
    assert_eq!(
        sent(&acts)[0].data.to_string(),
        concat_text(&[
            r#"{"chainId":"","newtVersion":"v9","pingResults":[{"endpoint":"e","error":"","#,
            r#""exitNodeId":-3,"latencyMs":0.0,"name":"n","wasPreviouslyConnected":true,"#,
            r#""weight":2.5}],"publicKey":"KEY"}"#,
        ])
    );
}

fn concat_text(parts: &[&str]) -> String {
    parts.concat()
}

#[test]
fn exit_nodes_need_a_request_and_a_node() {
    let mut sm = sm();
    let one = r#"{"exitNodes":[{"exitNodeId":1}],"chainId":""}"#;
    assert!(sm.step(Event::ExitNodes(exit_node_data(one))).is_empty());
    assert_eq!(sm.state, State::Disconnected);
    sm.step(Event::WsConnected);
    let none = r#"{"exitNodes":[],"chainId":""}"#;
    assert!(sm.step(Event::ExitNodes(exit_node_data(none))).is_empty());
    assert_eq!(sm.state, State::RequestingExitNodes);
}

#[test]
fn ticks_add_up_before_a_resend() {
    let mut sm = sm();
    sm.step(Event::WsConnected);
    assert!(sm.step(Event::Tick(1000)).is_empty());
    assert!(sm.step(Event::Tick(1999)).is_empty());
    assert_eq!(sent(&sm.step(Event::Tick(1)))[0].typ, topic::PING_REQUEST);
    // The interval starts over.
    assert!(sm.step(Event::Tick(PING_RESEND_MS - 1)).is_empty());
    assert_eq!(sm.step(Event::Tick(u64::MAX)).len(), 1);
}

#[test]
fn registration_is_resent_without_results() {
    let mut sm = sm();
    sm.step(Event::WsConnected);
    let one = r#"{"exitNodes":[{"exitNodeId":1}],"chainId":""}"#;
    sm.step(Event::ExitNodes(exit_node_data(one)));
    assert!(sm.step(Event::Tick(REGISTER_RESEND_MS - 1)).is_empty());
    let acts = sm.step(Event::Tick(1));
    assert_eq!(sent(&acts)[0].typ, topic::WG_REGISTER);
    assert_eq!(sent(&acts)[0].data["pingResults"].as_array().unwrap().len(), 0);
}

#[test]
fn connected_is_quiet_and_replaces_its_tunnel() {
    let mut sm = sm();
    let acts = sm.step(Event::WgConnect(some_wg()));
    assert!(matches!(acts[..], [Action::BringUp(_)]));
    assert!(sm.step(Event::Tick(1_000_000)).is_empty());
    let acts = sm.step(Event::WgConnect(some_wg()));
    assert!(matches!(acts[..], [Action::Teardown, Action::BringUp(_)]));
    match &acts[1] {
        Action::BringUp(wg) => assert_eq!(wg.tunnel_ip, "10.0.0.2"),
        _ => unreachable!(),
    }
}

#[test]
fn terminate_stops() {
    let mut sm = sm();
    sm.step(Event::WsConnected);
    let acts = sm.step(Event::Terminate);
    assert!(matches!(acts[..], [Action::Teardown, Action::Stop]));
    assert_eq!(sm.state, State::Stopped);
    assert!(sm.step(Event::Tick(PING_RESEND_MS)).is_empty());
}

#[test]
fn reconnect_without_a_tunnel_only_requests() {
    let mut sm = sm();
    let acts = sm.step(Event::Reconnect);
    assert_eq!(acts.len(), 1);
    assert_eq!(sent(&acts)[0].typ, topic::PING_REQUEST);
}

#[test]
fn topics_give_events() {
    let nodes = || Some(exit_node_data(r#"{"exitNodes":[],"chainId":""}"#));
    assert!(matches!(
        to_event(topic::PING_EXIT_NODES, nodes(), None),
        Some(Event::ExitNodes(_))
    ));
    assert!(to_event(topic::PING_EXIT_NODES, None, Some(some_wg())).is_none());
    assert!(matches!(
        to_event(topic::WG_CONNECT, None, Some(some_wg())),
        Some(Event::WgConnect(_))
    ));
    assert!(to_event(topic::WG_CONNECT, nodes(), None).is_none());
    assert!(matches!(to_event(topic::WG_RECONNECT, None, None), Some(Event::Reconnect)));
    assert!(matches!(to_event(topic::WG_TERMINATE, None, None), Some(Event::Terminate)));
    assert!(to_event(topic::TCP_ADD, nodes(), Some(some_wg())).is_none());
    assert!(to_event("newt/wg/connect ", nodes(), Some(some_wg())).is_none());
}
