//! Messages of the site role's control channel.
pub mod topic;

use crate::json::{json_content, json_text, text_value, to_text, JsonView};
use crate::text::{decimal, decimal_text, join2};
use vstd::prelude::*;
use vstd::string::*;

verus! {

/// Control-channel envelope.
#[derive(Debug, Clone)]
pub struct WsMessage {
    pub typ: String,
    pub data: serde_json::Value,
    pub config_version: Option<i64>,
}

/// The content of a [`WsMessage`].
pub struct MessageView {
    pub typ: Seq<char>,
    pub data: JsonView,
    pub config_version: Option<i64>,
}

impl View for WsMessage {
    type V = MessageView;

    open spec fn view(&self) -> MessageView {
        MessageView {
            typ: self.typ@,
            data: json_content(self.data),
            config_version: self.config_version,
        }
    }
}

/// An exit node that the server offers.
#[derive(Debug, Clone)]
pub struct ExitNode {
    pub id: i64,
    pub name: String,
    pub endpoint: String,
    /// The weight, as the number that the server sent.
    pub weight: serde_json::Value,
    pub was_previously_connected: bool,
}

/// The content of an [`ExitNode`].
pub struct ExitNodeView {
    pub id: i64,
    pub name: Seq<char>,
    pub endpoint: Seq<char>,
    pub weight: JsonView,
    pub was_previously_connected: bool,
}

impl View for ExitNode {
    type V = ExitNodeView;

    open spec fn view(&self) -> ExitNodeView {
        ExitNodeView {
            id: self.id,
            name: self.name@,
            endpoint: self.endpoint@,
            weight: json_content(self.weight),
            was_previously_connected: self.was_previously_connected,
        }
    }
}

/// The exit nodes that the server offers.
#[derive(Debug, Clone)]
pub struct ExitNodeData {
    pub exit_nodes: Vec<ExitNode>,
    pub chain_id: String,
}

/// How a ping of an exit node went. The latency and the weight are JSON numbers.
#[derive(Debug, Clone)]
pub struct PingResult {
    pub exit_node_id: i64,
    pub latency_ms: serde_json::Value,
    pub weight: serde_json::Value,
    pub error: String,
    pub name: String,
    pub endpoint: String,
    pub was_previously_connected: bool,
}

/// The content of a [`PingResult`].
pub struct PingResultView {
    pub exit_node_id: i64,
    pub latency_ms: JsonView,
    pub weight: JsonView,
    pub error: Seq<char>,
    pub name: Seq<char>,
    pub endpoint: Seq<char>,
    pub was_previously_connected: bool,
}

impl View for PingResult {
    type V = PingResultView;

    open spec fn view(&self) -> PingResultView {
        PingResultView {
            exit_node_id: self.exit_node_id,
            latency_ms: json_content(self.latency_ms),
            weight: json_content(self.weight),
            error: self.error@,
            name: self.name@,
            endpoint: self.endpoint@,
            was_previously_connected: self.was_previously_connected,
        }
    }
}

/// The targets to proxy, each in the form "listenPort:host:targetPort".
#[derive(Debug, Clone)]
pub struct TargetsByType {
    pub tcp: Vec<String>,
    pub udp: Vec<String>,
}

impl Default for TargetsByType {
    fn default() -> (r: TargetsByType)
        ensures
            r.tcp@.len() == 0,
            r.udp@.len() == 0,
    {
        TargetsByType { tcp: Vec::new(), udp: Vec::new() }
    }
}

/// What the server says of the tunnel to bring up.
#[derive(Debug, Clone)]
pub struct WgData {
    pub endpoint: String,
    pub public_key: String,
    pub server_ip: String,
    pub tunnel_ip: String,
    pub relay_port: u16,
    pub targets: TargetsByType,
    pub chain_id: String,
}

/// The decimal text of a signed number.
pub open spec fn signed_decimal(n: int) -> Seq<char> {
    if n < 0 {
        "-"@ + decimal((-n) as nat)
    } else {
        decimal(n as nat)
    }
}

/// The JSON text of an envelope: type, data and, where there is one, the
/// configuration version.
pub open spec fn envelope_text(m: MessageView) -> Seq<char> {
    "{\"type\":"@ + json_text(JsonView::Text(m.typ)) + ",\"data\":"@ + json_text(m.data) + (
    match m.config_version {
        Some(n) => ",\"configVersion\":"@ + signed_decimal(n as int),
        None => Seq::empty(),
    }) + "}"@
}

fn signed_text(n: i64) -> (r: String)
    ensures
        r@ == signed_decimal(n as int),
{
    if n == i64::MIN {
        let digits = decimal_text(0x8000_0000_0000_0000);
        join2("-", digits.as_str())
    } else if n < 0 {
        let m: i64 = -n;
        let digits = decimal_text(m as u64);
        join2("-", digits.as_str())
    } else {
        decimal_text(n as u64)
    }
}

impl WsMessage {
    /// The text of the message on the wire.
    pub fn envelope(&self) -> (r: String)
        ensures
            r@ == envelope_text(self@),
    {
        let mut r = "{\"type\":".to_owned();
        let typ = text_value(self.typ.as_str());
        r.append(to_text(&typ).as_str());
        r.append(",\"data\":");
        r.append(to_text(&self.data).as_str());
        match self.config_version {
            Some(n) => {
                r.append(",\"configVersion\":");
                r.append(signed_text(n).as_str());
            },
            None => {},
        }
        r.append("}");
        assert(r@ =~= envelope_text(self@));
        r
    }
}

// ---------------------------------------------------------------------------
// Laws
// ---------------------------------------------------------------------------
/// A message is a JSON object with its type, its data and, where it has one, its
/// configuration version, a signed decimal number.
pub proof fn law_envelope_is_an_object(m: MessageView, n: nat)
    ensures
        m.config_version is None ==> envelope_text(m) == "{"@ + "\"type\":"@ + json_text(
            JsonView::Text(m.typ),
        ) + ","@ + "\"data\":"@ + json_text(m.data) + "}"@,
        m.config_version matches Some(v) ==> envelope_text(m) == "{"@ + "\"type\":"@ + json_text(
            JsonView::Text(m.typ),
        ) + ","@ + "\"data\":"@ + json_text(m.data) + ","@ + "\"configVersion\":"@
            + signed_decimal(v as int) + "}"@,
        signed_decimal(n as int) == decimal(n),
        n > 0 ==> signed_decimal(-n) == seq!['-'] + decimal(n),
{
    reveal_strlit("{");
    reveal_strlit("}");
    reveal_strlit(",");
    reveal_strlit("-");
    reveal_strlit("\"type\":");
    reveal_strlit("\"data\":");
    reveal_strlit("\"configVersion\":");
    reveal_strlit("{\"type\":");
    reveal_strlit(",\"data\":");
    reveal_strlit(",\"configVersion\":");
    assert("{\"type\":"@ =~= "{"@ + "\"type\":"@);
    assert(",\"data\":"@ =~= ","@ + "\"data\":"@);
    assert(",\"configVersion\":"@ =~= ","@ + "\"configVersion\":"@);
    assert("-"@ =~= seq!['-']);
    let front = "{"@ + "\"type\":"@ + json_text(JsonView::Text(m.typ)) + ","@ + "\"data\":"@
        + json_text(m.data);
    match m.config_version {
        Some(v) => {
            assert(envelope_text(m) =~= front + ","@ + "\"configVersion\":"@ + signed_decimal(
                v as int,
            ) + "}"@);
        },
        None => {
            assert(envelope_text(m) =~= front + "}"@);
        },
    }
}

} // verus!
