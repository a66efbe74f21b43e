//! The state machine of the site role's control channel: events in, actions out.
use crate::json::{
    bool_value, empty_object, int_value, json_content, json_contents, json_read, list_value,
    read_or_null, set_member, text_value, JsonView,
};
use crate::proto::{
    topic, ExitNode, ExitNodeData, ExitNodeView, MessageView, PingResult, PingResultView, WgData,
    WsMessage,
};
use vstd::prelude::*;
use vstd::string::*;

verus! {

#[derive(Debug, Clone, Copy, PartialEq, Eq, Structural)]
pub enum State {
    Disconnected,
    RequestingExitNodes,
    Registering,
    Connected,
    Stopped,
}

#[derive(Debug)]
pub enum Event {
    WsConnected,
    ExitNodes(ExitNodeData),
    WgConnect(WgData),
    Reconnect,
    Terminate,
    /// Periodic tick; carries elapsed milliseconds since the last tick.
    Tick(u64),
}

#[derive(Debug)]
pub enum Action {
    /// Send this control message now.
    Send(WsMessage),
    /// Bring up the WireGuard tunnel + proxy with this config.
    BringUp(WgData),
    /// Tear down the tunnel + proxy.
    Teardown,
    /// Stop the client entirely.
    Stop,
}

/// The state machine of a connection.
pub struct Sm {
    pub state: State,
    pub memory: Memory,
}

/// What a machine was made with, and when it sends its pending request again.
pub struct Memory {
    public_key_b64: String,
    newt_version: String,
    no_cloud: bool,
    pending_chain_id: String,
    resend_due_ms: u64,
}

pub const PING_RESEND_MS: u64 = 3000;

pub const REGISTER_RESEND_MS: u64 = 2000;

// ---------------------------------------------------------------------------
// Specifications
// ---------------------------------------------------------------------------
/// The content of an [`Sm`].
pub struct SmView {
    pub state: State,
    pub public_key: Seq<char>,
    pub version: Seq<char>,
    pub no_cloud: bool,
    pub chain_id: Seq<char>,
    /// Milliseconds until the pending request is sent again; zero when none is pending.
    pub resend_due: u64,
}

/// The content of an [`Event`].
pub enum EventView {
    WsConnected,
    /// The exit nodes, and the chain id that they came with.
    ExitNodes(Seq<ExitNodeView>, Seq<char>),
    WgConnect(WgData),
    Reconnect,
    Terminate,
    Tick(u64),
}

/// The content of an [`Action`].
pub enum ActionView {
    Send(MessageView),
    BringUp(WgData),
    Teardown,
    Stop,
}

/// The content of a [`Memory`].
pub struct MemoryView {
    pub public_key: Seq<char>,
    pub version: Seq<char>,
    pub no_cloud: bool,
    pub chain_id: Seq<char>,
    pub resend_due: u64,
}

impl View for Memory {
    type V = MemoryView;

    closed spec fn view(&self) -> MemoryView {
        MemoryView {
            public_key: self.public_key_b64@,
            version: self.newt_version@,
            no_cloud: self.no_cloud,
            chain_id: self.pending_chain_id@,
            resend_due: self.resend_due_ms,
        }
    }
}

impl View for Sm {
    type V = SmView;

    open spec fn view(&self) -> SmView {
        SmView {
            state: self.state,
            public_key: self.memory@.public_key,
            version: self.memory@.version,
            no_cloud: self.memory@.no_cloud,
            chain_id: self.memory@.chain_id,
            resend_due: self.memory@.resend_due,
        }
    }
}

impl View for Event {
    type V = EventView;

    open spec fn view(&self) -> EventView {
        match self {
            Event::WsConnected => EventView::WsConnected,
            Event::ExitNodes(d) => EventView::ExitNodes(
                d.exit_nodes@.map_values(|n: ExitNode| n@),
                d.chain_id@,
            ),
            Event::WgConnect(wg) => EventView::WgConnect(*wg),
            Event::Reconnect => EventView::Reconnect,
            Event::Terminate => EventView::Terminate,
            Event::Tick(ms) => EventView::Tick(*ms),
        }
    }
}

impl View for Action {
    type V = ActionView;

    open spec fn view(&self) -> ActionView {
        match self {
            Action::Send(m) => ActionView::Send(m@),
            Action::BringUp(wg) => ActionView::BringUp(*wg),
            Action::Teardown => ActionView::Teardown,
            Action::Stop => ActionView::Stop,
        }
    }
}

/// The contents of some actions.
pub open spec fn actions_view(acts: Seq<Action>) -> Seq<ActionView> {
    acts.map_values(|a: Action| a@)
}

/// The request for exit nodes.
pub open spec fn ping_request(s: SmView) -> MessageView {
    MessageView {
        typ: topic::PING_REQUEST@,
        data: JsonView::Object(
            map![
                "noCloud"@ => JsonView::Bool(s.no_cloud),
                "chainId"@ => JsonView::Text(s.chain_id),
            ],
        ),
        config_version: None,
    }
}

/// The JSON of a ping result.
pub open spec fn ping_result_json(r: PingResultView) -> JsonView {
    JsonView::Object(
        map![
            "exitNodeId"@ => JsonView::Int(r.exit_node_id as int),
            "latencyMs"@ => r.latency_ms,
            "weight"@ => r.weight,
            "error"@ => JsonView::Text(r.error),
            "name"@ => JsonView::Text(r.name),
            "endpoint"@ => JsonView::Text(r.endpoint),
            "wasPreviouslyConnected"@ => JsonView::Bool(r.was_previously_connected),
        ],
    )
}

/// The result that stands for a node that was not pinged: no latency, no error.
pub open spec fn unpinged(n: ExitNodeView) -> PingResultView {
    PingResultView {
        exit_node_id: n.id,
        latency_ms: json_read("0.0"@),
        weight: n.weight,
        error: Seq::empty(),
        name: n.name,
        endpoint: n.endpoint,
        was_previously_connected: n.was_previously_connected,
    }
}

/// The registration of the public key with some ping results.
pub open spec fn registration(s: SmView, results: Seq<PingResultView>) -> MessageView {
    MessageView {
        typ: topic::WG_REGISTER@,
        data: JsonView::Object(
            map![
                "publicKey"@ => JsonView::Text(s.public_key),
                "pingResults"@ => JsonView::List(results.map_values(|r: PingResultView| ping_result_json(r))),
                "newtVersion"@ => JsonView::Text(s.version),
                "chainId"@ => JsonView::Text(s.chain_id),
            ],
        ),
        config_version: None,
    }
}

/// The machine in another state, with its timer set.
pub open spec fn entered(s: SmView, state: State, resend_due: u64) -> SmView {
    SmView { state, resend_due, ..s }
}

/// Tearing the tunnel down, where one is up.
pub open spec fn teardown_if_up(s: SmView) -> Seq<ActionView> {
    if s.state == State::Connected {
        seq![ActionView::Teardown]
    } else {
        seq![]
    }
}

/// What a tick of `elapsed` milliseconds does.
pub open spec fn ticked(s: SmView, elapsed: u64) -> (SmView, Seq<ActionView>) {
    if s.resend_due == 0 {
        (s, seq![])
    } else if elapsed < s.resend_due {
        (entered(s, s.state, (s.resend_due - elapsed) as u64), seq![])
    } else {
        match s.state {
            State::RequestingExitNodes => (
                entered(s, s.state, PING_RESEND_MS),
                seq![ActionView::Send(ping_request(s))],
            ),
            State::Registering => (
                entered(s, s.state, REGISTER_RESEND_MS),
                seq![ActionView::Send(registration(s, seq![]))],
            ),
            _ => (s, seq![]),
        }
    }
}

/// What an event does: the machine after it, and the actions to take in order.
pub open spec fn stepped(s: SmView, ev: EventView) -> (SmView, Seq<ActionView>) {
    match ev {
        EventView::WsConnected => (
            entered(s, State::RequestingExitNodes, PING_RESEND_MS),
            seq![ActionView::Send(ping_request(s))],
        ),
        EventView::ExitNodes(nodes, _) => if s.state == State::RequestingExitNodes && nodes.len() > 0 {
            (
                entered(s, State::Registering, REGISTER_RESEND_MS),
                seq![ActionView::Send(registration(s, seq![unpinged(nodes[0])]))],
            )
        } else {
            (s, seq![])
        },
        EventView::WgConnect(wg) => (
            entered(s, State::Connected, 0),
            teardown_if_up(s).push(ActionView::BringUp(wg)),
        ),
        EventView::Reconnect => (
            entered(s, State::RequestingExitNodes, PING_RESEND_MS),
            teardown_if_up(s).push(ActionView::Send(ping_request(s))),
        ),
        EventView::Terminate => (
            entered(s, State::Stopped, s.resend_due),
            seq![ActionView::Teardown, ActionView::Stop],
        ),
        EventView::Tick(elapsed) => ticked(s, elapsed),
    }
}

// ---------------------------------------------------------------------------
// Executable functions
// ---------------------------------------------------------------------------
fn ping_request_msg(sm: &Sm) -> (r: WsMessage)
    ensures
        r@ == ping_request(sm@),
{
    let mut data = empty_object();
    set_member(&mut data, "noCloud", bool_value(sm.memory.no_cloud));
    set_member(&mut data, "chainId", text_value(sm.memory.pending_chain_id.as_str()));
    assert(json_content(data)->Object_0 =~= ping_request(sm@).data->Object_0);
    WsMessage { typ: topic::PING_REQUEST.to_owned(), data, config_version: None }
}

fn ping_result_value(r: &PingResult) -> (v: serde_json::Value)
    ensures
        json_content(v) == ping_result_json(r@),
{
    let mut v = empty_object();
    set_member(&mut v, "exitNodeId", int_value(r.exit_node_id));
    set_member(&mut v, "latencyMs", r.latency_ms.clone());
    set_member(&mut v, "weight", r.weight.clone());
    set_member(&mut v, "error", text_value(r.error.as_str()));
    set_member(&mut v, "name", text_value(r.name.as_str()));
    set_member(&mut v, "endpoint", text_value(r.endpoint.as_str()));
    set_member(&mut v, "wasPreviouslyConnected", bool_value(r.was_previously_connected));
    assert(json_content(v)->Object_0 =~= ping_result_json(r@)->Object_0);
    v
}

fn register_msg(sm: &Sm, results: &[PingResult]) -> (r: WsMessage)
    ensures
        r@ == registration(sm@, results@.map_values(|x: PingResult| x@)),
{
    let mut list: Vec<serde_json::Value> = Vec::new();
    let ghost views = results@.map_values(|x: PingResult| x@);
    for i in 0..results.len()
        invariant
            list@.len() == i,
            views == results@.map_values(|x: PingResult| x@),
            forall|j: int| 0 <= j < i ==> json_content(#[trigger] list@[j]) == ping_result_json(views[j]),
    {
        list.push(ping_result_value(&results[i]));
    }
    assert(json_contents(list@) =~= views.map_values(|x: PingResultView| ping_result_json(x)));
    let mut data = empty_object();
    set_member(&mut data, "publicKey", text_value(sm.memory.public_key_b64.as_str()));
    set_member(&mut data, "pingResults", list_value(list));
    set_member(&mut data, "newtVersion", text_value(sm.memory.newt_version.as_str()));
    set_member(&mut data, "chainId", text_value(sm.memory.pending_chain_id.as_str()));
    assert(json_content(data)->Object_0 =~= registration(sm@, views).data->Object_0);
    WsMessage { typ: topic::WG_REGISTER.to_owned(), data, config_version: None }
}

fn unpinged_result(node: &ExitNode) -> (r: PingResult)
    ensures
        r@ == unpinged(node@),
{
    proof {
        reveal_strlit("");
    }
    let r = PingResult {
        exit_node_id: node.id,
        latency_ms: read_or_null("0.0"),
        weight: node.weight.clone(),
        error: "".to_owned(),
        name: node.name.as_str().to_owned(),
        endpoint: node.endpoint.as_str().to_owned(),
        was_previously_connected: node.was_previously_connected,
    };
    assert(r@.error =~= Seq::empty());
    r
}

impl Sm {
    pub fn new(public_key_b64: String, newt_version: String, no_cloud: bool) -> (r: Self)
        ensures
            r.state == State::Disconnected,
            r@ == (SmView {
                state: State::Disconnected,
                public_key: public_key_b64@,
                version: newt_version@,
                no_cloud,
                chain_id: Seq::empty(),
                resend_due: 0,
            }),
    {
        proof {
            reveal_strlit("");
        }
        let memory = Memory {
            public_key_b64,
            newt_version,
            no_cloud,
            pending_chain_id: "".to_owned(),
            resend_due_ms: 0,
        };
        let r = Sm { state: State::Disconnected, memory };
        assert(r@.chain_id =~= Seq::empty());
        r
    }

    /// Takes an event in; returns the actions to take, in order.
    pub fn step(&mut self, ev: Event) -> (r: Vec<Action>)
        ensures
            final(self)@ == stepped(old(self)@, ev@).0,
            final(self).state == stepped(old(self)@, ev@).0.state,
            actions_view(r@) == stepped(old(self)@, ev@).1,
    {
        let mut out: Vec<Action> = Vec::new();
        let ghost result = stepped(self@, ev@).1;
        match ev {
            Event::WsConnected => {
                self.state = State::RequestingExitNodes;
                self.memory.resend_due_ms = PING_RESEND_MS;
                out.push(Action::Send(ping_request_msg(self)));
            },
            Event::ExitNodes(data) => {
                if self.state == State::RequestingExitNodes && data.exit_nodes.len() > 0 {
                    let results: [PingResult; 1] = [unpinged_result(&data.exit_nodes[0])];
                    assert(results@.map_values(|x: PingResult| x@) =~= seq![results@[0]@]);
                    self.state = State::Registering;
                    self.memory.resend_due_ms = REGISTER_RESEND_MS;
                    out.push(Action::Send(register_msg(self, results.as_slice())));
                }
            },
            Event::WgConnect(wg) => {
                if self.state == State::Connected {
                    out.push(Action::Teardown);
                }
                self.state = State::Connected;
                self.memory.resend_due_ms = 0;
                out.push(Action::BringUp(wg));
            },
            Event::Reconnect => {
                if self.state == State::Connected {
                    out.push(Action::Teardown);
                }
                self.state = State::RequestingExitNodes;
                self.memory.resend_due_ms = PING_RESEND_MS;
                out.push(Action::Send(ping_request_msg(self)));
            },
            Event::Terminate => {
                out.push(Action::Teardown);
                out.push(Action::Stop);
                self.state = State::Stopped;
            },
            Event::Tick(elapsed) => {
                if self.memory.resend_due_ms != 0 {
                    if elapsed >= self.memory.resend_due_ms {
                        match self.state {
                            State::RequestingExitNodes => {
                                self.memory.resend_due_ms = PING_RESEND_MS;
                                out.push(Action::Send(ping_request_msg(self)));
                            },
                            State::Registering => {
                                self.memory.resend_due_ms = REGISTER_RESEND_MS;
                                let none: [PingResult; 0] = [];
                                assert(none@.map_values(|x: PingResult| x@) =~= seq![]);
                                out.push(Action::Send(register_msg(self, none.as_slice())));
                            },
                            _ => {},
                        }
                    } else {
                        self.memory.resend_due_ms = self.memory.resend_due_ms - elapsed;
                    }
                }
            },
        }
        assert(actions_view(out@) =~= result);
        out
    }
}

// ---------------------------------------------------------------------------
// Laws
// ---------------------------------------------------------------------------
/// The timer fits the state: a request that is pending has a time at which it is
/// sent again, within the interval of its kind, and a tunnel that is up or a machine
/// that has not started has none.
pub open spec fn well_timed(s: SmView) -> bool {
    match s.state {
        State::Disconnected => s.resend_due == 0,
        State::RequestingExitNodes => 0 < s.resend_due <= PING_RESEND_MS,
        State::Registering => 0 < s.resend_due <= REGISTER_RESEND_MS,
        State::Connected => s.resend_due == 0,
        State::Stopped => true,
    }
}

/// The machine after some events.
pub open spec fn after(s: SmView, evs: Seq<EventView>) -> SmView
    decreases evs.len(),
{
    if evs.len() == 0 {
        s
    } else {
        stepped(after(s, evs.drop_last()), evs.last()).0
    }
}

/// Every machine that started as new ones do has a timer that fits its state,
/// whatever events have come.
pub proof fn law_timer_fits_state(s: SmView, evs: Seq<EventView>)
    requires
        s.state == State::Disconnected,
        s.resend_due == 0,
    ensures
        well_timed(after(s, evs)),
    decreases evs.len(),
{
    if evs.len() > 0 {
        law_timer_fits_state(s, evs.drop_last());
    }
}

/// The sum of some tick lengths.
pub open spec fn total(ticks: Seq<u64>) -> nat
    decreases ticks.len(),
{
    if ticks.len() == 0 {
        0
    } else {
        ticks[0] as nat + total(ticks.skip(1))
    }
}

/// The actions of some ticks one after another.
pub open spec fn tick_actions(s: SmView, ticks: Seq<u64>) -> Seq<ActionView>
    decreases ticks.len(),
{
    if ticks.len() == 0 {
        seq![]
    } else {
        let first = ticked(s, ticks[0]);
        first.1 + tick_actions(first.0, ticks.skip(1))
    }
}

/// The message that a pending request is sent again as.
pub open spec fn resent(s: SmView) -> ActionView {
    if s.state == State::RequestingExitNodes {
        ActionView::Send(ping_request(s))
    } else {
        ActionView::Send(registration(s, seq![]))
    }
}

/// A pending request is sent again as soon as the ticks add up to the time that was
/// left, however they divide it, and nothing is sent before.
pub proof fn law_pending_request_is_resent(s: SmView, ticks: Seq<u64>)
    requires
        s.state == State::RequestingExitNodes || s.state == State::Registering,
        s.resend_due > 0,
    ensures
        total(ticks) < s.resend_due ==> tick_actions(s, ticks) == Seq::<ActionView>::empty(),
        total(ticks) >= s.resend_due ==> tick_actions(s, ticks).len() > 0 && tick_actions(s, ticks)[0]
            == resent(s),
    decreases ticks.len(),
{
    if ticks.len() > 0 {
        let first = ticked(s, ticks[0]);
        if ticks[0] < s.resend_due {
            law_pending_request_is_resent(first.0, ticks.skip(1));
            assert(first.1 + tick_actions(first.0, ticks.skip(1)) =~= tick_actions(
                first.0,
                ticks.skip(1),
            ));
            assert(ping_request(first.0) == ping_request(s));
            assert(registration(first.0, seq![]) == registration(s, seq![]));
        } else {
            assert(first.1.len() == 1);
        }
    }
}

/// While the tunnel is up, ticks call for nothing and change nothing.
pub proof fn law_connected_is_quiet(s: SmView, elapsed: u64)
    requires
        s.state == State::Connected,
        well_timed(s),
    ensures
        ticked(s, elapsed) == (s, Seq::<ActionView>::empty()),
{
}

/// Whether a tunnel is up after some actions.
pub open spec fn tunnel_up(up: bool, acts: Seq<ActionView>) -> bool
    decreases acts.len(),
{
    if acts.len() == 0 {
        up
    } else {
        match acts.last() {
            ActionView::BringUp(_) => true,
            ActionView::Teardown => false,
            ActionView::Stop => false,
            ActionView::Send(_) => tunnel_up(up, acts.drop_last()),
        }
    }
}

/// A tunnel is up after the actions of an event exactly when the machine is
/// connected, and one is never brought up over another. The control channel does not
/// connect anew under a tunnel: a new channel starts with a new machine.
pub proof fn law_tunnel_follows_state(s: SmView, ev: EventView)
    requires
        ev is WsConnected ==> s.state != State::Connected,
    ensures
        tunnel_up(s.state == State::Connected, stepped(s, ev).1) == (stepped(s, ev).0.state
            == State::Connected),
        forall|i: int|
            0 <= i < stepped(s, ev).1.len() && (#[trigger] stepped(s, ev).1[i]) is BringUp
                ==> !tunnel_up(s.state == State::Connected, stepped(s, ev).1.take(i)),
{
    let up = s.state == State::Connected;
    let acts = stepped(s, ev).1;
    reveal_with_fuel(tunnel_up, 3);
    assert forall|i: int| 0 <= i < acts.len() && (#[trigger] acts[i]) is BringUp implies !tunnel_up(
        up,
        acts.take(i),
    ) by {
        assert(acts.len() <= 2);
        if i == 0 {
            assert(acts.take(0) =~= seq![]);
        } else {
            assert(acts.take(1) =~= seq![acts[0]]);
        }
    }
    assert(acts.len() == 1 ==> acts.drop_last() =~= seq![]);
    assert(acts.len() == 2 ==> acts.drop_last() =~= seq![acts[0]]);
}

/// The identity of the machine never changes: what it was made with stays.
pub proof fn law_identity_is_kept(s: SmView, ev: EventView)
    ensures
        stepped(s, ev).0.public_key == s.public_key,
        stepped(s, ev).0.version == s.version,
        stepped(s, ev).0.no_cloud == s.no_cloud,
        stepped(s, ev).0.chain_id == s.chain_id,
{
}

/// `v` is an object with these members and no others.
pub open spec fn holds_members(v: JsonView, names: Set<Seq<char>>) -> bool {
    v is Object && v->Object_0.dom() == names
}

/// A machine asks for exit nodes under "newt/ping/request", with its cloud setting and its
/// chain id.
pub proof fn law_ping_request_says_what_is_wanted(s: SmView)
    ensures
        ({
            let m = ping_request(s);
            &&& m.typ == "newt/ping/request"@
            &&& m.config_version is None
            &&& holds_members(m.data, set!["noCloud"@, "chainId"@])
            &&& m.data->Object_0["noCloud"@] == JsonView::Bool(s.no_cloud)
            &&& m.data->Object_0["chainId"@] == JsonView::Text(s.chain_id)
        }),
{
    reveal_strlit("noCloud");
    reveal_strlit("chainId");
    assert("noCloud"@[0] != "chainId"@[0]);
    assert(ping_request(s).data->Object_0.dom() =~= set!["noCloud"@, "chainId"@]);
}

/// A machine registers under "newt/wg/register", with its key, its version, its chain id
/// and one entry for each ping result, in their order.
pub proof fn law_registration_says_who_registers(s: SmView, results: Seq<PingResultView>)
    ensures
        ({
            let m = registration(s, results);
            let list = m.data->Object_0["pingResults"@];
            &&& m.typ == "newt/wg/register"@
            &&& m.config_version is None
            &&& holds_members(
                m.data,
                set!["publicKey"@, "pingResults"@, "newtVersion"@, "chainId"@],
            )
            &&& m.data->Object_0["publicKey"@] == JsonView::Text(s.public_key)
            &&& m.data->Object_0["newtVersion"@] == JsonView::Text(s.version)
            &&& m.data->Object_0["chainId"@] == JsonView::Text(s.chain_id)
            &&& list is List && list->List_0.len() == results.len()
            &&& forall|i: int|
                0 <= i < results.len() ==> #[trigger] list->List_0[i] == ping_result_json(
                    results[i],
                )
        }),
{
    reveal_strlit("publicKey");
    reveal_strlit("pingResults");
    reveal_strlit("newtVersion");
    reveal_strlit("chainId");
    assert("publicKey"@[1] != "pingResults"@[1]);
    assert("publicKey"@[0] != "newtVersion"@[0]);
    assert("publicKey"@[0] != "chainId"@[0]);
    assert("pingResults"@[0] != "newtVersion"@[0]);
    assert("pingResults"@[0] != "chainId"@[0]);
    assert("newtVersion"@[0] != "chainId"@[0]);
    assert(registration(s, results).data->Object_0.dom() =~= set![
        "publicKey"@,
        "pingResults"@,
        "newtVersion"@,
        "chainId"@,
    ]);
}

/// The entry of a ping result holds each of its fields under a name of its own; that of a
/// node that was not pinged names the node and tells no latency and no error.
pub proof fn law_ping_result_names_its_fields(r: PingResultView, n: ExitNodeView)
    ensures
        ({
            let m = ping_result_json(r)->Object_0;
            &&& holds_members(
                ping_result_json(r),
                set![
                    "exitNodeId"@,
                    "latencyMs"@,
                    "weight"@,
                    "error"@,
                    "name"@,
                    "endpoint"@,
                    "wasPreviouslyConnected"@,
                ],
            )
            &&& m["exitNodeId"@] == JsonView::Int(r.exit_node_id as int)
            &&& m["latencyMs"@] == r.latency_ms
            &&& m["weight"@] == r.weight
            &&& m["error"@] == JsonView::Text(r.error)
            &&& m["name"@] == JsonView::Text(r.name)
            &&& m["endpoint"@] == JsonView::Text(r.endpoint)
            &&& m["wasPreviouslyConnected"@] == JsonView::Bool(r.was_previously_connected)
        }),
        unpinged(n).exit_node_id == n.id,
        unpinged(n).latency_ms == json_read("0.0"@),
        unpinged(n).weight == n.weight,
        unpinged(n).error.len() == 0,
        unpinged(n).name == n.name,
        unpinged(n).endpoint == n.endpoint,
        unpinged(n).was_previously_connected == n.was_previously_connected,
{
    reveal_strlit("exitNodeId");
    reveal_strlit("latencyMs");
    reveal_strlit("weight");
    reveal_strlit("error");
    reveal_strlit("name");
    reveal_strlit("endpoint");
    reveal_strlit("wasPreviouslyConnected");
    assert("exitNodeId"@.len() == 10 && "latencyMs"@.len() == 9 && "weight"@.len() == 6
        && "error"@.len() == 5 && "name"@.len() == 4 && "endpoint"@.len() == 8
        && "wasPreviouslyConnected"@.len() == 22);
    assert(ping_result_json(r)->Object_0.dom() =~= set![
        "exitNodeId"@,
        "latencyMs"@,
        "weight"@,
        "error"@,
        "name"@,
        "endpoint"@,
        "wasPreviouslyConnected"@,
    ]);
}

/// A machine that connects or is told to reconnect asks for exit nodes, in any state, and
/// asks again after three seconds.
pub proof fn law_connecting_asks_for_exit_nodes(s: SmView, ev: EventView)
    requires
        ev is WsConnected || ev is Reconnect,
    ensures
        ({
            let (then, acts) = stepped(s, ev);
            &&& then.state == State::RequestingExitNodes
            &&& then.resend_due == 3000
            &&& acts.len() > 0 && acts.last() == ActionView::Send(ping_request(s))
            &&& acts.len() == if ev is Reconnect && s.state == State::Connected {
                2int
            } else {
                1int
            }
            &&& acts.len() == 2 ==> acts[0] is Teardown
            &&& ticked(then, 2999) == (SmView { resend_due: 1, ..then }, Seq::<ActionView>::empty())
            &&& ticked(then, 3000) == (then, seq![ActionView::Send(ping_request(s))])
        }),
{
    let then = stepped(s, ev).0;
    assert(ping_request(then) == ping_request(s));
}

/// The first exit node is registered with when nodes were asked for, and again every two
/// seconds, then with no ping result; otherwise exit nodes change nothing.
pub proof fn law_first_exit_node_is_registered_with(
    s: SmView,
    nodes: Seq<ExitNodeView>,
    id: Seq<char>,
)
    ensures
        ({
            let (then, acts) = stepped(s, EventView::ExitNodes(nodes, id));
            &&& s.state == State::RequestingExitNodes && nodes.len() > 0 ==> {
                &&& then == SmView { state: State::Registering, resend_due: 2000, ..s }
                &&& acts == seq![ActionView::Send(registration(s, seq![unpinged(nodes[0])]))]
                &&& ticked(then, 1999).1.len() == 0
                &&& ticked(then, 2000) == (then, seq![ActionView::Send(registration(s, seq![]))])
            }
            &&& s.state != State::RequestingExitNodes || nodes.len() == 0 ==> then == s
                && acts.len() == 0
        }),
{
    let then = stepped(s, EventView::ExitNodes(nodes, id)).0;
    assert(registration(then, seq![]) == registration(s, seq![]));
}

/// A tunnel is brought up with what was sent for it, in any state, and nothing is asked
/// for after that; a machine that is told to end takes its tunnel down, then stops.
pub proof fn law_tunnel_is_brought_up_as_told(s: SmView, wg: WgData)
    ensures
        ({
            let (then, acts) = stepped(s, EventView::WgConnect(wg));
            &&& then == SmView { state: State::Connected, resend_due: 0, ..s }
            &&& acts.last() == ActionView::BringUp(wg)
            &&& s.state == State::Connected ==> acts.len() == 2 && acts[0] is Teardown
            &&& s.state != State::Connected ==> acts.len() == 1
        }),
        stepped(s, EventView::Terminate).0 == (SmView { state: State::Stopped, ..s }),
        stepped(s, EventView::Terminate).1 == seq![ActionView::Teardown, ActionView::Stop],
{
}

/// Time that passes in two parts counts as one, where the request is not sent between.
pub proof fn law_time_adds_up(s: SmView, a: u64, b: u64)
    requires
        a + b <= u64::MAX,
        a < s.resend_due,
        s.state == State::RequestingExitNodes || s.state == State::Registering,
    ensures
        ticked(ticked(s, a).0, b).0 == ticked(s, (a + b) as u64).0,
        ticked(ticked(s, a).0, b).1 == ticked(s, (a + b) as u64).1,
{
    let mid = ticked(s, a).0;
    assert(ping_request(mid) == ping_request(s));
    assert(registration(mid, seq![]) == registration(s, seq![]));
}

} // verus!
