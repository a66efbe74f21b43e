//! A client session: what each event on its sockets calls for.
use crate::net::{datagram_views, SocketAddr};
use crate::olm::control::{
    apply, build_router, commanded, empty_router, greets, joins, named, register_msg, registration,
    site_views, with_all, with_sites, Command, JoinView, Joined,
};
use crate::olm::holepunch::{are_punches, ExitNode, HolePunch, HolePunchView};
use crate::olm::proto::SiteConfig;
use crate::olm::router::{
    cidr_views, collected, handled, lemma_routed_takes, opt_datagram, out_views, routed, ticked,
    Cidr, CidrView, Out, OutView, Router, RouterView,
};
use crate::proto::{MessageView, WsMessage};
use crate::wg::{sealable, OutcomeView, StaticSecret};
use vstd::prelude::*;

verus! {

/// Who a client is: what its registrations say.
pub struct Identity {
    pub public_b64: String,
    pub version: String,
    pub org_id: String,
    pub user_token: String,
}

/// A session of a client: its identity, the hole punching, and the router once the
/// server has sent the peers.
pub struct ClientSession {
    secret: StaticSecret,
    mtu: usize,
    identity: Identity,
    punch: HolePunch,
    router: Option<Router>,
}

/// What is to be done, in order.
pub enum ClientAction {
    /// Send this control message.
    Register(WsMessage),
    /// Send this datagram.
    Send(Vec<u8>, SocketAddr),
    /// Deliver this packet to the host.
    Deliver(Vec<u8>),
    /// Program routes for these ranges. Where that fails, the session ends if the flag
    /// is set, and goes on otherwise.
    Route(Vec<Cidr>, bool),
}

// ---------------------------------------------------------------------------
// Specifications
// ---------------------------------------------------------------------------
/// The content of a [`ClientSession`].
pub struct SessionView {
    pub secret: Seq<u8>,
    pub mtu: usize,
    pub registration: MessageView,
    pub punch: HolePunchView,
    pub router: Option<RouterView>,
}

/// The content of a [`ClientAction`].
pub enum ActionView {
    Register(MessageView),
    Send(Seq<u8>, SocketAddr),
    Deliver(Seq<u8>),
    Route(Seq<CidrView>, bool),
}

impl Identity {
    /// The registration of this client.
    pub open spec fn message(self) -> MessageView {
        registration(self.public_b64@, self.version@, self.org_id@, self.user_token@)
    }
}

impl View for ClientSession {
    type V = SessionView;

    closed spec fn view(&self) -> SessionView {
        SessionView {
            secret: self.secret.bytes@,
            mtu: self.mtu,
            registration: self.identity.message(),
            punch: self.punch@,
            router: match self.router {
                Some(r) => Some(r@),
                None => None,
            },
        }
    }
}

impl View for ClientAction {
    type V = ActionView;

    open spec fn view(&self) -> ActionView {
        match self {
            ClientAction::Register(m) => ActionView::Register(m@),
            ClientAction::Send(b, to) => ActionView::Send(b@, *to),
            ClientAction::Deliver(p) => ActionView::Deliver(p@),
            ClientAction::Route(c, must) => ActionView::Route(cidr_views(c@), *must),
        }
    }
}

/// The contents of some actions.
pub open spec fn action_views(a: Seq<ClientAction>) -> Seq<ActionView> {
    a.map_values(|x: ClientAction| x@)
}

impl SessionView {
    /// A packet can be routed: it is no longer than a peer takes, or no peer owns its
    /// destination.
    pub open spec fn takes(self, pkt: Seq<u8>) -> bool {
        self.router matches Some(r) ==> r.takes(pkt)
    }

    /// The router is well formed and of the session's MTU.
    pub open spec fn wf(self) -> bool {
        &&& sealable(self.mtu as int)
        &&& self.router matches Some(r) ==> r.wf() && r.mtu == self.mtu
    }

    /// `self` with another router.
    pub open spec fn with(self, router: RouterView) -> SessionView {
        SessionView { router: Some(router), ..self }
    }
}

/// Sending some datagrams.
pub open spec fn sends(d: Seq<(Seq<u8>, SocketAddr)>) -> Seq<ActionView> {
    d.map_values(|x: (Seq<u8>, SocketAddr)| ActionView::Send(x.0, x.1))
}

/// The action for a result of the router.
pub open spec fn action_for(o: OutView) -> ActionView {
    match o {
        OutView::ToHost(p) => ActionView::Deliver(p),
        OutView::ToNet(b, to) => ActionView::Send(b, to),
    }
}

/// The actions that a change to the peers calls for: the routes, then the initiations
/// of the peers that are greeted. `must` says whether the session needs the routes.
pub open spec fn joined_actions(acts: Seq<ActionView>, j: JoinView, must: bool) -> bool {
    exists|inits: Seq<(Seq<u8>, SocketAddr)>|
        #[trigger] greets(inits, j.greeted) && acts == seq![ActionView::Route(j.ranges, must)]
            + sends(inits)
}

/// A session takes up a change to the peers, and calls for what the change does.
pub open spec fn takes_up(
    s: SessionView,
    j: JoinView,
    must: bool,
    acts: Seq<ActionView>,
    after: SessionView,
) -> bool {
    after == s.with(j.router) && joined_actions(acts, j, must)
}

/// What a tick calls for: registering anew while the server has sent no peers, the hole
/// punches, and the datagrams of the peers' timers.
pub open spec fn tick_actions(s: SessionView, acts: Seq<ActionView>, after: SessionView) -> bool {
    match s.router {
        None => {
            &&& after == s
            &&& exists|p: Seq<(Seq<u8>, SocketAddr)>|
                #[trigger] are_punches(s.punch, p) && acts == seq![
                    ActionView::Register(s.registration),
                ] + sends(p)
        },
        Some(r) => exists|
            p: Seq<(Seq<u8>, SocketAddr)>,
            os: Seq<OutcomeView>,
            r2: RouterView,
        |
            #[trigger] are_punches(s.punch, p) && #[trigger] ticked(r, os, r2) && after == s.with(r2)
                && acts == sends(p) + sends(collected(r.peers, os)),
    }
}

/// The datagrams among some optional ones, in order.
pub open spec fn present(d: Seq<Option<(Seq<u8>, SocketAddr)>>) -> Seq<(Seq<u8>, SocketAddr)>
    decreases d.len(),
{
    if d.len() == 0 {
        seq![]
    } else {
        match d.last() {
            Some(x) => present(d.drop_last()).push(x),
            None => present(d.drop_last()),
        }
    }
}

/// The router takes some packets one after another: `states` are its states before each
/// and after the last, `outs` what each gives.
pub open spec fn routed_all(
    states: Seq<RouterView>,
    packets: Seq<Seq<u8>>,
    outs: Seq<Option<(Seq<u8>, SocketAddr)>>,
) -> bool {
    &&& states.len() == packets.len() + 1
    &&& outs.len() == packets.len()
    &&& forall|i: int|
        #![trigger outs[i]]
        0 <= i < packets.len() ==> routed(states[i], packets[i], outs[i], states[i + 1])
}

/// The contents of some packets.
pub open spec fn packet_views(p: Seq<Vec<u8>>) -> Seq<Seq<u8>> {
    p.map_values(|x: Vec<u8>| x@)
}

// ---------------------------------------------------------------------------
// Executable functions
// ---------------------------------------------------------------------------
fn push_sends(acts: &mut Vec<ClientAction>, datagrams: Vec<(Vec<u8>, SocketAddr)>)
    ensures
        action_views(final(acts)@) == action_views(old(acts)@) + sends(datagram_views(datagrams@)),
{
    let ghost views = datagram_views(datagrams@);
    let ghost all = datagrams@;
    let n: usize = datagrams.len();
    let mut datagrams = datagrams;
    assert(action_views(acts@) + sends(views.take(0)) =~= action_views(acts@));
    for i in 0..n
        invariant
            n == all.len(),
            views == datagram_views(all),
            datagrams@ == all.skip(i as int),
            action_views(acts@) == action_views(old(acts)@) + sends(views.take(i as int)),
    {
        let (b, to) = datagrams.remove(0);
        let ghost before = acts@;
        let ghost one = ActionView::Send(b@, to);
        assert((b@, to) == views[i as int]);
        acts.push(ClientAction::Send(b, to));
        assert(action_views(acts@) =~= action_views(before).push(one));
        assert(sends(views.take(i + 1)) =~= sends(views.take(i as int)).push(one));
        assert(action_views(acts@) =~= action_views(old(acts)@) + sends(views.take(i + 1)));
    }
    assert(views.take(n as int) =~= views);
}

fn actions_of(j: Joined, must: bool) -> (r: Vec<ClientAction>)
    ensures
        action_views(r@) == seq![ActionView::Route(cidr_views(j.ranges@), must)] + sends(
            datagram_views(j.inits@),
        ),
{
    let mut r: Vec<ClientAction> = Vec::new();
    let ghost route = ActionView::Route(cidr_views(j.ranges@), must);
    r.push(ClientAction::Route(j.ranges, must));
    assert(action_views(r@) =~= seq![route]);
    push_sends(&mut r, j.inits);
    r
}

impl ClientSession {
    /// A session before its first message.
    pub fn new(
        secret: StaticSecret,
        mtu: usize,
        identity: Identity,
        olm_id: String,
        token: String,
        nodes: Vec<ExitNode>,
    ) -> (r: Self)
        requires
            sealable(mtu as int),
        ensures
            r@.wf(),
            r@ == (SessionView {
                secret: secret.bytes@,
                mtu,
                registration: identity.message(),
                punch: HolePunchView {
                    olm_id: olm_id@,
                    token: token@,
                    olm_pub: identity.public_b64@,
                    nodes: crate::olm::holepunch::node_views(nodes@),
                },
                router: None,
            }),
    {
        let mut punch = HolePunch::new(olm_id, identity.public_b64.clone(), token);
        punch.set_nodes(nodes);
        ClientSession { secret, mtu, identity, punch, router: None }
    }

    /// The message that registers this client, which the session starts with.
    pub fn registration(&self) -> (r: WsMessage)
        ensures
            r@ == self@.registration,
    {
        register_msg(
            self.identity.public_b64.as_str(),
            self.identity.version.as_str(),
            self.identity.org_id.as_str(),
            self.identity.user_token.as_str(),
        )
    }

    /// Whether the server has sent the peers.
    pub fn is_connected(&self) -> (r: bool)
        ensures
            r == (self@.router is Some),
    {
        self.router.is_some()
    }

    /// The number of peers.
    pub fn peer_count(&self) -> (r: usize)
        ensures
            r == match self@.router {
                Some(router) => router.peers.len(),
                None => 0,
            },
    {
        match &self.router {
            Some(router) => router.peer_count(),
            None => 0,
        }
    }

    /// The server has sent the full initial peer set; a router for it takes the place
    /// of the one before.
    pub fn connect(&mut self, sites: &Vec<SiteConfig>, endpoints: &Vec<Option<SocketAddr>>) -> (r: Vec<
        ClientAction,
    >)
        requires
            old(self)@.wf(),
            sites@.len() == endpoints@.len(),
        ensures
            final(self)@.wf(),
            exists|states: Seq<boringtun::noise::Tunn>|
                takes_up(
                    old(self)@,
                    #[trigger] with_all(
                        empty_router(old(self)@.secret, old(self)@.mtu),
                        site_views(sites@),
                        endpoints@,
                        states,
                    ),
                    true,
                    action_views(r@),
                    final(self)@,
                ),
    {
        let (router, joined) = build_router(self.secret, self.mtu, sites, endpoints);
        let ghost empty = empty_router(self@.secret, self@.mtu);
        let ghost views = site_views(sites@);
        let ghost states = choose|states: Seq<boringtun::noise::Tunn>|
            joins(#[trigger] with_all(empty, views, endpoints@, states), router@, joined);
        let ghost j = with_all(empty, views, endpoints@, states);
        proof {
            lemma_sites_keep_mtu(empty, views, endpoints@, states);
        }
        self.router = Some(router);
        let ghost inits = datagram_views(joined.inits@);
        assert(greets(inits, j.greeted));
        let r = actions_of(joined, true);
        assert(takes_up(old(self)@, j, true, action_views(r@), self@));
        r
    }

    /// The server has sent the current peer set: peers that it does not name go, the
    /// others are added or updated. Nothing happens before the server has sent the
    /// initial peer set.
    pub fn sync(&mut self, sites: Vec<SiteConfig>, endpoints: Vec<Option<SocketAddr>>) -> (r: Vec<
        ClientAction,
    >)
        requires
            old(self)@.wf(),
            sites@.len() == endpoints@.len(),
        ensures
            final(self)@.wf(),
            match old(self)@.router {
                Some(router) => exists|states: Seq<boringtun::noise::Tunn>|
                    takes_up(
                        old(self)@,
                        #[trigger] with_all(
                            router.with_only(named(site_views(sites@))),
                            site_views(sites@),
                            endpoints@,
                            states,
                        ),
                        false,
                        action_views(r@),
                        final(self)@,
                    ),
                None => r@.len() == 0 && final(self)@ == old(self)@,
            },
    {
        let ghost c = Command::Sync(sites, endpoints);
        let r = self.command(Command::Sync(sites, endpoints));
        proof {
            if old(self)@.router is Some {
                let router = old(self)@.router->0;
                let states = choose|states: Seq<boringtun::noise::Tunn>|
                    takes_up(
                        old(self)@,
                        #[trigger] commanded(router, c, states),
                        false,
                        action_views(r@),
                        self@,
                    );
                assert(commanded(router, c, states) == with_all(
                    router.with_only(named(site_views(sites@))),
                    site_views(sites@),
                    endpoints@,
                    states,
                ));
            }
        }
        r
    }

    /// A change to the peers; nothing happens before the server has sent them. Only
    /// subnets that are added need their routes.
    pub fn command(&mut self, c: Command) -> (r: Vec<ClientAction>)
        requires
            old(self)@.wf(),
            c.wf(),
        ensures
            final(self)@.wf(),
            match old(self)@.router {
                Some(router) => exists|states: Seq<boringtun::noise::Tunn>|
                    takes_up(
                        old(self)@,
                        #[trigger] commanded(router, c, states),
                        c is AddSubnets,
                        action_views(r@),
                        final(self)@,
                    ),
                None => r@.len() == 0 && final(self)@ == old(self)@,
            },
    {
        match self.router.take() {
            Some(mut router) => {
                let ghost before = router@;
                let ghost asked = c;
                let must = match &c {
                    Command::AddSubnets(_, _) => true,
                    _ => false,
                };
                let joined = apply(&mut router, c);
                let ghost states = choose|states: Seq<boringtun::noise::Tunn>|
                    joins(#[trigger] commanded(before, asked, states), router@, joined);
                proof {
                    lemma_command_keeps_mtu(before, asked, states);
                }
                self.router = Some(router);
                let ghost inits = datagram_views(joined.inits@);
                assert(greets(inits, commanded(before, asked, states).greeted));
                let r = actions_of(joined, must);
                assert(takes_up(
                    old(self)@,
                    commanded(before, asked, states),
                    must,
                    action_views(r@),
                    self@,
                ));
                r
            },
            None => Vec::new(),
        }
    }

    /// One second has passed.
    pub fn tick(&mut self) -> (r: Vec<ClientAction>)
        requires
            old(self)@.wf(),
        ensures
            final(self)@.wf(),
            tick_actions(old(self)@, action_views(r@), final(self)@),
    {
        let mut acts: Vec<ClientAction> = Vec::new();
        if self.router.is_none() {
            let m = self.registration();
            let ghost view = ActionView::Register(m@);
            acts.push(ClientAction::Register(m));
            assert(action_views(acts@) =~= seq![view]);
        }
        let ghost first = action_views(acts@);
        let punches = self.punch.datagrams();
        let ghost p = datagram_views(punches@);
        push_sends(&mut acts, punches);
        match self.router.take() {
            Some(mut router) => {
                let ghost before = router@;
                let sent = router.tick();
                let ghost os = choose|os: Seq<OutcomeView>|
                    #[trigger] ticked(before, os, router@) && datagram_views(sent@) == collected(
                        before.peers,
                        os,
                    );
                let ghost after = router@;
                self.router = Some(router);
                push_sends(&mut acts, sent);
                assert(first =~= seq![]);
                assert(first + sends(p) =~= sends(p));
                assert(are_punches(old(self)@.punch, p) && ticked(before, os, after));
            },
            None => {
                assert(are_punches(old(self)@.punch, p));
            },
        }
        acts
    }

    /// A datagram has arrived; it is dropped before the server has sent the peers.
    pub fn datagram(&mut self, d: &[u8]) -> (r: Vec<ClientAction>)
        requires
            old(self)@.wf(),
        ensures
            final(self)@.wf(),
            match old(self)@.router {
                Some(router) => exists|outs: Seq<OutView>, after: RouterView|
                    #[trigger] handled(router, d@, outs, after) && final(self)@ == old(self)@.with(
                        after,
                    ) && action_views(r@) == outs.map_values(|o: OutView| action_for(o)),
                None => r@.len() == 0 && final(self)@ == old(self)@,
            },
    {
        let mut acts: Vec<ClientAction> = Vec::new();
        match self.router.take() {
            Some(mut router) => {
                let ghost before = router@;
                let mut outs = router.handle_inbound(d);
                let ghost after = router@;
                proof {
                    lemma_handled_keeps_mtu(before, d@, out_views(outs@), after);
                }
                self.router = Some(router);
                let ghost all = outs@;
                let ghost views = out_views(all);
                let ghost act = |o: OutView| action_for(o);
                let n: usize = outs.len();
                for i in 0..n
                    invariant
                        n == all.len(),
                        views == out_views(all),
                        act == (|o: OutView| action_for(o)),
                        outs@ == all.skip(i as int),
                        action_views(acts@) == views.take(i as int).map_values(act),
                {
                    let one = outs.remove(0);
                    let ghost view = one@;
                    assert(view == views[i as int]);
                    let ghost was = acts@;
                    match one {
                        Out::ToHost(p) => {
                            acts.push(ClientAction::Deliver(p));
                        },
                        Out::ToNet(b, to) => {
                            acts.push(ClientAction::Send(b, to));
                        },
                    }
                    assert(action_views(acts@) =~= action_views(was).push(action_for(view)));
                    assert(views.take(i + 1).map_values(act) =~= views.take(i as int).map_values(
                        act,
                    ).push(action_for(view)));
                }
                assert(views.take(n as int) =~= views);
                assert(handled(before, d@, views, after));
            },
            None => {},
        }
        acts
    }

    /// Whether a packet can be routed: it is no longer than a peer takes, or no peer owns
    /// its destination.
    pub fn takes(&self, packet: &[u8]) -> (r: bool)
        ensures
            r == self@.takes(packet@),
    {
        match &self.router {
            Some(router) => router.takes(packet),
            None => true,
        }
    }

    /// The host has packets for the tunnel; each goes to the peer that owns its
    /// destination.
    pub fn packets(&mut self, packets: &Vec<Vec<u8>>) -> (r: Vec<ClientAction>)
        requires
            old(self)@.wf(),
            forall|i: int|
                0 <= i < packets@.len() ==> old(self)@.takes((#[trigger] packets@[i])@),
        ensures
            final(self)@.wf(),
            match old(self)@.router {
                Some(router) => exists|
                    states: Seq<RouterView>,
                    outs: Seq<Option<(Seq<u8>, SocketAddr)>>,
                |
                    #[trigger] routed_all(states, packet_views(packets@), outs) && states[0]
                        == router && final(self)@ == old(self)@.with(states.last())
                        && action_views(r@) == sends(present(outs)),
                None => r@.len() == 0 && final(self)@ == old(self)@,
            },
    {
        let mut acts: Vec<ClientAction> = Vec::new();
        match self.router.take() {
            Some(mut router) => {
                let ghost first = router@;
                let ghost mut states: Seq<RouterView> = seq![first];
                let ghost mut outs: Seq<Option<(Seq<u8>, SocketAddr)>> = seq![];
                let ghost views = packet_views(packets@);
                assert(sends(present(outs)) =~= seq![]);
                for i in 0..packets.len()
                    invariant
                        views == packet_views(packets@),
                        router@.wf(),
                        router@.mtu == first.mtu,
                        forall|k: int|
                            0 <= k < packets@.len() ==> router@.takes((#[trigger] packets@[k])@),
                        states.len() == i + 1,
                        states[0] == first,
                        states.last() == router@,
                        routed_all(states, views.take(i as int), outs),
                        action_views(acts@) == sends(present(outs)),
                {
                    let ghost before = router@;
                    let out = router.route_outbound(packets[i].as_slice());
                    let ghost o = opt_datagram(out);
                    proof {
                        assert forall|k: int| 0 <= k < packets@.len() implies router@.takes(
                            (#[trigger] packets@[k])@,
                        ) by {
                            lemma_routed_takes(
                                before,
                                packets@[i as int]@,
                                o,
                                router@,
                                packets@[k]@,
                            );
                        }
                        lemma_routed_takes(before, packets@[i as int]@, o, router@, seq![]);
                        let s2 = states.push(router@);
                        let o2 = outs.push(o);
                        assert(o2.drop_last() =~= outs);
                        assert forall|k: int| #![trigger o2[k]] 0 <= k < i + 1 implies routed(
                            s2[k],
                            views.take(i + 1)[k],
                            o2[k],
                            s2[k + 1],
                        ) by {
                            if k < i {
                                assert(o2[k] == outs[k]);
                                assert(views.take(i + 1)[k] == views.take(i as int)[k]);
                            }
                        }
                        states = s2;
                        outs = o2;
                    }
                    match out {
                        Some((b, to)) => {
                            let ghost was = acts@;
                            let ghost one = ActionView::Send(b@, to);
                            acts.push(ClientAction::Send(b, to));
                            assert(action_views(acts@) =~= action_views(was).push(one));
                            assert(sends(present(outs)) =~= action_views(was).push(one));
                        },
                        None => {},
                    }
                }
                assert(views.take(packets@.len() as int) =~= views);
                self.router = Some(router);
            },
            None => {},
        }
        acts
    }
}

proof fn lemma_joins_keep_mtu(
    j: JoinView,
    sites: Seq<crate::olm::proto::SiteConfigView>,
    eps: Seq<Option<SocketAddr>>,
    states: Seq<boringtun::noise::Tunn>,
    n: int,
)
    ensures
        with_sites(j, sites, eps, states, n).router.mtu == j.router.mtu,
    decreases n,
{
    if n > 0 {
        lemma_joins_keep_mtu(j, sites, eps, states, n - 1);
    }
}

proof fn lemma_sites_keep_mtu(
    r: RouterView,
    sites: Seq<crate::olm::proto::SiteConfigView>,
    eps: Seq<Option<SocketAddr>>,
    states: Seq<boringtun::noise::Tunn>,
)
    ensures
        with_all(r, sites, eps, states).router.mtu == r.mtu,
{
    lemma_joins_keep_mtu(
        crate::olm::control::joining(r),
        sites,
        eps,
        states,
        sites.len() as int,
    );
}

proof fn lemma_command_keeps_mtu(r: RouterView, c: Command, states: Seq<boringtun::noise::Tunn>)
    ensures
        commanded(r, c, states).router.mtu == r.mtu,
{
    match c {
        Command::Sites(sites, endpoints) => {
            lemma_sites_keep_mtu(r, site_views(sites@), endpoints@, states);
        },
        Command::Sync(sites, endpoints) => {
            let views = site_views(sites@);
            lemma_sites_keep_mtu(r.with_only(named(views)), views, endpoints@, states);
        },
        _ => {},
    }
}

proof fn lemma_handled_keeps_mtu(r: RouterView, d: Seq<u8>, outs: Seq<OutView>, after: RouterView)
    requires
        handled(r, d, outs, after),
    ensures
        after.mtu == r.mtu,
{
}

// ---------------------------------------------------------------------------
// Laws
// ---------------------------------------------------------------------------
/// A client registers as who it is.
pub proof fn law_identity_is_registered(id: Identity)
    ensures
        ({
            let m = id.message();
            &&& m.typ == "olm/wg/register"@
            &&& m.data->Object_0["publicKey"@] == crate::json::JsonView::Text(id.public_b64@)
            &&& m.data->Object_0["olmVersion"@] == crate::json::JsonView::Text(id.version@)
            &&& m.data->Object_0["orgId"@] == crate::json::JsonView::Text(id.org_id@)
            &&& m.data->Object_0["userToken"@] == crate::json::JsonView::Text(id.user_token@)
        }),
{
    crate::olm::control::law_registration_tells_the_client(
        id.public_b64@,
        id.version@,
        id.org_id@,
        id.user_token@,
    );
}

/// Packets for the host are delivered, and datagrams are sent where they go, in order.
pub proof fn law_results_become_actions(
    p: Seq<u8>,
    to: SocketAddr,
    d: Seq<(Seq<u8>, SocketAddr)>,
    i: int,
)
    requires
        0 <= i < d.len(),
    ensures
        action_for(OutView::ToHost(p)) == ActionView::Deliver(p),
        action_for(OutView::ToNet(p, to)) == ActionView::Send(p, to),
        sends(d).len() == d.len(),
        sends(d)[i] == ActionView::Send(d[i].0, d[i].1),
{
}

/// When the peers change, the routes come first and then one initiation for each peer that
/// is greeted, to its endpoint; the session has the router that the change left and is
/// otherwise as before.
pub proof fn law_routes_come_before_greetings(
    s: SessionView,
    j: JoinView,
    must: bool,
    acts: Seq<ActionView>,
    after: SessionView,
    i: int,
)
    requires
        takes_up(s, j, must, acts, after),
        0 <= i < j.greeted.len(),
    ensures
        acts.len() == 1 + j.greeted.len(),
        acts[0] == ActionView::Route(j.ranges, must),
        acts[1 + i] is Send,
        acts[1 + i]->Send_1 == j.greeted[i].endpoint,
        crate::wg::is_greeting(acts[1 + i]->Send_0, j.greeted[i].index, j.greeted[i].state),
        after.router == Some(j.router),
        after.secret == s.secret && after.mtu == s.mtu,
        after.registration == s.registration && after.punch == s.punch,
{
    let inits = choose|inits: Seq<(Seq<u8>, SocketAddr)>|
        #[trigger] greets(inits, j.greeted) && acts == seq![ActionView::Route(j.ranges, must)]
            + sends(inits);
    crate::olm::control::law_greetings_go_to_their_peers(inits, j.greeted, i);
    assert(acts[1 + i] == sends(inits)[i]);
}

/// Until the server has sent the peers, every tick registers first and nothing changes;
/// once it has, no tick registers. Hole punches are sent either way, then what the peers'
/// timers send.
pub proof fn law_ticks_register_until_connected(
    s: SessionView,
    acts: Seq<ActionView>,
    after: SessionView,
)
    requires
        tick_actions(s, acts, after),
    ensures
        s.router is None ==> after == s && acts.len() > 0 && acts[0] == ActionView::Register(
            s.registration,
        ),
        forall|i: int|
            0 <= i < acts.len() && (s.router is Some || i > 0) ==> #[trigger] acts[i] is Send,
        exists|p: Seq<(Seq<u8>, SocketAddr)>| #[trigger]
            are_punches(s.punch, p) && {
                let first: int = if s.router is None {
                    1
                } else {
                    0
                };
                &&& acts.len() >= first + p.len()
                &&& s.router is None ==> acts.len() == 1 + p.len()
                &&& forall|i: int|
                    0 <= i < p.len() ==> #[trigger] acts[first + i] == ActionView::Send(
                        p[i].0,
                        p[i].1,
                    )
                &&& s.router matches Some(r) ==> exists|os: Seq<OutcomeView>, r2: RouterView|
                    #[trigger] ticked(r, os, r2) && after.router == Some(r2) && acts.skip(
                        p.len() as int,
                    ) == sends(collected(r.peers, os))
            },
        after.registration == s.registration && after.punch == s.punch,
        after.router is Some <==> s.router is Some,
{
    match s.router {
        None => {
            let p = choose|p: Seq<(Seq<u8>, SocketAddr)>|
                #[trigger] are_punches(s.punch, p) && acts == seq![
                    ActionView::Register(s.registration),
                ] + sends(p);
            assert(are_punches(s.punch, p));
        },
        Some(r) => {
            let (p, os, r2) = choose|
                p: Seq<(Seq<u8>, SocketAddr)>,
                os: Seq<OutcomeView>,
                r2: RouterView,
            |
                #[trigger] are_punches(s.punch, p) && #[trigger] ticked(r, os, r2) && after
                    == s.with(r2) && acts == sends(p) + sends(collected(r.peers, os));
            assert(are_punches(s.punch, p));
            assert(ticked(r, os, r2));
            assert(acts.skip(p.len() as int) =~= sends(collected(r.peers, os)));
            assert forall|i: int| 0 <= i < p.len() implies #[trigger] acts[0 + i]
                == ActionView::Send(p[i].0, p[i].1) by {}
        },
    }
}

/// What each packet gives is sent in the order of the packets.
pub proof fn law_datagrams_keep_the_order_of_packets(
    a: Seq<Option<(Seq<u8>, SocketAddr)>>,
    b: Seq<Option<(Seq<u8>, SocketAddr)>>,
    x: (Seq<u8>, SocketAddr),
)
    ensures
        present(a + b) == present(a) + present(b),
        present(seq![Some(x)]) == seq![x],
        present(seq![None]).len() == 0,
    decreases b.len(),
{
    reveal_with_fuel(present, 2);
    assert(seq![Some(x)].drop_last() =~= Seq::empty());
    assert(present(seq![Some(x)]) =~= seq![x]);
    if b.len() == 0 {
        assert(a + b =~= a);
        assert(present(a) + present(b) =~= present(a));
    } else {
        law_datagrams_keep_the_order_of_packets(a, b.drop_last(), x);
        assert((a + b).drop_last() =~= a + b.drop_last());
        assert(present(a + b) =~= present(a) + present(b));
    }
}

/// Every packet is routed by the router as the packet before it left it.
pub proof fn law_every_packet_is_routed(
    states: Seq<RouterView>,
    packets: Seq<Seq<u8>>,
    outs: Seq<Option<(Seq<u8>, SocketAddr)>>,
    i: int,
)
    requires
        routed_all(states, packets, outs),
        0 <= i < packets.len(),
    ensures
        routed(states[i], packets[i], outs[i], states[i + 1]),
        outs.len() == packets.len(),
        states.len() == packets.len() + 1,
{
    assert(routed(states[i], packets[i], outs[i], states[i + 1]));
}

} // verus!
