//! The client's control channel: what each message asks of the router, without the
//! sockets and the name resolution.
use crate::json::{
    as_array, as_str, as_u64, bool_value, empty_object, json_content, json_contents, json_elements,
    json_member, json_str, json_u64, member, set_member, text_value, JsonView,
};
use crate::net::{datagram_views, ip_of, IpAddr, SocketAddr};
use crate::olm::proto::{topic, SiteConfig, SiteConfigView};
use crate::olm::router::{
    cidr_of, cidr_views, upserted, Cidr, CidrView, PeerView, Router, RouterView,
};
use crate::proto::{MessageView, WsMessage};
use crate::text::{pieces, rsplit_once, rsplit_once_at, same, split, texts};
use crate::wg::{is_greeting, public_key_of, sealable};
use vstd::prelude::*;
use vstd::string::*;

verus! {

// ---------------------------------------------------------------------------
// Messages
// ---------------------------------------------------------------------------
/// What a message is about, which says how its data reads.
#[derive(Debug, Clone, Copy, PartialEq, Eq, Structural)]
pub enum Kind {
    /// The full initial peer set.
    Connect,
    /// One site, new or changed.
    Upsert,
    Remove,
    Relay,
    Unrelay,
    DataAdd,
    DataRemove,
    /// The sites of the current peer set.
    Sync,
    Error,
    /// The session ends.
    Terminate,
    /// Nothing to do.
    Other,
}

pub open spec fn kind_of_topic(typ: Seq<char>) -> Kind {
    if typ == topic::CONNECT@ {
        Kind::Connect
    } else if typ == topic::PEER_ADD@ || typ == topic::PEER_UPDATE@ {
        Kind::Upsert
    } else if typ == topic::PEER_REMOVE@ {
        Kind::Remove
    } else if typ == topic::PEER_RELAY@ {
        Kind::Relay
    } else if typ == topic::PEER_UNRELAY@ {
        Kind::Unrelay
    } else if typ == topic::PEER_DATA_ADD@ {
        Kind::DataAdd
    } else if typ == topic::PEER_DATA_REMOVE@ {
        Kind::DataRemove
    } else if typ == topic::SYNC@ {
        Kind::Sync
    } else if typ == topic::ERROR@ {
        Kind::Error
    } else if typ == topic::TERMINATE@ {
        Kind::Terminate
    } else {
        Kind::Other
    }
}

/// What a message with this topic is about.
pub fn kind_of(typ: &str) -> (r: Kind)
    ensures
        r == kind_of_topic(typ@),
{
    if same(typ, topic::CONNECT) {
        Kind::Connect
    } else if same(typ, topic::PEER_ADD) || same(typ, topic::PEER_UPDATE) {
        Kind::Upsert
    } else if same(typ, topic::PEER_REMOVE) {
        Kind::Remove
    } else if same(typ, topic::PEER_RELAY) {
        Kind::Relay
    } else if same(typ, topic::PEER_UNRELAY) {
        Kind::Unrelay
    } else if same(typ, topic::PEER_DATA_ADD) {
        Kind::DataAdd
    } else if same(typ, topic::PEER_DATA_REMOVE) {
        Kind::DataRemove
    } else if same(typ, topic::SYNC) {
        Kind::Sync
    } else if same(typ, topic::ERROR) {
        Kind::Error
    } else if same(typ, topic::TERMINATE) {
        Kind::Terminate
    } else {
        Kind::Other
    }
}

/// The registration of a client.
pub open spec fn registration(
    public_key_b64: Seq<char>,
    version: Seq<char>,
    org_id: Seq<char>,
    user_token: Seq<char>,
) -> MessageView {
    MessageView {
        typ: topic::REGISTER@,
        data: JsonView::Object(
            map![
                "publicKey"@ => JsonView::Text(public_key_b64),
                "relay"@ => JsonView::Bool(true),
                "olmVersion"@ => JsonView::Text(version),
                "olmAgent"@ => JsonView::Text("newt-rust"@),
                "orgId"@ => JsonView::Text(org_id),
                "userToken"@ => JsonView::Text(user_token),
                "fingerprint"@ => JsonView::Object(Map::empty()),
                "postures"@ => JsonView::Object(Map::empty()),
            ],
        ),
        config_version: None,
    }
}

/// The message that registers a client.
pub fn register_msg(public_key_b64: &str, version: &str, org_id: &str, user_token: &str) -> (r:
    WsMessage)
    ensures
        r@ == registration(public_key_b64@, version@, org_id@, user_token@),
{
    let mut data = empty_object();
    set_member(&mut data, "publicKey", text_value(public_key_b64));
    set_member(&mut data, "relay", bool_value(true));
    set_member(&mut data, "olmVersion", text_value(version));
    set_member(&mut data, "olmAgent", text_value("newt-rust"));
    set_member(&mut data, "orgId", text_value(org_id));
    set_member(&mut data, "userToken", text_value(user_token));
    set_member(&mut data, "fingerprint", empty_object());
    set_member(&mut data, "postures", empty_object());
    assert(json_content(data)->Object_0 =~= registration(
        public_key_b64@,
        version@,
        org_id@,
        user_token@,
    ).data->Object_0);
    WsMessage { typ: topic::REGISTER.to_owned(), data, config_version: None }
}

/// The token in the `data` object of a client's get-token response.
pub fn token_of(data: &serde_json::Value) -> (r: Result<String, String>)
    ensures
        match r {
            Ok(t) => json_str(json_member(json_content(*data), "token"@)) == Some(t@),
            Err(e) => json_str(json_member(json_content(*data), "token"@)) is None && e@
                == "no token in olm get-token response"@,
        },
{
    match as_str(&member(data, "token")) {
        Some(t) => Ok(t),
        None => Err("no token in olm get-token response".to_owned()),
    }
}

// ---------------------------------------------------------------------------
// Exit nodes
// ---------------------------------------------------------------------------
/// Where to punch a hole to an exit node, and its public key.
#[derive(Debug)]
pub struct RelayNode {
    pub host: String,
    pub relay_port: u16,
    pub server_pub: String,
}

/// The content of a [`RelayNode`].
pub struct RelayView {
    pub host: Seq<char>,
    pub relay_port: u16,
    pub server_pub: Seq<char>,
}

impl View for RelayNode {
    type V = RelayView;

    open spec fn view(&self) -> RelayView {
        RelayView {
            host: self.host@,
            relay_port: self.relay_port,
            server_pub: self.server_pub@,
        }
    }
}

/// A text member; empty where it is none.
pub open spec fn text_member(v: JsonView, key: Seq<char>) -> Seq<char> {
    match json_str(json_member(v, key)) {
        Some(s) => s,
        None => Seq::empty(),
    }
}

/// The relay port in a node's entry: the low 16 bits of the number that is given, and
/// the usual port where these are zero or no number is given.
pub open spec fn relay_port_of(v: JsonView) -> u16 {
    let given: u64 = match json_u64(json_member(v, "relayPort"@)) {
        Some(n) => (n % 0x1_0000) as u64,
        None => 0,
    };
    if given == 0 {
        21820
    } else {
        given as u16
    }
}

/// The host of an endpoint: what stands before its last colon, or all of it.
pub open spec fn host_of(endpoint: Seq<char>) -> Seq<char> {
    match rsplit_once_at(endpoint, ':') {
        Some((h, _)) => h,
        None => endpoint,
    }
}

/// The exit node of an entry; none without a host or a key.
pub open spec fn relay_of(v: JsonView) -> Option<RelayView> {
    let host = host_of(text_member(v, "endpoint"@));
    let server_pub = text_member(v, "publicKey"@);
    if host.len() == 0 || server_pub.len() == 0 {
        None
    } else {
        Some(RelayView { host, relay_port: relay_port_of(v), server_pub })
    }
}

/// The exit nodes of some entries, in order.
pub open spec fn relays_of(v: Seq<JsonView>) -> Seq<RelayView>
    decreases v.len(),
{
    if v.len() == 0 {
        seq![]
    } else {
        let rest = relays_of(v.drop_last());
        match relay_of(v.last()) {
            Some(n) => rest.push(n),
            None => rest,
        }
    }
}

/// The exit nodes in a get-token response.
pub open spec fn exit_nodes_in(data: JsonView) -> Seq<RelayView> {
    match json_elements(json_member(data, "exitNodes"@)) {
        Some(v) => relays_of(v),
        None => seq![],
    }
}

/// The contents of some exit nodes.
pub open spec fn relay_views(v: Seq<RelayNode>) -> Seq<RelayView> {
    v.map_values(|n: RelayNode| n@)
}

fn text_or_empty(v: &serde_json::Value, key: &str) -> (r: String)
    ensures
        r@ == text_member(json_content(*v), key@),
{
    match as_str(&member(v, key)) {
        Some(s) => s,
        None => {
            let none = String::new();
            assert(none@ =~= Seq::empty());
            none
        },
    }
}

fn relay_node(v: &serde_json::Value) -> (r: Option<RelayNode>)
    ensures
        match r {
            Some(n) => relay_of(json_content(*v)) == Some(n@),
            None => relay_of(json_content(*v)) is None,
        },
{
    let endpoint = text_or_empty(v, "endpoint");
    let server_pub = text_or_empty(v, "publicKey");
    let given: u64 = match as_u64(&member(v, "relayPort")) {
        Some(n) => n % 0x1_0000,
        None => 0,
    };
    let relay_port: u16 = if given == 0 {
        21820
    } else {
        given as u16
    };
    let host = match rsplit_once(endpoint.as_str(), ':') {
        Some((h, _)) => h,
        None => endpoint,
    };
    if host.as_str().is_empty() || server_pub.as_str().is_empty() {
        return None;
    }
    Some(RelayNode { host, relay_port, server_pub })
}

/// Reads `data.exitNodes`: where each node's hole-punch (relay) port is, and its key.
pub fn parse_exit_nodes(data: &serde_json::Value) -> (r: Vec<RelayNode>)
    ensures
        relay_views(r@) == exit_nodes_in(json_content(*data)),
{
    let mut r: Vec<RelayNode> = Vec::new();
    assert(relay_views(r@) =~= seq![]);
    match as_array(&member(data, "exitNodes")) {
        Some(entries) => {
            let ghost all = json_contents(entries@);
            for i in 0..entries.len()
                invariant
                    all == json_contents(entries@),
                    relay_views(r@) == relays_of(all.take(i as int)),
            {
                assert(all.take(i + 1).drop_last() =~= all.take(i as int));
                assert(all.take(i + 1).last() == json_content(entries@[i as int]));
                match relay_node(&entries[i]) {
                    Some(n) => {
                        let ghost before = r@;
                        let ghost view = n@;
                        r.push(n);
                        assert(relay_views(r@) =~= relay_views(before).push(view));
                    },
                    None => {},
                }
            }
            assert(all.take(all.len() as int) =~= all);
        },
        None => {},
    }
    r
}

// ---------------------------------------------------------------------------
// The data plane
// ---------------------------------------------------------------------------
/// Our address in the tunnel, out of "address/prefix" or a bare address.
pub fn tunnel_address(tunnel_ip: &str) -> (r: Result<IpAddr, String>)
    ensures
        match r {
            Ok(ip) => ip_of(pieces(tunnel_ip@, '/')[0]) == Some(ip@),
            Err(e) => ip_of(pieces(tunnel_ip@, '/')[0]) is None && e@ == "bad olm tunnelIP"@,
        },
{
    let parts = split(tunnel_ip, '/');
    assert(pieces(tunnel_ip@, '/').len() > 0);
    match IpAddr::parse(parts[0].as_str()) {
        Some(ip) => Ok(ip),
        None => Err("bad olm tunnelIP".to_owned()),
    }
}

/// The ranges that some texts denote, those that denote none left out.
pub open spec fn ranges_of(specs: Seq<Seq<char>>) -> Seq<CidrView>
    decreases specs.len(),
{
    if specs.len() == 0 {
        seq![]
    } else {
        let rest = ranges_of(specs.drop_last());
        match cidr_of(specs.last()) {
            Some(c) => rest.push(c),
            None => rest,
        }
    }
}

/// The ranges that some texts denote.
pub fn parse_cidrs(specs: &Vec<String>) -> (r: Vec<Cidr>)
    ensures
        cidr_views(r@) == ranges_of(texts(specs@)),
{
    let mut refs: Vec<&String> = Vec::new();
    for i in 0..specs.len()
        invariant
            refs@.len() == i,
            forall|j: int| 0 <= j < i ==> (#[trigger] refs@[j])@ == specs@[j]@,
    {
        refs.push(&specs[i]);
    }
    assert(refs@.map_values(|s: &String| s@) =~= texts(specs@));
    parse_cidr_refs(&refs)
}

fn parse_cidr_refs(specs: &Vec<&String>) -> (r: Vec<Cidr>)
    ensures
        cidr_views(r@) == ranges_of(specs@.map_values(|s: &String| s@)),
{
    let mut r: Vec<Cidr> = Vec::new();
    let ghost all = specs@.map_values(|s: &String| s@);
    assert(cidr_views(r@) =~= seq![]);
    for i in 0..specs.len()
        invariant
            all == specs@.map_values(|s: &String| s@),
            cidr_views(r@) == ranges_of(all.take(i as int)),
    {
        assert(all.take(i + 1).drop_last() =~= all.take(i as int));
        assert(all.take(i + 1).last() == specs@[i as int]@);
        match Cidr::parse(specs[i].as_str()) {
            Some(c) => {
                let ghost before = r@;
                r.push(c);
                assert(cidr_views(r@) =~= cidr_views(before).push(c@));
            },
            None => {},
        }
    }
    assert(all.take(all.len() as int) =~= all);
    r
}

/// The endpoint to look up before a site can be added; none for a site without a key.
pub fn endpoint_to_resolve(site: &SiteConfig) -> (r: Option<&str>)
    ensures
        match r {
            Some(e) => site@.public_key.len() > 0 && e@ == site@.effective_endpoint(),
            None => site@.public_key.len() == 0,
        },
{
    if site.public_key.as_str().is_empty() {
        None
    } else {
        Some(site.wg_endpoint())
    }
}

/// A peer to send an initiation to: its index, where it is reached, and the state that
/// its tunnel went over into with the initiation.
pub struct Greeting {
    pub index: u32,
    pub endpoint: SocketAddr,
    pub state: boringtun::noise::Tunn,
}

/// A router to which sites are being added: the ranges to program routes for, and the
/// peers to send initiations to.
pub struct JoinView {
    pub router: RouterView,
    pub ranges: Seq<CidrView>,
    pub greeted: Seq<Greeting>,
}

/// What adding a site does, with its endpoint as it was resolved; a tunnel that is made
/// for it is left in `state`. A site without a key or an endpoint is passed over; a key
/// that is none adds no peer.
pub open spec fn with_site(
    j: JoinView,
    site: SiteConfigView,
    ep: Option<SocketAddr>,
    state: boringtun::noise::Tunn,
) -> JoinView {
    match ep {
        Some(ep) => if site.public_key.len() == 0 {
            j
        } else {
            let ranges = ranges_of(site.destinations());
            match public_key_of(site.public_key) {
                Ok(key) => JoinView {
                    router: upserted(j.router, site.site_id, key, ep, ranges, state),
                    ranges: j.ranges + ranges,
                    greeted: j.greeted.push(
                        Greeting { index: j.router.next_index, endpoint: ep, state },
                    ),
                },
                Err(_) => JoinView { ranges: j.ranges + ranges, ..j },
            }
        },
        None => j,
    }
}

/// What adding the first `n` of some sites does.
pub open spec fn with_sites(
    j: JoinView,
    sites: Seq<SiteConfigView>,
    eps: Seq<Option<SocketAddr>>,
    states: Seq<boringtun::noise::Tunn>,
    n: int,
) -> JoinView
    decreases n,
{
    if n <= 0 {
        j
    } else {
        with_site(
            with_sites(j, sites, eps, states, n - 1),
            sites[n - 1],
            eps[n - 1],
            states[n - 1],
        )
    }
}

/// A router before any site is added to it.
pub open spec fn joining(router: RouterView) -> JoinView {
    JoinView { router, ranges: seq![], greeted: seq![] }
}

/// A router without peers.
pub open spec fn empty_router(secret: Seq<u8>, mtu: usize) -> RouterView {
    RouterView { secret, mtu, peers: seq![], next_index: 1 }
}

/// What adding some sites to a router does.
pub open spec fn with_all(
    r: RouterView,
    sites: Seq<SiteConfigView>,
    eps: Seq<Option<SocketAddr>>,
    states: Seq<boringtun::noise::Tunn>,
) -> JoinView {
    with_sites(joining(r), sites, eps, states, sites.len() as int)
}

/// The sites that some configurations name.
pub open spec fn named(sites: Seq<SiteConfigView>) -> Seq<i64> {
    sites.map_values(|s: SiteConfigView| s.site_id)
}

/// The contents of some sites.
pub open spec fn site_views(s: Seq<SiteConfig>) -> Seq<SiteConfigView> {
    s.map_values(|x: SiteConfig| x@)
}

/// What came of adding sites: the handshake initiations to send, and the ranges to
/// program routes for.
pub struct Joined {
    pub inits: Vec<(Vec<u8>, SocketAddr)>,
    pub ranges: Vec<Cidr>,
}

/// The initiations are those of the peers that are greeted, in order.
pub open spec fn greets(inits: Seq<(Seq<u8>, SocketAddr)>, greeted: Seq<Greeting>) -> bool {
    &&& inits.len() == greeted.len()
    &&& forall|i: int|
        0 <= i < inits.len() ==> {
            &&& is_greeting((#[trigger] inits[i]).0, greeted[i].index, greeted[i].state)
            &&& inits[i].1 == greeted[i].endpoint
        }
}

/// Adds or updates sites in a router, with their endpoints as they were resolved.
fn add_sites(router: &mut Router, sites: &Vec<SiteConfig>, endpoints: &Vec<Option<SocketAddr>>) -> (r:
    Joined)
    requires
        old(router)@.wf(),
        sites@.len() == endpoints@.len(),
    ensures
        final(router)@.wf(),
        exists|states: Seq<boringtun::noise::Tunn>|
            joins(
                #[trigger] with_all(old(router)@, site_views(sites@), endpoints@, states),
                final(router)@,
                r,
            ),
{
    let mut inits: Vec<(Vec<u8>, SocketAddr)> = Vec::new();
    let mut ranges: Vec<Cidr> = Vec::new();
    let ghost start = joining(router@);
    let ghost views = site_views(sites@);
    let ghost mut states: Seq<boringtun::noise::Tunn> = seq![];
    assert(cidr_views(ranges@) =~= seq![]);
    for i in 0..sites.len()
        invariant
            sites@.len() == endpoints@.len(),
            views == site_views(sites@),
            start == joining(old(router)@),
            router@.wf(),
            states.len() == i,
            router@ == with_sites(start, views, endpoints@, states, i as int).router,
            cidr_views(ranges@) == with_sites(start, views, endpoints@, states, i as int).ranges,
            greets(
                datagram_views(inits@),
                with_sites(start, views, endpoints@, states, i as int).greeted,
            ),
    {
        let ghost site = views[i as int];
        assert(site == sites@[i as int]@);
        let ghost were = states;
        let ghost before = router@;
        proof {
            states = were.push(arbitrary());
            lemma_states_before(start, views, endpoints@, were, states, i as int);
        }
        match endpoints[i] {
            Some(ep) => {
                if !sites[i].public_key.as_str().is_empty() {
                    let specs = sites[i].routed_cidrs();
                    let mut cidrs = parse_cidr_refs(&specs);
                    let routed = cidrs.clone();
                    assert(cidr_views(routed@) =~= cidr_views(cidrs@));
                    let init = router.upsert_peer(
                        sites[i].site_id,
                        sites[i].public_key.as_str(),
                        ep,
                        routed,
                    );
                    match init {
                        Some(pair) => {
                            proof {
                                states = were.push(router@.peers.last().pump.tun.state);
                                lemma_states_before(
                                    start,
                                    views,
                                    endpoints@,
                                    were,
                                    states,
                                    i as int,
                                );
                            }
                            let ghost before = inits@;
                            inits.push(pair);
                            assert(datagram_views(inits@) =~= datagram_views(before).push(
                                (pair.0@, pair.1),
                            ));
                        },
                        None => {},
                    }
                    let ghost before = ranges@;
                    let ghost more = cidrs@;
                    ranges.append(&mut cidrs);
                    assert(cidr_views(ranges@) =~= cidr_views(before) + cidr_views(more));
                }
            },
            None => {},
        }
    }
    let r = Joined { inits, ranges };
    assert(joins(with_all(old(router)@, views, endpoints@, states), router@, r));
    r
}

/// What came of adding sites is what was to come of it.
pub open spec fn joins(j: JoinView, router: RouterView, r: Joined) -> bool {
    &&& router == j.router
    &&& cidr_views(r.ranges@) == j.ranges
    &&& greets(datagram_views(r.inits@), j.greeted)
}

/// The states of the tunnels of later sites do not matter.
proof fn lemma_states_before(
    j: JoinView,
    sites: Seq<SiteConfigView>,
    eps: Seq<Option<SocketAddr>>,
    a: Seq<boringtun::noise::Tunn>,
    b: Seq<boringtun::noise::Tunn>,
    n: int,
)
    requires
        forall|i: int| 0 <= i < n ==> a[i] == b[i],
    ensures
        with_sites(j, sites, eps, a, n) == with_sites(j, sites, eps, b, n),
    decreases n,
{
    if n > 0 {
        lemma_states_before(j, sites, eps, a, b, n - 1);
    }
}

/// A router for the sites of a connect message.
pub fn build_router(
    secret: crate::wg::StaticSecret,
    mtu: usize,
    sites: &Vec<SiteConfig>,
    endpoints: &Vec<Option<SocketAddr>>,
) -> (r: (Router, Joined))
    requires
        sealable(mtu as int),
        sites@.len() == endpoints@.len(),
    ensures
        r.0@.wf(),
        exists|states: Seq<boringtun::noise::Tunn>|
            joins(
                #[trigger] with_all(
                    empty_router(secret.bytes@, mtu),
                    site_views(sites@),
                    endpoints@,
                    states,
                ),
                r.0@,
                r.1,
            ),
{
    let mut router = Router::new(secret, mtu);
    assert(router@ == empty_router(secret.bytes@, mtu));
    let joined = add_sites(&mut router, sites, endpoints);
    (router, joined)
}

/// Makes the peers of a router those of the given sites: a peer that is not named goes,
/// the others are added or updated.
fn sync_sites(router: &mut Router, sites: &Vec<SiteConfig>, endpoints: &Vec<Option<SocketAddr>>) -> (r:
    Joined)
    requires
        old(router)@.wf(),
        sites@.len() == endpoints@.len(),
    ensures
        final(router)@.wf(),
        exists|states: Seq<boringtun::noise::Tunn>|
            joins(
                #[trigger] with_all(
                    old(router)@.with_only(named(site_views(sites@))),
                    site_views(sites@),
                    endpoints@,
                    states,
                ),
                final(router)@,
                r,
            ),
{
    let mut ids: Vec<i64> = Vec::new();
    for i in 0..sites.len()
        invariant
            ids@ == named(site_views(sites@)).take(i as int),
    {
        ids.push(sites[i].site_id);
        assert(ids@ =~= named(site_views(sites@)).take(i + 1));
    }
    assert(ids@ =~= named(site_views(sites@)));
    router.retain_sites(&ids);
    add_sites(router, sites, endpoints)
}

/// Routes more subnets to a site; returns the ranges to program routes for.
fn add_subnets(router: &mut Router, site_id: i64, subnets: &Vec<String>) -> (r: Vec<Cidr>)
    requires
        old(router)@.wf(),
    ensures
        final(router)@.wf(),
        cidr_views(r@) == ranges_of(texts(subnets@)),
        final(router)@ == old(router)@.with_peer(
            site_id,
            |p: PeerView|
                PeerView { cidrs: p.cidrs + ranges_of(texts(subnets@)), ..p },
        ),
{
    let cidrs = parse_cidrs(subnets);
    let more = cidrs.clone();
    assert(cidr_views(more@) =~= cidr_views(cidrs@));
    router.add_cidrs(site_id, more);
    cidrs
}

/// Stops routing subnets to a site.
fn remove_subnets(router: &mut Router, site_id: i64, subnets: &Vec<String>)
    requires
        old(router)@.wf(),
    ensures
        final(router)@.wf(),
        final(router)@ == old(router)@.with_peer(
            site_id,
            |p: PeerView|
                PeerView {
                    cidrs: p.cidrs.filter(
                        |c: CidrView| !ranges_of(texts(subnets@)).contains(c),
                    ),
                    ..p
                },
        ),
{
    let cidrs = parse_cidrs(subnets);
    router.remove_cidrs(site_id, cidrs.as_slice());
}

/// A change to the peers of a running data plane, with endpoints as they were resolved.
#[derive(Debug)]
pub enum Command {
    /// Sites to add or update, each with its endpoint.
    Sites(Vec<SiteConfig>, Vec<Option<SocketAddr>>),
    /// The sites of the current peer set, each with its endpoint.
    Sync(Vec<SiteConfig>, Vec<Option<SocketAddr>>),
    /// The site that is no longer reached.
    Remove(i64),
    /// The endpoint that a site is reached through from now on.
    Endpoint(i64, Option<SocketAddr>),
    AddSubnets(i64, Vec<String>),
    RemoveSubnets(i64, Vec<String>),
}

impl Command {
    /// Each site comes with its endpoint.
    pub open spec fn wf(self) -> bool {
        match self {
            Command::Sites(sites, endpoints) => sites@.len() == endpoints@.len(),
            Command::Sync(sites, endpoints) => sites@.len() == endpoints@.len(),
            _ => true,
        }
    }
}

/// What a change does to the router, which ranges are to be routed, and which peers
/// greeted; the tunnels that are made are left in `states`.
pub open spec fn commanded(
    r: RouterView,
    c: Command,
    states: Seq<boringtun::noise::Tunn>,
) -> JoinView {
    let start = joining(r);
    match c {
        Command::Sites(sites, endpoints) => with_all(r, site_views(sites@), endpoints@, states),
        Command::Sync(sites, endpoints) => with_all(
            r.with_only(named(site_views(sites@))),
            site_views(sites@),
            endpoints@,
            states,
        ),
        Command::Remove(site_id) => JoinView { router: r.without_peer(site_id), ..start },
        Command::Endpoint(site_id, endpoint) => match endpoint {
            Some(endpoint) => JoinView {
                router: r.with_peer(site_id, |p: PeerView| PeerView { endpoint, ..p }),
                ..start
            },
            None => start,
        },
        Command::AddSubnets(site_id, subnets) => {
            let ranges = ranges_of(texts(subnets@));
            JoinView {
                router: r.with_peer(
                    site_id,
                    |p: PeerView| PeerView { cidrs: p.cidrs + ranges, ..p },
                ),
                ranges,
                ..start
            }
        },
        Command::RemoveSubnets(site_id, subnets) => {
            let ranges = ranges_of(texts(subnets@));
            JoinView {
                router: r.with_peer(
                    site_id,
                    |p: PeerView|
                        PeerView {
                            cidrs: p.cidrs.filter(|c: CidrView| !ranges.contains(c)),
                            ..p
                        },
                ),
                ..start
            }
        },
    }
}

/// Carries out a change.
pub fn apply(router: &mut Router, c: Command) -> (r: Joined)
    requires
        old(router)@.wf(),
        c.wf(),
    ensures
        final(router)@.wf(),
        exists|states: Seq<boringtun::noise::Tunn>|
            joins(#[trigger] commanded(old(router)@, c, states), final(router)@, r),
{
    let ghost before = router@;
    let ghost asked = c;
    let mut r = Joined { inits: Vec::new(), ranges: Vec::new() };
    assert(cidr_views(r.ranges@) =~= seq![]);
    match c {
        Command::Sites(sites, endpoints) => {
            r = add_sites(router, &sites, &endpoints);
            proof {
                let views = site_views(sites@);
                let states = choose|states: Seq<boringtun::noise::Tunn>|
                    joins(#[trigger] with_all(before, views, endpoints@, states), router@, r);
                assert(joins(commanded(before, asked, states), router@, r));
            }
        },
        Command::Sync(sites, endpoints) => {
            r = sync_sites(router, &sites, &endpoints);
            proof {
                let views = site_views(sites@);
                let states = choose|states: Seq<boringtun::noise::Tunn>|
                    joins(
                        #[trigger] with_all(
                            before.with_only(named(views)),
                            views,
                            endpoints@,
                            states,
                        ),
                        router@,
                        r,
                    );
                assert(joins(commanded(before, asked, states), router@, r));
            }
        },
        Command::Remove(site_id) => {
            router.remove_peer(site_id);
        },
        Command::Endpoint(site_id, endpoint) => match endpoint {
            Some(endpoint) => {
                router.set_endpoint(site_id, endpoint);
            },
            None => {},
        },
        Command::AddSubnets(site_id, subnets) => {
            r.ranges = add_subnets(router, site_id, &subnets);
        },
        Command::RemoveSubnets(site_id, subnets) => {
            remove_subnets(router, site_id, &subnets);
        },
    }
    proof {
        let none: Seq<boringtun::noise::Tunn> = seq![];
        if !(asked is Sites) && !(asked is Sync) {
            assert(joins(commanded(before, asked, none), router@, r));
        }
    }
    r
}

// ---------------------------------------------------------------------------
// What a message calls for
// ---------------------------------------------------------------------------
/// The data of a message as its kind reads, with the endpoints in it as they were
/// resolved.
#[derive(Debug)]
pub enum Payload {
    /// Sites, each with its endpoint.
    Sites(Vec<SiteConfig>, Vec<Option<SocketAddr>>),
    Site(i64),
    Endpoint(i64, Option<SocketAddr>),
    Subnets(i64, Vec<String>),
    /// Nothing that the kind reads.
    Unread,
}

/// What a message calls for.
#[derive(Debug)]
pub enum ClientStep {
    /// A new router for these sites.
    Connect(Vec<SiteConfig>, Vec<Option<SocketAddr>>),
    Change(Command),
    Nothing,
    /// The session ends.
    End,
}

impl Payload {
    /// Each site comes with its endpoint.
    pub open spec fn wf(self) -> bool {
        self matches Payload::Sites(sites, endpoints) ==> sites@.len() == endpoints@.len()
    }
}

impl ClientStep {
    /// Each site comes with its endpoint.
    pub open spec fn wf(self) -> bool {
        match self {
            ClientStep::Connect(sites, endpoints) => sites@.len() == endpoints@.len(),
            ClientStep::Change(c) => c.wf(),
            _ => true,
        }
    }
}

/// What a message of this kind with this data calls for; nothing where the data is not
/// that of the kind.
pub open spec fn step_for(kind: Kind, payload: Payload) -> ClientStep {
    match (kind, payload) {
        (Kind::Terminate, _) => ClientStep::End,
        (Kind::Connect, Payload::Sites(s, e)) => ClientStep::Connect(s, e),
        (Kind::Upsert, Payload::Sites(s, e)) => ClientStep::Change(Command::Sites(s, e)),
        (Kind::Sync, Payload::Sites(s, e)) => ClientStep::Change(Command::Sync(s, e)),
        (Kind::Remove, Payload::Site(id)) => ClientStep::Change(Command::Remove(id)),
        (Kind::Relay, Payload::Endpoint(id, e)) => ClientStep::Change(Command::Endpoint(id, e)),
        (Kind::Unrelay, Payload::Endpoint(id, e)) => ClientStep::Change(Command::Endpoint(id, e)),
        (Kind::DataAdd, Payload::Subnets(id, s)) => ClientStep::Change(Command::AddSubnets(id, s)),
        (Kind::DataRemove, Payload::Subnets(id, s)) => ClientStep::Change(
            Command::RemoveSubnets(id, s),
        ),
        _ => ClientStep::Nothing,
    }
}

/// What a message calls for.
pub fn client_step(kind: Kind, payload: Payload) -> (r: ClientStep)
    ensures
        r == step_for(kind, payload),
        r is End <==> kind == Kind::Terminate,
        payload.wf() ==> r.wf(),
{
    match (kind, payload) {
        (Kind::Terminate, _) => ClientStep::End,
        (Kind::Connect, Payload::Sites(s, e)) => ClientStep::Connect(s, e),
        (Kind::Upsert, Payload::Sites(s, e)) => ClientStep::Change(Command::Sites(s, e)),
        (Kind::Sync, Payload::Sites(s, e)) => ClientStep::Change(Command::Sync(s, e)),
        (Kind::Remove, Payload::Site(id)) => ClientStep::Change(Command::Remove(id)),
        (Kind::Relay, Payload::Endpoint(id, e)) => ClientStep::Change(Command::Endpoint(id, e)),
        (Kind::Unrelay, Payload::Endpoint(id, e)) => ClientStep::Change(Command::Endpoint(id, e)),
        (Kind::DataAdd, Payload::Subnets(id, s)) => ClientStep::Change(Command::AddSubnets(id, s)),
        (Kind::DataRemove, Payload::Subnets(id, s)) => ClientStep::Change(
            Command::RemoveSubnets(id, s),
        ),
        _ => ClientStep::Nothing,
    }
}

// ---------------------------------------------------------------------------
// Laws
// ---------------------------------------------------------------------------
/// A site that can be added: it has a key and its endpoint is known.
pub open spec fn can_be_added(site: SiteConfigView, ep: Option<SocketAddr>) -> bool {
    ep is Some && site.public_key.len() > 0 && public_key_of(site.public_key) is Ok
}

proof fn lemma_added_sites(
    j: JoinView,
    sites: Seq<SiteConfigView>,
    eps: Seq<Option<SocketAddr>>,
    states: Seq<boringtun::noise::Tunn>,
    n: int,
    id: i64,
)
    requires
        0 <= n <= sites.len(),
        forall|i: int| 0 <= i < n ==> can_be_added(#[trigger] sites[i], eps[i]),
    ensures
        with_sites(j, sites, eps, states, n).router.has_site(id) <==> j.router.has_site(id) || named(
            sites.take(n),
        ).contains(id),
    decreases n,
{
    if n > 0 {
        lemma_added_sites(j, sites, eps, states, n - 1, id);
        let before = with_sites(j, sites, eps, states, n - 1);
        let site = sites[n - 1];
        assert(can_be_added(site, eps[n - 1]));
        crate::olm::router::lemma_upserted_sites(
            before.router,
            site.site_id,
            public_key_of(site.public_key)->Ok_0,
            eps[n - 1]->0,
            ranges_of(site.destinations()),
            states[n - 1],
            id,
        );
        assert(named(sites.take(n)) =~= named(sites.take(n - 1)).push(site.site_id));
        let most = named(sites.take(n - 1));
        if most.contains(id) {
            let k = choose|k: int| 0 <= k < most.len() && most[k] == id;
            assert(most.push(site.site_id)[k] == id);
        }
        assert(most.push(site.site_id)[n - 1] == site.site_id);
    } else {
        assert(named(sites.take(0)) =~= Seq::empty());
    }
}

/// A sync is authoritative: where every site in it has a key and an endpoint, the sites
/// that have a peer after it are those that it names.
pub proof fn law_sync_is_authoritative(
    r: RouterView,
    sites: Vec<SiteConfig>,
    endpoints: Vec<Option<SocketAddr>>,
    states: Seq<boringtun::noise::Tunn>,
    id: i64,
)
    requires
        sites@.len() == endpoints@.len(),
        forall|i: int|
            0 <= i < sites@.len() ==> can_be_added(
                #[trigger] site_views(sites@)[i],
                endpoints@[i],
            ),
    ensures
        commanded(r, Command::Sync(sites, endpoints), states).router.has_site(id) <==> named(
            site_views(sites@),
        ).contains(id),
{
    let views = site_views(sites@);
    let kept = r.with_only(named(views));
    lemma_added_sites(joining(kept), views, endpoints@, states, views.len() as int, id);
    crate::olm::router::lemma_only_sites(r, named(views), id);
    assert(views.take(views.len() as int) =~= views);
}

/// A sync leaves no peer that it does not name, whatever becomes of the sites in it.
pub proof fn law_sync_drops_unnamed(
    r: RouterView,
    sites: Vec<SiteConfig>,
    endpoints: Vec<Option<SocketAddr>>,
    states: Seq<boringtun::noise::Tunn>,
    id: i64,
)
    requires
        sites@.len() == endpoints@.len(),
        !named(site_views(sites@)).contains(id),
    ensures
        !commanded(r, Command::Sync(sites, endpoints), states).router.has_site(id),
{
    let views = site_views(sites@);
    let kept = r.with_only(named(views));
    crate::olm::router::lemma_only_sites(r, named(views), id);
    lemma_unnamed_sites(joining(kept), views, endpoints@, states, views.len() as int, id);
}

proof fn lemma_unnamed_sites(
    j: JoinView,
    sites: Seq<SiteConfigView>,
    eps: Seq<Option<SocketAddr>>,
    states: Seq<boringtun::noise::Tunn>,
    n: int,
    id: i64,
)
    requires
        0 <= n <= sites.len(),
        !named(sites).contains(id),
        !j.router.has_site(id),
    ensures
        !with_sites(j, sites, eps, states, n).router.has_site(id),
    decreases n,
{
    if n > 0 {
        lemma_unnamed_sites(j, sites, eps, states, n - 1, id);
        let before = with_sites(j, sites, eps, states, n - 1);
        let site = sites[n - 1];
        assert(named(sites)[n - 1] == site.site_id);
        crate::olm::router::lemma_upserted_sites(
            before.router,
            site.site_id,
            public_key_of(site.public_key)->Ok_0,
            eps[n - 1]->0,
            ranges_of(site.destinations()),
            states[n - 1],
            id,
        );
    }
}

/// Each topic tells what its message is about, and no other topic tells anything.
pub proof fn law_topics_tell_the_kind(typ: Seq<char>)
    ensures
        kind_of_topic("olm/wg/connect"@) == Kind::Connect,
        kind_of_topic("olm/wg/peer/add"@) == Kind::Upsert,
        kind_of_topic("olm/wg/peer/update"@) == Kind::Upsert,
        kind_of_topic("olm/wg/peer/remove"@) == Kind::Remove,
        kind_of_topic("olm/wg/peer/relay"@) == Kind::Relay,
        kind_of_topic("olm/wg/peer/unrelay"@) == Kind::Unrelay,
        kind_of_topic("olm/wg/peer/data/add"@) == Kind::DataAdd,
        kind_of_topic("olm/wg/peer/data/remove"@) == Kind::DataRemove,
        kind_of_topic("olm/sync"@) == Kind::Sync,
        kind_of_topic("olm/error"@) == Kind::Error,
        kind_of_topic("olm/terminate"@) == Kind::Terminate,
        typ != "olm/wg/connect"@ && typ != "olm/wg/peer/add"@ && typ != "olm/wg/peer/update"@ && typ != "olm/wg/peer/remove"@ && typ != "olm/wg/peer/relay"@ && typ != "olm/wg/peer/unrelay"@ && typ != "olm/wg/peer/data/add"@ && typ != "olm/wg/peer/data/remove"@ && typ != "olm/sync"@ && typ != "olm/error"@ && typ != "olm/terminate"@ ==> kind_of_topic(typ) == Kind::Other,
{
    reveal_strlit("olm/wg/connect");
    reveal_strlit("olm/wg/peer/add");
    reveal_strlit("olm/wg/peer/update");
    reveal_strlit("olm/wg/peer/remove");
    reveal_strlit("olm/wg/peer/relay");
    reveal_strlit("olm/wg/peer/unrelay");
    reveal_strlit("olm/wg/peer/data/add");
    reveal_strlit("olm/wg/peer/data/remove");
    reveal_strlit("olm/sync");
    reveal_strlit("olm/error");
    reveal_strlit("olm/terminate");
    assert("olm/wg/connect"@.len() == 14 && "olm/wg/peer/add"@.len() == 15 && "olm/wg/peer/update"@.len() == 18 && "olm/wg/peer/remove"@.len() == 18 && "olm/wg/peer/relay"@.len() == 17 && "olm/wg/peer/unrelay"@.len() == 19 && "olm/wg/peer/data/add"@.len() == 20 && "olm/wg/peer/data/remove"@.len() == 23 && "olm/sync"@.len() == 8 && "olm/error"@.len() == 9 && "olm/terminate"@.len() == 13);
    assert("olm/wg/peer/update"@[12] != "olm/wg/peer/remove"@[12]);
}

/// A message calls for what its topic says, with the data that came with it; one whose data
/// is not that of its topic calls for nothing, and the session ends on "olm/terminate" alone.
pub proof fn law_messages_call_for_their_change(
    typ: Seq<char>,
    sites: Vec<SiteConfig>,
    endpoints: Vec<Option<SocketAddr>>,
    id: i64,
    endpoint: Option<SocketAddr>,
    subnets: Vec<String>,
    payload: Payload,
)
    ensures
        step_for(kind_of_topic("olm/wg/connect"@), Payload::Sites(sites, endpoints))
            == ClientStep::Connect(sites, endpoints),
        step_for(kind_of_topic("olm/wg/peer/add"@), Payload::Sites(sites, endpoints))
            == ClientStep::Change(Command::Sites(sites, endpoints)),
        step_for(kind_of_topic("olm/wg/peer/update"@), Payload::Sites(sites, endpoints))
            == ClientStep::Change(Command::Sites(sites, endpoints)),
        step_for(kind_of_topic("olm/sync"@), Payload::Sites(sites, endpoints))
            == ClientStep::Change(Command::Sync(sites, endpoints)),
        step_for(kind_of_topic("olm/wg/peer/remove"@), Payload::Site(id)) == ClientStep::Change(
            Command::Remove(id),
        ),
        step_for(kind_of_topic("olm/wg/peer/relay"@), Payload::Endpoint(id, endpoint))
            == ClientStep::Change(Command::Endpoint(id, endpoint)),
        step_for(kind_of_topic("olm/wg/peer/unrelay"@), Payload::Endpoint(id, endpoint))
            == ClientStep::Change(Command::Endpoint(id, endpoint)),
        step_for(kind_of_topic("olm/wg/peer/data/add"@), Payload::Subnets(id, subnets))
            == ClientStep::Change(Command::AddSubnets(id, subnets)),
        step_for(kind_of_topic("olm/wg/peer/data/remove"@), Payload::Subnets(id, subnets))
            == ClientStep::Change(Command::RemoveSubnets(id, subnets)),
        step_for(kind_of_topic("olm/terminate"@), payload) == ClientStep::End,
        step_for(kind_of_topic("olm/error"@), payload) == ClientStep::Nothing,
        typ != "olm/terminate"@ ==> step_for(kind_of_topic(typ), payload) != ClientStep::End
            && step_for(kind_of_topic(typ), Payload::Unread) == ClientStep::Nothing,
        step_for(kind_of_topic(typ), payload) is Connect ==> typ == "olm/wg/connect"@
            && payload is Sites,
{
    law_topics_tell_the_kind(typ);
}

/// A client registers under "olm/wg/register", with its key, its version, its organisation
/// and its user's token, as one that can be relayed.
pub proof fn law_registration_tells_the_client(
    key: Seq<char>,
    version: Seq<char>,
    org_id: Seq<char>,
    user_token: Seq<char>,
)
    ensures
        ({
            let r = registration(key, version, org_id, user_token);
            let m = r.data->Object_0;
            &&& r.typ == "olm/wg/register"@
            &&& r.config_version is None
            &&& r.data is Object && m.dom() == set![
                "publicKey"@,
                "relay"@,
                "olmVersion"@,
                "olmAgent"@,
                "orgId"@,
                "userToken"@,
                "fingerprint"@,
                "postures"@,
            ]
            &&& m["publicKey"@] == JsonView::Text(key)
            &&& m["relay"@] == JsonView::Bool(true)
            &&& m["olmVersion"@] == JsonView::Text(version)
            &&& m["olmAgent"@] == JsonView::Text("newt-rust"@)
            &&& m["orgId"@] == JsonView::Text(org_id)
            &&& m["userToken"@] == JsonView::Text(user_token)
            &&& m["fingerprint"@] == JsonView::Object(Map::empty())
            &&& m["postures"@] == JsonView::Object(Map::empty())
        }),
{
    reveal_strlit("publicKey");
    reveal_strlit("relay");
    reveal_strlit("olmVersion");
    reveal_strlit("olmAgent");
    reveal_strlit("orgId");
    reveal_strlit("userToken");
    reveal_strlit("fingerprint");
    reveal_strlit("postures");
    assert("publicKey"@.len() == 9 && "relay"@.len() == 5 && "olmVersion"@.len() == 10
        && "olmAgent"@.len() == 8 && "orgId"@.len() == 5 && "userToken"@.len() == 9
        && "fingerprint"@.len() == 11 && "postures"@.len() == 8);
    assert("publicKey"@[0] != "userToken"@[0]);
    assert("relay"@[0] != "orgId"@[0]);
    assert("olmAgent"@[0] != "postures"@[0]);
    assert(registration(key, version, org_id, user_token).data->Object_0.dom() =~= set![
        "publicKey"@,
        "relay"@,
        "olmVersion"@,
        "olmAgent"@,
        "orgId"@,
        "userToken"@,
        "fingerprint"@,
        "postures"@,
    ]);
}

/// An exit node is read from the host of its endpoint, its key and its relay port, which is
/// 21820 where none is given; without a host or a key there is none.
pub proof fn law_exit_node_is_read(
    m: Map<Seq<char>, JsonView>,
    host: Seq<char>,
    port: Seq<char>,
    key: Seq<char>,
    relay_port: u16,
)
    requires
        m.dom().contains("endpoint"@),
        m["endpoint"@] == JsonView::Text(host + seq![':'] + port) || (!host.contains(':')
            && m["endpoint"@] == JsonView::Text(host)),
        !port.contains(':'),
        m.dom().contains("publicKey"@),
        m["publicKey"@] == JsonView::Text(key),
        host.len() > 0,
        key.len() > 0,
    ensures
        relay_of(JsonView::Object(m)) is Some,
        ({
            let n = relay_of(JsonView::Object(m))->0;
            &&& n.host == host
            &&& n.server_pub == key
            &&& m.dom().contains("relayPort"@) && m["relayPort"@] == JsonView::Int(relay_port as int)
                && relay_port > 0 ==> n.relay_port == relay_port
            &&& !m.dom().contains("relayPort"@) || m["relayPort"@] is Null || m["relayPort"@]
                == JsonView::Int(0) ==> n.relay_port == 21820
        }),
        relay_of(JsonView::Object(m.remove("publicKey"@))) is None,
        relay_of(JsonView::Object(m.insert("publicKey"@, JsonView::Text(Seq::empty())))) is None,
        relay_of(JsonView::Object(m.remove("endpoint"@))) is None,
{
    reveal_strlit("endpoint");
    reveal_strlit("publicKey");
    crate::text::law_split_at_a_separator(host, ':', port);
    crate::text::law_split_at_a_separator(Seq::empty(), ':', port);
    assert("endpoint"@.len() != "publicKey"@.len());
    let bare = JsonView::Object(m.remove("endpoint"@));
    assert(text_member(bare, "endpoint"@) =~= Seq::empty());
}

/// The exit nodes of a response are the entries of its `exitNodes` that read as one, in
/// their order.
pub proof fn law_exit_nodes_keep_their_order(
    m: Map<Seq<char>, JsonView>,
    a: Seq<JsonView>,
    b: Seq<JsonView>,
    x: JsonView,
)
    ensures
        relays_of(a + b) == relays_of(a) + relays_of(b),
        relays_of(seq![x]) == match relay_of(x) {
            Some(n) => seq![n],
            None => seq![],
        },
        m.dom().contains("exitNodes"@) && m["exitNodes"@] == JsonView::List(a) ==> exit_nodes_in(
            JsonView::Object(m),
        ) == relays_of(a),
        !m.dom().contains("exitNodes"@) ==> exit_nodes_in(JsonView::Object(m)).len() == 0,
    decreases b.len(),
{
    reveal_with_fuel(relays_of, 2);
    assert(seq![x].drop_last() =~= Seq::empty());
    if b.len() == 0 {
        assert(a + b =~= a);
        assert(relays_of(a) + relays_of(b) =~= relays_of(a));
    } else {
        law_exit_nodes_keep_their_order(m, a, b.drop_last(), x);
        assert((a + b).drop_last() =~= a + b.drop_last());
        assert(relays_of(a + b) =~= relays_of(a) + relays_of(b));
    }
}

/// The ranges of some texts are those that read as one, in their order.
pub proof fn law_ranges_keep_their_order(a: Seq<Seq<char>>, b: Seq<Seq<char>>, s: Seq<char>)
    ensures
        ranges_of(a + b) == ranges_of(a) + ranges_of(b),
        ranges_of(seq![s]) == match cidr_of(s) {
            Some(c) => seq![c],
            None => seq![],
        },
    decreases b.len(),
{
    reveal_with_fuel(ranges_of, 2);
    assert(seq![s].drop_last() =~= Seq::empty());
    if b.len() == 0 {
        assert(a + b =~= a);
        assert(ranges_of(a) + ranges_of(b) =~= ranges_of(a));
    } else {
        law_ranges_keep_their_order(a, b.drop_last(), s);
        assert((a + b).drop_last() =~= a + b.drop_last());
        assert(ranges_of(a + b) =~= ranges_of(a) + ranges_of(b));
    }
}

/// A site with a key and a known endpoint becomes the last peer, reached at that endpoint
/// and with its remote subnets and its allowed addresses routed to it, and is greeted
/// there; a site without a key or an endpoint changes nothing, and one whose key is none
/// adds no peer.
pub proof fn law_site_becomes_a_peer(
    j: JoinView,
    site: SiteConfigView,
    ep: Option<SocketAddr>,
    state: boringtun::noise::Tunn,
)
    ensures
        ({
            let after = with_site(j, site, ep, state);
            let ranges = ranges_of(site.remote_subnets) + ranges_of(site.allowed_ips);
            let p = after.router.peers.last();
            &&& can_be_added(site, ep) ==> {
                &&& p.site_id == site.site_id && p.endpoint == ep->0 && p.cidrs == ranges
                &&& p.pump.tun.peer == public_key_of(site.public_key)->Ok_0
                &&& p.index == j.router.next_index
                &&& after.router.peers.drop_last() == j.router.peers.filter(
                    |q: PeerView| q.site_id != site.site_id,
                )
                &&& after.ranges == j.ranges + ranges
                &&& after.greeted.drop_last() == j.greeted
                &&& after.greeted.len() == j.greeted.len() + 1
                &&& after.greeted.last().index == p.index
                &&& after.greeted.last().endpoint == p.endpoint
                &&& after.greeted.last().state == p.pump.tun.state
            }
            &&& ep is None || site.public_key.len() == 0 ==> after == j
            &&& !can_be_added(site, ep) ==> after.router == j.router && after.greeted == j.greeted
        }),
{
    law_ranges_keep_their_order(site.remote_subnets, site.allowed_ips, seq![]);
    let after = with_site(j, site, ep, state);
    if can_be_added(site, ep) {
        crate::olm::router::law_new_peer_gets_the_next_index(
            j.router,
            site.site_id,
            public_key_of(site.public_key)->Ok_0,
            ep->0,
            ranges_of(site.destinations()),
            state,
        );
        assert(after.greeted.drop_last() =~= j.greeted);
    }
}

/// Sites are added one after another: each to what those before it left.
pub proof fn law_sites_are_added_in_turn(
    r: RouterView,
    sites: Seq<SiteConfigView>,
    eps: Seq<Option<SocketAddr>>,
    states: Seq<boringtun::noise::Tunn>,
    site: SiteConfigView,
    ep: Option<SocketAddr>,
    state: boringtun::noise::Tunn,
)
    requires
        sites.len() == eps.len(),
        sites.len() == states.len(),
    ensures
        with_all(r, seq![], seq![], seq![]) == (JoinView { router: r, ranges: seq![], greeted: seq![] }),
        with_all(r, sites.push(site), eps.push(ep), states.push(state)) == with_site(
            with_all(r, sites, eps, states),
            site,
            ep,
            state,
        ),
{
    lemma_sites_before(
        joining(r),
        sites,
        eps,
        states,
        sites.push(site),
        eps.push(ep),
        states.push(state),
        sites.len() as int,
    );
}

proof fn lemma_sites_before(
    j: JoinView,
    sites: Seq<SiteConfigView>,
    eps: Seq<Option<SocketAddr>>,
    states: Seq<boringtun::noise::Tunn>,
    sites2: Seq<SiteConfigView>,
    eps2: Seq<Option<SocketAddr>>,
    states2: Seq<boringtun::noise::Tunn>,
    n: int,
)
    requires
        forall|i: int|
            0 <= i < n ==> (#[trigger] sites[i]) == sites2[i] && eps[i] == eps2[i] && states[i]
                == states2[i],
    ensures
        with_sites(j, sites, eps, states, n) == with_sites(j, sites2, eps2, states2, n),
    decreases n,
{
    if n > 0 {
        assert(sites[n - 1] == sites2[n - 1] && eps[n - 1] == eps2[n - 1] && states[n - 1]
            == states2[n - 1]);
        lemma_sites_before(j, sites, eps, states, sites2, eps2, states2, n - 1);
        let before = with_sites(j, sites, eps, states, n - 1);
        assert(before == with_sites(j, sites2, eps2, states2, n - 1));
        assert(with_sites(j, sites, eps, states, n) == with_site(
            before,
            sites[n - 1],
            eps[n - 1],
            states[n - 1],
        ));
        assert(with_sites(j, sites2, eps2, states2, n) == with_site(
            before,
            sites2[n - 1],
            eps2[n - 1],
            states2[n - 1],
        ));
    }
}

/// A change to one site leaves every peer of another as it is. A new endpoint replaces the
/// old one; added subnets are routed behind those that were; removed ones no longer are;
/// and only added ones are to be routed anew. Nothing is greeted.
pub proof fn law_changes_concern_one_site(
    r: RouterView,
    id: i64,
    endpoint: SocketAddr,
    subnets: Vec<String>,
    states: Seq<boringtun::noise::Tunn>,
    i: int,
)
    requires
        0 <= i < r.peers.len(),
    ensures
        ({
            let p = r.peers[i];
            let moved = commanded(r, Command::Endpoint(id, Some(endpoint)), states);
            let more = commanded(r, Command::AddSubnets(id, subnets), states);
            let less = commanded(r, Command::RemoveSubnets(id, subnets), states);
            let gone = commanded(r, Command::Remove(id), states);
            let given = ranges_of(texts(subnets@));
            &&& commanded(r, Command::Endpoint(id, None), states) == (JoinView {
                router: r,
                ranges: seq![],
                greeted: seq![],
            })
            &&& p.site_id != id ==> moved.router.peers[i] == p && more.router.peers[i] == p
                && less.router.peers[i] == p && gone.router.peers.contains(p)
            &&& p.site_id == id ==> {
                &&& moved.router.peers[i] == (PeerView { endpoint, ..p })
                &&& more.router.peers[i] == (PeerView { cidrs: p.cidrs + given, ..p })
                &&& less.router.peers[i] == (PeerView {
                    cidrs: less.router.peers[i].cidrs,
                    ..p
                })
                &&& forall|c: CidrView|
                    less.router.peers[i].cidrs.contains(c) <==> #[trigger] p.cidrs.contains(c)
                        && !given.contains(c)
                &&& !gone.router.peers.contains(p)
            }
            &&& moved.router.peers.len() == r.peers.len()
            &&& more.router.peers.len() == r.peers.len()
            &&& less.router.peers.len() == r.peers.len()
            &&& moved.ranges.len() == 0 && less.ranges.len() == 0 && gone.ranges.len() == 0
            &&& more.ranges == given
            &&& moved.greeted.len() == 0 && more.greeted.len() == 0 && less.greeted.len() == 0
                && gone.greeted.len() == 0
        }),
{
    let p = r.peers[i];
    let given = ranges_of(texts(subnets@));
    let less = commanded(r, Command::RemoveSubnets(id, subnets), states);
    crate::olm::router::law_sites_are_removed_or_retained(r, seq![], id, i);
    if p.site_id == id {
        let keep = |c: CidrView| !given.contains(c);
        assert(less.router.peers[i].cidrs == p.cidrs.filter(keep));
        assert forall|c: CidrView|
            less.router.peers[i].cidrs.contains(c) <==> #[trigger] p.cidrs.contains(c)
                && !given.contains(c) by {
            let places = crate::olm::router::lemma_filter_places(p.cidrs, keep);
            let left = p.cidrs.filter(keep);
            if left.contains(c) {
                let k = choose|k: int| 0 <= k < left.len() && left[k] == c;
                assert(p.cidrs[places[k]] == c);
            }
            if p.cidrs.contains(c) {
                let k = choose|k: int| 0 <= k < p.cidrs.len() && p.cidrs[k] == c;
                crate::olm::router::lemma_filter_contains(p.cidrs, keep, k);
            }
        }
    }
}

/// Sites are added to the router as it is; a sync first takes out the peers that it does
/// not name.
pub proof fn law_sync_adds_to_what_it_names(
    r: RouterView,
    sites: Vec<SiteConfig>,
    endpoints: Vec<Option<SocketAddr>>,
    states: Seq<boringtun::noise::Tunn>,
)
    ensures
        commanded(r, Command::Sites(sites, endpoints), states) == with_all(
            r,
            site_views(sites@),
            endpoints@,
            states,
        ),
        (forall|i: int|
            0 <= i < r.peers.len() ==> named(site_views(sites@)).contains(
                (#[trigger] r.peers[i]).site_id,
            )) ==> commanded(r, Command::Sync(sites, endpoints), states) == commanded(
            r,
            Command::Sites(sites, endpoints),
            states,
        ),
        named(site_views(sites@)).len() == sites@.len(),
        forall|i: int|
            0 <= i < sites@.len() ==> #[trigger] named(site_views(sites@))[i] == sites@[i].site_id,
{
    let ids = named(site_views(sites@));
    if forall|i: int| 0 <= i < r.peers.len() ==> ids.contains((#[trigger] r.peers[i]).site_id) {
        crate::olm::router::lemma_filter_all(r.peers, |p: PeerView| ids.contains(p.site_id));
        assert(r.with_only(ids) == r);
    }
}

/// Each greeting that is sent is one of its peer's own, at its endpoint.
pub proof fn law_greetings_go_to_their_peers(
    inits: Seq<(Seq<u8>, SocketAddr)>,
    greeted: Seq<Greeting>,
    i: int,
)
    requires
        greets(inits, greeted),
        0 <= i < greeted.len(),
    ensures
        inits.len() == greeted.len(),
        inits[i].1 == greeted[i].endpoint,
        is_greeting(inits[i].0, greeted[i].index, greeted[i].state),
{
}

/// What a change is said to do is what it did: the router, the ranges to route, and one
/// greeting for each peer that is greeted.
pub proof fn law_changes_are_done_as_said(j: JoinView, router: RouterView, r: Joined, i: int)
    requires
        joins(j, router, r),
        0 <= i < r.ranges@.len(),
    ensures
        router == j.router,
        r.ranges@.len() == j.ranges.len(),
        r.ranges@[i]@ == j.ranges[i],
        r.inits@.len() == j.greeted.len(),
{
    assert(cidr_views(r.ranges@)[i] == r.ranges@[i]@);
    assert(datagram_views(r.inits@).len() == r.inits@.len());
}

/// A router for a new connection has our key and packet size and no peer, and its first
/// peer gets the index one.
pub proof fn law_new_router_is_empty(
    secret: Seq<u8>,
    mtu: usize,
    site: SiteConfigView,
    ep: SocketAddr,
    state: boringtun::noise::Tunn,
)
    requires
        can_be_added(site, Some(ep)),
    ensures
        empty_router(secret, mtu).peers.len() == 0,
        empty_router(secret, mtu).secret == secret,
        empty_router(secret, mtu).mtu == mtu,
        ({
            let j = with_site(joining(empty_router(secret, mtu)), site, Some(ep), state);
            &&& j.router.peers.last().index == 1
            &&& j.router.next_index == 2
            &&& j.greeted.len() == 1 && j.greeted[0].index == 1 && j.greeted[0].endpoint == ep
        }),
{
    law_site_becomes_a_peer(joining(empty_router(secret, mtu)), site, Some(ep), state);
}

} // verus!
