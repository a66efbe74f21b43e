//! The site's data plane without its sockets: reading the tunnel parameters, the
//! listeners and their promotion, inbound datagrams and the keepalive ping.
use crate::bytes::{be16, push_all, push_be16};
use crate::net::{ipv4_of, opt_ip, parse_ipv4, IpAddr, IpView};
use crate::netstack::{DeviceView, VirtualDevice};
use crate::proto::{topic, ExitNodeData, WgData};
use crate::sm::Event;
use crate::target::{opt_view, port_of, target_of, Target, TargetView};
use crate::text::{decimal, decimal_text, join3, parse_u16, rsplit_once, rsplit_once_at, same, texts};
use crate::wg::{
    encapsulated, inbound_views, initiated, is_greeting, network_of, opened_pump, opt_bytes,
    public_from_b64, public_key_of, received, received_results, sealable, timed, tunn_starts,
    Inbound, InboundView, OutcomeView, Pump, PumpView, StaticSecret, TunnView,
};
use vstd::prelude::*;
use vstd::string::*;

verus! {

// ---------------------------------------------------------------------------
// Control messages
// ---------------------------------------------------------------------------
/// The event of a control message by its topic. `exit_nodes` and `wg` are what its data
/// reads as under the topics that carry them; a message whose data does not read so,
/// or with another topic, gives none.
pub open spec fn event_of(
    typ: Seq<char>,
    exit_nodes: Option<ExitNodeData>,
    wg: Option<WgData>,
) -> Option<Event> {
    if typ == topic::PING_EXIT_NODES@ {
        match exit_nodes {
            Some(d) => Some(Event::ExitNodes(d)),
            None => None,
        }
    } else if typ == topic::WG_CONNECT@ {
        match wg {
            Some(d) => Some(Event::WgConnect(d)),
            None => None,
        }
    } else if typ == topic::WG_RECONNECT@ {
        Some(Event::Reconnect)
    } else if typ == topic::WG_TERMINATE@ {
        Some(Event::Terminate)
    } else {
        None
    }
}

/// The event of a control message.
pub fn to_event(typ: &str, exit_nodes: Option<ExitNodeData>, wg: Option<WgData>) -> (r: Option<
    Event,
>)
    ensures
        r == event_of(typ@, exit_nodes, wg),
{
    if same(typ, topic::PING_EXIT_NODES) {
        match exit_nodes {
            Some(d) => Some(Event::ExitNodes(d)),
            None => None,
        }
    } else if same(typ, topic::WG_CONNECT) {
        match wg {
            Some(d) => Some(Event::WgConnect(d)),
            None => None,
        }
    } else if same(typ, topic::WG_RECONNECT) {
        Some(Event::Reconnect)
    } else if same(typ, topic::WG_TERMINATE) {
        Some(Event::Terminate)
    } else {
        None
    }
}

// ---------------------------------------------------------------------------
// Tunnel parameters
// ---------------------------------------------------------------------------
/// What `smoltcp` reads in a text as an IP address.
pub uninterp spec fn smol_ip(s: Seq<char>) -> Option<IpView>;

/// `smoltcp::wire::IpAddress`'s `FromStr`. What is four decimal octets between dots is
/// read as that address.
#[verifier::external_body]
fn smol_parse(s: &str) -> (r: Option<IpAddr>)
    ensures
        opt_ip(r) == smol_ip(s@),
        ipv4_of(s@) is Some ==> opt_ip(r) == Some(IpView::V4(ipv4_of(s@)->0)),
{
    match s.parse::<smoltcp::wire::IpAddress>() {
        Ok(smoltcp::wire::IpAddress::Ipv4(a)) => Some(IpAddr::V4(a.octets())),
        Ok(smoltcp::wire::IpAddress::Ipv6(a)) => Some(IpAddr::V6(a.octets())),
        Err(_) => None,
    }
}

/// The host and port of the WireGuard endpoint: what stands before and after the last
/// colon.
pub open spec fn endpoint_of(endpoint: Seq<char>) -> Option<(Seq<char>, u16)> {
    match rsplit_once_at(endpoint, ':') {
        Some((h, p)) => match port_of(p) {
            Some(port) => Some((h, port)),
            None => None,
        },
        None => None,
    }
}

/// Splits the exit node's endpoint, host:listenPort.
pub fn endpoint_parts(endpoint: &str) -> (r: Result<(String, u16), String>)
    ensures
        match r {
            Ok((h, p)) => endpoint_of(endpoint@) == Some((h@, p)),
            Err(e) => endpoint_of(endpoint@) is None && e@ == "bad endpoint"@,
        },
{
    match rsplit_once(endpoint, ':') {
        Some((h, p)) => match parse_u16(p.as_str()) {
            Some(port) => Ok((h, port)),
            None => Err("bad endpoint".to_owned()),
        },
        None => Err("bad endpoint".to_owned()),
    }
}

/// Reads the address that the stack gets.
fn stack_address(tunnel_ip: &str) -> (r: Result<IpAddr, String>)
    ensures
        match r {
            Ok(ip) => smol_ip(tunnel_ip@) == Some(ip@),
            Err(e) => smol_ip(tunnel_ip@) is None && e@ == "bad tunnelIP"@,
        },
        ipv4_of(tunnel_ip@) is Some ==> r is Ok && r->Ok_0@ == IpView::V4(ipv4_of(tunnel_ip@)->0),
{
    match smol_parse(tunnel_ip) {
        Some(ip) => Ok(ip),
        None => Err("bad tunnelIP".to_owned()),
    }
}

/// Reads the addresses of the keepalive ping: the exit node's tunnel address and ours,
/// both of version 4.
fn ping_addresses(server_ip: &str, tunnel_ip: &str) -> (r: Result<([u8; 4], [u8; 4]), String>)
    ensures
        match r {
            Ok((server, tunnel)) => ipv4_of(server_ip@) == Some(server@) && ipv4_of(tunnel_ip@)
                == Some(tunnel@),
            Err(e) => if ipv4_of(server_ip@) is None {
                e@ == "bad serverIP"@
            } else {
                ipv4_of(tunnel_ip@) is None && e@ == "bad tunnelIP"@
            },
        },
{
    match parse_ipv4(server_ip) {
        Some(server) => match parse_ipv4(tunnel_ip) {
            Some(tunnel) => Ok((server, tunnel)),
            None => Err("bad tunnelIP".to_owned()),
        },
        None => Err("bad serverIP".to_owned()),
    }
}

// ---------------------------------------------------------------------------
// Listeners
// ---------------------------------------------------------------------------
/// Where to listen in the tunnel, and the local target of what is accepted there.
#[derive(Debug)]
pub struct Service {
    pub port: u16,
    pub target: String,
}

/// The content of a [`Service`].
pub struct ServiceView {
    pub port: u16,
    pub target: Seq<char>,
}

impl View for Service {
    type V = ServiceView;

    open spec fn view(&self) -> ServiceView {
        ServiceView { port: self.port, target: self.target@ }
    }
}

/// The service of a target: its listen port, and "host:port" to connect to.
pub open spec fn service_of(t: TargetView) -> ServiceView {
    ServiceView { port: t.listen_port, target: t.host + ":"@ + decimal(t.target_port as nat) }
}

/// The services of the targets that read as such, in order.
pub open spec fn services_of(targets: Seq<Seq<char>>) -> Seq<ServiceView>
    decreases targets.len(),
{
    if targets.len() == 0 {
        seq![]
    } else {
        let rest = services_of(targets.drop_last());
        match target_of(targets.last()) {
            Some(t) => rest.push(service_of(t)),
            None => rest,
        }
    }
}

/// The contents of some services.
pub open spec fn service_views(s: Seq<Service>) -> Seq<ServiceView> {
    s.map_values(|x: Service| x@)
}

/// The services to listen for, one per TCP target that reads as such.
pub fn services(targets: &Vec<String>) -> (r: Vec<Service>)
    ensures
        service_views(r@) == services_of(texts(targets@)),
{
    let mut r: Vec<Service> = Vec::new();
    let ghost all = texts(targets@);
    for i in 0..targets.len()
        invariant
            all == texts(targets@),
            service_views(r@) == services_of(all.take(i as int)),
    {
        assert(all.take(i + 1).drop_last() =~= all.take(i as int));
        assert(all.take(i + 1).last() == targets@[i as int]@);
        match Target::parse(targets[i].as_str()) {
            Some(t) => {
                let digits = decimal_text(t.target_port as u64);
                let target = join3(t.host.as_str(), ":", digits.as_str());
                let s = Service { port: t.listen_port, target };
                let ghost before = r@;
                let ghost view = s@;
                r.push(s);
                assert(service_views(r@) =~= service_views(before).push(view));
            },
            None => {},
        }
    }
    assert(all.take(all.len() as int) =~= all);
    r
}

/// A pump for the exit node with this public key, and the handshake initiation to send
/// at once; the timers retransmit it if it is lost.
pub fn open_pump(secret: StaticSecret, public_key: &str, mtu: usize) -> (r: Result<
    (Pump, Vec<u8>),
    String,
>)
    requires
        sealable(mtu as int),
    ensures
        match (public_key_of(public_key@), r) {
            (Ok(key), Ok((pump, init))) => {
                &&& pump@ == opened_pump(secret.bytes@, key, mtu, 0, pump@.tun.state)
                &&& pump@.wf()
                &&& is_greeting(init@, 0, pump@.tun.state)
            },
            (Err(e), Err(text)) => text@ == e,
            _ => false,
        },
{
    match public_from_b64(public_key) {
        Ok(peer) => {
            let mut pump = Pump::new(secret, peer, mtu);
            let ghost fresh = pump@;
            let init = pump.initiate_handshake();
            let ghost o = choose|o: OutcomeView|
                #[trigger] initiated(fresh.tun, o, pump@.tun) && opt_bytes(init) == network_of(o);
            match init {
                Some(b) => {
                    assert(tunn_starts(fresh.tun.state, OutcomeView::Network(b@), pump@.tun.state));
                    Ok((pump, b))
                },
                None => Err("".to_owned()),
            }
        },
        Err(e) => Err(e),
    }
}

/// The addresses of a tunnel, and the services behind it.
pub struct Setup {
    /// The address of the stack.
    pub ip: IpAddr,
    /// The exit node's tunnel IP, pinged to keep the site online.
    pub server_ip: [u8; 4],
    /// Our tunnel IP, the source of the ping.
    pub tunnel_ip: [u8; 4],
    pub services: Vec<Service>,
}

/// What is wrong with the addresses of a tunnel, if anything: the address of the stack
/// comes first, then that of the exit node, then ours as a ping source.
pub open spec fn setup_error(tunnel_ip: Seq<char>, server_ip: Seq<char>) -> Option<Seq<char>> {
    if smol_ip(tunnel_ip) is None {
        Some("bad tunnelIP"@)
    } else if ipv4_of(server_ip) is None {
        Some("bad serverIP"@)
    } else if ipv4_of(tunnel_ip) is None {
        Some("bad tunnelIP"@)
    } else {
        None
    }
}

/// Reads the addresses and the targets of a tunnel.
pub fn setup(wg: &WgData) -> (r: Result<Setup, String>)
    ensures
        match r {
            Ok(s) => {
                &&& setup_error(wg.tunnel_ip@, wg.server_ip@) is None
                &&& s.ip@ == IpView::V4(s.tunnel_ip@)
                &&& ipv4_of(wg.tunnel_ip@) == Some(s.tunnel_ip@)
                &&& ipv4_of(wg.server_ip@) == Some(s.server_ip@)
                &&& service_views(s.services@) == services_of(texts(wg.targets.tcp@))
            },
            Err(e) => setup_error(wg.tunnel_ip@, wg.server_ip@) == Some(e@),
        },
        ipv4_of(wg.tunnel_ip@) is Some && ipv4_of(wg.server_ip@) is Some ==> r is Ok,
{
    let ip = match stack_address(wg.tunnel_ip.as_str()) {
        Ok(ip) => ip,
        Err(e) => {
            return Err(e);
        },
    };
    match ping_addresses(wg.server_ip.as_str(), wg.tunnel_ip.as_str()) {
        Ok((server_ip, tunnel_ip)) => Ok(
            Setup { ip, server_ip, tunnel_ip, services: services(&wg.targets.tcp) },
        ),
        Err(e) => Err(e),
    }
}

/// A listening socket for a service.
#[derive(Debug)]
pub struct Listener<H> {
    pub port: u16,
    pub target: String,
    pub handle: H,
}

/// A listener of its service.
pub struct ListenerView<H> {
    pub service: ServiceView,
    pub handle: H,
}

impl<H> View for Listener<H> {
    type V = ListenerView<H>;

    open spec fn view(&self) -> ListenerView<H> {
        ListenerView {
            service: ServiceView { port: self.port, target: self.target@ },
            handle: self.handle,
        }
    }
}

/// The contents of some listeners.
pub open spec fn listener_views<H>(ls: Seq<Listener<H>>) -> Seq<ListenerView<H>> {
    ls.map_values(|l: Listener<H>| l@)
}

/// `ls` without the listener at `i`, its place taken by the last one, and with a fresh
/// listener for the same service at the end.
pub open spec fn replaced<H>(ls: Seq<ListenerView<H>>, i: int, fresh: H) -> Seq<ListenerView<H>> {
    ls.update(i, ls.last()).drop_last().push(
        ListenerView { service: ls[i].service, handle: fresh },
    )
}

/// The listeners that are active are replaced, from the last to the first, with the
/// handles of `fresh` in that order. `n` listeners are still to be looked at.
pub open spec fn promoted<H>(
    ls: Seq<ListenerView<H>>,
    active: Seq<bool>,
    n: int,
    fresh: Seq<H>,
) -> Seq<ListenerView<H>>
    decreases n,
{
    if n <= 0 {
        ls
    } else if active[n - 1] {
        promoted(replaced(ls, n - 1, fresh[0]), active, n - 1, fresh.drop_first())
    } else {
        promoted(ls, active, n - 1, fresh)
    }
}

/// The listeners among the first `n` that are active, from the last to the first.
pub open spec fn ready<H>(ls: Seq<ListenerView<H>>, active: Seq<bool>, n: int) -> Seq<
    ListenerView<H>,
>
    decreases n,
{
    if n <= 0 {
        seq![]
    } else if active[n - 1] {
        seq![ls[n - 1]] + ready(ls, active, n - 1)
    } else {
        ready(ls, active, n - 1)
    }
}

/// The ports to open fresh listening sockets on, for the listeners that have become
/// active, in the order in which [`promote`] takes their handles.
pub fn ports_to_reopen<H>(ls: &Vec<Listener<H>>, active: &Vec<bool>) -> (r: Vec<u16>)
    requires
        ls@.len() == active@.len(),
    ensures
        r@ == ready(listener_views(ls@), active@, ls@.len() as int).map_values(
            |l: ListenerView<H>| l.service.port,
        ),
{
    let mut r: Vec<u16> = Vec::new();
    let ghost views = listener_views(ls@);
    let ghost port = |l: ListenerView<H>| l.service.port;
    let n: usize = ls.len();
    let mut i: usize = n;
    while i > 0
        invariant
            i <= n,
            n == ls@.len(),
            n == active@.len(),
            views == listener_views(ls@),
            port == (|l: ListenerView<H>| l.service.port),
            r@ + ready(views, active@, i as int).map_values(port) == ready(
                views,
                active@,
                n as int,
            ).map_values(port),
        decreases i,
    {
        let ghost before = r@;
        let ghost rest = ready(views, active@, i - 1);
        i -= 1;
        if active[i] {
            r.push(ls[i].port);
            assert((seq![views[i as int]] + rest).map_values(port) =~= seq![views[i as int].service.port]
                + rest.map_values(port));
            assert(r@ + rest.map_values(port) =~= before + (seq![views[i as int].service.port]
                + rest.map_values(port)));
        }
    }
    assert(r@ + Seq::<u16>::empty() =~= r@);
    assert(ready(views, active@, 0).map_values(port) =~= Seq::empty());
    r
}

/// Promotes the listeners that have become active. The listening socket BECOMES the
/// connection socket; its entry is replaced with a fresh listening socket on the same
/// port, so that there stays exactly one entry per service. Returns the promoted
/// listeners, from the last to the first, which keeps the places of those before.
pub fn promote<H: Copy>(ls: &mut Vec<Listener<H>>, active: &Vec<bool>, fresh: &Vec<H>) -> (r: Vec<
    Listener<H>,
>)
    requires
        old(ls)@.len() == active@.len(),
        fresh@.len() == ready(listener_views(old(ls)@), active@, active@.len() as int).len(),
    ensures
        listener_views(final(ls)@) == promoted(
            listener_views(old(ls)@),
            active@,
            active@.len() as int,
            fresh@,
        ),
        listener_views(r@) == ready(listener_views(old(ls)@), active@, active@.len() as int),
{
    let mut r: Vec<Listener<H>> = Vec::new();
    let ghost views = listener_views(ls@);
    let n: usize = ls.len();
    let mut i: usize = n;
    let mut used: usize = 0;
    let total: usize = fresh.len();
    assert(fresh@.skip(0) =~= fresh@);
    while i > 0
        invariant
            i <= n,
            n == ls@.len(),
            n == active@.len(),
            n == views.len(),
            used <= total,
            total == fresh@.len(),
            total - used == ready(views, active@, i as int).len(),
            forall|j: int| 0 <= j < i ==> #[trigger] listener_views(ls@)[j] == views[j],
            promoted(listener_views(ls@), active@, i as int, fresh@.skip(used as int)) == promoted(
                views,
                active@,
                n as int,
                fresh@,
            ),
            listener_views(r@) + ready(views, active@, i as int) == ready(views, active@, n as int),
        decreases i,
    {
        let ghost before = listener_views(ls@);
        let ghost done = listener_views(r@);
        let ghost rest = ready(views, active@, i - 1);
        i -= 1;
        if active[i] {
            let handle = fresh[used];
            let l = ls.swap_remove(i);
            let ghost view = l@;
            assert(view == before[i as int]);
            let renewed = Listener { port: l.port, target: l.target.clone(), handle };
            ls.push(renewed);
            assert(listener_views(ls@) =~= replaced(before, i as int, handle));
            assert(fresh@.skip(used as int).drop_first() =~= fresh@.skip(used + 1));
            used += 1;
            r.push(l);
            assert(listener_views(r@) =~= done.push(view));
            assert(done.push(view) + rest =~= done + (seq![views[i as int]] + rest));
        }
    }
    assert(listener_views(r@) + ready(views, active@, 0) =~= listener_views(r@));
    r
}

// ---------------------------------------------------------------------------
// Inbound datagrams
// ---------------------------------------------------------------------------
/// The packets among some results, in order.
pub open spec fn packets_in(r: Seq<InboundView>) -> Seq<Seq<u8>>
    decreases r.len(),
{
    if r.len() == 0 {
        seq![]
    } else {
        match r.last() {
            InboundView::Packet(p) => packets_in(r.drop_last()).push(p),
            _ => packets_in(r.drop_last()),
        }
    }
}

/// The datagrams among some results, in order.
pub open spec fn datagrams_in(r: Seq<InboundView>) -> Seq<Seq<u8>>
    decreases r.len(),
{
    if r.len() == 0 {
        seq![]
    } else {
        match r.last() {
            InboundView::Network(b) => datagrams_in(r.drop_last()).push(b),
            _ => datagrams_in(r.drop_last()),
        }
    }
}

/// The contents of some byte strings.
pub open spec fn byte_views(s: Seq<Vec<u8>>) -> Seq<Seq<u8>> {
    s.map_values(|x: Vec<u8>| x@)
}

/// Decrypts an inbound datagram: packets go to the device, and the datagrams that must
/// be sent back are returned.
fn take_datagram(pump: &mut Pump, device: &mut VirtualDevice, datagram: &[u8]) -> (r: Vec<
    Vec<u8>,
>)
    requires
        old(pump)@.wf(),
    ensures
        final(pump)@.wf(),
        final(pump)@ == old(pump)@.with(final(pump)@.tun),
        exists|o: OutcomeView, mid: TunnView, outs: Seq<Seq<u8>>|
            #[trigger] received(old(pump)@, datagram@, o, mid, outs, final(pump)@.tun)
                && byte_views(r@) == datagrams_in(received_results(o, outs)) && final(device)@ == (
            DeviceView {
                rx: old(device)@.rx + packets_in(received_results(o, outs)),
                ..old(device)@
            }),
{
    let mut r: Vec<Vec<u8>> = Vec::new();
    let mut results = pump.receive(datagram);
    let ghost (o, mid, outs) = choose|o: OutcomeView, mid: TunnView, outs: Seq<Seq<u8>>|
        #[trigger] received(old(pump)@, datagram@, o, mid, outs, pump@.tun) && inbound_views(
            results@,
        ) == received_results(o, outs);
    let ghost total = results@;
    let ghost all = inbound_views(total);
    let n: usize = results.len();
    assert(old(device)@.rx + packets_in(all.take(0)) =~= old(device)@.rx);
    for k in 0..n
        invariant
            n == total.len(),
            all == inbound_views(total),
            results@ == total.skip(k as int),
            byte_views(r@) == datagrams_in(all.take(k as int)),
            device@ == (DeviceView {
                rx: old(device)@.rx + packets_in(all.take(k as int)),
                ..old(device)@
            }),
    {
        let one = results.remove(0);
        assert(one@ == all[k as int]);
        assert(all.take(k + 1).drop_last() =~= all.take(k as int));
        let ghost before = r@;
        match one {
            Inbound::Packet(p) => {
                device.deliver(p);
                assert(device@.rx =~= old(device)@.rx + packets_in(all.take(k + 1)));
            },
            Inbound::Network(b) => {
                r.push(b);
                assert(byte_views(r@) =~= byte_views(before).push(b@));
            },
            Inbound::Nothing => {},
        }
    }
    assert(all.take(n as int) =~= all);
    assert(received(old(pump)@, datagram@, o, mid, outs, pump@.tun));
    r
}

// ---------------------------------------------------------------------------
// Keepalive ping
// ---------------------------------------------------------------------------
/// The sum of the 16-bit words of `data`, a last odd byte being the high half of one.
pub open spec fn word_sum(data: Seq<u8>) -> nat
    decreases data.len(),
{
    if data.len() == 0 {
        0
    } else if data.len() == 1 {
        256 * data[0] as nat
    } else {
        (256 * data[0] + data[1]) as nat + word_sum(data.skip(2))
    }
}

/// A sum in 16-bit ones' complement arithmetic, where the carry is added back.
pub open spec fn ones_sum(n: nat) -> nat {
    if n == 0 {
        0
    } else {
        (n - 1) as nat % 65535 + 1
    }
}

/// Internet checksum (RFC 1071).
pub open spec fn checksum_of(data: Seq<u8>) -> u16 {
    (65535 - ones_sum(word_sum(data))) as u16
}

/// Adding the carry back keeps the ones' complement sum.
proof fn lemma_fold(n: nat)
    requires
        n > 65535,
    ensures
        ones_sum(n % 65536 + n / 65536) == ones_sum(n),
        n % 65536 + n / 65536 < n,
{
    let m = n % 65536 + n / 65536;
    assert(n == 65536 * (n / 65536) + n % 65536);
    assert(m > 0);
    let q = n / 65536;
    assert(n - 1 == (m - 1) + 65535 * q);
    assert(((m - 1) + 65535 * q) % 65535 == (m - 1) % 65535) by {
        vstd::arithmetic::div_mod::lemma_mod_multiples_vanish(q as int, (m - 1) as int, 65535);
    }
}

proof fn lemma_word_sum_append(a: Seq<u8>, b: Seq<u8>)
    requires
        a.len() % 2 == 0,
    ensures
        word_sum(a + b) == word_sum(a) + word_sum(b),
    decreases a.len(),
{
    if a.len() == 0 {
        assert(a + b =~= b);
    } else {
        lemma_word_sum_append(a.skip(2), b);
        assert((a + b).skip(2) =~= a.skip(2) + b);
    }
}

/// Internet checksum (RFC 1071).
pub fn checksum(data: &[u8]) -> (r: u16)
    requires
        word_sum(data@) <= u32::MAX,
    ensures
        r == checksum_of(data@),
{
    let mut sum: u32 = 0;
    let n: usize = data.len();
    let mut i: usize = 0;
    assert(data@.skip(0) =~= data@);
    while n - i >= 2
        invariant
            i <= n,
            n == data@.len(),
            sum + word_sum(data@.skip(i as int)) == word_sum(data@),
            word_sum(data@) <= u32::MAX,
        decreases n - i,
    {
        let ghost rest = data@.skip(i as int);
        assert(rest.skip(2) =~= data@.skip(i + 2));
        assert(rest[0] == data@[i as int] && rest[1] == data@[i + 1]);
        sum = sum + (data[i] as u32 * 256 + data[i + 1] as u32);
        i += 2;
    }
    if i < n {
        let ghost rest = data@.skip(i as int);
        assert(rest.len() == 1 && rest[0] == data@[i as int]);
        sum = sum + data[i] as u32 * 256;
    } else {
        assert(data@.skip(i as int).len() == 0);
    }
    assert(sum == word_sum(data@));
    while sum > 65535
        invariant
            ones_sum(sum as nat) == ones_sum(word_sum(data@)),
        decreases sum,
    {
        proof {
            lemma_fold(sum as nat);
        }
        sum = sum % 65536 + sum / 65536;
    }
    assert(ones_sum(sum as nat) == sum);
    (65535 - sum) as u16
}

/// An ICMP echo request with a payload of its own and the given checksum.
pub open spec fn icmp_request(ident: u16, seq: u16, checksum: u16) -> Seq<u8> {
    seq![8u8, 0] + be16(checksum) + be16(ident) + be16(seq) + seq![
        110u8,
        101,
        119,
        116,
        112,
        105,
        110,
        103,
    ]
}

/// The IPv4 header of an ICMP packet of 36 bytes in all, with the given checksum.
pub open spec fn ip_header(src: Seq<u8>, dst: Seq<u8>, checksum: u16) -> Seq<u8> {
    seq![0x45u8, 0, 0, 36, 0, 0, 0x40, 0, 64, 1] + be16(checksum) + src + dst
}

/// An IPv4 ICMP echo request, its checksums computed over zeros in their places.
pub open spec fn echo_packet(src: Seq<u8>, dst: Seq<u8>, ident: u16, seq: u16) -> Seq<u8> {
    ip_header(src, dst, checksum_of(ip_header(src, dst, 0))) + icmp_request(
        ident,
        seq,
        checksum_of(icmp_request(ident, seq, 0)),
    )
}

proof fn lemma_word_sum_bound(data: Seq<u8>)
    ensures
        word_sum(data) <= 65535 * (data.len() + 1),
    decreases data.len(),
{
    if data.len() >= 2 {
        lemma_word_sum_bound(data.skip(2));
    }
}

fn icmp_bytes(ident: u16, seq: u16, checksum: u16) -> (r: Vec<u8>)
    ensures
        r@ == icmp_request(ident, seq, checksum),
{
    let mut r: Vec<u8> = Vec::new();
    let start: [u8; 2] = [8, 0];  // type=echo request, code=0
    push_all(&mut r, start.as_slice());
    push_be16(&mut r, checksum);
    push_be16(&mut r, ident);
    push_be16(&mut r, seq);
    let payload: [u8; 8] = [110, 101, 119, 116, 112, 105, 110, 103];  // "newtping"
    push_all(&mut r, payload.as_slice());
    assert(r@ =~= icmp_request(ident, seq, checksum));
    r
}

fn ip_header_bytes(src: [u8; 4], dst: [u8; 4], checksum: u16) -> (r: Vec<u8>)
    ensures
        r@ == ip_header(src@, dst@, checksum),
{
    let mut r: Vec<u8> = Vec::new();
    // version/IHL, DSCP/ECN, total length, id, flags=DF, ttl, proto=ICMP
    let start: [u8; 10] = [0x45, 0, 0, 36, 0, 0, 0x40, 0, 64, 1];
    push_all(&mut r, start.as_slice());
    push_be16(&mut r, checksum);
    push_all(&mut r, src.as_slice());
    push_all(&mut r, dst.as_slice());
    assert(r@ =~= ip_header(src@, dst@, checksum));
    r
}

/// Build an IPv4 ICMP echo request packet.
pub fn icmp_echo(src: [u8; 4], dst: [u8; 4], ident: u16, seq: u16) -> (r: Vec<u8>)
    ensures
        r@ == echo_packet(src@, dst@, ident, seq),
{
    let blank_icmp = icmp_bytes(ident, seq, 0);
    let blank_ip = ip_header_bytes(src, dst, 0);
    proof {
        lemma_word_sum_bound(blank_icmp@);
        lemma_word_sum_bound(blank_ip@);
    }
    let icmp = icmp_bytes(ident, seq, checksum(blank_icmp.as_slice()));
    let mut r = ip_header_bytes(src, dst, checksum(blank_ip.as_slice()));
    push_all(&mut r, icmp.as_slice());
    r
}

/// The sequence number after `seq`.
pub open spec fn next_seq(seq: u16) -> u16 {
    if seq == u16::MAX {
        0
    } else {
        (seq + 1) as u16
    }
}

/// The next keepalive ping: an echo request to the exit node's tunnel address. It
/// drives the WireGuard handshake and produces the inbound traffic that the exit node
/// counts to mark the site online; without it a passive site with no targets never
/// reports as up.
fn next_ping(ping_seq: &mut u16, tunnel_ip: [u8; 4], server_ip: [u8; 4]) -> (r: Vec<u8>)
    ensures
        *final(ping_seq) == next_seq(*old(ping_seq)),
        r@ == echo_packet(tunnel_ip@, server_ip@, 1, *final(ping_seq)),
{
    *ping_seq = if *ping_seq == u16::MAX {
        0
    } else {
        *ping_seq + 1
    };
    icmp_echo(tunnel_ip, server_ip, 1, *ping_seq)
}

// ---------------------------------------------------------------------------
// The site's end of the tunnel
// ---------------------------------------------------------------------------
/// The site's end of the tunnel: the pump, and the keepalive ping through it.
pub struct SitePlane {
    pump: Pump,
    server_ip: [u8; 4],
    tunnel_ip: [u8; 4],
    ping_seq: u16,
}

/// The content of a [`SitePlane`].
pub struct PlaneView {
    pub pump: PumpView,
    pub server_ip: Seq<u8>,
    pub tunnel_ip: Seq<u8>,
    pub ping_seq: u16,
}

impl View for SitePlane {
    type V = PlaneView;

    closed spec fn view(&self) -> PlaneView {
        PlaneView {
            pump: self.pump@,
            server_ip: self.server_ip@,
            tunnel_ip: self.tunnel_ip@,
            ping_seq: self.ping_seq,
        }
    }
}

impl PlaneView {
    /// `self` with its tunnel in another state.
    pub open spec fn with(self, tun: TunnView) -> PlaneView {
        PlaneView { pump: self.pump.with(tun), ..self }
    }
}

/// The datagrams among some outcomes, in order.
pub open spec fn networks_in(os: Seq<OutcomeView>) -> Seq<Seq<u8>>
    decreases os.len(),
{
    if os.len() == 0 {
        seq![]
    } else {
        match network_of(os.last()) {
            Some(b) => networks_in(os.drop_last()).push(b),
            None => networks_in(os.drop_last()),
        }
    }
}

/// The tunnel takes some packets one after another, then its timers advance: `states`
/// are its states before each packet, before the timers and after them.
pub open spec fn sent_all(states: Seq<TunnView>, packets: Seq<Seq<u8>>, os: Seq<OutcomeView>) -> bool {
    &&& states.len() == packets.len() + 2
    &&& os.len() == packets.len() + 1
    &&& forall|i: int|
        #![trigger packets[i]]
        0 <= i < packets.len() ==> encapsulated(states[i], packets[i], os[i], states[i + 1])
    &&& timed(states[packets.len() as int], os.last(), states.last())
}

impl SitePlane {
    pub fn new(pump: Pump, server_ip: [u8; 4], tunnel_ip: [u8; 4]) -> (r: Self)
        ensures
            r@ == (PlaneView {
                pump: pump@,
                server_ip: server_ip@,
                tunnel_ip: tunnel_ip@,
                ping_seq: 0,
            }),
    {
        SitePlane { pump, server_ip, tunnel_ip, ping_seq: 0 }
    }

    /// The next keepalive ping, through the tunnel.
    pub fn ping(&mut self) -> (r: Option<Vec<u8>>)
        requires
            old(self)@.pump.wf(),
        ensures
            final(self)@.pump.wf(),
            ({
                let seq = next_seq(old(self)@.ping_seq);
                let packet = echo_packet(old(self)@.tunnel_ip, old(self)@.server_ip, 1, seq);
                &&& final(self)@ == (PlaneView { ping_seq: seq, ..old(self)@ }).with(
                    final(self)@.pump.tun,
                )
                &&& exists|o: OutcomeView|
                    #[trigger] encapsulated(
                        old(self)@.pump.tun,
                        packet,
                        o,
                        final(self)@.pump.tun,
                    ) && opt_bytes(r) == network_of(o)
            }),
    {
        let packet = next_ping(&mut self.ping_seq, self.tunnel_ip, self.server_ip);
        proof {
            lemma_echo_len(self@.tunnel_ip, self@.server_ip, 1, self@.ping_seq);
        }
        self.pump.encapsulate(packet.as_slice())
    }

    /// A datagram has arrived: its packets go to the device; returns the datagrams to
    /// send back.
    pub fn datagram(&mut self, device: &mut VirtualDevice, d: &[u8]) -> (r: Vec<Vec<u8>>)
        requires
            old(self)@.pump.wf(),
        ensures
            final(self)@.pump.wf(),
            final(self)@ == old(self)@.with(final(self)@.pump.tun),
            exists|o: OutcomeView, mid: TunnView, outs: Seq<Seq<u8>>|
                #[trigger] received(
                    old(self)@.pump,
                    d@,
                    o,
                    mid,
                    outs,
                    final(self)@.pump.tun,
                ) && byte_views(r@) == datagrams_in(received_results(o, outs)) && final(device)@
                    == (DeviceView {
                    rx: old(device)@.rx + packets_in(received_results(o, outs)),
                    ..old(device)@
                }),
    {
        take_datagram(&mut self.pump, device, d)
    }

    /// Sends the stack's packets and advances the timers; returns the datagrams to
    /// send.
    pub fn send(&mut self, packets: &Vec<Vec<u8>>) -> (r: Vec<Vec<u8>>)
        requires
            old(self)@.pump.wf(),
            forall|i: int|
                0 <= i < packets@.len() ==> (#[trigger] packets@[i])@.len()
                    <= old(self)@.pump.room(),
        ensures
            final(self)@.pump.wf(),
            final(self)@ == old(self)@.with(final(self)@.pump.tun),
            exists|states: Seq<TunnView>, os: Seq<OutcomeView>|
                #[trigger] sent_all(states, byte_views(packets@), os) && states[0]
                    == old(self)@.pump.tun && states.last() == final(self)@.pump.tun && byte_views(
                    r@,
                ) == networks_in(os),
    {
        let mut r: Vec<Vec<u8>> = Vec::new();
        let ghost views = byte_views(packets@);
        let ghost first = self@.pump.tun;
        let ghost mut states: Seq<TunnView> = seq![first];
        let ghost mut os: Seq<OutcomeView> = seq![];
        assert(byte_views(r@) =~= seq![]);
        for i in 0..packets.len()
            invariant
                views == byte_views(packets@),
                self@.pump.wf(),
                self@ == old(self)@.with(self@.pump.tun),
                forall|k: int|
                    0 <= k < packets@.len() ==> (#[trigger] packets@[k])@.len()
                        <= old(self)@.pump.room(),
                states.len() == i + 1,
                os.len() == i,
                states[0] == old(self)@.pump.tun,
                states.last() == self@.pump.tun,
                forall|k: int|
                    #![trigger views[k]]
                    0 <= k < i ==> encapsulated(states[k], views[k], os[k], states[k + 1]),
                byte_views(r@) == networks_in(os),
        {
            let ghost before = self@.pump.tun;
            let out = self.pump.encapsulate(packets[i].as_slice());
            let ghost o = choose|o: OutcomeView|
                #[trigger] encapsulated(before, views[i as int], o, self@.pump.tun) && opt_bytes(out)
                    == network_of(o);
            proof {
                assert(os.push(o).drop_last() =~= os);
                states = states.push(self@.pump.tun);
                os = os.push(o);
            }
            push_some(&mut r, out);
        }
        let ghost before = self@.pump.tun;
        let out = self.pump.update_timers();
        let ghost o = choose|o: OutcomeView|
            #[trigger] timed(before, o, self@.pump.tun) && opt_bytes(out) == network_of(o);
        proof {
            assert(os.push(o).drop_last() =~= os);
            states = states.push(self@.pump.tun);
            os = os.push(o);
        }
        push_some(&mut r, out);
        assert(sent_all(states, views, os));
        r
    }
}

fn push_some(r: &mut Vec<Vec<u8>>, b: Option<Vec<u8>>)
    ensures
        byte_views(final(r)@) == match b {
            Some(b) => byte_views(old(r)@).push(b@),
            None => byte_views(old(r)@),
        },
{
    match b {
        Some(b) => {
            let ghost before = r@;
            r.push(b);
            assert(byte_views(r@) =~= byte_views(before).push(b@));
        },
        None => {},
    }
}

proof fn lemma_echo_len(src: Seq<u8>, dst: Seq<u8>, ident: u16, seq: u16)
    requires
        src.len() == 4,
        dst.len() == 4,
    ensures
        echo_packet(src, dst, ident, seq).len() == 36,
{
}

// ---------------------------------------------------------------------------
// Laws
// ---------------------------------------------------------------------------
/// A sum with its complement gives all ones.
proof fn lemma_complement(n: nat)
    ensures
        ones_sum(n + (65535 - ones_sum(n)) as nat) == 65535,
{
    let c = (65535 - ones_sum(n)) as nat;
    if n == 0 {
        assert(ones_sum(65535) == 65535);
    } else {
        let k = (n - 1) as nat / 65535;
        assert(n - 1 == 65535 * k + (n - 1) as nat % 65535) by {
            vstd::arithmetic::div_mod::lemma_fundamental_div_mod(n - 1, 65535);
        }
        assert(n + c - 1 == 65535 * k + 65534);
        assert((65535 * k + 65534) % 65535 == 65534) by {
            vstd::arithmetic::div_mod::lemma_mod_multiples_vanish(k as int, 65534, 65535);
        }
    }
}

proof fn lemma_be16_word(x: u16)
    ensures
        word_sum(be16(x)) == x,
{
    reveal_with_fuel(word_sum, 2);
}

/// The packets that are built verify: the checksum over the IP header and that over
/// the ICMP message, each with its checksum in place, are zero.
pub proof fn law_built_checksums_verify(src: Seq<u8>, dst: Seq<u8>, ident: u16, seq: u16)
    requires
        src.len() == 4,
        dst.len() == 4,
    ensures
        checksum_of(echo_packet(src, dst, ident, seq).take(20)) == 0,
        checksum_of(echo_packet(src, dst, ident, seq).skip(20)) == 0,
        echo_packet(src, dst, ident, seq).len() == 36,
{
    let ic = checksum_of(icmp_request(ident, seq, 0));
    let hc = checksum_of(ip_header(src, dst, 0));
    let head = ip_header(src, dst, hc);
    let icmp = icmp_request(ident, seq, ic);
    assert(echo_packet(src, dst, ident, seq).take(20) =~= head);
    assert(echo_packet(src, dst, ident, seq).skip(20) =~= icmp);
    let start = seq![0x45u8, 0, 0, 36, 0, 0, 0x40, 0, 64, 1];
    assert(ip_header(src, dst, hc) =~= start + be16(hc) + (src + dst));
    assert(ip_header(src, dst, 0) =~= start + be16(0) + (src + dst));
    lemma_checksum_in_place(start, src + dst, hc);
    let rest = be16(ident) + be16(seq) + seq![110u8, 101, 119, 116, 112, 105, 110, 103];
    assert(icmp_request(ident, seq, ic) =~= seq![8u8, 0] + be16(ic) + rest);
    assert(icmp_request(ident, seq, 0) =~= seq![8u8, 0] + be16(0) + rest);
    lemma_checksum_in_place(seq![8u8, 0], rest, ic);
}

proof fn lemma_checksum_in_place(a: Seq<u8>, b: Seq<u8>, c: u16)
    requires
        a.len() % 2 == 0,
        c == checksum_of(a + be16(0) + b),
    ensures
        checksum_of(a + be16(c) + b) == 0,
{
    lemma_word_sum_append(a + be16(0), b);
    lemma_word_sum_append(a, be16(0));
    lemma_word_sum_append(a + be16(c), b);
    lemma_word_sum_append(a, be16(c));
    lemma_be16_word(0);
    lemma_be16_word(c);
    lemma_complement(word_sum(a + be16(0) + b));
}

/// The services of some listeners.
pub open spec fn services_in<H>(ls: Seq<ListenerView<H>>) -> Seq<ServiceView> {
    ls.map_values(|l: ListenerView<H>| l.service)
}

proof fn lemma_replaced_services<H>(ls: Seq<ListenerView<H>>, i: int, fresh: H)
    requires
        0 <= i < ls.len(),
    ensures
        services_in(replaced(ls, i, fresh)).to_multiset() == services_in(ls).to_multiset(),
        replaced(ls, i, fresh).len() == ls.len(),
{
    broadcast use vstd::multiset::group_multiset_axioms, vstd::multiset::group_multiset_properties;

    let s = services_in(ls);
    let last = s.last();
    let moved = s.update(i, last);
    let cut = moved.drop_last();
    assert(services_in(replaced(ls, i, fresh)) =~= cut.push(s[i]));
    vstd::seq_lib::to_multiset_update(s, i, last);
    assert(moved =~= cut.push(last));
    vstd::seq_lib::to_multiset_build(cut, last);
    vstd::seq_lib::to_multiset_build(cut, s[i]);
    vstd::seq_lib::to_multiset_contains(s, s[i]);
    assert(cut.to_multiset().insert(last) =~= s.to_multiset().insert(last).remove(s[i]));
    assert forall|x: ServiceView| #[trigger]
        cut.push(s[i]).to_multiset().count(x) == s.to_multiset().count(x) by {
        assert(cut.to_multiset().insert(last).count(x) == s.to_multiset().insert(last).remove(
            s[i],
        ).count(x));
    }
    assert(cut.push(s[i]).to_multiset() =~= s.to_multiset());
}

/// Promotion keeps the services: after it there are as many listeners as before, one
/// for each service that had one.
pub proof fn law_promotion_keeps_services<H>(
    ls: Seq<ListenerView<H>>,
    active: Seq<bool>,
    n: int,
    fresh: Seq<H>,
)
    requires
        0 <= n <= ls.len(),
        ls.len() == active.len(),
    ensures
        services_in(promoted(ls, active, n, fresh)).to_multiset() == services_in(ls).to_multiset(),
        promoted(ls, active, n, fresh).len() == ls.len(),
    decreases n,
{
    if n > 0 {
        if active[n - 1] {
            lemma_replaced_services(ls, n - 1, fresh[0]);
            law_promotion_keeps_services(
                replaced(ls, n - 1, fresh[0]),
                active,
                n - 1,
                fresh.drop_first(),
            );
        } else {
            law_promotion_keeps_services(ls, active, n - 1, fresh);
        }
    }
}

/// Each topic of the control channel gives its event, with the data that came under it;
/// other topics, and data that does not read, give none.
pub proof fn law_topics_give_their_events(
    typ: Seq<char>,
    nodes: Option<ExitNodeData>,
    wg: Option<WgData>,
)
    ensures
        event_of("newt/ping/exitNodes"@, nodes, wg) == match nodes {
            Some(d) => Some(Event::ExitNodes(d)),
            None => None,
        },
        event_of("newt/wg/connect"@, nodes, wg) == match wg {
            Some(d) => Some(Event::WgConnect(d)),
            None => None,
        },
        event_of("newt/wg/reconnect"@, nodes, wg) == Some(Event::Reconnect),
        event_of("newt/wg/terminate"@, nodes, wg) == Some(Event::Terminate),
        typ != "newt/ping/exitNodes"@ && typ != "newt/wg/connect"@ && typ != "newt/wg/reconnect"@
            && typ != "newt/wg/terminate"@ ==> event_of(typ, nodes, wg) is None,
{
    reveal_strlit("newt/ping/exitNodes");
    reveal_strlit("newt/wg/connect");
    reveal_strlit("newt/wg/reconnect");
    reveal_strlit("newt/wg/terminate");
    assert("newt/ping/exitNodes"@.len() == 19 && "newt/wg/connect"@.len() == 15
        && "newt/wg/reconnect"@.len() == 17 && "newt/wg/terminate"@.len() == 17);
    assert("newt/wg/reconnect"@[8] != "newt/wg/terminate"@[8]);
}

/// The endpoint of an exit node is read back from "host:port" whatever its host is; a text
/// without a port is none.
pub proof fn law_tunnel_endpoint_is_read_back(host: Seq<char>, port: u16, other: Seq<char>)
    ensures
        endpoint_of(host + seq![':'] + decimal(port as nat)) == Some((host, port)),
        !host.contains(':') ==> endpoint_of(host) is None,
        !other.contains(':') && port_of(other) is None ==> endpoint_of(host + seq![':'] + other)
            is None,
{
    crate::target::lemma_decimal_port(port);
    crate::text::law_split_at_a_separator(host, ':', decimal(port as nat));
    crate::text::law_split_at_a_separator(host, ':', other);
}

/// Every target that reads as one is a service on its listen port, for "host:port", and
/// the services keep the order of the targets.
pub proof fn law_services_follow_the_targets(a: Seq<Seq<char>>, b: Seq<Seq<char>>, s: Seq<char>)
    ensures
        services_of(a + b) == services_of(a) + services_of(b),
        target_of(s) is None ==> services_of(seq![s]).len() == 0,
        target_of(s) matches Some(t) ==> {
            &&& services_of(seq![s]).len() == 1
            &&& services_of(seq![s])[0].port == t.listen_port
            &&& services_of(seq![s])[0].target == t.host + seq![':'] + decimal(t.target_port as nat)
        },
    decreases b.len(),
{
    reveal_with_fuel(services_of, 2);
    reveal_strlit(":");
    assert(":"@ =~= seq![':']);
    assert(seq![s].drop_last() =~= Seq::empty());
    if b.len() == 0 {
        assert(a + b =~= a);
        assert(services_of(a) + services_of(b) =~= services_of(a));
    } else {
        law_services_follow_the_targets(a, b.drop_last(), s);
        assert((a + b).drop_last() =~= a + b.drop_last());
        assert(services_of(a + b) =~= services_of(a) + services_of(b));
    }
}

/// A word behind the data is added to the sum with the carry added back; a last odd byte is
/// the high half of a word; and the complement of the sum, put behind the data, verifies.
pub proof fn law_checksum_adds_words(data: Seq<u8>, hi: u8, lo: u8)
    requires
        data.len() % 2 == 0,
    ensures
        ({
            let s = (65535 - checksum_of(data)) + 256 * hi + lo;
            65535 - checksum_of(data + seq![hi, lo]) == if s > 65535 {
                s - 65535
            } else {
                s
            }
        }),
        checksum_of(data.push(hi)) == checksum_of(data + seq![hi, 0]),
        checksum_of(Seq::empty()) == 65535,
        checksum_of(
            data + seq![(checksum_of(data) / 256) as u8, (checksum_of(data) % 256) as u8],
        ) == 0,
{
    reveal_with_fuel(word_sum, 3);
    let c = checksum_of(data);
    let n = word_sum(data);
    lemma_word_sum_append(data, seq![hi, lo]);
    lemma_word_sum_append(data, seq![hi]);
    lemma_word_sum_append(data, seq![hi, 0]);
    assert(data.push(hi) =~= data + seq![hi]);
    lemma_two(hi, lo);
    lemma_two(hi, 0);
    let w: nat = (256 * hi + lo) as nat;
    lemma_ones_add(n, w);
    lemma_word_sum_append(data, seq![(c / 256) as u8, (c % 256) as u8]);
    lemma_two((c / 256) as u8, (c % 256) as u8);
    lemma_complement(n);
}

proof fn lemma_two(hi: u8, lo: u8)
    ensures
        word_sum(seq![hi, lo]) == 256 * hi + lo,
        word_sum(seq![hi]) == 256 * hi,
{
    reveal_with_fuel(word_sum, 2);
    assert(seq![hi, lo].skip(2) =~= Seq::empty());
}

proof fn lemma_ones_add(n: nat, w: nat)
    requires
        w <= 65535,
    ensures
        ({
            let s = ones_sum(n) + w;
            ones_sum(n + w) == if s > 65535 {
                s - 65535
            } else {
                s as int
            }
        }),
{
    if n > 0 && w > 0 {
        let k = (n - 1) / 65535;
        let m = (n - 1) % 65535;
        vstd::arithmetic::div_mod::lemma_fundamental_div_mod(n - 1, 65535);
        assert(n + w - 1 == 65535 * k + (m + w));
        vstd::arithmetic::div_mod::lemma_mod_multiples_vanish(k, m + w, 65535);
        if m + w < 65535 {
            assert((m + w) % 65535 == m + w);
        } else if m + w < 2 * 65535 {
            assert((m + w) % 65535 == m + w - 65535);
        }
    }
}

/// The ping is an IPv4 packet of 36 bytes from `src` to `dst` that is not to be fragmented,
/// with an echo request in it that holds the identifier, the number and "newtping".
pub proof fn law_ping_is_laid_out(src: Seq<u8>, dst: Seq<u8>, ident: u16, seq: u16)
    requires
        src.len() == 4,
        dst.len() == 4,
    ensures
        ({
            let p = echo_packet(src, dst, ident, seq);
            &&& p.len() == 36
            &&& p[0] == 0x45 && p[1] == 0 && p[2] == 0 && p[3] == 36
            &&& p[4] == 0 && p[5] == 0 && p[6] == 0x40 && p[7] == 0
            &&& p[8] == 64 && p[9] == 1
            &&& p.subrange(12, 16) == src
            &&& p.subrange(16, 20) == dst
            &&& p[20] == 8 && p[21] == 0
            &&& 256 * p[24] + p[25] == ident
            &&& 256 * p[26] + p[27] == seq
            &&& p[28] == 'n' as u8 && p[29] == 'e' as u8 && p[30] == 'w' as u8 && p[31] == 't' as u8
            &&& p[32] == 'p' as u8 && p[33] == 'i' as u8 && p[34] == 'n' as u8 && p[35] == 'g' as u8
        }),
        next_seq(seq) as int == (seq + 1) % 65536,
{
    let p = echo_packet(src, dst, ident, seq);
    assert(p.subrange(12, 16) =~= src);
    assert(p.subrange(16, 20) =~= dst);
    crate::bytes::law_byte_orders(ident, 0, 0, seq![]);
    crate::bytes::law_byte_orders(seq, 0, 0, seq![]);
    assert(p[24] == be16(ident)[0] && p[25] == be16(ident)[1]);
    assert(p[26] == be16(seq)[0] && p[27] == be16(seq)[1]);
}

/// The listeners that became active are taken from the last to the first, and none of them
/// is passed over.
pub proof fn law_active_listeners_are_taken<H>(
    ls: Seq<ListenerView<H>>,
    active: Seq<bool>,
    n: int,
) -> (places: Seq<int>)
    requires
        0 <= n <= ls.len(),
        ls.len() == active.len(),
    ensures
        places.len() == ready(ls, active, n).len(),
        forall|k: int|
            0 <= k < places.len() ==> 0 <= #[trigger] places[k] < n && active[places[k]] && ready(
                ls,
                active,
                n,
            )[k] == ls[places[k]],
        forall|j: int, k: int|
            0 <= j < k < places.len() ==> #[trigger] places[j] > #[trigger] places[k],
        forall|i: int| 0 <= i < n && #[trigger] active[i] ==> places.contains(i),
    decreases n,
{
    if n <= 0 {
        seq![]
    } else {
        let rest = law_active_listeners_are_taken(ls, active, n - 1);
        if active[n - 1] {
            let places = seq![n - 1] + rest;
            assert forall|i: int| 0 <= i < n && #[trigger] active[i] implies places.contains(i) by {
                if i == n - 1 {
                    assert(places[0] == i);
                } else {
                    let k = choose|k: int| 0 <= k < rest.len() && rest[k] == i;
                    assert(places[k + 1] == i);
                }
            }
            places
        } else {
            rest
        }
    }
}

/// The fresh listeners that stand for some that were taken: each for the service of its
/// own, with its own handle.
pub open spec fn renewed<H>(taken: Seq<ListenerView<H>>, fresh: Seq<H>) -> Seq<ListenerView<H>> {
    Seq::new(
        taken.len(),
        |k: int| ListenerView { service: taken[k].service, handle: fresh[k] },
    )
}

/// Promotion takes the active listeners out, puts a fresh one for the same service in for
/// each, with the handles in order, and leaves all others.
pub proof fn law_promotion_renews_what_it_takes<H>(
    ls: Seq<ListenerView<H>>,
    active: Seq<bool>,
    n: int,
    fresh: Seq<H>,
)
    requires
        0 <= n <= ls.len(),
        ls.len() == active.len(),
        fresh.len() == ready(ls, active, n).len(),
    ensures
        promoted(ls, active, n, fresh).to_multiset().add(ready(ls, active, n).to_multiset())
            =~= ls.to_multiset().add(renewed(ready(ls, active, n), fresh).to_multiset()),
    decreases n,
{
    broadcast use vstd::multiset::group_multiset_axioms;

    if n <= 0 {
        assert(renewed(ready(ls, active, n), fresh) =~= Seq::empty());
        assert(ready(ls, active, n) =~= Seq::empty());
    } else if active[n - 1] {
        let next = replaced(ls, n - 1, fresh[0]);
        let rest = ready(ls, active, n - 1);
        let put = ListenerView { service: ls[n - 1].service, handle: fresh[0] };
        lemma_ready_prefix(ls, next, active, n - 1);
        assert(fresh.drop_first().len() == rest.len());
        law_promotion_renews_what_it_takes(next, active, n - 1, fresh.drop_first());
        let all = ready(ls, active, n);
        assert(all == seq![ls[n - 1]] + rest);
        assert(renewed(all, fresh) =~= seq![put] + renewed(rest, fresh.drop_first()));
        lemma_multiset_front(ls[n - 1], rest);
        lemma_multiset_front(put, renewed(rest, fresh.drop_first()));
        lemma_replaced_multiset(ls, n - 1, fresh[0]);
        let out = promoted(ls, active, n, fresh);
        assert(out == promoted(next, active, n - 1, fresh.drop_first()));
        let more = renewed(rest, fresh.drop_first());
        assert forall|x: ListenerView<H>| #[trigger]
            out.to_multiset().add(all.to_multiset()).count(x) == ls.to_multiset().add(
                renewed(all, fresh).to_multiset(),
            ).count(x) by {
            assert(out.to_multiset().add(rest.to_multiset()).count(x) == next.to_multiset().add(
                more.to_multiset(),
            ).count(x));
            assert(next.to_multiset().insert(ls[n - 1]).count(x) == ls.to_multiset().insert(
                put,
            ).count(x));
            assert(all.to_multiset().count(x) == rest.to_multiset().insert(ls[n - 1]).count(x));
            assert(renewed(all, fresh).to_multiset().count(x) == more.to_multiset().insert(
                put,
            ).count(x));
        }
    } else {
        law_promotion_renews_what_it_takes(ls, active, n - 1, fresh);
    }
}

proof fn lemma_ready_prefix<H>(
    a: Seq<ListenerView<H>>,
    b: Seq<ListenerView<H>>,
    active: Seq<bool>,
    n: int,
)
    requires
        forall|j: int| 0 <= j < n ==> a[j] == b[j],
    ensures
        ready(a, active, n) == ready(b, active, n),
    decreases n,
{
    if n > 0 {
        lemma_ready_prefix(a, b, active, n - 1);
    }
}

proof fn lemma_multiset_front<A>(x: A, s: Seq<A>)
    ensures
        (seq![x] + s).to_multiset() =~= s.to_multiset().insert(x),
{
    broadcast use vstd::multiset::group_multiset_axioms;

    vstd::seq_lib::lemma_multiset_commutative(seq![x], s);
    assert(seq![x] =~= Seq::empty().push(x));
    vstd::seq_lib::to_multiset_build(Seq::<A>::empty(), x);
    Seq::<A>::empty().to_multiset_ensures();
    assert(Seq::<A>::empty().to_multiset() =~= vstd::multiset::Multiset::empty()) by {
        vstd::seq_lib::to_multiset_len(Seq::<A>::empty());
    }
}

proof fn lemma_replaced_multiset<H>(ls: Seq<ListenerView<H>>, i: int, fresh: H)
    requires
        0 <= i < ls.len(),
    ensures
        replaced(ls, i, fresh).to_multiset().insert(ls[i]) =~= ls.to_multiset().insert(
            ListenerView { service: ls[i].service, handle: fresh },
        ),
{
    broadcast use vstd::multiset::group_multiset_axioms, vstd::multiset::group_multiset_properties;

    let put = ListenerView { service: ls[i].service, handle: fresh };
    let last = ls.last();
    let moved = ls.update(i, last);
    let cut = moved.drop_last();
    vstd::seq_lib::to_multiset_update(ls, i, last);
    assert(moved =~= cut.push(last));
    vstd::seq_lib::to_multiset_build(cut, last);
    vstd::seq_lib::to_multiset_build(cut, put);
    vstd::seq_lib::to_multiset_contains(ls, ls[i]);
    assert(cut.to_multiset().insert(last) =~= ls.to_multiset().insert(last).remove(ls[i]));
    assert forall|x: ListenerView<H>| #[trigger]
        cut.push(put).to_multiset().insert(ls[i]).count(x) == ls.to_multiset().insert(put).count(
            x,
        ) by {
        assert(cut.to_multiset().insert(last).count(x) == ls.to_multiset().insert(last).remove(
            ls[i],
        ).count(x));
    }
}

/// Packets and datagrams are told apart and keep their order.
pub proof fn law_results_are_sorted_in_order(a: Seq<InboundView>, b: Seq<InboundView>, d: Seq<u8>)
    ensures
        packets_in(a + b) == packets_in(a) + packets_in(b),
        datagrams_in(a + b) == datagrams_in(a) + datagrams_in(b),
        packets_in(seq![InboundView::Packet(d)]) == seq![d],
        datagrams_in(seq![InboundView::Packet(d)]).len() == 0,
        packets_in(seq![InboundView::Network(d)]).len() == 0,
        datagrams_in(seq![InboundView::Network(d)]) == seq![d],
        packets_in(seq![InboundView::Nothing]).len() == 0,
        datagrams_in(seq![InboundView::Nothing]).len() == 0,
    decreases b.len(),
{
    reveal_with_fuel(packets_in, 2);
    reveal_with_fuel(datagrams_in, 2);
    let none = Seq::<InboundView>::empty();
    assert(seq![InboundView::Packet(d)].drop_last() =~= none);
    assert(seq![InboundView::Network(d)].drop_last() =~= none);
    assert(seq![InboundView::Nothing].drop_last() =~= none);
    assert(packets_in(seq![InboundView::Packet(d)]) =~= seq![d]);
    assert(datagrams_in(seq![InboundView::Network(d)]) =~= seq![d]);
    if b.len() == 0 {
        assert(a + b =~= a);
        assert(packets_in(a) + packets_in(b) =~= packets_in(a));
        assert(datagrams_in(a) + datagrams_in(b) =~= datagrams_in(a));
    } else {
        law_results_are_sorted_in_order(a, b.drop_last(), d);
        assert((a + b).drop_last() =~= a + b.drop_last());
        assert(packets_in(a + b) =~= packets_in(a) + packets_in(b));
        assert(datagrams_in(a + b) =~= datagrams_in(a) + datagrams_in(b));
    }
}

/// What the tunnel gives out for each packet is sent in their order, and what its timers
/// give out comes last.
pub proof fn law_outcomes_are_sent_in_order(a: Seq<OutcomeView>, b: Seq<OutcomeView>, o: OutcomeView)
    ensures
        networks_in(a + b) == networks_in(a) + networks_in(b),
        networks_in(seq![o]) == match network_of(o) {
            Some(d) => seq![d],
            None => seq![],
        },
    decreases b.len(),
{
    reveal_with_fuel(networks_in, 2);
    assert(seq![o].drop_last() =~= Seq::empty());
    if b.len() == 0 {
        assert(a + b =~= a);
        assert(networks_in(a) + networks_in(b) =~= networks_in(a));
    } else {
        law_outcomes_are_sent_in_order(a, b.drop_last(), o);
        assert((a + b).drop_last() =~= a + b.drop_last());
        assert(networks_in(a + b) =~= networks_in(a) + networks_in(b));
    }
}

/// Every packet goes through the tunnel, in the state that the one before it left, and
/// the timers advance once, behind the last.
pub proof fn law_every_packet_goes_through(
    states: Seq<TunnView>,
    packets: Seq<Seq<u8>>,
    os: Seq<OutcomeView>,
    i: int,
)
    requires
        sent_all(states, packets, os),
        0 <= i < packets.len(),
    ensures
        encapsulated(states[i], packets[i], os[i], states[i + 1]),
        timed(states[states.len() - 2], os[os.len() - 1], states[states.len() - 1]),
        os.len() == packets.len() + 1,
        states.len() == os.len() + 1,
{
}

/// A tunnel is set up exactly when its own address suits the stack and it and the exit
/// node's are of version 4; what is wrong is told by the name of the parameter.
pub proof fn law_setup_names_the_bad_address(tunnel_ip: Seq<char>, server_ip: Seq<char>)
    ensures
        setup_error(tunnel_ip, server_ip) is None <==> smol_ip(tunnel_ip) is Some && ipv4_of(
            tunnel_ip,
        ) is Some && ipv4_of(server_ip) is Some,
        smol_ip(tunnel_ip) is Some && ipv4_of(server_ip) is None ==> setup_error(
            tunnel_ip,
            server_ip,
        ) == Some("bad serverIP"@),
        smol_ip(tunnel_ip) is None || (ipv4_of(tunnel_ip) is None && ipv4_of(server_ip) is Some)
            ==> setup_error(tunnel_ip, server_ip) == Some("bad tunnelIP"@),
{
}

} // verus!
