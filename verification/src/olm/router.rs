//! Multi-peer WireGuard router shared by both client backends. Holds one WireGuard
//! session per site, routes outbound IP packets to the peer that owns the
//! destination (longest-prefix match over allowed CIDRs), and demultiplexes
//! inbound datagrams back to the owning peer.
use crate::net::{datagram_views, ip_of, opt_ip, IpAddr, IpView, SocketAddr};
use crate::wg::{
    encapsulated, inbound_of, inbound_views, initiated, is_greeting, is_initiation, network_of,
    opened_pump, opt_bytes, peer_index, peer_index_of, public_from_b64, public_key_of, received, received_results,
    sealable, timed, tunn_starts, Inbound, InboundView, OutcomeView, Pump, PumpView, StaticSecret, TunnView,
};
use crate::text::{parse_unsigned, split_once, split_once_at, trim, trimmed, unsigned_upto};
use vstd::prelude::*;
use vstd::string::*;

verus! {

/// A routed destination range.
#[derive(Debug, Clone, Copy)]
pub struct Cidr {
    net: IpAddr,
    prefix: u8,
}

/// The content of a [`Cidr`].
pub struct CidrView {
    pub net: IpView,
    pub prefix: u8,
}

impl View for Cidr {
    type V = CidrView;

    closed spec fn view(&self) -> CidrView {
        CidrView { net: self.net@, prefix: self.prefix }
    }
}

// ---------------------------------------------------------------------------
// Specifications
// ---------------------------------------------------------------------------
/// The number of bits in an address of the version of `ip`.
pub open spec fn bits_in(ip: IpView) -> u8 {
    match ip {
        IpView::V4(_) => 32,
        IpView::V6(_) => 128,
    }
}

/// The bit at `i`, the most significant bit of the first octet being the first.
pub open spec fn bit_at(o: Seq<u8>, i: int) -> u8 {
    (o[i / 8] >> ((7 - i % 8) as u8)) & 1
}

/// The first `n` bits are the same.
pub open spec fn same_bits(a: Seq<u8>, b: Seq<u8>, n: int) -> bool {
    forall|i: int| 0 <= i < n ==> #[trigger] bit_at(a, i) == bit_at(b, i)
}

/// The range holds `ip`: of the same version, with the same leading bits.
pub open spec fn covers(c: CidrView, ip: IpView) -> bool {
    match (c.net, ip) {
        (IpView::V4(n), IpView::V4(a)) => same_bits(n, a, c.prefix as int),
        (IpView::V6(n), IpView::V6(a)) => same_bits(n, a, c.prefix as int),
        _ => false,
    }
}

/// The range that an address with a prefix length denotes.
pub open spec fn cidr_with(addr: Seq<char>, prefix: Option<u8>) -> Option<CidrView> {
    match ip_of(addr) {
        Some(net) => {
            let p = match prefix {
                Some(p) => p,
                None => bits_in(net),
            };
            if p <= bits_in(net) {
                Some(CidrView { net, prefix: p })
            } else {
                None
            }
        },
        None => None,
    }
}

/// The range that "address/prefix" or a bare address denotes, with white space
/// around it passed over.
pub open spec fn cidr_of(s: Seq<char>) -> Option<CidrView> {
    match split_once_at(trimmed(s), '/') {
        Some((addr, p)) => match unsigned_upto(p, 255) {
            Some(n) => cidr_with(addr, Some(n as u8)),
            None => None,
        },
        None => cidr_with(trimmed(s), None),
    }
}

/// The content of an optional range.
pub open spec fn opt_cidr(c: Option<Cidr>) -> Option<CidrView> {
    match c {
        Some(c) => Some(c@),
        None => None,
    }
}

// ---------------------------------------------------------------------------
// Ranges
// ---------------------------------------------------------------------------
proof fn lemma_octet_bits(a: u8, b: u8)
    ensures
        (a == b) == ((a >> 7) & 1 == (b >> 7) & 1 && (a >> 6) & 1 == (b >> 6) & 1 && (a >> 5) & 1 == (
        b >> 5) & 1 && (a >> 4) & 1 == (b >> 4) & 1 && (a >> 3) & 1 == (b >> 3) & 1 && (a >> 2) & 1 == (
        b >> 2) & 1 && (a >> 1) & 1 == (b >> 1) & 1 && (a >> 0) & 1 == (b >> 0) & 1),
{
    assert((a == b) == ((a >> 7) & 1 == (b >> 7) & 1 && (a >> 6) & 1 == (b >> 6) & 1 && (a >> 5) & 1
        == (b >> 5) & 1 && (a >> 4) & 1 == (b >> 4) & 1 && (a >> 3) & 1 == (b >> 3) & 1 && (a >> 2)
        & 1 == (b >> 2) & 1 && (a >> 1) & 1 == (b >> 1) & 1 && (a >> 0) & 1 == (b >> 0) & 1))
        by (bit_vector);
}

proof fn lemma_masked_bits(a: u8, b: u8, rem: u8)
    requires
        1 <= rem < 8,
    ensures
        ((a & (0xffu8 << ((8 - rem) as u8))) == (b & (0xffu8 << ((8 - rem) as u8)))) == ((a >> 7) & 1
            == (b >> 7) & 1 && (rem < 2 || (a >> 6) & 1 == (b >> 6) & 1) && (rem < 3 || (a >> 5) & 1
            == (b >> 5) & 1) && (rem < 4 || (a >> 4) & 1 == (b >> 4) & 1) && (rem < 5 || (a >> 3) & 1
            == (b >> 3) & 1) && (rem < 6 || (a >> 2) & 1 == (b >> 2) & 1) && (rem < 7 || (a >> 1) & 1
            == (b >> 1) & 1)),
{
    let s: u8 = (8 - rem) as u8;
    assert(((a & (0xffu8 << s)) == (b & (0xffu8 << s))) == ((a >> 7) & 1 == (b >> 7) & 1 && (rem < 2
        || (a >> 6) & 1 == (b >> 6) & 1) && (rem < 3 || (a >> 5) & 1 == (b >> 5) & 1) && (rem < 4 || (a
        >> 4) & 1 == (b >> 4) & 1) && (rem < 5 || (a >> 3) & 1 == (b >> 3) & 1) && (rem < 6 || (a
        >> 2) & 1 == (b >> 2) & 1) && (rem < 7 || (a >> 1) & 1 == (b >> 1) & 1))) by (bit_vector)
        requires
            1 <= rem < 8,
            s == 8 - rem,
    ;
}

proof fn lemma_bits_of_octet(o: Seq<u8>, k: int)
    requires
        0 <= k,
    ensures
        bit_at(o, 8 * k) == (o[k] >> 7) & 1,
        bit_at(o, 8 * k + 1) == (o[k] >> 6) & 1,
        bit_at(o, 8 * k + 2) == (o[k] >> 5) & 1,
        bit_at(o, 8 * k + 3) == (o[k] >> 4) & 1,
        bit_at(o, 8 * k + 4) == (o[k] >> 3) & 1,
        bit_at(o, 8 * k + 5) == (o[k] >> 2) & 1,
        bit_at(o, 8 * k + 6) == (o[k] >> 1) & 1,
        bit_at(o, 8 * k + 7) == (o[k] >> 0) & 1,
{
}

/// Octets that agree so far agree in one octet more exactly when the bits do.
proof fn lemma_same_octet(a: Seq<u8>, b: Seq<u8>, k: int)
    requires
        0 <= k,
        same_bits(a, b, 8 * k),
    ensures
        same_bits(a, b, 8 * k + 8) == (a[k] == b[k]),
{
    lemma_bits_of_octet(a, k);
    lemma_bits_of_octet(b, k);
    lemma_octet_bits(a[k], b[k]);
    if a[k] == b[k] {
        assert forall|i: int| 0 <= i < 8 * k + 8 implies #[trigger] bit_at(a, i) == bit_at(b, i) by {
            if i >= 8 * k {
                assert(i / 8 == k);
            }
        }
    }
}

proof fn lemma_same_rest(a: Seq<u8>, b: Seq<u8>, k: int, rem: u8)
    requires
        0 <= k,
        1 <= rem < 8,
        same_bits(a, b, 8 * k),
    ensures
        same_bits(a, b, 8 * k + rem) == ((a[k] & (0xffu8 << ((8 - rem) as u8))) == (b[k] & (0xffu8 << (
        (8 - rem) as u8)))),
{
    lemma_bits_of_octet(a, k);
    lemma_bits_of_octet(b, k);
    lemma_masked_bits(a[k], b[k], rem);
    if (a[k] & (0xffu8 << ((8 - rem) as u8))) == (b[k] & (0xffu8 << ((8 - rem) as u8))) {
        assert forall|i: int| 0 <= i < 8 * k + rem implies #[trigger] bit_at(a, i) == bit_at(b, i) by {
            if i >= 8 * k {
                let j = i - 8 * k;
                assert(j == 0 || j == 1 || j == 2 || j == 3 || j == 4 || j == 5 || j == 6);
            }
        }
    }
}

/// Compare the first `prefix` bits of two byte arrays.
fn bits_match(a: &[u8], b: &[u8], prefix: u8) -> (r: bool)
    requires
        a@.len() == b@.len(),
        prefix <= 8 * a@.len(),
    ensures
        r == same_bits(a@, b@, prefix as int),
{
    let full: usize = (prefix / 8) as usize;
    let mut i: usize = 0;
    while i < full
        invariant
            i <= full,
            full == prefix / 8,
            a@.len() == b@.len(),
            prefix <= 8 * a@.len(),
            same_bits(a@, b@, 8 * i),
        decreases full - i,
    {
        proof {
            lemma_same_octet(a@, b@, i as int);
        }
        if a[i] != b[i] {
            assert(!same_bits(a@, b@, prefix as int)) by {
                let k = choose|k: int|
                    0 <= k < 8 * i + 8 && #[trigger] bit_at(a@, k) != bit_at(b@, k);
                assert(0 <= k < prefix);
            }
            return false;
        }
        i += 1;
    }
    let rem: u8 = prefix % 8;
    if rem == 0 {
        return true;
    }
    proof {
        lemma_same_rest(a@, b@, full as int, rem);
    }
    let mask: u8 = 0xffu8 << (8 - rem);
    (a[full] & mask) == (b[full] & mask)
}

impl Cidr {
    /// The prefix is no longer than the address.
    #[verifier::type_invariant]
    spec fn fits(self) -> bool {
        self.prefix <= bits_in(self.net@)
    }

    /// Parse "10.0.0.0/24" or a bare address (treated as a host route).
    pub fn parse(s: &str) -> (r: Option<Cidr>)
        ensures
            opt_cidr(r) == cidr_of(s@),
    {
        let s = trim(s);
        let (addr, given): (String, Option<u8>) = match split_once(s.as_str(), '/') {
            Some((a, p)) => match parse_unsigned(p.as_str(), 255) {
                Some(n) => (a, Some(n as u8)),
                None => {
                    return None;
                },
            },
            None => (s, None),
        };
        match IpAddr::parse(addr.as_str()) {
            Some(net) => {
                let max: u8 = if net.is_ipv4() {
                    32
                } else {
                    128
                };
                let prefix: u8 = match given {
                    Some(p) => p,
                    None => max,
                };
                if prefix > max {
                    return None;
                }
                Some(Cidr { net, prefix })
            },
            None => None,
        }
    }

    pub fn prefix(&self) -> (r: u8)
        ensures
            r == self@.prefix,
    {
        self.prefix
    }

    /// Network address and prefix length (for programming OS routes).
    pub fn parts(&self) -> (r: (IpAddr, u8))
        ensures
            r.0@ == self@.net,
            r.1 == self@.prefix,
            r.1 <= bits_in(r.0@),
    {
        proof {
            use_type_invariant(self);
        }
        (self.net, self.prefix)
    }

    /// Does this range contain `ip`? Compares the first `prefix` bits.
    pub fn contains(&self, ip: IpAddr) -> (r: bool)
        ensures
            r == covers(self@, ip@),
    {
        proof {
            use_type_invariant(self);
        }
        match (self.net, ip) {
            (IpAddr::V4(n), IpAddr::V4(a)) => bits_match(n.as_slice(), a.as_slice(), self.prefix),
            (IpAddr::V6(n), IpAddr::V6(a)) => bits_match(n.as_slice(), a.as_slice(), self.prefix),
            _ => false,
        }
    }
}

// ---------------------------------------------------------------------------
// The router
// ---------------------------------------------------------------------------
/// Result of feeding an inbound datagram to the router.
pub enum Out {
    /// A decrypted IP packet to deliver to the host.
    ToHost(Vec<u8>),
    /// Bytes to write back to a peer endpoint (handshake/cookie).
    ToNet(Vec<u8>, SocketAddr),
}

/// The content of an [`Out`].
pub enum OutView {
    ToHost(Seq<u8>),
    ToNet(Seq<u8>, SocketAddr),
}

impl View for Out {
    type V = OutView;

    open spec fn view(&self) -> OutView {
        match self {
            Out::ToHost(p) => OutView::ToHost(p@),
            Out::ToNet(b, e) => OutView::ToNet(b@, *e),
        }
    }
}

struct Peer {
    site_id: i64,
    pump: Pump,
    endpoint: SocketAddr,
    cidrs: Vec<Cidr>,
    index: u32,
}

/// A peer of the router.
pub struct PeerView {
    pub site_id: i64,
    pub pump: PumpView,
    pub endpoint: SocketAddr,
    pub cidrs: Seq<CidrView>,
    pub index: u32,
}

impl View for Peer {
    type V = PeerView;

    closed spec fn view(&self) -> PeerView {
        PeerView {
            site_id: self.site_id,
            pump: self.pump@,
            endpoint: self.endpoint,
            cidrs: cidr_views(self.cidrs@),
            index: self.index,
        }
    }
}

/// The contents of some ranges.
pub open spec fn cidr_views(c: Seq<Cidr>) -> Seq<CidrView> {
    c.map_values(|x: Cidr| x@)
}

/// The router. Construct with our private key + MTU, then add peers.
pub struct Router {
    secret: StaticSecret,
    mtu: usize,
    peers: Vec<Peer>,
    next_index: u32,
}

/// The content of a [`Router`].
pub struct RouterView {
    pub secret: Seq<u8>,
    pub mtu: usize,
    pub peers: Seq<PeerView>,
    pub next_index: u32,
}

impl View for Router {
    type V = RouterView;

    closed spec fn view(&self) -> RouterView {
        RouterView {
            secret: self.secret.bytes@,
            mtu: self.mtu,
            peers: self.peers@.map_values(|p: Peer| p@),
            next_index: self.next_index,
        }
    }
}

impl RouterView {
    /// The largest packet that the router takes.
    pub open spec fn room(self) -> nat {
        if self.mtu > 1500 {
            self.mtu as nat
        } else {
            1500
        }
    }

    /// No site has two peers, and each peer's pump is its own: made with the router's
    /// key and MTU and with the peer's index.
    pub open spec fn wf(self) -> bool {
        &&& sealable(self.mtu as int)
        &&& forall|i: int|
            0 <= i < self.peers.len() ==> {
                let p = #[trigger] self.peers[i];
                &&& p.pump.wf()
                &&& p.pump.mtu == self.mtu
                &&& p.pump.tun.secret == self.secret
                &&& p.pump.tun.index == p.index
            }
        &&& forall|i: int, j: int|
            0 <= i < j < self.peers.len() ==> (#[trigger] self.peers[i]).site_id != (
            #[trigger] self.peers[j]).site_id
    }

    /// `self` with other peers.
    pub open spec fn with(self, peers: Seq<PeerView>) -> RouterView {
        RouterView { peers, ..self }
    }

    /// `self` with the peer of a site changed by `f`.
    pub open spec fn with_peer(self, site_id: i64, f: spec_fn(PeerView) -> PeerView) -> RouterView {
        self.with(
            self.peers.map_values(
                |p: PeerView|
                    if p.site_id == site_id {
                        f(p)
                    } else {
                        p
                    },
            ),
        )
    }

    /// A packet can be routed: it is no longer than a peer takes, or no peer owns its
    /// destination.
    pub open spec fn takes(self, pkt: Seq<u8>) -> bool {
        match destination(pkt) {
            Some(dst) => unroutable(self.peers, dst) || pkt.len() <= self.room(),
            None => true,
        }
    }

    /// A site has a peer.
    pub open spec fn has_site(self, site_id: i64) -> bool {
        exists|i: int| 0 <= i < self.peers.len() && (#[trigger] self.peers[i]).site_id == site_id
    }

    /// `self` with the peers of these sites alone.
    pub open spec fn with_only(self, sites: Seq<i64>) -> RouterView {
        self.with(self.peers.filter(|p: PeerView| sites.contains(p.site_id)))
    }

    /// `self` without the peer of a site.
    pub open spec fn without_peer(self, site_id: i64) -> RouterView {
        self.with(self.peers.filter(|p: PeerView| p.site_id != site_id))
    }
}

/// The index after `i`; zero is left out.
pub open spec fn next_after(i: u32) -> u32 {
    if i == u32::MAX {
        1
    } else {
        (i + 1) as u32
    }
}

/// The router with the peer of a site added, or put in place of the one it had. The
/// handshake with it has been started, which left its tunnel in `state`.
pub open spec fn upserted(
    r: RouterView,
    site_id: i64,
    key: Seq<u8>,
    endpoint: SocketAddr,
    cidrs: Seq<CidrView>,
    state: boringtun::noise::Tunn,
) -> RouterView {
    let peer = PeerView {
        site_id,
        pump: opened_pump(r.secret, key, r.mtu, r.next_index, state),
        endpoint,
        cidrs,
        index: r.next_index,
    };
    RouterView {
        peers: r.without_peer(site_id).peers.push(peer),
        next_index: next_after(r.next_index),
        ..r
    }
}

impl Router {
    pub fn new(secret: StaticSecret, mtu: usize) -> (r: Self)
        requires
            sealable(mtu as int),
        ensures
            r@ == (RouterView { secret: secret.bytes@, mtu, peers: Seq::empty(), next_index: 1 }),
            r@.wf(),
    {
        let r = Router { secret, mtu, peers: Vec::new(), next_index: 1 };
        assert(r@.peers =~= Seq::empty());
        r
    }

    pub fn peer_count(&self) -> (r: usize)
        ensures
            r == self@.peers.len(),
    {
        self.peers.len()
    }

    pub fn remove_peer(&mut self, site_id: i64)
        requires
            old(self)@.wf(),
        ensures
            final(self)@ == old(self)@.without_peer(site_id),
            final(self)@.wf(),
    {
        let ghost before = self@.peers;
        let ghost keep = |p: PeerView| p.site_id != site_id;
        let ghost mut seen: int = 0;
        let mut i: usize = 0;
        assert(before.take(0).filter(keep) =~= Seq::empty()) by {
            reveal(Seq::filter);
        }
        assert(before.skip(0) =~= before);
        while i < self.peers.len()
            invariant
                before == old(self)@.peers,
                keep == (|p: PeerView| p.site_id != site_id),
                0 <= seen <= before.len(),
                i == before.take(seen).filter(keep).len(),
                self@ == old(self)@.with(before.take(seen).filter(keep) + before.skip(seen)),
            decreases before.len() - seen,
        {
            let ghost done = before.take(seen).filter(keep);
            let ghost now = self@.peers;
            assert(now[i as int] == before[seen]);
            assert(before.take(seen + 1) =~= before.take(seen).push(before[seen]));
            proof {
                lemma_filter_push(before.take(seen), before[seen], keep);
            }
            if self.peers[i].site_id == site_id {
                self.peers.remove(i);
                assert(self@.peers =~= now.remove(i as int));
                assert(self@.peers =~= done + before.skip(seen + 1));
            } else {
                assert(now =~= done.push(before[seen]) + before.skip(seen + 1));
                i += 1;
            }
            proof {
                seen = seen + 1;
            }
        }
        assert(self@.peers.len() == self.peers@.len());
        assert(before.skip(seen).len() == 0);
        assert(before.take(seen) =~= before);
        assert(self@.peers =~= before.filter(keep));
        proof {
            lemma_filtered(old(self)@, site_id);
        }
    }
}

/// Whether a site is among these.
fn is_among(sites: &Vec<i64>, site_id: i64) -> (r: bool)
    ensures
        r == sites@.contains(site_id),
{
    for i in 0..sites.len()
        invariant
            forall|j: int| 0 <= j < i ==> sites@[j] != site_id,
    {
        if sites[i] == site_id {
            return true;
        }
    }
    false
}

impl Router {
    /// Drop the peer of every site but these.
    pub fn retain_sites(&mut self, sites: &Vec<i64>)
        requires
            old(self)@.wf(),
        ensures
            final(self)@ == old(self)@.with_only(sites@),
            final(self)@.wf(),
    {
        let ghost before = self@.peers;
        let ghost keep = |p: PeerView| sites@.contains(p.site_id);
        let ghost mut seen: int = 0;
        let mut i: usize = 0;
        assert(before.take(0).filter(keep) =~= Seq::empty()) by {
            reveal(Seq::filter);
        }
        assert(before.skip(0) =~= before);
        while i < self.peers.len()
            invariant
                before == old(self)@.peers,
                keep == (|p: PeerView| sites@.contains(p.site_id)),
                0 <= seen <= before.len(),
                i == before.take(seen).filter(keep).len(),
                self@ == old(self)@.with(before.take(seen).filter(keep) + before.skip(seen)),
            decreases before.len() - seen,
        {
            let ghost done = before.take(seen).filter(keep);
            let ghost now = self@.peers;
            assert(now[i as int] == before[seen]);
            assert(before.take(seen + 1) =~= before.take(seen).push(before[seen]));
            proof {
                lemma_filter_push(before.take(seen), before[seen], keep);
            }
            if !is_among(sites, self.peers[i].site_id) {
                self.peers.remove(i);
                assert(self@.peers =~= now.remove(i as int));
                assert(self@.peers =~= done + before.skip(seen + 1));
            } else {
                assert(now =~= done.push(before[seen]) + before.skip(seen + 1));
                i += 1;
            }
            proof {
                seen = seen + 1;
            }
        }
        assert(self@.peers.len() == self.peers@.len());
        assert(before.skip(seen).len() == 0);
        assert(before.take(seen) =~= before);
        assert(self@.peers =~= before.filter(keep));
        proof {
            lemma_kept(old(self)@, keep);
        }
    }
}

impl Router {
    /// Where the peer of a site stands.
    fn find_site(&self, site_id: i64) -> (r: Option<usize>)
        requires
            self@.wf(),
        ensures
            match r {
                Some(i) => i < self@.peers.len() && self@.peers[i as int].site_id == site_id,
                None => forall|i: int|
                    0 <= i < self@.peers.len() ==> (#[trigger] self@.peers[i]).site_id != site_id,
            },
    {
        for i in 0..self.peers.len()
            invariant
                forall|j: int|
                    0 <= j < i ==> (#[trigger] self@.peers[j]).site_id != site_id,
        {
            assert(self@.peers[i as int] == self.peers@[i as int]@);
            if self.peers[i].site_id == site_id {
                return Some(i);
            }
        }
        None
    }

    /// Add or replace the peer for `site_id`. Returns the handshake initiation
    /// to send (so the session comes up without waiting for outbound data),
    /// paired with the peer endpoint.
    pub fn upsert_peer(
        &mut self,
        site_id: i64,
        peer_pub_b64: &str,
        endpoint: SocketAddr,
        cidrs: Vec<Cidr>,
    ) -> (r: Option<(Vec<u8>, SocketAddr)>)
        requires
            old(self)@.wf(),
        ensures
            final(self)@.wf(),
            match (public_key_of(peer_pub_b64@), r) {
                (Ok(key), Some((init, to))) => {
                    &&& is_greeting(
                        init@,
                        old(self)@.next_index,
                        final(self)@.peers.last().pump.tun.state,
                    )
                    &&& to == endpoint
                    &&& final(self)@ == upserted(
                        old(self)@,
                        site_id,
                        key,
                        endpoint,
                        cidr_views(cidrs@),
                        final(self)@.peers.last().pump.tun.state,
                    )
                },
                (Err(_), None) => final(self)@ == old(self)@,
                _ => false,
            },
    {
        match public_from_b64(peer_pub_b64) {
            Ok(peer_pub) => {
                self.remove_peer(site_id);
                proof {
                    lemma_filtered(old(self)@, site_id);
                }
                let ghost kept = self@;
                let index = self.next_index;
                self.next_index = if index == u32::MAX {
                    1
                } else {
                    index + 1
                };
                let mut pump = Pump::with_index(self.secret, peer_pub, self.mtu, index);
                let ghost fresh = pump@;
                let init = pump.initiate_handshake();
                let ghost o = choose|o: OutcomeView|
                    #[trigger] initiated(fresh.tun, o, pump@.tun) && opt_bytes(init) == network_of(
                        o,
                    );
                assert(tunn_starts(fresh.tun.state, o, pump@.tun.state));
                let peer = Peer { site_id, pump, endpoint, cidrs, index };
                let ghost view = peer@;
                self.peers.push(peer);
                assert(self@.peers =~= kept.peers.push(view));
                match init {
                    Some(b) => Some((b, endpoint)),
                    None => None,
                }
            },
            Err(_) => None,
        }
    }

    /// Replace the endpoint for a peer (relay/unrelay), keeping its session.
    pub fn set_endpoint(&mut self, site_id: i64, endpoint: SocketAddr)
        requires
            old(self)@.wf(),
        ensures
            final(self)@ == old(self)@.with_peer(
                site_id,
                |p: PeerView| PeerView { endpoint, ..p },
            ),
            final(self)@.wf(),
    {
        let found = self.find_site(site_id);
        let ghost f = |p: PeerView| PeerView { endpoint, ..p };
        match found {
            Some(i) => {
                assert(self@.peers[i as int] == self.peers@[i as int]@);
                self.peers[i].endpoint = endpoint;
                assert(self@.peers =~= old(self)@.peers.update(i as int, f(old(self)@.peers[i as int])));
            },
            None => {},
        }
        assert(self@.peers =~= old(self)@.with_peer(site_id, f).peers);
    }

    pub fn set_cidrs(&mut self, site_id: i64, cidrs: Vec<Cidr>)
        requires
            old(self)@.wf(),
        ensures
            final(self)@ == old(self)@.with_peer(
                site_id,
                |p: PeerView| PeerView { cidrs: cidr_views(cidrs@), ..p },
            ),
            final(self)@.wf(),
    {
        let found = self.find_site(site_id);
        let ghost f = |p: PeerView| PeerView { cidrs: cidr_views(cidrs@), ..p };
        match found {
            Some(i) => {
                assert(self@.peers[i as int] == self.peers@[i as int]@);
                self.peers[i].cidrs = cidrs;
                assert(self@.peers =~= old(self)@.peers.update(i as int, f(old(self)@.peers[i as int])));
            },
            None => {},
        }
        assert(self@.peers =~= old(self)@.with_peer(site_id, f).peers);
    }

    pub fn add_cidrs(&mut self, site_id: i64, cidrs: Vec<Cidr>)
        requires
            old(self)@.wf(),
        ensures
            final(self)@ == old(self)@.with_peer(
                site_id,
                |p: PeerView| PeerView { cidrs: p.cidrs + cidr_views(cidrs@), ..p },
            ),
            final(self)@.wf(),
    {
        let found = self.find_site(site_id);
        let ghost f = |p: PeerView| PeerView { cidrs: p.cidrs + cidr_views(cidrs@), ..p };
        let mut more = cidrs;
        match found {
            Some(i) => {
                assert(self@.peers[i as int] == self.peers@[i as int]@);
                self.peers[i].cidrs.append(&mut more);
                assert(self.peers@[i as int]@.cidrs =~= f(old(self)@.peers[i as int]).cidrs);
                assert(self@.peers =~= old(self)@.peers.update(i as int, f(old(self)@.peers[i as int])));
            },
            None => {},
        }
        assert(self@.peers =~= old(self)@.with_peer(site_id, f).peers);
    }
}

/// The destinations that some peers route, each with its site, peer by peer.
pub open spec fn routes_of(peers: Seq<PeerView>) -> Seq<(i64, CidrView)>
    decreases peers.len(),
{
    if peers.len() == 0 {
        seq![]
    } else {
        let p = peers.last();
        routes_of(peers.drop_last()) + p.cidrs.map_values(|c: CidrView| (p.site_id, c))
    }
}

/// The peer at `i` owns `dst`: one of its ranges holds it, no range of any peer that
/// holds it is longer, and none of an earlier peer is as long.
pub open spec fn owns(peers: Seq<PeerView>, dst: IpView, i: int) -> bool {
    &&& 0 <= i < peers.len()
    &&& exists|j: int|
        #![trigger peers[i].cidrs[j]]
        0 <= j < peers[i].cidrs.len() && covers(peers[i].cidrs[j], dst) && outranks(
            peers,
            dst,
            i,
            peers[i].cidrs[j].prefix,
        )
}

/// No range that holds `dst` is longer than `prefix`, and none of a peer before `i` is
/// as long.
pub open spec fn outranks(peers: Seq<PeerView>, dst: IpView, i: int, prefix: u8) -> bool {
    forall|k: int, l: int|
        #![trigger peers[k].cidrs[l]]
        0 <= k < peers.len() && 0 <= l < peers[k].cidrs.len() && covers(peers[k].cidrs[l], dst) ==> {
            &&& peers[k].cidrs[l].prefix <= prefix
            &&& k < i ==> peers[k].cidrs[l].prefix < prefix
        }
}

/// No range of any peer holds `dst`.
pub open spec fn unroutable(peers: Seq<PeerView>, dst: IpView) -> bool {
    forall|k: int, l: int|
        #![trigger peers[k].cidrs[l]]
        0 <= k < peers.len() && 0 <= l < peers[k].cidrs.len() ==> !covers(peers[k].cidrs[l], dst)
}

/// The destination address of an IP packet.
pub open spec fn destination(pkt: Seq<u8>) -> Option<IpView> {
    if pkt.len() >= 20 && pkt[0] / 16 == 4 {
        Some(IpView::V4(pkt.subrange(16, 20)))
    } else if pkt.len() >= 40 && pkt[0] / 16 == 6 {
        Some(IpView::V6(pkt.subrange(24, 40)))
    } else {
        None
    }
}

fn same_cidr(a: &Cidr, b: &Cidr) -> (r: bool)
    ensures
        r == (a@ == b@),
{
    a.prefix == b.prefix && a.net.same_as(&b.net)
}

/// Destination IP of a bare IPv4/IPv6 packet.
fn dest_ip(pkt: &[u8]) -> (r: Option<IpAddr>)
    ensures
        opt_ip(r) == destination(pkt@),
{
    if pkt.len() >= 20 && pkt[0] / 16 == 4 {
        let o: [u8; 4] = [pkt[16], pkt[17], pkt[18], pkt[19]];
        assert(o@ =~= pkt@.subrange(16, 20));
        return Some(IpAddr::V4(o));
    }
    if pkt.len() >= 40 && pkt[0] / 16 == 6 {
        let mut o: [u8; 16] = [0;16];
        for i in 0..16usize
            invariant
                pkt@.len() >= 40,
                forall|j: int| 0 <= j < i ==> o@[j] == pkt@[24 + j],
        {
            o[i] = pkt[24 + i];
        }
        assert(o@ =~= pkt@.subrange(24, 40));
        return Some(IpAddr::V6(o));
    }
    None
}

/// The ranges of `cidrs` that are not among `drop`.
fn kept_cidrs(cidrs: &Vec<Cidr>, drop: &[Cidr]) -> (r: Vec<Cidr>)
    ensures
        cidr_views(r@) == cidr_views(cidrs@).filter(
            |c: CidrView| !cidr_views(drop@).contains(c),
        ),
{
    let mut r: Vec<Cidr> = Vec::new();
    let ghost all = cidr_views(cidrs@);
    let ghost gone = cidr_views(drop@);
    let ghost keep = |c: CidrView| !gone.contains(c);
    assert(all.take(0).filter(keep) =~= Seq::empty()) by {
        reveal(Seq::filter);
    }
    for i in 0..cidrs.len()
        invariant
            all == cidr_views(cidrs@),
            gone == cidr_views(drop@),
            keep == (|c: CidrView| !gone.contains(c)),
            cidr_views(r@) == all.take(i as int).filter(keep),
    {
        let c = cidrs[i];
        let mut dropped = false;
        for j in 0..drop.len()
            invariant
                gone == cidr_views(drop@),
                dropped == (exists|k: int| 0 <= k < j && #[trigger] gone[k] == c@),
        {
            assert(gone[j as int] == drop@[j as int]@);
            if same_cidr(&c, &drop[j]) {
                dropped = true;
            }
        }
        assert(all.take(i + 1) =~= all.take(i as int).push(c@));
        proof {
            lemma_filter_push(all.take(i as int), c@, keep);
        }
        if !dropped {
            let ghost before = r@;
            r.push(c);
            assert(cidr_views(r@) =~= cidr_views(before).push(c@));
        }
    }
    assert(all.take(all.len() as int) =~= all);
    r
}

impl Router {
    pub fn remove_cidrs(&mut self, site_id: i64, drop: &[Cidr])
        requires
            old(self)@.wf(),
        ensures
            final(self)@ == old(self)@.with_peer(
                site_id,
                |p: PeerView|
                    PeerView {
                        cidrs: p.cidrs.filter(|c: CidrView| !cidr_views(drop@).contains(c)),
                        ..p
                    },
            ),
            final(self)@.wf(),
    {
        let found = self.find_site(site_id);
        let ghost f = |p: PeerView|
            PeerView {
                cidrs: p.cidrs.filter(|c: CidrView| !cidr_views(drop@).contains(c)),
                ..p
            };
        match found {
            Some(i) => {
                assert(self@.peers[i as int] == self.peers@[i as int]@);
                let kept = kept_cidrs(&self.peers[i].cidrs, drop);
                self.peers[i].cidrs = kept;
                assert(self@.peers =~= old(self)@.peers.update(i as int, f(old(self)@.peers[i as int])));
            },
            None => {},
        }
        assert(self@.peers =~= old(self)@.with_peer(site_id, f).peers);
    }

    /// All CIDRs currently routed (for programming OS routes).
    pub fn all_cidrs(&self) -> (r: Vec<(i64, Cidr)>)
        ensures
            r@.map_values(|x: (i64, Cidr)| (x.0, x.1@)) == routes_of(self@.peers),
    {
        let mut r: Vec<(i64, Cidr)> = Vec::new();
        let ghost peers = self@.peers;
        for i in 0..self.peers.len()
            invariant
                peers == self@.peers,
                r@.map_values(|x: (i64, Cidr)| (x.0, x.1@)) == routes_of(peers.take(i as int)),
        {
            let ghost p = peers[i as int];
            assert(p == self.peers@[i as int]@);
            let ghost before = routes_of(peers.take(i as int));
            let ghost mine = p.cidrs.map_values(|c: CidrView| (p.site_id, c));
            let count: usize = self.peers[i].cidrs.len();
            for j in 0..count
                invariant
                    count == self.peers@[i as int].cidrs@.len(),
                    i < self.peers@.len(),
                    p == self.peers@[i as int]@,
                    mine == p.cidrs.map_values(|c: CidrView| (p.site_id, c)),
                    r@.map_values(|x: (i64, Cidr)| (x.0, x.1@)) == before + mine.take(j as int),
            {
                let ghost was = r@;
                r.push((self.peers[i].site_id, self.peers[i].cidrs[j]));
                assert(r@.map_values(|x: (i64, Cidr)| (x.0, x.1@)) =~= was.map_values(
                    |x: (i64, Cidr)| (x.0, x.1@),
                ).push(mine[j as int]));
                assert(mine.take(j + 1) =~= mine.take(j as int).push(mine[j as int]));
            }
            assert(mine.take(mine.len() as int) =~= mine);
            assert(peers.take(i + 1).drop_last() =~= peers.take(i as int));
        }
        assert(peers.take(peers.len() as int) =~= peers);
        r
    }

    /// Index of the peer that owns `dst` by longest-prefix match.
    fn best_peer(&self, dst: IpAddr) -> (r: Option<usize>)
        ensures
            match r {
                Some(i) => owns(self@.peers, dst@, i as int),
                None => unroutable(self@.peers, dst@),
            },
    {
        let mut best: Option<(usize, u8)> = None;
        let ghost mut at: int = 0;
        let ghost peers = self@.peers;
        for i in 0..self.peers.len()
            invariant
                peers == self@.peers,
                best_of(peers, dst@, i as int, 0, best, at),
        {
            assert(peers[i as int] == self.peers@[i as int]@);
            let count: usize = self.peers[i].cidrs.len();
            for j in 0..count
                invariant
                    count == self.peers@[i as int].cidrs@.len(),
                    i < self.peers@.len(),
                    peers == self@.peers,
                    peers[i as int] == self.peers@[i as int]@,
                    best_of(peers, dst@, i as int, j as int, best, at),
            {
                let c = self.peers[i].cidrs[j];
                assert(c@ == peers[i as int].cidrs[j as int]);
                if c.contains(dst) {
                    let longer = match best {
                        Some((_, bp)) => c.prefix() > bp,
                        None => true,
                    };
                    if longer {
                        best = Some((i, c.prefix()));
                        proof {
                            at = j as int;
                        }
                    }
                }
            }
        }
        match best {
            Some((i, _)) => {
                assert(outranks(peers, dst@, i as int, peers[i as int].cidrs[at].prefix));
                Some(i)
            },
            None => None,
        }
    }
}

/// Among the peers before `i` and the first `j` ranges of the peer at `i`, `best` is
/// the first of the longest that hold `dst`; it stands at `at` in its peer.
spec fn best_of(
    peers: Seq<PeerView>,
    dst: IpView,
    i: int,
    j: int,
    best: Option<(usize, u8)>,
    at: int,
) -> bool {
    match best {
        Some((b, prefix)) => {
            &&& b < peers.len() && 0 <= at < peers[b as int].cidrs.len()
            &&& b < i || (b == i && at < j)
            &&& covers(peers[b as int].cidrs[at], dst) && peers[b as int].cidrs[at].prefix == prefix
            &&& forall|k: int, l: int|
                #![trigger peers[k].cidrs[l]]
                0 <= k < peers.len() && 0 <= l < peers[k].cidrs.len() && (k < i || (k == i && l < j))
                    && covers(peers[k].cidrs[l], dst) ==> {
                    &&& peers[k].cidrs[l].prefix <= prefix
                    &&& k < b ==> peers[k].cidrs[l].prefix < prefix
                }
        },
        None => forall|k: int, l: int|
            #![trigger peers[k].cidrs[l]]
            0 <= k < peers.len() && 0 <= l < peers[k].cidrs.len() && (k < i || (k == i && l < j))
                ==> !covers(peers[k].cidrs[l], dst),
    }
}

/// `r` with the tunnel of the peer at `i` in another state.
pub open spec fn with_tunnel(r: RouterView, i: int, tun: TunnView) -> RouterView {
    let p = r.peers[i];
    r.with(r.peers.update(i, PeerView { pump: p.pump.with(tun), ..p }))
}

/// An optional datagram with where it goes.
pub open spec fn addressed(b: Option<Seq<u8>>, to: SocketAddr) -> Option<(Seq<u8>, SocketAddr)> {
    match b {
        Some(b) => Some((b, to)),
        None => None,
    }
}

/// The content of an optional datagram with where it goes.
pub open spec fn opt_datagram(d: Option<(Vec<u8>, SocketAddr)>) -> Option<(Seq<u8>, SocketAddr)> {
    match d {
        Some((b, to)) => Some((b@, to)),
        None => None,
    }
}

/// Where a result of the peer with this endpoint goes.
pub open spec fn directed(r: InboundView, endpoint: SocketAddr) -> OutView {
    match r {
        InboundView::Packet(p) => OutView::ToHost(p),
        InboundView::Network(b) => OutView::ToNet(b, endpoint),
        InboundView::Nothing => OutView::ToHost(Seq::empty()),
    }
}

/// The contents of some results.
pub open spec fn out_views(r: Seq<Out>) -> Seq<OutView> {
    r.map_values(|x: Out| x@)
}

/// The peer at `i` is the first with this index.
pub open spec fn is_peer_of(peers: Seq<PeerView>, index: u32, i: int) -> bool {
    &&& 0 <= i < peers.len()
    &&& peers[i].index == index
    &&& forall|j: int| 0 <= j < i ==> (#[trigger] peers[j]).index != index
}

/// No peer has this index.
pub open spec fn no_peer_of(peers: Seq<PeerView>, index: u32) -> bool {
    forall|j: int| 0 <= j < peers.len() ==> (#[trigger] peers[j]).index != index
}

/// The datagrams of some peers' outcomes, each with where it goes.
pub open spec fn collected(peers: Seq<PeerView>, os: Seq<OutcomeView>) -> Seq<
    (Seq<u8>, SocketAddr),
>
    decreases os.len(),
{
    if os.len() == 0 {
        seq![]
    } else {
        let rest = collected(peers, os.drop_last());
        match network_of(os.last()) {
            Some(b) => rest.push((b, peers[os.len() - 1].endpoint)),
            None => rest,
        }
    }
}

/// What routing an outbound packet does: nothing without an owner of its destination;
/// otherwise the owner's tunnel takes it, and what the tunnel sends goes to the
/// owner's endpoint.
pub open spec fn routed(
    r: RouterView,
    pkt: Seq<u8>,
    out: Option<(Seq<u8>, SocketAddr)>,
    after: RouterView,
) -> bool {
    match destination(pkt) {
        Some(dst) => if unroutable(r.peers, dst) {
            out is None && after == r
        } else {
            exists|i: int, o: OutcomeView, tun: TunnView|
                owns(r.peers, dst, i) && #[trigger] encapsulated(
                    r.peers[i].pump.tun,
                    pkt,
                    o,
                    tun,
                ) && after == with_tunnel(r, i, tun) && out == addressed(
                    network_of(o),
                    r.peers[i].endpoint,
                )
        },
        None => out is None && after == r,
    }
}

/// What an inbound datagram does: nothing where it names no peer; otherwise that
/// peer's tunnel takes it, its packets go to the host and its datagrams to the peer.
pub open spec fn handled(r: RouterView, d: Seq<u8>, outs: Seq<OutView>, after: RouterView) -> bool {
    match peer_index(d) {
        Some(index) => if no_peer_of(r.peers, index) {
            outs.len() == 0 && after == r
        } else {
            exists|i: int, o: OutcomeView, mid: TunnView, sent: Seq<Seq<u8>>, tun: TunnView|
                is_peer_of(r.peers, index, i) && #[trigger] received(
                    r.peers[i].pump,
                    d,
                    o,
                    mid,
                    sent,
                    tun,
                ) && after == with_tunnel(r, i, tun) && outs == received_results(
                    o,
                    sent,
                ).map_values(|x: InboundView| directed(x, r.peers[i].endpoint))
        },
        None => outs.len() == 0 && after == r,
    }
}

/// Every peer's timers have advanced with the outcomes `os`, and nothing else changed.
pub open spec fn ticked(r: RouterView, os: Seq<OutcomeView>, after: RouterView) -> bool {
    &&& os.len() == r.peers.len()
    &&& after == r.with(after.peers)
    &&& after.peers.len() == r.peers.len()
    &&& forall|i: int|
        #![trigger after.peers[i]]
        0 <= i < os.len() ==> {
            &&& timed(r.peers[i].pump.tun, os[i], after.peers[i].pump.tun)
            &&& after.peers[i] == (PeerView {
                pump: r.peers[i].pump.with(after.peers[i].pump.tun),
                ..r.peers[i]
            })
        }
}

impl Router {
    /// The peer endpoint a destination routes to, without encrypting (routing
    /// decision only).
    pub fn route_target(&self, dst: IpAddr) -> (r: Option<SocketAddr>)
        ensures
            match r {
                Some(to) => exists|i: int| #[trigger]
                    owns(self@.peers, dst@, i) && to == self@.peers[i].endpoint,
                None => unroutable(self@.peers, dst@),
            },
    {
        match self.best_peer(dst) {
            Some(i) => {
                assert(self@.peers[i as int] == self.peers@[i as int]@);
                Some(self.peers[i].endpoint)
            },
            None => None,
        }
    }

    /// Whether a packet can be routed: it is no longer than a peer takes, or no peer owns
    /// its destination.
    pub fn takes(&self, ip_pkt: &[u8]) -> (r: bool)
        ensures
            r == self@.takes(ip_pkt@),
    {
        let room: usize = if self.mtu > 1500 {
            self.mtu
        } else {
            1500
        };
        match dest_ip(ip_pkt) {
            Some(dst) => match self.best_peer(dst) {
                Some(i) => {
                    proof {
                        lemma_owned_is_routable(self@.peers, dst@, i as int);
                    }
                    ip_pkt.len() <= room
                },
                None => true,
            },
            None => true,
        }
    }

    /// Route an outbound plaintext IP packet to its peer and encrypt it. Returns
    /// None when no peer owns the destination, or when the session is not yet
    /// established (the packet is queued until the handshake completes).
    pub fn route_outbound(&mut self, ip_pkt: &[u8]) -> (r: Option<(Vec<u8>, SocketAddr)>)
        requires
            old(self)@.wf(),
            old(self)@.takes(ip_pkt@),
        ensures
            final(self)@.wf(),
            routed(old(self)@, ip_pkt@, opt_datagram(r), final(self)@),
    {
        match dest_ip(ip_pkt) {
            Some(dst) => match self.best_peer(dst) {
                Some(i) => {
                    let ghost was = self@.peers[i as int];
                    assert(was == self.peers@[i as int]@);
                    proof {
                        lemma_owned_is_routable(self@.peers, dst@, i as int);
                    }
                    let endpoint = self.peers[i].endpoint;
                    let dg = self.peers[i].pump.encapsulate(ip_pkt);
                    let ghost tun = self.peers@[i as int]@.pump.tun;
                    let ghost o = choose|o: OutcomeView|
                        #[trigger] encapsulated(was.pump.tun, ip_pkt@, o, tun) && opt_bytes(dg)
                            == network_of(o);
                    assert(encapsulated(old(self)@.peers[i as int].pump.tun, ip_pkt@, o, tun));
                    assert(self@.peers =~= with_tunnel(old(self)@, i as int, tun).peers);
                    assert(self@.wf()) by {
                        lemma_with_tunnel(old(self)@, i as int, tun);
                    }
                    match dg {
                        Some(b) => Some((b, endpoint)),
                        None => None,
                    }
                },
                None => None,
            },
            None => None,
        }
    }

    /// Feed an inbound datagram; returns decrypted IP packets to deliver to the
    /// host and any bytes that must be written back to the peer
    /// (handshake/cookie), each already paired with that peer's endpoint.
    pub fn handle_inbound(&mut self, datagram: &[u8]) -> (r: Vec<Out>)
        requires
            old(self)@.wf(),
        ensures
            final(self)@.wf(),
            handled(old(self)@, datagram@, out_views(r@), final(self)@),
    {
        let mut out: Vec<Out> = Vec::new();
        let index: u32 = match peer_index_of(datagram) {
            Some(index) => index,
            None => {
                return out;
            },
        };
        let mut i: usize = 0;
        while i < self.peers.len() && self.peers[i].index != index
            invariant
                self@ == old(self)@,
                i <= self.peers@.len(),
                forall|j: int| 0 <= j < i ==> (#[trigger] self@.peers[j]).index != index,
            decreases self.peers@.len() - i,
        {
            assert(self@.peers[i as int] == self.peers@[i as int]@);
            i += 1;
        }
        if i == self.peers.len() {
            return out;
        }
        let ghost was = self@.peers[i as int];
        assert(was == self.peers@[i as int]@);
        assert(is_peer_of(self@.peers, index, i as int));
        let endpoint = self.peers[i].endpoint;
        let results = self.peers[i].pump.receive(datagram);
        let ghost tun = self.peers@[i as int]@.pump.tun;
        let ghost (o, mid, outs) = choose|o: OutcomeView, mid: TunnView, outs: Seq<Seq<u8>>|
            #[trigger] received(was.pump, datagram@, o, mid, outs, tun) && inbound_views(results@)
                == received_results(o, outs);
        assert(received(old(self)@.peers[i as int].pump, datagram@, o, mid, outs, tun));
        assert(self@.peers =~= with_tunnel(old(self)@, i as int, tun).peers);
        assert(self@.wf()) by {
            lemma_with_tunnel(old(self)@, i as int, tun);
        }
        let ghost all = inbound_views(results@);
        let ghost to = |x: InboundView| directed(x, endpoint);
        proof {
            lemma_results_ask(o, outs);
        }
        let n: usize = results.len();
        let mut results = results;
        let ghost total = results@;
        for k in 0..n
            invariant
                n == all.len(),
                n == total.len(),
                all == inbound_views(total),
                results@ == total.skip(k as int),
                to == (|x: InboundView| directed(x, endpoint)),
                forall|j: int| 0 <= j < n ==> !(#[trigger] all[j] is Nothing),
                out_views(out@) == all.take(k as int).map_values(to),
        {
            let one = results.remove(0);
            assert(one@ == all[k as int]);
            let ghost before = out@;
            match one {
                Inbound::Packet(p) => {
                    out.push(Out::ToHost(p));
                },
                Inbound::Network(b) => {
                    out.push(Out::ToNet(b, endpoint));
                },
                Inbound::Nothing => {},
            }
            assert(out_views(out@) =~= out_views(before).push(to(all[k as int])));
            assert(all.take(k + 1).map_values(to) =~= all.take(k as int).map_values(to).push(
                to(all[k as int]),
            ));
        }
        assert(all.take(n as int) =~= all);
        assert(out_views(out@) =~= received_results(o, outs).map_values(
            |x: InboundView| directed(x, old(self)@.peers[i as int].endpoint),
        ));
        out
    }
}

impl Router {
    /// Drive every peer's WireGuard timers; returns datagrams to send.
    pub fn tick(&mut self) -> (r: Vec<(Vec<u8>, SocketAddr)>)
        requires
            old(self)@.wf(),
        ensures
            final(self)@.wf(),
            exists|os: Seq<OutcomeView>|
                #[trigger] ticked(old(self)@, os, final(self)@) && datagram_views(r@) == collected(
                    old(self)@.peers,
                    os,
                ),
    {
        let mut out: Vec<(Vec<u8>, SocketAddr)> = Vec::new();
        let ghost start = self@;
        let ghost mut os: Seq<OutcomeView> = seq![];
        let n: usize = self.peers.len();
        for i in 0..n
            invariant
                start == old(self)@,
                start.wf(),
                n == start.peers.len(),
                n == self.peers@.len(),
                os.len() == i,
                self@ == start.with(self@.peers),
                self@.wf(),
                forall|j: int| i <= j < n ==> #[trigger] self@.peers[j] == start.peers[j],
                forall|j: int|
                    #![trigger self@.peers[j]]
                    0 <= j < i ==> {
                        &&& timed(start.peers[j].pump.tun, os[j], self@.peers[j].pump.tun)
                        &&& self@.peers[j] == (PeerView {
                            pump: start.peers[j].pump.with(self@.peers[j].pump.tun),
                            ..start.peers[j]
                        })
                    },
                datagram_views(out@) == collected(start.peers, os),
        {
            let ghost now = self@;
            let ghost was = self@.peers[i as int];
            assert(was == self.peers@[i as int]@);
            let endpoint = self.peers[i].endpoint;
            let sent = self.peers[i].pump.update_timers();
            let ghost tun = self.peers@[i as int]@.pump.tun;
            let ghost o = choose|o: OutcomeView|
                #[trigger] timed(was.pump.tun, o, tun) && opt_bytes(sent) == network_of(o);
            assert(self@.peers =~= with_tunnel(now, i as int, tun).peers);
            proof {
                lemma_with_tunnel(now, i as int, tun);
                assert(os.push(o).drop_last() =~= os);
                os = os.push(o);
            }
            match sent {
                Some(b) => {
                    let ghost before = out@;
                    out.push((b, endpoint));
                    assert(datagram_views(out@) =~= datagram_views(before).push((b@, endpoint)));
                },
                None => {},
            }
        }
        assert(ticked(start, os, self@));
        out
    }
}

proof fn lemma_owned_is_routable(peers: Seq<PeerView>, dst: IpView, i: int)
    requires
        owns(peers, dst, i),
    ensures
        !unroutable(peers, dst),
{
    let j = choose|j: int|
        #![trigger peers[i].cidrs[j]]
        0 <= j < peers[i].cidrs.len() && covers(peers[i].cidrs[j], dst) && outranks(
            peers,
            dst,
            i,
            peers[i].cidrs[j].prefix,
        );
    assert(covers(peers[i].cidrs[j], dst));
}

/// Routing changes neither the ranges of the peers nor the MTU.
pub proof fn lemma_routed_takes(
    r: RouterView,
    pkt: Seq<u8>,
    out: Option<(Seq<u8>, SocketAddr)>,
    after: RouterView,
    other: Seq<u8>,
)
    requires
        routed(r, pkt, out, after),
    ensures
        after.mtu == r.mtu,
        after.takes(other) == r.takes(other),
{
    assert(after.peers.len() == r.peers.len());
    assert forall|k: int| 0 <= k < r.peers.len() implies (#[trigger] after.peers[k]).cidrs
        == r.peers[k].cidrs by {}
    if destination(other) is Some {
        let dst = destination(other)->0;
        if unroutable(r.peers, dst) {
            assert forall|k: int, l: int|
                #![trigger after.peers[k].cidrs[l]]
                0 <= k < after.peers.len() && 0 <= l < after.peers[k].cidrs.len() implies !covers(
                after.peers[k].cidrs[l],
                dst,
            ) by {
                assert(!covers(r.peers[k].cidrs[l], dst));
            }
        }
        if unroutable(after.peers, dst) {
            assert forall|k: int, l: int|
                #![trigger r.peers[k].cidrs[l]]
                0 <= k < r.peers.len() && 0 <= l < r.peers[k].cidrs.len() implies !covers(
                r.peers[k].cidrs[l],
                dst,
            ) by {
                assert(!covers(after.peers[k].cidrs[l], dst));
            }
        }
    }
}

proof fn lemma_results_ask(o: OutcomeView, outs: Seq<Seq<u8>>)
    ensures
        forall|j: int|
            0 <= j < received_results(o, outs).len() ==> !(#[trigger] received_results(o, outs)[j]
                is Nothing),
{
}

proof fn lemma_with_tunnel(r: RouterView, i: int, tun: TunnView)
    requires
        r.wf(),
        0 <= i < r.peers.len(),
        r.peers[i].pump.with(tun).wf(),
        tun.secret == r.peers[i].pump.tun.secret,
        tun.index == r.peers[i].pump.tun.index,
    ensures
        with_tunnel(r, i, tun).wf(),
{
    let after = with_tunnel(r, i, tun);
    assert forall|k: int, l: int| 0 <= k < l < after.peers.len() implies (#[trigger] after.peers[k]).site_id
        != (#[trigger] after.peers[l]).site_id by {
        assert(after.peers[k].site_id == r.peers[k].site_id);
        assert(after.peers[l].site_id == r.peers[l].site_id);
    }
}

proof fn lemma_filter_push<A>(s: Seq<A>, x: A, f: spec_fn(A) -> bool)
    ensures
        s.push(x).filter(f) == if f(x) {
            s.filter(f).push(x)
        } else {
            s.filter(f)
        },
{
    reveal(Seq::filter);
    assert(s.push(x).drop_last() =~= s);
}

/// Filtering keeps the order: each kept element comes from a place, and the places
/// ascend.
pub proof fn lemma_filter_places<A>(s: Seq<A>, f: spec_fn(A) -> bool) -> (places: Seq<int>)
    ensures
        places.len() == s.filter(f).len(),
        forall|i: int|
            0 <= i < places.len() ==> 0 <= #[trigger] places[i] < s.len() && s.filter(f)[i]
                == s[places[i]] && f(s[places[i]]),
        forall|i: int, j: int| 0 <= i < j < places.len() ==> places[i] < places[j],
    decreases s.len(),
{
    reveal(Seq::filter);
    if s.len() == 0 {
        seq![]
    } else {
        let rest = lemma_filter_places(s.drop_last(), f);
        if f(s.last()) {
            rest.push(s.len() - 1)
        } else {
            rest
        }
    }
}

/// A router with some of its peers is well formed.
proof fn lemma_kept(r: RouterView, keep: spec_fn(PeerView) -> bool)
    requires
        r.wf(),
    ensures
        r.with(r.peers.filter(keep)).wf(),
        forall|i: int|
            0 <= i < r.peers.filter(keep).len() ==> keep(#[trigger] r.peers.filter(keep)[i]),
{
    let places = lemma_filter_places(r.peers, keep);
    let kept = r.peers.filter(keep);
    assert forall|i: int, j: int| 0 <= i < j < kept.len() implies (#[trigger] kept[i]).site_id != (
    #[trigger] kept[j]).site_id by {
        assert(places[i] < places[j]);
        assert(kept[i] == r.peers[places[i]] && kept[j] == r.peers[places[j]]);
    }
    assert forall|i: int| 0 <= i < kept.len() implies r.peers.contains(#[trigger] kept[i]) by {
        assert(kept[i] == r.peers[places[i]]);
    }
}

proof fn lemma_filtered(r: RouterView, site_id: i64)
    requires
        r.wf(),
    ensures
        r.without_peer(site_id).wf(),
        forall|i: int|
            0 <= i < r.without_peer(site_id).peers.len() ==> (#[trigger] r.without_peer(
                site_id,
            ).peers[i]).site_id != site_id,
{
    lemma_kept(r, |p: PeerView| p.site_id != site_id);
}

/// A site has a peer after it is added; of the others, those that had one.
pub proof fn lemma_upserted_sites(
    r: RouterView,
    site_id: i64,
    key: Seq<u8>,
    endpoint: SocketAddr,
    cidrs: Seq<CidrView>,
    state: boringtun::noise::Tunn,
    id: i64,
)
    ensures
        upserted(r, site_id, key, endpoint, cidrs, state).has_site(id) <==> id == site_id
            || r.has_site(id),
{
    let keep = |p: PeerView| p.site_id != site_id;
    let after = upserted(r, site_id, key, endpoint, cidrs, state);
    let kept = r.peers.filter(keep);
    let places = lemma_filter_places(r.peers, keep);
    if id == site_id {
        assert(after.peers.last().site_id == id);
    } else {
        if r.has_site(id) {
            let i = choose|i: int|
                0 <= i < r.peers.len() && (#[trigger] r.peers[i]).site_id == id;
            r.peers.lemma_filter_contains(keep, i);
            let k = choose|k: int| 0 <= k < kept.len() && kept[k] == r.peers[i];
            assert(after.peers[k].site_id == id);
        }
        if after.has_site(id) {
            let k = choose|k: int|
                0 <= k < after.peers.len() && (#[trigger] after.peers[k]).site_id == id;
            assert(after.peers[k] == r.peers[places[k]]);
        }
    }
}

/// Of the sites that are kept those have a peer that had one.
pub proof fn lemma_only_sites(r: RouterView, sites: Seq<i64>, id: i64)
    ensures
        r.with_only(sites).has_site(id) <==> sites.contains(id) && r.has_site(id),
{
    let keep = |p: PeerView| sites.contains(p.site_id);
    let kept = r.peers.filter(keep);
    let places = lemma_filter_places(r.peers, keep);
    if sites.contains(id) && r.has_site(id) {
        let i = choose|i: int| 0 <= i < r.peers.len() && (#[trigger] r.peers[i]).site_id == id;
        r.peers.lemma_filter_contains(keep, i);
        let k = choose|k: int| 0 <= k < kept.len() && kept[k] == r.peers[i];
        assert(r.with_only(sites).peers[k].site_id == id);
    }
    if r.with_only(sites).has_site(id) {
        let k = choose|k: int| 0 <= k < kept.len() && (#[trigger] kept[k]).site_id == id;
        assert(kept[k] == r.peers[places[k]]);
    }
}

// ---------------------------------------------------------------------------
// Laws
// ---------------------------------------------------------------------------
/// A range holds its own network address, whatever its prefix.
pub proof fn law_range_covers_itself(c: CidrView)
    ensures
        covers(c, c.net),
{
}

/// What a range holds, a shorter prefix of the same address holds too.
pub proof fn law_shorter_prefix_covers_more(c: CidrView, shorter: u8, ip: IpView)
    requires
        shorter <= c.prefix,
        covers(c, ip),
    ensures
        covers(CidrView { prefix: shorter, ..c }, ip),
{
}

/// A range with an empty prefix holds every address of its version.
pub proof fn law_empty_prefix_covers_version(c: CidrView, ip: IpView)
    requires
        c.prefix == 0,
        c.net is V4 == ip is V4,
    ensures
        covers(c, ip),
{
}

/// A host route holds its address alone.
pub proof fn law_host_route_is_exact(net: IpView, ip: IpView)
    requires
        net matches IpView::V4(o) ==> o.len() == 4,
        net matches IpView::V6(o) ==> o.len() == 16,
        ip matches IpView::V4(o) ==> o.len() == 4,
        ip matches IpView::V6(o) ==> o.len() == 16,
    ensures
        covers(CidrView { net, prefix: bits_in(net) }, ip) <==> ip == net,
{
    match (net, ip) {
        (IpView::V4(n), IpView::V4(a)) => {
            if same_bits(n, a, 32) {
                lemma_all_octets(n, a, 4);
                assert(n =~= a);
            }
        },
        (IpView::V6(n), IpView::V6(a)) => {
            if same_bits(n, a, 128) {
                lemma_all_octets(n, a, 16);
                assert(n =~= a);
            }
        },
        _ => {},
    }
}

proof fn lemma_all_octets(a: Seq<u8>, b: Seq<u8>, k: int)
    requires
        0 <= k,
        same_bits(a, b, 8 * k),
    ensures
        forall|i: int| 0 <= i < k ==> a[i] == b[i],
    decreases k,
{
    if k > 0 {
        assert(same_bits(a, b, 8 * (k - 1)));
        lemma_all_octets(a, b, k - 1);
        lemma_same_octet(a, b, k - 1);
    }
}

/// At most one peer owns a destination.
pub proof fn law_owner_is_unique(peers: Seq<PeerView>, dst: IpView, i: int, k: int)
    requires
        owns(peers, dst, i),
        owns(peers, dst, k),
    ensures
        i == k,
{
    let j = choose|j: int|
        #![trigger peers[i].cidrs[j]]
        0 <= j < peers[i].cidrs.len() && covers(peers[i].cidrs[j], dst) && outranks(
            peers,
            dst,
            i,
            peers[i].cidrs[j].prefix,
        );
    let l = choose|l: int|
        #![trigger peers[k].cidrs[l]]
        0 <= l < peers[k].cidrs.len() && covers(peers[k].cidrs[l], dst) && outranks(
            peers,
            dst,
            k,
            peers[k].cidrs[l].prefix,
        );
    assert(peers[i].cidrs[j].prefix <= peers[k].cidrs[l].prefix);
    assert(peers[k].cidrs[l].prefix <= peers[i].cidrs[j].prefix);
}

/// A site has one peer after it is added, with what it was added with, and no other
/// site's peer is touched.
pub proof fn law_upsert_replaces_site(
    r: RouterView,
    site_id: i64,
    key: Seq<u8>,
    endpoint: SocketAddr,
    cidrs: Seq<CidrView>,
    state: boringtun::noise::Tunn,
)
    requires
        r.wf(),
    ensures
        upserted(r, site_id, key, endpoint, cidrs, state).without_peer(site_id).peers == r.without_peer(
            site_id,
        ).peers,
        upserted(r, site_id, key, endpoint, cidrs, state).peers.last().site_id == site_id,
        upserted(r, site_id, key, endpoint, cidrs, state).peers.last().endpoint == endpoint,
        upserted(r, site_id, key, endpoint, cidrs, state).peers.last().cidrs == cidrs,
        upserted(r, site_id, key, endpoint, cidrs, state).peers.last().pump.tun.peer == key,
{
    let keep = |p: PeerView| p.site_id != site_id;
    let kept = r.peers.filter(keep);
    let after = upserted(r, site_id, key, endpoint, cidrs, state);
    lemma_filter_push(kept, after.peers.last(), keep);
    lemma_filter_idempotent(r.peers, keep);
}

proof fn lemma_filter_idempotent<A>(s: Seq<A>, f: spec_fn(A) -> bool)
    ensures
        s.filter(f).filter(f) == s.filter(f),
    decreases s.len(),
{
    reveal(Seq::filter);
    if s.len() > 0 {
        lemma_filter_idempotent(s.drop_last(), f);
        if f(s.last()) {
            lemma_filter_push(s.drop_last().filter(f), s.last(), f);
        }
    }
}

/// The indexes of the peers are below the next one, above zero, and none occurs twice.
pub open spec fn fresh_indexes(r: RouterView) -> bool {
    &&& r.next_index > 0
    &&& forall|i: int|
        0 <= i < r.peers.len() ==> 0 < (#[trigger] r.peers[i]).index < r.next_index
    &&& forall|i: int, j: int|
        0 <= i < j < r.peers.len() ==> (#[trigger] r.peers[i]).index != (#[trigger] r.peers[j]).index
}

/// Peers keep distinct indexes as they are added, until all indexes have been used.
pub proof fn law_indexes_stay_distinct(
    r: RouterView,
    site_id: i64,
    key: Seq<u8>,
    endpoint: SocketAddr,
    cidrs: Seq<CidrView>,
    state: boringtun::noise::Tunn,
)
    requires
        fresh_indexes(r),
        r.next_index < u32::MAX,
    ensures
        fresh_indexes(r.without_peer(site_id)),
        fresh_indexes(upserted(r, site_id, key, endpoint, cidrs, state)),
{
    let places = lemma_filter_places(r.peers, |p: PeerView| p.site_id != site_id);
    let kept = r.without_peer(site_id).peers;
    assert forall|i: int, j: int| 0 <= i < j < kept.len() implies (#[trigger] kept[i]).index != (
    #[trigger] kept[j]).index by {
        assert(places[i] < places[j]);
        assert(kept[i] == r.peers[places[i]] && kept[j] == r.peers[places[j]]);
    }
    assert forall|i: int| 0 <= i < kept.len() implies 0 < (#[trigger] kept[i]).index
        < r.next_index by {
        assert(kept[i] == r.peers[places[i]]);
    }
}

/// A response to the initiation of a peer is handed to that peer and to no other.
pub proof fn law_response_goes_to_its_peer(r: RouterView, i: int, init: Seq<u8>, d: Seq<u8>)
    requires
        fresh_indexes(r),
        0 <= i < r.peers.len(),
        r.peers[i].index < 0x100_0000,
        is_initiation(init, r.peers[i].index),
        crate::wg::is_message(d),
        crate::wg::le32(d, 0) != 1,
        crate::wg::le32(d, crate::wg::receiver_at(d)->0) == crate::wg::le32(init, 4),
    ensures
        peer_index(d) == Some(r.peers[i].index),
        is_peer_of(r.peers, r.peers[i].index, i),
        forall|k: int| #[trigger] is_peer_of(r.peers, r.peers[i].index, k) ==> k == i,
{
    crate::wg::law_response_finds_its_peer(init, r.peers[i].index, d);
}

/// An inbound datagram that names no peer does nothing. Otherwise the tunnel of the peer
/// that it names changes at most, and what is sent goes to that peer's endpoint.
pub proof fn law_inbound_concerns_one_peer(
    r: RouterView,
    d: Seq<u8>,
    outs: Seq<OutView>,
    after: RouterView,
)
    requires
        handled(r, d, outs, after),
    ensures
        match peer_index(d) {
            Some(index) => no_peer_of(r.peers, index) ==> outs.len() == 0 && after == r,
            None => outs.len() == 0 && after == r,
        },
        forall|i: int|
            peer_index(d) is Some && #[trigger] is_peer_of(r.peers, peer_index(d)->0, i) ==> {
                &&& after == with_tunnel(r, i, after.peers[i].pump.tun)
                &&& forall|k: int|
                    0 <= k < outs.len() ==> ((#[trigger] outs[k]) matches OutView::ToNet(_, to)
                        ==> to == r.peers[i].endpoint)
            },
{
    assert forall|i: int|
        peer_index(d) is Some && #[trigger] is_peer_of(r.peers, peer_index(d)->0, i) implies {
        &&& after == with_tunnel(r, i, after.peers[i].pump.tun)
        &&& forall|k: int|
            0 <= k < outs.len() ==> ((#[trigger] outs[k]) matches OutView::ToNet(_, to) ==> to
                == r.peers[i].endpoint)
    } by {
        let index = peer_index(d)->0;
        assert(r.peers[i].index == index);
        let (j, o, mid, flushed, tun) = choose|
            j: int,
            o: OutcomeView,
            mid: TunnView,
            flushed: Seq<Seq<u8>>,
            tun: TunnView,
        |
            is_peer_of(r.peers, index, j) && #[trigger] received(
                r.peers[j].pump,
                d,
                o,
                mid,
                flushed,
                tun,
            ) && after == with_tunnel(r, j, tun) && outs == received_results(o, flushed).map_values(
                |x: InboundView| directed(x, r.peers[j].endpoint),
            );
        assert(i == j);
        assert(after.peers[i].pump.tun == tun);
    }
}

/// Ranges that are added to a peer and removed again leave it with those that it had,
/// where it had none of them before.
pub proof fn law_added_ranges_are_removed(old_cidrs: Seq<CidrView>, more: Seq<CidrView>)
    requires
        forall|i: int| 0 <= i < old_cidrs.len() ==> !more.contains(#[trigger] old_cidrs[i]),
    ensures
        (old_cidrs + more).filter(|c: CidrView| !more.contains(c)) == old_cidrs,
{
    let f = |c: CidrView| !more.contains(c);
    Seq::filter_distributes_over_add(old_cidrs, more, f);
    lemma_filter_all(old_cidrs, f);
    lemma_filter_none(more, f);
    assert(old_cidrs + Seq::<CidrView>::empty() =~= old_cidrs);
}

pub proof fn lemma_filter_all<A>(s: Seq<A>, f: spec_fn(A) -> bool)
    requires
        forall|i: int| 0 <= i < s.len() ==> f(#[trigger] s[i]),
    ensures
        s.filter(f) == s,
    decreases s.len(),
{
    reveal(Seq::filter);
    if s.len() > 0 {
        lemma_filter_all(s.drop_last(), f);
        assert(f(s[s.len() - 1]));
        assert(s.drop_last().push(s.last()) =~= s);
    }
}

proof fn lemma_filter_none<A>(s: Seq<A>, f: spec_fn(A) -> bool)
    requires
        forall|i: int| 0 <= i < s.len() ==> !f(#[trigger] s[i]),
    ensures
        s.filter(f) == Seq::<A>::empty(),
    decreases s.len(),
{
    reveal(Seq::filter);
    if s.len() > 0 {
        lemma_filter_none(s.drop_last(), f);
        assert(!f(s[s.len() - 1]));
    }
}

/// A packet is routed by its destination, whatever its source is: the four octets behind
/// twelve octets of header and four of source in IPv4, and the sixteen octets behind eight
/// octets of header and sixteen of source in IPv6.
pub proof fn law_destination_is_read(head: Seq<u8>, src: Seq<u8>, dst: Seq<u8>, rest: Seq<u8>)
    requires
        head.len() > 0,
    ensures
        head.len() == 12 && src.len() == 4 && dst.len() == 4 && head[0] / 16 == 4 ==> destination(
            head + src + dst + rest,
        ) == Some(IpView::V4(dst)),
        head.len() == 8 && src.len() == 16 && dst.len() == 16 && head[0] / 16 == 6 ==> destination(
            head + src + dst + rest,
        ) == Some(IpView::V6(dst)),
        head[0] / 16 != 4 && head[0] / 16 != 6 ==> destination(head) is None,
        head.len() < 20 || (head.len() < 40 && head[0] / 16 == 6) ==> destination(head) is None,
{
    let pkt = head + src + dst + rest;
    assert(pkt[0] == head[0]);
    if head.len() == 12 && src.len() == 4 && dst.len() == 4 {
        assert(pkt.subrange(16, 20) =~= dst);
    }
    if head.len() == 8 && src.len() == 16 && dst.len() == 16 {
        assert(pkt.subrange(24, 40) =~= dst);
    }
}

/// A range holds the addresses of its version whose leading octets are its own and, where
/// the prefix ends inside an octet, whose next octet has the same leading bits.
pub proof fn law_range_is_told_by_leading_octets(n: Seq<u8>, a: Seq<u8>, prefix: u8)
    requires
        n.len() == a.len(),
        prefix <= 8 * n.len(),
    ensures
        ({
            let k = (prefix / 8) as int;
            let left = (8 - prefix % 8) as u8;
            let same = n.take(k) == a.take(k) && (prefix % 8 != 0 ==> n[k] >> left == a[k] >> left);
            &&& covers(CidrView { net: IpView::V4(n), prefix }, IpView::V4(a)) <==> same
            &&& covers(CidrView { net: IpView::V6(n), prefix }, IpView::V6(a)) <==> same
            &&& !covers(CidrView { net: IpView::V4(n), prefix }, IpView::V6(a))
            &&& !covers(CidrView { net: IpView::V6(n), prefix }, IpView::V4(a))
        }),
{
    let k = (prefix / 8) as int;
    let rem = prefix % 8;
    let left = (8 - prefix % 8) as u8;
    assert(prefix == 8 * k + rem);
    if same_bits(n, a, 8 * k) {
        lemma_all_octets(n, a, k);
        assert(n.take(k) =~= a.take(k));
    }
    if n.take(k) == a.take(k) {
        assert forall|i: int| 0 <= i < 8 * k implies #[trigger] bit_at(n, i) == bit_at(a, i) by {
            assert(n.take(k)[i / 8] == n[i / 8] && a.take(k)[i / 8] == a[i / 8]);
        }
        if rem != 0 {
            lemma_same_rest(n, a, k, rem);
            let x = n[k];
            let y = a[k];
            assert((x & (0xffu8 << left) == y & (0xffu8 << left)) == (x >> left == y >> left))
                by (bit_vector)
                requires
                    left <= 7,
            ;
        }
    } else {
        assert(!same_bits(n, a, prefix as int)) by {
            if same_bits(n, a, prefix as int) {
                assert(same_bits(n, a, 8 * k));
            }
        }
    }
}

/// The four octets of an IPv4 range are read back from its text with the prefix behind a
/// slash, and so are the sixteen of an IPv6 range; a prefix beyond the address is refused.
/// A bare address is a range of its own.
pub proof fn law_range_is_read_back(o: Seq<u8>, prefix: nat)
    requires
        o.len() == 4 || o.len() == 16,
    ensures
        ({
            let p = crate::text::decimal(prefix);
            let four = crate::net::dotted(o);
            let six = crate::net::colons(crate::net::hex_texts(o));
            &&& o.len() == 4 ==> cidr_of(four) == Some(CidrView { net: IpView::V4(o), prefix: 32 })
            &&& o.len() == 4 ==> cidr_of(four + seq!['/'] + p) == if prefix <= 32 {
                Some(CidrView { net: IpView::V4(o), prefix: prefix as u8 })
            } else {
                None
            }
            &&& o.len() == 16 ==> cidr_of(six) == Some(CidrView { net: IpView::V6(o), prefix: 128 })
            &&& o.len() == 16 ==> cidr_of(six + seq!['/'] + p) == if prefix <= 128 {
                Some(CidrView { net: IpView::V6(o), prefix: prefix as u8 })
            } else {
                None
            }
        }),
{
    let p = crate::text::decimal(prefix);
    crate::text::law_decimal_round_trip(prefix);
    let ip = if o.len() == 4 {
        crate::net::dotted(o)
    } else {
        crate::net::colons(crate::net::hex_texts(o))
    };
    if o.len() == 4 {
        crate::net::law_dotted_octets_are_read_back(o);
        crate::net::lemma_dotted_plain(o);
    } else {
        crate::net::law_hex_groups_are_read_back(o);
        crate::net::lemma_colons_plain(o, 8);
        assert(crate::net::hex_texts(o).take(8) =~= crate::net::hex_texts(o));
    }
    assert(!ip.contains('/')) by {
        if ip.contains('/') {
            let k = choose|k: int| 0 <= k < ip.len() && ip[k] == '/';
            assert(crate::net::in_address(ip[k]));
        }
    }
    let whole = ip + seq!['/'] + p;
    let none = Seq::<char>::empty();
    assert(crate::net::in_address(ip[0]));
    assert(crate::net::in_address(ip[ip.len() - 1]));
    assert(crate::text::is_digit(p[p.len() - 1]));
    assert(whole.last() == p.last() && whole[0] == ip[0]);
    crate::text::law_trimming_drops_white_space_alone(none, ip, none, ip[0]);
    crate::text::law_trimming_drops_white_space_alone(none, ip, none, ip.last());
    crate::text::law_trimming_drops_white_space_alone(none, whole, none, p.last());
    assert(none + ip + none =~= ip);
    assert(none + whole + none =~= whole);
    crate::text::law_split_at_a_separator(ip, '/', p);
}

/// An outbound packet goes to the first peer with the longest of all ranges that hold its
/// destination, as a datagram to that peer's endpoint, and changes at most that peer's
/// tunnel; with no such range, or no destination, nothing is sent or changed.
pub proof fn law_outbound_goes_to_the_longest_range(
    r: RouterView,
    pkt: Seq<u8>,
    out: Option<(Seq<u8>, SocketAddr)>,
    after: RouterView,
)
    requires
        routed(r, pkt, out, after),
    ensures
        destination(pkt) is None ==> out is None && after == r,
        destination(pkt) matches Some(dst) ==> {
            ||| out is None && after == r && forall|k: int, l: int|
                #![trigger r.peers[k].cidrs[l]]
                0 <= k < r.peers.len() && 0 <= l < r.peers[k].cidrs.len() ==> !covers(
                    r.peers[k].cidrs[l],
                    dst,
                )
            ||| exists|i: int, j: int|
                #![trigger r.peers[i].cidrs[j]]
                {
                    &&& 0 <= i < r.peers.len() && 0 <= j < r.peers[i].cidrs.len()
                    &&& covers(r.peers[i].cidrs[j], dst)
                    &&& forall|k: int, l: int|
                        #![trigger r.peers[k].cidrs[l]]
                        0 <= k < r.peers.len() && 0 <= l < r.peers[k].cidrs.len() && covers(
                            r.peers[k].cidrs[l],
                            dst,
                        ) ==> r.peers[k].cidrs[l].prefix <= r.peers[i].cidrs[j].prefix && (k < i
                            ==> r.peers[k].cidrs[l].prefix < r.peers[i].cidrs[j].prefix)
                    &&& out matches Some((_, to)) ==> to == r.peers[i].endpoint
                    &&& exists|o: OutcomeView, tun: TunnView| #[trigger]
                        encapsulated(r.peers[i].pump.tun, pkt, o, tun) && after.peers[i].pump.tun
                            == tun && out == addressed(network_of(o), r.peers[i].endpoint)
                    &&& after.peers.len() == r.peers.len()
                    &&& after.peers[i].endpoint == r.peers[i].endpoint
                    &&& after.peers[i].cidrs == r.peers[i].cidrs
                    &&& after.peers[i].index == r.peers[i].index
                    &&& after.peers[i].site_id == r.peers[i].site_id
                    &&& forall|k: int|
                        0 <= k < r.peers.len() && k != i ==> #[trigger] after.peers[k] == r.peers[k]
                    &&& after.next_index == r.next_index && after.mtu == r.mtu && after.secret
                        == r.secret
                }
        },
{
    if let Some(dst) = destination(pkt) {
        if !unroutable(r.peers, dst) {
            let (i, o, tun) = choose|i: int, o: OutcomeView, tun: TunnView|
                owns(r.peers, dst, i) && #[trigger] encapsulated(
                    r.peers[i].pump.tun,
                    pkt,
                    o,
                    tun,
                ) && after == with_tunnel(r, i, tun) && out == addressed(
                    network_of(o),
                    r.peers[i].endpoint,
                );
            let j = choose|j: int|
                #![trigger r.peers[i].cidrs[j]]
                0 <= j < r.peers[i].cidrs.len() && covers(r.peers[i].cidrs[j], dst) && outranks(
                    r.peers,
                    dst,
                    i,
                    r.peers[i].cidrs[j].prefix,
                );
            assert(covers(r.peers[i].cidrs[j], dst));
            assert(encapsulated(r.peers[i].pump.tun, pkt, o, tun));
            assert(after.peers[i].pump.tun == tun);
        }
    }
}

/// The routes of some peers are those of the first, each with its site, and then those of
/// the others.
pub proof fn law_routes_are_listed_by_peer(p: PeerView, a: Seq<PeerView>, b: Seq<PeerView>)
    ensures
        routes_of(a + b) == routes_of(a) + routes_of(b),
        routes_of(seq![p]).len() == p.cidrs.len(),
        forall|j: int|
            0 <= j < p.cidrs.len() ==> #[trigger] routes_of(seq![p])[j] == (p.site_id, p.cidrs[j]),
    decreases b.len(),
{
    reveal_with_fuel(routes_of, 2);
    assert(seq![p].drop_last() =~= Seq::empty());
    if b.len() == 0 {
        assert(a + b =~= a);
        assert(routes_of(a) + routes_of(b) =~= routes_of(a));
    } else {
        law_routes_are_listed_by_peer(p, a, b.drop_last());
        assert((a + b).drop_last() =~= a + b.drop_last());
        assert(routes_of(a + b) =~= routes_of(a) + routes_of(b));
    }
}

/// What the tunnels send as time goes by is sent once, each to the endpoint of its own
/// peer, in the order of the peers.
pub proof fn law_timers_send_to_their_own_peers(
    peers: Seq<PeerView>,
    os: Seq<OutcomeView>,
) -> (from: Seq<int>)
    requires
        os.len() <= peers.len(),
    ensures
        from.len() == collected(peers, os).len(),
        forall|j: int|
            0 <= j < from.len() ==> {
                &&& 0 <= #[trigger] from[j] < os.len()
                &&& network_of(os[from[j]]) == Some(collected(peers, os)[j].0)
                &&& collected(peers, os)[j].1 == peers[from[j]].endpoint
            },
        forall|j: int, k: int| 0 <= j < k < from.len() ==> #[trigger] from[j] < #[trigger] from[k],
        forall|i: int|
            0 <= i < os.len() && network_of(#[trigger] os[i]) is Some ==> from.contains(i),
    decreases os.len(),
{
    if os.len() == 0 {
        Seq::empty()
    } else {
        let most = os.drop_last();
        let before = law_timers_send_to_their_own_peers(peers, most);
        assert forall|j: int| 0 <= j < before.len() implies {
            &&& 0 <= #[trigger] before[j] < most.len()
            &&& most[before[j]] == os[before[j]]
        } by {}
        if network_of(os.last()) is Some {
            let from = before.push(os.len() - 1);
            assert forall|i: int|
                0 <= i < os.len() && network_of(#[trigger] os[i]) is Some implies from.contains(
                i,
            ) by {
                if i < most.len() {
                    assert(network_of(most[i]) is Some);
                    let j = choose|j: int| 0 <= j < before.len() && before[j] == i;
                    assert(from[j] == i);
                } else {
                    assert(from[before.len() as int] == i);
                }
            }
            from
        } else {
            assert forall|i: int|
                0 <= i < os.len() && network_of(#[trigger] os[i]) is Some implies before.contains(
                i,
            ) by {
                assert(network_of(most[i]) is Some);
            }
            before
        }
    }
}

/// Changing the peer of a site keeps every peer in its place and changes that one alone.
pub proof fn law_one_site_is_changed(r: RouterView, site_id: i64, f: spec_fn(PeerView) -> PeerView)
    ensures
        ({
            let after = r.with_peer(site_id, f);
            &&& after.peers.len() == r.peers.len()
            &&& after.next_index == r.next_index && after.mtu == r.mtu && after.secret == r.secret
            &&& forall|i: int|
                0 <= i < r.peers.len() ==> {
                    &&& r.peers[i].site_id == site_id ==> #[trigger] after.peers[i] == f(r.peers[i])
                    &&& r.peers[i].site_id != site_id ==> after.peers[i] == r.peers[i]
                }
        }),
{
}

/// A new peer gets the router's next index, key and packet size, and the index after it is
/// another one above zero. The other peers stay as they are, in their order.
pub proof fn law_new_peer_gets_the_next_index(
    r: RouterView,
    site_id: i64,
    key: Seq<u8>,
    endpoint: SocketAddr,
    cidrs: Seq<CidrView>,
    state: boringtun::noise::Tunn,
)
    ensures
        ({
            let after = upserted(r, site_id, key, endpoint, cidrs, state);
            &&& after.peers.last().index == r.next_index
            &&& after.peers.last().pump.tun.index == r.next_index
            &&& after.peers.last().pump.tun.secret == r.secret
            &&& after.peers.last().pump.mtu == r.mtu
            &&& after.peers.drop_last() == r.peers.filter(|p: PeerView| p.site_id != site_id)
            &&& after.next_index != 0 && after.next_index != r.next_index
            &&& r.next_index < 0xffff_ffff ==> after.next_index == r.next_index + 1
            &&& r.next_index == 0xffff_ffff ==> after.next_index == 1
            &&& after.mtu == r.mtu && after.secret == r.secret
        }),
{
    let after = upserted(r, site_id, key, endpoint, cidrs, state);
    assert(after.peers.drop_last() =~= r.without_peer(site_id).peers);
}

/// Every peer stays or goes by its site alone when sites are removed or retained.
pub proof fn law_sites_are_removed_or_retained(r: RouterView, sites: Seq<i64>, site_id: i64, i: int)
    requires
        0 <= i < r.peers.len(),
    ensures
        r.without_peer(site_id).peers.contains(r.peers[i]) <==> r.peers[i].site_id != site_id,
        r.with_only(sites).peers.contains(r.peers[i]) <==> sites.contains(r.peers[i].site_id),
{
    let f = |p: PeerView| p.site_id != site_id;
    let g = |p: PeerView| sites.contains(p.site_id);
    lemma_filter_contains(r.peers, f, i);
    lemma_filter_contains(r.peers, g, i);
}

pub proof fn lemma_filter_contains<A>(s: Seq<A>, f: spec_fn(A) -> bool, i: int)
    requires
        0 <= i < s.len(),
    ensures
        s.filter(f).contains(s[i]) <==> f(s[i]),
    decreases s.len(),
{
    let kept = s.filter(f);
    if kept.contains(s[i]) {
        let places = lemma_filter_places(s, f);
        let k = choose|k: int| 0 <= k < kept.len() && kept[k] == s[i];
        assert(kept[k] == s[places[k]]);
    }
    if f(s[i]) {
        let most = s.drop_last();
        assert(most.push(s.last()) =~= s);
        lemma_filter_push(most, s.last(), f);
        if i < most.len() {
            lemma_filter_contains(most, f, i);
            assert(most[i] == s[i]);
            let before = most.filter(f);
            let k = choose|k: int| 0 <= k < before.len() && before[k] == s[i];
            assert(kept[k] == s[i]);
        } else {
            assert(kept[kept.len() - 1] == s[i]);
        }
    }
}

/// What a peer's tunnel opens goes to the host, and what it sends goes to the peer.
pub proof fn law_packets_go_to_the_host(b: Seq<u8>, endpoint: SocketAddr)
    ensures
        directed(InboundView::Packet(b), endpoint) == OutView::ToHost(b),
        directed(InboundView::Network(b), endpoint) == OutView::ToNet(b, endpoint),
        addressed(Some(b), endpoint) == Some((b, endpoint)),
        addressed(None, endpoint) is None,
{
}

/// A router takes packets of its size, and of 1500 bytes at least; one that no peer owns
/// can be of any length.
pub proof fn law_router_takes_what_peers_take(r: RouterView, pkt: Seq<u8>)
    ensures
        pkt.len() <= 1500 || pkt.len() <= r.mtu ==> r.takes(pkt),
        destination(pkt) is None ==> r.takes(pkt),
        r.peers.len() == 0 ==> r.takes(pkt),
        pkt.len() > 1500 && pkt.len() > r.mtu && r.takes(pkt) ==> (destination(pkt) matches Some(dst)
            ==> forall|k: int, l: int|
            #![trigger r.peers[k].cidrs[l]]
            0 <= k < r.peers.len() && 0 <= l < r.peers[k].cidrs.len() ==> !covers(
                r.peers[k].cidrs[l],
                dst,
            )),
{
}

proof fn lemma_longest(c: Seq<CidrView>, dst: IpView, n: int) -> (j: int)
    requires
        0 <= n < c.len(),
        covers(c[n], dst),
    ensures
        0 <= j < c.len(),
        covers(c[j], dst),
        forall|l: int|
            0 <= l < c.len() && covers(#[trigger] c[l], dst) ==> c[l].prefix <= c[j].prefix,
    decreases c.len(),
{
    let most = c.drop_last();
    let last = c.len() - 1;
    if exists|k: int| 0 <= k < most.len() && covers(#[trigger] most[k], dst) {
        let k = choose|k: int| 0 <= k < most.len() && covers(#[trigger] most[k], dst);
        let j = lemma_longest(most, dst, k);
        assert forall|l: int| 0 <= l < last && covers(#[trigger] c[l], dst) implies c[l].prefix
            <= c[j].prefix by {
            assert(most[l] == c[l]);
        }
        if covers(c[last], dst) && c[last].prefix > c[j].prefix {
            last
        } else {
            j
        }
    } else {
        assert forall|l: int| 0 <= l < c.len() && covers(#[trigger] c[l], dst) implies l
            == last by {
            if l < last {
                assert(most[l] == c[l]);
            }
        }
        last
    }
}

/// A destination that a range of some peer holds, whichever of its ranges, has an owner.
pub proof fn law_covered_destination_has_an_owner(
    peers: Seq<PeerView>,
    dst: IpView,
    k: int,
    l: int,
) -> (i: int)
    requires
        0 <= k < peers.len(),
        0 <= l < peers[k].cidrs.len(),
        covers(peers[k].cidrs[l], dst),
    ensures
        owns(peers, dst, i),
        !unroutable(peers, dst),
    decreases peers.len(),
{
    assert(covers(peers[k].cidrs[l], dst));
    let most = peers.drop_last();
    let last = peers.len() - 1;
    let c = peers[last].cidrs;
    if unroutable(most, dst) {
        assert(k == last) by {
            if k < last {
                assert(most[k].cidrs[l] == peers[k].cidrs[l]);
            }
        }
        let j = lemma_longest(c, dst, l);
        assert forall|a: int, b: int|
            #![trigger peers[a].cidrs[b]]
            0 <= a < peers.len() && 0 <= b < peers[a].cidrs.len() && covers(
                peers[a].cidrs[b],
                dst,
            ) implies a == last && peers[a].cidrs[b].prefix <= c[j].prefix by {
            if a < last {
                assert(most[a].cidrs[b] == peers[a].cidrs[b]);
            }
        }
        assert(outranks(peers, dst, last, peers[last].cidrs[j].prefix));
        last
    } else {
        let (a, b) = choose|a: int, b: int|
            #![trigger most[a].cidrs[b]]
            0 <= a < most.len() && 0 <= b < most[a].cidrs.len() && covers(most[a].cidrs[b], dst);
        let i = law_covered_destination_has_an_owner(most, dst, a, b);
        let j = choose|j: int|
            #![trigger most[i].cidrs[j]]
            0 <= j < most[i].cidrs.len() && covers(most[i].cidrs[j], dst) && outranks(
                most,
                dst,
                i,
                most[i].cidrs[j].prefix,
            );
        let best = peers[i].cidrs[j].prefix;
        assert(most[i] == peers[i]);
        assert forall|x: int, y: int|
            #![trigger peers[x].cidrs[y]]
            0 <= x < last && 0 <= y < peers[x].cidrs.len() && covers(
                peers[x].cidrs[y],
                dst,
            ) implies peers[x].cidrs[y].prefix <= best && (x < i ==> peers[x].cidrs[y].prefix
            < best) by {
            assert(most[x].cidrs[y] == peers[x].cidrs[y]);
        }
        if exists|y: int| 0 <= y < c.len() && covers(#[trigger] c[y], dst) && c[y].prefix > best {
            let y = choose|y: int|
                0 <= y < c.len() && covers(#[trigger] c[y], dst) && c[y].prefix > best;
            let z = lemma_longest(c, dst, y);
            assert(c[y].prefix <= c[z].prefix);
            assert forall|x: int, w: int|
                #![trigger peers[x].cidrs[w]]
                0 <= x < peers.len() && 0 <= w < peers[x].cidrs.len() && covers(
                    peers[x].cidrs[w],
                    dst,
                ) implies peers[x].cidrs[w].prefix <= c[z].prefix && (x < last
                ==> peers[x].cidrs[w].prefix < c[z].prefix) by {}
            assert(outranks(peers, dst, last, peers[last].cidrs[z].prefix));
            last
        } else {
            assert forall|x: int, w: int|
                #![trigger peers[x].cidrs[w]]
                0 <= x < peers.len() && 0 <= w < peers[x].cidrs.len() && covers(
                    peers[x].cidrs[w],
                    dst,
                ) implies peers[x].cidrs[w].prefix <= best && (x < i ==> peers[x].cidrs[w].prefix
                < best) by {
                if x == last {
                    assert(covers(c[w], dst));
                }
            }
            assert(outranks(peers, dst, i, peers[i].cidrs[j].prefix));
            i
        }
    }
}

/// The timers of every peer's tunnel advance, and nothing of a peer but its tunnel changes.
pub proof fn law_every_tunnel_is_timed(
    r: RouterView,
    os: Seq<OutcomeView>,
    after: RouterView,
    i: int,
)
    requires
        ticked(r, os, after),
        0 <= i < r.peers.len(),
    ensures
        os.len() == r.peers.len() && after.peers.len() == r.peers.len(),
        timed(r.peers[i].pump.tun, os[i], after.peers[i].pump.tun),
        after.peers[i].site_id == r.peers[i].site_id,
        after.peers[i].endpoint == r.peers[i].endpoint,
        after.peers[i].cidrs == r.peers[i].cidrs,
        after.peers[i].index == r.peers[i].index,
        after.peers[i].pump.mtu == r.peers[i].pump.mtu,
        after.next_index == r.next_index && after.mtu == r.mtu && after.secret == r.secret,
{
    assert(after.peers[i] == after.peers[i]);
}

/// What comes out of an inbound datagram is what the tunnel of the peer that it names made
/// of it, each result sent on to where it goes, in order.
pub proof fn law_inbound_results_are_the_tunnels(
    r: RouterView,
    d: Seq<u8>,
    outs: Seq<OutView>,
    after: RouterView,
    i: int,
)
    requires
        handled(r, d, outs, after),
        peer_index(d) is Some,
        0 <= i < r.peers.len(),
        r.peers[i].index == peer_index(d)->0,
        forall|k: int| 0 <= k < i ==> (#[trigger] r.peers[k]).index != peer_index(d)->0,
    ensures
        exists|o: OutcomeView, mid: TunnView, flushed: Seq<Seq<u8>>| #[trigger]
            received(r.peers[i].pump, d, o, mid, flushed, after.peers[i].pump.tun) && outs.len()
                == received_results(o, flushed).len() && forall|k: int|
                0 <= k < outs.len() ==> #[trigger] outs[k] == directed(
                    received_results(o, flushed)[k],
                    r.peers[i].endpoint,
                ),
        forall|k: int| 0 <= k < r.peers.len() && k != i ==> #[trigger] after.peers[k] == r.peers[k],
        after.peers[i].endpoint == r.peers[i].endpoint,
        after.peers[i].cidrs == r.peers[i].cidrs,
{
    let index = peer_index(d)->0;
    assert(is_peer_of(r.peers, index, i));
    assert(!no_peer_of(r.peers, index)) by {
        assert(r.peers[i].index == index);
    }
    let (j, o, mid, flushed, tun) = choose|
        j: int,
        o: OutcomeView,
        mid: TunnView,
        flushed: Seq<Seq<u8>>,
        tun: TunnView,
    |
        is_peer_of(r.peers, index, j) && #[trigger] received(
            r.peers[j].pump,
            d,
            o,
            mid,
            flushed,
            tun,
        ) && after == with_tunnel(r, j, tun) && outs == received_results(o, flushed).map_values(
            |x: InboundView| directed(x, r.peers[j].endpoint),
        );
    assert(r.peers[j].index == index);
    assert(i == j);
    assert(after.peers[i].pump.tun == tun);
    assert(received(r.peers[i].pump, d, o, mid, flushed, after.peers[i].pump.tun));
}

} // verus!
