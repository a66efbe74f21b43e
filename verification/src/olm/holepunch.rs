//! Client-side hole punching to exit nodes. Mirrors the site path but seals an
//! `olmId` payload. The exit nodes (with their relay ports and public keys) come
//! from the get-token response; the same get-token JWT is the hole-punch token.
use crate::holepunch::{build, plaintext, punch, sealable};
use crate::net::{datagram_views, SocketAddr};
use crate::wg::public_key_of;
use vstd::prelude::*;

verus! {

/// One exit node to keep punched: the relay socket address and the node's
/// public key (the seal target).
#[derive(Debug, Clone)]
pub struct ExitNode {
    pub addr: SocketAddr,
    pub server_pub: String,
}

/// The content of an [`ExitNode`].
pub struct NodeView {
    pub addr: SocketAddr,
    pub server_pub: Seq<char>,
}

impl View for ExitNode {
    type V = NodeView;

    open spec fn view(&self) -> NodeView {
        NodeView { addr: self.addr, server_pub: self.server_pub@ }
    }
}

/// Builds the periodic hole-punch datagrams for all known exit nodes.
pub struct HolePunch {
    olm_id: String,
    token: String,
    olm_pub: String,
    nodes: Vec<ExitNode>,
}

/// The content of a [`HolePunch`].
pub struct HolePunchView {
    pub olm_id: Seq<char>,
    pub token: Seq<char>,
    pub olm_pub: Seq<char>,
    pub nodes: Seq<NodeView>,
}

impl View for HolePunch {
    type V = HolePunchView;

    closed spec fn view(&self) -> HolePunchView {
        HolePunchView {
            olm_id: self.olm_id@,
            token: self.token@,
            olm_pub: self.olm_pub@,
            nodes: node_views(self.nodes@),
        }
    }
}

/// The contents of some exit nodes.
pub open spec fn node_views(nodes: Seq<ExitNode>) -> Seq<NodeView> {
    nodes.map_values(|n: ExitNode| n@)
}

impl HolePunchView {
    /// What is sealed for every exit node.
    pub open spec fn message(self) -> crate::json::JsonView {
        plaintext("olmId"@, self.olm_id, self.token, self.olm_pub)
    }

    /// The exit nodes that datagrams can be sealed for, in order.
    pub open spec fn reachable(self) -> Seq<NodeView> {
        self.nodes.filter(
            |n: NodeView| public_key_of(n.server_pub) is Ok && sealable(self.message()),
        )
    }
}

/// A datagram for an exit node, sealed with some ephemeral key and nonce.
pub open spec fn is_punch_for(h: HolePunchView, n: NodeView, d: (Seq<u8>, SocketAddr)) -> bool {
    &&& d.1 == n.addr
    &&& exists|eph: Seq<u8>, nonce: Seq<u8>|
        eph.len() == 32 && nonce.len() == 12 && #[trigger] punch(
            h.message(),
            n.server_pub,
            eph,
            nonce,
        ) == Some(d.0)
}

/// One datagram for each exit node that one can be sealed for, in order.
pub open spec fn are_punches(h: HolePunchView, d: Seq<(Seq<u8>, SocketAddr)>) -> bool {
    &&& d.len() == h.reachable().len()
    &&& forall|i: int| 0 <= i < d.len() ==> is_punch_for(h, h.reachable()[i], #[trigger] d[i])
}

impl HolePunch {
    pub fn new(olm_id: String, olm_pub: String, token: String) -> (r: Self)
        ensures
            r@ == (HolePunchView {
                olm_id: olm_id@,
                token: token@,
                olm_pub: olm_pub@,
                nodes: Seq::empty(),
            }),
    {
        let r = HolePunch { olm_id, olm_pub, token, nodes: Vec::new() };
        assert(r@.nodes =~= Seq::empty());
        r
    }

    pub fn set_nodes(&mut self, nodes: Vec<ExitNode>)
        ensures
            final(self)@ == (HolePunchView { nodes: node_views(nodes@), ..old(self)@ }),
    {
        self.nodes = nodes;
    }

    pub fn is_empty(&self) -> (r: bool)
        ensures
            r == (self@.nodes.len() == 0),
    {
        self.nodes.len() == 0
    }

    /// Sealed datagrams to send this tick, one per exit node.
    pub fn datagrams(&self) -> (r: Vec<(Vec<u8>, SocketAddr)>)
        ensures
            are_punches(self@, datagram_views(r@)),
    {
        let mut r: Vec<(Vec<u8>, SocketAddr)> = Vec::new();
        let ghost all = self@.nodes;
        let ghost keep = |n: NodeView|
            public_key_of(n.server_pub) is Ok && sealable(self@.message());
        assert(all.take(0).filter(keep) =~= Seq::empty()) by {
            reveal(Seq::filter);
        }
        for i in 0..self.nodes.len()
            invariant
                all == self@.nodes,
                keep == (|n: NodeView|
                    public_key_of(n.server_pub) is Ok && sealable(self@.message())),
                r@.len() == all.take(i as int).filter(keep).len(),
                forall|j: int|
                    0 <= j < r@.len() ==> is_punch_for(
                        self@,
                        all.take(i as int).filter(keep)[j],
                        #[trigger] datagram_views(r@)[j],
                    ),
        {
            let ghost n = all[i as int];
            assert(n == self.nodes@[i as int]@);
            proof {
                reveal(Seq::filter);
                assert(all.take(i + 1).drop_last() =~= all.take(i as int));
                assert(all.take(i + 1).last() == n);
            }
            let addr = self.nodes[i].addr;
            match build(
                "olmId",
                self.olm_id.as_str(),
                self.token.as_str(),
                self.olm_pub.as_str(),
                self.nodes[i].server_pub.as_str(),
            ) {
                Some(d) => {
                    assert(is_punch_for(self@, n, (d@, addr)));
                    let ghost before = datagram_views(r@);
                    let ghost pair = (d@, addr);
                    r.push((d, addr));
                    assert(datagram_views(r@) =~= before.push(pair));
                },
                None => {},
            }
        }
        assert(all.take(all.len() as int) =~= all);
        r
    }
}

// ---------------------------------------------------------------------------
// Laws
// ---------------------------------------------------------------------------
/// A client is told to the exit nodes by its `olmId`, its token and its own public key.
pub proof fn law_punches_tell_the_client(h: HolePunchView)
    ensures
        ({
            let v = h.message();
            &&& v is Object
            &&& v->Object_0["olmId"@] == crate::json::JsonView::Text(h.olm_id)
            &&& v->Object_0["token"@] == crate::json::JsonView::Text(h.token)
            &&& v->Object_0["publicKey"@] == crate::json::JsonView::Text(h.olm_pub)
        }),
{
    reveal_strlit("olmId");
    reveal_strlit("token");
    reveal_strlit("publicKey");
    assert("olmId"@[0] != "token"@[0]);
    assert("olmId"@.len() != "publicKey"@.len());
    crate::holepunch::law_punch_tells_the_connector("olmId"@, h.olm_id, h.token, h.olm_pub);
}

/// The datagrams of a round go to exit nodes in their order, each sealed for the node that
/// it goes to; no node whose key is one is passed over, where the message fits.
pub proof fn law_every_node_is_punched(h: HolePunchView, d: Seq<(Seq<u8>, SocketAddr)>) -> (to: Seq<
    int,
>)
    requires
        are_punches(h, d),
    ensures
        to.len() == d.len(),
        forall|i: int|
            0 <= i < d.len() ==> {
                &&& 0 <= #[trigger] to[i] < h.nodes.len()
                &&& d[i].1 == h.nodes[to[i]].addr
                &&& exists|eph: Seq<u8>, nonce: Seq<u8>|
                    eph.len() == 32 && nonce.len() == 12 && #[trigger] punch(
                        h.message(),
                        h.nodes[to[i]].server_pub,
                        eph,
                        nonce,
                    ) == Some(d[i].0)
            },
        forall|i: int, j: int| 0 <= i < j < to.len() ==> to[i] < to[j],
        forall|k: int|
            0 <= k < h.nodes.len() && public_key_of((#[trigger] h.nodes[k]).server_pub) is Ok
                && sealable(h.message()) ==> exists|i: int|
                0 <= i < to.len() && h.nodes[#[trigger] to[i]] == h.nodes[k],
{
    let keep = |n: NodeView| public_key_of(n.server_pub) is Ok && sealable(h.message());
    let to = crate::olm::router::lemma_filter_places(h.nodes, keep);
    assert forall|i: int| 0 <= i < d.len() implies {
        &&& 0 <= #[trigger] to[i] < h.nodes.len()
        &&& d[i].1 == h.nodes[to[i]].addr
        &&& exists|eph: Seq<u8>, nonce: Seq<u8>|
            eph.len() == 32 && nonce.len() == 12 && #[trigger] punch(
                h.message(),
                h.nodes[to[i]].server_pub,
                eph,
                nonce,
            ) == Some(d[i].0)
    } by {
        assert(is_punch_for(h, h.reachable()[i], d[i]));
    }
    assert forall|k: int|
        0 <= k < h.nodes.len() && public_key_of((#[trigger] h.nodes[k]).server_pub) is Ok
            && sealable(h.message()) implies exists|i: int|
        0 <= i < to.len() && h.nodes[#[trigger] to[i]] == h.nodes[k] by {
        crate::olm::router::lemma_filter_contains(h.nodes, keep, k);
        let i = choose|i: int|
            0 <= i < h.nodes.filter(keep).len() && h.nodes.filter(keep)[i] == h.nodes[k];
        assert(h.nodes[to[i]] == h.nodes[k]);
    }
    to
}

} // verus!
