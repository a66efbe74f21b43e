//! Client (olm) control-channel message shapes. The envelope is the shared
//! [`crate::proto::WsMessage`]; these are the olm-specific `data` payloads.
pub mod topic;

use crate::text::texts;
use vstd::prelude::*;
use vstd::string::*;

verus! {

/// A site the client can reach. `endpoint`/`relay_endpoint` is the WireGuard
/// endpoint to send this peer's encrypted traffic to (relay = through the exit
/// node). `remote_subnets` + `allowed_ips` are the destinations routed to it.
#[derive(Debug, Clone)]
pub struct SiteConfig {
    pub site_id: i64,
    pub name: String,
    pub endpoint: String,
    pub relay_endpoint: String,
    pub public_key: String,
    pub server_ip: String,
    pub server_port: u16,
    pub remote_subnets: Vec<String>,
    pub allowed_ips: Vec<String>,
}

/// The content of a [`SiteConfig`].
pub struct SiteConfigView {
    pub site_id: i64,
    pub name: Seq<char>,
    pub endpoint: Seq<char>,
    pub relay_endpoint: Seq<char>,
    pub public_key: Seq<char>,
    pub server_ip: Seq<char>,
    pub server_port: u16,
    pub remote_subnets: Seq<Seq<char>>,
    pub allowed_ips: Seq<Seq<char>>,
}

impl View for SiteConfig {
    type V = SiteConfigView;

    open spec fn view(&self) -> SiteConfigView {
        SiteConfigView {
            site_id: self.site_id,
            name: self.name@,
            endpoint: self.endpoint@,
            relay_endpoint: self.relay_endpoint@,
            public_key: self.public_key@,
            server_ip: self.server_ip@,
            server_port: self.server_port,
            remote_subnets: texts(self.remote_subnets@),
            allowed_ips: texts(self.allowed_ips@),
        }
    }
}

impl SiteConfigView {
    /// The relay endpoint when there is one, otherwise the direct endpoint.
    pub open spec fn effective_endpoint(self) -> Seq<char> {
        if self.relay_endpoint.len() > 0 {
            self.relay_endpoint
        } else {
            self.endpoint
        }
    }

    /// The destinations routed to the site: the remote subnets, then the allowed
    /// addresses.
    pub open spec fn destinations(self) -> Seq<Seq<char>> {
        self.remote_subnets + self.allowed_ips
    }
}

impl Default for SiteConfig {
    fn default() -> (r: SiteConfig)
        ensures
            r@ == (SiteConfigView {
                site_id: 0,
                name: Seq::empty(),
                endpoint: Seq::empty(),
                relay_endpoint: Seq::empty(),
                public_key: Seq::empty(),
                server_ip: Seq::empty(),
                server_port: 0,
                remote_subnets: Seq::empty(),
                allowed_ips: Seq::empty(),
            }),
    {
        let r = SiteConfig {
            site_id: 0,
            name: String::new(),
            endpoint: String::new(),
            relay_endpoint: String::new(),
            public_key: String::new(),
            server_ip: String::new(),
            server_port: 0,
            remote_subnets: Vec::new(),
            allowed_ips: Vec::new(),
        };
        assert(r@.remote_subnets =~= Seq::empty());
        assert(r@.allowed_ips =~= Seq::empty());
        r
    }
}

impl SiteConfig {
    /// Effective WireGuard endpoint: the relay endpoint when present (relay
    /// mode), otherwise the direct endpoint.
    pub fn wg_endpoint(&self) -> (r: &str)
        ensures
            r@ == self@.effective_endpoint(),
    {
        if !self.relay_endpoint.as_str().is_empty() {
            self.relay_endpoint.as_str()
        } else {
            self.endpoint.as_str()
        }
    }

    /// All destination CIDRs routed to this site.
    pub fn routed_cidrs(&self) -> (r: Vec<&String>)
        ensures
            r@.map_values(|s: &String| s@) == self@.destinations(),
    {
        let mut r: Vec<&String> = Vec::new();
        let ghost view = |s: &String| s@;
        for i in 0..self.remote_subnets.len()
            invariant
                view == (|s: &String| s@),
                r@.map_values(view) == self@.remote_subnets.take(i as int),
        {
            let ghost before = r@;
            r.push(&self.remote_subnets[i]);
            assert(r@.map_values(view) =~= before.map_values(view).push(
                self@.remote_subnets[i as int],
            ));
            assert(self@.remote_subnets.take(i + 1) =~= self@.remote_subnets.take(i as int).push(
                self@.remote_subnets[i as int],
            ));
        }
        assert(self@.remote_subnets.take(self@.remote_subnets.len() as int)
            =~= self@.remote_subnets);
        assert(self@.remote_subnets + self@.allowed_ips.take(0) =~= self@.remote_subnets);
        for i in 0..self.allowed_ips.len()
            invariant
                view == (|s: &String| s@),
                r@.map_values(view) == self@.remote_subnets + self@.allowed_ips.take(i as int),
        {
            let ghost before = r@;
            r.push(&self.allowed_ips[i]);
            assert(r@.map_values(view) =~= before.map_values(view).push(
                self@.allowed_ips[i as int],
            ));
            assert(self@.allowed_ips.take(i + 1) =~= self@.allowed_ips.take(i as int).push(
                self@.allowed_ips[i as int],
            ));
        }
        assert(self@.allowed_ips.take(self@.allowed_ips.len() as int) =~= self@.allowed_ips);
        r
    }
}

/// `olm/wg/connect` payload: the full initial peer set plus our addressing.
#[derive(Debug, Clone)]
pub struct WgData {
    pub sites: Vec<SiteConfig>,
    pub tunnel_ip: String,
    pub utility_subnet: String,
}

impl Default for WgData {
    fn default() -> (r: WgData)
        ensures
            r.sites@.len() == 0,
            r.tunnel_ip@.len() == 0,
            r.utility_subnet@.len() == 0,
    {
        WgData { sites: Vec::new(), tunnel_ip: String::new(), utility_subnet: String::new() }
    }
}

/// `olm/wg/peer/remove` payload.
#[derive(Debug, Clone)]
pub struct PeerRemove {
    pub site_id: i64,
}

/// `olm/wg/peer/relay` payload: switch a peer onto a relay endpoint.
#[derive(Debug, Clone)]
pub struct PeerRelay {
    pub site_id: i64,
    pub relay_endpoint: String,
}

/// `olm/wg/peer/unrelay` payload: switch a peer onto a direct endpoint.
#[derive(Debug, Clone)]
pub struct PeerUnrelay {
    pub site_id: i64,
    pub endpoint: String,
}

/// `olm/wg/peer/data/{add,remove}` payload: change routed subnets for a peer.
#[derive(Debug, Clone)]
pub struct PeerData {
    pub site_id: i64,
    pub remote_subnets: Vec<String>,
}

/// `olm/wg/peer/data/update` payload.
#[derive(Debug, Clone)]
pub struct PeerDataUpdate {
    pub site_id: i64,
    pub old_remote_subnets: Vec<String>,
    pub new_remote_subnets: Vec<String>,
}

/// `olm/error` / `olm/terminate` payload.
#[derive(Debug, Clone)]
pub struct ErrorData {
    pub code: String,
    pub message: String,
}

impl Default for ErrorData {
    fn default() -> (r: ErrorData)
        ensures
            r.code@.len() == 0,
            r.message@.len() == 0,
    {
        ErrorData { code: String::new(), message: String::new() }
    }
}

/// `olm/sync` payload: authoritative current peer set.
#[derive(Debug, Clone)]
pub struct SyncData {
    pub sites: Vec<SiteConfig>,
}

impl Default for SyncData {
    fn default() -> (r: SyncData)
        ensures
            r.sites@.len() == 0,
    {
        SyncData { sites: Vec::new() }
    }
}

// ---------------------------------------------------------------------------
// Laws
// ---------------------------------------------------------------------------
/// A site is reached through its relay endpoint and, only where it has none, directly. Its
/// remote subnets are routed to it, and its allowed addresses behind them.
pub proof fn law_relay_endpoint_comes_first(s: SiteConfigView, i: int)
    ensures
        s.relay_endpoint.len() > 0 ==> s.effective_endpoint() == s.relay_endpoint,
        s.relay_endpoint.len() == 0 ==> s.effective_endpoint() == s.endpoint,
        s.destinations().len() == s.remote_subnets.len() + s.allowed_ips.len(),
        0 <= i < s.remote_subnets.len() ==> s.destinations()[i] == s.remote_subnets[i],
        0 <= i < s.allowed_ips.len() ==> s.destinations()[s.remote_subnets.len() + i]
            == s.allowed_ips[i],
{
}

} // verus!
