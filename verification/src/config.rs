//! Configuration from environment variables and command-line flags.
use crate::text::{
    join2, join3, parse_u16, parse_unsigned, rsplit_once, same, split, split_once, texts,
    to_ascii_lowercase, trim, trim_end_matches,
};
use vstd::prelude::*;
use vstd::string::*;

verus! {

/// Top-level configuration. Either or both roles may be active: a site role
/// (newt: shares local resources) and a client role (olm: reaches private
/// resources). A role is active when its credentials are present.
#[derive(Debug, Clone)]
pub struct Config {
    pub log_level: String,
    pub site: Option<SiteRun>,
    pub client: Option<ClientRun>,
}

/// Site (newt) role: registers a site and proxies server-initiated connections
/// to local targets.
#[derive(Debug, Clone)]
pub struct SiteRun {
    pub endpoint: String,
    pub id: String,
    pub secret: String,
    pub mtu: usize,
    pub skip_tls_verify: bool,
    /// In seconds.
    pub udp_idle_timeout: u64,
    pub dns: String,
    /// In seconds.
    pub ping_interval: u64,
}

/// How the client (olm) role exposes remote resources to the host.
#[derive(Debug, Clone, Copy, PartialEq, Eq, Structural)]
pub enum AccessMode {
    /// Kernel TUN interface plus OS routes: transparent routing of host/LAN
    /// traffic into remote subnets. Needs /dev/net/tun and CAP_NET_ADMIN.
    Kernel,
    /// Userspace netstack with local TCP forwards: no privileges, runs
    /// anywhere, but not transparent (apps target the local listeners).
    Userspace,
}

/// A userspace forward: accept TCP on `listen_port` locally, dial
/// `dest_host:dest_port` through the tunnel.
#[derive(Debug, Clone)]
pub struct Forward {
    pub listen_port: u16,
    pub dest_host: String,
    pub dest_port: u16,
}

/// Client (olm) role.
#[derive(Debug, Clone)]
pub struct ClientRun {
    pub endpoint: String,
    pub id: String,
    pub secret: String,
    pub user_token: String,
    pub org_id: String,
    pub mtu: usize,
    pub skip_tls_verify: bool,
    pub access: AccessMode,
    pub interface: String,
    pub forwards: Vec<Forward>,
    pub socks_port: Option<u16>,
}

/// The environment variables that are read, each with its value where it is set.
#[derive(Debug, Clone)]
pub struct EnvVars {
    pub pangolin_endpoint: Option<String>,
    pub mtu: Option<String>,
    pub log_level: Option<String>,
    pub skip_tls_verify: Option<String>,
    pub newt_udp_proxy_idle_timeout: Option<String>,
    pub dns: Option<String>,
    pub ping_interval: Option<String>,
    pub newt_id: Option<String>,
    pub newt_secret: Option<String>,
    pub olm_id: Option<String>,
    pub olm_secret: Option<String>,
    pub olm_user_token: Option<String>,
    pub pangolin_org_id: Option<String>,
    pub org_id: Option<String>,
    pub olm_access_mode: Option<String>,
    pub olm_interface: Option<String>,
    pub olm_forwards: Option<String>,
    pub olm_socks_port: Option<String>,
}

/// Mutable accumulator while reading the environment, then the flags.
struct Raw {
    endpoint: String,
    mtu: usize,
    log_level: String,
    skip_tls_verify: bool,
    udp_idle_timeout: u64,
    dns: String,
    ping_interval: u64,
    newt_id: String,
    newt_secret: String,
    olm_id: String,
    olm_secret: String,
    user_token: String,
    org_id: String,
    access: AccessMode,
    interface: String,
    forwards: Vec<Forward>,
    socks_port: Option<u16>,
}

/// The command-line flags.
#[derive(Debug, Clone, Copy, PartialEq, Eq, Structural)]
pub enum Flag {
    Endpoint,
    Id,
    Secret,
    Mtu,
    Dns,
    LogLevel,
    SkipTlsVerify,
    OlmId,
    OlmSecret,
    OlmUserToken,
    OrgId,
    OlmAccess,
    OlmInterface,
    OlmForwards,
    OlmSocksPort,
}

// ---------------------------------------------------------------------------
// Specifications
// ---------------------------------------------------------------------------
/// The mathematical content of a [`Forward`].
pub struct ForwardView {
    pub listen_port: u16,
    pub dest_host: Seq<char>,
    pub dest_port: u16,
}

/// The mathematical content of a [`SiteRun`].
pub struct SiteView {
    pub endpoint: Seq<char>,
    pub id: Seq<char>,
    pub secret: Seq<char>,
    pub mtu: usize,
    pub skip_tls_verify: bool,
    pub udp_idle_timeout: u64,
    pub dns: Seq<char>,
    pub ping_interval: u64,
}

/// The mathematical content of a [`ClientRun`].
pub struct ClientView {
    pub endpoint: Seq<char>,
    pub id: Seq<char>,
    pub secret: Seq<char>,
    pub user_token: Seq<char>,
    pub org_id: Seq<char>,
    pub mtu: usize,
    pub skip_tls_verify: bool,
    pub access: AccessMode,
    pub interface: Seq<char>,
    pub forwards: Seq<ForwardView>,
    pub socks_port: Option<u16>,
}

/// The mathematical content of a [`Config`].
pub struct ConfigView {
    pub log_level: Seq<char>,
    pub site: Option<SiteView>,
    pub client: Option<ClientView>,
}

/// The mathematical content of [`EnvVars`].
pub struct EnvView {
    pub pangolin_endpoint: Option<Seq<char>>,
    pub mtu: Option<Seq<char>>,
    pub log_level: Option<Seq<char>>,
    pub skip_tls_verify: Option<Seq<char>>,
    pub newt_udp_proxy_idle_timeout: Option<Seq<char>>,
    pub dns: Option<Seq<char>>,
    pub ping_interval: Option<Seq<char>>,
    pub newt_id: Option<Seq<char>>,
    pub newt_secret: Option<Seq<char>>,
    pub olm_id: Option<Seq<char>>,
    pub olm_secret: Option<Seq<char>>,
    pub olm_user_token: Option<Seq<char>>,
    pub pangolin_org_id: Option<Seq<char>>,
    pub org_id: Option<Seq<char>>,
    pub olm_access_mode: Option<Seq<char>>,
    pub olm_interface: Option<Seq<char>>,
    pub olm_forwards: Option<Seq<char>>,
    pub olm_socks_port: Option<Seq<char>>,
}

/// All settings, before the roles are worked out.
pub struct Settings {
    pub endpoint: Seq<char>,
    pub mtu: usize,
    pub log_level: Seq<char>,
    pub skip_tls_verify: bool,
    pub udp_idle_timeout: u64,
    pub dns: Seq<char>,
    pub ping_interval: u64,
    pub newt_id: Seq<char>,
    pub newt_secret: Seq<char>,
    pub olm_id: Seq<char>,
    pub olm_secret: Seq<char>,
    pub user_token: Seq<char>,
    pub org_id: Seq<char>,
    pub access: AccessMode,
    pub interface: Seq<char>,
    pub forwards: Seq<ForwardView>,
    pub socks_port: Option<u16>,
}

impl View for Forward {
    type V = ForwardView;

    open spec fn view(&self) -> ForwardView {
        ForwardView {
            listen_port: self.listen_port,
            dest_host: self.dest_host@,
            dest_port: self.dest_port,
        }
    }
}

impl View for SiteRun {
    type V = SiteView;

    open spec fn view(&self) -> SiteView {
        SiteView {
            endpoint: self.endpoint@,
            id: self.id@,
            secret: self.secret@,
            mtu: self.mtu,
            skip_tls_verify: self.skip_tls_verify,
            udp_idle_timeout: self.udp_idle_timeout,
            dns: self.dns@,
            ping_interval: self.ping_interval,
        }
    }
}

impl View for ClientRun {
    type V = ClientView;

    open spec fn view(&self) -> ClientView {
        ClientView {
            endpoint: self.endpoint@,
            id: self.id@,
            secret: self.secret@,
            user_token: self.user_token@,
            org_id: self.org_id@,
            mtu: self.mtu,
            skip_tls_verify: self.skip_tls_verify,
            access: self.access,
            interface: self.interface@,
            forwards: self.forwards@.map_values(|f: Forward| f@),
            socks_port: self.socks_port,
        }
    }
}

impl View for Config {
    type V = ConfigView;

    open spec fn view(&self) -> ConfigView {
        ConfigView {
            log_level: self.log_level@,
            site: match self.site {
                Some(s) => Some(s@),
                None => None,
            },
            client: match self.client {
                Some(c) => Some(c@),
                None => None,
            },
        }
    }
}

/// The text of a variable that may be unset.
pub open spec fn text_of(v: Option<String>) -> Option<Seq<char>> {
    match v {
        Some(s) => Some(s@),
        None => None,
    }
}

impl View for EnvVars {
    type V = EnvView;

    open spec fn view(&self) -> EnvView {
        EnvView {
            pangolin_endpoint: text_of(self.pangolin_endpoint),
            mtu: text_of(self.mtu),
            log_level: text_of(self.log_level),
            skip_tls_verify: text_of(self.skip_tls_verify),
            newt_udp_proxy_idle_timeout: text_of(self.newt_udp_proxy_idle_timeout),
            dns: text_of(self.dns),
            ping_interval: text_of(self.ping_interval),
            newt_id: text_of(self.newt_id),
            newt_secret: text_of(self.newt_secret),
            olm_id: text_of(self.olm_id),
            olm_secret: text_of(self.olm_secret),
            olm_user_token: text_of(self.olm_user_token),
            pangolin_org_id: text_of(self.pangolin_org_id),
            org_id: text_of(self.org_id),
            olm_access_mode: text_of(self.olm_access_mode),
            olm_interface: text_of(self.olm_interface),
            olm_forwards: text_of(self.olm_forwards),
            olm_socks_port: text_of(self.olm_socks_port),
        }
    }
}

impl Raw {
    spec fn settings(self) -> Settings {
        Settings {
            endpoint: self.endpoint@,
            mtu: self.mtu,
            log_level: self.log_level@,
            skip_tls_verify: self.skip_tls_verify,
            udp_idle_timeout: self.udp_idle_timeout,
            dns: self.dns@,
            ping_interval: self.ping_interval,
            newt_id: self.newt_id@,
            newt_secret: self.newt_secret@,
            olm_id: self.olm_id@,
            olm_secret: self.olm_secret@,
            user_token: self.user_token@,
            org_id: self.org_id@,
            access: self.access,
            interface: self.interface@,
            forwards: self.forwards@.map_values(|f: Forward| f@),
            socks_port: self.socks_port,
        }
    }
}

/// A number of bytes.
pub open spec fn size_of_text(s: Seq<char>) -> Option<usize> {
    match crate::text::unsigned_upto(s, usize::MAX as nat) {
        Some(n) => Some(n as usize),
        None => None,
    }
}

/// A TCP port.
pub open spec fn port_of_text(s: Seq<char>) -> Option<u16> {
    match crate::text::unsigned_upto(s, u16::MAX as nat) {
        Some(n) => Some(n as u16),
        None => None,
    }
}

/// A number of seconds, with an optional run of `s` behind it.
pub open spec fn secs_of_text(s: Seq<char>) -> Option<u64> {
    match crate::text::unsigned_upto(crate::text::without_trailing(s, 's'), u64::MAX as nat) {
        Some(n) => Some(n as u64),
        None => None,
    }
}

/// The values that switch a setting on, in any ASCII case.
pub open spec fn is_truthy(s: Seq<char>) -> bool {
    let l = crate::text::lower(s);
    l == "1"@ || l == "true"@ || l == "yes"@
}

/// The access mode that a word names, in any ASCII case.
pub open spec fn access_of_text(s: Seq<char>) -> Option<AccessMode> {
    let l = crate::text::lower(s);
    if l == "kernel"@ || l == "tun"@ {
        Some(AccessMode::Kernel)
    } else if l == "userspace"@ || l == "user"@ || l == "socks"@ {
        Some(AccessMode::Userspace)
    } else {
        None
    }
}

pub open spec fn access_error(s: Seq<char>) -> Seq<char> {
    "bad access mode: "@ + s + " (kernel|userspace)"@
}

/// One `listen:host:port` forward, or what is wrong with it.
pub open spec fn forward_of_text(s: Seq<char>) -> Result<ForwardView, Seq<char>> {
    match crate::text::split_once_at(s, ':') {
        None => Err("bad forward: "@ + s),
        Some((listen, rest)) => match crate::text::rsplit_once_at(rest, ':') {
            None => Err("bad forward: "@ + s),
            Some((host, port)) => if port_of_text(listen) is None {
                Err("bad listen port: "@ + s)
            } else if port_of_text(port) is None {
                Err("bad dest port: "@ + s)
            } else {
                Ok(
                    ForwardView {
                        listen_port: port_of_text(listen)->0,
                        dest_host: host,
                        dest_port: port_of_text(port)->0,
                    },
                )
            },
        },
    }
}

/// The forwards that `items` denote, blank items left out; the first bad item
/// decides the error.
pub open spec fn forwards_of_items(items: Seq<Seq<char>>) -> Result<Seq<ForwardView>, Seq<char>>
    decreases items.len(),
{
    if items.len() == 0 {
        Ok(Seq::empty())
    } else {
        match forwards_of_items(items.drop_last()) {
            Err(e) => Err(e),
            Ok(done) => {
                let item = crate::text::trimmed(items.last());
                if item.len() == 0 {
                    Ok(done)
                } else {
                    match forward_of_text(item) {
                        Err(e) => Err(e),
                        Ok(f) => Ok(done.push(f)),
                    }
                }
            },
        }
    }
}

/// A comma-separated list of forwards.
pub open spec fn forwards_of_text(s: Seq<char>) -> Result<Seq<ForwardView>, Seq<char>> {
    forwards_of_items(crate::text::pieces(s, ','))
}

/// What is wrong with the environment, if anything; the first bad variable in
/// this order decides.
pub open spec fn env_error(v: EnvView) -> Option<Seq<char>> {
    if v.mtu is Some && size_of_text(v.mtu->0) is None {
        Some("bad MTU"@)
    } else if v.newt_udp_proxy_idle_timeout is Some && secs_of_text(
        v.newt_udp_proxy_idle_timeout->0,
    ) is None {
        Some("bad duration"@)
    } else if v.ping_interval is Some && secs_of_text(v.ping_interval->0) is None {
        Some("bad duration"@)
    } else if v.olm_access_mode is Some && access_of_text(v.olm_access_mode->0) is None {
        Some(access_error(v.olm_access_mode->0))
    } else if v.olm_forwards is Some && forwards_of_text(v.olm_forwards->0) is Err {
        Some(forwards_of_text(v.olm_forwards->0)->Err_0)
    } else if v.olm_socks_port is Some && port_of_text(v.olm_socks_port->0) is None {
        Some("bad OLM_SOCKS_PORT"@)
    } else {
        None
    }
}

pub open spec fn text_or(v: Option<Seq<char>>, default: Seq<char>) -> Seq<char> {
    match v {
        Some(s) => s,
        None => default,
    }
}

/// The access mode of a client that does not choose one.
pub open spec fn access_default(linux: bool) -> AccessMode {
    if linux {
        AccessMode::Kernel
    } else {
        AccessMode::Userspace
    }
}

/// The settings that an environment without errors gives.
pub open spec fn env_settings(v: EnvView, linux: bool) -> Settings {
    Settings {
        endpoint: text_or(v.pangolin_endpoint, Seq::empty()),
        mtu: match v.mtu {
            Some(s) => size_of_text(s)->0,
            None => 1280,
        },
        log_level: text_or(v.log_level, "INFO"@),
        skip_tls_verify: match v.skip_tls_verify {
            Some(s) => is_truthy(s),
            None => false,
        },
        udp_idle_timeout: match v.newt_udp_proxy_idle_timeout {
            Some(s) => secs_of_text(s)->0,
            None => 90,
        },
        dns: text_or(v.dns, "9.9.9.9"@),
        ping_interval: match v.ping_interval {
            Some(s) => secs_of_text(s)->0,
            None => 15,
        },
        newt_id: text_or(v.newt_id, Seq::empty()),
        newt_secret: text_or(v.newt_secret, Seq::empty()),
        olm_id: text_or(v.olm_id, Seq::empty()),
        olm_secret: text_or(v.olm_secret, Seq::empty()),
        user_token: text_or(v.olm_user_token, Seq::empty()),
        org_id: match v.pangolin_org_id {
            Some(s) => s,
            None => text_or(v.org_id, Seq::empty()),
        },
        access: match v.olm_access_mode {
            Some(s) => access_of_text(s)->0,
            None => access_default(linux),
        },
        interface: text_or(v.olm_interface, "olm"@),
        forwards: match v.olm_forwards {
            Some(s) => forwards_of_text(s)->Ok_0,
            None => Seq::empty(),
        },
        socks_port: match v.olm_socks_port {
            Some(s) => port_of_text(s),
            None => None,
        },
    }
}

/// The flag that an argument names, with one dash or two.
pub open spec fn flag_named(s: Seq<char>) -> Option<Flag> {
    if s == "-endpoint"@ || s == "--endpoint"@ {
        Some(Flag::Endpoint)
    } else if s == "-id"@ || s == "--id"@ {
        Some(Flag::Id)
    } else if s == "-secret"@ || s == "--secret"@ {
        Some(Flag::Secret)
    } else if s == "-mtu"@ || s == "--mtu"@ {
        Some(Flag::Mtu)
    } else if s == "-dns"@ || s == "--dns"@ {
        Some(Flag::Dns)
    } else if s == "-log-level"@ || s == "--log-level"@ {
        Some(Flag::LogLevel)
    } else if s == "-skip-tls-verify"@ || s == "--skip-tls-verify"@ {
        Some(Flag::SkipTlsVerify)
    } else if s == "-olm-id"@ || s == "--olm-id"@ {
        Some(Flag::OlmId)
    } else if s == "-olm-secret"@ || s == "--olm-secret"@ {
        Some(Flag::OlmSecret)
    } else if s == "-olm-user-token"@ || s == "--olm-user-token"@ {
        Some(Flag::OlmUserToken)
    } else if s == "-org-id"@ || s == "--org-id"@ {
        Some(Flag::OrgId)
    } else if s == "-olm-access"@ || s == "--olm-access"@ {
        Some(Flag::OlmAccess)
    } else if s == "-olm-interface"@ || s == "--olm-interface"@ {
        Some(Flag::OlmInterface)
    } else if s == "-olm-forwards"@ || s == "--olm-forwards"@ {
        Some(Flag::OlmForwards)
    } else if s == "-olm-socks-port"@ || s == "--olm-socks-port"@ {
        Some(Flag::OlmSocksPort)
    } else {
        None
    }
}

/// The settings after a flag with the value `v`; `SkipTlsVerify` looks at no value.
pub open spec fn with_flag(r: Settings, f: Flag, v: Seq<char>) -> Result<Settings, Seq<char>> {
    match f {
        Flag::Endpoint => Ok(Settings { endpoint: v, ..r }),
        Flag::Id => Ok(Settings { newt_id: v, ..r }),
        Flag::Secret => Ok(Settings { newt_secret: v, ..r }),
        Flag::Mtu => match size_of_text(v) {
            Some(n) => Ok(Settings { mtu: n, ..r }),
            None => Err("bad --mtu"@),
        },
        Flag::Dns => Ok(Settings { dns: v, ..r }),
        Flag::LogLevel => Ok(Settings { log_level: v, ..r }),
        Flag::SkipTlsVerify => Ok(Settings { skip_tls_verify: true, ..r }),
        Flag::OlmId => Ok(Settings { olm_id: v, ..r }),
        Flag::OlmSecret => Ok(Settings { olm_secret: v, ..r }),
        Flag::OlmUserToken => Ok(Settings { user_token: v, ..r }),
        Flag::OrgId => Ok(Settings { org_id: v, ..r }),
        Flag::OlmAccess => match access_of_text(v) {
            Some(a) => Ok(Settings { access: a, ..r }),
            None => Err(access_error(v)),
        },
        Flag::OlmInterface => Ok(Settings { interface: v, ..r }),
        Flag::OlmForwards => match forwards_of_text(v) {
            Ok(f) => Ok(Settings { forwards: f, ..r }),
            Err(e) => Err(e),
        },
        Flag::OlmSocksPort => match port_of_text(v) {
            Some(p) => Ok(Settings { socks_port: Some(p), ..r }),
            None => Err("bad --olm-socks-port"@),
        },
    }
}

/// How many arguments a flag takes up, itself included.
pub open spec fn flag_width(f: Flag) -> int {
    if f == Flag::SkipTlsVerify {
        1
    } else {
        2
    }
}

/// The settings after the arguments, read from left to right.
pub open spec fn with_args(r: Settings, args: Seq<Seq<char>>) -> Result<Settings, Seq<char>>
    decreases args.len(),
{
    if args.len() == 0 {
        Ok(r)
    } else {
        match flag_named(args[0]) {
            None => Err("unknown flag: "@ + args[0]),
            Some(f) => if args.len() < flag_width(f) {
                Err("missing value for "@ + args[0])
            } else {
                match with_flag(r, f, args[flag_width(f) - 1]) {
                    Err(e) => Err(e),
                    Ok(next) => with_args(next, args.skip(flag_width(f))),
                }
            },
        }
    }
}

/// The site role, active when both of its credentials are present.
pub open spec fn site_of(r: Settings) -> Option<SiteView> {
    if r.newt_id.len() > 0 && r.newt_secret.len() > 0 {
        Some(
            SiteView {
                endpoint: r.endpoint,
                id: r.newt_id,
                secret: r.newt_secret,
                mtu: r.mtu,
                skip_tls_verify: r.skip_tls_verify,
                udp_idle_timeout: r.udp_idle_timeout,
                dns: r.dns,
                ping_interval: r.ping_interval,
            },
        )
    } else {
        None
    }
}

/// The client role, active when both of its credentials are present.
pub open spec fn client_of(r: Settings) -> Option<ClientView> {
    if r.olm_id.len() > 0 && r.olm_secret.len() > 0 {
        Some(
            ClientView {
                endpoint: r.endpoint,
                id: r.olm_id,
                secret: r.olm_secret,
                user_token: r.user_token,
                org_id: r.org_id,
                mtu: r.mtu,
                skip_tls_verify: r.skip_tls_verify,
                access: r.access,
                interface: r.interface,
                forwards: r.forwards,
                socks_port: r.socks_port,
            },
        )
    } else {
        None
    }
}

/// The configuration that complete settings give, or what they lack.
pub open spec fn config_of_settings(r: Settings) -> Result<ConfigView, Seq<char>> {
    if r.endpoint.len() == 0 {
        Err("PANGOLIN_ENDPOINT (or --endpoint) is required"@)
    } else if site_of(r) is None && client_of(r) is None {
        Err(
            "no role configured: set NEWT_ID/NEWT_SECRET (site) and/or OLM_ID/OLM_SECRET (client)"@,
        )
    } else {
        Ok(ConfigView { log_level: r.log_level, site: site_of(r), client: client_of(r) })
    }
}

/// The configuration of an environment and an argument list.
pub open spec fn config_of(v: EnvView, args: Seq<Seq<char>>, linux: bool) -> Result<
    ConfigView,
    Seq<char>,
> {
    match env_error(v) {
        Some(e) => Err(e),
        None => match with_args(env_settings(v, linux), args) {
            Err(e) => Err(e),
            Ok(r) => config_of_settings(r),
        },
    }
}

/// The content of a result whose error is a message.
pub open spec fn config_result(r: Result<Config, String>) -> Result<ConfigView, Seq<char>> {
    match r {
        Ok(c) => Ok(c@),
        Err(e) => Err(e@),
    }
}

// ---------------------------------------------------------------------------
// Executable functions
// ---------------------------------------------------------------------------
/// `v` holds what the lookup `env` returned for each variable.
pub open spec fn looked_up<E: Fn(&str) -> Option<String>>(env: E, v: EnvVars) -> bool {
    &&& call_ensures(env, ("PANGOLIN_ENDPOINT",), v.pangolin_endpoint)
    &&& call_ensures(env, ("MTU",), v.mtu)
    &&& call_ensures(env, ("LOG_LEVEL",), v.log_level)
    &&& call_ensures(env, ("SKIP_TLS_VERIFY",), v.skip_tls_verify)
    &&& call_ensures(env, ("NEWT_UDP_PROXY_IDLE_TIMEOUT",), v.newt_udp_proxy_idle_timeout)
    &&& call_ensures(env, ("DNS",), v.dns)
    &&& call_ensures(env, ("PING_INTERVAL",), v.ping_interval)
    &&& call_ensures(env, ("NEWT_ID",), v.newt_id)
    &&& call_ensures(env, ("NEWT_SECRET",), v.newt_secret)
    &&& call_ensures(env, ("OLM_ID",), v.olm_id)
    &&& call_ensures(env, ("OLM_SECRET",), v.olm_secret)
    &&& call_ensures(env, ("OLM_USER_TOKEN",), v.olm_user_token)
    &&& call_ensures(env, ("PANGOLIN_ORG_ID",), v.pangolin_org_id)
    &&& call_ensures(env, ("ORG_ID",), v.org_id)
    &&& call_ensures(env, ("OLM_ACCESS_MODE",), v.olm_access_mode)
    &&& call_ensures(env, ("OLM_INTERFACE",), v.olm_interface)
    &&& call_ensures(env, ("OLM_FORWARDS",), v.olm_forwards)
    &&& call_ensures(env, ("OLM_SOCKS_PORT",), v.olm_socks_port)
}

impl EnvVars {
    /// Looks every variable up.
    pub fn read<E: Fn(&str) -> Option<String>>(env: &E) -> (v: EnvVars)
        requires
            forall|k: &str| call_requires(*env, (k,)),
        ensures
            looked_up(*env, v),
    {
        EnvVars {
            pangolin_endpoint: env("PANGOLIN_ENDPOINT"),
            mtu: env("MTU"),
            log_level: env("LOG_LEVEL"),
            skip_tls_verify: env("SKIP_TLS_VERIFY"),
            newt_udp_proxy_idle_timeout: env("NEWT_UDP_PROXY_IDLE_TIMEOUT"),
            dns: env("DNS"),
            ping_interval: env("PING_INTERVAL"),
            newt_id: env("NEWT_ID"),
            newt_secret: env("NEWT_SECRET"),
            olm_id: env("OLM_ID"),
            olm_secret: env("OLM_SECRET"),
            olm_user_token: env("OLM_USER_TOKEN"),
            pangolin_org_id: env("PANGOLIN_ORG_ID"),
            org_id: env("ORG_ID"),
            olm_access_mode: env("OLM_ACCESS_MODE"),
            olm_interface: env("OLM_INTERFACE"),
            olm_forwards: env("OLM_FORWARDS"),
            olm_socks_port: env("OLM_SOCKS_PORT"),
        }
    }
}

fn default_access(linux: bool) -> (r: AccessMode)
    ensures
        r == access_default(linux),
{
    if linux {
        AccessMode::Kernel
    } else {
        AccessMode::Userspace
    }
}

fn parse_size(v: &str) -> (r: Option<usize>)
    ensures
        r == size_of_text(v@),
{
    match parse_unsigned(v, usize::MAX as u64) {
        Some(n) => Some(n as usize),
        None => None,
    }
}

fn parse_port(v: &str) -> (r: Option<u16>)
    ensures
        r == port_of_text(v@),
{
    parse_u16(v)
}

fn parse_secs(v: &str) -> (r: Result<u64, String>)
    ensures
        match r {
            Ok(n) => secs_of_text(v@) == Some(n),
            Err(e) => secs_of_text(v@) is None && e@ == "bad duration"@,
        },
{
    let t = trim_end_matches(v, 's');
    match parse_unsigned(t.as_str(), u64::MAX) {
        Some(n) => Ok(n),
        None => Err("bad duration".to_owned()),
    }
}

fn truthy(v: &str) -> (r: bool)
    ensures
        r == is_truthy(v@),
{
    let l = to_ascii_lowercase(v);
    let s = l.as_str();
    same(s, "1") || same(s, "true") || same(s, "yes")
}

fn parse_access(v: &str) -> (r: Result<AccessMode, String>)
    ensures
        match r {
            Ok(a) => access_of_text(v@) == Some(a),
            Err(e) => access_of_text(v@) is None && e@ == access_error(v@),
        },
{
    let l = to_ascii_lowercase(v);
    let s = l.as_str();
    if same(s, "kernel") || same(s, "tun") {
        Ok(AccessMode::Kernel)
    } else if same(s, "userspace") || same(s, "user") || same(s, "socks") {
        Ok(AccessMode::Userspace)
    } else {
        Err(join3("bad access mode: ", v, " (kernel|userspace)"))
    }
}

fn parse_forward(spec: &str) -> (r: Result<Forward, String>)
    ensures
        match r {
            Ok(f) => forward_of_text(spec@) == Ok::<ForwardView, Seq<char>>(f@),
            Err(e) => forward_of_text(spec@) == Err::<ForwardView, Seq<char>>(e@),
        },
{
    let (listen, rest) = match split_once(spec, ':') {
        Some(p) => p,
        None => return Err(join2("bad forward: ", spec)),
    };
    let (host, port) = match rsplit_once(rest.as_str(), ':') {
        Some(p) => p,
        None => return Err(join2("bad forward: ", spec)),
    };
    let listen_port = match parse_port(listen.as_str()) {
        Some(p) => p,
        None => return Err(join2("bad listen port: ", spec)),
    };
    let dest_port = match parse_port(port.as_str()) {
        Some(p) => p,
        None => return Err(join2("bad dest port: ", spec)),
    };
    Ok(Forward { listen_port, dest_host: host, dest_port })
}

/// Parse "listen:host:port,listen:host:port" into forwards.
fn parse_forwards(v: &str) -> (r: Result<Vec<Forward>, String>)
    ensures
        match r {
            Ok(fs) => forwards_of_text(v@) == Ok::<Seq<ForwardView>, Seq<char>>(
                fs@.map_values(|f: Forward| f@),
            ),
            Err(e) => forwards_of_text(v@) == Err::<Seq<ForwardView>, Seq<char>>(e@),
        },
{
    let items = split(v, ',');
    let ghost all = crate::text::pieces(v@, ',');
    let mut out: Vec<Forward> = Vec::new();
    let mut i: usize = 0;
    assert(all.take(0) == Seq::<Seq<char>>::empty());
    assert(out@.map_values(|f: Forward| f@) == Seq::<ForwardView>::empty());
    while i < items.len()
        invariant
            i <= items@.len(),
            items@.len() == all.len(),
            all == crate::text::pieces(v@, ','),
            forall|k: int| 0 <= k < items@.len() ==> #[trigger] items@[k]@ == all[k],
            forwards_of_items(all.take(i as int)) == Ok::<Seq<ForwardView>, Seq<char>>(
                out@.map_values(|f: Forward| f@),
            ),
        decreases items@.len() - i,
    {
        let item = trim(items[i].as_str());
        proof {
            assert(all.take(i + 1).drop_last() == all.take(i as int));
            assert(all.take(i + 1).last() == items@[i as int]@);
        }
        if !item.as_str().is_empty() {
            match parse_forward(item.as_str()) {
                Ok(f) => {
                    let ghost before = out@;
                    out.push(f);
                    assert(out@.map_values(|f: Forward| f@) == before.map_values(
                        |f: Forward| f@,
                    ).push(f@));
                },
                Err(e) => {
                    proof {
                        lemma_forwards_error(all, i + 1);
                    }
                    return Err(e);
                },
            }
        }
        i += 1;
    }
    assert(all.take(i as int) == all);
    Ok(out)
}

proof fn lemma_forwards_error(items: Seq<Seq<char>>, i: int)
    requires
        0 <= i <= items.len(),
        forwards_of_items(items.take(i)) is Err,
    ensures
        forwards_of_items(items) == forwards_of_items(items.take(i)),
    decreases items.len() - i,
{
    if i < items.len() {
        assert(items.take(i + 1).drop_last() == items.take(i));
        lemma_forwards_error(items, i + 1);
    } else {
        assert(items.take(i) == items);
    }
}

fn parse_flag(s: &str) -> (r: Option<Flag>)
    ensures
        r == flag_named(s@),
{
    if same(s, "-endpoint") || same(s, "--endpoint") {
        Some(Flag::Endpoint)
    } else if same(s, "-id") || same(s, "--id") {
        Some(Flag::Id)
    } else if same(s, "-secret") || same(s, "--secret") {
        Some(Flag::Secret)
    } else if same(s, "-mtu") || same(s, "--mtu") {
        Some(Flag::Mtu)
    } else if same(s, "-dns") || same(s, "--dns") {
        Some(Flag::Dns)
    } else if same(s, "-log-level") || same(s, "--log-level") {
        Some(Flag::LogLevel)
    } else if same(s, "-skip-tls-verify") || same(s, "--skip-tls-verify") {
        Some(Flag::SkipTlsVerify)
    } else if same(s, "-olm-id") || same(s, "--olm-id") {
        Some(Flag::OlmId)
    } else if same(s, "-olm-secret") || same(s, "--olm-secret") {
        Some(Flag::OlmSecret)
    } else if same(s, "-olm-user-token") || same(s, "--olm-user-token") {
        Some(Flag::OlmUserToken)
    } else if same(s, "-org-id") || same(s, "--org-id") {
        Some(Flag::OrgId)
    } else if same(s, "-olm-access") || same(s, "--olm-access") {
        Some(Flag::OlmAccess)
    } else if same(s, "-olm-interface") || same(s, "--olm-interface") {
        Some(Flag::OlmInterface)
    } else if same(s, "-olm-forwards") || same(s, "--olm-forwards") {
        Some(Flag::OlmForwards)
    } else if same(s, "-olm-socks-port") || same(s, "--olm-socks-port") {
        Some(Flag::OlmSocksPort)
    } else {
        None
    }
}

/// The value behind the flag at `i`.
fn next(args: &[String], i: usize) -> (r: Result<String, String>)
    requires
        i < args@.len(),
    ensures
        match r {
            Ok(v) => i + 1 < args@.len() && v@ == args@[i + 1]@,
            Err(e) => i + 1 == args@.len() && e@ == "missing value for "@ + args@[i as int]@,
        },
{
    if args.len() - i > 1 {
        Ok(args[i + 1].clone())
    } else {
        Err(join2("missing value for ", args[i].as_str()))
    }
}

/// The text of `v`, or `default` where it is unset.
fn or_text(v: Option<String>, default: &str) -> (r: String)
    ensures
        r@ == text_or(text_of(v), default@),
{
    match v {
        Some(s) => s,
        None => default.to_owned(),
    }
}

impl Raw {
    fn from_env(v: EnvVars, linux: bool) -> (r: Result<Raw, String>)
        ensures
            match r {
                Ok(raw) => env_error(v@) is None && raw.settings() == env_settings(v@, linux),
                Err(e) => env_error(v@) == Some(e@),
            },
    {
        let mtu: usize = match &v.mtu {
            Some(s) => match parse_size(s.as_str()) {
                Some(n) => n,
                None => return Err("bad MTU".to_owned()),
            },
            None => 1280,
        };
        let skip_tls_verify = match &v.skip_tls_verify {
            Some(s) => truthy(s.as_str()),
            None => false,
        };
        let udp_idle_timeout: u64 = match &v.newt_udp_proxy_idle_timeout {
            Some(s) => match parse_secs(s.as_str()) {
                Ok(n) => n,
                Err(e) => return Err(e),
            },
            None => 90,
        };
        let ping_interval: u64 = match &v.ping_interval {
            Some(s) => match parse_secs(s.as_str()) {
                Ok(n) => n,
                Err(e) => return Err(e),
            },
            None => 15,
        };
        let access = match &v.olm_access_mode {
            Some(s) => match parse_access(s.as_str()) {
                Ok(a) => a,
                Err(e) => return Err(e),
            },
            None => default_access(linux),
        };
        let forwards = match &v.olm_forwards {
            Some(s) => match parse_forwards(s.as_str()) {
                Ok(f) => f,
                Err(e) => return Err(e),
            },
            None => Vec::new(),
        };
        let socks_port = match &v.olm_socks_port {
            Some(s) => match parse_port(s.as_str()) {
                Some(p) => Some(p),
                None => return Err("bad OLM_SOCKS_PORT".to_owned()),
            },
            None => None,
        };
        let ghost given = v@;
        let raw = Raw {
            endpoint: or_text(v.pangolin_endpoint, ""),
            mtu,
            log_level: or_text(v.log_level, "INFO"),
            skip_tls_verify,
            udp_idle_timeout,
            dns: or_text(v.dns, "9.9.9.9"),
            ping_interval,
            newt_id: or_text(v.newt_id, ""),
            newt_secret: or_text(v.newt_secret, ""),
            olm_id: or_text(v.olm_id, ""),
            olm_secret: or_text(v.olm_secret, ""),
            user_token: or_text(v.olm_user_token, ""),
            org_id: match v.pangolin_org_id {
                Some(s) => s,
                None => or_text(v.org_id, ""),
            },
            access,
            interface: or_text(v.olm_interface, "olm"),
            forwards,
            socks_port,
        };
        proof {
            reveal_strlit("");
            assert(""@ == Seq::<char>::empty());
            assert(raw.settings().forwards == env_settings(given, linux).forwards);
            assert(raw.settings() == env_settings(given, linux));
        }
        Ok(raw)
    }

    fn set_flag(&mut self, f: Flag, v: String) -> (r: Result<(), String>)
        ensures
            match r {
                Ok(_) => with_flag(old(self).settings(), f, v@) == Ok::<Settings, Seq<char>>(
                    final(self).settings(),
                ),
                Err(e) => with_flag(old(self).settings(), f, v@) == Err::<Settings, Seq<char>>(e@),
            },
    {
        match f {
            Flag::Endpoint => {
                self.endpoint = v;
            },
            Flag::Id => {
                self.newt_id = v;
            },
            Flag::Secret => {
                self.newt_secret = v;
            },
            Flag::Mtu => match parse_size(v.as_str()) {
                Some(n) => {
                    self.mtu = n;
                },
                None => return Err("bad --mtu".to_owned()),
            },
            Flag::Dns => {
                self.dns = v;
            },
            Flag::LogLevel => {
                self.log_level = v;
            },
            Flag::SkipTlsVerify => {
                self.skip_tls_verify = true;
            },
            Flag::OlmId => {
                self.olm_id = v;
            },
            Flag::OlmSecret => {
                self.olm_secret = v;
            },
            Flag::OlmUserToken => {
                self.user_token = v;
            },
            Flag::OrgId => {
                self.org_id = v;
            },
            Flag::OlmAccess => match parse_access(v.as_str()) {
                Ok(a) => {
                    self.access = a;
                },
                Err(e) => return Err(e),
            },
            Flag::OlmInterface => {
                self.interface = v;
            },
            Flag::OlmForwards => match parse_forwards(v.as_str()) {
                Ok(fs) => {
                    self.forwards = fs;
                },
                Err(e) => return Err(e),
            },
            Flag::OlmSocksPort => match parse_port(v.as_str()) {
                Some(p) => {
                    self.socks_port = Some(p);
                },
                None => return Err("bad --olm-socks-port".to_owned()),
            },
        }
        Ok(())
    }

    fn read_args(&mut self, args: &[String]) -> (r: Result<(), String>)
        ensures
            match r {
                Ok(_) => with_args(old(self).settings(), texts(args@)) == Ok::<
                    Settings,
                    Seq<char>,
                >(final(self).settings()),
                Err(e) => with_args(old(self).settings(), texts(args@)) == Err::<
                    Settings,
                    Seq<char>,
                >(e@),
            },
    {
        let ghost all = texts(args@);
        let ghost start = self.settings();
        let mut i: usize = 0;
        assert(all.skip(0) == all);
        while i < args.len()
            invariant
                i <= args@.len(),
                all == texts(args@),
                start == old(self).settings(),
                with_args(start, all) == with_args(self.settings(), all.skip(i as int)),
            decreases args@.len() - i,
        {
            let ghost rest = all.skip(i as int);
            assert(rest[0] == args@[i as int]@);
            let f = match parse_flag(args[i].as_str()) {
                Some(f) => f,
                None => return Err(join2("unknown flag: ", args[i].as_str())),
            };
            if f == Flag::SkipTlsVerify {
                self.skip_tls_verify = true;
                assert(rest.skip(1) == all.skip(i + 1));
                i += 1;
            } else {
                let v = match next(args, i) {
                    Ok(v) => v,
                    Err(e) => return Err(e),
                };
                assert(rest[1] == args@[i + 1]@);
                match self.set_flag(f, v) {
                    Ok(_) => {},
                    Err(e) => return Err(e),
                }
                assert(rest.skip(2) == all.skip(i + 2));
                i += 2;
            }
        }
        assert(all.skip(i as int) == Seq::<Seq<char>>::empty());
        Ok(())
    }

    fn finish(self) -> (r: Result<Config, String>)
        ensures
            config_result(r) == config_of_settings(self.settings()),
    {
        if self.endpoint.as_str().is_empty() {
            return Err("PANGOLIN_ENDPOINT (or --endpoint) is required".to_owned());
        }
        let site = if !self.newt_id.as_str().is_empty() && !self.newt_secret.as_str().is_empty() {
            Some(
                SiteRun {
                    endpoint: self.endpoint.clone(),
                    id: self.newt_id,
                    secret: self.newt_secret,
                    mtu: self.mtu,
                    skip_tls_verify: self.skip_tls_verify,
                    udp_idle_timeout: self.udp_idle_timeout,
                    dns: self.dns,
                    ping_interval: self.ping_interval,
                },
            )
        } else {
            None
        };
        let client = if !self.olm_id.as_str().is_empty() && !self.olm_secret.as_str().is_empty() {
            Some(
                ClientRun {
                    endpoint: self.endpoint,
                    id: self.olm_id,
                    secret: self.olm_secret,
                    user_token: self.user_token,
                    org_id: self.org_id,
                    mtu: self.mtu,
                    skip_tls_verify: self.skip_tls_verify,
                    access: self.access,
                    interface: self.interface,
                    forwards: self.forwards,
                    socks_port: self.socks_port,
                },
            )
        } else {
            None
        };
        if site.is_none() && client.is_none() {
            return Err(
                "no role configured: set NEWT_ID/NEWT_SECRET (site) and/or OLM_ID/OLM_SECRET (client)".to_owned(),
            );
        }
        Ok(Config { log_level: self.log_level, site, client })
    }
}

impl Config {
    /// Build from the values of the environment variables and the CLI flag list
    /// (without argv[0]). CLI overrides env. At least one role's credentials
    /// must be present.
    pub fn from_values(vars: EnvVars, args: &[String], linux: bool) -> (r: Result<Config, String>)
        ensures
            config_result(r) == config_of(vars@, texts(args@), linux),
    {
        let mut raw = match Raw::from_env(vars, linux) {
            Ok(raw) => raw,
            Err(e) => return Err(e),
        };
        match raw.read_args(args) {
            Ok(_) => {},
            Err(e) => return Err(e),
        }
        raw.finish()
    }

    /// Build from (env lookup, args). `env` maps NAME to value; `args` is the CLI
    /// flag list (without argv[0]). CLI overrides env. At least one role's
    /// credentials must be present. `linux` says whether the host runs Linux,
    /// which decides the default access mode.
    pub fn from_sources<E: Fn(&str) -> Option<String>>(
        env: &E,
        args: &[String],
        linux: bool,
    ) -> (r: Result<Config, String>)
        requires
            forall|k: &str| call_requires(*env, (k,)),
        ensures
            exists|v: EnvVars| #[trigger]
                looked_up(*env, v) && config_result(r) == config_of(v@, texts(args@), linux),
    {
        let vars = EnvVars::read(env);
        let ghost v = vars;
        let r = Config::from_values(vars, args, linux);
        assert(looked_up(*env, v));
        r
    }
}

// ---------------------------------------------------------------------------
// Laws
// ---------------------------------------------------------------------------
/// The two settings differ at most in what the flag `f` sets.
pub open spec fn agree_but(a: Settings, b: Settings, f: Flag) -> bool {
    match f {
        Flag::Endpoint => b == (Settings { endpoint: b.endpoint, ..a }),
        Flag::Id => b == (Settings { newt_id: b.newt_id, ..a }),
        Flag::Secret => b == (Settings { newt_secret: b.newt_secret, ..a }),
        Flag::Mtu => b == (Settings { mtu: b.mtu, ..a }),
        Flag::Dns => b == (Settings { dns: b.dns, ..a }),
        Flag::LogLevel => b == (Settings { log_level: b.log_level, ..a }),
        Flag::SkipTlsVerify => b == (Settings { skip_tls_verify: b.skip_tls_verify, ..a }),
        Flag::OlmId => b == (Settings { olm_id: b.olm_id, ..a }),
        Flag::OlmSecret => b == (Settings { olm_secret: b.olm_secret, ..a }),
        Flag::OlmUserToken => b == (Settings { user_token: b.user_token, ..a }),
        Flag::OrgId => b == (Settings { org_id: b.org_id, ..a }),
        Flag::OlmAccess => b == (Settings { access: b.access, ..a }),
        Flag::OlmInterface => b == (Settings { interface: b.interface, ..a }),
        Flag::OlmForwards => b == (Settings { forwards: b.forwards, ..a }),
        Flag::OlmSocksPort => b == (Settings { socks_port: b.socks_port, ..a }),
    }
}

/// The flag `f` is given somewhere in `args`.
pub open spec fn flag_given(args: Seq<Seq<char>>, f: Flag) -> bool
    decreases args.len(),
{
    if args.len() == 0 {
        false
    } else {
        match flag_named(args[0]) {
            None => false,
            Some(g) => g == f || (args.len() >= flag_width(g) && flag_given(
                args.skip(flag_width(g)),
                f,
            )),
        }
    }
}

proof fn lemma_flag_agree(a: Settings, b: Settings, f: Flag, g: Flag, v: Seq<char>)
    requires
        agree_but(a, b, f),
    ensures
        match (with_flag(a, g, v), with_flag(b, g, v)) {
            (Ok(x), Ok(y)) => agree_but(x, y, f) && (f == g ==> x == y),
            (Err(x), Err(y)) => x == y,
            _ => false,
        },
{
}

proof fn lemma_args_agree(a: Settings, b: Settings, args: Seq<Seq<char>>, f: Flag)
    requires
        agree_but(a, b, f),
    ensures
        match (with_args(a, args), with_args(b, args)) {
            (Ok(x), Ok(y)) => agree_but(x, y, f) && (flag_given(args, f) ==> x == y),
            (Err(x), Err(y)) => x == y,
            _ => false,
        },
    decreases args.len(),
{
    if args.len() > 0 {
        match flag_named(args[0]) {
            None => {},
            Some(g) => if args.len() >= flag_width(g) {
                let v = args[flag_width(g) - 1];
                lemma_flag_agree(a, b, f, g, v);
                if with_flag(a, g, v) is Ok {
                    lemma_args_agree(
                        with_flag(a, g, v)->Ok_0,
                        with_flag(b, g, v)->Ok_0,
                        args.skip(flag_width(g)),
                        f,
                    );
                }
            },
        }
    }
}

/// Command-line flags override the environment: where a flag is given, the
/// configuration does not depend on what the environment says of that setting.
pub proof fn law_cli_overrides_env(
    v: EnvView,
    w: EnvView,
    args: Seq<Seq<char>>,
    linux: bool,
    f: Flag,
)
    requires
        env_error(v) is None,
        env_error(w) is None,
        agree_but(env_settings(v, linux), env_settings(w, linux), f),
        flag_given(args, f),
    ensures
        config_of(v, args, linux) == config_of(w, args, linux),
{
    lemma_args_agree(env_settings(v, linux), env_settings(w, linux), args, f);
}

/// A flag that is given last decides its setting, whatever came before it.
pub proof fn law_last_flag_decides(r: Settings, args: Seq<Seq<char>>, name: Seq<char>, v: Seq<char>)
    requires
        with_args(r, args) is Ok,
        flag_named(name) is Some,
        flag_width(flag_named(name)->0) == 2,
    ensures
        with_args(r, args + seq![name, v]) == with_flag(
            with_args(r, args)->Ok_0,
            flag_named(name)->0,
            v,
        ),
    decreases args.len(),
{
    let more = args + seq![name, v];
    if args.len() == 0 {
        assert(more[0] == name && more[1] == v);
        assert(more.skip(2) == Seq::<Seq<char>>::empty());
        reveal_with_fuel(with_args, 2);
    } else {
        let g = flag_named(args[0])->0;
        assert(more[0] == args[0]);
        assert(more[flag_width(g) - 1] == args[flag_width(g) - 1]);
        assert(more.skip(flag_width(g)) == args.skip(flag_width(g)) + seq![name, v]);
        law_last_flag_decides(
            with_flag(r, g, args[flag_width(g) - 1])->Ok_0,
            args.skip(flag_width(g)),
            name,
            v,
        );
    }
}

/// A configuration that is accepted has at least one role, each role has its
/// credentials, and all roles share one endpoint that is not empty.
pub proof fn law_accepted_config(v: EnvView, args: Seq<Seq<char>>, linux: bool)
    requires
        config_of(v, args, linux) is Ok,
    ensures
        ({
            let c = config_of(v, args, linux)->Ok_0;
            &&& c.site is Some || c.client is Some
            &&& c.site matches Some(s) ==> s.endpoint.len() > 0 && s.id.len() > 0 && s.secret.len()
                > 0
            &&& c.client matches Some(k) ==> k.endpoint.len() > 0 && k.id.len() > 0
                && k.secret.len() > 0
            &&& c.site is Some && c.client is Some ==> c.site->0.endpoint == c.client->0.endpoint
        }),
{
}

/// A number of seconds that is written in decimal is read back, without a unit, with an
/// `s` behind it, and with any run of them.
pub proof fn law_seconds_are_read_back(n: u64, run: nat)
    ensures
        secs_of_text(crate::text::decimal(n as nat)) == Some(n),
        secs_of_text(crate::text::decimal(n as nat).push('s')) == Some(n),
        secs_of_text(crate::text::decimal(n as nat) + Seq::new(run, |i: int| 's')) == Some(n),
{
    let digits = crate::text::decimal(n as nat);
    crate::text::law_decimal_round_trip(n as nat);
    assert(crate::text::is_digit(digits[digits.len() - 1]));
    assert(digits.last() != 's');
    assert(digits.push('s').drop_last() =~= digits);
    assert(crate::text::without_trailing(digits, 's') == digits);
    assert(crate::text::without_trailing(digits.push('s'), 's') == digits);
    lemma_trailing_run(digits, 's', run);
}

proof fn lemma_trailing_run(s: Seq<char>, c: char, run: nat)
    requires
        s.len() > 0,
        s.last() != c,
    ensures
        crate::text::without_trailing(s + Seq::new(run, |i: int| c), c) == s,
    decreases run,
{
    let all = s + Seq::new(run, |i: int| c);
    if run == 0 {
        assert(all =~= s);
    } else {
        assert(all.drop_last() =~= s + Seq::new((run - 1) as nat, |i: int| c));
        lemma_trailing_run(s, c, (run - 1) as nat);
    }
}

/// What is no number of seconds is refused: a text that is empty before its run of `s`,
/// or that holds there anything but digits and one leading plus sign.
pub proof fn law_other_durations_are_refused(s: Seq<char>, i: int)
    requires
        ({
            let t = crate::text::without_trailing(s, 's');
            ||| t.len() == 0
            ||| 0 <= i < t.len() && !crate::text::is_digit(t[i]) && (i > 0 || t[0] != '+')
        }),
    ensures
        secs_of_text(s) is None,
{
    let t = crate::text::without_trailing(s, 's');
    let u = crate::text::without_plus(t);
    if t.len() > 0 {
        if t[0] == '+' {
            assert(u[i - 1] == t[i]);
        } else {
            assert(u[i] == t[i]);
        }
    }
}

/// An argument names a flag with one dash or two.
pub open spec fn is_named(arg: Seq<char>, name: Seq<char>) -> bool {
    arg == "-"@ + name || arg == "--"@ + name
}

/// The name of a flag, without its dashes.
pub open spec fn name_of(f: Flag) -> Seq<char> {
    match f {
        Flag::Endpoint => "endpoint"@,
        Flag::Id => "id"@,
        Flag::Secret => "secret"@,
        Flag::Mtu => "mtu"@,
        Flag::Dns => "dns"@,
        Flag::LogLevel => "log-level"@,
        Flag::SkipTlsVerify => "skip-tls-verify"@,
        Flag::OlmId => "olm-id"@,
        Flag::OlmSecret => "olm-secret"@,
        Flag::OlmUserToken => "olm-user-token"@,
        Flag::OrgId => "org-id"@,
        Flag::OlmAccess => "olm-access"@,
        Flag::OlmInterface => "olm-interface"@,
        Flag::OlmForwards => "olm-forwards"@,
        Flag::OlmSocksPort => "olm-socks-port"@,
    }
}

proof fn lemma_names(f: Flag, g: Flag)
    ensures
        name_of(f) == name_of(g) ==> f == g,
        name_of(f).len() > 0 && name_of(f)[0] != '-',
{
    reveal_strlit("endpoint");
    reveal_strlit("id");
    reveal_strlit("secret");
    reveal_strlit("mtu");
    reveal_strlit("dns");
    reveal_strlit("log-level");
    reveal_strlit("skip-tls-verify");
    reveal_strlit("olm-id");
    reveal_strlit("olm-secret");
    reveal_strlit("olm-user-token");
    reveal_strlit("org-id");
    reveal_strlit("olm-access");
    reveal_strlit("olm-interface");
    reveal_strlit("olm-forwards");
    reveal_strlit("olm-socks-port");
    let a = name_of(f);
    let b = name_of(g);
    if a == b {
        assert(a.len() == b.len());
        assert(a[0] == b[0] && a[1] == b[1] && a.last() == b.last());
        assert(a.len() > 4 ==> a[4] == b[4]);
        assert(a.len() > 5 ==> a[5] == b[5]);
    }
}

proof fn lemma_named_once(arg: Seq<char>, x: Seq<char>, y: Seq<char>)
    requires
        is_named(arg, x),
        is_named(arg, y),
        x.len() > 0 && x[0] != '-',
        y.len() > 0 && y[0] != '-',
    ensures
        x == y,
{
    reveal_strlit("-");
    reveal_strlit("--");
    assert(("-"@ + x)[1] == x[0] && ("-"@ + y)[1] == y[0]);
    assert(("--"@ + x)[1] == '-' && ("--"@ + y)[1] == '-');
    if arg == "-"@ + x {
        assert(arg.skip(1) =~= x);
        assert(arg == "-"@ + y ==> arg.skip(1) =~= y);
    } else {
        assert(arg.skip(2) =~= x);
        assert(arg == "--"@ + y ==> arg.skip(2) =~= y);
    }
}

proof fn lemma_flag_name(arg: Seq<char>, f: Flag)
    ensures
        flag_named(arg) == Some(f) <==> is_named(arg, name_of(f)),
{
    reveal_strlit("-");
    reveal_strlit("--");
    lemma_flag_literals();
    if flag_named(arg) is Some {
        let g = flag_named(arg)->0;
        assert(is_named(arg, name_of(g)));
        if is_named(arg, name_of(f)) {
            lemma_names(f, g);
            lemma_names(g, f);
            lemma_named_once(arg, name_of(f), name_of(g));
        }
    }
}

proof fn lemma_flag_literals()
    ensures
        "-endpoint"@ == "-"@ + "endpoint"@,
        "--endpoint"@ == "--"@ + "endpoint"@,
        "-id"@ == "-"@ + "id"@,
        "--id"@ == "--"@ + "id"@,
        "-secret"@ == "-"@ + "secret"@,
        "--secret"@ == "--"@ + "secret"@,
        "-mtu"@ == "-"@ + "mtu"@,
        "--mtu"@ == "--"@ + "mtu"@,
        "-dns"@ == "-"@ + "dns"@,
        "--dns"@ == "--"@ + "dns"@,
        "-log-level"@ == "-"@ + "log-level"@,
        "--log-level"@ == "--"@ + "log-level"@,
        "-skip-tls-verify"@ == "-"@ + "skip-tls-verify"@,
        "--skip-tls-verify"@ == "--"@ + "skip-tls-verify"@,
        "-olm-id"@ == "-"@ + "olm-id"@,
        "--olm-id"@ == "--"@ + "olm-id"@,
        "-olm-secret"@ == "-"@ + "olm-secret"@,
        "--olm-secret"@ == "--"@ + "olm-secret"@,
        "-olm-user-token"@ == "-"@ + "olm-user-token"@,
        "--olm-user-token"@ == "--"@ + "olm-user-token"@,
        "-org-id"@ == "-"@ + "org-id"@,
        "--org-id"@ == "--"@ + "org-id"@,
        "-olm-access"@ == "-"@ + "olm-access"@,
        "--olm-access"@ == "--"@ + "olm-access"@,
        "-olm-interface"@ == "-"@ + "olm-interface"@,
        "--olm-interface"@ == "--"@ + "olm-interface"@,
        "-olm-forwards"@ == "-"@ + "olm-forwards"@,
        "--olm-forwards"@ == "--"@ + "olm-forwards"@,
        "-olm-socks-port"@ == "-"@ + "olm-socks-port"@,
        "--olm-socks-port"@ == "--"@ + "olm-socks-port"@,
{
    reveal_strlit("-");
    reveal_strlit("--");
    reveal_strlit("endpoint");
    reveal_strlit("id");
    reveal_strlit("secret");
    reveal_strlit("mtu");
    reveal_strlit("dns");
    reveal_strlit("log-level");
    reveal_strlit("skip-tls-verify");
    reveal_strlit("olm-id");
    reveal_strlit("olm-secret");
    reveal_strlit("olm-user-token");
    reveal_strlit("org-id");
    reveal_strlit("olm-access");
    reveal_strlit("olm-interface");
    reveal_strlit("olm-forwards");
    reveal_strlit("olm-socks-port");
    reveal_strlit("-endpoint");
    reveal_strlit("--endpoint");
    assert("-endpoint"@ =~= "-"@ + "endpoint"@);
    assert("--endpoint"@ =~= "--"@ + "endpoint"@);
    reveal_strlit("-id");
    reveal_strlit("--id");
    assert("-id"@ =~= "-"@ + "id"@);
    assert("--id"@ =~= "--"@ + "id"@);
    reveal_strlit("-secret");
    reveal_strlit("--secret");
    assert("-secret"@ =~= "-"@ + "secret"@);
    assert("--secret"@ =~= "--"@ + "secret"@);
    reveal_strlit("-mtu");
    reveal_strlit("--mtu");
    assert("-mtu"@ =~= "-"@ + "mtu"@);
    assert("--mtu"@ =~= "--"@ + "mtu"@);
    reveal_strlit("-dns");
    reveal_strlit("--dns");
    assert("-dns"@ =~= "-"@ + "dns"@);
    assert("--dns"@ =~= "--"@ + "dns"@);
    reveal_strlit("-log-level");
    reveal_strlit("--log-level");
    assert("-log-level"@ =~= "-"@ + "log-level"@);
    assert("--log-level"@ =~= "--"@ + "log-level"@);
    reveal_strlit("-skip-tls-verify");
    reveal_strlit("--skip-tls-verify");
    assert("-skip-tls-verify"@ =~= "-"@ + "skip-tls-verify"@);
    assert("--skip-tls-verify"@ =~= "--"@ + "skip-tls-verify"@);
    reveal_strlit("-olm-id");
    reveal_strlit("--olm-id");
    assert("-olm-id"@ =~= "-"@ + "olm-id"@);
    assert("--olm-id"@ =~= "--"@ + "olm-id"@);
    reveal_strlit("-olm-secret");
    reveal_strlit("--olm-secret");
    assert("-olm-secret"@ =~= "-"@ + "olm-secret"@);
    assert("--olm-secret"@ =~= "--"@ + "olm-secret"@);
    reveal_strlit("-olm-user-token");
    reveal_strlit("--olm-user-token");
    assert("-olm-user-token"@ =~= "-"@ + "olm-user-token"@);
    assert("--olm-user-token"@ =~= "--"@ + "olm-user-token"@);
    reveal_strlit("-org-id");
    reveal_strlit("--org-id");
    assert("-org-id"@ =~= "-"@ + "org-id"@);
    assert("--org-id"@ =~= "--"@ + "org-id"@);
    reveal_strlit("-olm-access");
    reveal_strlit("--olm-access");
    assert("-olm-access"@ =~= "-"@ + "olm-access"@);
    assert("--olm-access"@ =~= "--"@ + "olm-access"@);
    reveal_strlit("-olm-interface");
    reveal_strlit("--olm-interface");
    assert("-olm-interface"@ =~= "-"@ + "olm-interface"@);
    assert("--olm-interface"@ =~= "--"@ + "olm-interface"@);
    reveal_strlit("-olm-forwards");
    reveal_strlit("--olm-forwards");
    assert("-olm-forwards"@ =~= "-"@ + "olm-forwards"@);
    assert("--olm-forwards"@ =~= "--"@ + "olm-forwards"@);
    reveal_strlit("-olm-socks-port");
    reveal_strlit("--olm-socks-port");
    assert("-olm-socks-port"@ =~= "-"@ + "olm-socks-port"@);
    assert("--olm-socks-port"@ =~= "--"@ + "olm-socks-port"@);
}

/// The value that the last flag of a name gives, or what was there before.
pub open spec fn last_given(args: Seq<Seq<char>>, name: Seq<char>, before: Option<Seq<char>>) -> Option<
    Seq<char>,
>
    decreases args.len(),
{
    if args.len() == 0 {
        before
    } else if is_named(args[0], "skip-tls-verify"@) {
        last_given(args.skip(1), name, before)
    } else if args.len() < 2 {
        before
    } else if is_named(args[0], name) {
        last_given(args.skip(2), name, Some(args[1]))
    } else {
        last_given(args.skip(2), name, before)
    }
}

/// The flag that switches the verification of certificates off is given.
pub open spec fn unverified(args: Seq<Seq<char>>) -> bool
    decreases args.len(),
{
    if args.len() == 0 {
        false
    } else {
        ||| is_named(args[0], "skip-tls-verify"@)
        ||| args.len() >= 2 && unverified(args.skip(2))
    }
}

/// A text that was given, or an empty one.
pub open spec fn or_empty(t: Option<Seq<char>>) -> Seq<char> {
    match t {
        Some(s) => s,
        None => seq![],
    }
}

/// A size that was given in decimal, or the one before.
spec fn is_size(t: Option<Seq<char>>, before: usize, n: usize) -> bool {
    match t {
        Some(s) => crate::text::unsigned(s) == Some(n as nat),
        None => n == before,
    }
}

spec fn is_access(t: Option<Seq<char>>, before: AccessMode, a: AccessMode) -> bool {
    match t {
        Some(s) => access_of_text(s) == Some(a),
        None => a == before,
    }
}

spec fn are_forwards(t: Option<Seq<char>>, before: Seq<ForwardView>, f: Seq<ForwardView>) -> bool {
    match t {
        Some(s) => forwards_of_text(s) == Ok::<Seq<ForwardView>, Seq<char>>(f),
        None => f == before,
    }
}

spec fn is_socks(t: Option<Seq<char>>, before: Option<u16>, p: Option<u16>) -> bool {
    match t {
        Some(s) => p is Some && crate::text::unsigned(s) == Some(p->0 as nat),
        None => p == before,
    }
}

/// Every text setting is what was last given for it.
spec fn texts_given(r: Settings, args: Seq<Seq<char>>, out: Settings) -> bool {
    &&& last_given(args, "endpoint"@, Some(r.endpoint)) == Some(out.endpoint)
    &&& last_given(args, "id"@, Some(r.newt_id)) == Some(out.newt_id)
    &&& last_given(args, "secret"@, Some(r.newt_secret)) == Some(out.newt_secret)
    &&& last_given(args, "dns"@, Some(r.dns)) == Some(out.dns)
    &&& last_given(args, "log-level"@, Some(r.log_level)) == Some(out.log_level)
    &&& last_given(args, "olm-id"@, Some(r.olm_id)) == Some(out.olm_id)
    &&& last_given(args, "olm-secret"@, Some(r.olm_secret)) == Some(out.olm_secret)
    &&& last_given(args, "olm-user-token"@, Some(r.user_token)) == Some(out.user_token)
    &&& last_given(args, "org-id"@, Some(r.org_id)) == Some(out.org_id)
    &&& last_given(args, "olm-interface"@, Some(r.interface)) == Some(out.interface)
}

/// Every other setting is what was last given for it.
spec fn values_given(r: Settings, args: Seq<Seq<char>>, out: Settings) -> bool {
    &&& is_size(last_given(args, "mtu"@, None), r.mtu, out.mtu)
    &&& is_access(last_given(args, "olm-access"@, None), r.access, out.access)
    &&& are_forwards(last_given(args, "olm-forwards"@, None), r.forwards, out.forwards)
    &&& is_socks(last_given(args, "olm-socks-port"@, None), r.socks_port, out.socks_port)
    &&& out.skip_tls_verify == (r.skip_tls_verify || unverified(args))
    &&& out.udp_idle_timeout == r.udp_idle_timeout
    &&& out.ping_interval == r.ping_interval
}

proof fn lemma_last_before(args: Seq<Seq<char>>, name: Seq<char>, t: Option<Seq<char>>)
    ensures
        last_given(args, name, t) == match last_given(args, name, None) {
            Some(s) => Some(s),
            None => t,
        },
    decreases args.len(),
{
    if args.len() > 0 {
        if is_named(args[0], "skip-tls-verify"@) {
            lemma_last_before(args.skip(1), name, t);
        } else if args.len() >= 2 {
            lemma_last_before(args.skip(2), name, t);
            if is_named(args[0], name) {
                lemma_last_before(args.skip(2), name, Some(args[1]));
            }
        }
    }
}

#[verifier::rlimit(60)]
proof fn lemma_one_flag(r: Settings, args: Seq<Seq<char>>, f: Flag, next: Settings, out: Settings)
    requires
        args.len() >= 2,
        f != Flag::SkipTlsVerify,
        flag_named(args[0]) == Some(f),
        with_flag(r, f, args[1]) == Ok::<Settings, Seq<char>>(next),
        texts_given(next, args.skip(2), out),
        values_given(next, args.skip(2), out),
    ensures
        texts_given(r, args, out),
        values_given(r, args, out),
{
    lemma_flag_name(args[0], Flag::SkipTlsVerify);
    lemma_flag_name(args[0], Flag::Endpoint);
    lemma_flag_name(args[0], Flag::Id);
    lemma_flag_name(args[0], Flag::Secret);
    lemma_flag_name(args[0], Flag::Mtu);
    lemma_flag_name(args[0], Flag::Dns);
    lemma_flag_name(args[0], Flag::LogLevel);
    lemma_flag_name(args[0], Flag::OlmId);
    lemma_flag_name(args[0], Flag::OlmSecret);
    lemma_flag_name(args[0], Flag::OlmUserToken);
    lemma_flag_name(args[0], Flag::OrgId);
    lemma_flag_name(args[0], Flag::OlmAccess);
    lemma_flag_name(args[0], Flag::OlmInterface);
    lemma_flag_name(args[0], Flag::OlmForwards);
    lemma_flag_name(args[0], Flag::OlmSocksPort);
    let rest = args.skip(2);
    lemma_last_before(rest, "mtu"@, Some(args[1]));
    lemma_last_before(rest, "olm-access"@, Some(args[1]));
    lemma_last_before(rest, "olm-forwards"@, Some(args[1]));
    lemma_last_before(rest, "olm-socks-port"@, Some(args[1]));
}

proof fn lemma_given(r: Settings, args: Seq<Seq<char>>)
    requires
        with_args(r, args) is Ok,
    ensures
        texts_given(r, args, with_args(r, args)->Ok_0),
        values_given(r, args, with_args(r, args)->Ok_0),
    decreases args.len(),
{
    let out = with_args(r, args)->Ok_0;
    if args.len() > 0 {
        let f = flag_named(args[0])->0;
        lemma_flag_name(args[0], Flag::SkipTlsVerify);
        let next = with_flag(r, f, args[flag_width(f) - 1])->Ok_0;
        lemma_given(next, args.skip(flag_width(f)));
        if f != Flag::SkipTlsVerify {
            lemma_one_flag(r, args, f, next, out);
        }
    }
}

/// Every setting reaches its role: what the last flag of its name gives, else what its
/// variable holds, else the default. `vars` are the variables by their names.
pub proof fn law_settings_reach_their_roles<E: Fn(&str) -> Option<String>>(
    env: E,
    vars: spec_fn(Seq<char>) -> Option<Seq<char>>,
    v: EnvVars,
    args: Seq<Seq<char>>,
    linux: bool,
    c: ConfigView,
)
    requires
        looked_up(env, v),
        forall|k: &str, t: Option<String>| #[trigger]
            call_ensures(env, (k,), t) ==> vars(k@) == match t {
                Some(s) => Some(s@),
                None => None,
            },
        config_of(v@, args, linux) == Ok::<ConfigView, Seq<char>>(c),
    ensures
        c.log_level == match last_given(args, "log-level"@, vars("LOG_LEVEL"@)) {
            Some(s) => s,
            None => "INFO"@,
        },
        c.site matches Some(s) ==> {
            &&& last_given(args, "endpoint"@, vars("PANGOLIN_ENDPOINT"@)) == Some(s.endpoint)
            &&& last_given(args, "id"@, vars("NEWT_ID"@)) == Some(s.id)
            &&& last_given(args, "secret"@, vars("NEWT_SECRET"@)) == Some(s.secret)
            &&& match last_given(args, "mtu"@, vars("MTU"@)) {
                Some(t) => crate::text::unsigned(t) == Some(s.mtu as nat),
                None => s.mtu == 1280,
            }
            &&& s.dns == match last_given(args, "dns"@, vars("DNS"@)) {
                Some(t) => t,
                None => "9.9.9.9"@,
            }
            &&& s.skip_tls_verify == (unverified(args) || (vars("SKIP_TLS_VERIFY"@) is Some
                && is_truthy(vars("SKIP_TLS_VERIFY"@)->0)))
            &&& match vars("NEWT_UDP_PROXY_IDLE_TIMEOUT"@) {
                Some(t) => secs_of_text(t) == Some(s.udp_idle_timeout),
                None => s.udp_idle_timeout == 90,
            }
            &&& match vars("PING_INTERVAL"@) {
                Some(t) => secs_of_text(t) == Some(s.ping_interval),
                None => s.ping_interval == 15,
            }
        },
        c.client matches Some(s) ==> {
            &&& last_given(args, "endpoint"@, vars("PANGOLIN_ENDPOINT"@)) == Some(s.endpoint)
            &&& last_given(args, "olm-id"@, vars("OLM_ID"@)) == Some(s.id)
            &&& last_given(args, "olm-secret"@, vars("OLM_SECRET"@)) == Some(s.secret)
            &&& s.user_token == or_empty(last_given(args, "olm-user-token"@, vars("OLM_USER_TOKEN"@)))
            &&& s.org_id == or_empty(
                last_given(
                    args,
                    "org-id"@,
                    if vars("PANGOLIN_ORG_ID"@) is Some {
                        vars("PANGOLIN_ORG_ID"@)
                    } else {
                        vars("ORG_ID"@)
                    },
                ),
            )
            &&& match last_given(args, "mtu"@, vars("MTU"@)) {
                Some(t) => crate::text::unsigned(t) == Some(s.mtu as nat),
                None => s.mtu == 1280,
            }
            &&& s.skip_tls_verify == (unverified(args) || (vars("SKIP_TLS_VERIFY"@) is Some
                && is_truthy(vars("SKIP_TLS_VERIFY"@)->0)))
            &&& match last_given(args, "olm-access"@, vars("OLM_ACCESS_MODE"@)) {
                Some(t) => access_of_text(t) == Some(s.access),
                None => s.access == if linux {
                    AccessMode::Kernel
                } else {
                    AccessMode::Userspace
                },
            }
            &&& s.interface == match last_given(args, "olm-interface"@, vars("OLM_INTERFACE"@)) {
                Some(t) => t,
                None => "olm"@,
            }
            &&& match last_given(args, "olm-forwards"@, vars("OLM_FORWARDS"@)) {
                Some(t) => forwards_of_text(t) == Ok::<Seq<ForwardView>, Seq<char>>(s.forwards),
                None => s.forwards.len() == 0,
            }
            &&& match last_given(args, "olm-socks-port"@, vars("OLM_SOCKS_PORT"@)) {
                Some(t) => s.socks_port is Some && crate::text::unsigned(t) == Some(
                    s.socks_port->0 as nat,
                ),
                None => s.socks_port is None,
            }
        },
{
    let e = v@;
    let r = env_settings(e, linux);
    lemma_given(r, args);
    lemma_last_before(args, "endpoint"@, Some(r.endpoint));
    lemma_last_before(args, "endpoint"@, e.pangolin_endpoint);
    lemma_last_before(args, "id"@, Some(r.newt_id));
    lemma_last_before(args, "id"@, e.newt_id);
    lemma_last_before(args, "secret"@, Some(r.newt_secret));
    lemma_last_before(args, "secret"@, e.newt_secret);
    lemma_last_before(args, "dns"@, Some(r.dns));
    lemma_last_before(args, "dns"@, e.dns);
    lemma_last_before(args, "log-level"@, Some(r.log_level));
    lemma_last_before(args, "log-level"@, e.log_level);
    lemma_last_before(args, "olm-id"@, Some(r.olm_id));
    lemma_last_before(args, "olm-id"@, e.olm_id);
    lemma_last_before(args, "olm-secret"@, Some(r.olm_secret));
    lemma_last_before(args, "olm-secret"@, e.olm_secret);
    lemma_last_before(args, "olm-user-token"@, Some(r.user_token));
    lemma_last_before(args, "olm-user-token"@, e.olm_user_token);
    lemma_last_before(args, "olm-interface"@, Some(r.interface));
    lemma_last_before(args, "olm-interface"@, e.olm_interface);
    lemma_last_before(args, "org-id"@, Some(r.org_id));
    lemma_last_before(args, "org-id"@, e.pangolin_org_id);
    lemma_last_before(args, "org-id"@, e.org_id);
    lemma_last_before(args, "mtu"@, e.mtu);
    lemma_last_before(args, "olm-access"@, e.olm_access_mode);
    lemma_last_before(args, "olm-forwards"@, e.olm_forwards);
    lemma_last_before(args, "olm-socks-port"@, e.olm_socks_port);
}

/// An argument and the one behind it are a flag and a value that it takes.
pub open spec fn takes_value(arg: Seq<char>, v: Seq<char>) -> bool {
    ||| is_named(arg, "endpoint"@)
    ||| is_named(arg, "id"@)
    ||| is_named(arg, "secret"@)
    ||| is_named(arg, "dns"@)
    ||| is_named(arg, "log-level"@)
    ||| is_named(arg, "olm-id"@)
    ||| is_named(arg, "olm-secret"@)
    ||| is_named(arg, "olm-user-token"@)
    ||| is_named(arg, "org-id"@)
    ||| is_named(arg, "olm-interface"@)
    ||| is_named(arg, "mtu"@) && crate::text::unsigned_upto(v, usize::MAX as nat) is Some
    ||| is_named(arg, "olm-access"@) && access_of_text(v) is Some
    ||| is_named(arg, "olm-forwards"@) && forwards_of_text(v) is Ok
    ||| is_named(arg, "olm-socks-port"@) && crate::text::unsigned_upto(v, 65535) is Some
}

/// The arguments are flags, each with a value that it takes, but for the one without.
pub open spec fn readable(args: Seq<Seq<char>>) -> bool
    decreases args.len(),
{
    if args.len() == 0 {
        true
    } else if is_named(args[0], "skip-tls-verify"@) {
        readable(args.skip(1))
    } else {
        args.len() >= 2 && takes_value(args[0], args[1]) && readable(args.skip(2))
    }
}

proof fn lemma_readable(r: Settings, args: Seq<Seq<char>>)
    ensures
        with_args(r, args) is Ok <==> readable(args),
    decreases args.len(),
{
    if args.len() > 0 {
        lemma_flag_name(args[0], Flag::Endpoint);
        lemma_flag_name(args[0], Flag::Id);
        lemma_flag_name(args[0], Flag::Secret);
        lemma_flag_name(args[0], Flag::Mtu);
        lemma_flag_name(args[0], Flag::Dns);
        lemma_flag_name(args[0], Flag::LogLevel);
        lemma_flag_name(args[0], Flag::SkipTlsVerify);
        lemma_flag_name(args[0], Flag::OlmId);
        lemma_flag_name(args[0], Flag::OlmSecret);
        lemma_flag_name(args[0], Flag::OlmUserToken);
        lemma_flag_name(args[0], Flag::OrgId);
        lemma_flag_name(args[0], Flag::OlmAccess);
        lemma_flag_name(args[0], Flag::OlmInterface);
        lemma_flag_name(args[0], Flag::OlmForwards);
        lemma_flag_name(args[0], Flag::OlmSocksPort);
        match flag_named(args[0]) {
            None => {},
            Some(f) => if args.len() >= flag_width(f) {
                match with_flag(r, f, args[flag_width(f) - 1]) {
                    Ok(next) => {
                        lemma_readable(next, args.skip(flag_width(f)));
                    },
                    Err(_) => {},
                }
            },
        }
    }
}

/// The variables that hold a number, a duration, a mode or forwards hold one.
pub open spec fn sound(v: EnvView) -> bool {
    &&& v.mtu matches Some(t) ==> crate::text::unsigned_upto(t, usize::MAX as nat) is Some
    &&& v.newt_udp_proxy_idle_timeout matches Some(t) ==> secs_of_text(t) is Some
    &&& v.ping_interval matches Some(t) ==> secs_of_text(t) is Some
    &&& v.olm_access_mode matches Some(t) ==> access_of_text(t) is Some
    &&& v.olm_forwards matches Some(t) ==> forwards_of_text(t) is Ok
    &&& v.olm_socks_port matches Some(t) ==> crate::text::unsigned_upto(t, 65535) is Some
}

/// A configuration is accepted exactly when the variables are sound, the arguments are
/// readable, an endpoint is given, and the credentials of a role are; a role is active
/// exactly when both of its credentials are given and not empty.
pub proof fn law_accepted_exactly_when_complete(v: EnvView, args: Seq<Seq<char>>, linux: bool)
    ensures
        ({
            let endpoint = or_empty(last_given(args, "endpoint"@, v.pangolin_endpoint));
            let site = or_empty(last_given(args, "id"@, v.newt_id)).len() > 0 && or_empty(
                last_given(args, "secret"@, v.newt_secret),
            ).len() > 0;
            let client = or_empty(last_given(args, "olm-id"@, v.olm_id)).len() > 0 && or_empty(
                last_given(args, "olm-secret"@, v.olm_secret),
            ).len() > 0;
            let c = config_of(v, args, linux);
            &&& c is Ok <==> sound(v) && readable(args) && endpoint.len() > 0 && (site || client)
            &&& c is Ok ==> (c->Ok_0.site is Some <==> site) && (c->Ok_0.client is Some <==> client)
        }),
{
    let r = env_settings(v, linux);
    lemma_readable(r, args);
    if with_args(r, args) is Ok {
        lemma_given(r, args);
    }
    lemma_last_before(args, "endpoint"@, Some(r.endpoint));
    lemma_last_before(args, "endpoint"@, v.pangolin_endpoint);
    lemma_last_before(args, "id"@, Some(r.newt_id));
    lemma_last_before(args, "id"@, v.newt_id);
    lemma_last_before(args, "secret"@, Some(r.newt_secret));
    lemma_last_before(args, "secret"@, v.newt_secret);
    lemma_last_before(args, "olm-id"@, Some(r.olm_id));
    lemma_last_before(args, "olm-id"@, v.olm_id);
    lemma_last_before(args, "olm-secret"@, Some(r.olm_secret));
    lemma_last_before(args, "olm-secret"@, v.olm_secret);
}

/// An argument that names no flag, and a flag whose value is missing, are told.
pub proof fn law_bad_arguments_are_told(v: EnvView, arg: Seq<char>, rest: Seq<Seq<char>>, linux: bool)
    requires
        sound(v),
    ensures
        arg.len() == 0 || arg[0] != '-' ==> config_of(v, seq![arg] + rest, linux) == Err::<
            ConfigView,
            Seq<char>,
        >("unknown flag: "@ + arg),
        is_named(arg, "secret"@) || is_named(arg, "mtu"@) || is_named(arg, "olm-forwards"@)
            ==> config_of(v, seq![arg], linux) == Err::<ConfigView, Seq<char>>(
            "missing value for "@ + arg,
        ),
{
    reveal_strlit("-");
    reveal_strlit("--");
    assert((seq![arg] + rest)[0] == arg);
    assert(seq![arg][0] == arg);
    lemma_flag_name(arg, Flag::Endpoint);
    lemma_flag_name(arg, Flag::Id);
    lemma_flag_name(arg, Flag::Secret);
    lemma_flag_name(arg, Flag::Mtu);
    lemma_flag_name(arg, Flag::Dns);
    lemma_flag_name(arg, Flag::LogLevel);
    lemma_flag_name(arg, Flag::SkipTlsVerify);
    lemma_flag_name(arg, Flag::OlmId);
    lemma_flag_name(arg, Flag::OlmSecret);
    lemma_flag_name(arg, Flag::OlmUserToken);
    lemma_flag_name(arg, Flag::OrgId);
    lemma_flag_name(arg, Flag::OlmAccess);
    lemma_flag_name(arg, Flag::OlmInterface);
    lemma_flag_name(arg, Flag::OlmForwards);
    lemma_flag_name(arg, Flag::OlmSocksPort);
    lemma_names(Flag::Secret, Flag::Mtu);
    match flag_named(arg) {
        Some(f) => {
            assert(is_named(arg, name_of(f)));
            assert(arg[0] == '-');
        },
        None => {},
    }
}

/// The words that switch a setting on and that name an access mode, in any case.
pub proof fn law_words_are_read_in_any_case(s: Seq<char>)
    ensures
        is_truthy(s) <==> crate::text::lower(s) == "1"@ || crate::text::lower(s) == "true"@
            || crate::text::lower(s) == "yes"@,
        crate::text::lower(s) == "kernel"@ || crate::text::lower(s) == "tun"@ ==> access_of_text(s)
            == Some(AccessMode::Kernel),
        crate::text::lower(s) == "userspace"@ || crate::text::lower(s) == "user"@
            || crate::text::lower(s) == "socks"@ ==> access_of_text(s) == Some(
            AccessMode::Userspace,
        ),
        access_of_text(s) == access_of_text(crate::text::upper(s)),
        is_truthy(s) == is_truthy(crate::text::upper(s)),
{
    crate::text::law_case_folding_is_ascii('a', s);
    reveal_strlit("kernel");
    reveal_strlit("tun");
    reveal_strlit("userspace");
    reveal_strlit("user");
    reveal_strlit("socks");
}

/// A forward in writing.
pub open spec fn forward_text(f: ForwardView) -> Seq<char> {
    crate::text::decimal(f.listen_port as nat) + seq![':'] + (f.dest_host + seq![':']
        + crate::text::decimal(f.dest_port as nat))
}

/// Forwards in writing, with commas between them.
pub open spec fn forwards_text(fs: Seq<ForwardView>) -> Seq<char>
    decreases fs.len(),
{
    if fs.len() <= 1 {
        forward_text(fs[0])
    } else {
        forwards_text(fs.drop_last()) + seq![','] + forward_text(fs.last())
    }
}

proof fn lemma_port_text(p: u16)
    ensures
        port_of_text(crate::text::decimal(p as nat)) == Some(p),
        crate::text::is_digits(crate::text::decimal(p as nat)),
{
    crate::text::law_decimal_round_trip(p as nat);
}

proof fn lemma_forward_text(f: ForwardView)
    requires
        !f.dest_host.contains(','),
    ensures
        forward_of_text(forward_text(f)) == Ok::<ForwardView, Seq<char>>(f),
        crate::text::trimmed(forward_text(f)) == forward_text(f),
        forward_text(f).len() > 0,
        !forward_text(f).contains(','),
{
    let listen = crate::text::decimal(f.listen_port as nat);
    let port = crate::text::decimal(f.dest_port as nat);
    let rest = f.dest_host + seq![':'] + port;
    let t = forward_text(f);
    lemma_port_text(f.listen_port);
    lemma_port_text(f.dest_port);
    crate::text::lemma_split_behind(listen, ':', rest);
    crate::text::lemma_rsplit_before(f.dest_host, ':', port);
    assert(crate::text::is_digit(listen[0]));
    assert(crate::text::is_digit(port[port.len() - 1]));
    assert(t[0] == listen[0]);
    assert(t.last() == port.last());
    assert(Seq::<char>::empty() + t + Seq::<char>::empty() =~= t);
    crate::text::law_trimming_drops_white_space_alone(seq![], t, seq![], 'a');
    if t.contains(',') {
        let k = choose|k: int| 0 <= k < t.len() && t[k] == ',';
        if k < listen.len() {
            assert(crate::text::is_digit(listen[k]));
        } else if k > listen.len() {
            let j = k - listen.len() - 1;
            assert(rest[j] == ',');
            if j < f.dest_host.len() {
                assert(f.dest_host[j] == ',');
            } else if j > f.dest_host.len() {
                assert(crate::text::is_digit(port[j - f.dest_host.len() - 1]));
            }
        }
    }
}

/// Forwards are read back from "listen:host:port" with commas between them, whatever
/// their hosts are as long as they hold no comma.
pub proof fn law_forwards_are_read_back(fs: Seq<ForwardView>)
    requires
        fs.len() > 0,
        forall|i: int| 0 <= i < fs.len() ==> !(#[trigger] fs[i]).dest_host.contains(','),
    ensures
        forwards_of_text(forwards_text(fs)) == Ok::<Seq<ForwardView>, Seq<char>>(fs),
    decreases fs.len(),
{
    let last = fs.last();
    lemma_forward_text(last);
    let one = forward_text(last);
    if fs.len() == 1 {
        crate::text::law_pieces_stand_between(one, ',', seq![]);
        let items = seq![one];
        assert(items.drop_last() =~= Seq::<Seq<char>>::empty());
        reveal_with_fuel(forwards_of_items, 2);
        assert(Seq::<ForwardView>::empty().push(last) =~= fs);
    } else {
        let most = fs.drop_last();
        assert forall|i: int| 0 <= i < most.len() implies !(#[trigger] most[i]).dest_host.contains(
            ',',
        ) by {
            assert(!fs[i].dest_host.contains(','));
        }
        law_forwards_are_read_back(most);
        crate::text::lemma_pieces_push(forwards_text(most), ',', one);
        let items = crate::text::pieces(forwards_text(fs), ',');
        assert(items.drop_last() =~= crate::text::pieces(forwards_text(most), ','));
        assert(most.push(last) =~= fs);
    }
}

/// A text without two colons is no forward, and a blank list holds none.
pub proof fn law_other_forwards_are_refused(s: Seq<char>)
    requires
        s.len() > 0,
        !s.contains(':'),
        !s.contains(','),
        !crate::text::is_white(s[0]) && !crate::text::is_white(s.last()),
    ensures
        forwards_of_text(s) == Err::<Seq<ForwardView>, Seq<char>>("bad forward: "@ + s),
        forwards_of_text(seq![]) == Ok::<Seq<ForwardView>, Seq<char>>(seq![]),
{
    crate::text::law_pieces_stand_between(s, ',', seq![]);
    crate::text::law_pieces_stand_between(seq![], ',', seq![]);
    let items = seq![s];
    let none: Seq<Seq<char>> = seq![seq![]];
    assert(items.drop_last() =~= Seq::<Seq<char>>::empty());
    assert(none.drop_last() =~= Seq::<Seq<char>>::empty());
    assert(Seq::<char>::empty() + s + Seq::<char>::empty() =~= s);
    crate::text::law_trimming_drops_white_space_alone(seq![], s, seq![], 'a');
    reveal_with_fuel(forwards_of_items, 2);
    s.index_of_first_ensures(':');
}

/// A variable that does not hold what it should is told, whatever the arguments are: the
/// packet size first, then the durations, the access mode, the forwards and the port.
pub proof fn law_bad_variables_are_told(v: EnvView, args: Seq<Seq<char>>, linux: bool)
    ensures
        ({
            let mtu = v.mtu is None || crate::text::unsigned_upto(v.mtu->0, usize::MAX as nat)
                is Some;
            let times = (v.newt_udp_proxy_idle_timeout is None || secs_of_text(
                v.newt_udp_proxy_idle_timeout->0,
            ) is Some) && (v.ping_interval is None || secs_of_text(v.ping_interval->0) is Some);
            let access = v.olm_access_mode is None || access_of_text(v.olm_access_mode->0) is Some;
            let forwards = v.olm_forwards is None || forwards_of_text(v.olm_forwards->0) is Ok;
            let socks = v.olm_socks_port is None || crate::text::unsigned_upto(
                v.olm_socks_port->0,
                65535,
            ) is Some;
            let told = config_of(v, args, linux);
            &&& !mtu ==> told == Err::<ConfigView, Seq<char>>("bad MTU"@)
            &&& mtu && !times ==> told == Err::<ConfigView, Seq<char>>("bad duration"@)
            &&& mtu && times && !access ==> told == Err::<ConfigView, Seq<char>>(
                "bad access mode: "@ + v.olm_access_mode->0 + " (kernel|userspace)"@,
            )
            &&& mtu && times && access && !forwards ==> told == Err::<ConfigView, Seq<char>>(
                forwards_of_text(v.olm_forwards->0)->Err_0,
            )
            &&& mtu && times && access && forwards && !socks ==> told == Err::<
                ConfigView,
                Seq<char>,
            >("bad OLM_SOCKS_PORT"@)
        }),
{
}

/// A flag whose value is not what it should be is told; with all flags read, so is a
/// missing endpoint and, after that, that no role has its credentials.
pub proof fn law_bad_values_are_told(
    v: EnvView,
    arg: Seq<char>,
    t: Seq<char>,
    rest: Seq<Seq<char>>,
    args: Seq<Seq<char>>,
    linux: bool,
)
    requires
        sound(v),
    ensures
        ({
            let told = config_of(v, seq![arg, t] + rest, linux);
            &&& is_named(arg, "mtu"@) && crate::text::unsigned_upto(t, usize::MAX as nat) is None
                ==> told == Err::<ConfigView, Seq<char>>("bad --mtu"@)
            &&& is_named(arg, "olm-access"@) && access_of_text(t) is None ==> told == Err::<
                ConfigView,
                Seq<char>,
            >("bad access mode: "@ + t + " (kernel|userspace)"@)
            &&& is_named(arg, "olm-forwards"@) && forwards_of_text(t) is Err ==> told == Err::<
                ConfigView,
                Seq<char>,
            >(forwards_of_text(t)->Err_0)
            &&& is_named(arg, "olm-socks-port"@) && crate::text::unsigned_upto(t, 65535) is None
                ==> told == Err::<ConfigView, Seq<char>>("bad --olm-socks-port"@)
        }),
        ({
            let endpoint = or_empty(last_given(args, "endpoint"@, v.pangolin_endpoint));
            let told = config_of(v, args, linux);
            &&& readable(args) && endpoint.len() == 0 ==> told == Err::<ConfigView, Seq<char>>(
                "PANGOLIN_ENDPOINT (or --endpoint) is required"@,
            )
            &&& readable(args) && endpoint.len() > 0 && told is Err ==> told == Err::<
                ConfigView,
                Seq<char>,
            >("no role configured: set NEWT_ID/NEWT_SECRET (site) and/or OLM_ID/OLM_SECRET (client)"@)
        }),
        access_of_text(t) is Some ==> {
            let l = crate::text::lower(t);
            l == "kernel"@ || l == "tun"@ || l == "userspace"@ || l == "user"@ || l == "socks"@
        },
{
    let all = seq![arg, t] + rest;
    assert(all[0] == arg && all[1] == t);
    lemma_flag_name(arg, Flag::Mtu);
    lemma_flag_name(arg, Flag::OlmAccess);
    lemma_flag_name(arg, Flag::OlmForwards);
    lemma_flag_name(arg, Flag::OlmSocksPort);
    let r = env_settings(v, linux);
    lemma_readable(r, args);
    if with_args(r, args) is Ok {
        lemma_given(r, args);
    }
    lemma_last_before(args, "endpoint"@, Some(r.endpoint));
    lemma_last_before(args, "endpoint"@, v.pangolin_endpoint);
}

} // verus!
