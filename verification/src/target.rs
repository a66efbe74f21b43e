//! Proxy targets.
use crate::text::{
    decimal, is_digits, law_decimal_round_trip, lemma_rsplit_before, lemma_split_behind, parse_u16,
    rsplit_once, rsplit_once_at, split_once, split_once_at, strip_prefix, unsigned_upto,
};
use vstd::prelude::*;
use vstd::string::*;

verus! {

/// A proxy target parsed from "listenPort:host:targetPort".
#[derive(Debug, Clone, PartialEq, Eq)]
pub struct Target {
    pub listen_port: u16,
    pub host: String,
    pub target_port: u16,
}

/// The content of a [`Target`].
pub struct TargetView {
    pub listen_port: u16,
    pub host: Seq<char>,
    pub target_port: u16,
}

impl View for Target {
    type V = TargetView;

    open spec fn view(&self) -> TargetView {
        TargetView {
            listen_port: self.listen_port,
            host: self.host@,
            target_port: self.target_port,
        }
    }
}

// ---------------------------------------------------------------------------
// Specifications
// ---------------------------------------------------------------------------
/// A port number.
pub open spec fn port_of(s: Seq<char>) -> Option<u16> {
    match unsigned_upto(s, u16::MAX as nat) {
        Some(n) => Some(n as u16),
        None => None,
    }
}

/// The host and the port in "[host]:port" (the host may hold colons) or in
/// "host:port", where the last colon separates them.
pub open spec fn host_and_port(s: Seq<char>) -> Option<(Seq<char>, Seq<char>)> {
    if s.len() > 0 && s[0] == '[' {
        match split_once_at(s.drop_first(), ']') {
            Some((host, rest)) => if rest.len() > 0 && rest[0] == ':' {
                Some((host, rest.drop_first()))
            } else {
                None
            },
            None => None,
        }
    } else {
        rsplit_once_at(s, ':')
    }
}

/// The target that a text denotes.
pub open spec fn target_of(s: Seq<char>) -> Option<TargetView> {
    match split_once_at(s, ':') {
        Some((listen, rest)) => match (port_of(listen), host_and_port(rest)) {
            (Some(listen_port), Some((host, port))) => match port_of(port) {
                Some(target_port) => Some(TargetView { listen_port, host, target_port }),
                None => None,
            },
            _ => None,
        },
        None => None,
    }
}

/// The content of an optional target.
pub open spec fn opt_view(t: Option<Target>) -> Option<TargetView> {
    match t {
        Some(t) => Some(t@),
        None => None,
    }
}

// ---------------------------------------------------------------------------
// Executable functions
// ---------------------------------------------------------------------------
fn split_host_port(s: &str) -> (r: Option<(String, String)>)
    ensures
        match r {
            Some((h, p)) => host_and_port(s@) == Some((h@, p@)),
            None => host_and_port(s@) is None,
        },
{
    match strip_prefix(s, '[') {
        Some(after) => match split_once(after.as_str(), ']') {
            Some((host, rest)) => match strip_prefix(rest.as_str(), ':') {
                Some(port) => Some((host, port)),
                None => None,
            },
            None => None,
        },
        None => rsplit_once(s, ':'),
    }
}

impl Target {
    /// Parse "listenPort:host:targetPort". `host` may be a bracketed IPv6
    /// literal, e.g. "3001:[fd00::1]:443".
    pub fn parse(s: &str) -> (r: Option<Target>)
        ensures
            opt_view(r) == target_of(s@),
    {
        match split_once(s, ':') {
            Some((listen, rest)) => match parse_u16(listen.as_str()) {
                Some(listen_port) => match split_host_port(rest.as_str()) {
                    Some((host, port)) => match parse_u16(port.as_str()) {
                        Some(target_port) => Some(Target { listen_port, host, target_port }),
                        None => None,
                    },
                    None => None,
                },
                None => None,
            },
            None => None,
        }
    }
}

// ---------------------------------------------------------------------------
// Laws
// ---------------------------------------------------------------------------
pub proof fn lemma_decimal_port(p: u16)
    ensures
        port_of(decimal(p as nat)) == Some(p),
        !decimal(p as nat).contains(':'),
{
    law_decimal_round_trip(p as nat);
    assert(is_digits(decimal(p as nat)));
}

/// A target is read back from "listenPort:host:targetPort" whatever its host is, as
/// long as the host does not start with a bracket.
pub proof fn law_plain_target_is_read_back(t: TargetView)
    requires
        t.host.len() > 0 ==> t.host[0] != '[',
    ensures
        target_of(
            decimal(t.listen_port as nat) + seq![':'] + (t.host + seq![':'] + decimal(
                t.target_port as nat,
            )),
        ) == Some(t),
{
    let rest = t.host + seq![':'] + decimal(t.target_port as nat);
    lemma_decimal_port(t.listen_port);
    lemma_decimal_port(t.target_port);
    lemma_split_behind(decimal(t.listen_port as nat), ':', rest);
    lemma_rsplit_before(t.host, ':', decimal(t.target_port as nat));
}

/// A target is read back from "listenPort:[host]:targetPort" whatever its host is, as
/// long as the host holds no closing bracket.
pub proof fn law_bracketed_target_is_read_back(t: TargetView)
    requires
        !t.host.contains(']'),
    ensures
        target_of(
            decimal(t.listen_port as nat) + seq![':'] + (seq!['['] + (t.host + seq![']'] + (seq![':']
                + decimal(t.target_port as nat)))),
        ) == Some(t),
{
    let port = decimal(t.target_port as nat);
    let behind = seq![':'] + port;
    let inner = t.host + seq![']'] + behind;
    let rest = seq!['['] + inner;
    lemma_decimal_port(t.listen_port);
    lemma_decimal_port(t.target_port);
    lemma_split_behind(decimal(t.listen_port as nat), ':', rest);
    assert(rest.drop_first() =~= inner);
    lemma_split_behind(t.host, ']', behind);
    assert(behind.drop_first() =~= port);
}

/// A number is a port when it is at most 65535, and what is no number is none.
pub proof fn law_ports_are_bounded(n: nat, s: Seq<char>)
    ensures
        port_of(decimal(n)) == if n <= 65535 {
            Some(n as u16)
        } else {
            None
        },
        crate::text::unsigned(s) is None ==> port_of(s) is None,
{
    law_decimal_round_trip(n);
}

/// A text is no target without a port before the first colon, without a host and a port
/// behind it, or with a bracket that nothing but a colon and a port should follow.
pub proof fn law_other_targets_are_refused(listen: Seq<char>, host: Seq<char>, port: Seq<char>)
    requires
        !listen.contains(':'),
    ensures
        target_of(listen) is None,
        port_of(listen) is None ==> target_of(listen + seq![':'] + host) is None,
        !host.contains(':') ==> target_of(listen + seq![':'] + host) is None,
        !port.contains(':') && port_of(port) is None && (host.len() > 0 ==> host[0] != '[')
            ==> target_of(listen + seq![':'] + (host + seq![':'] + port)) is None,
        !host.contains(']') ==> target_of(listen + seq![':'] + (seq!['['] + host)) is None,
        !host.contains(']') && (port.len() > 0 ==> port[0] != ':') ==> target_of(
            listen + seq![':'] + (seq!['['] + (host + seq![']'] + port)),
        ) is None,
{
    let a = host + seq![':'] + port;
    let b = seq!['['] + host;
    let c = seq!['['] + (host + seq![']'] + port);
    crate::text::law_split_at_a_separator(listen, ':', host);
    crate::text::law_split_at_a_separator(host, ':', port);
    crate::text::law_split_at_a_separator(listen, ':', a);
    crate::text::law_split_at_a_separator(listen, ':', b);
    crate::text::law_split_at_a_separator(listen, ':', c);
    crate::text::law_split_at_a_separator(host, ']', port);
    assert(b.drop_first() =~= host);
    assert(c.drop_first() =~= host + seq![']'] + port);
    if !host.contains(':') && host.len() > 0 && host[0] == '[' {
        let inner = host.drop_first();
        if split_once_at(inner, ']') is Some {
            let i = inner.index_of_first(']')->0;
            inner.index_of_first_ensures(']');
            let rest = inner.skip(i + 1);
            if rest.len() > 0 && rest[0] == ':' {
                assert(inner[i + 1] == ':');
                assert(host[i + 2] == ':');
            }
        }
    }
    if host.len() == 0 {
        assert(a[0] == ':');
    } else {
        assert(a[0] == host[0]);
    }
}

} // verus!
