//! Userspace client backend: where local forwards lead, and the local ports of the
//! connections that the stack originates.
use crate::config::Forward;
use crate::net::{ip_of, IpAddr};
use crate::text::join2;
use vstd::prelude::*;

verus! {

/// The first and the last local port that is handed out.
pub const FIRST_PORT: u16 = 20000;

pub const LAST_PORT: u16 = 60000;

/// The address that a forward leads to.
pub fn forward_dest(f: &Forward) -> (r: Result<IpAddr, String>)
    ensures
        match r {
            Ok(ip) => ip_of(f.dest_host@) == Some(ip@),
            Err(e) => ip_of(f.dest_host@) is None && e@
                == "forward dest must be an IP address: "@ + f.dest_host@,
        },
{
    match IpAddr::parse(f.dest_host.as_str()) {
        Some(ip) => Ok(ip),
        None => Err(join2("forward dest must be an IP address: ", f.dest_host.as_str())),
    }
}

/// Hands out local ports in turn.
#[derive(Debug)]
pub struct PortAllocator {
    next: u16,
}

/// The port after `p`.
pub open spec fn port_after(p: u16) -> u16 {
    if p >= LAST_PORT {
        FIRST_PORT
    } else {
        (p + 1) as u16
    }
}

impl View for PortAllocator {
    type V = u16;

    closed spec fn view(&self) -> u16 {
        self.next
    }
}

impl PortAllocator {
    pub fn new() -> (r: Self)
        ensures
            r@ == FIRST_PORT,
    {
        PortAllocator { next: FIRST_PORT }
    }

    /// The next port.
    pub fn alloc_port(&mut self) -> (r: u16)
        ensures
            r == old(self)@,
            final(self)@ == port_after(old(self)@),
    {
        let p = self.next;
        self.next = if p >= LAST_PORT {
            FIRST_PORT
        } else {
            p + 1
        };
        p
    }
}

/// The port that is handed out after `k` others, from `p` on.
pub open spec fn nth_port(p: u16, k: nat) -> u16
    decreases k,
{
    if k == 0 {
        p
    } else {
        port_after(nth_port(p, (k - 1) as nat))
    }
}

proof fn lemma_nth_port(p: u16, k: nat)
    requires
        FIRST_PORT <= p <= LAST_PORT,
    ensures
        nth_port(p, k) == FIRST_PORT + (p - FIRST_PORT + k) % 40001,
    decreases k,
{
    if k > 0 {
        lemma_nth_port(p, (k - 1) as nat);
    }
}

/// Every port that is handed out is in the range, and none comes again before all
/// others have been handed out.
pub proof fn law_ports_take_turns(p: u16, i: nat, j: nat)
    requires
        FIRST_PORT <= p <= LAST_PORT,
        i < j < i + 40001,
    ensures
        FIRST_PORT <= nth_port(p, i) <= LAST_PORT,
        nth_port(p, i) != nth_port(p, j),
{
    lemma_nth_port(p, i);
    lemma_nth_port(p, j);
}

/// The ports are those from 20000 to 60000, one after another, and the first again behind
/// the last.
pub proof fn law_ports_go_up_and_start_over(p: u16)
    ensures
        FIRST_PORT == 20000,
        20000 <= p < 60000 ==> port_after(p) == p + 1,
        p >= 60000 ==> port_after(p) == 20000,
{
}

} // verus!
