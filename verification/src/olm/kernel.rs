//! The Linux kernel-TUN client backend, without its descriptors.
use crate::net::IpAddr;
use crate::olm::router::bits_in;
use vstd::prelude::*;

verus! {

/// Host route prefix for an interface address (/32 v4, /128 v6).
pub fn host_prefix(ip: IpAddr) -> (r: u8)
    ensures
        r == bits_in(ip@),
{
    if ip.is_ipv4() {
        32
    } else {
        128
    }
}

} // verus!
