//! Client (olm) role: register as a Pangolin client, bring up a multi-peer
//! WireGuard data plane to the sites it may reach, and expose those remote
//! resources to the host (transparent kernel routing or userspace forwards).
pub mod backend;
pub mod control;
pub mod holepunch;
pub mod kernel;
pub mod netlink;
pub mod proto;
pub mod router;
pub mod session;
pub mod tun;
pub mod userspace;
