//! A Pangolin connector and client: the site role shares local resources through a
//! userspace WireGuard tunnel, the client role reaches the resources of remote sites.
//!
//! This library is everything that the two roles decide and compute, without sockets,
//! files or timers: configuration, the control protocol and its state machine, the
//! WebSocket and netlink formats, the WireGuard pump and the multi-peer router, the
//! bridging of TCP connections. The contracts say exactly what each function returns
//! and are proved; what comes from other crates stands in [`crypto`], [`json`], [`wg`]
//! and [`tunnel`], and what comes from `std` without a contract in [`text`] and
//! [`bytes`], each call with the contract that it is trusted for.
#![allow(unused_imports)]
pub mod bridge;
pub mod bytes;
pub mod config;
pub mod crypto;
pub mod holepunch;
pub mod json;
pub mod log;
pub mod net;
pub mod netstack;
pub mod olm;
pub mod proto;
pub mod sm;
pub mod target;
pub mod text;
pub mod transport;
pub mod tunnel;
pub mod wg;
