//! Topic constants used on the control channel.
use vstd::prelude::*;

verus! {

pub const PING_REQUEST: &'static str = "newt/ping/request";

pub const PING_EXIT_NODES: &'static str = "newt/ping/exitNodes";

pub const WG_REGISTER: &'static str = "newt/wg/register";

pub const WG_CONNECT: &'static str = "newt/wg/connect";

pub const WG_RECONNECT: &'static str = "newt/wg/reconnect";

pub const WG_TERMINATE: &'static str = "newt/wg/terminate";

pub const TCP_ADD: &'static str = "newt/tcp/add";

pub const TCP_REMOVE: &'static str = "newt/tcp/remove";

} // verus!
