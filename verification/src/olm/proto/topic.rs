//! Topics on the olm control channel.
use vstd::prelude::*;

verus! {

// outbound (client -> server)
pub const REGISTER: &'static str = "olm/wg/register";

pub const DISCONNECTING: &'static str = "olm/disconnecting";

// inbound (server -> client)
pub const CONNECT: &'static str = "olm/wg/connect";

pub const ERROR: &'static str = "olm/error";

pub const TERMINATE: &'static str = "olm/terminate";

pub const PEER_ADD: &'static str = "olm/wg/peer/add";

pub const PEER_REMOVE: &'static str = "olm/wg/peer/remove";

pub const PEER_UPDATE: &'static str = "olm/wg/peer/update";

pub const PEER_RELAY: &'static str = "olm/wg/peer/relay";

pub const PEER_UNRELAY: &'static str = "olm/wg/peer/unrelay";

pub const PEER_DATA_ADD: &'static str = "olm/wg/peer/data/add";

pub const PEER_DATA_REMOVE: &'static str = "olm/wg/peer/data/remove";

pub const PEER_DATA_UPDATE: &'static str = "olm/wg/peer/data/update";

pub const SYNC: &'static str = "olm/sync";

} // verus!
