//! Client data-plane backend selection. The kernel backend (transparent routing
//! via TUN + netlink) is Linux-only; the userspace backend (forwards via the
//! userspace stack) runs everywhere.
use crate::config::AccessMode;
use vstd::prelude::*;
use vstd::string::*;

verus! {

/// Which backend serves an access mode, or why none does.
pub open spec fn backend_of(access: AccessMode, socks_port: Option<u16>, linux: bool) -> Result<
    AccessMode,
    Seq<char>,
> {
    match access {
        AccessMode::Userspace => if socks_port is Some {
            Err("OLM_SOCKS_PORT is reserved and not yet implemented; use OLM_FORWARDS"@)
        } else {
            Ok(AccessMode::Userspace)
        },
        AccessMode::Kernel => if linux {
            Ok(AccessMode::Kernel)
        } else {
            Err(
                "kernel TUN access mode is only supported on Linux; set OLM_ACCESS_MODE=userspace"@,
            )
        },
    }
}

/// Selects the backend. `linux` says whether the kernel backend can run here.
pub fn select(access: AccessMode, socks_port: Option<u16>, linux: bool) -> (r: Result<
    AccessMode,
    String,
>)
    ensures
        match r {
            Ok(a) => backend_of(access, socks_port, linux) == Ok::<AccessMode, Seq<char>>(a),
            Err(e) => backend_of(access, socks_port, linux) == Err::<AccessMode, Seq<char>>(e@),
        },
{
    match access {
        AccessMode::Userspace => if socks_port.is_some() {
            Err(
                "OLM_SOCKS_PORT is reserved and not yet implemented; use OLM_FORWARDS".to_owned(),
            )
        } else {
            Ok(AccessMode::Userspace)
        },
        AccessMode::Kernel => if linux {
            Ok(AccessMode::Kernel)
        } else {
            Err(
                "kernel TUN access mode is only supported on Linux; set OLM_ACCESS_MODE=userspace".to_owned(),
            )
        },
    }
}

// ---------------------------------------------------------------------------
// Laws
// ---------------------------------------------------------------------------
/// The backend is the one that was asked for or none: the kernel's needs Linux and nothing
/// else, the userspace one needs that no SOCKS port is set, on any system. Both refusals
/// tell the setting.
pub proof fn law_backend_is_the_one_asked_for(
    access: AccessMode,
    socks_port: Option<u16>,
    linux: bool,
)
    ensures
        backend_of(access, socks_port, linux) matches Ok(a) ==> a == access,
        access == AccessMode::Kernel ==> (backend_of(access, socks_port, linux) is Ok <==> linux),
        access == AccessMode::Userspace ==> (backend_of(access, socks_port, linux) is Ok
            <==> socks_port is None),
        access == AccessMode::Kernel && !linux ==> backend_of(access, socks_port, linux) == Err::<
            AccessMode,
            Seq<char>,
        >("kernel TUN access mode is only supported on Linux; set OLM_ACCESS_MODE=userspace"@),
        access == AccessMode::Userspace && socks_port is Some ==> backend_of(
            access,
            socks_port,
            linux,
        ) == Err::<AccessMode, Seq<char>>(
            "OLM_SOCKS_PORT is reserved and not yet implemented; use OLM_FORWARDS"@,
        ),
{
}

} // verus!
