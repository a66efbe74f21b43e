# newt

A Pangolin connector and client. The site role opens a userspace WireGuard tunnel to a
Pangolin server and proxies TCP connections to local targets; the client role brings up
a multi-peer WireGuard data plane and exposes the resources of remote sites to the host,
through a kernel TUN with routes or through local TCP forwards.

- `src/` is the library, verified with Verus: configuration, control protocol, state
  machines, wire formats, the WireGuard pump, the router, and the bridging of
  connections. It does no I/O: it takes what was read and returns what is to be sent.
- `app/` is the program around it: sockets, TLS, the IP stack, the TUN device and the
  event loops.
- `tests/` runs the library with the real outside crates.

Laws that relate several functions are public proof functions named `law_*`, at the end
of the module that they are about.

## Configuration

Settings come from environment variables, overridden by flags. `PANGOLIN_ENDPOINT`
(`--endpoint`) is always required, with the credentials of at least one role: a site
(`NEWT_ID`, `NEWT_SECRET`), a client (`OLM_ID`, `OLM_SECRET`), or both.
