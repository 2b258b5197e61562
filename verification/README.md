# linkup

The logic of Linkup, a tool that routes requests between local and remote
services by session, as a library verified with Verus.

- `src/` is the verified library:
  - `state`: the state of an installation (worker, tunnel, sessions by name),
    with the laws of storing and deleting sessions;
  - `request_session`: the candidate session names of a request, from its URL
    and headers;
  - `fingerprint`, `machine`: the machine fingerprint and the machine ID;
  - `cli`: what the commands decide (routing services, creating, deleting and
    restoring sessions, environment files, waiting for the local server);
  - `worker`, `local_api`, `proxy`: what the worker, the local server and its
    proxy decide for a request;
  - `text`: verified string functions used throughout.
- `app/` is ordinary Rust around it: command-line arguments, files under
  `~/.linkup`, the `hostname` and `ifconfig` commands, and waiting for the
  local server.
- `tests/` runs the library with the real outside crates.
