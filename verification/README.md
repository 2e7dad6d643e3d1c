# ec_core

The core of an EasyConnect VPN client, written in Verus: a local SOCKS5 server whose clients
reach their targets through the tunnel of a gateway, or round it.

- `src/` is the library. It holds what the client decides and computes: the settings, the
  gateway's wire formats, the table of routes and how targets are matched against it, name
  lookups and their cache, the SOCKS5 protocol on both of its sides, the connections of the
  network stack, and the retries and heartbeats that keep the tunnel up. Every function has a
  contract that Verus proves.
- Calls into other crates stand in `src/` as well, each in a small function whose contract
  says what is believed of the call: `quick_xml` for the table, `hickory_proto` for DNS
  messages, `smoltcp` for sockets, `hex` for tokens and `anstyle` for colors.
- `tests/` runs the library on concrete values, with those crates linked.
- `app/` is the program: arguments, files, sockets, TLS and threads. It carries out what the
  library decides and reports back what came of it.

Functions whose names begin with `law_` state what holds of the library as a whole, such as
that a written request is read back, or that a target that matches an extra entry goes through
the tunnel.
