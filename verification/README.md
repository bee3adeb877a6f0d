# monadns

A transparent DNS-based traffic steering resolver for Linux routers. It answers
queries for configured domains with fake addresses from a pool, and steers the
traffic to those addresses (and to configured subnets) through chosen
interfaces with packet-filter marks and routing tables.

## Layout

- `src/` is the library, written in Verus: every function carries a
  `requires`/`ensures` contract that Verus proves. It holds the decisions of
  the resolver:
  - `policy`: policy identifiers and their packet-filter and 64-bit keys;
  - `config`: interfaces, patching and migration of the configuration;
  - `health`, `failover`, `ping`: health-check results and which interface
    carries a policy when links fail;
  - `fake_ip`: the fake address pool, as a state machine;
  - `sweep`, `net`: resolution of overlapping prioritised subnets into
    disjoint CIDR entries;
  - `domains`, `lists`, `geo`, `sync`: rule matching, list downloads, geosite
    and geoip databases, and what a sync round installs;
  - `nft`, `dns`, `api`: the rules of the steering table, the answers of the
    DNS handler and the checks of the HTTP interface.
- `app/` is the program around it: configuration files, the SQLite store,
  netlink and nftables calls, the DNS server, the HTTP API and the health
  check loop. It drives the library and performs the I/O.
- `tests/` runs the library on concrete values.
