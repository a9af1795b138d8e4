# iplists

A service that serves IP lists: the networks of each country, continent and
autonomous system (from the MaxMind GeoLite2 databases), and a blocklist
assembled from downloaded lists and local custom lists, less an allowlist.
Lists are served as text, JSON or nftables sets.

## Layout

- `src/` — the library, verified with Verus:
  - `iptools/` — IPv4/IPv6 addresses and networks (`network.rs`) and the
    prefix trie with insertion, lookup, subtraction and deduplication
    (`iptrie.rs`).
  - `blocklist/` — reading list entries, and putting the blocklist together
    from what fetching gave (downloads, backups, custom lists, allowlist).
  - `iplist/` — the geo networks grouped by country, continent and system,
    the files written for them, the output formats, download addresses and
    archive members.
  - `list.rs`, `handlers/` — the lookups that the HTTP API answers, the users
    file and the authorization decision.
  - `status.rs` — the state of each component and the refresh schedules.
  - `text.rs`, `utils/` — text helpers and the client address of proxied
    requests.
- `app/` — the program: configuration files, HTTP server, downloads, file
  I/O, CSV reading and the scheduler, around the library.
- `tests/` — tests of the library.
