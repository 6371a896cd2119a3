# wol

A Wake-on-LAN tool with an HTTPS control plane, written as a verified Verus
library (`src/`) and a thin program around it (`app/`).

- `src/mac.rs`: MAC address parsing and magic packets, with their contracts
  and the laws that a written address parses back and that a packet is six
  `0xFF` bytes followed by sixteen copies of the address.
- `src/config.rs`: server settings and the device table, a map from names to
  devices kept in the byte order of the names.
- `src/commands.rs`: what each command does to the configuration and what is
  left to do (save, print, send, serve).
- `src/server.rs`: settings merging, bearer authorization and the answers of
  the `/healthz`, `/devices` and `/wake/{name}` endpoints.
- `src/cli.rs`: the commands as plain values.
- `app/`: argument parsing, the TOML file, UDP sending and the HTTPS server.
