# p2p_file_deployer

Core of a LAN file deployer that spreads large files to many machines at once
through a BitTorrent-like swarm. `src/` is the verified library (Verus):

- `protocol::codec` — TCP frame layout `[header_len u32 BE][data_len u32 BE][header JSON][raw data]`,
  its size limits, and the proof that a written frame reads back.
- `protocol::messages` — the wire messages.
- `transfer::chunker` — fixed-size chunks, SHA-1 chunk maps and chunk verification,
  with proofs that chunks tile the file and each verifies against its map entry.
- `transfer::tracker`, `transfer::swarm` — which peer holds which chunk, and the
  swarm decisions of sender and receivers.
- `state` — transfer and peer records, download progress.
- `network::addr`, `network::scanner` — address selection, ARP table parsing,
  scan targets and discovered-device records.
- `commands` — values for the user interface (log tail, file info).

`app/` holds the I/O around it: async TCP/UDP, files, processes, JSON (serde)
and the background tasks. `tests/` exercise the library on concrete values.
