# libcraft

A manager for Java game servers: a daemon (`libcraftd`) that loads server
descriptions from YAML files and starts and stops them over HTTP, and a
control shell (`mirsh`).

- `src/` is the verified library (Verus):
  - `net` — the packet protocol: `name:value` lines ended by an empty line;
    `get_packet`, `parse_packet`, `send_packet`, the byte-at-a-time
    `PacketReader`, and the proofs that sending and reading back round-trips
    and that the reader stops where `get_packet` frames a packet.
  - `server` — checking a server description, the `java` command line, and
    the decisions of starting and stopping a server process.
  - `control` — the daemon's answers to start and stop requests.
  - `cli` — the control shell's command dispatch.
  - `threadutil` — the step of copying a stream into a buffer.
  - `error` — the error type.
- `app/` holds the programs: I/O, processes, the HTTP server, YAML and JSON.
- `tests/` runs the library on concrete inputs.
