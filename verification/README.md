# hope

The HOPE-OS spine and its guards, as a verified library, and the program
around it.

`src/` is the verified library:

- `corn_kernel` — the Z8 kernel (eight 32-byte layers, activity mask, zoom
  depth), its 264-byte encoding and decoding, message packing, and the
  saturator that fills the layers in turn.
- `spine` — the 64-slot ring over a memory map: header counters, slot
  writes and reads.
- `eku` — Event Kernel Units: the 96-byte header encoding, unit encoding and
  the SHA-256 chain hash.
- `crypto` — Ed25519 key pairs and EKU signatures.
- `merkle` — Merkle trees, membership proofs, and the batch signer that
  seals EKUs into signed batches chained root to root.
- `cortex` — the command guard that reads model replies as commands.
- `console` — what the chat front ends compute: the text a kernel carries,
  the agent's step from a model reply to what it writes (only a write that
  the command guard accepts reaches the spine), the status screen, and the
  chat's key handling.
- `security` — entropy sample screening, spine access status, the bounded
  security log, the sliding-window rate limiter, and the prompt-injection
  screen.
- `vm` — the WebAssembly sandbox: import screening, memory page limit,
  heartbeat.
- `codec`, `text`, `digest`, `clock`, `protocol`, `collective` — little-endian
  encoding, character classes and searches, SHA-256, clock readings, message
  codes and clone records.

Calls into `sha2`, `ed25519-dalek`, `rand`, `memmap2`, `wasmer` and
`zerocopy` stand behind small trusted wrappers whose contracts say what the
crates document; those that only read a clock state nothing of the reading.

`zerocopy` lets the spine view its header counter as an `AtomicU64` without
`unsafe` code, so that processes sharing the spine file never take the same
sequence number. Other processes may change the mapped bytes at any time, so
what a read of the spine finds is treated as an outside result: the verified
functions (`decode_header`, `kernel_at`, `slot_start`) take the bytes read as
arguments, and the layout laws speak of byte sequences.

Security events are kept in the bounded log; they are not echoed to
standard error.

`app/` is the program: argument handling, the spine file, the model client
(`reqwest`, `tokio`, `serde`), the terminal UI (`ratatui`, `crossterm`) and
the floating-point entropy estimate.

`tests/` runs the library with the real crates linked.
