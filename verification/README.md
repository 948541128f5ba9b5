# AirFerry

AirFerry sends a file from a screen to a camera as a stream of QR codes. The
file is compressed, cut into RaptorQ symbols, and each symbol travels in a frame
of its own, guarded by two checksums. A receiver may start at any time, miss
frames, and see them in any order: it recovers the file as soon as it has enough
symbols of every block.

The library is written in Verus, which proves the code under `src/` against its
contracts. What is believed of the crates it calls stands in a few items marked
`external_body` or `assume_specification`, each with a comment that says what it
claims.

- `src/raptorq_core` cuts objects into blocks and recovers them from symbols.
- `src/qr_protocol` holds frames, session ids, compression and QR rendering.
- `src/transfer_engine` holds descriptors, segments, the two sessions and what
  their hosts need. `channel` proves that a file crosses a channel that loses,
  repeats and reorders frames.
- `tests/` runs the library, with the crates it calls.
- `app/` is the ordinary Rust around it: the browser and Android bindings, files,
  JSON and figures in floating point. The browser bindings are compiled for
  `wasm32` only.
