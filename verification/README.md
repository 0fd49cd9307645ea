# accesskit_remote

Streaming AccessKit trees between machines, verified with Verus.

A provider mirrors the windows of a desktop and streams their accessibility trees;
a consumer presents them and sends action requests back.

- `src/` is the library, all of it verified: framing, handshake and session; the
  AT-SPI mirror of a Linux desktop (`src/atspi`); the mirror of a Mac's
  accessibility interface (`src/ax`). It does no input or output. Contracts are
  stated over sequences, sets, maps and exact integers; functions named `law_...`
  state what holds across calls.
- `tests/` runs the library on concrete values, with the AccessKit consumer where
  a tree is handed to one.
- `app/` is the ordinary Rust around it: JSON messages, the accessibility bus, the
  Core Foundation calls, threads and clocks, and what is computed in floating
  point.

Numbers with a fraction are carried as the bits that encode them (`src/number.rs`):
the library compares them exactly and leaves their arithmetic to the caller.
