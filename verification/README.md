# chitta_field

The core of an associative memory store, written in Rust and verified with Verus.

A store holds memories with their states, associations, triplets and co-activation statistics. It
is opened from a snapshot and a write-ahead log, can share a directory with peers, and can be
exported as an image that is mapped into memory.

- `src/` is the library. Every function states in its contract what it returns or changes, and
  Verus proves it. What rests on other crates is behind a few wrappers, each of which says what is
  taken on trust.
- `tests/` runs the library on concrete values.
- `app/` is the rest: files, locks, threads, floating point and the C interface.

Where to look first:

- `apply.rs`, `settle.rs`: what a logged operation does to the store.
- `replay.rs`, `foreign.rs`, `select.rs`, `opening.rs`: opening a store and following its peers.
- `image.rs`, `mapped.rs`, `lookup.rs`: the mapped image, its validation and look-ups in it.
- `listing.rs`, `queries.rs`, `analogy.rs`, `anchors.rs`: questions to a store.
- `params.rs`, `arguments.rs`, `organs.rs`, `ledger.rs`, `events.rs`, `protocol.rs`: requests and
  replies.

Public proof functions state laws that span several functions; their names say what holds.
