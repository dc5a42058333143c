# membridge

Cross-process shared memory for Python: a mapped view guarded by a
reader-writer lock that lives in the segment, and a lock-free
single-producer / single-consumer message ring.

## Layout

- `src/` — the library, verified with Verus:
  - `rwlock.rs` — the lock word and the word each lock operation leaves
    behind; mutual exclusion, release laws, and the word counting the
    holders in every reachable state.
  - `mixed.rs` — the byte encoding of values (bool, int, float, str, bytes),
    reading values back by type tag, schemas of `(tag, count)` entries;
    round-trip laws.
  - `mapped_view.rs` — bounds, cursor and read/write rules of a view over the
    data area that follows the 4-byte lock header.
  - `spsc.rs`, `ring_arith.rs` — the ring of length-prefixed frames over a
    power-of-two data area with free-running, word-wrapping head and tail;
    the first-in, first-out and draining laws, and the bound on bytes in
    use that every operation keeps.
  - `shared_memory.rs`, `platform.rs` — segment names and sizes.
- `app/` — the Python extension (PyO3): maps segments (`nix` on Unix,
  `windows` on Windows), performs the atomic accesses to the shared lock word
  and ring header, and converts between Python objects and library values.
- `tests/` — tests of the library on concrete values.

Multi-byte numbers are stored little-endian, the native order of the
supported targets.
