//! Shared memory segments with an in-segment reader-writer lock and a
//! single-producer / single-consumer message ring.
//!
//! The library holds the logic over the bytes of a segment: the lock word's
//! transitions, the value encoding, the bounds and cursor rules of a mapped
//! view, and the framing of the ring. The operating-system calls and the
//! atomic accesses to the shared words are made by the embedding program.
pub mod error;
pub mod rwlock;
pub mod mixed;
pub mod mapped_view;
pub mod ring_arith;
pub mod spsc;
pub mod shared_memory;
pub mod platform;
