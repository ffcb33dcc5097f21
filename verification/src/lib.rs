//! Compression of time-ordered node-to-partition assignment snapshots.
//!
//! Consecutive snapshots usually differ in only a few entries, so after the
//! first snapshot only the changed (node, partition) pairs travel over the
//! wire.  The crate has three parts: the diff engine, which computes which
//! nodes moved between two snapshots; the encoder, which serializes one delta
//! per record into a byte stream with run-length-compressed gaps between
//! non-empty partitions; and the decoder, a byte-at-a-time state machine that
//! rebuilds either full snapshots or per-record deltas from that stream.

pub mod diff;
pub mod decode;
pub mod encode;
pub mod roundtrip;
