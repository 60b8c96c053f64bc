//! WSTF: a compact binary format for streams of order-book and trade
//! updates, together with the in-memory structures that consume them.
//!
//! The codec packs updates into delta-compressed batches behind a fixed
//! header, supports bounded-time metadata reads and range scans, and is
//! specified down to the byte: encoding and decoding are proved to be
//! inverses.

pub mod codec;
pub mod events;
pub mod merge;
pub mod queue;
pub mod storage;
pub mod symbol;
pub mod update;
pub mod utils;
pub mod wire;
