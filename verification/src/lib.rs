//! An embedded, single-writer, log-structured key-value store.
//!
//! Keys and values are opaque byte sequences.  Every mutation is appended to
//! an append-only log split across bounded-size segments; an in-memory
//! ordered index maps each live key to the position of its most recent
//! record.  The segment bytes are held by an in-memory backend; reading and
//! writing the backing files is left to the embedding program.

use vstd::prelude::*;

pub mod varint;
pub mod crc;
pub mod meta;
pub mod io;
pub mod data_file;
pub mod index;
pub mod db;
pub mod iter;

verus! {

/// The error kinds the store distinguishes.
#[derive(Clone, Copy, Debug, PartialEq, Eq, Structural)]
pub enum Error {
    /// Bad configuration.
    InvalidOptions,
    /// Underlying backend failure.
    IoError,
    /// CRC mismatch, unknown type byte, or a truncated record.
    CorruptRecord,
    /// A `.data` file name whose stem is not a valid segment id.
    CorruptDirectory,
    /// Internal: signals the end of a segment during replay.
    EofInSegment,
    /// The caller gave an empty key to `put`, `get` or `delete`.
    EmptyKey,
    /// The index references a segment that is not resident.
    InconsistentIndex,
}

} // verus!
