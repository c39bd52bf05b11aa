//! The tagged error values that the library's entry points return.
//! Formatting them for a user is the caller's concern.

use vstd::prelude::*;

verus! {

/// Everything that can go wrong while encoding, decoding, splitting
/// or recovering. `UnknownWord` carries the offending word's bytes.
#[derive(Debug, Clone, PartialEq, Eq)]
pub enum ShardError {
    /// The entropy length is not one of 16, 20, 24, 28 or 32 bytes.
    InvalidEntropyLength,
    /// The word count is not one of 12, 15, 18, 21 or 24.
    InvalidWordCount,
    /// A word does not occur in the word list.
    UnknownWord(Vec<u8>),
    /// The embedded checksum bits differ from the recomputed ones.
    ChecksumMismatch,
    /// The threshold is below 2 or above the share count.
    InvalidThreshold,
    /// A shard's leading token is not a decimal integer in 1..=255.
    InvalidIndex,
    /// A share's value length is not a valid entropy length.
    InvalidShareLength,
    /// The shares differ in length, repeat an index, or are absent.
    InconsistentShares,
    /// The secure random source failed.
    RandomSourceFailure,
}

} // verus!
