use vstd::prelude::*;

verus! {

/// Why a pair of graph files was refused.
#[derive(Clone, Copy, Debug, PartialEq, Eq, Structural)]
pub enum FormatError {
    /// A file does not hold a whole number of records.
    Ragged,
    /// The offsets or counts of one file disagree with the records of the other.
    Counts,
}

/// Why a delta-compressed stream could not be decoded.
#[derive(Clone, Copy, Debug, PartialEq, Eq, Structural)]
pub enum DecodeError {
    /// The stream ends inside a variable-byte group.
    Truncated,
    /// A group holds a value that does not fit in 64 bits.
    Overflow,
    /// A delta is zero, or carries the running index past 64 bits.
    NotIncreasing,
}

/// Why a text of edges was refused.
#[derive(Clone, Copy, Debug, PartialEq, Eq, Structural)]
pub enum ParseError {
    /// A word is not a decimal number that fits in 32 bits.
    BadNumber,
    /// The last source has no target.
    OddCount,
    /// The text holds the edge from vertex 0 to vertex 0, whose Hilbert
    /// index is zero: no positive delta leads to it.
    Origin,
}

} // verus!
