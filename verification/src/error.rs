//! What can go wrong while building a trie and while reading one.

use vstd::prelude::*;

verus! {

/// Why the builder refused a key or gave up. A builder that has failed once
/// stays failed.
#[derive(Clone, Copy, Debug, PartialEq, Eq, Structural)]
pub enum BuildError {
    /// The key is smaller than the key before it.
    OutOfOrderKey,
    /// The key is empty, equals the key before it, or one of the two is a
    /// prefix of the other.
    PrefixKey,
    /// A term id or the size of the output no longer fits in 32 bits.
    FieldOverflow,
}

/// Why a buffer could not be read as a trie.
///
/// A record stores the width of each pointer less one, so that every width
/// that can be read is a width of one to four bytes: there is no failure for
/// a width of zero.
#[derive(Clone, Copy, Debug, PartialEq, Eq, Structural)]
pub enum ReadError {
    /// A record reaches past the end of the buffer.
    Truncated,
    /// The pointer to an internal child is zero or larger than the offset of
    /// the record that holds it, so it does not point back into the buffer.
    BadOffset,
}

} // verus!
