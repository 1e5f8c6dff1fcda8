//! A static, compressed trie over byte-string keys, built in one pass over
//! the keys in ascending order and read where it lies.
//!
//! Keys are added to a [`TrieBuilder`], which keeps the path from the root to
//! the key added last and writes every other node to a byte buffer as soon as
//! no key can come below it any more. [`TrieBuilder::finish`] returns the
//! buffer and the offset of the root record in it. A [`Trie`] reads the keys,
//! each with its term id, from such a buffer without decoding it into another
//! structure first.
//!
//! No key may be a prefix of another: a caller ends every key with a byte
//! that occurs nowhere else in it. Term ids count the keys from one, in the
//! order in which they were added.
//!
//! ```text
//! let mut builder = TrieBuilder::new();
//! builder.add(b"kok\0".to_vec())?;      // term id 1
//! builder.add(b"kokot\0".to_vec())?;    // term id 2
//! let (buffer, root) = builder.finish()?;
//! let keys = Trie::new(&buffer, root as usize).entries()?;
//! ```
//!
//! # The buffer
//!
//! A record stands for a node that is no key. It holds, most significant bit
//! first: the number of children less one (8 bits); for each child a flag that
//! tells a key from another record (1 bit); for each child the first byte of
//! the label of the edge to it (8 bits); for each child the width of its
//! pointer in bytes, less one (2 bits); for each child the length of its label,
//! less one (4 bits); zero bits up to the next byte boundary; the pointers; and
//! the label bytes behind the first of each label. The pointer of a key is its
//! term id. The pointer of a record is the distance back from the record that
//! holds the pointer: every record lies behind the records of its children.
//! A label is at most 16 bytes long; on a longer edge nodes with one child
//! each are put in between.
//!
//! # Limits
//!
//! Offsets and term ids are 32 bits wide: a builder fails with
//! [`BuildError::FieldOverflow`] rather than take key number `2^32` or let the
//! output grow to `2^32` bytes. Writing out a node and walking below a record
//! recurse once for each node on the way down, so that the depth of the
//! recursion grows with the length of the keys.
//!
//! # What is proved
//!
//! Every function is verified against its contract. The contracts of the
//! builder are stated over the steps of the construction on sequences, in
//! [`model`]; those of the reader over the walk through a buffer, in [`trie`].
//! [`soundness`] proves that the buffer that the builder returns reads back as
//! the keys that were added.

pub mod bits;
pub mod builder;
pub mod error;
pub mod groups;
pub mod input;
pub mod keys;
pub mod model;
pub mod node;
pub mod record;
pub mod soundness;
pub mod trie;

pub use bits::{BitReader, BitWriter};
pub use builder::{build_trie, TrieBuilder};
pub use error::{BuildError, ReadError};
pub use groups::Groups;
pub use input::parse_line;
pub use keys::common_prefix_len;
pub use node::TrieNode;
pub use record::log2;
pub use trie::{Edge, Terminal, Trie};
