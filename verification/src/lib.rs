//! A path-addressable settings tree for constrained, networked devices.
//!
//! A settings tree of records, fixed-size arrays, atomic subtrees and leaves
//! exposes every leaf under a slash-separated path. Leaves hold their value
//! as validated text; paths can be read, written and enumerated one by one.
//! A session layer drives the tree over a publish/subscribe transport:
//! the transport itself stays outside, the session only decides.

pub mod model;
pub mod text;
pub mod tree;
pub mod session;
pub mod client;
pub mod laws;

use vstd::prelude::*;

verus! {

/// The ways a path-addressed operation on the settings tree can fail.
#[derive(Clone, Copy, Debug, PartialEq, Eq, Structural)]
pub enum Error {
    /// The path ended before reaching a leaf.
    PathTooShort,
    /// The path continued past a leaf or an atomic subtree.
    PathTooLong,
    /// An array segment was not a decimal index, or was out of bounds.
    BadIndex,
    /// A record segment named no declared field.
    MissingField,
    /// The value bytes were not a valid encoding for the leaf.
    DecodeError,
    /// The output buffer cannot hold the encoded value.
    BufferTooSmall,
}

} // verus!
