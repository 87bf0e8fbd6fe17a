//! Opaque integer handles for the entities a diagram owns.
//!
//! Identifiers wrap a counter-derived integer; equality and ordering are
//! structural. Within one store instance an identifier is never reused after
//! deletion.
use vstd::prelude::*;

verus! {

/// Handle of a node in a graph store.
#[derive(Clone, Copy, Debug, Hash, PartialEq, Eq, Structural)]
pub struct NodeId(pub usize);

/// Handle of an edge in a graph store.
#[derive(Clone, Copy, Debug, Hash, PartialEq, Eq, Structural)]
pub struct EdgeId(pub usize);

/// Handle of a comment stroke in a comment group.
#[derive(Clone, Copy, Debug, Hash, PartialEq, Eq, Structural)]
pub struct CommentId(pub usize);

} // verus!
