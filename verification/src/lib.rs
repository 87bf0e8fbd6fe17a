//! Core of an interactive diagram editor: a graph store with integer
//! identifiers, shape-aware border geometry on an integer canvas, an edge
//! layout engine that fans out parallel edges and self-loops, a pointer-driven
//! interaction state machine, and a text persistence format with a verified
//! round-trip.
//!
//! Positions and sizes are integer canvas units; rotations are fixed-point
//! (cosine, sine, scale) triples, so all geometry is exact integer arithmetic.

pub mod consts;
pub mod error;
pub mod ids;
pub mod style;
pub mod geom;
pub mod shape;
pub mod node;
pub mod edge;
pub mod graph;
pub mod layout;
pub mod comments;
pub mod workspace;
pub mod codec;
pub mod toast;
pub mod panels;
