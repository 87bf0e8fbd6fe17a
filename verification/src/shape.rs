//! The closed set of node outline shapes.
use vstd::prelude::*;

verus! {

/// Outline shape of a node. Shape polymorphism is confined to the border
/// geometry and the click test; all other code goes through those.
#[derive(Clone, Copy, Debug, PartialEq, Eq, Structural)]
pub enum NodeShape {
    Circle,
    Square,
}

} // verus!
