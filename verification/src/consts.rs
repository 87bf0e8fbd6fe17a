//! Editor-wide limits and layout constants, in integer canvas units.
use vstd::prelude::*;

verus! {

/// Smallest node half-extent the editing surface offers.
pub const MIN_NODE_SIZE: i64 = 20;
/// Largest node half-extent the editing surface offers.
pub const MAX_NODE_SIZE: i64 = 100;

pub const MIN_NODE_LABEL_SIZE: i64 = 20;
pub const MAX_NODE_LABEL_SIZE: i64 = 100;

pub const MIN_EDGE_WIDTH: i64 = 2;
pub const MAX_EDGE_WIDTH: i64 = 5;

/// Loop rotation angles are whole degrees.
pub const MIN_LOOP_EDGE_ANGLE: i64 = 0;
pub const MAX_LOOP_EDGE_ANGLE: i64 = 360;

pub const MIN_EDGE_LABEL_SIZE: i64 = 10;
pub const MAX_EDGE_LABEL_SIZE: i64 = 36;

pub const MIN_EDGE_LABEL_PADDING: i64 = -100;
pub const MAX_EDGE_LABEL_PADDING: i64 = 100;

/// Anchor position where freshly created nodes appear, before the random
/// per-node offset is added.
pub const DEFAULT_NODE_X_POSITION: i64 = 200;
pub const DEFAULT_NODE_Y_POSITION: i64 = 200;

/// Base distance of a curve's control point from the chord, per shift level.
pub const CONTROL_OFFSET: i64 = 50;

/// Arrowhead length, as a multiple of the edge width.
pub const ARROW_LEN_COEF: i64 = 4;

/// Half side length of the square used by the comment-stroke eraser.
pub const ERASER_HALF_SIZE: i64 = 5;

} // verus!
