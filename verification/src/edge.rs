//! The edge entity: a directed or undirected connector between two nodes,
//! with styling and label layout parameters.
use vstd::prelude::*;

use crate::consts::{MIN_EDGE_LABEL_SIZE, MIN_EDGE_WIDTH, MIN_LOOP_EDGE_ANGLE};
use crate::ids::NodeId;
use crate::style::Color;

verus! {

/// A connector between the nodes `start_id` and `end_id`. An edge is a
/// self-loop exactly when the two ids coincide; `loop_rotation_angle` (whole
/// degrees) is meaningful only then. The owning graph store keeps both
/// endpoint ids pointing at live nodes.
#[derive(Debug)]
pub struct Edge {
    pub start_id: NodeId,
    pub end_id: NodeId,
    pub oriented: bool,
    pub color: Color,
    pub label: String,
    pub label_size: i64,
    pub padding_x: i64,
    pub padding_y: i64,
    pub width: i64,
    pub loop_rotation_angle: i64,
}

/// The mathematical value of an edge, with the label as a character
/// sequence.
#[verifier::ext_equal]
pub struct EdgeModel {
    pub start_id: usize,
    pub end_id: usize,
    pub oriented: bool,
    pub color: Color,
    pub label: Seq<char>,
    pub label_size: i64,
    pub padding_x: i64,
    pub padding_y: i64,
    pub width: i64,
    pub loop_rotation_angle: i64,
}

impl View for Edge {
    type V = EdgeModel;

    open spec fn view(&self) -> EdgeModel {
        EdgeModel {
            start_id: self.start_id.0,
            end_id: self.end_id.0,
            oriented: self.oriented,
            color: self.color,
            label: self.label@,
            label_size: self.label_size,
            padding_x: self.padding_x,
            padding_y: self.padding_y,
            width: self.width,
            loop_rotation_angle: self.loop_rotation_angle,
        }
    }
}

impl EdgeModel {
    pub open spec fn is_loop(self) -> bool {
        self.start_id == self.end_id
    }

    /// Whether the edge references the node id `id` at either end.
    pub open spec fn touches(self, id: usize) -> bool {
        self.start_id == id || self.end_id == id
    }
}

impl Clone for Edge {
    /// Clones the edge, attribute for attribute.
    fn clone(&self) -> (r: Self)
        ensures
            r@ == self@,
    {
        Edge {
            start_id: self.start_id,
            end_id: self.end_id,
            oriented: self.oriented,
            color: self.color,
            label: self.label.clone(),
            label_size: self.label_size,
            padding_x: self.padding_x,
            padding_y: self.padding_y,
            width: self.width,
            loop_rotation_angle: self.loop_rotation_angle,
        }
    }
}

impl Edge {
    /// A default-styled oriented black edge between the two ids.
    pub fn new(start_id: NodeId, end_id: NodeId) -> (e: Edge)
        ensures
            e.start_id == start_id,
            e.end_id == end_id,
            e.oriented,
            e.color == (Color { r: 0u8, g: 0u8, b: 0u8, a: 255u8 }),
            e.label@ == Seq::<char>::empty(),
            e.label_size == MIN_EDGE_LABEL_SIZE,
            e.padding_x == 0,
            e.padding_y == 0,
            e.width == MIN_EDGE_WIDTH,
            e.loop_rotation_angle == MIN_LOOP_EDGE_ANGLE,
    {
        Edge {
            start_id,
            end_id,
            oriented: true,
            color: Color::black(),
            label: String::new(),
            label_size: MIN_EDGE_LABEL_SIZE,
            padding_x: 0,
            padding_y: 0,
            width: MIN_EDGE_WIDTH,
            loop_rotation_angle: MIN_LOOP_EDGE_ANGLE,
        }
    }

    /// Whether this edge starts and ends on the same node.
    pub fn is_loop(&self) -> (r: bool)
        ensures
            r == self@.is_loop(),
    {
        self.start_id.0 == self.end_id.0
    }
}

} // verus!
