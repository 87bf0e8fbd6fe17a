//! The node entity: geometric and visual attributes of a vertex, with
//! shape-polymorphic border math.
use vstd::prelude::*;

use crate::consts::{DEFAULT_NODE_X_POSITION, DEFAULT_NODE_Y_POSITION, MIN_NODE_LABEL_SIZE,
    MIN_NODE_SIZE};
use crate::geom::{circle_border_point, circle_border_x, circle_border_y, intersect_rect_edge,
    point_minus, rect_contains_point, rotate_cirlce_border_point, rotate_square_border_point,
    rotated_point, square_border_x, square_border_y, unit_ok, fallback_dir, proj_x, proj_y,
    Point, Rect, Rotation, UNIT_LIMIT};
use crate::shape::NodeShape;
use crate::style::Color;
use vstd::string::StringExecFns;

verus! {

/// A vertex of the diagram: position and half-extent in canvas units, outline
/// shape, fill color, and label layout attributes. The size is kept within
/// the configured range by the editing surface, not enforced here.
#[derive(Debug)]
pub struct Node {
    pub position: Point,
    pub size: i64,
    pub shape: NodeShape,
    pub color: Color,
    pub label: String,
    pub label_size_matches_node_size: bool,
    pub label_size: i64,
}

/// The mathematical value of a node: its attributes with the label as a
/// character sequence.
#[verifier::ext_equal]
pub struct NodeModel {
    pub position: Point,
    pub size: i64,
    pub shape: NodeShape,
    pub color: Color,
    pub label: Seq<char>,
    pub label_size_matches_node_size: bool,
    pub label_size: i64,
}

impl View for Node {
    type V = NodeModel;

    open spec fn view(&self) -> NodeModel {
        NodeModel {
            position: self.position,
            size: self.size,
            shape: self.shape,
            color: self.color,
            label: self.label@,
            label_size_matches_node_size: self.label_size_matches_node_size,
            label_size: self.label_size,
        }
    }
}

impl NodeModel {
    /// Bounds under which the border geometry of this node is defined.
    pub open spec fn geom_ok(self) -> bool {
        unit_ok(self.position) && 0 <= self.size <= UNIT_LIMIT
    }

    /// Whether a pointer at `p` hits this node: strictly inside the circle,
    /// or inside the bounding square, borders included.
    pub open spec fn hit_by(self, p: Point) -> bool {
        match self.shape {
            NodeShape::Circle => (p.x - self.position.x) * (p.x - self.position.x) + (p.y
                - self.position.y) * (p.y - self.position.y) < self.size * self.size,
            NodeShape::Square => rect_contains_point(
                Rect {
                    min: Point {
                        x: (self.position.x - self.size) as i64,
                        y: (self.position.y - self.size) as i64,
                    },
                    max: Point {
                        x: (self.position.x + self.size) as i64,
                        y: (self.position.y + self.size) as i64,
                    },
                },
                p,
            ),
        }
    }

    /// x coordinate of the border point of this node in direction `dir`.
    pub open spec fn border_x(self, dir: Point) -> int {
        match self.shape {
            NodeShape::Circle => circle_border_x(self.position, self.size, dir),
            NodeShape::Square => square_border_x(self.position, self.size, dir),
        }
    }

    /// y coordinate of the border point of this node in direction `dir`.
    pub open spec fn border_y(self, dir: Point) -> int {
        match self.shape {
            NodeShape::Circle => circle_border_y(self.position, self.size, dir),
            NodeShape::Square => square_border_y(self.position, self.size, dir),
        }
    }

    /// x coordinate of a border point rotated around the node's center and
    /// snapped back onto the border.
    pub open spec fn rotated_border_x(self, border_pos: Point, rot: Rotation) -> int {
        let rp = rotated_point(border_pos, self.position, rot);
        match self.shape {
            NodeShape::Circle => rp.x as int,
            NodeShape::Square => self.position.x + proj_x(
                fallback_dir(point_minus(rp, self.position)),
                self.size as int,
            ),
        }
    }

    /// y coordinate of a rotated border point.
    pub open spec fn rotated_border_y(self, border_pos: Point, rot: Rotation) -> int {
        let rp = rotated_point(border_pos, self.position, rot);
        match self.shape {
            NodeShape::Circle => rp.y as int,
            NodeShape::Square => self.position.y + proj_y(
                fallback_dir(point_minus(rp, self.position)),
                self.size as int,
            ),
        }
    }
}

impl Clone for Node {
    /// Clones the node, attribute for attribute.
    fn clone(&self) -> (r: Self)
        ensures
            r@ == self@,
    {
        Node {
            position: self.position,
            size: self.size,
            shape: self.shape,
            color: self.color,
            label: self.label.clone(),
            label_size_matches_node_size: self.label_size_matches_node_size,
            label_size: self.label_size,
        }
    }
}

impl Node {
    /// A red circle of the smallest size at the default anchor, labelled "1".
    pub fn default() -> (n: Node)
        ensures
            n.position == (Point { x: DEFAULT_NODE_X_POSITION, y: DEFAULT_NODE_Y_POSITION }),
            n.size == MIN_NODE_SIZE,
            n.shape == NodeShape::Circle,
            n.color == (Color { r: 255u8, g: 0u8, b: 0u8, a: 255u8 }),
            n.label@ == "1"@,
            n.label_size_matches_node_size,
            n.label_size == MIN_NODE_LABEL_SIZE,
    {
        Node {
            position: Point { x: DEFAULT_NODE_X_POSITION, y: DEFAULT_NODE_Y_POSITION },
            size: MIN_NODE_SIZE,
            shape: NodeShape::Circle,
            color: Color::red(),
            label: String::from_str("1"),
            label_size_matches_node_size: true,
            label_size: MIN_NODE_LABEL_SIZE,
        }
    }

    /// A default-styled node with the given label and position.
    pub fn new(label: String, position: Point) -> (n: Node)
        ensures
            n.position == position,
            n.size == MIN_NODE_SIZE,
            n.shape == NodeShape::Circle,
            n.color == (Color { r: 255u8, g: 0u8, b: 0u8, a: 255u8 }),
            n.label@ == label@,
            n.label_size_matches_node_size,
            n.label_size == MIN_NODE_LABEL_SIZE,
    {
        Node {
            position,
            size: MIN_NODE_SIZE,
            shape: NodeShape::Circle,
            color: Color::red(),
            label,
            label_size_matches_node_size: true,
            label_size: MIN_NODE_LABEL_SIZE,
        }
    }

    /// Whether a pointer at `pointer_pos` hits this node.
    pub fn is_clicked(&self, pointer_pos: Point) -> (r: bool)
        requires
            self@.geom_ok(),
            unit_ok(pointer_pos),
        ensures
            r == self@.hit_by(pointer_pos),
    {
        match self.shape {
            NodeShape::Circle => {
                let dx: i128 = pointer_pos.x as i128 - self.position.x as i128;
                let dy: i128 = pointer_pos.y as i128 - self.position.y as i128;
                proof {
                    crate::geom::lemma_mul_bound(dx as int, dx as int, 2 * UNIT_LIMIT as int);
                    crate::geom::lemma_mul_bound(dy as int, dy as int, 2 * UNIT_LIMIT as int);
                    crate::geom::lemma_mul_bound(
                        self.size as int,
                        self.size as int,
                        UNIT_LIMIT as int,
                    );
                }
                dx * dx + dy * dy < (self.size as i128) * (self.size as i128)
            },
            NodeShape::Square => {
                let rect = Rect {
                    min: Point { x: self.position.x - self.size, y: self.position.y - self.size },
                    max: Point { x: self.position.x + self.size, y: self.position.y + self.size },
                };
                crate::geom::rect_contains(&rect, pointer_pos)
            },
        }
    }

    /// The point on this node's outline in direction `direction` from its
    /// center.
    pub fn border_point_in_direction(&self, direction: Point) -> (r: Point)
        requires
            self@.geom_ok(),
            unit_ok(direction),
        ensures
            r.x == self@.border_x(direction),
            r.y == self@.border_y(direction),
            self.position.x - self.size <= r.x <= self.position.x + self.size,
            self.position.y - self.size <= r.y <= self.position.y + self.size,
    {
        match self.shape {
            NodeShape::Circle => circle_border_point(self.position, self.size, direction),
            NodeShape::Square => intersect_rect_edge(self.position, self.size, direction),
        }
    }

    /// Rotates a point assumed to lie on this node's border around the
    /// node's center, snapping the result back onto the border (exact for
    /// circles, dominant-axis projection for squares).
    pub fn rotate_border_point(&self, border_pos: Point, rot: Rotation) -> (r: Point)
        requires
            self@.geom_ok(),
            unit_ok(border_pos),
            rot.wf(),
        ensures
            r.x == self@.rotated_border_x(border_pos, rot),
            r.y == self@.rotated_border_y(border_pos, rot),
            ({
                let m = crate::geom::abs_of(border_pos.x - self.position.x)
                    + crate::geom::abs_of(border_pos.y - self.position.y) + self.size;
                -m <= r.x - self.position.x <= m && -m <= r.y - self.position.y <= m
            }),
    {
        match self.shape {
            NodeShape::Circle => rotate_cirlce_border_point(border_pos, self.position, rot),
            NodeShape::Square => rotate_square_border_point(
                border_pos,
                self.position,
                rot,
                self.size,
            ),
        }
    }
}

} // verus!
