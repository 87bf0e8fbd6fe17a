//! The interaction layer: pointer-driven selection, dragging, the two-click
//! edge-creation gesture, and comment draw/erase, over a graph store and a
//! comment group owned by one workspace.
//!
//! Hit-testing visits nodes in insertion order and takes the first match,
//! so when nodes overlap the earliest-inserted one wins.
use vstd::prelude::*;

use crate::comments::{draw_step_model, CommentLine, CommentsGroup, CommentsModel,
    stroke_hits_square};
use crate::consts::ERASER_HALF_SIZE;
use crate::edge::Edge;
use crate::geom::{coord_ok, square_around, unit_ok, Point, Rect, UNIT_LIMIT};
use crate::graph::{Graph, GraphModel};
use crate::ids::{CommentId, EdgeId, NodeId};
use crate::node::{Node, NodeModel};
use crate::style::StrokeStyle;

verus! {

/// One frame's pointer and key snapshot, as the host surface reports it.
/// `interact_pos` is the position of a press or drag; `hover_pos` the plain
/// hover position.
#[derive(Clone, Copy, Debug)]
pub struct PointerInput {
    pub interact_pos: Option<Point>,
    pub hover_pos: Option<Point>,
    pub secondary_clicked: bool,
    pub escape_pressed: bool,
}

impl PointerInput {
    /// What the host surface guarantees of a snapshot: a secondary click
    /// always carries an interact position, and positions are within the
    /// coordinate limits.
    pub open spec fn wf(self) -> bool {
        &&& self.secondary_clicked ==> self.interact_pos is Some
        &&& match self.interact_pos {
            Some(p) => unit_ok(p),
            None => true,
        }
        &&& match self.hover_pos {
            Some(p) => unit_ok(p),
            None => true,
        }
    }
}

/// The ephemeral interaction state: the four id slots of the gesture
/// machinery.
#[derive(Clone, Copy, Debug)]
pub struct InteractionState {
    pub selected_node_id: Option<NodeId>,
    pub dragging_node_id: Option<NodeId>,
    pub selected_edge_id: Option<EdgeId>,
    pub new_edge_start: Option<NodeId>,
}

/// The mathematical value of a workspace.
#[verifier::ext_equal]
pub struct WorkspaceModel {
    pub graph: GraphModel,
    pub comments: CommentsModel,
    pub selected_node_id: Option<usize>,
    pub dragging_node_id: Option<usize>,
    pub selected_edge_id: Option<usize>,
    pub new_edge_start: Option<usize>,
}

impl WorkspaceModel {
    /// The workspace invariant: the store and group invariants, and every
    /// stored interaction id refers to a live entity.
    pub open spec fn wf(self) -> bool {
        &&& self.graph.wf()
        &&& self.comments.wf()
        &&& match self.selected_node_id {
            Some(id) => self.graph.has_node(id),
            None => true,
        }
        &&& match self.dragging_node_id {
            Some(id) => self.graph.has_node(id),
            None => true,
        }
        &&& match self.new_edge_start {
            Some(id) => self.graph.has_node(id),
            None => true,
        }
        &&& match self.selected_edge_id {
            Some(id) => self.graph.has_edge(id),
            None => true,
        }
    }
}

/// The first node, in insertion order, whose shape is hit by a pointer at
/// `p`; the tie-break for overlapping nodes.
pub open spec fn first_hit_node(nodes: Seq<(usize, NodeModel)>, p: Point) -> Option<usize>
    decreases nodes.len(),
{
    if nodes.len() == 0 {
        None
    } else if nodes[0].1.hit_by(p) {
        Some(nodes[0].0)
    } else {
        first_hit_node(nodes.drop_first(), p)
    }
}

/// If no node among the first `i` is hit, the search is decided by the rest.
pub proof fn lemma_first_hit_node_skip(nodes: Seq<(usize, NodeModel)>, p: Point, i: int)
    requires
        0 <= i <= nodes.len(),
        forall|j: int| 0 <= j < i ==> !(#[trigger] nodes[j]).1.hit_by(p),
    ensures
        first_hit_node(nodes, p) == first_hit_node(nodes.skip(i), p),
    decreases i,
{
    if i == 0 {
        assert(nodes.skip(0) =~= nodes);
    } else {
        assert(nodes.skip(1).skip(i - 1) =~= nodes.skip(i));
        assert(nodes.drop_first() =~= nodes.skip(1));
        lemma_first_hit_node_skip(nodes.skip(1), p, i - 1);
    }
}

/// The per-axis clamp of a drag position: the node's center may not come
/// closer to a canvas edge than the node's own half-extent.
pub open spec fn clamp_to_bounds(size: int, pointer: Point, bounds: Rect) -> (int, int) {
    let x = if pointer.x - size < bounds.min.x {
        bounds.min.x + size
    } else if pointer.x + size > bounds.max.x {
        bounds.max.x - size
    } else {
        pointer.x as int
    };
    let y = if pointer.y - size < bounds.min.y {
        bounds.min.y + size
    } else if pointer.y + size > bounds.max.y {
        bounds.max.y - size
    } else {
        pointer.y as int
    };
    (x, y)
}

/// Evaluates the drag position that satisfies the canvas bounds constraint:
/// each axis independently clamped so that the node, with half-extent
/// `size`, stays inside `bounds`.
pub fn bounds_constraint_correction(size: i64, pointer_pos: Point, bounds: Rect) -> (r: Point)
    requires
        unit_ok(pointer_pos),
        unit_ok(bounds.min),
        unit_ok(bounds.max),
        0 <= size <= UNIT_LIMIT,
    ensures
        r.x == clamp_to_bounds(size as int, pointer_pos, bounds).0,
        r.y == clamp_to_bounds(size as int, pointer_pos, bounds).1,
{
    let new_x = if pointer_pos.x - size < bounds.min.x {
        bounds.min.x + size
    } else if pointer_pos.x + size > bounds.max.x {
        bounds.max.x - size
    } else {
        pointer_pos.x
    };
    let new_y = if pointer_pos.y - size < bounds.min.y {
        bounds.min.y + size
    } else if pointer_pos.y + size > bounds.max.y {
        bounds.max.y - size
    } else {
        pointer_pos.y
    };
    Point { x: new_x, y: new_y }
}

/// Law: whenever the canvas is at least a node's diameter wide and tall,
/// the clamped drag position lies in the inset box: the node's center never
/// comes closer to a canvas edge than the node's half-extent.
pub proof fn lemma_clamp_stays_inside(size: int, pointer: Point, bounds: Rect)
    requires
        0 <= size,
        bounds.min.x + size <= bounds.max.x - size,
        bounds.min.y + size <= bounds.max.y - size,
    ensures
        bounds.min.x + size <= clamp_to_bounds(size, pointer, bounds).0 <= bounds.max.x - size,
        bounds.min.y + size <= clamp_to_bounds(size, pointer, bounds).1 <= bounds.max.y - size,
{
}

/// The workspace: the pure graph data, the comment strokes, and the
/// ephemeral interaction state, composed as the spec's frame loop uses them.
pub struct GraphWorkspace {
    graph: Graph,
    comment_lines: CommentsGroup,
    interactions: InteractionState,
}

impl View for GraphWorkspace {
    type V = WorkspaceModel;

    closed spec fn view(&self) -> WorkspaceModel {
        WorkspaceModel {
            graph: self.graph@,
            comments: self.comment_lines@,
            selected_node_id: match self.interactions.selected_node_id {
                Some(id) => Some(id.0),
                None => None,
            },
            dragging_node_id: match self.interactions.dragging_node_id {
                Some(id) => Some(id.0),
                None => None,
            },
            selected_edge_id: match self.interactions.selected_edge_id {
                Some(id) => Some(id.0),
                None => None,
            },
            new_edge_start: match self.interactions.new_edge_start {
                Some(id) => Some(id.0),
                None => None,
            },
        }
    }
}

impl GraphWorkspace {
    /// An empty workspace.
    pub fn new() -> (r: GraphWorkspace)
        ensures
            r@.graph.nodes =~= Seq::<(usize, NodeModel)>::empty(),
            r@.graph.edges =~= Seq::<(usize, crate::edge::EdgeModel)>::empty(),
            r@.graph.node_id_counter == 0,
            r@.graph.edge_id_counter == 0,
            r@.comments.lines =~= Seq::<(usize, crate::comments::CommentLineModel)>::empty(),
            r@.comments.counter == 0,
            r@.selected_node_id is None,
            r@.dragging_node_id is None,
            r@.selected_edge_id is None,
            r@.new_edge_start is None,
            r@.wf(),
    {
        GraphWorkspace {
            graph: Graph::new(),
            comment_lines: CommentsGroup::new(),
            interactions: InteractionState {
                selected_node_id: None,
                dragging_node_id: None,
                selected_edge_id: None,
                new_edge_start: None,
            },
        }
    }

    /// The graph store, for reading.
    pub fn graph(&self) -> (r: &Graph)
        ensures
            r@ == self@.graph,
    {
        &self.graph
    }

    /// The comment strokes, for reading.
    pub fn comment_lines(&self) -> (r: &CommentsGroup)
        ensures
            r@ == self@.comments,
    {
        &self.comment_lines
    }

    /// The first node hit by a pointer at `p`, in insertion order.
    fn first_clicked(&self, p: Point) -> (r: Option<NodeId>)
        requires
            self@.graph.wf(),
            unit_ok(p),
        ensures
            match r {
                Some(id) => first_hit_node(self@.graph.nodes, p) == Some(id.0) && self@
                    .graph.has_node(id.0),
                None => first_hit_node(self@.graph.nodes, p) is None,
            },
    {
        let nodes = self.graph.nodes();
        let n = nodes.len();
        let mut i: usize = 0;
        while i < n
            invariant
                0 <= i <= n == self@.graph.nodes.len(),
                n == nodes@.len(),
                self@.graph.wf(),
                unit_ok(p),
                forall|j: int|
                    0 <= j < n ==> ((#[trigger] nodes@[j]).0).0 == self@.graph.nodes[j].0
                        && nodes@[j].1@ == self@.graph.nodes[j].1,
                forall|j: int| 0 <= j < i ==> !(#[trigger] self@.graph.nodes[j]).1.hit_by(p),
            decreases n - i,
        {
            proof {
                assert(self@.graph.nodes[i as int].1.attrs_ok());
            }
            if nodes[i].1.is_clicked(p) {
                proof {
                    lemma_first_hit_node_skip(self@.graph.nodes, p, i as int);
                    assert(self@.graph.nodes.skip(i as int)[0] == self@.graph.nodes[i as int]);
                }
                return Some(nodes[i].0);
            }
            i = i + 1;
        }
        proof {
            lemma_first_hit_node_skip(self@.graph.nodes, p, n as int);
            assert(self@.graph.nodes.skip(n as int) =~= Seq::<(usize, NodeModel)>::empty());
        }
        None
    }

    /// Marks the first node under the interact position selected, if any;
    /// clicking empty canvas leaves the previous selection in place.
    pub fn handle_node_selection(&mut self, input: PointerInput)
        requires
            old(self)@.wf(),
            input.wf(),
        ensures
            selection_step(old(self)@, final(self)@, input),
    {
        if let Some(p) = input.interact_pos {
            match self.first_clicked(p) {
                Some(id) => {
                    self.interactions.selected_node_id = Some(id);
                },
                None => (),
            }
        }
    }

    /// The id of the node being dragged, if any.
    pub fn dragging_node(&self) -> (r: Option<NodeId>)
        ensures
            match r {
                Some(id) => self@.dragging_node_id == Some(id.0),
                None => self@.dragging_node_id is None,
            },
    {
        self.interactions.dragging_node_id
    }

    /// Sets or clears the dragged-node slot.
    pub fn set_dragging_node(&mut self, dragging: Option<NodeId>)
        requires
            match dragging {
                Some(id) => old(self)@.graph.has_node(id.0),
                None => true,
            },
        ensures
            final(self)@ == (WorkspaceModel {
                dragging_node_id: match dragging {
                    Some(id) => Some(id.0),
                    None => None,
                },
                ..old(self)@
            }),
            old(self)@.wf() ==> final(self)@.wf(),
    {
        self.interactions.dragging_node_id = dragging;
    }

    /// Sets or clears the selected-node slot.
    pub fn set_selected_node_id(&mut self, node_id: Option<NodeId>)
        requires
            match node_id {
                Some(id) => old(self)@.graph.has_node(id.0),
                None => true,
            },
        ensures
            final(self)@ == (WorkspaceModel {
                selected_node_id: match node_id {
                    Some(id) => Some(id.0),
                    None => None,
                },
                ..old(self)@
            }),
            old(self)@.wf() ==> final(self)@.wf(),
    {
        self.interactions.selected_node_id = node_id;
    }

    /// The currently selected node's id.
    pub fn selected_node_id(&self) -> (r: Option<NodeId>)
        ensures
            match r {
                Some(id) => self@.selected_node_id == Some(id.0),
                None => self@.selected_node_id is None,
            },
    {
        self.interactions.selected_node_id
    }

    /// The currently selected node, for reading.
    pub fn selected_node(&self) -> (r: Option<&Node>)
        requires
            self@.wf(),
        ensures
            match r {
                Some(n) => match self@.selected_node_id {
                    Some(id) => self@.graph.node_of(id) == Some(n@),
                    None => false,
                },
                None => self@.selected_node_id is None,
            },
    {
        match self.interactions.selected_node_id {
            Some(id) => {
                let found = self.graph.node(&id);
                proof {
                    if found is None {
                        crate::graph::lemma_find_has(self@.graph.nodes, id.0);
                    }
                }
                match found {
                    Some(n) => Some(n),
                    None => {
                        proof {
                            assert(false);
                        }
                        None
                    },
                }
            },
            None => None,
        }
    }
}

/// The dragged node's position after one drag frame: the clamped pointer
/// position if it stays within the coordinate limits, else the old position
/// (an explicit guard for degenerate bounds).
pub open spec fn drag_target(node: NodeModel, pointer: Point, bounds: Rect) -> Point {
    let c = clamp_to_bounds(node.size as int, pointer, bounds);
    if -UNIT_LIMIT <= c.0 <= UNIT_LIMIT && -UNIT_LIMIT <= c.1 <= UNIT_LIMIT {
        Point { x: c.0 as i64, y: c.1 as i64 }
    } else {
        node.position
    }
}


/// The effect of one dragging frame, as a relation between the workspace
/// before (`m0`) and after (`m1`): a released pointer clears the drag; a
/// held pointer either moves the dragged node to the clamped position or
/// picks up the first node under the pointer; nothing else changes.
pub open spec fn drag_step(
    m0: WorkspaceModel,
    m1: WorkspaceModel,
    input: PointerInput,
    bounds: Rect,
) -> bool {
    &&& m1.wf()
    &&& m1.comments == m0.comments
    &&& m1.selected_node_id == m0.selected_node_id
    &&& m1.selected_edge_id == m0.selected_edge_id
    &&& m1.new_edge_start == m0.new_edge_start
    &&& m1.graph.edges == m0.graph.edges
    &&& m1.graph.node_id_counter == m0.graph.node_id_counter
    &&& m1.graph.edge_id_counter == m0.graph.edge_id_counter
    &&& (input.interact_pos is None ==> m1.dragging_node_id is None && m1.graph == m0.graph)
    &&& match (input.interact_pos, m0.dragging_node_id) {
        (Some(p), Some(id)) => m1.dragging_node_id == Some(id) && (exists|k: int|
            0 <= k < m0.graph.nodes.len() && (#[trigger] m0.graph.nodes[k]).0 == id
                && m1.graph.nodes =~= m0.graph.nodes.update(
                k,
                (
                    id,
                    NodeModel {
                        position: drag_target(m0.graph.nodes[k].1, p, bounds),
                        ..m0.graph.nodes[k].1
                    },
                ),
            )),
        (Some(p), None) => m1.graph == m0.graph && m1.dragging_node_id == first_hit_node(
            m0.graph.nodes,
            p,
        ),
        _ => true,
    }
}

/// The effect of one selection frame: the first node under the interact
/// position becomes selected; clicking empty canvas keeps the previous
/// selection; nothing else changes.
pub open spec fn selection_step(m0: WorkspaceModel, m1: WorkspaceModel, input: PointerInput) -> bool {
    &&& m1.wf()
    &&& m1.graph == m0.graph
    &&& m1.comments == m0.comments
    &&& m1.dragging_node_id == m0.dragging_node_id
    &&& m1.selected_edge_id == m0.selected_edge_id
    &&& m1.new_edge_start == m0.new_edge_start
    &&& m1.selected_node_id == match input.interact_pos {
        Some(p) => match first_hit_node(m0.graph.nodes, p) {
            Some(id) => Some(id),
            None => m0.selected_node_id,
        },
        None => m0.selected_node_id,
    }
}

/// The effect of one edge-commit frame: Escape cancels the pending gesture;
/// a secondary click with a pending start that hits a node appends exactly
/// one default edge and clears the pending start (`created` reports this);
/// in every other case the workspace is unchanged.
pub open spec fn creation_step(
    m0: WorkspaceModel,
    m1: WorkspaceModel,
    input: PointerInput,
    created: bool,
) -> bool {
    &&& m1.wf()
    &&& m1.comments == m0.comments
    &&& m1.selected_node_id == m0.selected_node_id
    &&& m1.selected_edge_id == m0.selected_edge_id
    &&& m1.dragging_node_id == m0.dragging_node_id
    &&& m1.graph.nodes == m0.graph.nodes
    &&& m1.graph.node_id_counter == m0.graph.node_id_counter
    &&& (input.escape_pressed ==> !created && m1.new_edge_start is None && m1.graph
        == m0.graph)
    &&& (!input.escape_pressed && !input.secondary_clicked ==> !created && m1 == m0)
    &&& (!input.escape_pressed && input.secondary_clicked ==> match (
        m0.new_edge_start,
        first_hit_node(m0.graph.nodes, input.interact_pos->0),
    ) {
        (Some(start), Some(hit)) => created && m1.new_edge_start is None
            && m1.graph.edge_id_counter == m0.graph.edge_id_counter + 1
            && m1.graph.edges =~= m0.graph.edges.push(
            ((m0.graph.edge_id_counter + 1) as usize, crate::graph::default_edge_model(
                start,
                hit,
            )),
        ),
        _ => !created && m1 == m0,
    })
}

/// The effect of one arming frame: a secondary click marks the first node
/// under the pointer as the pending edge start; nothing else changes.
pub open spec fn arming_step(m0: WorkspaceModel, m1: WorkspaceModel, input: PointerInput) -> bool {
    &&& m1.wf()
    &&& m1.comments == m0.comments
    &&& m1.graph == m0.graph
    &&& m1.selected_node_id == m0.selected_node_id
    &&& m1.selected_edge_id == m0.selected_edge_id
    &&& m1.dragging_node_id == m0.dragging_node_id
    &&& m1.new_edge_start == if input.secondary_clicked {
        match first_hit_node(m0.graph.nodes, input.interact_pos->0) {
            Some(id) => Some(id),
            None => m0.new_edge_start,
        }
    } else {
        m0.new_edge_start
    }
}

/// The effect of one whole gesture frame: dragging, then selection, then
/// the edge commit, then -- only if no edge was committed -- arming a new
/// edge start. The intermediate workspaces are the witnesses; committing
/// and arming are mutually exclusive within one frame.
pub open spec fn frame_step(
    m0: WorkspaceModel,
    m9: WorkspaceModel,
    input: PointerInput,
    bounds: Rect,
) -> bool {
    exists|w1: WorkspaceModel, w2: WorkspaceModel, w3: WorkspaceModel, created: bool|
        #![trigger drag_step(m0, w1, input, bounds), selection_step(w1, w2, input), creation_step(w2, w3, input, created)]
        drag_step(m0, w1, input, bounds) && selection_step(w1, w2, input) && creation_step(
            w2,
            w3,
            input,
            created,
        ) && (created ==> m9 == w3) && (!created ==> arming_step(w3, m9, input))
}

/// Law: a gesture frame that grew the edge set committed an edge, and the
/// commit leaves the pending edge start cleared -- a committing click never
/// re-arms the gesture in the same frame.
pub proof fn lemma_frame_commit_clears_pending(
    m0: WorkspaceModel,
    m9: WorkspaceModel,
    input: PointerInput,
    bounds: Rect,
)
    requires
        frame_step(m0, m9, input, bounds),
        m9.graph.edges.len() > m0.graph.edges.len(),
    ensures
        m9.new_edge_start is None,
{
    let (w1, w2, w3, created) = choose|
        w1: WorkspaceModel,
        w2: WorkspaceModel,
        w3: WorkspaceModel,
        created: bool,
    |
        #![trigger drag_step(m0, w1, input, bounds), selection_step(w1, w2, input), creation_step(w2, w3, input, created)]
        drag_step(m0, w1, input, bounds) && selection_step(w1, w2, input) && creation_step(
            w2,
            w3,
            input,
            created,
        ) && (created ==> m9 == w3) && (!created ==> arming_step(w3, m9, input));
    assert(w2.graph.edges == m0.graph.edges);
    if !created {
        assert(m9.graph == w3.graph);
        assert(w3.graph.edges.len() == m0.graph.edges.len()) by {
            if input.escape_pressed {
            } else if !input.secondary_clicked {
            } else {
                match (w2.new_edge_start, first_hit_node(w2.graph.nodes, input.interact_pos->0)) {
                    (Some(start), Some(hit)) => {
                        assert(false);
                    },
                    _ => {},
                }
            }
        }
        assert(false);
    }
}

impl GraphWorkspace {
    /// One drag frame: a released pointer clears the drag; a held pointer
    /// either moves the dragged node to the clamped pointer position or,
    /// when no drag is active, picks up the first node under the pointer.
    pub fn handle_node_draging(&mut self, input: PointerInput, bounds: Rect)
        requires
            old(self)@.wf(),
            input.wf(),
            unit_ok(bounds.min),
            unit_ok(bounds.max),
        ensures
            drag_step(old(self)@, final(self)@, input, bounds),
    {
        let pointer_pos = match input.interact_pos {
            Some(pos) => pos,
            None => {
                self.interactions.dragging_node_id = None;
                return ;
            },
        };
        if let Some(id) = self.interactions.dragging_node_id {
            let found = self.graph.node(&id);
            proof {
                if found is None {
                    crate::graph::lemma_find_has(self@.graph.nodes, id.0);
                }
            }
            match found {
                Some(node) => {
                    let ghost node_model = node@;
                    proof {
                        let m0 = self@;
                        crate::graph::lemma_find_has(m0.graph.nodes, id.0);
                        let k0 = choose|k0: int|
                            0 <= k0 < m0.graph.nodes.len() && (#[trigger] m0.graph.nodes[k0]).0
                                == id.0;
                        assert forall|j: int|
                            0 <= j < k0 implies (#[trigger] m0.graph.nodes[j]).0 != id.0 by {
                            assert(m0.graph.nodes[j].0 < m0.graph.nodes[k0].0);
                        }
                        crate::graph::lemma_find_first(m0.graph.nodes, id.0, k0);
                        assert(m0.graph.nodes[k0].1 == node_model);
                        assert(node_model.attrs_ok());
                    }
                    let corrected = bounds_constraint_correction(
                        node.size,
                        pointer_pos,
                        bounds,
                    );
                    let mut moved = node.clone();
                    if -UNIT_LIMIT <= corrected.x && corrected.x <= UNIT_LIMIT && -UNIT_LIMIT
                        <= corrected.y && corrected.y <= UNIT_LIMIT {
                        moved.position = corrected;
                    }
                    let ghost moved_model = moved@;
                    let replaced = self.graph.replace_node(id, moved);
                    proof {
                        let m0 = old(self)@;
                        let k = choose|k: int|
                            0 <= k < m0.graph.nodes.len() && (#[trigger] m0.graph.nodes[k]).0
                                == id.0 && self@.graph.nodes =~= m0.graph.nodes.update(
                                k,
                                (id.0, moved_model),
                            );
                        assert forall|j: int|
                            0 <= j < k implies (#[trigger] m0.graph.nodes[j]).0 != id.0 by {
                            assert(m0.graph.nodes[j].0 < m0.graph.nodes[k].0);
                        }
                        crate::graph::lemma_find_first(m0.graph.nodes, id.0, k);
                        assert(m0.graph.nodes[k].1 == node_model);
                        assert(moved_model == (NodeModel {
                            position: drag_target(m0.graph.nodes[k].1, pointer_pos, bounds),
                            ..m0.graph.nodes[k].1
                        }));
                        let m1 = self@;
                        assert(forall|i: int|
                            0 <= i < m1.graph.nodes.len() ==> (#[trigger] m1.graph.nodes[i]).0
                                == m0.graph.nodes[i].0);
                        assert forall|idn: usize|
                            m0.graph.has_node(idn) implies m1.graph.has_node(idn) by {
                            let w = choose|w: int|
                                0 <= w < m0.graph.nodes.len() && (#[trigger] m0.graph.nodes[w]).0
                                    == idn;
                            assert(m1.graph.nodes[w].0 == idn);
                        }
                        assert(m1.wf());
                    }
                },
                None => {
                    proof {
                        assert(false);
                    }
                },
            }
            return ;
        }
        let hit = self.first_clicked(pointer_pos);
        self.interactions.dragging_node_id = hit;
    }

    /// One frame of the edge-creation gesture. Escape cancels a pending
    /// gesture; otherwise a secondary click while a start node is pending
    /// commits an edge from the pending node to the first node under the
    /// pointer (the pending node itself yields a self-loop) and reports
    /// `true`.
    pub fn handle_edge_creation(&mut self, input: PointerInput) -> (created: bool)
        requires
            old(self)@.wf(),
            input.wf(),
            old(self)@.graph.edge_id_counter < usize::MAX,
        ensures
            creation_step(old(self)@, final(self)@, input, created),
    {
        if input.escape_pressed {
            self.interactions.new_edge_start = None;
            return false;
        }
        if !input.secondary_clicked {
            return false;
        }
        if let Some(edge_start) = self.interactions.new_edge_start {
            let pointer_pos = match input.interact_pos {
                Some(p) => p,
                None => {
                    proof {
                        assert(false);
                    }
                    return false;
                },
            };
            match self.first_clicked(pointer_pos) {
                Some(id) => {
                    self.graph.add_edge(edge_start, id);
                    self.interactions.new_edge_start = None;
                    proof {
                        let m0 = old(self)@;
                        let m1 = self@;
                        if m0.selected_edge_id is Some {
                            let eid = m0.selected_edge_id->0;
                            let w = choose|w: int|
                                0 <= w < m0.graph.edges.len() && (#[trigger] m0.graph.edges[w]).0
                                    == eid;
                            assert(m1.graph.edges[w] == m0.graph.edges[w]);
                        }
                        assert(m1.wf());
                    }
                    return true;
                },
                None => {
                    return false;
                },
            }
        }
        false
    }

    /// A secondary click with no commit marks the first node under the
    /// pointer as the pending start of an edge-creation gesture.
    pub fn handle_setting_edge_start(&mut self, input: PointerInput)
        requires
            old(self)@.wf(),
            input.wf(),
        ensures
            arming_step(old(self)@, final(self)@, input),
    {
        if input.secondary_clicked {
            let pointer_pos = match input.interact_pos {
                Some(p) => p,
                None => {
                    proof {
                        assert(false);
                    }
                    return ;
                },
            };
            match self.first_clicked(pointer_pos) {
                Some(id) => {
                    self.interactions.new_edge_start = Some(id);
                },
                None => (),
            }
        }
    }

    /// One frame of all graph gestures, in the order the frame loop runs
    /// them: dragging, selection, edge creation, and, if no edge was
    /// committed, setting an edge start.
    pub fn handle_graph_interactions(&mut self, input: PointerInput, bounds: Rect)
        requires
            old(self)@.wf(),
            input.wf(),
            unit_ok(bounds.min),
            unit_ok(bounds.max),
            old(self)@.graph.edge_id_counter < usize::MAX,
        ensures
            final(self)@.wf(),
            final(self)@.comments == old(self)@.comments,
            final(self)@.graph.node_id_counter == old(self)@.graph.node_id_counter,
            frame_step(old(self)@, final(self)@, input, bounds),
    {
        let ghost m0 = self@;
        self.handle_node_draging(input, bounds);
        let ghost w1 = self@;
        self.handle_node_selection(input);
        let ghost w2 = self@;
        let edge_created = self.handle_edge_creation(input);
        let ghost w3 = self@;
        if !edge_created {
            self.handle_setting_edge_start(input);
        }
        proof {
            assert(drag_step(m0, w1, input, bounds));
            assert(selection_step(w1, w2, input));
            assert(creation_step(w2, w3, input, edge_created));
            assert(frame_step(m0, self@, input, bounds));
        }
    }
}

/// The first stroke, in insertion order, hit by the eraser square.
pub open spec fn first_hit_line(
    lines: Seq<(usize, crate::comments::CommentLineModel)>,
    square: Rect,
) -> Option<usize>
    decreases lines.len(),
{
    if lines.len() == 0 {
        None
    } else if stroke_hits_square(lines[0].1, square) {
        Some(lines[0].0)
    } else {
        first_hit_line(lines.drop_first(), square)
    }
}

/// If no stroke among the first `i` is hit, the search is decided by the
/// rest.
pub proof fn lemma_first_hit_line_skip(
    lines: Seq<(usize, crate::comments::CommentLineModel)>,
    square: Rect,
    i: int,
)
    requires
        0 <= i <= lines.len(),
        forall|j: int| 0 <= j < i ==> !stroke_hits_square((#[trigger] lines[j]).1, square),
    ensures
        first_hit_line(lines, square) == first_hit_line(lines.skip(i), square),
    decreases i,
{
    if i == 0 {
        assert(lines.skip(0) =~= lines);
    } else {
        assert(lines.skip(1).skip(i - 1) =~= lines.skip(i));
        assert(lines.drop_first() =~= lines.skip(1));
        lemma_first_hit_line_skip(lines.skip(1), square, i - 1);
    }
}

impl GraphWorkspace {
    /// Creates a node at the default anchor plus a random offset.
    pub fn add_node(&mut self)
        requires
            old(self)@.wf(),
            old(self)@.graph.node_id_counter < usize::MAX,
        ensures
            final(self)@.wf(),
            final(self)@.comments == old(self)@.comments,
            final(self)@.selected_node_id == old(self)@.selected_node_id,
            final(self)@.dragging_node_id == old(self)@.dragging_node_id,
            final(self)@.selected_edge_id == old(self)@.selected_edge_id,
            final(self)@.new_edge_start == old(self)@.new_edge_start,
            final(self)@.graph.nodes.len() == old(self)@.graph.nodes.len() + 1,
            final(self)@.graph.node_id_counter == old(self)@.graph.node_id_counter + 1,
            final(self)@.graph.edge_id_counter == old(self)@.graph.edge_id_counter,
            final(self)@.graph.edges == old(self)@.graph.edges,
            forall|i: int|
                0 <= i < old(self)@.graph.nodes.len() ==> final(self)@.graph.nodes[i] == old(
                    self,
                )@.graph.nodes[i],
            final(self)@.graph.nodes.last().0 == old(self)@.graph.node_id_counter + 1,
    {
        self.graph.add_node();
        proof {
            lemma_slots_preserved_on_node_extension(old(self)@, self@);
        }
    }

    /// Creates an edge between two live nodes.
    pub fn add_edge(&mut self, start_id: NodeId, end_id: NodeId)
        requires
            old(self)@.wf(),
            old(self)@.graph.has_node(start_id.0),
            old(self)@.graph.has_node(end_id.0),
            old(self)@.graph.edge_id_counter < usize::MAX,
        ensures
            final(self)@.wf(),
            final(self)@.comments == old(self)@.comments,
            final(self)@.selected_node_id == old(self)@.selected_node_id,
            final(self)@.dragging_node_id == old(self)@.dragging_node_id,
            final(self)@.selected_edge_id == old(self)@.selected_edge_id,
            final(self)@.new_edge_start == old(self)@.new_edge_start,
            final(self)@.graph.nodes == old(self)@.graph.nodes,
            final(self)@.graph.node_id_counter == old(self)@.graph.node_id_counter,
            final(self)@.graph.edge_id_counter == old(self)@.graph.edge_id_counter + 1,
            final(self)@.graph.edges =~= old(self)@.graph.edges.push(
                (
                    (old(self)@.graph.edge_id_counter + 1) as usize,
                    crate::graph::default_edge_model(start_id.0, end_id.0),
                ),
            ),
    {
        self.graph.add_edge(start_id, end_id);
        proof {
            let m0 = old(self)@;
            let m1 = self@;
            if m0.selected_edge_id is Some {
                let eid = m0.selected_edge_id->0;
                let w = choose|w: int|
                    0 <= w < m0.graph.edges.len() && (#[trigger] m0.graph.edges[w]).0 == eid;
                assert(m1.graph.edges[w] == m0.graph.edges[w]);
            }
        }
    }

    /// Removes a node: the id is cleared from every interaction slot, the
    /// store drops the node and its incident edges, and a selected edge that
    /// disappeared in the cascade is deselected.
    pub fn remove_node(&mut self, id: NodeId)
        requires
            old(self)@.wf(),
        ensures
            final(self)@.wf(),
            final(self)@.comments == old(self)@.comments,
            final(self)@.graph.nodes =~= old(self)@.graph.removed_node(id.0).nodes,
            final(self)@.graph.edges =~= old(self)@.graph.removed_node(id.0).edges,
            final(self)@.graph.node_id_counter == old(self)@.graph.node_id_counter,
            final(self)@.graph.edge_id_counter == old(self)@.graph.edge_id_counter,
            final(self)@.selected_node_id == (if old(self)@.selected_node_id == Some(id.0) {
                None
            } else {
                old(self)@.selected_node_id
            }),
            final(self)@.dragging_node_id == (if old(self)@.dragging_node_id == Some(id.0) {
                None
            } else {
                old(self)@.dragging_node_id
            }),
            final(self)@.new_edge_start == (if old(self)@.new_edge_start == Some(id.0) {
                None
            } else {
                old(self)@.new_edge_start
            }),
            final(self)@.selected_edge_id == (match old(self)@.selected_edge_id {
                Some(eid) => if final(self)@.graph.has_edge(eid) {
                    Some(eid)
                } else {
                    None
                },
                None => None,
            }),
    {
        if let Some(selected_id) = self.interactions.selected_node_id {
            if id.0 == selected_id.0 {
                self.interactions.selected_node_id = None;
            }
        }
        if let Some(dragging_id) = self.interactions.dragging_node_id {
            if id.0 == dragging_id.0 {
                self.interactions.dragging_node_id = None;
            }
        }
        if let Some(pending_id) = self.interactions.new_edge_start {
            if id.0 == pending_id.0 {
                self.interactions.new_edge_start = None;
            }
        }
        self.graph.remove_node(id);
        let deselect = match self.interactions.selected_edge_id {
            Some(eid) => self.graph.edge(&eid).is_none(),
            None => false,
        };
        if deselect {
            self.interactions.selected_edge_id = None;
        }
        proof {
            let m0 = old(self)@;
            let m1 = self@;
            crate::graph::lemma_referential_integrity(m0.graph, id.0);
            if m1.selected_node_id is Some {
                lemma_id_survives_node_removal(m0.graph, id.0, m1.selected_node_id->0);
            }
            if m1.dragging_node_id is Some {
                lemma_id_survives_node_removal(m0.graph, id.0, m1.dragging_node_id->0);
            }
            if m1.new_edge_start is Some {
                lemma_id_survives_node_removal(m0.graph, id.0, m1.new_edge_start->0);
            }
            if m1.selected_edge_id is Some {
                crate::graph::lemma_find_has(m1.graph.edges, m1.selected_edge_id->0);
            }
            assert(m1.wf());
        }
    }

    /// Removes the selected node, if any.
    pub fn remove_selected_node(&mut self)
        requires
            old(self)@.wf(),
        ensures
            final(self)@.wf(),
            final(self)@.comments == old(self)@.comments,
            final(self)@.graph.node_id_counter == old(self)@.graph.node_id_counter,
            final(self)@.graph.edge_id_counter == old(self)@.graph.edge_id_counter,
            match old(self)@.selected_node_id {
                Some(id) => final(self)@.graph.nodes =~= old(self)@.graph.removed_node(
                    id,
                ).nodes && final(self)@.graph.edges =~= old(self)@.graph.removed_node(id).edges
                    && final(self)@.selected_node_id is None && final(self)@.dragging_node_id
                    == (if old(self)@.dragging_node_id == Some(id) {
                    None
                } else {
                    old(self)@.dragging_node_id
                }) && final(self)@.new_edge_start == (if old(self)@.new_edge_start == Some(id) {
                    None
                } else {
                    old(self)@.new_edge_start
                }) && final(self)@.selected_edge_id == (match old(self)@.selected_edge_id {
                    Some(eid) => if final(self)@.graph.has_edge(eid) {
                        Some(eid)
                    } else {
                        None
                    },
                    None => None,
                }),
                None => final(self)@ == old(self)@,
            },
    {
        match self.interactions.selected_node_id {
            Some(selected_id) => {
                self.remove_node(selected_id);
            },
            None => (),
        }
    }

    /// Removes an edge, clearing the selection slot if it held that edge.
    pub fn remove_edge(&mut self, id: EdgeId)
        requires
            old(self)@.wf(),
        ensures
            final(self)@.wf(),
            final(self)@.comments == old(self)@.comments,
            final(self)@.graph.nodes == old(self)@.graph.nodes,
            final(self)@.graph.edges =~= old(self)@.graph.removed_edge(id.0).edges,
            final(self)@.graph.node_id_counter == old(self)@.graph.node_id_counter,
            final(self)@.graph.edge_id_counter == old(self)@.graph.edge_id_counter,
            final(self)@.selected_node_id == old(self)@.selected_node_id,
            final(self)@.dragging_node_id == old(self)@.dragging_node_id,
            final(self)@.new_edge_start == old(self)@.new_edge_start,
            final(self)@.selected_edge_id == (if old(self)@.selected_edge_id == Some(id.0) {
                None
            } else {
                old(self)@.selected_edge_id
            }),
    {
        if let Some(selected_id) = self.interactions.selected_edge_id {
            if id.0 == selected_id.0 {
                self.interactions.selected_edge_id = None;
            }
        }
        self.graph.remove_edge(id);
        proof {
            let m0 = old(self)@;
            let m1 = self@;
            if m1.selected_edge_id is Some {
                let eid = m1.selected_edge_id->0;
                let w = choose|w: int|
                    0 <= w < m0.graph.edges.len() && (#[trigger] m0.graph.edges[w]).0 == eid;
                m0.graph.edges.lemma_filter_contains(crate::graph::edge_keep_id(id.0), w);
                assert(m1.graph.edges.contains(m0.graph.edges[w]));
                let w2 = choose|w2: int|
                    0 <= w2 < m1.graph.edges.len() && m1.graph.edges[w2] == m0.graph.edges[w];
            }
            assert(m1.wf());
        }
    }

    /// Removes the selected edge, if any.
    pub fn remove_selected_edge(&mut self)
        requires
            old(self)@.wf(),
        ensures
            final(self)@.wf(),
            final(self)@.comments == old(self)@.comments,
            final(self)@.graph.nodes == old(self)@.graph.nodes,
            final(self)@.graph.node_id_counter == old(self)@.graph.node_id_counter,
            final(self)@.graph.edge_id_counter == old(self)@.graph.edge_id_counter,
            final(self)@.selected_node_id == old(self)@.selected_node_id,
            final(self)@.dragging_node_id == old(self)@.dragging_node_id,
            final(self)@.new_edge_start == old(self)@.new_edge_start,
            match old(self)@.selected_edge_id {
                Some(id) => final(self)@.graph.edges =~= old(self)@.graph.removed_edge(id).edges
                    && final(self)@.selected_edge_id is None,
                None => final(self)@ == old(self)@,
            },
    {
        match self.interactions.selected_edge_id {
            Some(selected_id) => {
                self.remove_edge(selected_id);
            },
            None => (),
        }
    }

    /// The selected edge's id.
    pub fn selected_edge_id(&self) -> (r: Option<EdgeId>)
        ensures
            match r {
                Some(id) => self@.selected_edge_id == Some(id.0),
                None => self@.selected_edge_id is None,
            },
    {
        self.interactions.selected_edge_id
    }

    /// Sets or clears the selected-edge slot.
    pub fn set_selected_edge_id(&mut self, edge_id: Option<EdgeId>)
        requires
            match edge_id {
                Some(id) => old(self)@.graph.has_edge(id.0),
                None => true,
            },
        ensures
            final(self)@ == (WorkspaceModel {
                selected_edge_id: match edge_id {
                    Some(id) => Some(id.0),
                    None => None,
                },
                ..old(self)@
            }),
            old(self)@.wf() ==> final(self)@.wf(),
    {
        self.interactions.selected_edge_id = edge_id;
    }

    /// Toggles whether the edge `id` is selected, as a click on its table
    /// row does: selecting it, or deselecting it if it was selected.
    pub fn toggle_edge_selection(&mut self, id: EdgeId)
        requires
            old(self)@.graph.has_edge(id.0),
        ensures
            final(self)@ == (WorkspaceModel {
                selected_edge_id: if old(self)@.selected_edge_id == Some(id.0) {
                    None
                } else {
                    Some(id.0)
                },
                ..old(self)@
            }),
            old(self)@.wf() ==> final(self)@.wf(),
    {
        match self.interactions.selected_edge_id {
            Some(selected_id) => {
                if selected_id.0 == id.0 {
                    self.interactions.selected_edge_id = None;
                } else {
                    self.interactions.selected_edge_id = Some(id);
                }
            },
            None => {
                self.interactions.selected_edge_id = Some(id);
            },
        }
    }

    /// The selected edge, for reading.
    pub fn selected_edge(&self) -> (r: Option<&Edge>)
        requires
            self@.wf(),
        ensures
            match r {
                Some(e) => match self@.selected_edge_id {
                    Some(id) => self@.graph.edge_of(id) == Some(e@),
                    None => false,
                },
                None => self@.selected_edge_id is None,
            },
    {
        match self.interactions.selected_edge_id {
            Some(id) => {
                let found = self.graph.edge(&id);
                proof {
                    if found is None {
                        crate::graph::lemma_find_has(self@.graph.edges, id.0);
                    }
                }
                match found {
                    Some(e) => Some(e),
                    None => {
                        proof {
                            assert(false);
                        }
                        None
                    },
                }
            },
            None => None,
        }
    }

    /// Looks a node up by id.
    pub fn node(&self, id: &NodeId) -> (r: Option<&Node>)
        ensures
            match r {
                Some(n) => self@.graph.node_of(id.0) == Some(n@),
                None => self@.graph.node_of(id.0) is None && !self@.graph.has_node(id.0),
            },
    {
        self.graph.node(id)
    }

    /// Looks an edge up by id.
    pub fn edge(&self, id: &EdgeId) -> (r: Option<&Edge>)
        ensures
            match r {
                Some(e) => self@.graph.edge_of(id.0) == Some(e@),
                None => self@.graph.edge_of(id.0) is None && !self@.graph.has_edge(id.0),
            },
    {
        self.graph.edge(id)
    }

    /// The edge ids, in insertion order; the stable order list views use.
    pub fn edges_ids(&self) -> (r: Vec<EdgeId>)
        ensures
            r@.len() == self@.graph.edges.len(),
            forall|i: int| 0 <= i < r@.len() ==> (#[trigger] r@[i]).0 == self@.graph.edges[i].0,
    {
        let edges = self.graph.edges();
        let n = edges.len();
        let mut ids: Vec<EdgeId> = Vec::new();
        let mut i: usize = 0;
        while i < n
            invariant
                0 <= i <= n == edges@.len(),
                n == self@.graph.edges.len(),
                forall|j: int|
                    0 <= j < n ==> ((#[trigger] edges@[j]).0).0 == self@.graph.edges[j].0,
                ids@.len() == i,
                forall|j: int| 0 <= j < i ==> (#[trigger] ids@[j]).0 == self@.graph.edges[j].0,
            decreases n - i,
        {
            ids.push(edges[i].0);
            i = i + 1;
        }
        ids
    }

    /// One frame of the comment draw gesture.
    pub fn handle_comment_draw(&mut self, pointer_pos: Option<Point>, stroke: StrokeStyle)
        requires
            old(self)@.wf(),
            old(self)@.comments.counter < usize::MAX - 1,
            match pointer_pos {
                Some(p) => coord_ok(p),
                None => true,
            },
        ensures
            final(self)@.wf(),
            final(self)@.graph == old(self)@.graph,
            final(self)@.selected_node_id == old(self)@.selected_node_id,
            final(self)@.dragging_node_id == old(self)@.dragging_node_id,
            final(self)@.selected_edge_id == old(self)@.selected_edge_id,
            final(self)@.new_edge_start == old(self)@.new_edge_start,
            final(self)@.comments == draw_step_model(old(self)@.comments, pointer_pos, stroke),
    {
        self.comment_lines.draw_step(pointer_pos, stroke);
    }

    /// One frame of the comment erase gesture: the eraser square around the
    /// interact position deletes the first stroke it hits.
    pub fn handle_comment_erase(&mut self, pointer_pos: Option<Point>)
        requires
            old(self)@.wf(),
            match pointer_pos {
                Some(p) => unit_ok(p),
                None => true,
            },
        ensures
            final(self)@.wf(),
            final(self)@.graph == old(self)@.graph,
            final(self)@.selected_node_id == old(self)@.selected_node_id,
            final(self)@.dragging_node_id == old(self)@.dragging_node_id,
            final(self)@.selected_edge_id == old(self)@.selected_edge_id,
            final(self)@.new_edge_start == old(self)@.new_edge_start,
            final(self)@.comments.counter == old(self)@.comments.counter,
            match pointer_pos {
                Some(p) => {
                    let square = Rect {
                        min: Point {
                            x: (p.x - ERASER_HALF_SIZE) as i64,
                            y: (p.y - ERASER_HALF_SIZE) as i64,
                        },
                        max: Point {
                            x: (p.x + ERASER_HALF_SIZE) as i64,
                            y: (p.y + ERASER_HALF_SIZE) as i64,
                        },
                    };
                    match first_hit_line(old(self)@.comments.lines, square) {
                        Some(hit) => exists|k: int|
                            0 <= k < old(self)@.comments.lines.len() && (
                            #[trigger] old(self)@.comments.lines[k]).0 == hit
                                && final(self)@.comments.lines =~= old(
                                self,
                            )@.comments.lines.remove(k),
                        None => final(self)@.comments == old(self)@.comments,
                    }
                },
                None => final(self)@.comments == old(self)@.comments,
            },
    {
        let pointer = match pointer_pos {
            Some(p) => p,
            None => {
                return ;
            },
        };
        let square = square_around(pointer, ERASER_HALF_SIZE);
        let lines = self.comment_lines.lines();
        let n = lines.len();
        let mut selected_line_id: Option<CommentId> = None;
        let mut i: usize = 0;
        while i < n && selected_line_id.is_none()
            invariant
                0 <= i <= n == self@.comments.lines.len(),
                n == lines@.len(),
                self@.comments.wf(),
                unit_ok(pointer),
                square.min.x == pointer.x - ERASER_HALF_SIZE,
                square.min.y == pointer.y - ERASER_HALF_SIZE,
                square.max.x == pointer.x + ERASER_HALF_SIZE,
                square.max.y == pointer.y + ERASER_HALF_SIZE,
                forall|j: int|
                    0 <= j < n ==> ((#[trigger] lines@[j]).0).0 == self@.comments.lines[j].0
                        && lines@[j].1@ == self@.comments.lines[j].1,
                match selected_line_id {
                    Some(cid) => first_hit_line(self@.comments.lines, square) == Some(cid.0)
                        && self@.comments.has_line(cid.0),
                    None => forall|j: int|
                        0 <= j < i ==> !stroke_hits_square(
                            (#[trigger] self@.comments.lines[j]).1,
                            square,
                        ),
                },
            decreases n - i + (if selected_line_id.is_none() {
                1int
            } else {
                0int
            }),
        {
            proof {
                assert(self@.comments.lines[i as int].1.points_ok());
            }
            if lines[i].1.is_intersect_square(square) {
                selected_line_id = Some(lines[i].0);
                proof {
                    lemma_first_hit_line_skip(self@.comments.lines, square, i as int);
                    assert(self@.comments.lines.skip(i as int)[0] == self@.comments.lines[i
                        as int]);
                    assert((self@.comments.lines[i as int]).0 == (lines@[i as int].0).0);
                }
            } else {
                i = i + 1;
            }
        }
        proof {
            if selected_line_id is None {
                lemma_first_hit_line_skip(self@.comments.lines, square, n as int);
                assert(self@.comments.lines.skip(n as int) =~= Seq::<(
                    usize,
                    crate::comments::CommentLineModel,
                )>::empty());
            }
        }
        if let Some(cid) = selected_line_id {
            let removed = self.comment_lines.remove(cid);
            proof {
                assert(removed is Some);
            }
        }
    }
}

impl GraphWorkspace {
    /// The two endpoint nodes of an edge, in start–end order.
    pub fn edge_nodes(&self, id: &EdgeId) -> (r: Option<(&Node, &Node)>)
        requires
            self@.wf(),
        ensures
            match r {
                Some(t) => match self@.graph.edge_of(id.0) {
                    Some(e) => self@.graph.node_of(e.start_id) == Some(t.0@) && self@
                        .graph.node_of(e.end_id) == Some(t.1@),
                    None => false,
                },
                None => !self@.graph.has_edge(id.0),
            },
    {
        match self.graph.edge(id) {
            Some(edge) => {
                proof {
                    crate::graph::lemma_find_entry(self@.graph.edges, id.0);
                    let k = choose|k: int|
                        0 <= k < self@.graph.edges.len() && (#[trigger] self@.graph.edges[k]).0
                            == id.0 && self@.graph.edges[k].1 == self@.graph.edge_of(id.0)->0;
                    crate::graph::lemma_find_has(self@.graph.nodes, edge@.start_id);
                    crate::graph::lemma_find_has(self@.graph.nodes, edge@.end_id);
                }
                let start_node = self.graph.node(&edge.start_id);
                let end_node = self.graph.node(&edge.end_id);
                match (start_node, end_node) {
                    (Some(a), Some(b)) => Some((a, b)),
                    _ => {
                        proof {
                            assert(false);
                        }
                        None
                    },
                }
            },
            None => None,
        }
    }

    /// The pending start node of an in-progress edge-creation gesture.
    pub fn new_edge_start(&self) -> (r: Option<NodeId>)
        ensures
            match r {
                Some(id) => self@.new_edge_start == Some(id.0),
                None => self@.new_edge_start is None,
            },
    {
        self.interactions.new_edge_start
    }

    /// Replaces the attributes of node `id`, as the property panel does.
    pub fn replace_node(&mut self, id: NodeId, node: Node) -> (r: bool)
        requires
            old(self)@.wf(),
            node@.attrs_ok(),
        ensures
            final(self)@.wf(),
            r == old(self)@.graph.has_node(id.0),
            final(self)@.comments == old(self)@.comments,
            final(self)@.selected_node_id == old(self)@.selected_node_id,
            final(self)@.dragging_node_id == old(self)@.dragging_node_id,
            final(self)@.selected_edge_id == old(self)@.selected_edge_id,
            final(self)@.new_edge_start == old(self)@.new_edge_start,
            final(self)@.graph.node_id_counter == old(self)@.graph.node_id_counter,
            final(self)@.graph.edge_id_counter == old(self)@.graph.edge_id_counter,
            final(self)@.graph.edges == old(self)@.graph.edges,
            !r ==> final(self)@.graph.nodes == old(self)@.graph.nodes,
            r ==> exists|k: int|
                0 <= k < old(self)@.graph.nodes.len() && (#[trigger] old(
                    self,
                )@.graph.nodes[k]).0 == id.0 && final(self)@.graph.nodes =~= old(
                    self,
                )@.graph.nodes.update(k, (id.0, node@)),
    {
        let r = self.graph.replace_node(id, node);
        proof {
            let m0 = old(self)@;
            let m1 = self@;
            assert(forall|i: int|
                0 <= i < m1.graph.nodes.len() ==> (#[trigger] m1.graph.nodes[i]).0
                    == m0.graph.nodes[i].0);
            assert forall|idn: usize| m0.graph.has_node(idn) implies m1.graph.has_node(
                idn,
            ) by {
                let w = choose|w: int|
                    0 <= w < m0.graph.nodes.len() && (#[trigger] m0.graph.nodes[w]).0 == idn;
                assert(m1.graph.nodes[w].0 == idn);
            }
            assert(m1.wf());
        }
        r
    }

    /// Replaces the attributes of edge `id`, as the property panel does; the
    /// replacement must keep both endpoints on live nodes.
    pub fn replace_edge(&mut self, id: EdgeId, edge: Edge) -> (r: bool)
        requires
            old(self)@.wf(),
            edge@.attrs_ok(),
            old(self)@.graph.has_node(edge@.start_id),
            old(self)@.graph.has_node(edge@.end_id),
        ensures
            final(self)@.wf(),
            r == old(self)@.graph.has_edge(id.0),
            final(self)@.comments == old(self)@.comments,
            final(self)@.selected_node_id == old(self)@.selected_node_id,
            final(self)@.dragging_node_id == old(self)@.dragging_node_id,
            final(self)@.selected_edge_id == old(self)@.selected_edge_id,
            final(self)@.new_edge_start == old(self)@.new_edge_start,
            final(self)@.graph.node_id_counter == old(self)@.graph.node_id_counter,
            final(self)@.graph.edge_id_counter == old(self)@.graph.edge_id_counter,
            final(self)@.graph.nodes == old(self)@.graph.nodes,
            !r ==> final(self)@.graph.edges == old(self)@.graph.edges,
            r ==> exists|k: int|
                0 <= k < old(self)@.graph.edges.len() && (#[trigger] old(
                    self,
                )@.graph.edges[k]).0 == id.0 && final(self)@.graph.edges =~= old(
                    self,
                )@.graph.edges.update(k, (id.0, edge@)),
    {
        let r = self.graph.replace_edge(id, edge);
        proof {
            let m0 = old(self)@;
            let m1 = self@;
            assert(forall|i: int|
                0 <= i < m1.graph.edges.len() ==> (#[trigger] m1.graph.edges[i]).0
                    == m0.graph.edges[i].0);
            assert forall|ide: usize| m0.graph.has_edge(ide) implies m1.graph.has_edge(
                ide,
            ) by {
                let w = choose|w: int|
                    0 <= w < m0.graph.edges.len() && (#[trigger] m0.graph.edges[w]).0 == ide;
                assert(m1.graph.edges[w].0 == ide);
            }
            assert(m1.wf());
        }
        r
    }

    /// Serializes the graph store to its persistence document.
    pub fn save_graph_string(&self) -> (r: String)
        requires
            self@.wf(),
        ensures
            r@ == crate::codec::enc_graph(self@.graph),
    {
        crate::codec::graph_string(&self.graph)
    }

    /// Replaces the graph store from a persistence document. On failure the
    /// previous state is retained unchanged; on success the whole store is
    /// replaced and every interaction slot is cleared, since ids of the old
    /// store have no meaning in the new one.
    pub fn load_graph_str(&mut self, doc: &str) -> (r: Result<(), crate::error::GraphEditorError>)
        requires
            old(self)@.wf(),
        ensures
            final(self)@.wf(),
            final(self)@.comments == old(self)@.comments,
            r matches Ok(u) ==> doc@ == crate::codec::enc_graph(final(self)@.graph)
                && final(self)@.selected_node_id is None
                && final(self)@.dragging_node_id is None
                && final(self)@.selected_edge_id is None
                && final(self)@.new_edge_start is None,
            r matches Err(e) ==> e == crate::error::GraphEditorError::FailedOpenFile
                && final(self)@ == old(self)@,
            forall|m: GraphModel|
                #![trigger crate::codec::enc_graph(m)]
                m.wf() && doc@ == crate::codec::enc_graph(m) ==> r is Ok && final(self)@.graph
                    == m,
    {
        match crate::codec::parse_graph_str(doc) {
            Ok(g) => {
                self.graph = g;
                self.interactions = InteractionState {
                    selected_node_id: None,
                    dragging_node_id: None,
                    selected_edge_id: None,
                    new_edge_start: None,
                };
                Ok(())
            },
            Err(e) => Err(e),
        }
    }
}

/// A node id that is not the removed one survives the removal.
proof fn lemma_id_survives_node_removal(g: GraphModel, removed: usize, id: usize)
    requires
        g.has_node(id),
        id != removed,
    ensures
        g.removed_node(removed).has_node(id),
{
    let w = choose|w: int| 0 <= w < g.nodes.len() && (#[trigger] g.nodes[w]).0 == id;
    g.nodes.lemma_filter_contains(crate::graph::node_keep(removed), w);
    assert(g.removed_node(removed).nodes.contains(g.nodes[w]));
    let w2 = choose|w2: int|
        0 <= w2 < g.removed_node(removed).nodes.len() && g.removed_node(removed).nodes[w2]
            == g.nodes[w];
}

/// Extending the node sequence (same edges, same prefix) keeps every stored
/// interaction id valid.
proof fn lemma_slots_preserved_on_node_extension(m0: WorkspaceModel, m1: WorkspaceModel)
    requires
        m0.wf(),
        m1.graph.wf(),
        m1.comments == m0.comments,
        m1.selected_node_id == m0.selected_node_id,
        m1.dragging_node_id == m0.dragging_node_id,
        m1.new_edge_start == m0.new_edge_start,
        m1.selected_edge_id == m0.selected_edge_id,
        m1.graph.edges == m0.graph.edges,
        m1.graph.nodes.len() >= m0.graph.nodes.len(),
        forall|i: int|
            0 <= i < m0.graph.nodes.len() ==> m1.graph.nodes[i] == m0.graph.nodes[i],
    ensures
        m1.wf(),
{
    assert forall|idn: usize| m0.graph.has_node(idn) implies m1.graph.has_node(idn) by {
        let w = choose|w: int|
            0 <= w < m0.graph.nodes.len() && (#[trigger] m0.graph.nodes[w]).0 == idn;
        assert(m1.graph.nodes[w].0 == idn);
    }
    assert forall|ide: usize| m0.graph.has_edge(ide) implies m1.graph.has_edge(ide) by {
        let w = choose|w: int|
            0 <= w < m0.graph.edges.len() && (#[trigger] m0.graph.edges[w]).0 == ide;
        assert(m1.graph.edges[w].0 == ide);
    }
}

} // verus!
