//! The graph store: owns all nodes and edges, assigns fresh identifiers from
//! monotone counters, and enforces referential integrity on node removal.
//!
//! Nodes and edges are kept in insertion order (which for ids minted by the
//! counters is strictly increasing id order). Iteration and hit-testing
//! visit entries in that order, so ties between overlapping nodes are
//! resolved in favor of the earliest-inserted node.
use vstd::prelude::*;
use vstd::seq_lib::*;

use crate::codec::{enc_nat, usize_string};
use crate::consts::{DEFAULT_NODE_X_POSITION, DEFAULT_NODE_Y_POSITION, MAX_NODE_SIZE,
    MIN_NODE_SIZE};
use crate::edge::{Edge, EdgeModel};
use crate::geom::{unit_ok, Point, UNIT_LIMIT};
use crate::ids::{EdgeId, NodeId};
use crate::node::{Node, NodeModel};

verus! {

/// Looks an id up in an association sequence, first match wins.
pub open spec fn find_in<T>(s: Seq<(usize, T)>, id: usize) -> Option<T>
    decreases s.len(),
{
    if s.len() == 0 {
        None
    } else if s[0].0 == id {
        Some(s[0].1)
    } else {
        find_in(s.drop_first(), id)
    }
}

/// If no entry among the first `i` matches, the lookup is decided by the
/// rest of the sequence.
pub proof fn lemma_find_skip<T>(s: Seq<(usize, T)>, id: usize, i: int)
    requires
        0 <= i <= s.len(),
        forall|j: int| 0 <= j < i ==> (#[trigger] s[j]).0 != id,
    ensures
        find_in(s, id) == find_in(s.skip(i), id),
    decreases i,
{
    if i == 0 {
        assert(s.skip(0) =~= s);
    } else {
        assert(s.skip(1).skip(i - 1) =~= s.skip(i));
        assert(s.drop_first() =~= s.skip(1));
        lemma_find_skip(s.skip(1), id, i - 1);
    }
}

/// A lookup succeeds exactly on the ids present in the sequence.
pub proof fn lemma_find_has<T>(s: Seq<(usize, T)>, id: usize)
    ensures
        (find_in(s, id) is Some) <==> (exists|i: int|
            0 <= i < s.len() && (#[trigger] s[i]).0 == id),
    decreases s.len(),
{
    if s.len() == 0 {
    } else if s[0].0 == id {
        assert(s[0].0 == id);
    } else {
        let t = s.drop_first();
        lemma_find_has(t, id);
        if exists|i: int| 0 <= i < t.len() && (#[trigger] t[i]).0 == id {
            let i = choose|i: int| 0 <= i < t.len() && (#[trigger] t[i]).0 == id;
            assert(s[i + 1].0 == id);
        }
        if exists|i: int| 0 <= i < s.len() && (#[trigger] s[i]).0 == id {
            let i = choose|i: int| 0 <= i < s.len() && (#[trigger] s[i]).0 == id;
            assert(t[i - 1].0 == id);
        }
    }
}

/// A successful lookup returns the value of some entry with that id.
pub proof fn lemma_find_entry<T>(s: Seq<(usize, T)>, id: usize)
    requires
        find_in(s, id) is Some,
    ensures
        exists|k: int|
            0 <= k < s.len() && (#[trigger] s[k]).0 == id && s[k].1 == find_in(s, id)->0,
    decreases s.len(),
{
    if s.len() == 0 {
    } else if s[0].0 == id {
        assert(s[0].0 == id && s[0].1 == find_in(s, id)->0);
    } else {
        let t = s.drop_first();
        lemma_find_entry(t, id);
        let k = choose|k: int|
            0 <= k < t.len() && (#[trigger] t[k]).0 == id && t[k].1 == find_in(t, id)->0;
        assert(s[k + 1].0 == id && s[k + 1].1 == find_in(s, id)->0);
    }
}

/// A first-match witness determines the lookup's result.
pub proof fn lemma_find_first<T>(s: Seq<(usize, T)>, id: usize, k: int)
    requires
        0 <= k < s.len(),
        s[k].0 == id,
        forall|j: int| 0 <= j < k ==> (#[trigger] s[j]).0 != id,
    ensures
        find_in(s, id) == Some(s[k].1),
{
    lemma_find_skip(s, id, k);
    assert(s.skip(k)[0] == s[k]);
}

impl NodeModel {
    /// All scalar attributes within the canvas limits, so that geometry and
    /// persistence are defined for them.
    pub open spec fn attrs_ok(self) -> bool {
        &&& unit_ok(self.position)
        &&& 0 <= self.size <= UNIT_LIMIT
        &&& -UNIT_LIMIT <= self.label_size <= UNIT_LIMIT
        &&& self.label.len() <= 0xffff_ffff_ffff_ffff
    }
}

impl EdgeModel {
    /// All scalar attributes within the canvas limits.
    pub open spec fn attrs_ok(self) -> bool {
        &&& -UNIT_LIMIT <= self.label_size <= UNIT_LIMIT
        &&& -UNIT_LIMIT <= self.padding_x <= UNIT_LIMIT
        &&& -UNIT_LIMIT <= self.padding_y <= UNIT_LIMIT
        &&& -UNIT_LIMIT <= self.width <= UNIT_LIMIT
        &&& -UNIT_LIMIT <= self.loop_rotation_angle <= UNIT_LIMIT
        &&& self.label.len() <= 0xffff_ffff_ffff_ffff
    }
}

/// The node-entry predicate that keeps every id but `id`.
pub open spec fn node_keep(id: usize) -> spec_fn((usize, NodeModel)) -> bool {
    |p: (usize, NodeModel)| p.0 != id
}

/// The edge-entry predicate that keeps every id but `id`.
pub open spec fn edge_keep_id(id: usize) -> spec_fn((usize, EdgeModel)) -> bool {
    |p: (usize, EdgeModel)| p.0 != id
}

/// The edge-entry predicate that keeps the edges not touching the node `id`.
pub open spec fn edge_keep_node(id: usize) -> spec_fn((usize, EdgeModel)) -> bool {
    |p: (usize, EdgeModel)| !p.1.touches(id)
}

/// The mathematical value of a graph store: the two association sequences in
/// insertion order and the two id counters.
#[verifier::ext_equal]
pub struct GraphModel {
    pub nodes: Seq<(usize, NodeModel)>,
    pub edges: Seq<(usize, EdgeModel)>,
    pub node_id_counter: usize,
    pub edge_id_counter: usize,
}

impl GraphModel {
    pub open spec fn has_node(self, id: usize) -> bool {
        exists|i: int| 0 <= i < self.nodes.len() && (#[trigger] self.nodes[i]).0 == id
    }

    pub open spec fn has_edge(self, id: usize) -> bool {
        exists|i: int| 0 <= i < self.edges.len() && (#[trigger] self.edges[i]).0 == id
    }

    pub open spec fn node_of(self, id: usize) -> Option<NodeModel> {
        find_in(self.nodes, id)
    }

    pub open spec fn edge_of(self, id: usize) -> Option<EdgeModel> {
        find_in(self.edges, id)
    }

    /// The store invariant: ids strictly increase in insertion order (so no
    /// id repeats), live ids never exceed the counters, every edge endpoint
    /// is a live node, and all attributes are within the canvas limits.
    pub open spec fn wf(self) -> bool {
        &&& forall|i: int, j: int|
            0 <= i < j < self.nodes.len() ==> (#[trigger] self.nodes[i]).0 < (
            #[trigger] self.nodes[j]).0
        &&& forall|i: int|
            0 <= i < self.nodes.len() ==> 1 <= (#[trigger] self.nodes[i]).0
                <= self.node_id_counter
        &&& forall|i: int| 0 <= i < self.nodes.len() ==> (#[trigger] self.nodes[i]).1.attrs_ok()
        &&& forall|i: int, j: int|
            0 <= i < j < self.edges.len() ==> (#[trigger] self.edges[i]).0 < (
            #[trigger] self.edges[j]).0
        &&& forall|i: int|
            0 <= i < self.edges.len() ==> 1 <= (#[trigger] self.edges[i]).0
                <= self.edge_id_counter
        &&& forall|i: int| 0 <= i < self.edges.len() ==> (#[trigger] self.edges[i]).1.attrs_ok()
        &&& forall|i: int|
            0 <= i < self.edges.len() ==> self.has_node((#[trigger] self.edges[i]).1.start_id)
                && self.has_node(self.edges[i].1.end_id)
    }

    /// The store after removing the node `id` and every incident edge.
    pub open spec fn removed_node(self, id: usize) -> GraphModel {
        GraphModel {
            nodes: self.nodes.filter(node_keep(id)),
            edges: self.edges.filter(edge_keep_node(id)),
            node_id_counter: self.node_id_counter,
            edge_id_counter: self.edge_id_counter,
        }
    }

    /// The store after removing the edge `id`.
    pub open spec fn removed_edge(self, id: usize) -> GraphModel {
        GraphModel {
            nodes: self.nodes,
            edges: self.edges.filter(edge_keep_id(id)),
            node_id_counter: self.node_id_counter,
            edge_id_counter: self.edge_id_counter,
        }
    }
}

/// Law: identifiers are unique among live entries and never exceed the
/// counters, so an id minted after the counter advances is strictly greater
/// than every previously issued id.
pub proof fn lemma_id_uniqueness(m: GraphModel)
    requires
        m.wf(),
    ensures
        forall|i: int, j: int|
            0 <= i < m.nodes.len() && 0 <= j < m.nodes.len() && i != j ==> (
            #[trigger] m.nodes[i]).0 != (#[trigger] m.nodes[j]).0,
        forall|i: int, j: int|
            0 <= i < m.edges.len() && 0 <= j < m.edges.len() && i != j ==> (
            #[trigger] m.edges[i]).0 != (#[trigger] m.edges[j]).0,
        forall|i: int| 0 <= i < m.nodes.len() ==> (#[trigger] m.nodes[i]).0 <= m.node_id_counter,
        forall|i: int| 0 <= i < m.edges.len() ==> (#[trigger] m.edges[i]).0 <= m.edge_id_counter,
{
}

/// Law: the next ids the counters will mint are absent from the live
/// entries; with the counters only ever increasing, every fresh id is
/// strictly greater than all previously issued ids of its kind.
pub proof fn lemma_fresh_id_unused(m: GraphModel)
    requires
        m.wf(),
        m.node_id_counter < usize::MAX,
        m.edge_id_counter < usize::MAX,
    ensures
        !m.has_node((m.node_id_counter + 1) as usize),
        !m.has_edge((m.edge_id_counter + 1) as usize),
{
}

/// Law: after removing a node, the node is gone and no edge left in the
/// store references its id at either end.
pub proof fn lemma_referential_integrity(m: GraphModel, id: usize)
    ensures
        !m.removed_node(id).has_node(id),
        forall|i: int|
            0 <= i < m.removed_node(id).edges.len() ==> !(#[trigger] m.removed_node(
                id,
            ).edges[i]).1.touches(id),
{
    let keep_node = node_keep(id);
    let keep_edge = edge_keep_node(id);
    assert forall|i: int| 0 <= i < m.nodes.filter(keep_node).len() implies (
    #[trigger] m.nodes.filter(keep_node)[i]).0 != id by {
        m.nodes.lemma_filter_pred(keep_node, i);
    }
    assert forall|i: int| 0 <= i < m.edges.filter(keep_edge).len() implies !(
    #[trigger] m.edges.filter(keep_edge)[i]).1.touches(id) by {
        m.edges.lemma_filter_pred(keep_edge, i);
    }
}

/// Filtering an association sequence keeps it sorted by id, and every kept
/// entry comes from the source.
pub proof fn lemma_filter_sorted<T>(s: Seq<(usize, T)>, pred: spec_fn((usize, T)) -> bool)
    requires
        forall|i: int, j: int| 0 <= i < j < s.len() ==> (#[trigger] s[i]).0 < (#[trigger] s[j]).0,
    ensures
        forall|i: int, j: int|
            0 <= i < j < s.filter(pred).len() ==> (#[trigger] s.filter(pred)[i]).0 < (
            #[trigger] s.filter(pred)[j]).0,
        forall|i: int| 0 <= i < s.filter(pred).len() ==> s.contains(#[trigger] s.filter(pred)[i]),
    decreases s.len(),
{
    if s.len() == 0 {
        assert(s.filter(pred) =~= Seq::<(usize, T)>::empty()) by {
            s.lemma_filter_len(pred);
        }
    } else {
        let e = s.drop_last();
        assert(forall|i: int, j: int|
            0 <= i < j < e.len() ==> (#[trigger] e[i]).0 < (#[trigger] e[j]).0);
        lemma_filter_sorted(e, pred);
        Seq::lemma_filter_push(e, s.last(), pred);
        assert(e.push(s.last()) =~= s);
        let f = s.filter(pred);
        if pred(s.last()) {
            assert(f == e.filter(pred).push(s.last()));
            assert forall|i: int, j: int| 0 <= i < j < f.len() implies (#[trigger] f[i]).0 < (
            #[trigger] f[j]).0 by {
                if j < f.len() - 1 {
                    assert(f[i] == e.filter(pred)[i] && f[j] == e.filter(pred)[j]);
                } else {
                    assert(f[j] == s.last());
                    assert(f[i] == e.filter(pred)[i]);
                    assert(e.contains(f[i]));
                    let k = choose|k: int| 0 <= k < e.len() && e[k] == f[i];
                    assert(s[k] == e[k]);
                    assert(s[k].0 < s[s.len() - 1].0);
                }
            }
            assert forall|i: int| 0 <= i < f.len() implies s.contains(#[trigger] f[i]) by {
                if i < f.len() - 1 {
                    assert(f[i] == e.filter(pred)[i]);
                    assert(e.contains(f[i]));
                    let k = choose|k: int| 0 <= k < e.len() && e[k] == f[i];
                    assert(s[k] == f[i]);
                } else {
                    assert(f[i] == s.last());
                    assert(s[s.len() - 1] == s.last());
                }
            }
        } else {
            assert(f == e.filter(pred));
            assert forall|i: int| 0 <= i < f.len() implies s.contains(#[trigger] f[i]) by {
                assert(e.contains(f[i]));
                let k = choose|k: int| 0 <= k < e.len() && e[k] == f[i];
                assert(s[k] == f[i]);
            }
        }
    }
}

/// The default attributes a freshly created node carries: smallest size, red
/// circle, label matching the node size.
pub open spec fn default_node_model(position: Point, label: Seq<char>) -> NodeModel {
    NodeModel {
        position,
        size: MIN_NODE_SIZE,
        shape: crate::shape::NodeShape::Circle,
        color: crate::style::Color { r: 255, g: 0, b: 0, a: 255 },
        label,
        label_size_matches_node_size: true,
        label_size: crate::consts::MIN_NODE_LABEL_SIZE,
    }
}

/// The default attributes a freshly created edge carries: oriented, black,
/// unlabelled, thinnest width.
pub open spec fn default_edge_model(start_id: usize, end_id: usize) -> EdgeModel {
    EdgeModel {
        start_id,
        end_id,
        oriented: true,
        color: crate::style::Color { r: 0, g: 0, b: 0, a: 255 },
        label: Seq::<char>::empty(),
        label_size: crate::consts::MIN_EDGE_LABEL_SIZE,
        padding_x: 0,
        padding_y: 0,
        width: crate::consts::MIN_EDGE_WIDTH,
        loop_rotation_angle: crate::consts::MIN_LOOP_EDGE_ANGLE,
    }
}

/// The graph store. See [`GraphModel`] for its mathematical value and
/// invariant.
pub struct Graph {
    nodes: Vec<(NodeId, Node)>,
    edges: Vec<(EdgeId, Edge)>,
    node_id_counter: usize,
    edge_id_counter: usize,
}

impl View for Graph {
    type V = GraphModel;

    closed spec fn view(&self) -> GraphModel {
        GraphModel {
            nodes: self.nodes@.map_values(|p: (NodeId, Node)| ((p.0).0, p.1@)),
            edges: self.edges@.map_values(|p: (EdgeId, Edge)| ((p.0).0, p.1@)),
            node_id_counter: self.node_id_counter,
            edge_id_counter: self.edge_id_counter,
        }
    }
}

impl Graph {
    /// The empty graph with both counters at zero.
    pub fn new() -> (g: Graph)
        ensures
            g@.nodes =~= Seq::<(usize, NodeModel)>::empty(),
            g@.edges =~= Seq::<(usize, EdgeModel)>::empty(),
            g@.node_id_counter == 0,
            g@.edge_id_counter == 0,
            g@.wf(),
    {
        Graph { nodes: Vec::new(), edges: Vec::new(), node_id_counter: 0, edge_id_counter: 0 }
    }

    /// The node entries, in insertion order.
    pub fn nodes(&self) -> (r: &Vec<(NodeId, Node)>)
        ensures
            r@.len() == self@.nodes.len(),
            forall|i: int|
                0 <= i < r@.len() ==> ((#[trigger] r@[i]).0).0 == self@.nodes[i].0 && r@[i].1@
                    == self@.nodes[i].1,
    {
        &self.nodes
    }

    /// The edge entries, in insertion order.
    pub fn edges(&self) -> (r: &Vec<(EdgeId, Edge)>)
        ensures
            r@.len() == self@.edges.len(),
            forall|i: int|
                0 <= i < r@.len() ==> ((#[trigger] r@[i]).0).0 == self@.edges[i].0 && r@[i].1@
                    == self@.edges[i].1,
    {
        &self.edges
    }

    /// The node id counter: the largest node id ever issued.
    pub fn node_id_counter(&self) -> (r: usize)
        ensures
            r == self@.node_id_counter,
    {
        self.node_id_counter
    }

    /// The edge id counter: the largest edge id ever issued.
    pub fn edge_id_counter(&self) -> (r: usize)
        ensures
            r == self@.edge_id_counter,
    {
        self.edge_id_counter
    }

    /// Assembles a store from parts that already satisfy the invariant, as
    /// the persistence parser does after validating a document.
    pub fn from_parts(
        nodes: Vec<(NodeId, Node)>,
        edges: Vec<(EdgeId, Edge)>,
        node_id_counter: usize,
        edge_id_counter: usize,
    ) -> (g: Graph)
        ensures
            g@.nodes == nodes@.map_values(|p: (NodeId, Node)| ((p.0).0, p.1@)),
            g@.edges == edges@.map_values(|p: (EdgeId, Edge)| ((p.0).0, p.1@)),
            g@.node_id_counter == node_id_counter,
            g@.edge_id_counter == edge_id_counter,
    {
        Graph { nodes, edges, node_id_counter, edge_id_counter }
    }

    /// Looks a node up by id.
    pub fn node(&self, id: &NodeId) -> (r: Option<&Node>)
        ensures
            match r {
                Some(n) => self@.node_of(id.0) == Some(n@),
                None => self@.node_of(id.0) is None && !self@.has_node(id.0),
            },
    {
        let n = self.nodes.len();
        let mut i: usize = 0;
        while i < n
            invariant
                0 <= i <= n == self.nodes.len(),
                forall|j: int| 0 <= j < i ==> ((#[trigger] self.nodes@[j]).0).0 != id.0,
            decreases n - i,
        {
            if (self.nodes[i].0).0 == id.0 {
                proof {
                    lemma_find_skip(self@.nodes, id.0, i as int);
                    assert(self@.nodes.skip(i as int)[0] == self@.nodes[i as int]);
                }
                return Some(&self.nodes[i].1);
            }
            i = i + 1;
        }
        proof {
            lemma_find_skip(self@.nodes, id.0, n as int);
            assert(self@.nodes.skip(n as int) =~= Seq::<(usize, NodeModel)>::empty());
        }
        None
    }

    /// Looks an edge up by id.
    pub fn edge(&self, id: &EdgeId) -> (r: Option<&Edge>)
        ensures
            match r {
                Some(e) => self@.edge_of(id.0) == Some(e@),
                None => self@.edge_of(id.0) is None && !self@.has_edge(id.0),
            },
    {
        let n = self.edges.len();
        let mut i: usize = 0;
        while i < n
            invariant
                0 <= i <= n == self.edges.len(),
                forall|j: int| 0 <= j < i ==> ((#[trigger] self.edges@[j]).0).0 != id.0,
            decreases n - i,
        {
            if (self.edges[i].0).0 == id.0 {
                proof {
                    lemma_find_skip(self@.edges, id.0, i as int);
                    assert(self@.edges.skip(i as int)[0] == self@.edges[i as int]);
                }
                return Some(&self.edges[i].1);
            }
            i = i + 1;
        }
        proof {
            lemma_find_skip(self@.edges, id.0, n as int);
            assert(self@.edges.skip(n as int) =~= Seq::<(usize, EdgeModel)>::empty());
        }
        None
    }
}

/// Relies on rand::random_range: a uniform sample within the inclusive
/// range, which panics only on an empty range.
#[verifier::external_body]
fn random_offset_units(lo: i64, hi: i64) -> (r: i64)
    requires
        lo <= hi,
    ensures
        lo <= r <= hi,
{
    rand::random_range(lo..=hi)
}

impl Graph {
    /// Mints a fresh node id and inserts a default-styled node at the given
    /// position, labelled with the id's decimal text.
    pub fn add_node_with_position(&mut self, position: Point)
        requires
            old(self)@.node_id_counter < usize::MAX,
            unit_ok(position),
        ensures
            final(self)@.node_id_counter == old(self)@.node_id_counter + 1,
            final(self)@.edge_id_counter == old(self)@.edge_id_counter,
            final(self)@.edges == old(self)@.edges,
            final(self)@.nodes =~= old(self)@.nodes.push(
                (
                    (old(self)@.node_id_counter + 1) as usize,
                    default_node_model(
                        position,
                        enc_nat((old(self)@.node_id_counter + 1) as nat),
                    ),
                ),
            ),
            old(self)@.wf() ==> final(self)@.wf(),
    {
        self.node_id_counter = self.node_id_counter + 1;
        let node_id = self.node_id_counter;
        let new_node = Node::new(usize_string(node_id), position);
        self.nodes.push((NodeId(node_id), new_node));
        proof {
            crate::codec::lemma_enc_nat_len(node_id as nat);
            let m0 = old(self)@;
            let m1 = self@;
            assert(m1.nodes =~= m0.nodes.push(
                (node_id, default_node_model(position, enc_nat(node_id as nat))),
            ));
            assert(m1.edges =~= m0.edges);
            if m0.wf() {
                assert forall|i: int|
                    0 <= i < m1.edges.len() implies m1.has_node(
                    (#[trigger] m1.edges[i]).1.start_id,
                ) && m1.has_node(m1.edges[i].1.end_id) by {
                    assert(m0.edges[i] == m1.edges[i]);
                    let a = choose|k: int|
                        0 <= k < m0.nodes.len() && (#[trigger] m0.nodes[k]).0
                            == m0.edges[i].1.start_id;
                    assert(m1.nodes[a] == m0.nodes[a]);
                    let b = choose|k: int|
                        0 <= k < m0.nodes.len() && (#[trigger] m0.nodes[k]).0
                            == m0.edges[i].1.end_id;
                    assert(m1.nodes[b] == m0.nodes[b]);
                }
                assert(m1.wf());
            }
        }
    }

    /// Creates a node at the default anchor plus a random offset on each
    /// axis, as the interactive "new node" action does.
    pub fn add_node(&mut self)
        requires
            old(self)@.node_id_counter < usize::MAX,
        ensures
            final(self)@.node_id_counter == old(self)@.node_id_counter + 1,
            final(self)@.edge_id_counter == old(self)@.edge_id_counter,
            final(self)@.edges == old(self)@.edges,
            final(self)@.nodes.len() == old(self)@.nodes.len() + 1,
            forall|i: int|
                0 <= i < old(self)@.nodes.len() ==> final(self)@.nodes[i] == old(
                    self,
                )@.nodes[i],
            ({
                let entry = final(self)@.nodes.last();
                &&& entry.0 == old(self)@.node_id_counter + 1
                &&& entry.1 == default_node_model(entry.1.position, enc_nat(entry.0 as nat))
                &&& DEFAULT_NODE_X_POSITION + 2 * MIN_NODE_SIZE <= entry.1.position.x
                    <= DEFAULT_NODE_X_POSITION + 2 * MAX_NODE_SIZE
                &&& DEFAULT_NODE_Y_POSITION + 2 * MIN_NODE_SIZE <= entry.1.position.y
                    <= DEFAULT_NODE_Y_POSITION + 2 * MAX_NODE_SIZE
            }),
            old(self)@.wf() ==> final(self)@.wf(),
    {
        let ox = random_offset_units(2 * MIN_NODE_SIZE, 2 * MAX_NODE_SIZE);
        let oy = random_offset_units(2 * MIN_NODE_SIZE, 2 * MAX_NODE_SIZE);
        let position = Point {
            x: DEFAULT_NODE_X_POSITION + ox,
            y: DEFAULT_NODE_Y_POSITION + oy,
        };
        self.add_node_with_position(position);
    }

    /// Mints a fresh edge id and inserts a default-styled edge between the
    /// two (live) endpoint ids.
    pub fn add_edge(&mut self, start_id: NodeId, end_id: NodeId)
        requires
            old(self)@.edge_id_counter < usize::MAX,
            old(self)@.has_node(start_id.0),
            old(self)@.has_node(end_id.0),
        ensures
            final(self)@.edge_id_counter == old(self)@.edge_id_counter + 1,
            final(self)@.node_id_counter == old(self)@.node_id_counter,
            final(self)@.nodes == old(self)@.nodes,
            final(self)@.edges =~= old(self)@.edges.push(
                (
                    (old(self)@.edge_id_counter + 1) as usize,
                    default_edge_model(start_id.0, end_id.0),
                ),
            ),
            old(self)@.wf() ==> final(self)@.wf(),
    {
        self.edge_id_counter = self.edge_id_counter + 1;
        let edge_id = self.edge_id_counter;
        let new_edge = Edge::new(start_id, end_id);
        self.edges.push((EdgeId(edge_id), new_edge));
        proof {
            let m0 = old(self)@;
            let m1 = self@;
            assert(m1.edges =~= m0.edges.push(
                (edge_id, default_edge_model(start_id.0, end_id.0)),
            ));
            assert(m1.nodes =~= m0.nodes);
            if m0.wf() {
                assert forall|i: int|
                    0 <= i < m1.edges.len() implies m1.has_node(
                    (#[trigger] m1.edges[i]).1.start_id,
                ) && m1.has_node(m1.edges[i].1.end_id) by {
                    if i < m0.edges.len() {
                        assert(m1.edges[i] == m0.edges[i]);
                    } else {
                        assert(m1.edges[i].1 == default_edge_model(start_id.0, end_id.0));
                    }
                }
                assert(m1.wf());
            }
        }
    }

    /// Removes the node `id` and, in the same step, every edge that
    /// references it at either end; ids and counters are not reused.
    pub fn remove_node(&mut self, id: NodeId)
        ensures
            final(self)@.nodes =~= old(self)@.removed_node(id.0).nodes,
            final(self)@.edges =~= old(self)@.removed_node(id.0).edges,
            final(self)@.node_id_counter == old(self)@.node_id_counter,
            final(self)@.edge_id_counter == old(self)@.edge_id_counter,
            old(self)@.wf() ==> final(self)@.wf(),
    {
        let ghost m0 = self@;
        let mut kept_nodes: Vec<(NodeId, Node)> = Vec::new();
        let n = self.nodes.len();
        let mut i: usize = 0;
        while i < n
            invariant
                0 <= i <= n == self.nodes@.len(),
                self@ == m0,
                kept_nodes@.map_values(
                    |p: (NodeId, Node)| ((p.0).0, p.1@),
                ) =~= nodes_without(m0.nodes.take(i as int), id.0),
            decreases n - i,
        {
            proof {
                assert(m0.nodes.take(i + 1) =~= m0.nodes.take(i as int).push(
                    m0.nodes[i as int],
                ));
                Seq::lemma_filter_push(
                    m0.nodes.take(i as int),
                    m0.nodes[i as int],
                    node_keep(id.0),
                );
            }
            let entry = &self.nodes[i];
            if (entry.0).0 != id.0 {
                let copy = ((entry.0), (entry.1).clone());
                proof {
                    assert(copy.1@ == self.nodes@[i as int].1@);
                }
                kept_nodes.push(copy);
            }
            proof {
                assert(kept_nodes@.map_values(|p: (NodeId, Node)| ((p.0).0, p.1@))
                    =~= nodes_without(m0.nodes.take(i + 1), id.0));
            }
            i = i + 1;
        }
        proof {
            assert(m0.nodes.take(n as int) =~= m0.nodes);
        }
        self.nodes = kept_nodes;
        let ghost m_mid = self@;
        let mut kept_edges: Vec<(EdgeId, Edge)> = Vec::new();
        let ne = self.edges.len();
        let mut k: usize = 0;
        while k < ne
            invariant
                0 <= k <= ne == self.edges@.len(),
                self@ == m_mid,
                m_mid.edges == m0.edges,
                kept_edges@.map_values(
                    |p: (EdgeId, Edge)| ((p.0).0, p.1@),
                ) =~= edges_without_node(m0.edges.take(k as int), id.0),
            decreases ne - k,
        {
            proof {
                assert(m0.edges.take(k + 1) =~= m0.edges.take(k as int).push(
                    m0.edges[k as int],
                ));
                Seq::lemma_filter_push(
                    m0.edges.take(k as int),
                    m0.edges[k as int],
                    edge_keep_node(id.0),
                );
            }
            let entry = &self.edges[k];
            if !((entry.1.start_id).0 == id.0 || (entry.1.end_id).0 == id.0) {
                let copy = ((entry.0), (entry.1).clone());
                proof {
                    assert(copy.1@ == self.edges@[k as int].1@);
                }
                kept_edges.push(copy);
            }
            proof {
                assert(kept_edges@.map_values(|p: (EdgeId, Edge)| ((p.0).0, p.1@))
                    =~= edges_without_node(m0.edges.take(k + 1), id.0));
            }
            k = k + 1;
        }
        proof {
            assert(m0.edges.take(ne as int) =~= m0.edges);
        }
        self.edges = kept_edges;
        proof {
            let m1 = self@;
            if m0.wf() {
                lemma_filter_sorted(m0.nodes, node_keep(id.0));
                lemma_filter_sorted(m0.edges, edge_keep_node(id.0));
                assert forall|i2: int|
                    0 <= i2 < m1.nodes.len() implies 1 <= (#[trigger] m1.nodes[i2]).0
                    <= m1.node_id_counter && m1.nodes[i2].1.attrs_ok() by {
                    assert(m0.nodes.contains(m1.nodes[i2]));
                    let j = choose|j: int|
                        0 <= j < m0.nodes.len() && m0.nodes[j] == m1.nodes[i2];
                }
                assert forall|i2: int|
                    0 <= i2 < m1.edges.len() implies 1 <= (#[trigger] m1.edges[i2]).0
                    <= m1.edge_id_counter && m1.edges[i2].1.attrs_ok() && m1.has_node(
                    m1.edges[i2].1.start_id,
                ) && m1.has_node(m1.edges[i2].1.end_id) by {
                    assert(m0.edges.contains(m1.edges[i2]));
                    let j = choose|j: int|
                        0 <= j < m0.edges.len() && m0.edges[j] == m1.edges[i2];
                    m0.edges.lemma_filter_pred(edge_keep_node(id.0), i2);
                    let sa = m1.edges[i2].1.start_id;
                    let sb = m1.edges[i2].1.end_id;
                    let a = choose|a: int|
                        0 <= a < m0.nodes.len() && (#[trigger] m0.nodes[a]).0 == sa;
                    m0.nodes.lemma_filter_contains(node_keep(id.0), a);
                    assert(m1.nodes.contains(m0.nodes[a]));
                    let a2 = choose|a2: int|
                        0 <= a2 < m1.nodes.len() && m1.nodes[a2] == m0.nodes[a];
                    let b = choose|b: int|
                        0 <= b < m0.nodes.len() && (#[trigger] m0.nodes[b]).0 == sb;
                    m0.nodes.lemma_filter_contains(node_keep(id.0), b);
                    assert(m1.nodes.contains(m0.nodes[b]));
                    let b2 = choose|b2: int|
                        0 <= b2 < m1.nodes.len() && m1.nodes[b2] == m0.nodes[b];
                }
                assert(m1.wf());
            }
        }
    }

    /// Removes the edge `id`, leaving nodes and counters untouched.
    pub fn remove_edge(&mut self, id: EdgeId)
        ensures
            final(self)@.nodes == old(self)@.nodes,
            final(self)@.edges =~= old(self)@.removed_edge(id.0).edges,
            final(self)@.node_id_counter == old(self)@.node_id_counter,
            final(self)@.edge_id_counter == old(self)@.edge_id_counter,
            old(self)@.wf() ==> final(self)@.wf(),
    {
        let ghost m0 = self@;
        let mut kept_edges: Vec<(EdgeId, Edge)> = Vec::new();
        let ne = self.edges.len();
        let mut k: usize = 0;
        while k < ne
            invariant
                0 <= k <= ne == self.edges@.len(),
                self@ == m0,
                kept_edges@.map_values(
                    |p: (EdgeId, Edge)| ((p.0).0, p.1@),
                ) =~= edges_without(m0.edges.take(k as int), id.0),
            decreases ne - k,
        {
            proof {
                assert(m0.edges.take(k + 1) =~= m0.edges.take(k as int).push(
                    m0.edges[k as int],
                ));
                Seq::lemma_filter_push(
                    m0.edges.take(k as int),
                    m0.edges[k as int],
                    edge_keep_id(id.0),
                );
            }
            let entry = &self.edges[k];
            if (entry.0).0 != id.0 {
                let copy = ((entry.0), (entry.1).clone());
                proof {
                    assert(copy.1@ == self.edges@[k as int].1@);
                }
                kept_edges.push(copy);
            }
            proof {
                assert(kept_edges@.map_values(|p: (EdgeId, Edge)| ((p.0).0, p.1@))
                    =~= edges_without(m0.edges.take(k + 1), id.0));
            }
            k = k + 1;
        }
        proof {
            assert(m0.edges.take(ne as int) =~= m0.edges);
        }
        self.edges = kept_edges;
        proof {
            let m1 = self@;
            if m0.wf() {
                lemma_filter_sorted(m0.edges, edge_keep_id(id.0));
                assert(m1.nodes =~= m0.nodes);
                assert(m1.edges =~= m0.edges.filter(edge_keep_id(id.0)));
                assert forall|i2: int|
                    0 <= i2 < m1.edges.len() implies 1 <= (#[trigger] m1.edges[i2]).0
                    <= m1.edge_id_counter && m1.edges[i2].1.attrs_ok() && m1.has_node(
                    m1.edges[i2].1.start_id,
                ) && m1.has_node(m1.edges[i2].1.end_id) by {
                    assert(m0.edges.contains(m1.edges[i2]));
                    let j = choose|j: int|
                        0 <= j < m0.edges.len() && m0.edges[j] == m1.edges[i2];
                    assert(m1.nodes =~= m0.nodes);
                    let sa = m1.edges[i2].1.start_id;
                    let sb = m1.edges[i2].1.end_id;
                    let a = choose|a: int|
                        0 <= a < m0.nodes.len() && (#[trigger] m0.nodes[a]).0 == sa;
                    assert(m1.nodes[a] == m0.nodes[a]);
                    let b = choose|b: int|
                        0 <= b < m0.nodes.len() && (#[trigger] m0.nodes[b]).0 == sb;
                    assert(m1.nodes[b] == m0.nodes[b]);
                }
                assert(m1.wf());
            }
        }
    }
}

impl Graph {
    /// Replaces the attributes of the first (under the invariant: only)
    /// entry of node `id`; returns whether such a node exists.
    pub fn replace_node(&mut self, id: NodeId, node: Node) -> (r: bool)
        ensures
            r == old(self)@.has_node(id.0),
            final(self)@.edges == old(self)@.edges,
            final(self)@.node_id_counter == old(self)@.node_id_counter,
            final(self)@.edge_id_counter == old(self)@.edge_id_counter,
            !r ==> final(self)@.nodes == old(self)@.nodes,
            r ==> exists|k: int|
                0 <= k < old(self)@.nodes.len() && (#[trigger] old(self)@.nodes[k]).0 == id.0
                    && final(self)@.nodes =~= old(self)@.nodes.update(k, (id.0, node@)),
            old(self)@.wf() && node@.attrs_ok() ==> final(self)@.wf(),
    {
        let ghost m0 = self@;
        let n = self.nodes.len();
        let mut i: usize = 0;
        while i < n
            invariant
                0 <= i <= n == self.nodes@.len(),
                self@ == m0,
                old(self)@ == m0,
                forall|j: int| 0 <= j < i ==> ((#[trigger] self.nodes@[j]).0).0 != id.0,
            decreases n - i,
        {
            if (self.nodes[i].0).0 == id.0 {
                proof {
                    assert((m0.nodes[i as int]).0 == id.0);
                    assert(m0.has_node(id.0));
                }
                self.nodes[i] = (id, node);
                proof {
                    let m1 = self@;
                    assert(m1.edges =~= m0.edges);
                    assert(m1.nodes =~= m0.nodes.update(i as int, (id.0, node@)));
                    if m0.wf() && node@.attrs_ok() {
                        lemma_wf_after_update_node(m0, m1, i as int, id.0, node@);
                    }
                }
                return true;
            }
            i = i + 1;
        }
        proof {
            assert(!m0.has_node(id.0));
        }
        false
    }

    /// Replaces the attributes of the first (under the invariant: only)
    /// entry of edge `id`; returns whether such an edge exists.
    pub fn replace_edge(&mut self, id: EdgeId, edge: Edge) -> (r: bool)
        ensures
            r == old(self)@.has_edge(id.0),
            final(self)@.nodes == old(self)@.nodes,
            final(self)@.node_id_counter == old(self)@.node_id_counter,
            final(self)@.edge_id_counter == old(self)@.edge_id_counter,
            !r ==> final(self)@.edges == old(self)@.edges,
            r ==> exists|k: int|
                0 <= k < old(self)@.edges.len() && (#[trigger] old(self)@.edges[k]).0 == id.0
                    && final(self)@.edges =~= old(self)@.edges.update(k, (id.0, edge@)),
            old(self)@.wf() && edge@.attrs_ok() && old(self)@.has_node(edge@.start_id) && old(
                self,
            )@.has_node(edge@.end_id) ==> final(self)@.wf(),
    {
        let ghost m0 = self@;
        let n = self.edges.len();
        let mut i: usize = 0;
        while i < n
            invariant
                0 <= i <= n == self.edges@.len(),
                self@ == m0,
                old(self)@ == m0,
                forall|j: int| 0 <= j < i ==> ((#[trigger] self.edges@[j]).0).0 != id.0,
            decreases n - i,
        {
            if (self.edges[i].0).0 == id.0 {
                proof {
                    assert((m0.edges[i as int]).0 == id.0);
                    assert(m0.has_edge(id.0));
                }
                self.edges[i] = (id, edge);
                proof {
                    let m1 = self@;
                    assert(m1.nodes =~= m0.nodes);
                    assert(m1.edges =~= m0.edges.update(i as int, (id.0, edge@)));
                    if m0.wf() && edge@.attrs_ok() && m0.has_node(edge@.start_id) && m0.has_node(
                        edge@.end_id,
                    ) {
                        lemma_wf_after_update_edge(m0, m1, i as int, id.0, edge@);
                    }
                }
                return true;
            }
            i = i + 1;
        }
        proof {
            assert(!m0.has_edge(id.0));
        }
        false
    }
}

/// Updating one node's attributes in place, id unchanged, preserves the
/// store invariant.
proof fn lemma_wf_after_update_node(m0: GraphModel, m1: GraphModel, k: int, id: usize, n: NodeModel)
    requires
        m0.wf(),
        n.attrs_ok(),
        0 <= k < m0.nodes.len(),
        m0.nodes[k].0 == id,
        m1.nodes == m0.nodes.update(k, (id, n)),
        m1.edges == m0.edges,
        m1.node_id_counter == m0.node_id_counter,
        m1.edge_id_counter == m0.edge_id_counter,
    ensures
        m1.wf(),
{
    assert(m1.nodes.len() == m0.nodes.len());
    assert(forall|i: int|
        0 <= i < m1.nodes.len() ==> (#[trigger] m1.nodes[i]).0 == m0.nodes[i].0);
    assert forall|i: int|
        0 <= i < m1.edges.len() implies m1.has_node((#[trigger] m1.edges[i]).1.start_id)
        && m1.has_node(m1.edges[i].1.end_id) by {
        assert(m1.edges[i] == m0.edges[i]);
        let a = choose|a: int|
            0 <= a < m0.nodes.len() && (#[trigger] m0.nodes[a]).0 == m0.edges[i].1.start_id;
        assert(m1.nodes[a].0 == m0.nodes[a].0);
        let b = choose|b: int|
            0 <= b < m0.nodes.len() && (#[trigger] m0.nodes[b]).0 == m0.edges[i].1.end_id;
        assert(m1.nodes[b].0 == m0.nodes[b].0);
    }
}

/// Updating one edge's attributes in place, id unchanged and endpoints
/// live, preserves the store invariant.
proof fn lemma_wf_after_update_edge(m0: GraphModel, m1: GraphModel, k: int, id: usize, e: EdgeModel)
    requires
        m0.wf(),
        e.attrs_ok(),
        m0.has_node(e.start_id),
        m0.has_node(e.end_id),
        0 <= k < m0.edges.len(),
        m0.edges[k].0 == id,
        m1.edges == m0.edges.update(k, (id, e)),
        m1.nodes == m0.nodes,
        m1.node_id_counter == m0.node_id_counter,
        m1.edge_id_counter == m0.edge_id_counter,
    ensures
        m1.wf(),
{
    assert(m1.edges.len() == m0.edges.len());
    assert(forall|i: int|
        0 <= i < m1.edges.len() ==> (#[trigger] m1.edges[i]).0 == m0.edges[i].0);
    assert forall|i: int|
        0 <= i < m1.edges.len() implies m1.has_node((#[trigger] m1.edges[i]).1.start_id)
        && m1.has_node(m1.edges[i].1.end_id) && m1.edges[i].1.attrs_ok() by {
        if i != k {
            assert(m1.edges[i] == m0.edges[i]);
        }
    }
}

/// The association sequence without the entry keyed `id`.
pub open spec fn nodes_without(s: Seq<(usize, NodeModel)>, id: usize) -> Seq<(usize, NodeModel)> {
    s.filter(node_keep(id))
}

/// The edge entries without those keyed `id`.
pub open spec fn edges_without(s: Seq<(usize, EdgeModel)>, id: usize) -> Seq<(usize, EdgeModel)> {
    s.filter(edge_keep_id(id))
}

/// The edge entries without those touching the node `id`.
pub open spec fn edges_without_node(s: Seq<(usize, EdgeModel)>, id: usize) -> Seq<(
    usize,
    EdgeModel,
)> {
    s.filter(edge_keep_node(id))
}

} // verus!
