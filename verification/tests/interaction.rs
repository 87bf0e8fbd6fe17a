use graph_editor::comments::CommentLine;
use graph_editor::consts::MIN_NODE_LABEL_SIZE;
use graph_editor::geom::{Point, Rect};
use graph_editor::ids::NodeId;
use graph_editor::node::Node;
use graph_editor::shape::NodeShape;
use graph_editor::style::{Color, StrokeStyle};
use graph_editor::workspace::{bounds_constraint_correction, GraphWorkspace, PointerInput};

fn small_node(x: i64, y: i64, label: &str) -> Node {
    Node {
        position: Point { x, y },
        size: 10,
        shape: NodeShape::Circle,
        color: Color::red(),
        label: String::from(label),
        label_size_matches_node_size: true,
        label_size: MIN_NODE_LABEL_SIZE,
    }
}

fn secondary_click(x: i64, y: i64) -> PointerInput {
    PointerInput {
        interact_pos: Some(Point { x, y }),
        hover_pos: Some(Point { x, y }),
        secondary_clicked: true,
        escape_pressed: false,
    }
}

fn escape_input() -> PointerInput {
    PointerInput {
        interact_pos: None,
        hover_pos: None,
        secondary_clicked: false,
        escape_pressed: true,
    }
}

/// Two nodes A (id 1) at (0,0) and B (id 2) at (100,0), both radius 10.
fn two_node_workspace() -> GraphWorkspace {
    let mut ws = GraphWorkspace::new();
    ws.add_node();
    ws.add_node();
    assert!(ws.replace_node(NodeId(1), small_node(0, 0, "A")));
    assert!(ws.replace_node(NodeId(2), small_node(100, 0, "B")));
    ws
}

#[test]
fn edge_creation_gesture_commits_edge() {
    let mut ws = two_node_workspace();
    let click_a = secondary_click(0, 0);
    let created = ws.handle_edge_creation(click_a);
    assert!(!created);
    ws.handle_setting_edge_start(click_a);
    assert_eq!(ws.new_edge_start(), Some(NodeId(1)));

    let click_b = secondary_click(100, 0);
    let created = ws.handle_edge_creation(click_b);
    assert!(created);
    assert_eq!(ws.new_edge_start(), None);
    let edges = ws.graph().edges();
    assert_eq!(edges.len(), 1);
    assert_eq!(edges[0].1.start_id, NodeId(1));
    assert_eq!(edges[0].1.end_id, NodeId(2));
}

#[test]
fn edge_creation_gesture_escape_cancels() {
    let mut ws = two_node_workspace();
    ws.handle_setting_edge_start(secondary_click(0, 0));
    assert_eq!(ws.new_edge_start(), Some(NodeId(1)));
    let created = ws.handle_edge_creation(escape_input());
    assert!(!created);
    assert_eq!(ws.new_edge_start(), None);
    assert_eq!(ws.graph().edges().len(), 0);
}

#[test]
fn edge_creation_on_start_node_makes_loop() {
    let mut ws = two_node_workspace();
    ws.handle_setting_edge_start(secondary_click(0, 0));
    let created = ws.handle_edge_creation(secondary_click(0, 0));
    assert!(created);
    let edges = ws.graph().edges();
    assert_eq!(edges.len(), 1);
    assert!(edges[0].1.is_loop());
}

#[test]
fn drag_clamps_to_canvas_bounds() {
    let bounds = Rect { min: Point { x: 0, y: 0 }, max: Point { x: 200, y: 200 } };
    let corrected = bounds_constraint_correction(10, Point { x: 500, y: 500 }, bounds);
    assert_eq!(corrected, Point { x: 190, y: 190 });
    let inside = bounds_constraint_correction(10, Point { x: 60, y: 70 }, bounds);
    assert_eq!(inside, Point { x: 60, y: 70 });
    let low = bounds_constraint_correction(10, Point { x: -50, y: 5 }, bounds);
    assert_eq!(low, Point { x: 10, y: 10 });
}

#[test]
fn drag_moves_node_to_clamped_position() {
    let mut ws = two_node_workspace();
    assert!(ws.replace_node(NodeId(1), small_node(100, 100, "A")));
    ws.set_dragging_node(Some(NodeId(1)));
    let bounds = Rect { min: Point { x: 0, y: 0 }, max: Point { x: 200, y: 200 } };
    let input = PointerInput {
        interact_pos: Some(Point { x: 500, y: 500 }),
        hover_pos: None,
        secondary_clicked: false,
        escape_pressed: false,
    };
    ws.handle_node_draging(input, bounds);
    let node = ws.node(&NodeId(1)).unwrap();
    assert_eq!(node.position, Point { x: 190, y: 190 });
}

#[test]
fn drag_release_clears_dragging() {
    let mut ws = two_node_workspace();
    ws.set_dragging_node(Some(NodeId(1)));
    let bounds = Rect { min: Point { x: 0, y: 0 }, max: Point { x: 200, y: 200 } };
    let release = PointerInput {
        interact_pos: None,
        hover_pos: None,
        secondary_clicked: false,
        escape_pressed: false,
    };
    ws.handle_node_draging(release, bounds);
    assert_eq!(ws.dragging_node(), None);
}

#[test]
fn selection_keeps_previous_on_empty_canvas_click() {
    let mut ws = two_node_workspace();
    let click_a = PointerInput {
        interact_pos: Some(Point { x: 0, y: 0 }),
        hover_pos: None,
        secondary_clicked: false,
        escape_pressed: false,
    };
    ws.handle_node_selection(click_a);
    assert_eq!(ws.selected_node_id(), Some(NodeId(1)));
    let click_empty = PointerInput {
        interact_pos: Some(Point { x: 50, y: 50 }),
        hover_pos: None,
        secondary_clicked: false,
        escape_pressed: false,
    };
    ws.handle_node_selection(click_empty);
    assert_eq!(ws.selected_node_id(), Some(NodeId(1)));
}

#[test]
fn remove_node_cascades_and_clears_slots() {
    let mut ws = two_node_workspace();
    ws.add_edge(NodeId(1), NodeId(2));
    ws.add_edge(NodeId(2), NodeId(2));
    ws.set_selected_node_id(Some(NodeId(2)));
    ws.set_dragging_node(Some(NodeId(2)));
    ws.remove_node(NodeId(2));
    assert_eq!(ws.selected_node_id(), None);
    assert_eq!(ws.dragging_node(), None);
    let edges = ws.graph().edges();
    assert_eq!(edges.len(), 0);
    let nodes = ws.graph().nodes();
    assert_eq!(nodes.len(), 1);
    assert_eq!(nodes[0].0, NodeId(1));
}

#[test]
fn node_ids_are_unique_and_monotone() {
    let mut ws = GraphWorkspace::new();
    ws.add_node();
    ws.add_node();
    ws.add_node();
    ws.remove_node(NodeId(2));
    ws.add_node();
    let nodes = ws.graph().nodes();
    let ids: Vec<usize> = nodes.iter().map(|p| p.0.0).collect();
    assert_eq!(ids, vec![1, 3, 4]);
    for i in 0..ids.len() {
        for j in 0..ids.len() {
            if i != j {
                assert_ne!(ids[i], ids[j]);
            }
        }
    }
    assert_eq!(ws.graph().node_id_counter(), 4);
}

#[test]
fn toggle_edge_selection_flips() {
    let mut ws = two_node_workspace();
    ws.add_edge(NodeId(1), NodeId(2));
    let eid = ws.edges_ids()[0];
    ws.toggle_edge_selection(eid);
    assert_eq!(ws.selected_edge_id(), Some(eid));
    ws.toggle_edge_selection(eid);
    assert_eq!(ws.selected_edge_id(), None);
}

#[test]
fn edge_nodes_resolves_both_endpoints() {
    let mut ws = two_node_workspace();
    ws.add_edge(NodeId(1), NodeId(2));
    let eid = ws.edges_ids()[0];
    let (a, b) = ws.edge_nodes(&eid).unwrap();
    assert_eq!(a.label, "A");
    assert_eq!(b.label, "B");
}

#[test]
fn erase_hit_test_detects_crossing_stroke() {
    let line = CommentLine {
        points: vec![Point { x: 0, y: 0 }, Point { x: 100, y: 100 }],
        stroke: StrokeStyle::thin_black(),
    };
    let near = Rect { min: Point { x: 45, y: 45 }, max: Point { x: 55, y: 55 } };
    assert!(line.is_intersect_square(near));
    let far = Rect { min: Point { x: 995, y: 995 }, max: Point { x: 1005, y: 1005 } };
    assert!(!line.is_intersect_square(far));
}

#[test]
fn comment_draw_records_points_and_skips_duplicates() {
    let mut ws = GraphWorkspace::new();
    let stroke = StrokeStyle { width: 2, color: Color::black() };
    ws.handle_comment_draw(Some(Point { x: 0, y: 0 }), stroke);
    ws.handle_comment_draw(Some(Point { x: 10, y: 10 }), stroke);
    ws.handle_comment_draw(Some(Point { x: 10, y: 10 }), stroke);
    let lines = ws.comment_lines().lines();
    assert_eq!(lines.len(), 1);
    assert_eq!(lines[0].1.points, vec![Point { x: 0, y: 0 }, Point { x: 10, y: 10 }]);
    ws.handle_comment_draw(None, stroke);
    assert_eq!(ws.comment_lines().lines().len(), 2);
    assert!(ws.comment_lines().lines()[1].1.points.is_empty());
}

#[test]
fn comment_erase_removes_first_hit_stroke() {
    let mut ws = GraphWorkspace::new();
    let stroke = StrokeStyle::thin_black();
    ws.handle_comment_draw(Some(Point { x: 0, y: 0 }), stroke);
    ws.handle_comment_draw(Some(Point { x: 100, y: 100 }), stroke);
    assert_eq!(ws.comment_lines().lines().len(), 1);
    ws.handle_comment_erase(Some(Point { x: 50, y: 50 }));
    assert_eq!(ws.comment_lines().lines().len(), 0);
    ws.handle_comment_erase(Some(Point { x: 50, y: 50 }));
    assert_eq!(ws.comment_lines().lines().len(), 0);
}

#[test]
fn frame_commits_edge_without_rearming() {
    let bounds = Rect { min: Point { x: -1000, y: -1000 }, max: Point { x: 1000, y: 1000 } };
    let release = PointerInput {
        interact_pos: None,
        hover_pos: None,
        secondary_clicked: false,
        escape_pressed: false,
    };
    let mut ws = two_node_workspace();
    ws.handle_graph_interactions(secondary_click(0, 0), bounds);
    assert_eq!(ws.new_edge_start(), Some(NodeId(1)));
    assert_eq!(ws.graph().edges().len(), 0);
    // releasing the pointer between the two clicks ends the drag pick-up
    ws.handle_graph_interactions(release, bounds);
    assert_eq!(ws.dragging_node(), None);
    ws.handle_graph_interactions(secondary_click(100, 0), bounds);
    // the committing click appends the edge and leaves the gesture disarmed
    let edges = ws.graph().edges();
    assert_eq!(edges.len(), 1);
    assert_eq!(edges[0].1.start_id, NodeId(1));
    assert_eq!(edges[0].1.end_id, NodeId(2));
    assert_eq!(ws.new_edge_start(), None);
    // the frame also ran selection: the clicked node is selected
    assert_eq!(ws.selected_node_id(), Some(NodeId(2)));
}
