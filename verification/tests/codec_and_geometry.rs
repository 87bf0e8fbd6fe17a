use graph_editor::codec::{graph_string, parse_graph_str, parse_i64, parse_u64, usize_string};
use graph_editor::edge::Edge;
use graph_editor::error::GraphEditorError;
use graph_editor::geom::{
    circle_border_point, intersect_rect_edge, isqrt, orientation, project_to_square_edge,
    rect_contains, rotate_cirlce_border_point, segments_intersect, Orientation, Point, Rect,
    Rotation,
};
use graph_editor::graph::Graph;
use graph_editor::ids::{EdgeId, NodeId};
use graph_editor::layout::{arrow_points, assign_shifts, circle_loop_layout, edge_control_point,
    edge_layout, loop_layout, quad_curve_midpoint, DIR_SCALE};
use graph_editor::node::Node;
use graph_editor::panels::{CommentsEditor, EdgeEditor, EdgesTable, NodeEditor};
use graph_editor::shape::NodeShape;
use graph_editor::style::Color;
use graph_editor::toast::{Toast, ToastVariant};

fn sample_graph() -> Graph {
    let mut g = Graph::new();
    g.add_node_with_position(Point { x: 10, y: 20 });
    g.add_node_with_position(Point { x: -5, y: 7 });
    g.add_node_with_position(Point { x: 400, y: 300 });
    g.remove_node(NodeId(3));
    let fancy = Node {
        position: Point { x: -31, y: 64 },
        size: 77,
        shape: NodeShape::Square,
        color: Color { r: 12, g: 200, b: 3, a: 255 },
        label: String::from("h\u{00e9}llo \u{03b2}"),
        label_size_matches_node_size: false,
        label_size: 33,
    };
    assert!(g.replace_node(NodeId(2), fancy));
    g.add_edge(NodeId(1), NodeId(2));
    g.add_edge(NodeId(2), NodeId(2));
    let mut styled = Edge::new(NodeId(2), NodeId(2));
    styled.oriented = false;
    styled.color = Color { r: 9, g: 8, b: 7, a: 6 };
    styled.label = String::from("ed ge:1\nnext");
    styled.label_size = 14;
    styled.padding_x = -100;
    styled.padding_y = 42;
    styled.width = 3;
    styled.loop_rotation_angle = 45;
    assert!(g.replace_edge(EdgeId(2), styled));
    g
}

#[test]
fn round_trip_preserves_graph() {
    let g = sample_graph();
    let doc = graph_string(&g);
    let back = parse_graph_str(doc.as_str()).expect("canonical document must parse");
    assert_eq!(back.node_id_counter(), g.node_id_counter());
    assert_eq!(back.edge_id_counter(), g.edge_id_counter());
    let (n1, n2) = (g.nodes(), back.nodes());
    assert_eq!(n1.len(), n2.len());
    for i in 0..n1.len() {
        assert_eq!(n1[i].0, n2[i].0);
        assert_eq!(n1[i].1.position, n2[i].1.position);
        assert_eq!(n1[i].1.size, n2[i].1.size);
        assert_eq!(n1[i].1.shape, n2[i].1.shape);
        assert_eq!(n1[i].1.color, n2[i].1.color);
        assert_eq!(n1[i].1.label, n2[i].1.label);
        assert_eq!(
            n1[i].1.label_size_matches_node_size,
            n2[i].1.label_size_matches_node_size
        );
        assert_eq!(n1[i].1.label_size, n2[i].1.label_size);
    }
    let (e1, e2) = (g.edges(), back.edges());
    assert_eq!(e1.len(), e2.len());
    for i in 0..e1.len() {
        assert_eq!(e1[i].0, e2[i].0);
        assert_eq!(e1[i].1.start_id, e2[i].1.start_id);
        assert_eq!(e1[i].1.end_id, e2[i].1.end_id);
        assert_eq!(e1[i].1.oriented, e2[i].1.oriented);
        assert_eq!(e1[i].1.color, e2[i].1.color);
        assert_eq!(e1[i].1.label, e2[i].1.label);
        assert_eq!(e1[i].1.label_size, e2[i].1.label_size);
        assert_eq!(e1[i].1.padding_x, e2[i].1.padding_x);
        assert_eq!(e1[i].1.padding_y, e2[i].1.padding_y);
        assert_eq!(e1[i].1.width, e2[i].1.width);
        assert_eq!(e1[i].1.loop_rotation_angle, e2[i].1.loop_rotation_angle);
    }
}

#[test]
fn malformed_documents_are_rejected() {
    assert!(matches!(parse_graph_str(""), Err(GraphEditorError::FailedOpenFile)));
    assert!(matches!(parse_graph_str("hello"), Err(GraphEditorError::FailedOpenFile)));
    // a record count that promises more nodes than the document holds
    assert!(matches!(parse_graph_str("1 0 1 0\n"), Err(GraphEditorError::FailedOpenFile)));
    // trailing garbage after a valid empty document
    assert!(matches!(parse_graph_str("0 0 0 0\n "), Err(GraphEditorError::FailedOpenFile)));
    // a well-formed empty document parses
    let g = parse_graph_str("0 0 0 0\n").expect("empty document");
    assert_eq!(g.nodes().len(), 0);
    assert_eq!(g.edges().len(), 0);
}

#[test]
fn decimal_codec_is_canonical() {
    assert_eq!(usize_string(0), "0");
    assert_eq!(usize_string(12345), "12345");
    assert_eq!(parse_u64("123 ", 0), Some((123, 3)));
    assert_eq!(parse_u64("00", 0), None);
    assert_eq!(parse_u64("x12", 0), None);
    assert_eq!(parse_i64("-42x", 0), Some((-42, 3)));
    assert_eq!(parse_i64("-0 ", 0), None);
}

#[test]
fn default_node_label_is_its_id() {
    let mut g = Graph::new();
    g.add_node_with_position(Point { x: 0, y: 0 });
    assert_eq!(g.nodes()[0].1.label, "1");
}

#[test]
fn circle_border_point_lies_on_circle() {
    let bp = circle_border_point(Point { x: 0, y: 0 }, 5, Point { x: 3, y: 4 });
    assert_eq!(bp, Point { x: 3, y: 4 });
    let dx = bp.x;
    let dy = bp.y;
    assert_eq!(dx * dx + dy * dy, 25);
    let east = circle_border_point(Point { x: 10, y: 10 }, 7, Point { x: 1, y: 0 });
    assert_eq!(east, Point { x: 17, y: 10 });
    // the zero direction falls back to due east
    let fallback = circle_border_point(Point { x: 2, y: 3 }, 4, Point { x: 0, y: 0 });
    assert_eq!(fallback, Point { x: 6, y: 3 });
}

#[test]
fn square_border_point_reaches_the_edge() {
    let corner = intersect_rect_edge(Point { x: 0, y: 0 }, 10, Point { x: 1, y: 1 });
    assert_eq!(corner, Point { x: 10, y: 10 });
    let east = intersect_rect_edge(Point { x: 0, y: 0 }, 10, Point { x: 2, y: 1 });
    assert_eq!(east, Point { x: 10, y: 5 });
    let proj = project_to_square_edge(Point { x: 3, y: 4 }, Point { x: 0, y: 0 }, 5);
    assert_eq!(proj, Point { x: 3, y: 5 });
}

#[test]
fn rotation_by_theta_then_minus_theta_is_identity() {
    let rot = Rotation { cos: 3, sin: 4, scale: 5 };
    let center = Point { x: 0, y: 0 };
    let p = Point { x: 5, y: 0 };
    let turned = rotate_cirlce_border_point(p, center, rot);
    assert_eq!(turned, Point { x: 3, y: 4 });
    let back = rotate_cirlce_border_point(turned, center, rot.inverse());
    assert_eq!(back, p);
    // the same closure holds away from the origin
    let center2 = Point { x: 100, y: -40 };
    let p2 = Point { x: 100, y: -30 };
    let t2 = rotate_cirlce_border_point(p2, center2, rot);
    let b2 = rotate_cirlce_border_point(t2, center2, rot.inverse());
    assert_eq!(b2, p2);
}

#[test]
fn fan_out_shifts_are_symmetric() {
    let mut g = Graph::new();
    g.add_node_with_position(Point { x: 0, y: 0 });
    g.add_node_with_position(Point { x: 100, y: 0 });
    g.add_edge(NodeId(1), NodeId(2));
    g.add_edge(NodeId(2), NodeId(1));
    g.add_edge(NodeId(1), NodeId(2));
    g.add_edge(NodeId(2), NodeId(1));
    let shifts: Vec<i64> = assign_shifts(g.edges()).iter().map(|p| p.1).collect();
    assert_eq!(shifts, vec![-2, -1, 1, 2]);

    let mut g3 = Graph::new();
    g3.add_node_with_position(Point { x: 0, y: 0 });
    g3.add_node_with_position(Point { x: 100, y: 0 });
    g3.add_edge(NodeId(1), NodeId(2));
    g3.add_edge(NodeId(1), NodeId(2));
    g3.add_edge(NodeId(2), NodeId(1));
    let shifts3: Vec<i64> = assign_shifts(g3.edges()).iter().map(|p| p.1).collect();
    assert_eq!(shifts3, vec![-1, 0, 1]);
}

#[test]
fn self_loops_take_distinct_levels_and_controls() {
    let mut g = Graph::new();
    g.add_node_with_position(Point { x: 50, y: 50 });
    g.add_edge(NodeId(1), NodeId(1));
    g.add_edge(NodeId(1), NodeId(1));
    g.add_edge(NodeId(1), NodeId(1));
    let shifts: Vec<i64> = assign_shifts(g.edges()).iter().map(|p| p.1).collect();
    assert_eq!(shifts, vec![0, 1, 2]);
    let center = Point { x: 50, y: 50 };
    let l0 = circle_loop_layout(center, 20, 0);
    let l1 = circle_loop_layout(center, 20, 1);
    let l2 = circle_loop_layout(center, 20, 2);
    assert_eq!(l0.start, Point { x: 50, y: 30 });
    assert_eq!(l0.end, Point { x: 30, y: 50 });
    assert_eq!(l0.control1, Point { x: 50, y: -20 });
    assert_ne!(l0.control1, l1.control1);
    assert_ne!(l1.control1, l2.control1);
    assert_ne!(l0.control2, l1.control2);
}

#[test]
fn curve_midpoint_matches_closed_form() {
    let mid = quad_curve_midpoint(
        Point { x: 0, y: 0 },
        Point { x: 10, y: 20 },
        Point { x: 40, y: 0 },
    );
    assert_eq!(mid, Point { x: 15, y: 10 });
}

#[test]
fn segment_intersection_is_exact() {
    let a = Point { x: 0, y: 0 };
    let b = Point { x: 100, y: 100 };
    let c = Point { x: 0, y: 100 };
    let d = Point { x: 100, y: 0 };
    assert!(segments_intersect(a, b, c, d));
    let e = Point { x: 200, y: 200 };
    let f = Point { x: 300, y: 200 };
    assert!(!segments_intersect(a, b, e, f));
    assert_eq!(orientation(a, d, b), Orientation::CounterClockwise);
    assert_eq!(orientation(a, c, b), Orientation::Clockwise);
    assert_eq!(
        orientation(a, Point { x: 50, y: 50 }, b),
        Orientation::Collinear
    );
}

#[test]
fn rect_contains_is_inclusive() {
    let r = Rect { min: Point { x: 0, y: 0 }, max: Point { x: 10, y: 10 } };
    assert!(rect_contains(&r, Point { x: 0, y: 10 }));
    assert!(!rect_contains(&r, Point { x: 11, y: 5 }));
}

#[test]
fn integer_square_root_brackets_its_input() {
    assert_eq!(isqrt(0), 0);
    assert_eq!(isqrt(1), 1);
    assert_eq!(isqrt(24), 4);
    assert_eq!(isqrt(25), 5);
    assert_eq!(isqrt(26), 5);
    assert_eq!(isqrt(u64::MAX), 4294967295);
}

#[test]
fn toast_expiry_is_strict() {
    let t = Toast::new(String::from("saved"), ToastVariant::Success, 1000);
    assert!(!t.is_expired(500));
    assert!(!t.is_expired(4000));
    assert!(t.is_expired(4001));
    let e = Toast::error(String::from("boom"), 0);
    assert!(matches!(e.variant, ToastVariant::Error));
}

#[test]
fn error_messages_match_the_editor() {
    assert_eq!(GraphEditorError::FailedOpenFile.message(), "Failed to open the file");
    assert_eq!(GraphEditorError::FailedSaveFile.message(), "Failed to save the file");
    assert_eq!(
        GraphEditorError::FailedTakeScreenshot.message(),
        "Failed to take the screenshot"
    );
}

#[test]
fn panel_names_are_stable() {
    assert_eq!(NodeEditor.name(), "Node Editor");
    assert_eq!(EdgeEditor.name(), "Edge Editor");
    assert_eq!(EdgesTable.name(), "Edges Table");
    assert_eq!(CommentsEditor::new().name(), "Comments Editor");
}

#[test]
fn comment_tools_are_mutually_exclusive() {
    let mut ed = CommentsEditor::new();
    ed.toggle_draw();
    assert!(ed.draw_mode_active());
    ed.toggle_erase();
    assert!(ed.erase_mode_active());
    assert!(!ed.draw_mode_active());
    ed.toggle_draw();
    assert!(ed.draw_mode_active());
    assert!(!ed.erase_mode_active());
}

#[test]
fn workspace_round_trip_through_document() {
    let mut ws = graph_editor::workspace::GraphWorkspace::new();
    ws.add_node();
    ws.add_node();
    ws.add_edge(NodeId(1), NodeId(2));
    ws.set_selected_node_id(Some(NodeId(1)));
    let doc = ws.save_graph_string();
    let mut ws2 = graph_editor::workspace::GraphWorkspace::new();
    ws2.load_graph_str(doc.as_str()).expect("saved document must load");
    assert_eq!(ws2.graph().nodes().len(), 2);
    assert_eq!(ws2.graph().edges().len(), 1);
    assert_eq!(ws2.selected_node_id(), None);
    let bad = ws2.load_graph_str("not a graph");
    assert!(matches!(bad, Err(GraphEditorError::FailedOpenFile)));
    assert_eq!(ws2.graph().nodes().len(), 2);
}

#[test]
fn square_node_click_test_uses_bounding_box() {
    let node = Node {
        position: Point { x: 0, y: 0 },
        size: 10,
        shape: NodeShape::Square,
        color: Color::red(),
        label: String::from("s"),
        label_size_matches_node_size: true,
        label_size: 20,
    };
    assert!(node.is_clicked(Point { x: 10, y: 10 }));
    assert!(!node.is_clicked(Point { x: 11, y: 0 }));
    let circle = Node { shape: NodeShape::Circle, ..node };
    // the same corner point lies outside the inscribed circle
    assert!(!circle.is_clicked(Point { x: 10, y: 10 }));
    assert!(circle.is_clicked(Point { x: 9, y: 0 }));
}

#[test]
fn square_border_rotation_snaps_back_to_border() {
    let node = Node {
        position: Point { x: 0, y: 0 },
        size: 10,
        shape: NodeShape::Square,
        color: Color::red(),
        label: String::from("s"),
        label_size_matches_node_size: true,
        label_size: 20,
    };
    let east = node.border_point_in_direction(Point { x: 1, y: 0 });
    assert_eq!(east, Point { x: 10, y: 0 });
    let rot = Rotation { cos: 3, sin: 4, scale: 5 };
    let turned = node.rotate_border_point(east, rot);
    // the rotated point (6, 8) projects onto the top edge of the square
    assert_eq!(turned, Point { x: 7, y: 10 });
}

#[test]
fn edge_ids_are_unique_and_monotone() {
    let mut g = Graph::new();
    g.add_node_with_position(Point { x: 0, y: 0 });
    g.add_node_with_position(Point { x: 50, y: 0 });
    g.add_edge(NodeId(1), NodeId(2));
    g.add_edge(NodeId(2), NodeId(1));
    g.remove_edge(EdgeId(1));
    g.add_edge(NodeId(1), NodeId(1));
    let ids: Vec<usize> = g.edges().iter().map(|p| p.0.0).collect();
    assert_eq!(ids, vec![2, 3]);
    assert_eq!(g.edge_id_counter(), 3);
}

#[test]
fn edge_control_point_bows_away_from_chord() {
    let s = Point { x: 0, y: 0 };
    let e = Point { x: 100, y: 0 };
    assert_eq!(edge_control_point(s, e, 0, 1), Point { x: 50, y: 0 });
    assert_eq!(edge_control_point(s, e, 1, 1), Point { x: 50, y: 50 });
    assert_eq!(edge_control_point(s, e, -1, 1), Point { x: 50, y: -50 });
    // the opposite orientation mirrors the bow
    assert_eq!(edge_control_point(s, e, 1, -1), Point { x: 50, y: -50 });
}

#[test]
fn arrow_points_fold_back_from_the_tip() {
    let half_angle = Rotation { cos: 3, sin: 4, scale: 5 };
    let a = arrow_points(Point { x: 0, y: 0 }, Point { x: 100, y: 0 }, 2, half_angle);
    assert_eq!(a.base, Point { x: 99, y: 0 });
    assert_eq!(a.left, Point { x: 96, y: -6 });
    assert_eq!(a.right, Point { x: 96, y: 6 });
}

#[test]
fn edge_layout_composes_border_points_and_control() {
    let a = Node {
        position: Point { x: 0, y: 0 },
        size: 10,
        shape: NodeShape::Circle,
        color: Color::red(),
        label: String::from("a"),
        label_size_matches_node_size: true,
        label_size: 20,
    };
    let b = Node {
        position: Point { x: 100, y: 0 },
        size: 10,
        shape: NodeShape::Circle,
        color: Color::red(),
        label: String::from("b"),
        label_size_matches_node_size: true,
        label_size: 20,
    };
    let identity = Rotation { cos: DIR_SCALE, sin: 0, scale: DIR_SCALE };
    let l = edge_layout(&a, &b, 1, 0, identity);
    assert_eq!(l.start, Point { x: 10, y: 0 });
    assert_eq!(l.end, Point { x: 90, y: 0 });
    assert_eq!(l.control, Point { x: 50, y: 0 });
}

#[test]
fn loop_layout_matches_unrotated_circle_case() {
    let node = Node {
        position: Point { x: 50, y: 50 },
        size: 20,
        shape: NodeShape::Circle,
        color: Color::red(),
        label: String::from("n"),
        label_size_matches_node_size: true,
        label_size: 20,
    };
    let identity = Rotation { cos: DIR_SCALE, sin: 0, scale: DIR_SCALE };
    let general = loop_layout(&node, identity, 1);
    let plain = circle_loop_layout(node.position, node.size, 1);
    assert_eq!(general.start, plain.start);
    assert_eq!(general.end, plain.end);
    assert_eq!(general.control1, plain.control1);
    assert_eq!(general.control2, plain.control2);
}
