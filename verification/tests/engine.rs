use cfg_layout::layering::{layer, EdgeRef};
use cfg_layout::layout::place;
use cfg_layout::model::{Edge, GraphError, GraphModel, Node};
use cfg_layout::pipeline::render;
use cfg_layout::routing::MIN_CONTROL;
use cfg_layout::sizing::box_size;

fn node(id: usize) -> Node {
    Node { id, title: format!("bb {}", id), lines: vec![] }
}

fn edge(from: usize, to: usize) -> Edge {
    Edge { from, to, label: None }
}

fn graph(n: usize, edges: Vec<Edge>, entry: usize) -> GraphModel {
    let nodes: Vec<Node> = (0..n).map(node).collect();
    GraphModel::new(nodes, edges, entry).unwrap()
}

#[test]
fn linear_chain_one_node_per_row() {
    let g = graph(5, vec![edge(0, 1), edge(1, 2), edge(2, 3), edge(3, 4)], 0);
    let lay = layer(&g);
    assert_eq!(lay.rows, vec![vec![0], vec![1], vec![2], vec![3], vec![4]]);
    assert_eq!(lay.edges.len(), 4);
}

#[test]
fn diamond_first_discovery_wins() {
    let g = graph(4, vec![edge(0, 1), edge(0, 2), edge(1, 3), edge(2, 3)], 0);
    let lay = layer(&g);
    assert_eq!(lay.rows, vec![vec![0], vec![1, 2], vec![3]]);
    assert_eq!(
        lay.edges,
        vec![
            EdgeRef { from: 0, to: 1 },
            EdgeRef { from: 0, to: 2 },
            EdgeRef { from: 1, to: 3 },
            EdgeRef { from: 2, to: 3 },
        ]
    );
}

#[test]
fn back_edge_kept_and_routed() {
    let g = graph(2, vec![edge(0, 1), edge(1, 0)], 0);
    let r = render(&g);
    assert_eq!(r.rows, vec![vec![0], vec![1]]);
    assert_eq!(r.edges, vec![EdgeRef { from: 0, to: 1 }, EdgeRef { from: 1, to: 0 }]);
    assert_eq!(r.geometry.len(), 2);
    let back = &r.geometry[1];
    assert_eq!(back.from, 1);
    assert_eq!(back.to, 0);
    // The back edge climbs from row 1 to row 0.
    assert!(back.p0.y > back.p3.y);
}

#[test]
fn self_loop_single_row_single_geometry() {
    let g = graph(1, vec![edge(0, 0)], 0);
    let r = render(&g);
    assert_eq!(r.rows, vec![vec![0]]);
    assert_eq!(r.geometry.len(), 1);
    assert_eq!(r.geometry[0].from, 0);
    assert_eq!(r.geometry[0].to, 0);
}

#[test]
fn unreachable_nodes_omitted_and_their_edges_dropped() {
    // Node 4 is unreachable: its outgoing edges vanish, including one into
    // the reachable part, while all four reachable edges are kept.
    let g = graph(
        5,
        vec![edge(0, 1), edge(0, 2), edge(1, 3), edge(2, 3), edge(4, 0), edge(4, 4)],
        0,
    );
    let lay = layer(&g);
    assert_eq!(lay.rows, vec![vec![0], vec![1, 2], vec![3]]);
    assert_eq!(lay.edges.len(), 4);
    for e in &lay.edges {
        assert!(e.from != 4 && e.to != 4);
    }
    let placed = place(&g, &lay.rows);
    assert_eq!(placed.len(), 4);
    assert!(placed.iter().all(|p| p.id != 4));
}

#[test]
fn parallel_edges_both_emitted() {
    let g = graph(2, vec![edge(0, 1), edge(0, 1)], 0);
    let r = render(&g);
    assert_eq!(r.edges, vec![EdgeRef { from: 0, to: 1 }, EdgeRef { from: 0, to: 1 }]);
    assert_eq!(r.geometry.len(), 2);
    assert_eq!(r.geometry[0], r.geometry[1]);
}

#[test]
fn control_offset_clamped_for_stacked_boxes() {
    // Two equally wide boxes stacked vertically: the raw horizontal offset
    // would be tiny, so the configured minimum takes over.
    let g = graph(2, vec![edge(0, 1)], 0);
    let r = render(&g);
    let geo = &r.geometry[0];
    assert_eq!(geo.p1.x - geo.p0.x, MIN_CONTROL);
    assert_eq!(geo.p3.x - geo.p2.x, MIN_CONTROL);
}

#[test]
fn exact_geometry_of_a_two_node_chain() {
    // Titles "bb 0" / "bb 1" are four characters: box 70 wide (4*10 + 30),
    // 37 tall (22 + 5 + 0 + 10), both floored above the minimum sizes.
    let g = graph(2, vec![edge(0, 1)], 0);
    let r = render(&g);
    assert_eq!(r.placed.len(), 2);
    let a = &r.placed[0];
    let b = &r.placed[1];
    assert_eq!((a.rect.x, a.rect.y, a.rect.w, a.rect.h), (0, 0, 70, 37));
    assert_eq!((b.rect.x, b.rect.y, b.rect.w, b.rect.h), (0, 57, 70, 37));
    let geo = &r.geometry[0];
    // Source anchor: bottom-center of box 0.
    assert_eq!((geo.p0.x, geo.p0.y), (35, 37));
    // Destination anchor: top-center of box 1, inset by 10 on both axes.
    assert_eq!((geo.p3.x, geo.p3.y), (25, 47));
    // Clamped control offset of 30 on both control points.
    assert_eq!((geo.p1.x, geo.p1.y), (65, 37));
    assert_eq!((geo.p2.x, geo.p2.y), (-5, 47));
    // Arrowhead: tip inset by 2, base corners at the rotated half-vector.
    assert_eq!((geo.tip.x, geo.tip.y), (33, 55));
    assert_eq!((geo.base1.x, geo.base1.y), (29, 43));
    assert_eq!((geo.base2.x, geo.base2.y), (21, 51));
    assert_eq!(geo.stroke_width, 2);
    assert_eq!((geo.color.r, geo.color.g, geo.color.b), (96, 70, 59));
}

#[test]
fn box_size_from_title_and_lines() {
    let n = Node {
        id: 7,
        title: String::from("bb 7"),
        lines: vec![String::from("ab"), String::from("cdef")],
    };
    let b = box_size(&n);
    // Widest content is the four-character title and line: 4*10 + 30.
    assert_eq!(b.w, 70);
    // 22 title + 5 spacing + 2 lines of 18 + 10 padding.
    assert_eq!(b.h, 73);
}

#[test]
fn box_size_floors_at_minimum() {
    let n = Node { id: 0, title: String::new(), lines: vec![] };
    let b = box_size(&n);
    assert_eq!(b.w, 40);
    assert_eq!(b.h, 37);
}

#[test]
fn row_packs_left_to_right_with_gap() {
    let g = graph(3, vec![edge(0, 1), edge(0, 2)], 0);
    let r = render(&g);
    let row1_first = &r.placed[1];
    let row1_second = &r.placed[2];
    assert_eq!(row1_first.id, 1);
    assert_eq!(row1_second.id, 2);
    assert_eq!(row1_first.rect.x, 0);
    assert_eq!(row1_second.rect.x, row1_first.rect.w + 5);
    assert_eq!(row1_first.rect.y, row1_second.rect.y);
}

#[test]
fn invalid_entry_rejected() {
    let nodes = vec![node(0), node(1)];
    let r = GraphModel::new(nodes, vec![edge(0, 1)], 9);
    assert_eq!(r.err(), Some(GraphError::InvalidGraph));
}

#[test]
fn dangling_edge_rejected() {
    let nodes = vec![node(0), node(1)];
    let r = GraphModel::new(nodes, vec![edge(0, 5)], 0);
    assert_eq!(r.err(), Some(GraphError::InvalidGraph));
}

#[test]
fn duplicate_node_id_rejected() {
    let nodes = vec![node(0), node(1), node(1)];
    let r = GraphModel::new(nodes, vec![], 0);
    assert_eq!(r.err(), Some(GraphError::InvalidGraph));
}

#[test]
fn empty_graph_is_valid_and_yields_empty_layout() {
    let g = GraphModel::new(vec![], vec![], 0).unwrap();
    let r = render(&g);
    assert!(r.rows.is_empty());
    assert!(r.placed.is_empty());
    assert!(r.edges.is_empty());
    assert!(r.geometry.is_empty());
}

#[test]
fn entry_without_outgoing_edges_is_a_single_row() {
    let g = graph(3, vec![edge(1, 2)], 0);
    let lay = layer(&g);
    assert_eq!(lay.rows, vec![vec![0]]);
    assert_eq!(lay.edges.len(), 0);
}

#[test]
fn rerunning_the_pipeline_is_bit_identical() {
    let g = graph(4, vec![edge(0, 1), edge(0, 2), edge(1, 3), edge(2, 3), edge(3, 0)], 0);
    let r1 = render(&g);
    let r2 = render(&g);
    assert_eq!(r1.rows, r2.rows);
    assert_eq!(r1.placed, r2.placed);
    assert_eq!(r1.edges, r2.edges);
    assert_eq!(r1.geometry, r2.geometry);
}

#[test]
fn model_getters_pass_content_through() {
    let g = graph(2, vec![edge(0, 1)], 0);
    assert_eq!(g.entry(), 0);
    assert_eq!(g.nodes().len(), 2);
    assert_eq!(g.nodes()[1].title, "bb 1");
    assert_eq!(g.edges().len(), 1);
    assert_eq!(g.edges()[0].from, 0);
    assert_eq!(g.edges()[0].to, 1);
}

#[test]
fn node_lookup_by_id() {
    let g = graph(2, vec![edge(0, 1)], 0);
    let n = cfg_layout::layout::node_by_id(&g, 1).unwrap();
    assert_eq!(n.title, "bb 1");
    assert!(cfg_layout::layout::node_by_id(&g, 7).is_none());
}

#[test]
fn empty_rows_consume_no_vertical_space() {
    let g = graph(2, vec![], 0);
    let rows = vec![vec![0], vec![], vec![1]];
    let placed = place(&g, &rows);
    assert_eq!(placed.len(), 2);
    assert_eq!(placed[0].rect.y, 0);
    // The empty middle row is skipped: row heights are 37 plus the gap.
    assert_eq!(placed[1].rect.y, 57);
}
