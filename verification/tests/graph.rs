use pointgraph::structs::{
    Edge, Graph, GraphError, GraphNode, Point, DEFAULT_SNAP_THRESHOLD_BITS,
};

/// The driver's distance metric: Euclidean except that the z terms are
/// summed, not subtracted.
fn quirk_dist(p1: (f32, f32, f32), p2: (f32, f32, f32)) -> f32 {
    f32::sqrt(
        (p1.0 - p2.0).powf(2.0) + (p1.1 - p2.1).powf(2.0) + (p1.2 + p2.2).powf(2.0),
    )
}

fn mk_node(name: &str, x: f32, y: f32, z: f32) -> GraphNode {
    GraphNode::new(name.to_owned(), x.to_bits(), y.to_bits(), z.to_bits())
}

#[test]
fn node_build() {
    let node: GraphNode = mk_node("name", 1.0, 1.0, 1.0);
    assert_eq!(node.name, "name");
    assert_eq!(
        node.pos,
        Point { x: 1.0f32.to_bits(), y: 1.0f32.to_bits(), z: 1.0f32.to_bits() }
    );
}

#[test]
fn graph_comp() {
    let node: GraphNode = mk_node("name", 1.0, 1.0, 1.0);
    assert_eq!(node, mk_node("name", 1.0, 1.0, 1.0));
    assert_ne!(node, mk_node("not name", 1.0, 1.0, 1.0));
}

#[test]
fn node_starts_without_edges() {
    let n = mk_node("origin", 0.0, -2.5, 3.25);
    assert_eq!(n.pos.x, 0.0f32.to_bits());
    assert_eq!(n.pos.y, (-2.5f32).to_bits());
    assert_eq!(n.pos.z, 3.25f32.to_bits());
    assert!(n.edges.is_empty());
}

#[test]
fn equality_ignores_edge_lists() {
    let mut a = mk_node("n", 1.0, 2.0, 3.0);
    let b = mk_node("n", 1.0, 2.0, 3.0);
    a.add_edge(Edge::new(4.0f32.to_bits(), 7));
    assert_eq!(a, b);
    assert_ne!(a, mk_node("n", 1.0, 2.0, 4.0));
}

#[test]
fn connect_appends_symmetric_pair() {
    let mut g = Graph::new();
    g.add_node(mk_node("a", 0.0, 0.0, 0.0));
    g.add_node(mk_node("b", 1.0, 0.0, 0.0));
    g.add_node(mk_node("c", 0.0, 1.0, 0.0));
    let w = 1.5f32.to_bits();
    assert_eq!(g.add_edge_between_nodes(0, 2, w), Ok(()));
    assert_eq!(g.nodes[0].edges.len(), 1);
    assert_eq!(g.nodes[1].edges.len(), 0);
    assert_eq!(g.nodes[2].edges.len(), 1);
    assert_eq!(g.nodes[0].edges[0], Edge { weight: w, dest: 2 });
    assert_eq!(g.nodes[2].edges[0], Edge { weight: w, dest: 0 });
    assert_eq!(g.nodes[0].edges[0].weight, g.nodes[2].edges[0].weight);
    // A second connection appends; nothing is deduplicated or removed.
    assert_eq!(g.add_edge_between_nodes(2, 0, w), Ok(()));
    assert_eq!(g.nodes[0].edges.len(), 2);
    assert_eq!(g.nodes[2].edges.len(), 2);
    assert!(g.wf_check());
}

#[test]
fn connect_self_loop_permitted() {
    let mut g = Graph::new();
    g.add_node(mk_node("only", 1.0, 1.0, 1.0));
    let w = 0.5f32.to_bits();
    assert_eq!(g.add_edge_between_nodes(0, 0, w), Ok(()));
    assert_eq!(g.nodes[0].edges.len(), 2);
    assert_eq!(g.nodes[0].edges[0], Edge { weight: w, dest: 0 });
    assert_eq!(g.nodes[0].edges[1], Edge { weight: w, dest: 0 });
}

#[test]
fn connect_out_of_bounds_leaves_graph_unmodified() {
    let mut g = Graph::new();
    g.add_node(mk_node("a", 0.0, 0.0, 0.0));
    g.add_node(mk_node("b", 1.0, 0.0, 0.0));
    assert_eq!(
        g.add_edge_between_nodes(0, 2, 1.0f32.to_bits()),
        Err(GraphError::IndexOutOfRange)
    );
    assert_eq!(
        g.add_edge_between_nodes(5, 1, 1.0f32.to_bits()),
        Err(GraphError::IndexOutOfRange)
    );
    assert_eq!(g.nodes.len(), 2);
    assert_eq!(g.nodes[0].edges.len(), 0);
    assert_eq!(g.nodes[1].edges.len(), 0);
}

#[test]
fn connect_by_point_needs_both_resolutions() {
    let mut g = Graph::new();
    g.add_node(mk_node("a", 0.0, 0.0, 0.0));
    g.add_node(mk_node("b", 1.0, 0.0, 0.0));
    let w = 1.0f32.to_bits();
    assert_eq!(
        g.add_edge_between_points(None, Some(1), w),
        Err(GraphError::NoNodeWithinThreshold)
    );
    assert_eq!(
        g.add_edge_between_points(Some(0), None, w),
        Err(GraphError::NoNodeWithinThreshold)
    );
    assert_eq!(g.nodes[0].edges.len(), 0);
    assert_eq!(g.nodes[1].edges.len(), 0);
    assert_eq!(g.add_edge_between_points(Some(0), Some(1), w), Ok(()));
    assert_eq!(g.nodes[0].edges[0], Edge { weight: w, dest: 1 });
    assert_eq!(g.nodes[1].edges[0], Edge { weight: w, dest: 0 });
}

#[test]
fn nearest_node_returns_first_match_not_closest() {
    let mut g = Graph::new();
    g.add_node(mk_node("far", 0.9, 0.0, 0.0));
    g.add_node(mk_node("near", 0.1, 0.0, 0.0));
    // Both distances lie below the threshold; the lower index wins even
    // though its distance is larger.
    let dists: Vec<u32> = vec![0.9f32.to_bits(), 0.1f32.to_bits()];
    assert_eq!(g.nearest_node(&dists, 1.0f32.to_bits()), Some(0));
}

#[test]
fn nearest_node_threshold_is_strict() {
    let mut g = Graph::new();
    g.add_node(mk_node("a", 0.0, 0.0, 0.0));
    g.add_node(mk_node("b", 1.0, 0.0, 0.0));
    let eps = f32::EPSILON.to_bits();
    assert_eq!(eps, DEFAULT_SNAP_THRESHOLD_BITS);
    // A distance exactly at the threshold does not qualify.
    let at: Vec<u32> = vec![eps, eps];
    assert_eq!(g.nearest_node(&at, DEFAULT_SNAP_THRESHOLD_BITS), None);
    // An exact hit (distance zero) does.
    let hit: Vec<u32> = vec![eps, 0.0f32.to_bits()];
    assert_eq!(g.nearest_node(&hit, DEFAULT_SNAP_THRESHOLD_BITS), Some(1));
}

fn coord_text(bits: u32) -> String {
    format!("{}", f32::from_bits(bits))
}

fn coords_of(g: &Graph) -> Vec<(String, String, String)> {
    g.nodes
        .iter()
        .map(|n| {
            (coord_text(n.pos.x), coord_text(n.pos.y), coord_text(n.pos.z))
        })
        .collect()
}

#[test]
fn list_nodes_keeps_order_and_format() {
    let mut g = Graph::new();
    g.add_node(mk_node("first", 0.0, 0.5, -1.0));
    g.add_node(mk_node("second", 10.0, 0.0, 0.0));
    g.add_node(mk_node("third", 2.25, 3.0, 4.0));
    let lines = g.list_nodes(&coords_of(&g));
    assert_eq!(
        lines,
        vec![
            "first: (0, 0.5, -1)".to_owned(),
            "second: (10, 0, 0)".to_owned(),
            "third: (2.25, 3, 4)".to_owned(),
        ]
    );
}

#[test]
fn dist_quirk_pinned_by_stored_weights() {
    // The driver's metric sums the z components, so a point is not at
    // distance zero from itself once z is nonzero.
    let p = (0.0f32, 0.0f32, 1.0f32);
    assert_eq!(quirk_dist(p, p), 2.0f32);
    // Symmetry in x and y survives the quirk.
    let a = (3.0f32, -1.0f32, 0.5f32);
    let b = (-2.0f32, 4.0f32, 0.25f32);
    assert_eq!(quirk_dist(a, b), quirk_dist(b, a));
    // A self-loop connection stores that weight on both appended edges.
    let mut g = Graph::new();
    g.add_node(mk_node("z", 0.0, 0.0, 1.0));
    let w = quirk_dist(p, p).to_bits();
    assert_eq!(g.add_edge_between_nodes(0, 0, w), Ok(()));
    assert_eq!(g.nodes[0].edges[0].weight, 2.0f32.to_bits());
    assert_eq!(g.nodes[0].edges[1].weight, 2.0f32.to_bits());
}

#[test]
fn end_to_end_build_connect_list() {
    let mut g = Graph::new();
    g.add_node(mk_node("A", 0.0, 0.0, 0.0));
    g.add_node(mk_node("B", 10.0, 0.0, 0.0));
    g.add_node(mk_node("C", 0.0, 10.0, 0.0));
    let a = (0.0f32, 0.0f32, 0.0f32);
    let b = (10.0f32, 0.0f32, 0.0f32);
    let c = (0.0f32, 10.0f32, 0.0f32);
    let w_ab = quirk_dist(a, b);
    let w_ac = quirk_dist(a, c);
    assert_eq!(g.add_edge_between_nodes(0, 1, w_ab.to_bits()), Ok(()));
    assert_eq!(g.add_edge_between_nodes(0, 2, w_ac.to_bits()), Ok(()));
    let lines = g.list_nodes(&coords_of(&g));
    assert_eq!(
        lines,
        vec![
            "A: (0, 0, 0)".to_owned(),
            "B: (10, 0, 0)".to_owned(),
            "C: (0, 10, 0)".to_owned(),
        ]
    );
    assert_eq!(g.nodes[0].edges.len(), 2);
    assert_eq!(g.nodes[0].edges[0], Edge { weight: 10.0f32.to_bits(), dest: 1 });
    assert_eq!(g.nodes[0].edges[1], Edge { weight: 10.0f32.to_bits(), dest: 2 });
    assert_eq!(g.nodes[1].edges[0], Edge { weight: w_ab.to_bits(), dest: 0 });
    assert_eq!(g.nodes[2].edges[0], Edge { weight: w_ac.to_bits(), dest: 0 });
    assert!(g.wf_check());
}

#[test]
fn build_and_wf_check_spot_dangling_edges() {
    let mut stray = mk_node("stray", 0.0, 0.0, 0.0);
    stray.add_edge(Edge::new(1.0f32.to_bits(), 5));
    let g = Graph::build(vec![stray], Vec::new());
    assert_eq!(g.nodes.len(), 1);
    assert!(!g.wf_check());
    let ok = Graph::build(
        vec![mk_node("a", 0.0, 0.0, 0.0), mk_node("b", 1.0, 1.0, 1.0)],
        Vec::new(),
    );
    assert!(ok.wf_check());
}
