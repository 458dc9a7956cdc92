use pointgraph::render::{draw_graph, Raster, EDGE_LUMA, NODE_LUMA};
use pointgraph::structs::{Graph, GraphNode};

fn mk_node(name: &str, x: f32, y: f32, z: f32) -> GraphNode {
    GraphNode::new(name.to_owned(), x.to_bits(), y.to_bits(), z.to_bits())
}

#[test]
fn raster_starts_black() {
    let r = Raster::new(16, 8);
    assert_eq!(r.width, 16);
    assert_eq!(r.height, 8);
    assert_eq!(r.data.len(), 128);
    assert!(r.data.iter().all(|&p| p == 0));
}

#[test]
fn put_and_get_pixel() {
    let mut r = Raster::new(10, 10);
    r.put_pixel(3, 7, 200);
    assert_eq!(r.get_pixel(3, 7), 200);
    assert_eq!(r.get_pixel(7, 3), 0);
    assert_eq!(r.data[7 * 10 + 3], 200);
}

#[test]
fn marker_fills_clipped_square() {
    let mut r = Raster::new(20, 20);
    r.draw_marker(10, 10);
    // The square spans [7, 13) on both axes.
    for x in 0..20usize {
        for y in 0..20usize {
            let expected = if (7..13).contains(&x) && (7..13).contains(&y) {
                NODE_LUMA
            } else {
                0
            };
            assert_eq!(r.get_pixel(x, y), expected);
        }
    }
    // A marker centred at the origin is clipped to the raster.
    let mut c = Raster::new(20, 20);
    c.draw_marker(0, 0);
    assert_eq!(c.get_pixel(0, 0), NODE_LUMA);
    assert_eq!(c.get_pixel(2, 2), NODE_LUMA);
    assert_eq!(c.get_pixel(3, 0), 0);
    assert_eq!(c.get_pixel(0, 3), 0);
}

#[test]
fn line_walk_paints_endpoints_and_path() {
    let mut r = Raster::new(100, 100);
    r.draw_line(10, 50, 90, 50);
    // A horizontal walk stays on its row.
    assert_eq!(r.get_pixel(10, 50), EDGE_LUMA);
    assert_eq!(r.get_pixel(50, 50), EDGE_LUMA);
    assert_eq!(r.get_pixel(90, 50), EDGE_LUMA);
    assert_eq!(r.get_pixel(50, 49), 0);
    assert_eq!(r.get_pixel(9, 50), 0);
    assert_eq!(r.get_pixel(91, 50), 0);
    // A vertical walk needs no special case.
    let mut v = Raster::new(100, 100);
    v.draw_line(20, 80, 20, 10);
    assert_eq!(v.get_pixel(20, 80), EDGE_LUMA);
    assert_eq!(v.get_pixel(20, 40), EDGE_LUMA);
    assert_eq!(v.get_pixel(20, 10), EDGE_LUMA);
    assert_eq!(v.get_pixel(21, 40), 0);
    // A diagonal walk touches every column between its endpoints.
    let mut d = Raster::new(100, 100);
    d.draw_line(0, 0, 99, 99);
    for i in 0..100usize {
        assert_eq!(d.get_pixel(i, i), EDGE_LUMA);
    }
}

#[test]
fn line_walk_clips_to_raster() {
    let mut r = Raster::new(10, 10);
    r.draw_line(-20, 5, 40, 5);
    for x in 0..10usize {
        assert_eq!(r.get_pixel(x, 5), EDGE_LUMA);
        assert_eq!(r.get_pixel(x, 4), 0);
        assert_eq!(r.get_pixel(x, 6), 0);
    }
}

#[test]
fn draw_graph_markers_and_edges() {
    let mut g = Graph::new();
    g.add_node(mk_node("a", 0.0, 0.0, 0.0));
    g.add_node(mk_node("b", 10.0, 0.0, 0.0));
    g.add_edge_between_nodes(0, 1, 10.0f32.to_bits()).unwrap();
    let proj: Vec<(i32, i32)> = vec![(10, 50), (90, 50)];
    let mut img = Raster::new(100, 100);
    assert!(g.wf_check());
    draw_graph(&g, &mut img, &proj);
    // Both markers are painted (the line walk repaints the centres
    // themselves, so look one row off the line)…
    assert_eq!(img.get_pixel(10, 48), NODE_LUMA);
    assert_eq!(img.get_pixel(90, 48), NODE_LUMA);
    // …the line walk joins the two projected points…
    assert_eq!(img.get_pixel(50, 50), EDGE_LUMA);
    assert_eq!(img.get_pixel(10, 50), EDGE_LUMA);
    assert_eq!(img.get_pixel(90, 50), EDGE_LUMA);
    // …and pixels away from both stay black.
    assert_eq!(img.get_pixel(50, 10), 0);
    assert_eq!(img.get_pixel(10, 90), 0);
}

#[test]
fn draw_graph_without_nodes_changes_nothing() {
    let g = Graph::new();
    let proj: Vec<(i32, i32)> = Vec::new();
    let mut img = Raster::new(8, 8);
    draw_graph(&g, &mut img, &proj);
    assert!(img.data.iter().all(|&p| p == 0));
}

#[test]
fn line_walk_connects_diagonal_endpoints() {
    // A skewed walk: every column between the endpoints holds at least one
    // painted pixel between the endpoint rows, so the path is visibly
    // connected.
    let mut r = Raster::new(100, 100);
    r.draw_line(10, 10, 60, 30);
    for x in 10..=60usize {
        let mut hit = false;
        for y in 10..=30usize {
            if r.get_pixel(x, y) == EDGE_LUMA {
                hit = true;
            }
        }
        assert!(hit, "column {} holds no edge pixel", x);
    }
    // And every row between the endpoint rows is likewise reached.
    for y in 10..=30usize {
        let mut hit = false;
        for x in 10..=60usize {
            if r.get_pixel(x, y) == EDGE_LUMA {
                hit = true;
            }
        }
        assert!(hit, "row {} holds no edge pixel", y);
    }
}

#[test]
fn draw_graph_keeps_markers_away_from_edges() {
    // Part of the top-left marker's region lies outside the edge walk's
    // bounding box, so it stays at exactly the marker intensity.
    let mut g = Graph::new();
    g.add_node(mk_node("a", 0.0, 0.0, 0.0));
    g.add_node(mk_node("b", 10.0, 0.0, 0.0));
    g.add_edge_between_nodes(0, 1, 10.0f32.to_bits()).unwrap();
    let proj: Vec<(i32, i32)> = vec![(10, 20), (90, 80)];
    let mut img = Raster::new(100, 100);
    draw_graph(&g, &mut img, &proj);
    // (8, 18) is in the first marker but above-left of the edge's box.
    assert_eq!(img.get_pixel(8, 18), NODE_LUMA);
    // The diagonal edge still connects: some pixel in column 50 between the
    // endpoint rows is drawn.
    let mut hit = false;
    for y in 20..=80usize {
        let v = img.get_pixel(50, y);
        if v == EDGE_LUMA || v == NODE_LUMA {
            hit = true;
        }
    }
    assert!(hit);
}
