use weighted_graph::{fill_graph, report_edges, BuildError, Edge, Graph, GraphAdj, GraphMat};

fn normalized(edges: Vec<Edge>) -> Vec<Edge> {
    let mut out: Vec<Edge> = edges
        .into_iter()
        .map(|(a, b, w)| if a <= b { (a, b, w) } else { (b, a, w) })
        .collect();
    out.sort();
    out
}

fn rows(data: &[&[u32]]) -> Vec<Vec<u32>> {
    data.iter().map(|r| r.to_vec()).collect()
}

fn built<G: Graph + Default>(data: &[&[u32]]) -> G {
    let mut g = G::default();
    fill_graph(&rows(data), &mut g).expect("rows are well-formed");
    g
}

#[test]
fn node_ids_are_sequential() {
    let mut adj = GraphAdj::default();
    let mut mat = GraphMat::default();
    for k in 0..5u32 {
        assert_eq!(adj.node_count(), k as usize);
        assert_eq!(mat.node_count(), k as usize);
        assert_eq!(adj.add_node(), k);
        assert_eq!(mat.add_node(), k);
    }
    assert_eq!(adj.node_count(), 5);
    assert_eq!(mat.node_count(), 5);
}

#[test]
fn edge_weight_is_symmetric() {
    let mut adj = GraphAdj::new();
    let mut mat = GraphMat::new();
    for _ in 0..3 {
        adj.add_node();
        mat.add_node();
    }
    adj.add_edge(0, 2, 6);
    mat.add_edge(0, 2, 6);
    assert_eq!(adj.get_edge_weight(0, 2), Some(6));
    assert_eq!(adj.get_edge_weight(2, 0), Some(6));
    assert_eq!(mat.get_edge_weight(0, 2), Some(6));
    assert_eq!(mat.get_edge_weight(2, 0), Some(6));
    assert_eq!(adj.get_edge_weight(0, 1), None);
    assert_eq!(mat.get_edge_weight(0, 1), None);
}

#[test]
fn second_write_replaces_weight() {
    let mut adj = GraphAdj::new();
    let mut mat = GraphMat::new();
    for _ in 0..2 {
        adj.add_node();
        mat.add_node();
    }
    adj.add_edge(0, 1, 3);
    adj.add_edge(0, 1, 9);
    mat.add_edge(0, 1, 3);
    mat.add_edge(0, 1, 9);
    assert_eq!(normalized(adj.edges()), vec![(0, 1, 9)]);
    assert_eq!(normalized(mat.edges()), vec![(0, 1, 9)]);
    adj.add_edge(1, 0, 4);
    mat.add_edge(1, 0, 4);
    assert_eq!(normalized(adj.edges()), vec![(0, 1, 4)]);
    assert_eq!(normalized(mat.edges()), vec![(0, 1, 4)]);
    assert_eq!(adj.get_edge_weight(0, 1), Some(4));
    assert_eq!(mat.get_edge_weight(1, 0), Some(4));
}

#[test]
fn representations_agree() {
    let data: &[&[u32]] = &[&[5, 6], &[1, 2, 4], &[2, 3, 7], &[5, 1, 2], &[3, 3, 8], &[2, 1, 9], &[4, 5, 1]];
    let adj: GraphAdj = built(data);
    let mat: GraphMat = built(data);
    let expected = vec![(0, 1, 9), (0, 4, 2), (1, 2, 7), (2, 2, 8), (3, 4, 1)];
    assert_eq!(normalized(adj.edges()), expected);
    assert_eq!(normalized(mat.edges()), expected);
}

#[test]
fn weight_absent_iff_never_written() {
    let data: &[&[u32]] = &[&[4, 2], &[1, 2, 3], &[4, 2, 5]];
    let adj: GraphAdj = built(data);
    let mat: GraphMat = built(data);
    for a in 0..4u32 {
        for b in 0..4u32 {
            let written = matches!((a.min(b), a.max(b)), (0, 1) | (1, 3));
            assert_eq!(adj.get_edge_weight(a, b).is_some(), written);
            assert_eq!(mat.get_edge_weight(a, b).is_some(), written);
        }
    }
}

#[test]
fn two_nodes_one_edge() {
    let data: &[&[u32]] = &[&[2, 1], &[1, 2, 5]];
    let adj: GraphAdj = built(data);
    let mat: GraphMat = built(data);
    assert_eq!(normalized(adj.edges()), vec![(0, 1, 5)]);
    assert_eq!(normalized(mat.edges()), vec![(0, 1, 5)]);
    assert_eq!(normalized(report_edges(&adj)), vec![(1, 2, 5)]);
    assert_eq!(normalized(report_edges(&mat)), vec![(1, 2, 5)]);
}

#[test]
fn three_nodes_two_edges() {
    let data: &[&[u32]] = &[&[3, 2], &[1, 2, 4], &[2, 3, 7]];
    let adj: GraphAdj = built(data);
    let mat: GraphMat = built(data);
    assert_eq!(normalized(adj.edges()), vec![(0, 1, 4), (1, 2, 7)]);
    assert_eq!(normalized(mat.edges()), vec![(0, 1, 4), (1, 2, 7)]);
    assert_eq!(normalized(report_edges(&adj)), vec![(1, 2, 4), (2, 3, 7)]);
    assert_eq!(normalized(report_edges(&mat)), vec![(1, 2, 4), (2, 3, 7)]);
}

#[test]
fn malformed_header_adds_nothing() {
    let data = rows(&[&[1, 2, 3], &[1, 1, 1]]);
    let mut adj = GraphAdj::new();
    let mut mat = GraphMat::new();
    assert_eq!(fill_graph(&data, &mut adj), Err(BuildError::BadHeader));
    assert_eq!(fill_graph(&data, &mut mat), Err(BuildError::BadHeader));
    assert_eq!(adj.node_count(), 0);
    assert_eq!(mat.node_count(), 0);
}

#[test]
fn missing_edge_rows_add_nothing() {
    let data = rows(&[&[3, 2], &[1, 2, 4]]);
    let mut adj = GraphAdj::new();
    let mut mat = GraphMat::new();
    assert_eq!(fill_graph(&data, &mut adj), Err(BuildError::MissingRows));
    assert_eq!(fill_graph(&data, &mut mat), Err(BuildError::MissingRows));
    assert_eq!(adj.node_count(), 0);
    assert_eq!(mat.node_count(), 0);
    assert!(adj.edges().is_empty());
    assert!(mat.edges().is_empty());
}

#[test]
fn empty_input_is_refused() {
    let mut adj = GraphAdj::new();
    assert_eq!(fill_graph(&[], &mut adj), Err(BuildError::EmptyInput));
    assert_eq!(adj.node_count(), 0);
}

#[test]
fn short_edge_row_is_refused() {
    let data = rows(&[&[3, 2], &[1, 2, 4], &[2, 3]]);
    let mut mat = GraphMat::new();
    assert_eq!(fill_graph(&data, &mut mat), Err(BuildError::BadEdgeRow));
    assert_eq!(mat.node_count(), 0);
}

#[test]
fn unknown_nodes_are_refused() {
    let mut adj = GraphAdj::new();
    assert_eq!(fill_graph(&rows(&[&[2, 1], &[0, 1, 4]]), &mut adj), Err(BuildError::UnknownNode));
    assert_eq!(fill_graph(&rows(&[&[2, 1], &[1, 3, 4]]), &mut adj), Err(BuildError::UnknownNode));
    assert_eq!(adj.node_count(), 0);
}

#[test]
fn first_bad_row_decides_the_error() {
    let data = rows(&[&[2, 2], &[1, 5, 4], &[1]]);
    let mut adj = GraphAdj::new();
    assert_eq!(fill_graph(&data, &mut adj), Err(BuildError::UnknownNode));
    let data = rows(&[&[2, 2], &[1], &[1, 5, 4]]);
    assert_eq!(fill_graph(&data, &mut adj), Err(BuildError::BadEdgeRow));
}

#[test]
fn rows_after_the_announced_edges_are_ignored() {
    let data: &[&[u32]] = &[&[2, 1], &[1, 2, 5], &[9, 9]];
    let adj: GraphAdj = built(data);
    assert_eq!(normalized(adj.edges()), vec![(0, 1, 5)]);
}

#[test]
fn zero_weight_is_absence_only_in_the_matrix() {
    let data: &[&[u32]] = &[&[2, 2], &[1, 2, 5], &[2, 1, 0]];
    let adj: GraphAdj = built(data);
    let mat: GraphMat = built(data);
    assert_eq!(adj.get_edge_weight(0, 1), Some(0));
    assert_eq!(mat.get_edge_weight(0, 1), None);
    assert!(mat.edges().is_empty());
}

#[test]
fn self_loop_is_listed_once() {
    let data: &[&[u32]] = &[&[1, 1], &[1, 1, 3]];
    let adj: GraphAdj = built(data);
    let mat: GraphMat = built(data);
    assert_eq!(adj.edges(), vec![(0, 0, 3)]);
    assert_eq!(mat.edges(), vec![(0, 0, 3)]);
}

#[test]
fn node_edges_touch_the_node() {
    let data: &[&[u32]] = &[&[4, 3], &[1, 2, 4], &[2, 3, 7], &[3, 4, 1]];
    let adj: GraphAdj = built(data);
    let mat: GraphMat = built(data);
    assert_eq!(normalized(adj.get_node_edges(1)), vec![(0, 1, 4), (1, 2, 7)]);
    assert_eq!(normalized(mat.get_node_edges(1)), vec![(0, 1, 4), (1, 2, 7)]);
    assert_eq!(normalized(mat.get_node_edges(3)), vec![(2, 3, 1)]);
}

#[test]
fn weight_outside_the_graph_is_absent() {
    let data: &[&[u32]] = &[&[2, 1], &[2, 1, 5]];
    let adj: GraphAdj = built(data);
    let mat: GraphMat = built(data);
    assert_eq!(mat.get_edge_weight(0, 2), None);
    assert_eq!(mat.get_edge_weight(7, 0), None);
    assert_eq!(adj.get_edge_weight(0, 2), None);
}

#[test]
fn room_for_nodes() {
    assert!(GraphAdj::has_room_for(u32::MAX));
    assert!(GraphMat::has_room_for(3));
}
