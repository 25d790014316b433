use wl_graph_hash::counts::{label_counts, render_counts};
use wl_graph_hash::graph::Graph;
use wl_graph_hash::wl::{
    hash_label, init_node_labels, neighborhood_aggregate, weisfeiler_lehman_graph_hash, WlError,
};

fn path_graph() -> Graph {
    let mut graph = Graph::new();
    let a = graph.add_node("A".to_string());
    let b = graph.add_node("B".to_string());
    let c = graph.add_node("C".to_string());
    graph.add_edge(a, b);
    graph.add_edge(b, c);
    graph
}

#[test]
fn determinism_same_graph_same_digest() {
    let graph = path_graph();
    let h1 = weisfeiler_lehman_graph_hash(&graph, None, 3, 16).unwrap();
    let h2 = weisfeiler_lehman_graph_hash(&graph, None, 3, 16).unwrap();
    assert_eq!(h1, h2);
    let h3 = weisfeiler_lehman_graph_hash(&graph, Some("label"), 5, 8).unwrap();
    let h4 = weisfeiler_lehman_graph_hash(&graph, Some("label"), 5, 8).unwrap();
    assert_eq!(h3, h4);
}

#[test]
fn zero_iterations_graph_independent() {
    let g1 = path_graph();
    let mut g2 = Graph::new();
    let x = g2.add_node("X".to_string());
    g2.add_edge(x, x);
    let g3 = Graph::new();
    let h1 = weisfeiler_lehman_graph_hash(&g1, None, 0, 16).unwrap();
    let h2 = weisfeiler_lehman_graph_hash(&g2, Some("label"), 0, 16).unwrap();
    let h3 = weisfeiler_lehman_graph_hash(&g3, None, 0, 16).unwrap();
    assert_eq!(h1, h2);
    assert_eq!(h1, h3);
    assert_eq!(h1.len(), 32);
}

#[test]
fn digest_length_is_twice_digest_size() {
    let graph = path_graph();
    for &size in &[1usize, 2, 16, 32, 64] {
        let h = weisfeiler_lehman_graph_hash(&graph, None, 2, size).unwrap();
        assert_eq!(h.len(), 2 * size);
        let d = hash_label("abc", size).unwrap();
        assert_eq!(d.len(), 2 * size);
    }
}

#[test]
fn end_to_end_path_graph() {
    let graph = path_graph();
    let h = weisfeiler_lehman_graph_hash(&graph, None, 3, 16).unwrap();
    assert!(!h.is_empty());
    assert_eq!(h.len(), 32);
    assert!(h.chars().all(|c| c.is_ascii_hexdigit() && !c.is_ascii_uppercase()));
    let again = weisfeiler_lehman_graph_hash(&graph, None, 3, 16).unwrap();
    assert_eq!(h, again);
}

#[test]
fn attribute_labels_change_the_digest() {
    // Structurally identical graphs; attribute values break the symmetry,
    // so hashing with the attribute must differ from hashing without it.
    let mut graph = Graph::new();
    let a = graph.add_node("first".to_string());
    let b = graph.add_node("second".to_string());
    let c = graph.add_node("third".to_string());
    let d = graph.add_node("fourth".to_string());
    graph.add_edge(a, b);
    graph.add_edge(b, c);
    graph.add_edge(c, a);
    graph.add_edge(a, d);
    let with_attr = weisfeiler_lehman_graph_hash(&graph, Some("label"), 3, 16).unwrap();
    let without_attr = weisfeiler_lehman_graph_hash(&graph, None, 3, 16).unwrap();
    assert_ne!(with_attr, without_attr);
}

#[test]
fn degree_counts_parallel_edges_and_self_loops() {
    let mut graph = Graph::new();
    let x = graph.add_node("X".to_string());
    let y = graph.add_node("Y".to_string());
    graph.add_edge(x, y);
    graph.add_edge(x, y);
    graph.add_edge(x, x);
    let labels = init_node_labels(&graph, None);
    // Two parallel edges plus one self-loop (counted once) at x.
    assert_eq!(labels[x], "3");
    assert_eq!(labels[y], "2");
}

#[test]
fn isolated_node_has_degree_zero() {
    let mut graph = Graph::new();
    let lone = graph.add_node("L".to_string());
    let labels = init_node_labels(&graph, None);
    assert_eq!(labels[lone], "0");
}

#[test]
fn aggregate_sorts_successor_labels() {
    let mut graph = Graph::new();
    let a = graph.add_node("a".to_string());
    let b = graph.add_node("b".to_string());
    let c = graph.add_node("c".to_string());
    graph.add_edge(a, c);
    graph.add_edge(a, b);
    let labels = vec!["Z".to_string(), "B".to_string(), "C".to_string()];
    let agg = neighborhood_aggregate(&graph, a, &labels).unwrap();
    assert_eq!(agg, "ZBC");
}

#[test]
fn aggregate_keeps_duplicate_labels() {
    let mut graph = Graph::new();
    let a = graph.add_node("a".to_string());
    let b = graph.add_node("b".to_string());
    let c = graph.add_node("c".to_string());
    graph.add_edge(a, b);
    graph.add_edge(a, c);
    let labels = vec!["P".to_string(), "Q".to_string(), "Q".to_string()];
    let agg = neighborhood_aggregate(&graph, a, &labels).unwrap();
    assert_eq!(agg, "PQQ");
}

#[test]
fn aggregate_reports_missing_neighbor_label() {
    let mut graph = Graph::new();
    let a = graph.add_node("a".to_string());
    let b = graph.add_node("b".to_string());
    graph.add_edge(a, b);
    // The table only covers node a; b's label is missing.
    let labels = vec!["A".to_string()];
    let result = neighborhood_aggregate(&graph, a, &labels);
    assert_eq!(result, Err(WlError::LabelLookupFailure(b)));
}

#[test]
fn aggregate_reports_missing_own_label() {
    let mut graph = Graph::new();
    let a = graph.add_node("a".to_string());
    let labels: Vec<String> = Vec::new();
    let result = neighborhood_aggregate(&graph, a, &labels);
    assert_eq!(result, Err(WlError::LabelLookupFailure(a)));
}

#[test]
fn oversized_digest_size_is_rejected() {
    let graph = path_graph();
    assert_eq!(
        weisfeiler_lehman_graph_hash(&graph, None, 3, 65),
        Err(WlError::InvalidDigestSize)
    );
    assert_eq!(
        weisfeiler_lehman_graph_hash(&graph, None, 0, 1000),
        Err(WlError::InvalidDigestSize)
    );
    assert_eq!(hash_label("x", 65), Err(WlError::InvalidDigestSize));
}

#[test]
fn hash_label_transforms_its_input() {
    // If compression or hex encoding handed its input through unchanged, the
    // output could not be 32 lowercase hex characters for this input.
    let d = hash_label("Teststring", 16).unwrap();
    assert_eq!(d.len(), 32);
    assert_ne!(d, "Teststring");
    assert!(d.chars().all(|c| c.is_ascii_hexdigit() && !c.is_ascii_uppercase()));
    // Different inputs give different digests.
    let e = hash_label("Teststring2", 16).unwrap();
    assert_ne!(d, e);
    // Equal inputs give equal digests.
    assert_eq!(d, hash_label("Teststring", 16).unwrap());
}

#[test]
fn label_counts_sorts_and_counts() {
    let labels = vec![
        "b".to_string(),
        "a".to_string(),
        "b".to_string(),
        "c".to_string(),
        "a".to_string(),
    ];
    let counts = label_counts(&labels);
    assert_eq!(
        counts,
        vec![("a".to_string(), 2), ("b".to_string(), 2), ("c".to_string(), 1)]
    );
}

#[test]
fn render_counts_canonical_format() {
    let pairs = vec![("x".to_string(), 2), ("y".to_string(), 12)];
    let rendered = render_counts(&pairs);
    assert_eq!(rendered, "(x,2)(y,12)");
    let empty: Vec<(String, usize)> = Vec::new();
    assert_eq!(render_counts(&empty), "");
}

#[test]
fn empty_graph_hashes() {
    let graph = Graph::new();
    let h = weisfeiler_lehman_graph_hash(&graph, None, 3, 16).unwrap();
    assert_eq!(h.len(), 32);
    // With no nodes every round contributes nothing, so any iteration count
    // gives the digest of the empty accumulated sequence.
    let h0 = weisfeiler_lehman_graph_hash(&graph, None, 0, 16).unwrap();
    assert_eq!(h, h0);
}

#[test]
fn step_relabels_every_node() {
    let graph = path_graph();
    let labels = init_node_labels(&graph, None);
    let next = wl_graph_hash::wl::weisfeiler_lehman_step(&graph, &labels, 16).unwrap();
    assert_eq!(next.len(), 3);
    for l in &next {
        assert_eq!(l.len(), 32);
        assert!(l.chars().all(|c| c.is_ascii_hexdigit() && !c.is_ascii_uppercase()));
    }
    // The same round computed twice gives the same table.
    let again = wl_graph_hash::wl::weisfeiler_lehman_step(&graph, &labels, 16).unwrap();
    assert_eq!(next, again);
}

#[test]
fn step_rejects_oversized_digest() {
    let graph = path_graph();
    let labels = init_node_labels(&graph, None);
    let r = wl_graph_hash::wl::weisfeiler_lehman_step(&graph, &labels, 65);
    assert_eq!(r, Err(WlError::InvalidDigestSize));
}
