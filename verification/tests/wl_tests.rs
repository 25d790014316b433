use wl_graph_hash::graph::Graph;
use wl_graph_hash::wl::{
    hash_label, init_node_labels, neighborhood_aggregate, weisfeiler_lehman_graph_hash,
};

#[test]
fn test_hash_label() {
    let label = "Teststring";
    let digest_size = 16;
    match hash_label(label, digest_size) {
        Ok(hash) => println!("{}", hash),
        Err(e) => println!("Error: {:?}", e),
    }
}

#[test]
fn wl_test_weisfeiler_lehman_graph_hash() {
    let mut graph = Graph::new();
    let a = graph.add_node("A".to_string());
    let b = graph.add_node("B".to_string());
    let c = graph.add_node("C".to_string());

    graph.add_edge(a, b);
    graph.add_edge(b, c);

    let hash = weisfeiler_lehman_graph_hash(&graph, None, 3, 16).unwrap();
    println!("{}", hash);
    assert!(!hash.is_empty());
}

#[test]
fn wl_test_weisfeiler_lehman_graph_hash_isomorphic() {
    let mut g1 = Graph::new();
    let n1 = g1.add_node("1".to_string());
    let n2 = g1.add_node("2".to_string());
    let n3 = g1.add_node("3".to_string());
    let n4 = g1.add_node("4".to_string());

    g1.add_edge(n1, n2);
    g1.add_edge(n2, n3);
    g1.add_edge(n3, n1);
    g1.add_edge(n1, n4);

    let mut g2 = Graph::new();
    let n5 = g2.add_node("5".to_string());
    let n6 = g2.add_node("6".to_string());
    let n7 = g2.add_node("7".to_string());
    let n8 = g2.add_node("8".to_string());

    g2.add_edge(n5, n6);
    g2.add_edge(n6, n7);
    g2.add_edge(n7, n5);
    g2.add_edge(n7, n8);

    let hash1 = weisfeiler_lehman_graph_hash(&g1, None, 3, 16).unwrap();
    let hash2 = weisfeiler_lehman_graph_hash(&g2, None, 3, 16).unwrap();

    println!("Isomorphic");
    println!("Hash1: {}", hash1);
    println!("Hash2: {}", hash2);

    assert_eq!(hash1, hash2);
}

#[test]
fn wl_test_weisfeiler_lehman_graph_hash_non_isomorphic() {
    let mut g1 = Graph::new();
    let n1 = g1.add_node("1".to_string());
    let n2 = g1.add_node("2".to_string());
    let n3 = g1.add_node("3".to_string());
    let n4 = g1.add_node("4".to_string());

    g1.add_edge(n1, n2);
    g1.add_edge(n2, n3);
    g1.add_edge(n3, n1);
    g1.add_edge(n1, n4);

    let mut g2 = Graph::new();
    let n5 = g2.add_node("5".to_string());
    let n6 = g2.add_node("6".to_string());
    let n7 = g2.add_node("7".to_string());
    let n8 = g2.add_node("8".to_string());

    g2.add_edge(n5, n6);
    g2.add_edge(n6, n7);
    g2.add_edge(n7, n5);
    g2.add_edge(n7, n8);

    let hash1 = weisfeiler_lehman_graph_hash(&g1, Some("label"), 3, 16).unwrap();
    let hash2 = weisfeiler_lehman_graph_hash(&g2, Some("label"), 3, 16).unwrap();

    println!("Non-Isomorphic");
    println!("Hash1: {}", hash1);
    println!("Hash2: {}", hash2);

    assert_ne!(hash1, hash2);
}

#[test]
fn test_init_node_labels() {
    let mut graph = Graph::new();

    let a = graph.add_node("A".to_string());
    let b = graph.add_node("B".to_string());
    let c = graph.add_node("C".to_string());

    graph.add_edge(a, b);
    graph.add_edge(b, c);

    let labels_with_attr = init_node_labels(&graph, Some("label"));
    assert_eq!(labels_with_attr[a], "A");
    assert_eq!(labels_with_attr[b], "B");
    assert_eq!(labels_with_attr[c], "C");

    let labels_without_attr = init_node_labels(&graph, None);
    assert_eq!(labels_without_attr[a], "1");
    assert_eq!(labels_without_attr[b], "2");
    assert_eq!(labels_without_attr[c], "1");
}

#[test]
fn test_neighborhood_aggregate() {
    // Create a new directed graph
    let mut graph = Graph::new();

    // Add nodes to the graph
    let a = graph.add_node("A".to_string());
    let b = graph.add_node("B".to_string());
    let c = graph.add_node("C".to_string());

    // Add edges to the graph
    graph.add_edge(a, b);
    graph.add_edge(b, c);

    // Initialize node labels
    let node_labels = vec!["A".to_string(), "B".to_string(), "C".to_string()];

    // Test neighborhood aggregation for node 'a'
    let result = neighborhood_aggregate(&graph, a, &node_labels);
    assert!(result.is_ok());
    assert_eq!(result.unwrap(), "A".to_string() + "B");

    // Test neighborhood aggregation for node 'b'
    let result = neighborhood_aggregate(&graph, b, &node_labels);
    assert!(result.is_ok());
    assert_eq!(result.unwrap(), "B".to_string() + "C");

    // Test neighborhood aggregation for node 'c'
    let result = neighborhood_aggregate(&graph, c, &node_labels);
    assert!(result.is_ok());
    assert_eq!(result.unwrap(), "C".to_string());
}

#[test]
fn lib_test_weisfeiler_lehman_graph_hash() {
    let mut graph = Graph::new();
    let a = graph.add_node("A".to_string());
    let b = graph.add_node("B".to_string());
    let c = graph.add_node("C".to_string());

    graph.add_edge(a, b);
    graph.add_edge(b, c);

    let hash = weisfeiler_lehman_graph_hash(&graph, None, 3, 16).unwrap();
    println!("{}", hash);
    assert!(!hash.is_empty());
}

#[test]
fn lib_test_weisfeiler_lehman_graph_hash_isomorphic() {
    let mut g1 = Graph::new();
    let n1 = g1.add_node("1".to_string());
    let n2 = g1.add_node("2".to_string());
    let n3 = g1.add_node("3".to_string());
    let n4 = g1.add_node("4".to_string());

    g1.add_edge(n1, n2);
    g1.add_edge(n2, n3);
    g1.add_edge(n3, n1);
    g1.add_edge(n1, n4);

    let mut g2 = Graph::new();
    let n5 = g2.add_node("5".to_string());
    let n6 = g2.add_node("6".to_string());
    let n7 = g2.add_node("7".to_string());
    let n8 = g2.add_node("8".to_string());

    g2.add_edge(n5, n6);
    g2.add_edge(n6, n7);
    g2.add_edge(n7, n5);
    g2.add_edge(n7, n8);

    let hash1 = weisfeiler_lehman_graph_hash(&g1, None, 3, 16).unwrap();
    let hash2 = weisfeiler_lehman_graph_hash(&g2, None, 3, 16).unwrap();

    println!("Isomorphic");
    println!("Hash1: {}", hash1);
    println!("Hash2: {}", hash2);

    assert_eq!(hash1, hash2);
}

#[test]
fn lib_test_weisfeiler_lehman_graph_hash_non_isomorphic() {
    let mut g1 = Graph::new();
    let n1 = g1.add_node("1".to_string());
    let n2 = g1.add_node("2".to_string());
    let n3 = g1.add_node("3".to_string());
    let n4 = g1.add_node("4".to_string());

    g1.add_edge(n1, n2);
    g1.add_edge(n2, n3);
    g1.add_edge(n3, n1);
    g1.add_edge(n1, n4);

    let mut g2 = Graph::new();
    let n5 = g2.add_node("5".to_string());
    let n6 = g2.add_node("6".to_string());
    let n7 = g2.add_node("7".to_string());
    let n8 = g2.add_node("8".to_string());

    g2.add_edge(n5, n6);
    g2.add_edge(n6, n7);
    g2.add_edge(n7, n5);
    g2.add_edge(n7, n8);

    let hash1 = weisfeiler_lehman_graph_hash(&g1, Some("label"), 3, 16).unwrap();
    let hash2 = weisfeiler_lehman_graph_hash(&g2, Some("label"), 3, 16).unwrap();

    println!("Non-Isomorphic");
    println!("Hash1: {}", hash1);
    println!("Hash2: {}", hash2);

    assert_ne!(hash1, hash2);
}
