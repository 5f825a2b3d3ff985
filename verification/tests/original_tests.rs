//! The component tests: each checks one engine function on a small concrete
//! graph, with weights written in millionths (1.0 is 1_000_000) and
//! estimates in tenths (20.2 is 202).

use mortality_louvain::analysis::{
    aggregate_graph, calculate_modularity, find_best_community_for_node, initialize_communities,
    update_community_degrees,
};
use mortality_louvain::graph::{build_graph, Edge, Graph};
use mortality_louvain::node::Node;

fn edge(to: usize, weight: u64) -> Edge {
    Edge { to, weight }
}

/// The three-node path: A-B with weight 1.0, B-C with weight 2.0, stored
/// symmetrically.
fn path_graph() -> Graph {
    Graph {
        ids: vec![65, 66, 67],
        adj: vec![
            vec![edge(1, 1_000_000)],
            vec![edge(0, 1_000_000), edge(2, 2_000_000)],
            vec![edge(1, 2_000_000)],
        ],
    }
}

#[test]
fn test_initialize_communities() {
    let graph = path_graph();
    let communities = initialize_communities(&graph);
    let expected: Vec<usize> = vec![0, 1, 2];
    assert_eq!(communities, expected);
}

#[test]
fn test_calculate_modularity() {
    let graph = path_graph();
    let communities: Vec<usize> = vec![0, 0, 0]; // All nodes in one community
    let modularity = calculate_modularity(&graph, &communities);
    println!("the modularity is: {}/{}", modularity.num, modularity.den);
    let expected_modularity = 0.5; // No separation of communities
    let score = modularity.num as f64 / modularity.den as f64;
    assert!((score - expected_modularity).abs() < 1e-6);
}

#[test]
fn test_find_best_community_for_node() {
    let graph = Graph {
        ids: vec![65, 66, 67],
        adj: vec![
            vec![edge(1, 1_000_000), edge(2, 1_000_000)],
            vec![edge(0, 1_000_000)],
            vec![edge(0, 1_000_000)],
        ],
    };
    let communities: Vec<usize> = vec![0, 1, 1];
    let total_weight: u64 = 3_000_000; // Total edge weight = 3.0

    let best_community = find_best_community_for_node(&graph, &communities, total_weight, 0);

    assert_eq!(best_community, 1);
}

#[test]
fn test_update_community_degrees() {
    let graph = path_graph();
    let communities: Vec<usize> = vec![0, 0, 1];

    let degrees = update_community_degrees(&graph, &communities);

    // Community 0: A-B (1.0) + B-C (2.0) counted once for B
    assert_eq!(degrees[0], 4_000_000);
    // Community 1: C-B (2.0)
    assert_eq!(degrees[1], 2_000_000);
    assert_eq!(degrees[2], 0);
}

#[test]
fn test_aggregate_graph() {
    let graph = path_graph();
    let communities: Vec<usize> = vec![0, 0, 1];

    let aggregated = aggregate_graph(&graph, &communities);

    // The intra-community edge A-B is dropped (no self-loops); the
    // cross-community weight B-C survives between communities 0 and 1.
    assert_eq!(aggregated.ids, vec![0, 1]);
    assert_eq!(aggregated.adj.len(), 2);
    assert_eq!(aggregated.adj[0], vec![edge(1, 2_000_000)]);
    assert_eq!(aggregated.adj[1], vec![edge(0, 2_000_000)]);
}

#[test]
fn test_build_graph() {
    // Input test data: three records sharing the category code 4.13.
    let nodes = vec![
        Node::new("Deaths per 100,000", 1, "Sex and race", 4, "Male: AI/AN", 413, "1988", 12, "All ages", 0, 202),
        Node::new("Deaths per 100,000", 1, "Sex and race", 4, "Male: AI/AN", 413, "1989", 13, "All ages", 0, 199),
        Node::new("Deaths per 100,000", 2, "Sex and race", 4, "Male: AI/AN", 413, "1990", 14, "All ages", 0, 209),
    ];
    let id_a = nodes[0].id();
    let id_b = nodes[1].id();
    let id_c = nodes[2].id();

    let graph = build_graph(nodes);

    // Weight of a pair is the smaller estimate over the larger, in
    // millionths: the fixed-point form of 1 - |a/hi - b/hi|.
    let w_ab = 199u64 * 1_000_000 / 202;
    let w_ac = 202u64 * 1_000_000 / 209;
    let w_bc = 199u64 * 1_000_000 / 209;

    assert_eq!(graph.ids, vec![id_a, id_b, id_c]);
    assert_eq!(graph.adj[0], vec![edge(1, w_ab), edge(2, w_ac)]);
    assert_eq!(graph.adj[1], vec![edge(0, w_ab), edge(2, w_bc)]);
    assert_eq!(graph.adj[2], vec![edge(0, w_ac), edge(1, w_bc)]);
}

#[test]
fn test_node_initialization() {
    // Create a Node instance using the constructor
    let node = Node::new(
        "Deaths per 100,000",
        2,
        "Sex and race",
        4,
        "Male: American Indian or Alaska Native",
        413,
        "1988",
        12,
        "All ages",
        0,
        202,
    );

    // Define the expected Node
    let expected = Node {
        unit: "Deaths per 100,000".to_string(),
        unit_num: 2,
        stub_name: "Sex and race".to_string(),
        stub_name_num: 4,
        stub_label: "Male: American Indian or Alaska Native".to_string(),
        stub_label_num: 413,
        year: "1988".to_string(),
        year_num: 12,
        age: "All ages".to_string(),
        age_num: 0,
        estimate: 202,
    };

    // Check equality
    assert_eq!(node, expected);
}

#[test]
fn test_node_debug_format() {
    // Create a Node instance
    let node = Node::new(
        "Deaths per 100,000",
        2,
        "Sex and race",
        4,
        "Male: American Indian or Alaska Native",
        413,
        "1988",
        12,
        "All ages",
        0,
        202,
    );

    // Verify the Debug output (formatted string)
    let debug_output = format!("{:?}", node);
    let expected_output = "Node { unit: \"Deaths per 100,000\", unit_num: 2, stub_name: \"Sex and race\", stub_name_num: 4, stub_label: \"Male: American Indian or Alaska Native\", stub_label_num: 413, year: \"1988\", year_num: 12, age: \"All ages\", age_num: 0, estimate: 202 }";

    assert_eq!(debug_output, expected_output);
}
