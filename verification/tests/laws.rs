//! Concrete checks of the library's stated laws: builder symmetry and
//! weight bounds, weight conservation under aggregation, modularity
//! boundedness, idempotence of a converged local-move pass, determinism of
//! the driver, and the three worked scenarios.

use mortality_louvain::analysis::{
    aggregate_graph, calculate_modularity, initialize_communities, local_move_pass, run_louvain,
};
use mortality_louvain::graph::{build_graph, Edge, Graph};
use mortality_louvain::node::Node;

fn record(label: u64, year: i32, age: i32, estimate: u64) -> Node {
    Node::new("Deaths per 100,000", 1, "Sex and race", 4, "Some group", label, "1988", year, "All ages", age, estimate)
}

/// Two disconnected triangles over six nodes, unit weights.
fn two_triangles() -> Graph {
    let e = |to: usize| Edge { to, weight: 1_000_000 };
    Graph {
        ids: vec![0, 1, 2, 3, 4, 5],
        adj: vec![
            vec![e(1), e(2)],
            vec![e(0), e(2)],
            vec![e(0), e(1)],
            vec![e(4), e(5)],
            vec![e(3), e(5)],
            vec![e(3), e(4)],
        ],
    }
}

fn total_stored_weight(g: &Graph) -> u128 {
    let mut t: u128 = 0;
    for row in &g.adj {
        for e in row {
            if e.to < g.adj.len() {
                t += e.weight as u128;
            }
        }
    }
    t
}

#[test]
fn builder_output_is_symmetric_with_unit_weights() {
    // Symmetry: (u, v, w) stored implies (v, u, w) stored; and every weight
    // lies in [0, 1.0].
    let nodes = vec![
        record(413, 12, 0, 202),
        record(413, 13, 0, 199),
        record(500, 14, 0, 209),
        record(500, 12, 1, 7),
        record(600, 20, 2, 1000),
    ];
    let g = build_graph(nodes);
    for (u, row) in g.adj.iter().enumerate() {
        for e in row {
            assert!(e.weight <= 1_000_000);
            assert!(e.to < g.adj.len());
            assert_ne!(e.to, u);
            let mirrored = g.adj[e.to]
                .iter()
                .any(|back| back.to == u && back.weight == e.weight);
            assert!(mirrored);
        }
    }
}

#[test]
fn aggregation_conserves_cross_community_weight() {
    // Weight conservation: the aggregated total equals the cross-community
    // weight of the input; the intra-community weight is the exact
    // difference.
    let g = two_triangles();
    // A partition cutting through both triangles.
    let comm: Vec<usize> = vec![0, 0, 1, 2, 2, 3];
    let total_before = total_stored_weight(&g);
    let mut cross: u128 = 0;
    for (u, row) in g.adj.iter().enumerate() {
        for e in row {
            if comm[u] != comm[e.to] {
                cross += e.weight as u128;
            }
        }
    }
    let h = aggregate_graph(&g, &comm);
    let total_after = total_stored_weight(&h);
    assert_eq!(total_after, cross);
    assert_eq!(total_before - total_after, total_before - cross);
    // The concrete numbers: each triangle has 2 of its 3 edges cut.
    assert_eq!(cross, 8_000_000);
    assert_eq!(total_before, 12_000_000);
}

#[test]
fn modularity_stays_within_unit_bounds() {
    // Modularity boundedness: -1 <= num/den <= 1 on assorted partitions.
    let g = two_triangles();
    let partitions: Vec<Vec<usize>> = vec![
        vec![0, 0, 0, 0, 0, 0],
        vec![0, 1, 2, 3, 4, 5],
        vec![0, 0, 0, 1, 1, 1],
        vec![0, 1, 0, 1, 0, 1],
    ];
    for comm in partitions {
        let r = calculate_modularity(&g, &comm);
        assert!(r.den >= 1);
        assert!(-r.den <= r.num && r.num <= r.den);
    }
}

#[test]
fn converged_pass_changes_nothing() {
    // Idempotence of convergence: once a pass reports no change, running it
    // again reports no change and leaves the partition untouched.
    let g = two_triangles();
    let s = 12_000_000u64;
    let mut comm = initialize_communities(&g);
    let mut guard = 0;
    loop {
        let changed = local_move_pass(&g, &mut comm, s);
        guard += 1;
        if !changed {
            break;
        }
        assert!(guard < 200);
    }
    let settled = comm.clone();
    let changed_again = local_move_pass(&g, &mut comm, s);
    assert!(!changed_again);
    assert_eq!(comm, settled);
}

#[test]
fn louvain_is_deterministic() {
    // Determinism: two runs on the identical graph (same insertion order)
    // yield the identical partition.
    let nodes = || {
        vec![
            record(413, 12, 0, 202),
            record(413, 13, 0, 199),
            record(500, 14, 0, 209),
            record(500, 12, 1, 7),
            record(600, 20, 2, 1000),
        ]
    };
    let g1 = build_graph(nodes());
    let g2 = build_graph(nodes());
    let r1 = run_louvain(&g1);
    let r2 = run_louvain(&g2);
    assert_eq!(r1, r2);
}

#[test]
fn three_record_triangle_scenario() {
    // Three records with estimates 20.2, 19.9, 20.9 sharing a label code:
    // the builder weighs the triangle roughly 0.985 / 0.966 / 0.952, and
    // the single-community modularity of that triangle is positive.
    let nodes = vec![
        record(413, 12, 0, 202),
        record(413, 13, 0, 199),
        record(413, 14, 0, 209),
    ];
    let g = build_graph(nodes);
    let w_ab = g.adj[0][0].weight as f64 / 1e6;
    let w_ac = g.adj[0][1].weight as f64 / 1e6;
    let w_bc = g.adj[1][1].weight as f64 / 1e6;
    assert!((w_ab - 0.985).abs() < 1e-3);
    assert!((w_ac - 0.966).abs() < 1e-3);
    assert!((w_bc - 0.952).abs() < 1e-3);

    let r = calculate_modularity(&g, &vec![0, 0, 0]);
    assert!(r.num > 0);
}

#[test]
fn two_triangle_scenario_finds_both_communities() {
    // Two disconnected triangles: the driver discovers exactly two
    // communities, one per triangle.  With the edge-sum scorer of this
    // design the two-community score equals the single-community score on
    // a graph with no cross edges (no edge changes sides), so the scores
    // are compared for consistency rather than strict improvement.
    let g = two_triangles();
    let mapping = run_louvain(&g);
    assert_eq!(mapping, vec![0, 0, 0, 1, 1, 1]);

    let split = calculate_modularity(&g, &mapping);
    let lumped = calculate_modularity(&g, &vec![0, 0, 0, 0, 0, 0]);
    // Cross-multiplied comparison of the exact fractions.
    assert!(split.num * lumped.den >= lumped.num * split.den);
}

#[test]
fn single_node_scenario() {
    // A single node with no edges: modularity is the degenerate 0, and the
    // driver assigns the node its own community.
    let g = Graph { ids: vec![7], adj: vec![vec![]] };
    let r = calculate_modularity(&g, &vec![0]);
    assert_eq!(r.num, 0);
    assert_eq!(r.den, 1);
    let mapping = run_louvain(&g);
    assert_eq!(mapping, vec![0]);
}

#[test]
fn empty_input_yields_empty_output() {
    // An empty record set gives an empty graph and an empty mapping, not a
    // crash.
    let g = build_graph(vec![]);
    assert_eq!(g.ids.len(), 0);
    assert_eq!(g.adj.len(), 0);
    let mapping = run_louvain(&g);
    assert!(mapping.is_empty());
    let r = calculate_modularity(&g, &vec![]);
    assert_eq!(r.num, 0);
    assert_eq!(r.den, 1);
}
