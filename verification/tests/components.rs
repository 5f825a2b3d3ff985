//! Checks of the record-level components: grouping, weighing, dedup policy
//! and the per-group edge assigner.

use mortality_louvain::edge_assigner::assign_edges_in_hashmaps;
use mortality_louvain::graph::{build_graph, split_by_unit_num, subdivide_by_stub_name_num, weight_of_estimates, Edge};
use mortality_louvain::node::Node;

fn record_full(unit_num: i32, stub_name_num: i32, label: u64, year: i32, age: i32, estimate: u64) -> Node {
    Node::new("Deaths per 100,000", unit_num, "Sex and race", stub_name_num, "Some group", label, "1988", year, "All ages", age, estimate)
}

#[test]
fn split_keeps_order_within_groups() {
    let nodes = vec![
        record_full(1, 4, 1, 1, 1, 10),
        record_full(2, 4, 2, 2, 2, 20),
        record_full(1, 4, 3, 3, 3, 30),
        record_full(3, 4, 4, 4, 4, 40),
    ];
    let (g1, g2) = split_by_unit_num(nodes);
    assert_eq!(g1.len(), 2);
    assert_eq!(g1[0].stub_label_num, 1);
    assert_eq!(g1[1].stub_label_num, 3);
    assert_eq!(g2.len(), 2);
    assert_eq!(g2[0].stub_label_num, 2);
    assert_eq!(g2[1].stub_label_num, 4);
}

#[test]
fn subdivide_routes_by_code_and_drops_strays() {
    let nodes = vec![
        record_full(1, 4, 1, 1, 1, 10),
        record_full(1, 0, 2, 2, 2, 20),
        record_full(1, 11, 3, 3, 3, 30),
        record_full(1, 12, 4, 4, 4, 40),
        record_full(1, -1, 5, 5, 5, 50),
        record_full(1, 4, 6, 6, 6, 60),
    ];
    let groups = subdivide_by_stub_name_num(nodes);
    assert_eq!(groups.len(), 12);
    assert_eq!(groups[4].len(), 2);
    assert_eq!(groups[4][0].stub_label_num, 1);
    assert_eq!(groups[4][1].stub_label_num, 6);
    assert_eq!(groups[0].len(), 1);
    assert_eq!(groups[11].len(), 1);
    // Codes 12 and -1 fall outside the twelve groups and are dropped.
    let total: usize = groups.iter().map(|g| g.len()).sum();
    assert_eq!(total, 4);
}

#[test]
fn weight_formula_exact_values() {
    // Equal estimates weigh 1.0 exactly; the ratio shrinks toward 0 as the
    // estimates diverge.
    assert_eq!(weight_of_estimates(500, 500), 1_000_000);
    assert_eq!(weight_of_estimates(1, 2), 500_000);
    assert_eq!(weight_of_estimates(2, 1), 500_000);
    assert_eq!(weight_of_estimates(199, 202), 199_000_000 / 202);
    assert_eq!(weight_of_estimates(1, 1_000_000), 1);
    assert_eq!(weight_of_estimates(1, 2_000_000), 0);
}

#[test]
fn zero_estimate_records_form_no_nodes() {
    let nodes = vec![
        record_full(1, 4, 413, 12, 0, 0),
        record_full(1, 4, 413, 13, 0, 199),
        record_full(1, 4, 413, 14, 0, 0),
    ];
    let g = build_graph(nodes);
    assert_eq!(g.ids.len(), 1);
    assert!(g.adj[0].is_empty());
}

#[test]
fn duplicate_identifiers_keep_first_record() {
    // Two records with the same three codes share a canonical identifier;
    // the first wins.
    let nodes = vec![
        record_full(1, 4, 413, 12, 0, 100),
        record_full(1, 4, 413, 12, 0, 999),
        record_full(1, 4, 413, 13, 0, 200),
    ];
    let g = build_graph(nodes);
    assert_eq!(g.ids.len(), 2);
    // The surviving pair weighs 100/200, not 999-based.
    assert_eq!(g.adj[0][0].weight, 500_000);
}

#[test]
fn ineligible_pairs_stay_apart() {
    // No categorical code in common: no edge.
    let nodes = vec![
        record_full(1, 4, 1, 10, 1, 100),
        record_full(1, 4, 2, 20, 2, 100),
    ];
    let g = build_graph(nodes);
    assert_eq!(g.ids.len(), 2);
    assert!(g.adj[0].is_empty());
    assert!(g.adj[1].is_empty());
}

#[test]
fn assigner_weighs_groups_independently() {
    let groups = vec![
        vec![
            record_full(1, 4, 413, 12, 0, 202),
            record_full(1, 4, 413, 13, 0, 199),
        ],
        vec![
            record_full(1, 5, 500, 14, 0, 100),
            record_full(1, 5, 600, 15, 1, 100),
        ],
        vec![],
    ];
    let edges = assign_edges_in_hashmaps(&groups);
    assert_eq!(edges.len(), 3);
    let w = 199u64 * 1_000_000 / 202;
    assert_eq!(edges[0][0], vec![Edge { to: 1, weight: w }]);
    assert_eq!(edges[0][1], vec![Edge { to: 0, weight: w }]);
    // The second group's records share no code: no edges.
    assert!(edges[1][0].is_empty());
    assert!(edges[1][1].is_empty());
    assert!(edges[2].is_empty());
}
