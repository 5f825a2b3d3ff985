//! The community-detection engine: modularity scoring, greedy local moves,
//! graph aggregation, and the multi-level driver.
//!
//! All scores are exact.  With `S` the total stored weight of the graph
//! (each undirected edge counted once per direction, so `S = 2m` in the
//! usual notation), the modularity of a partition is
//! `sum over stored intra-community edges (i, j, w) of (w*S - k_i*k_j)`
//! divided by `S^2`, where `k_i` is the weighted degree of node `i`.  That
//! is the classical edge sum `(w - k_i*k_j/2m) / 2m` brought to one exact
//! integer fraction.

use vstd::prelude::*;
use crate::graph::Graph;
use crate::graph::GraphModel;
use crate::graph::Edge;
use crate::graph::MAX_NODES;
use crate::graph::MAX_TOTAL_WEIGHT;
use crate::graph::valid_weight;
use crate::graph::guarded3;
use crate::graph::entry_row_fn;
use crate::graph::entry_sum;
use crate::graph::weight_term;
use crate::graph::lemma_degree_nonneg;
use crate::graph::lemma_degree_le_total;
use crate::graph::lemma_total_weight_nonneg;
use crate::graph::lemma_entry_le_degree;
use crate::graph::lemma_entry_sum_le;
use crate::graph::lemma_entry_sum_scale;
use crate::graph::lemma_entry_sum_congruence;
use crate::graph::lemma_entry_sum_total;
use crate::graph::lemma_entry_sum_nonneg;
use crate::graph::lemma_entry_sum_zero;
use crate::graph::lemma_entry_sum_linear;
use crate::graph::lemma_entry_sum_swap;
use crate::graph::lemma_wf_implies_bounded;
use crate::graph::lemma_partial_entry_sum_le_total;
use crate::sums::rsum;
use crate::sums::ssum;
use crate::sums::lemma_rsum_zero;
use crate::sums::lemma_rsum_congruence;
use crate::sums::lemma_dsum_congruence;
use crate::sums::dsum;
use crate::sums::lemma_rsum_nonneg;
use crate::sums::lemma_rsum_prefix_le;
use crate::sums::lemma_rsum_le;
use crate::sums::lemma_rsum_scale;
use crate::sums::lemma_rsum_abs_bounded;
use crate::sums::lemma_ssum_zero;
use crate::sums::lemma_ssum_le;
use crate::sums::lemma_ssum_take_le;
use crate::sums::lemma_ssum_abs_bounded;
use crate::sums::lemma_ssum_scale;
use crate::sums::lemma_ssum_map;
use crate::sums::lemma_ssum_congruence;
use crate::sums::lemma_ssum_take_step;
use crate::sums::lemma_ssum_take_all;
use crate::sums::lemma_ssum_distinct_le_rsum;

verus! {

/// An exact rational score: `num / den`, with `den` at least 1.
#[derive(Clone, Copy, PartialEq, Eq, Structural, Debug)]
pub struct Ratio {
    pub num: i128,
    pub den: i128,
}

/// The modularity summand of one stored edge `(i, j, w)`: inside one
/// community it contributes `w*S - k_i*k_j`, across communities nothing.
pub open spec fn intra_term(m: GraphModel, comm: Seq<usize>) -> spec_fn(int, int, int) -> int {
    |i: int, j: int, w: int|
        if comm[i] == comm[j] {
            w * m.total_weight() - m.degree(i) * m.degree(j)
        } else {
            0
        }
}

/// The exact modularity numerator of a partition.
pub open spec fn mod_num(m: GraphModel, comm: Seq<usize>) -> int {
    entry_sum(m, intra_term(m, comm))
}

/// The exact modularity denominator: `S^2`, or 1 for a weightless graph
/// (whose modularity is the legitimate degenerate score 0, never a division
/// by zero).
pub open spec fn mod_den(m: GraphModel) -> int {
    if m.total_weight() == 0 {
        1
    } else {
        m.total_weight() * m.total_weight()
    }
}

/// In a weightless graph every degree is zero and the modularity numerator
/// vanishes.
pub proof fn lemma_mod_num_zero_total(m: GraphModel, comm: Seq<usize>)
    requires
        m.total_weight() == 0,
    ensures
        mod_num(m, comm) == 0,
{
    let f = intra_term(m, comm);
    assert forall|i: int| 0 <= i < m.n() implies #[trigger] entry_row_fn(m, f)(i) == 0 by {
        let s = m.adj[i];
        assert forall|k: int| 0 <= k < s.len() implies #[trigger] guarded3(m, f, i)(s[k]) == 0 by {
            let e = s[k];
            if (e.to as int) < m.n() {
                lemma_entry_le_degree(m, i, k);
                lemma_degree_le_total(m, i);
                lemma_degree_le_total(m, e.to as int);
                assert(e.weight == 0 && m.degree(i) == 0 && m.degree(e.to as int) == 0);
                assert(0 * 0 - 0 * 0 == 0) by (nonlinear_arith);
            }
        }
        lemma_ssum_zero(s, guarded3(m, f, i));
    }
    lemma_rsum_zero(m.n(), entry_row_fn(m, f));
}

/// The weight each adjacency entry's target node carries, for entries that
/// point at real nodes.
pub open spec fn target_degree(m: GraphModel) -> spec_fn(Edge) -> int {
    |e: Edge|
        if (e.to as int) < m.n() {
            m.degree(e.to as int)
        } else {
            0
        }
}

/// In a well-formed graph, summing `k_i * k_j` over all stored edges stays
/// within `S^2`: each row contributes at most `k_i * S`.
proof fn lemma_degree_product_sum_le(m: GraphModel)
    requires
        m.entries_valid(),
        m.rows_distinct(),
    ensures
        entry_sum(m, |i: int, j: int, w: int| m.degree(i) * m.degree(j)) <= m.total_weight()
            * m.total_weight(),
{
    let n = m.n();
    let s_tot = m.total_weight();
    let dd = |i: int, j: int, w: int| m.degree(i) * m.degree(j);
    let row_bound = |i: int| m.degree(i) * s_tot;
    assert forall|j: int| 0 <= j < n implies #[trigger] m.degree_fn()(j) >= 0 by {
        lemma_degree_nonneg(m, j);
    }
    assert forall|i: int| 0 <= i < n implies #[trigger] entry_row_fn(m, dd)(i)
        <= #[trigger] row_bound(i) by {
        let s = m.adj[i];
        let tos = s.map_values(|e: Edge| e.to as int);
        // Each entry contributes k_i times its target's degree.
        assert forall|k: int| 0 <= k < s.len() implies #[trigger] guarded3(m, dd, i)(s[k])
            == m.degree(i) * #[trigger] target_degree(m)(s[k]) by {
            assert(s[k].to < n);
        }
        lemma_ssum_scale(s, target_degree(m), guarded3(m, dd, i), m.degree(i));
        // The targets are distinct real nodes, so their degrees sum to at
        // most the total weight.
        assert forall|k: int| 0 <= k < s.len() implies #[trigger] target_degree(m)(s[k])
            == m.degree_fn()(tos[k]) by {
            assert(s[k].to < n);
        }
        lemma_ssum_map(
            s,
            |e: Edge| e.to as int,
            m.degree_fn(),
            target_degree(m),
        );
        assert forall|k1: int, k2: int| 0 <= k1 < k2 < tos.len() implies tos[k1] != tos[k2] by {
            assert(s[k1].to != s[k2].to);
        }
        lemma_ssum_distinct_le_rsum(tos, n, m.degree_fn());
        assert(ssum(s, target_degree(m)) <= s_tot);
        lemma_degree_nonneg(m, i);
        assert(m.degree(i) * ssum(s, target_degree(m)) <= m.degree(i) * s_tot)
            by (nonlinear_arith)
            requires
                m.degree(i) >= 0,
                ssum(s, target_degree(m)) <= s_tot,
        ;
    }
    lemma_rsum_le(n, entry_row_fn(m, dd), row_bound);
    assert forall|i: int| 0 <= i < n implies #[trigger] row_bound(i) == s_tot
        * #[trigger] m.degree_fn()(i) by {
        assert(m.degree(i) * s_tot == s_tot * m.degree(i)) by (nonlinear_arith);
    }
    lemma_rsum_scale(n, m.degree_fn(), row_bound, s_tot);
}

/// Modularity is bounded: for any well-formed graph and any total
/// partition, `-1 <= mod_num / mod_den <= 1`, i.e. the numerator stays
/// within the denominator.
pub proof fn lemma_modularity_bounded(m: GraphModel, comm: Seq<usize>)
    requires
        m.entries_valid(),
        m.rows_distinct(),
        comm.len() == m.n(),
    ensures
        mod_den(m) >= 1,
        -mod_den(m) <= mod_num(m, comm) <= mod_den(m),
{
    let s_tot = m.total_weight();
    lemma_total_weight_nonneg(m);
    if s_tot == 0 {
        lemma_mod_num_zero_total(m, comm);
    } else {
        assert(s_tot * s_tot >= 1) by (nonlinear_arith)
            requires
                s_tot >= 1,
        ;
        let f = intra_term(m, comm);
        let ws = |i: int, j: int, w: int| w * s_tot;
        let dd = |i: int, j: int, w: int| m.degree(i) * m.degree(j);
        let ndd = |i: int, j: int, w: int| -(m.degree(i) * m.degree(j));
        // Upper bound: dropping the null-model term only grows each
        // summand.
        assert forall|i: int, j: int, w: int| 0 <= i < m.n() && 0 <= j < m.n() && w >= 0 implies
            #[trigger] f(i, j, w) <= #[trigger] ws(i, j, w) by {
            lemma_degree_nonneg(m, i);
            lemma_degree_nonneg(m, j);
            assert(m.degree(i) * m.degree(j) >= 0) by (nonlinear_arith)
                requires
                    m.degree(i) >= 0,
                    m.degree(j) >= 0,
            ;
            assert(w * s_tot >= 0) by (nonlinear_arith)
                requires
                    w >= 0,
                    s_tot >= 0,
            ;
        }
        lemma_entry_sum_le(m, f, ws);
        assert forall|i: int, j: int, w: int| 0 <= i < m.n() && 0 <= j < m.n() && w >= 0 implies
            #[trigger] ws(i, j, w) == s_tot * #[trigger] weight_term()(i, j, w) by {
            assert(w * s_tot == s_tot * w) by (nonlinear_arith);
        }
        lemma_entry_sum_scale(m, weight_term(), ws, s_tot);
        lemma_entry_sum_total(m);
        assert(mod_num(m, comm) <= s_tot * s_tot);
        // Lower bound: dropping the edge-weight term only shrinks each
        // summand, and the degree products sum to at most `S^2`.
        assert forall|i: int, j: int, w: int| 0 <= i < m.n() && 0 <= j < m.n() && w >= 0 implies
            #[trigger] ndd(i, j, w) <= #[trigger] f(i, j, w) by {
            lemma_degree_nonneg(m, i);
            lemma_degree_nonneg(m, j);
            assert(m.degree(i) * m.degree(j) >= 0) by (nonlinear_arith)
                requires
                    m.degree(i) >= 0,
                    m.degree(j) >= 0,
            ;
            assert(w * s_tot >= 0) by (nonlinear_arith)
                requires
                    w >= 0,
                    s_tot >= 0,
            ;
        }
        lemma_entry_sum_le(m, ndd, f);
        assert forall|i: int, j: int, w: int| 0 <= i < m.n() && 0 <= j < m.n() && w >= 0 implies
            #[trigger] ndd(i, j, w) == (-1) * #[trigger] dd(i, j, w) by {
            assert((-1) * (m.degree(i) * m.degree(j)) == -(m.degree(i) * m.degree(j)))
                by (nonlinear_arith);
        }
        lemma_entry_sum_scale(m, dd, ndd, -1);
        lemma_degree_product_sum_le(m);
        assert(entry_sum(m, ndd) == (-1) * entry_sum(m, dd));
        assert((-1) * entry_sum(m, dd) >= -(s_tot * s_tot)) by (nonlinear_arith)
            requires
                entry_sum(m, dd) <= s_tot * s_tot,
        ;
    }
}

/// Computes the modularity of a partition as an exact rational.
///
/// The partition must cover every node; the graph needs only its size
/// bounds, not internal consistency: adjacency entries pointing outside the
/// node range count for nothing, the recoverable policy for partial graphs.
/// A graph without edge weight scores the degenerate 0, never a division by
/// zero.
pub fn calculate_modularity(graph: &Graph, communities: &Vec<usize>) -> (r: Ratio)
    requires
        graph@.bounded(),
        communities@.len() == graph@.n(),
    ensures
        r.num == mod_num(graph@, communities@),
        r.den == mod_den(graph@),
        r.den >= 1,
{
    let ghost m = graph@;
    let ghost f = intra_term(m, communities@);
    let s_tot = graph.total_weight();
    if s_tot == 0 {
        proof {
            lemma_mod_num_zero_total(m, communities@);
        }
        return Ratio { num: 0, den: 1 };
    }
    let degs = graph.degrees();
    let n = graph.node_count();
    let mut acc: i128 = 0;
    let mut i: usize = 0;
    proof {
        lemma_total_weight_nonneg(m);
    }
    while i < n
        invariant
            m == graph@,
            m.bounded(),
            communities@.len() == m.n(),
            f == intra_term(m, communities@),
            n == m.n(),
            s_tot == m.total_weight(),
            0 < s_tot <= MAX_TOTAL_WEIGHT,
            degs@.len() == n,
            forall|p: int| 0 <= p < n ==> degs@[p] == m.degree(p),
            i <= n,
            acc == rsum(i as nat, entry_row_fn(m, f)),
        decreases n - i,
    {
        let ghost gf = guarded3(m, f, i as int);
        let row = &graph.adj[i];
        let mut k: usize = 0;
        let mut racc: i128 = 0;
        proof {
            assert(row@.take(0) =~= Seq::<Edge>::empty());
        }
        while k < row.len()
            invariant
                m == graph@,
                m.bounded(),
                communities@.len() == m.n(),
                f == intra_term(m, communities@),
                gf == guarded3(m, f, i as int),
                n == m.n(),
                i < n,
                s_tot == m.total_weight(),
                0 < s_tot <= MAX_TOTAL_WEIGHT,
                degs@.len() == n,
                forall|p: int| 0 <= p < n ==> degs@[p] == m.degree(p),
                row@ == m.adj[i as int],
                k <= row.len(),
                racc == ssum(row@.take(k as int), gf),
            decreases row.len() - k,
        {
            let e = row[k];
            proof {
                lemma_ssum_take_step(row@, gf, k as int);
                if (e.to as int) < m.n() {
                    lemma_entry_le_degree(m, i as int, k as int);
                    lemma_degree_le_total(m, i as int);
                    lemma_degree_le_total(m, e.to as int);
                }
                // The running row sum stays within `len * S^2`.
                assert forall|k0: int| 0 <= k0 < row@.len() implies -(
                (MAX_TOTAL_WEIGHT as int) * (MAX_TOTAL_WEIGHT as int)) <= #[trigger] gf(row@[k0])
                    <= (MAX_TOTAL_WEIGHT as int) * (MAX_TOTAL_WEIGHT as int) by {
                    lemma_term_abs_bound(m, communities@, i as int, k0);
                }
                lemma_ssum_abs_bounded(
                    row@.take(k as int + 1),
                    gf,
                    (MAX_TOTAL_WEIGHT as int) * (MAX_TOTAL_WEIGHT as int),
                );
                assert(row@.take(k as int + 1).len() * ((MAX_TOTAL_WEIGHT as int)
                    * (MAX_TOTAL_WEIGHT as int)) <= (MAX_NODES as int) * ((MAX_TOTAL_WEIGHT as int)
                    * (MAX_TOTAL_WEIGHT as int))) by (nonlinear_arith)
                    requires
                        0 <= row@.take(k as int + 1).len() <= MAX_NODES as int,
                ;
            }
            if e.to < n && communities[i] == communities[e.to] {
                proof {
                    assert(0 <= (e.weight as int) * (s_tot as int) <= (MAX_TOTAL_WEIGHT as int)
                        * (MAX_TOTAL_WEIGHT as int) && 0 <= (degs@[i as int] as int) * (degs@[
                        e.to as int] as int) <= (MAX_TOTAL_WEIGHT as int) * (
                    MAX_TOTAL_WEIGHT as int)) by (nonlinear_arith)
                        requires
                            0 <= e.weight <= MAX_TOTAL_WEIGHT as int,
                            0 <= s_tot <= MAX_TOTAL_WEIGHT as int,
                            0 <= degs@[i as int] <= MAX_TOTAL_WEIGHT as int,
                            0 <= degs@[e.to as int] <= MAX_TOTAL_WEIGHT as int,
                    ;
                }
                let term: i128 = (e.weight as i128) * (s_tot as i128) - (degs[i] as i128) * (
                degs[e.to] as i128);
                racc = racc + term;
            }
            k = k + 1;
        }
        proof {
            lemma_ssum_take_all(row@, gf);
            assert(racc == entry_row_fn(m, f)(i as int));
            assert(rsum(i as nat + 1, entry_row_fn(m, f)) == rsum(i as nat, entry_row_fn(m, f))
                + entry_row_fn(m, f)(i as int));
            // The outer accumulator stays within `n * n * S^2`.
            assert forall|p: int| 0 <= p < n implies -((MAX_NODES as int) * ((
            MAX_TOTAL_WEIGHT as int) * (MAX_TOTAL_WEIGHT as int))) <= #[trigger] entry_row_fn(
                m,
                f,
            )(p) <= (MAX_NODES as int) * ((MAX_TOTAL_WEIGHT as int) * (MAX_TOTAL_WEIGHT as int)) by {
                lemma_row_abs_bound(m, communities@, p);
            }
            lemma_rsum_abs_bounded(
                (i + 1) as nat,
                entry_row_fn(m, f),
                (MAX_NODES as int) * ((MAX_TOTAL_WEIGHT as int) * (MAX_TOTAL_WEIGHT as int)),
            );
            assert(((i + 1) as nat) * ((MAX_NODES as int) * ((MAX_TOTAL_WEIGHT as int)
                * (MAX_TOTAL_WEIGHT as int))) <= (MAX_NODES as int) * ((MAX_NODES as int) * ((
            MAX_TOTAL_WEIGHT as int) * (MAX_TOTAL_WEIGHT as int)))) by (nonlinear_arith)
                requires
                    0 <= (i + 1) as nat <= MAX_NODES as int,
            ;
        }
        acc = acc + racc;
        i = i + 1;
    }
    proof {
        assert(acc == entry_sum(m, f));
        assert(1 <= (s_tot as int) * (s_tot as int) <= (MAX_TOTAL_WEIGHT as int) * (
        MAX_TOTAL_WEIGHT as int)) by (nonlinear_arith)
            requires
                1 <= s_tot <= MAX_TOTAL_WEIGHT as int,
        ;
    }
    Ratio { num: acc, den: (s_tot as i128) * (s_tot as i128) }
}

/// One modularity summand stays within `S^2` in magnitude.
proof fn lemma_term_abs_bound(m: GraphModel, comm: Seq<usize>, i: int, k: int)
    requires
        m.bounded(),
        comm.len() == m.n(),
        0 <= i < m.n(),
        0 <= k < m.adj[i].len(),
    ensures
        -((MAX_TOTAL_WEIGHT as int) * (MAX_TOTAL_WEIGHT as int)) <= guarded3(
            m,
            intra_term(m, comm),
            i,
        )(m.adj[i][k]) <= (MAX_TOTAL_WEIGHT as int) * (MAX_TOTAL_WEIGHT as int),
{
    let e = m.adj[i][k];
    let cap = MAX_TOTAL_WEIGHT as int;
    if (e.to as int) < m.n() {
        lemma_entry_le_degree(m, i, k);
        lemma_degree_le_total(m, i);
        lemma_degree_le_total(m, e.to as int);
        lemma_total_weight_nonneg(m);
        assert(0 <= e.weight * m.total_weight() <= cap * cap && 0 <= m.degree(i) * m.degree(
            e.to as int,
        ) <= cap * cap) by (nonlinear_arith)
            requires
                0 <= e.weight <= m.total_weight() <= cap,
                0 <= m.degree(i) <= m.total_weight() <= cap,
                0 <= m.degree(e.to as int) <= m.total_weight() <= cap,
        ;
    } else {
        assert(cap * cap >= 0) by (nonlinear_arith);
    }
}

/// One modularity row sum stays within `n * S^2` in magnitude.
proof fn lemma_row_abs_bound(m: GraphModel, comm: Seq<usize>, p: int)
    requires
        m.bounded(),
        comm.len() == m.n(),
        0 <= p < m.n(),
    ensures
        -((MAX_NODES as int) * ((MAX_TOTAL_WEIGHT as int) * (MAX_TOTAL_WEIGHT as int)))
            <= entry_row_fn(m, intra_term(m, comm))(p) <= (MAX_NODES as int) * ((
        MAX_TOTAL_WEIGHT as int) * (MAX_TOTAL_WEIGHT as int)),
{
    let f = intra_term(m, comm);
    let gf = guarded3(m, f, p);
    let s = m.adj[p];
    let cap2 = (MAX_TOTAL_WEIGHT as int) * (MAX_TOTAL_WEIGHT as int);
    assert forall|k0: int| 0 <= k0 < s.len() implies -cap2 <= #[trigger] gf(s[k0]) <= cap2 by {
        lemma_term_abs_bound(m, comm, p, k0);
    }
    assert(cap2 >= 0) by (nonlinear_arith)
        requires
            cap2 == (MAX_TOTAL_WEIGHT as int) * (MAX_TOTAL_WEIGHT as int),
    ;
    lemma_ssum_abs_bounded(s, gf, cap2);
    assert(s.len() * cap2 <= (MAX_NODES as int) * cap2 && -((MAX_NODES as int) * cap2) <= -(s.len()
        * cap2)) by (nonlinear_arith)
        requires
            0 <= s.len() <= MAX_NODES as int,
            cap2 >= 0,
    ;
}

/// The singleton partition: node `i` alone in community `i`.
pub open spec fn init_comm(n: nat) -> Seq<usize> {
    Seq::new(n, |i: int| i as usize)
}

/// A total partition of `n` nodes into communities named below `n`.
pub open spec fn valid_partition(comm: Seq<usize>, n: nat) -> bool {
    &&& comm.len() == n
    &&& forall|i: int| 0 <= i < n ==> (#[trigger] comm[i]) < n
}

/// Assigns every node its own singleton community, in node order (node
/// order is the graph's stable insertion order, so the numbering is
/// reproducible).
pub fn initialize_communities(graph: &Graph) -> (r: Vec<usize>)
    ensures
        r@ == init_comm(graph@.n()),
        valid_partition(r@, graph@.n()),
{
    let n = graph.node_count();
    let mut r: Vec<usize> = Vec::new();
    let mut i: usize = 0;
    while i < n
        invariant
            i <= n,
            n == graph@.n(),
            r@.len() == i,
            forall|p: int| 0 <= p < i ==> r@[p] == p,
        decreases n - i,
    {
        r.push(i);
        i = i + 1;
    }
    proof {
        assert(r@ =~= init_comm(graph@.n()));
    }
    r
}

/// Node `i`'s degree when it lies in community `c`, else nothing.
pub open spec fn cdeg_term(m: GraphModel, comm: Seq<usize>, c: int) -> spec_fn(int) -> int {
    |i: int|
        if comm[i] == c {
            m.degree(i)
        } else {
            0
        }
}

/// The degree of community `c`: the summed weighted degrees of its
/// current members.
pub open spec fn comm_degree(m: GraphModel, comm: Seq<usize>, c: int) -> int {
    rsum(m.n(), cdeg_term(m, comm, c))
}

/// A community's degree is between 0 and the total weight.
pub proof fn lemma_comm_degree_le_total(m: GraphModel, comm: Seq<usize>, c: int, upto: nat)
    requires
        upto <= m.n(),
    ensures
        0 <= rsum(upto, cdeg_term(m, comm, c)) <= m.total_weight(),
{
    assert forall|i: int| 0 <= i < m.n() implies 0 <= #[trigger] cdeg_term(m, comm, c)(i) by {
        lemma_degree_nonneg(m, i);
    }
    assert forall|i: int| 0 <= i < m.n() implies cdeg_term(m, comm, c)(i)
        <= #[trigger] m.degree_fn()(i) by {
        lemma_degree_nonneg(m, i);
    }
    lemma_rsum_nonneg(upto, cdeg_term(m, comm, c));
    lemma_rsum_le(upto, cdeg_term(m, comm, c), m.degree_fn());
    assert forall|i: int| 0 <= i < m.n() implies #[trigger] m.degree_fn()(i) >= 0 by {
        lemma_degree_nonneg(m, i);
    }
    lemma_rsum_prefix_le(upto, m.n(), m.degree_fn());
}

/// Computes the degree of every community in one pass over the nodes.
pub fn update_community_degrees(graph: &Graph, communities: &Vec<usize>) -> (r: Vec<u64>)
    requires
        graph@.bounded(),
        valid_partition(communities@, graph@.n()),
    ensures
        r@.len() == graph@.n(),
        forall|c: int| 0 <= c < graph@.n() ==> r@[c] == comm_degree(graph@, communities@, c),
{
    let ghost m = graph@;
    let ghost comm = communities@;
    let n = graph.node_count();
    let degs = graph.degrees();
    let mut r: Vec<u64> = Vec::new();
    let mut z: usize = 0;
    while z < n
        invariant
            z <= n,
            r@.len() == z,
            forall|c: int| 0 <= c < z ==> r@[c] == 0,
        decreases n - z,
    {
        r.push(0);
        z = z + 1;
    }
    let mut i: usize = 0;
    while i < n
        invariant
            m == graph@,
            comm == communities@,
            m.bounded(),
            valid_partition(comm, m.n()),
            n == m.n(),
            degs@.len() == n,
            forall|p: int| 0 <= p < n ==> degs@[p] == m.degree(p),
            i <= n,
            r@.len() == n,
            forall|c: int| 0 <= c < n ==> r@[c] == rsum(i as nat, cdeg_term(m, comm, c)),
        decreases n - i,
    {
        let c = communities[i];
        proof {
            lemma_comm_degree_le_total(m, comm, c as int, i as nat);
            assert(rsum(i as nat + 1, cdeg_term(m, comm, c as int)) == rsum(
                i as nat,
                cdeg_term(m, comm, c as int),
            ) + cdeg_term(m, comm, c as int)(i as int));
            lemma_comm_degree_le_total(m, comm, c as int, i as nat + 1);
            lemma_degree_nonneg(m, i as int);
        }
        let ghost r_old = r@;
        let updated = r[c] + degs[i];
        r.set(c, updated);
        proof {
            assert forall|c2: int| 0 <= c2 < n implies #[trigger] r@[c2] == rsum(
                i as nat + 1,
                cdeg_term(m, comm, c2),
            ) by {
                assert(rsum(i as nat + 1, cdeg_term(m, comm, c2)) == rsum(
                    i as nat,
                    cdeg_term(m, comm, c2),
                ) + cdeg_term(m, comm, c2)(i as int));
                if c2 != c as int {
                    assert(r@[c2] == r_old[c2]);
                    assert(cdeg_term(m, comm, c2)(i as int) == 0);
                }
            }
        }
        i = i + 1;
    }
    r
}


/// The weight an adjacency entry contributes toward community `c`: counted
/// when it reaches a real node that currently lies in `c`.
pub open spec fn nw_term(m: GraphModel, comm: Seq<usize>, c: int) -> spec_fn(Edge) -> int {
    |e: Edge|
        if (e.to as int) < m.n() && comm[e.to as int] == c {
            e.weight as int
        } else {
            0
        }
}

/// The total weight of node `u`'s edges into community `c`.
pub open spec fn neigh_weight(m: GraphModel, comm: Seq<usize>, u: int, c: int) -> int {
    ssum(m.adj[u], nw_term(m, comm, c))
}

/// Community `c` is a candidate destination for node `u`: its own current
/// community, or the community of one of its neighbors.
pub open spec fn candidate(m: GraphModel, comm: Seq<usize>, u: int, c: int) -> bool {
    ||| c == comm[u] as int
    ||| exists|k: int|
        0 <= k < m.adj[u].len() && ((#[trigger] m.adj[u][k]).to as int) < m.n() && comm[m.adj[u][k].to as int] as int == c
}

/// The modularity gain of moving `u` into community `c`, scaled by the
/// (positive) factor `2 m^2` so that comparisons are exact integer
/// comparisons: `cw(c)*S - k_u * deg(c)`, where `deg(c)` is the community
/// degree with `u` itself taken out of its own community first.
pub open spec fn gain(m: GraphModel, comm: Seq<usize>, s_param: int, u: int, c: int) -> int {
    neigh_weight(m, comm, u, c) * s_param - m.degree(u) * (comm_degree(m, comm, c) - if c
        == comm[u] as int {
        m.degree(u)
    } else {
        0
    })
}

/// The greedy fold that chooses a community for `u`: start from the node's
/// own community and walk candidate communities in ascending order, keeping
/// the first one whose gain strictly beats the best so far.  Ties therefore
/// keep the node's own community, else the lowest community id.
pub open spec fn best_upto(m: GraphModel, comm: Seq<usize>, s_param: int, u: int, c_lim: nat) -> (
    usize,
    int,
)
    decreases c_lim,
{
    if c_lim == 0 {
        (comm[u], gain(m, comm, s_param, u, comm[u] as int))
    } else {
        let prev = best_upto(m, comm, s_param, u, (c_lim - 1) as nat);
        let c = c_lim - 1;
        if candidate(m, comm, u, c) && gain(m, comm, s_param, u, c) > prev.1 {
            (c as usize, gain(m, comm, s_param, u, c))
        } else {
            prev
        }
    }
}

/// The community the Local-Move Optimizer sends node `u` to.
pub open spec fn best_community(m: GraphModel, comm: Seq<usize>, s_param: int, u: int) -> usize {
    best_upto(m, comm, s_param, u, m.n()).0
}

/// What the greedy fold guarantees: the chosen community is a candidate
/// carrying the maximum gain; on ties the node's own community wins, else
/// the lowest community id.
pub proof fn lemma_best_upto_props(
    m: GraphModel,
    comm: Seq<usize>,
    s_param: int,
    u: int,
    c_lim: nat,
)
    requires
        valid_partition(comm, m.n()),
        0 <= u < m.n(),
        c_lim <= m.n(),
    ensures
        best_upto(m, comm, s_param, u, c_lim).1 == gain(
            m,
            comm,
            s_param,
            u,
            best_upto(m, comm, s_param, u, c_lim).0 as int,
        ),
        candidate(m, comm, u, best_upto(m, comm, s_param, u, c_lim).0 as int),
        best_upto(m, comm, s_param, u, c_lim).0 < m.n(),
        forall|c: int|
            0 <= c < c_lim && candidate(m, comm, u, c) ==> gain(m, comm, s_param, u, c)
                <= best_upto(m, comm, s_param, u, c_lim).1,
        best_upto(m, comm, s_param, u, c_lim).0 == comm[u] || (best_upto(
            m,
            comm,
            s_param,
            u,
            c_lim,
        ).0 < c_lim && best_upto(m, comm, s_param, u, c_lim).1 > gain(
            m,
            comm,
            s_param,
            u,
            comm[u] as int,
        ) && forall|c: int|
            0 <= c < best_upto(m, comm, s_param, u, c_lim).0 && candidate(m, comm, u, c) ==> gain(
                m,
                comm,
                s_param,
                u,
                c,
            ) < best_upto(m, comm, s_param, u, c_lim).1),
    decreases c_lim,
{
    if c_lim > 0 {
        lemma_best_upto_props(m, comm, s_param, u, (c_lim - 1) as nat);
    }
}

/// The grouped neighbor weight is within the node's degree (and so within
/// the caps).
proof fn lemma_neigh_weight_le(m: GraphModel, comm: Seq<usize>, u: int, c: int)
    requires
        m.bounded(),
        0 <= u < m.n(),
    ensures
        0 <= neigh_weight(m, comm, u, c) <= m.degree(u) <= m.total_weight(),
{
    let s = m.adj[u];
    assert forall|k0: int| 0 <= k0 < s.len() implies 0 <= #[trigger] nw_term(m, comm, c)(s[k0]) by {}
    assert forall|k0: int| 0 <= k0 < s.len() implies nw_term(m, comm, c)(s[k0])
        <= #[trigger] valid_weight(m.n())(s[k0]) by {}
    crate::sums::lemma_ssum_nonneg(s, nw_term(m, comm, c));
    lemma_ssum_le(s, nw_term(m, comm, c), valid_weight(m.n()));
    lemma_degree_le_total(m, u);
}

/// A node's degree is part of its own community's degree.
proof fn lemma_own_comm_degree_ge(m: GraphModel, comm: Seq<usize>, u: int)
    requires
        valid_partition(comm, m.n()),
        0 <= u < m.n(),
    ensures
        comm_degree(m, comm, comm[u] as int) >= m.degree(u),
{
    let c = comm[u] as int;
    assert forall|i: int| 0 <= i < m.n() implies #[trigger] cdeg_term(m, comm, c)(i) >= 0 by {
        lemma_degree_nonneg(m, i);
    }
    crate::sums::lemma_rsum_element_le(m.n(), cdeg_term(m, comm, c), u);
    assert(cdeg_term(m, comm, c)(u) == m.degree(u));
}

/// Computes one gain value exactly in 128-bit arithmetic.
fn gain_value(
    cw: u64,
    total_weight: u64,
    k_u: u64,
    cdeg: u64,
    is_own: bool,
    Ghost(m): Ghost<GraphModel>,
    Ghost(comm): Ghost<Seq<usize>>,
    Ghost(c): Ghost<int>,
    Ghost(u): Ghost<int>,
) -> (g: i128)
    requires
        m.bounded(),
        valid_partition(comm, m.n()),
        0 <= u < m.n(),
        0 <= c < m.n(),
        cw == neigh_weight(m, comm, u, c),
        k_u == m.degree(u),
        cdeg == comm_degree(m, comm, c),
        is_own == (c == comm[u] as int),
    ensures
        g == gain(m, comm, total_weight as int, u, c),
{
    proof {
        lemma_comm_degree_le_total(m, comm, c, m.n());
        lemma_degree_le_total(m, u);
        lemma_neigh_weight_le(m, comm, u, c);
        if is_own {
            lemma_own_comm_degree_ge(m, comm, u);
        }
        assert(0 <= (cw as int) * (total_weight as int) <= (MAX_TOTAL_WEIGHT as int) * (
        0xffff_ffff_ffff_ffff as int)) by (nonlinear_arith)
            requires
                0 <= cw <= MAX_TOTAL_WEIGHT as int,
                0 <= total_weight <= 0xffff_ffff_ffff_ffff as int,
        ;
    }
    let adjusted = if is_own {
        cdeg - k_u
    } else {
        cdeg
    };
    proof {
        assert(0 <= (k_u as int) * (adjusted as int) <= (MAX_TOTAL_WEIGHT as int) * (
        MAX_TOTAL_WEIGHT as int)) by (nonlinear_arith)
            requires
                0 <= k_u <= MAX_TOTAL_WEIGHT as int,
                0 <= adjusted <= MAX_TOTAL_WEIGHT as int,
        ;
    }
    (cw as i128) * (total_weight as i128) - (k_u as i128) * (adjusted as i128)
}

/// Finds the community with the greatest modularity gain for one node.
///
/// `total_weight` is the caller-supplied total stored weight `S` (twice the
/// undirected total).  Ties prefer the node's current community, then the
/// lowest community id, so the choice is deterministic.  A node with no
/// eligible neighbors keeps its own community.  Community degrees are
/// recomputed from the graph on each call — the simple fallback that is
/// exact by construction and adequate at the intended scale.
pub fn find_best_community_for_node(
    graph: &Graph,
    communities: &Vec<usize>,
    total_weight: u64,
    node: usize,
) -> (r: usize)
    requires
        graph@.bounded(),
        valid_partition(communities@, graph@.n()),
        node < graph@.n(),
    ensures
        r == best_community(graph@, communities@, total_weight as int, node as int),
        r < graph@.n(),
{
    let ghost m = graph@;
    let ghost comm = communities@;
    let ghost sp = total_weight as int;
    let n = graph.node_count();
    let degs = graph.degrees();
    let cdegs = update_community_degrees(graph, communities);
    let k_u = degs[node];
    // Group the node's incident weight by the community of each neighbor.
    let mut cwv: Vec<u64> = Vec::new();
    let mut cand: Vec<bool> = Vec::new();
    let mut z: usize = 0;
    while z < n
        invariant
            z <= n,
            cwv@.len() == z,
            cand@.len() == z,
            forall|c: int| 0 <= c < z ==> cwv@[c] == 0,
            forall|c: int| 0 <= c < z ==> cand@[c] == false,
        decreases n - z,
    {
        cwv.push(0);
        cand.push(false);
        z = z + 1;
    }
    let row = &graph.adj[node];
    let mut k: usize = 0;
    proof {
        assert forall|c: int| 0 <= c < n implies ssum(row@.take(0), nw_term(m, comm, c)) == 0 by {
            assert(row@.take(0) =~= Seq::<Edge>::empty());
        }
    }
    while k < row.len()
        invariant
            m == graph@,
            comm == communities@,
            m.bounded(),
            valid_partition(comm, m.n()),
            n == m.n(),
            node < n,
            row@ == m.adj[node as int],
            k <= row.len(),
            cwv@.len() == n,
            cand@.len() == n,
            forall|c: int| 0 <= c < n ==> cwv@[c] == ssum(row@.take(k as int), nw_term(m, comm, c)),
            forall|c: int|
                0 <= c < n ==> (cand@[c] == exists|k0: int|
                    0 <= k0 < k && ((#[trigger] row@[k0]).to as int) < m.n()
                        && comm[row@[k0].to as int] as int == c),
        decreases row.len() - k,
    {
        let e = row[k];
        proof {
            assert forall|c: int| 0 <= c < n implies ssum(
                row@.take(k as int + 1),
                nw_term(m, comm, c),
            ) == ssum(row@.take(k as int), nw_term(m, comm, c)) + nw_term(m, comm, c)(e) by {
                lemma_ssum_take_step(row@, nw_term(m, comm, c), k as int);
            }
        }
        if e.to < n {
            let c = communities[e.to];
            proof {
                // The grouped weight stays within the node's degree.
                assert forall|k0: int| 0 <= k0 < row@.take(k as int + 1).len() implies #[trigger] nw_term(
                    m,
                    comm,
                    c as int,
                )(row@.take(k as int + 1)[k0]) <= valid_weight(m.n())(
                    row@.take(k as int + 1)[k0],
                ) by {}
                lemma_ssum_le(
                    row@.take(k as int + 1),
                    nw_term(m, comm, c as int),
                    valid_weight(m.n()),
                );
                assert forall|k0: int| 0 <= k0 < row@.len() implies #[trigger] valid_weight(m.n())(
                    row@[k0],
                ) >= 0 by {}
                lemma_ssum_take_le(row@, valid_weight(m.n()), k as int + 1);
                lemma_degree_le_total(m, node as int);
            }
            let updated = cwv[c] + e.weight;
            cwv.set(c, updated);
            cand.set(c, true);
            proof {
                assert forall|c2: int| 0 <= c2 < n implies cwv@[c2] == ssum(
                    row@.take(k as int + 1),
                    nw_term(m, comm, c2),
                ) by {
                    if c2 != c as int {
                        assert(nw_term(m, comm, c2)(e) == 0);
                    }
                }
                assert forall|c2: int| 0 <= c2 < n implies (cand@[c2] == exists|k0: int|
                    0 <= k0 < k + 1 && ((#[trigger] row@[k0]).to as int) < m.n()
                        && comm[row@[k0].to as int] as int == c2) by {
                    if c2 == c as int {
                        assert(((row@[k as int]).to as int) < m.n()
                            && comm[row@[k as int].to as int] as int == c2);
                    } else {
                        assert forall|k0: int|
                            0 <= k0 < k + 1 && ((#[trigger] row@[k0]).to as int) < m.n()
                                && comm[row@[k0].to as int] as int == c2 implies k0 < k by {}
                    }
                }
            }
        } else {
            proof {
                assert forall|c2: int| 0 <= c2 < n implies cwv@[c2] == ssum(
                    row@.take(k as int + 1),
                    nw_term(m, comm, c2),
                ) by {
                    assert(nw_term(m, comm, c2)(e) == 0);
                }
                assert forall|c2: int| 0 <= c2 < n implies (cand@[c2] == exists|k0: int|
                    0 <= k0 < k + 1 && ((#[trigger] row@[k0]).to as int) < m.n()
                        && comm[row@[k0].to as int] as int == c2) by {
                    assert forall|k0: int|
                        0 <= k0 < k + 1 && ((#[trigger] row@[k0]).to as int) < m.n()
                            && comm[row@[k0].to as int] as int == c2 implies k0 < k by {}
                }
            }
        }
        k = k + 1;
    }
    proof {
        assert forall|c: int| 0 <= c < n implies cwv@[c] == neigh_weight(m, comm, node as int, c) by {
            lemma_ssum_take_all(row@, nw_term(m, comm, c));
        }
    }
    let own = communities[node];
    cand.set(own, true);
    proof {
        assert forall|c: int| 0 <= c < n implies (cand@[c] == candidate(m, comm, node as int, c)) by {}
    }
    // Walk the communities in ascending order, keeping the first strict
    // improvement; the node's own community is the starting point.
    let own_gain = gain_value(
        cwv[own],
        total_weight,
        k_u,
        cdegs[own],
        true,
        Ghost(m),
        Ghost(comm),
        Ghost(own as int),
        Ghost(node as int),
    );
    let mut best: usize = own;
    let mut bg: i128 = own_gain;
    let mut c: usize = 0;
    while c < n
        invariant
            m == graph@,
            comm == communities@,
            m.bounded(),
            valid_partition(comm, m.n()),
            n == m.n(),
            node < n,
            own == comm[node as int],
            degs@.len() == n,
            forall|p: int| 0 <= p < n ==> degs@[p] == m.degree(p),
            k_u == m.degree(node as int),
            cdegs@.len() == n,
            forall|p: int| 0 <= p < n ==> cdegs@[p] == comm_degree(m, comm, p),
            cwv@.len() == n,
            cand@.len() == n,
            forall|p: int| 0 <= p < n ==> cwv@[p] == neigh_weight(m, comm, node as int, p),
            forall|p: int| 0 <= p < n ==> (cand@[p] == candidate(m, comm, node as int, p)),
            c <= n,
            sp == total_weight as int,
            best < n,
            (best, bg as int) == best_upto(m, comm, sp, node as int, c as nat),
        decreases n - c,
    {
        if cand[c] {
            let g = gain_value(
                cwv[c],
                total_weight,
                k_u,
                cdegs[c],
                c == own,
                Ghost(m),
                Ghost(comm),
                Ghost(c as int),
                Ghost(node as int),
            );
            if g > bg {
                best = c;
                bg = g;
            }
        }
        c = c + 1;
    }
    best
}


/// The state of a local-move pass after the first `k` nodes have been
/// offered a move, starting from partition `comm0`: the partition so far
/// and whether any node changed community.  Each node is judged against
/// the partition as already modified by the nodes before it.
pub open spec fn pass_upto(m: GraphModel, s_param: int, comm0: Seq<usize>, k: nat) -> (
    Seq<usize>,
    bool,
)
    decreases k,
{
    if k == 0 {
        (comm0, false)
    } else {
        let prev = pass_upto(m, s_param, comm0, (k - 1) as nat);
        let u = k - 1;
        let b = best_community(m, prev.0, s_param, u);
        (prev.0.update(u, b), prev.1 || b != prev.0[u])
    }
}

/// One full local-move pass over all nodes.
pub open spec fn pass_result(m: GraphModel, s_param: int, comm0: Seq<usize>) -> (Seq<usize>, bool) {
    pass_upto(m, s_param, comm0, m.n())
}

/// The partition is locally optimal: no node would move.
pub open spec fn locally_optimal(m: GraphModel, s_param: int, comm: Seq<usize>) -> bool {
    forall|u: int|
        0 <= u < m.n() ==> best_community(m, comm, s_param, u) == (#[trigger] comm[u]) as int
}

/// A pass keeps the partition total and its community names in range.
pub proof fn lemma_pass_upto_valid(m: GraphModel, s_param: int, comm0: Seq<usize>, k: nat)
    requires
        valid_partition(comm0, m.n()),
        k <= m.n(),
    ensures
        valid_partition(pass_upto(m, s_param, comm0, k).0, m.n()),
    decreases k,
{
    if k > 0 {
        lemma_pass_upto_valid(m, s_param, comm0, (k - 1) as nat);
        let prev = pass_upto(m, s_param, comm0, (k - 1) as nat);
        lemma_best_upto_props(m, prev.0, s_param, k - 1, m.n());
    }
}

/// A pass reports no change exactly when every node already sits in its
/// best community of the starting partition; in that case the partition
/// comes back unchanged.
pub proof fn lemma_pass_upto_nochange(m: GraphModel, s_param: int, comm0: Seq<usize>, k: nat)
    requires
        valid_partition(comm0, m.n()),
        k <= m.n(),
    ensures
        !pass_upto(m, s_param, comm0, k).1 <==> (forall|u: int|
            0 <= u < k ==> best_community(m, comm0, s_param, u) == (#[trigger] comm0[u]) as int),
        !pass_upto(m, s_param, comm0, k).1 ==> pass_upto(m, s_param, comm0, k).0 == comm0,
    decreases k,
{
    if k > 0 {
        lemma_pass_upto_nochange(m, s_param, comm0, (k - 1) as nat);
        let prev = pass_upto(m, s_param, comm0, (k - 1) as nat);
        let u = k - 1;
        let b = best_community(m, prev.0, s_param, u);
        if !prev.1 {
            assert(prev.0 == comm0);
            if b == prev.0[u] {
                assert(prev.0.update(u, b) =~= comm0);
            }
        }
    }
}

/// Idempotence of convergence: a local-move pass over an already
/// locally-optimal partition reports no change and leaves the partition
/// exactly as it was.
pub proof fn lemma_local_move_idempotent(m: GraphModel, s_param: int, comm: Seq<usize>)
    requires
        valid_partition(comm, m.n()),
        locally_optimal(m, s_param, comm),
    ensures
        pass_result(m, s_param, comm) == (comm, false),
{
    lemma_pass_upto_nochange(m, s_param, comm, m.n());
}

/// One greedy pass of the Local-Move Optimizer: offers every node, in node
/// order, a move to its best candidate community, and reports whether any
/// node changed.
///
/// The report is exact: it comes back `false` precisely when the starting
/// partition was already locally optimal, and in that case the partition is
/// untouched — so re-running the pass on a converged partition is a no-op.
pub fn local_move_pass(graph: &Graph, communities: &mut Vec<usize>, total_weight: u64) -> (changed:
    bool)
    requires
        graph@.bounded(),
        valid_partition(old(communities)@, graph@.n()),
    ensures
        (final(communities)@, changed) == pass_result(
            graph@,
            total_weight as int,
            old(communities)@,
        ),
        valid_partition(final(communities)@, graph@.n()),
        !changed ==> final(communities)@ == old(communities)@,
        changed == !locally_optimal(graph@, total_weight as int, old(communities)@),
{
    let ghost m = graph@;
    let ghost comm0 = old(communities)@;
    let ghost sp = total_weight as int;
    let n = graph.node_count();
    let mut changed = false;
    let mut u: usize = 0;
    while u < n
        invariant
            m == graph@,
            m.bounded(),
            valid_partition(comm0, m.n()),
            n == m.n(),
            u <= n,
            (communities@, changed) == pass_upto(m, sp, comm0, u as nat),
            valid_partition(communities@, m.n()),
            sp == total_weight as int,
        decreases n - u,
    {
        let b = find_best_community_for_node(graph, communities, total_weight, u);
        let ghost prev = communities@;
        if b != communities[u] {
            changed = true;
        }
        communities.set(u, b);
        proof {
            assert(pass_upto(m, sp, comm0, u as nat + 1).0 == prev.update(u as int, b));
            lemma_pass_upto_valid(m, sp, comm0, u as nat + 1);
        }
        u = u + 1;
    }
    proof {
        lemma_pass_upto_nochange(m, sp, comm0, n as nat);
    }
    changed
}


/// Community `c` occurs in the partition.
pub open spec fn present(comm: Seq<usize>, c: int) -> bool {
    exists|i: int| 0 <= i < comm.len() && (#[trigger] comm[i]) as int == c
}

/// The distinct community ids below `lim` that occur in the partition,
/// ascending.
pub open spec fn agg_ids_upto(comm: Seq<usize>, lim: nat) -> Seq<u64>
    decreases lim,
{
    if lim == 0 {
        Seq::empty()
    } else {
        let pre = agg_ids_upto(comm, (lim - 1) as nat);
        if present(comm, lim - 1) {
            pre.push((lim - 1) as u64)
        } else {
            pre
        }
    }
}

/// The node identifiers of the aggregated graph: the distinct community
/// ids of a partition over `n` communities, ascending.
pub open spec fn agg_ids(comm: Seq<usize>, n: nat) -> Seq<u64> {
    agg_ids_upto(comm, n)
}

/// The position community `c` takes among the aggregated nodes: the count
/// of occupied communities below it.
pub open spec fn agg_rank(comm: Seq<usize>, c: int) -> int {
    agg_ids_upto(comm, c as nat).len() as int
}

/// Shape of the aggregated identifier list: its entries are the occupied
/// communities below `lim` in strictly ascending order, and each occupied
/// community sits at its rank.
pub proof fn lemma_agg_ids_props(comm: Seq<usize>, lim: nat)
    ensures
        agg_ids_upto(comm, lim).len() <= lim,
        forall|k: int|
            0 <= k < agg_ids_upto(comm, lim).len() ==> (#[trigger] agg_ids_upto(comm, lim)[k])
                < lim && present(comm, agg_ids_upto(comm, lim)[k] as int),
        forall|k1: int, k2: int|
            0 <= k1 < k2 < agg_ids_upto(comm, lim).len() ==> #[trigger] agg_ids_upto(comm, lim)[k1]
                < #[trigger] agg_ids_upto(comm, lim)[k2],
        forall|c: int|
            0 <= c < lim && present(comm, c) ==> 0 <= agg_rank(comm, c) < agg_ids_upto(
                comm,
                lim,
            ).len() && agg_ids_upto(comm, lim)[agg_rank(comm, c)] as int == c,
    decreases lim,
{
    if lim > 0 {
        lemma_agg_ids_props(comm, (lim - 1) as nat);
        let pre = agg_ids_upto(comm, (lim - 1) as nat);
        if present(comm, lim - 1) {
            assert(agg_rank(comm, lim - 1) == pre.len());
        }
    }
}

/// The summand picking out the lower-endpoint copy of each stored edge
/// crossing between communities `a` and `b`.
pub open spec fn pair_cross_term(comm: Seq<usize>, a: int, b: int) -> spec_fn(
    int,
    int,
    int,
) -> int {
    |i: int, j: int, w: int|
        if i < j && comm[i] != comm[j] && ((comm[i] as int == a && comm[j] as int == b) || (
        comm[i] as int == b && comm[j] as int == a)) {
            w
        } else {
            0
        }
}

/// The aggregated edge weight between communities `a` and `b`: the summed
/// weight of the edges between their members, each undirected edge counted
/// once.
pub open spec fn agg_w(m: GraphModel, comm: Seq<usize>, a: int, b: int) -> int {
    entry_sum(m, pair_cross_term(comm, a, b))
}

/// The aggregated weight is symmetric in the two communities.
pub proof fn lemma_agg_w_symmetric(m: GraphModel, comm: Seq<usize>, a: int, b: int)
    ensures
        agg_w(m, comm, a, b) == agg_w(m, comm, b, a),
{
    lemma_entry_sum_congruence(m, pair_cross_term(comm, a, b), pair_cross_term(comm, b, a));
}

/// The aggregated weight between a community and itself vanishes:
/// intra-community edges are dropped, so aggregated graphs carry no
/// self-loops.
pub proof fn lemma_agg_w_diag(m: GraphModel, comm: Seq<usize>, a: int)
    ensures
        agg_w(m, comm, a, a) == 0,
{
    assert forall|i: int, j: int, w: int| 0 <= i < m.n() && 0 <= j < m.n() && w >= 0 implies
        #[trigger] pair_cross_term(comm, a, a)(i, j, w) == 0 by {}
    lemma_entry_sum_zero(m, pair_cross_term(comm, a, a));
}

/// The aggregated weight between any two communities is between 0 and the
/// graph's total weight.
pub proof fn lemma_agg_w_bounds(m: GraphModel, comm: Seq<usize>, a: int, b: int)
    ensures
        0 <= agg_w(m, comm, a, b) <= m.total_weight(),
{
    assert forall|i: int, j: int, w: int| 0 <= i < m.n() && 0 <= j < m.n() && w >= 0 implies 0
        <= #[trigger] pair_cross_term(comm, a, b)(i, j, w) <= #[trigger] weight_term()(i, j, w) by {}
    lemma_entry_sum_nonneg(m, pair_cross_term(comm, a, b));
    lemma_entry_sum_le(m, pair_cross_term(comm, a, b), weight_term());
    lemma_entry_sum_total(m);
}

/// Row `p` of the aggregated graph, considering targets below `q_lim`: one
/// entry toward each other community with positive aggregated weight,
/// ascending.
pub open spec fn agg_row_upto(m: GraphModel, comm: Seq<usize>, p: int, q_lim: nat) -> Seq<Edge>
    decreases q_lim,
{
    if q_lim == 0 {
        Seq::empty()
    } else {
        let pre = agg_row_upto(m, comm, p, (q_lim - 1) as nat);
        let q = q_lim - 1;
        let ids = agg_ids(comm, m.n());
        let w = agg_w(m, comm, ids[p] as int, ids[q] as int);
        if q != p && w > 0 {
            pre.push(Edge { to: q as usize, weight: w as u64 })
        } else {
            pre
        }
    }
}

/// Shape of an aggregated row: entries point below `q_lim`, never at `p`,
/// carry the (positive) aggregated weight of their endpoints, and their
/// targets strictly increase.
pub proof fn lemma_agg_row_props(m: GraphModel, comm: Seq<usize>, p: int, q_lim: nat)
    requires
        q_lim <= agg_ids(comm, m.n()).len(),
        agg_ids(comm, m.n()).len() <= MAX_NODES,
        m.total_weight() <= MAX_TOTAL_WEIGHT,
    ensures
        agg_row_upto(m, comm, p, q_lim).len() <= q_lim,
        forall|k: int|
            0 <= k < agg_row_upto(m, comm, p, q_lim).len() ==> {
                let e = #[trigger] agg_row_upto(m, comm, p, q_lim)[k];
                &&& e.to < q_lim
                &&& e.to != p
                &&& e.weight == agg_w(
                    m,
                    comm,
                    agg_ids(comm, m.n())[p] as int,
                    agg_ids(comm, m.n())[e.to as int] as int,
                )
                &&& e.weight > 0
            },
        forall|k1: int, k2: int|
            0 <= k1 < k2 < agg_row_upto(m, comm, p, q_lim).len() ==> (#[trigger] agg_row_upto(
                m,
                comm,
                p,
                q_lim,
            )[k1]).to < (#[trigger] agg_row_upto(m, comm, p, q_lim)[k2]).to,
    decreases q_lim,
{
    if q_lim > 0 {
        lemma_agg_row_props(m, comm, p, (q_lim - 1) as nat);
        let ids = agg_ids(comm, m.n());
        let q = q_lim - 1;
        lemma_agg_w_bounds(m, comm, ids[p] as int, ids[q] as int);
    }
}

/// A pair of distinct communities with positive aggregated weight has an
/// entry in the aggregated row.
pub proof fn lemma_agg_row_contains(m: GraphModel, comm: Seq<usize>, p: int, q_lim: nat, q0: int)
    requires
        q_lim <= agg_ids(comm, m.n()).len(),
        agg_ids(comm, m.n()).len() <= MAX_NODES,
        m.total_weight() <= MAX_TOTAL_WEIGHT,
        0 <= q0 < q_lim,
        q0 != p,
        agg_w(m, comm, agg_ids(comm, m.n())[p] as int, agg_ids(comm, m.n())[q0] as int) > 0,
    ensures
        exists|k: int|
            0 <= k < agg_row_upto(m, comm, p, q_lim).len() && (#[trigger] agg_row_upto(
                m,
                comm,
                p,
                q_lim,
            )[k]).to == q0 && agg_row_upto(m, comm, p, q_lim)[k].weight == agg_w(
                m,
                comm,
                agg_ids(comm, m.n())[p] as int,
                agg_ids(comm, m.n())[q0] as int,
            ),
    decreases q_lim,
{
    let ids = agg_ids(comm, m.n());
    let row = agg_row_upto(m, comm, p, q_lim);
    let w = agg_w(m, comm, ids[p] as int, ids[q0] as int);
    if q0 == q_lim - 1 {
        lemma_agg_w_bounds(m, comm, ids[p] as int, ids[q0] as int);
        let kk = row.len() - 1;
        assert(0 <= kk < row.len() && (#[trigger] row[kk]).to == q0 && row[kk].weight == w);
    } else {
        lemma_agg_row_contains(m, comm, p, (q_lim - 1) as nat, q0);
        let pre = agg_row_upto(m, comm, p, (q_lim - 1) as nat);
        let k = choose|k: int|
            0 <= k < pre.len() && (#[trigger] pre[k]).to == q0 && pre[k].weight == w;
        assert(row[k] == pre[k]);
        assert(0 <= k < row.len() && (#[trigger] row[k]).to == q0 && row[k].weight == w);
    }
}

/// The valid-entry weight of an aggregated row is the sum of the
/// off-diagonal aggregated weights of its columns.
pub open spec fn agg_offdiag_fn(m: GraphModel, comm: Seq<usize>, p: int) -> spec_fn(int) -> int {
    |q: int|
        if q != p {
            agg_w(
                m,
                comm,
                agg_ids(comm, m.n())[p] as int,
                agg_ids(comm, m.n())[q] as int,
            )
        } else {
            0
        }
}

/// Summing an aggregated row's weights gives the off-diagonal column sum.
pub proof fn lemma_agg_row_sum(m: GraphModel, comm: Seq<usize>, p: int, q_lim: nat, nc: nat)
    requires
        nc == agg_ids(comm, m.n()).len(),
        nc <= MAX_NODES,
        m.total_weight() <= MAX_TOTAL_WEIGHT,
        q_lim <= nc,
    ensures
        ssum(agg_row_upto(m, comm, p, q_lim), valid_weight(nc)) == rsum(
            q_lim,
            agg_offdiag_fn(m, comm, p),
        ),
    decreases q_lim,
{
    if q_lim > 0 {
        lemma_agg_row_sum(m, comm, p, (q_lim - 1) as nat, nc);
        let ids = agg_ids(comm, m.n());
        let q = q_lim - 1;
        let w = agg_w(m, comm, ids[p] as int, ids[q] as int);
        lemma_agg_w_bounds(m, comm, ids[p] as int, ids[q] as int);
        let pre = agg_row_upto(m, comm, p, (q_lim - 1) as nat);
        let row = agg_row_upto(m, comm, p, q_lim);
        assert(rsum(q_lim, agg_offdiag_fn(m, comm, p)) == rsum(
            (q_lim - 1) as nat,
            agg_offdiag_fn(m, comm, p),
        ) + agg_offdiag_fn(m, comm, p)(q));
        if q != p && w > 0 {
            let e = Edge { to: q as usize, weight: w as u64 };
            assert(row == pre.push(e));
            assert(row.drop_last() =~= pre);
            assert(row.last() == e);
            assert(ssum(row, valid_weight(nc)) == ssum(pre, valid_weight(nc)) + valid_weight(nc)(
                e,
            ));
            assert(valid_weight(nc)(e) == w);
            assert(agg_offdiag_fn(m, comm, p)(q) == w);
        } else {
            assert(row == pre);
            assert(agg_offdiag_fn(m, comm, p)(q) == 0);
        }
    }
}

/// The summand picking out the lower-endpoint copy of every
/// cross-community edge.
pub open spec fn lt_cross_term(comm: Seq<usize>) -> spec_fn(int, int, int) -> int {
    |i: int, j: int, w: int|
        if i < j && comm[i] != comm[j] {
            w
        } else {
            0
        }
}

/// The summand picking out every cross-community edge copy.
pub open spec fn cross_w_term(comm: Seq<usize>) -> spec_fn(int, int, int) -> int {
    |i: int, j: int, w: int|
        if comm[i] != comm[j] {
            w
        } else {
            0
        }
}

/// The summand picking out every intra-community edge copy.
pub open spec fn intra_w_term(comm: Seq<usize>) -> spec_fn(int, int, int) -> int {
    |i: int, j: int, w: int|
        if comm[i] == comm[j] {
            w
        } else {
            0
        }
}

/// The total stored weight crossing between communities.
pub open spec fn cross_weight(m: GraphModel, comm: Seq<usize>) -> int {
    entry_sum(m, cross_w_term(comm))
}

/// The total stored weight inside communities.
pub open spec fn intra_weight(m: GraphModel, comm: Seq<usize>) -> int {
    entry_sum(m, intra_w_term(comm))
}

/// The lower-endpoint cross weight: half the symmetric cross weight.
pub open spec fn lt_cross_weight(m: GraphModel, comm: Seq<usize>) -> int {
    entry_sum(m, lt_cross_term(comm))
}

/// Weight accounting under a partition: the cross weight is twice its
/// lower-endpoint copy (each undirected cross edge is stored both ways),
/// and cross and intra weight together exhaust the total.
pub proof fn lemma_cross_split(m: GraphModel, comm: Seq<usize>)
    requires
        m.entries_valid(),
        m.rows_distinct(),
        m.symmetric(),
    ensures
        cross_weight(m, comm) == 2 * lt_cross_weight(m, comm),
        cross_weight(m, comm) + intra_weight(m, comm) == m.total_weight(),
{
    let ltf = lt_cross_term(comm);
    let gtf = |i: int, j: int, w: int|
        if i > j && comm[i] != comm[j] {
            w
        } else {
            0
        };
    lemma_entry_sum_swap(m, ltf, gtf);
    lemma_entry_sum_linear(m, ltf, gtf, cross_w_term(comm));
    lemma_entry_sum_linear(m, cross_w_term(comm), intra_w_term(comm), weight_term());
    lemma_entry_sum_total(m);
}


/// The integer value of a stored cell weight.
pub open spec fn u64_val() -> spec_fn(u64) -> int {
    |x: u64| x as int
}

/// Collapses a partition into the coarser community graph.
///
/// Node `p` of the result is the `p`-th occupied community id in ascending
/// order (isolated communities stay, so the driver keeps total coverage);
/// an edge joins two communities with the summed weight of the stored
/// edges between their members, each undirected edge counted once per
/// direction.  Intra-community edges are dropped — aggregated graphs carry
/// no self-loops — so the result's total weight is exactly the
/// cross-community weight of the input, and the intra-community weight is
/// exactly what disappears.
pub fn aggregate_graph(graph: &Graph, communities: &Vec<usize>) -> (h: Graph)
    requires
        graph@.wf(),
        valid_partition(communities@, graph@.n()),
    ensures
        h@.wf(),
        h@.ids == agg_ids(communities@, graph@.n()),
        h@.n() == agg_ids(communities@, graph@.n()).len(),
        h@.n() <= graph@.n(),
        forall|p: int|
            0 <= p < h@.n() ==> h@.adj[p] == agg_row_upto(graph@, communities@, p, h@.n()),
        h@.total_weight() == cross_weight(graph@, communities@),
        cross_weight(graph@, communities@) + intra_weight(graph@, communities@)
            == graph@.total_weight(),
        h@.total_weight() <= graph@.total_weight(),
{
    let ghost m = graph@;
    let ghost comm = communities@;
    proof {
        crate::graph::lemma_wf_implies_bounded(m);
        lemma_total_weight_nonneg(m);
    }
    let n = graph.node_count();
    // Mark the occupied communities.
    let mut pres: Vec<bool> = Vec::new();
    let mut z: usize = 0;
    while z < n
        invariant
            z <= n,
            pres@.len() == z,
            forall|c: int| 0 <= c < z ==> pres@[c] == false,
        decreases n - z,
    {
        pres.push(false);
        z = z + 1;
    }
    let mut i: usize = 0;
    while i < n
        invariant
            comm == communities@,
            valid_partition(comm, m.n()),
            n == m.n(),
            i <= n,
            pres@.len() == n,
            forall|c: int|
                0 <= c < n ==> (pres@[c] == exists|i0: int|
                    0 <= i0 < i && (#[trigger] comm[i0]) as int == c),
        decreases n - i,
    {
        let c = communities[i];
        pres.set(c, true);
        proof {
            assert forall|c2: int| 0 <= c2 < n implies (pres@[c2] == exists|i0: int|
                0 <= i0 < i + 1 && (#[trigger] comm[i0]) as int == c2) by {
                if c2 == c as int {
                    assert((comm[i as int]) as int == c2);
                } else {
                    assert forall|i0: int| 0 <= i0 < i + 1 && (#[trigger] comm[i0]) as int == c2
                        implies i0 < i by {}
                }
            }
        }
        i = i + 1;
    }
    proof {
        assert forall|c: int| 0 <= c < n implies (pres@[c] == present(comm, c)) by {}
        lemma_agg_ids_props(comm, n as nat);
    }
    // Enumerate them in ascending order and record each one's rank.
    let mut ids: Vec<u64> = Vec::new();
    let mut rank: Vec<usize> = Vec::new();
    z = 0;
    while z < n
        invariant
            z <= n,
            rank@.len() == z,
        decreases n - z,
    {
        rank.push(0);
        z = z + 1;
    }
    let mut c: usize = 0;
    while c < n
        invariant
            comm == communities@,
            n == m.n(),
            c <= n,
            pres@.len() == n,
            forall|c2: int| 0 <= c2 < n ==> (pres@[c2] == present(comm, c2)),
            rank@.len() == n,
            ids@ == agg_ids_upto(comm, c as nat),
            ids@.len() <= c,
            forall|c2: int|
                0 <= c2 < c && present(comm, c2) ==> (#[trigger] rank@[c2]) as int == agg_rank(
                    comm,
                    c2,
                ),
        decreases n - c,
    {
        if pres[c] {
            rank.set(c, ids.len());
            ids.push(c as u64);
        }
        proof {
            assert(agg_rank(comm, c as int) == agg_ids_upto(comm, c as nat).len());
        }
        c = c + 1;
    }
    let nc = ids.len();
    proof {
        assert(ids@ == agg_ids(comm, n as nat));
        assert(nc <= n);
        assert((nc as int) * (nc as int) <= (MAX_NODES as int) * (MAX_NODES as int))
            by (nonlinear_arith)
            requires
                0 <= (nc as int) && (nc as int) <= (MAX_NODES as int),
        ;
    }
    // Accumulate the cross-community weight of every stored edge into a
    // dense rank-by-rank matrix, each lower-endpoint copy counted into both
    // mirrored cells.
    let side = nc * nc;
    let mut mat: Vec<u64> = Vec::new();
    z = 0;
    while z < side
        invariant
            z <= side,
            mat@.len() == z,
            forall|t: int| 0 <= t < z ==> mat@[t] == 0,
        decreases side - z,
    {
        mat.push(0);
        z = z + 1;
    }
    proof {
        lemma_mat_zero_partials(m, comm, mat@, nc as int);
        lemma_ssum_zero_u64(mat@);
    }
    let mut i2: usize = 0;
    while i2 < n
        invariant
            m == graph@,
            comm == communities@,
            m.wf(),
            m.bounded(),
            valid_partition(comm, m.n()),
            n == m.n(),
            i2 <= n,
            nc == ids@.len(),
            nc <= n,
            side == nc * nc,
            ids@ == agg_ids(comm, n as nat),
            rank@.len() == n,
            forall|c2: int|
                0 <= c2 < n && present(comm, c2) ==> (#[trigger] rank@[c2]) as int == agg_rank(
                    comm,
                    c2,
                ),
            mat@.len() == side,
            forall|a: int, b: int|
                0 <= a < nc && 0 <= b < nc ==> #[trigger] mat@[a * (nc as int) + b] == rsum(
                    i2 as nat,
                    entry_row_fn(m, pair_cross_term(comm, ids@[a] as int, ids@[b] as int)),
                ),
            ssum(mat@, u64_val()) == 2 * rsum(i2 as nat, entry_row_fn(m, lt_cross_term(comm))),
        decreases n - i2,
    {
        let row = &graph.adj[i2];
        let mut k: usize = 0;
        proof {
            assert forall|a: int, b: int| 0 <= a < nc && 0 <= b < nc implies #[trigger] mat@[a * (
            nc as int) + b] == rsum(
                i2 as nat,
                entry_row_fn(m, pair_cross_term(comm, ids@[a] as int, ids@[b] as int)),
            ) + ssum(
                row@.take(0),
                guarded3(m, pair_cross_term(comm, ids@[a] as int, ids@[b] as int), i2 as int),
            ) by {
                assert(row@.take(0) =~= Seq::<Edge>::empty());
            }
            assert(row@.take(0) =~= Seq::<Edge>::empty());
        }
        while k < row.len()
            invariant
                m == graph@,
                comm == communities@,
                m.wf(),
                m.bounded(),
                valid_partition(comm, m.n()),
                n == m.n(),
                i2 < n,
                row@ == m.adj[i2 as int],
                k <= row.len(),
                nc == ids@.len(),
                nc <= n,
                side == nc * nc,
                ids@ == agg_ids(comm, n as nat),
                rank@.len() == n,
                forall|c2: int|
                    0 <= c2 < n && present(comm, c2) ==> (#[trigger] rank@[c2]) as int == agg_rank(
                        comm,
                        c2,
                    ),
                mat@.len() == side,
                forall|a: int, b: int|
                    0 <= a < nc && 0 <= b < nc ==> #[trigger] mat@[a * (nc as int) + b] == rsum(
                        i2 as nat,
                        entry_row_fn(m, pair_cross_term(comm, ids@[a] as int, ids@[b] as int)),
                    ) + ssum(
                        row@.take(k as int),
                        guarded3(
                            m,
                            pair_cross_term(comm, ids@[a] as int, ids@[b] as int),
                            i2 as int,
                        ),
                    ),
                ssum(mat@, u64_val()) == 2 * (rsum(
                    i2 as nat,
                    entry_row_fn(m, lt_cross_term(comm)),
                ) + ssum(row@.take(k as int), guarded3(m, lt_cross_term(comm), i2 as int))),
            decreases row.len() - k,
        {
            let e = row[k];
            proof {
                assert(e.to < n && e.to != i2);
                assert forall|a: int, b: int| 0 <= a < nc && 0 <= b < nc implies ssum(
                    row@.take(k as int + 1),
                    #[trigger] guarded3(
                        m,
                        pair_cross_term(comm, ids@[a] as int, ids@[b] as int),
                        i2 as int,
                    ),
                ) == ssum(
                    row@.take(k as int),
                    guarded3(m, pair_cross_term(comm, ids@[a] as int, ids@[b] as int), i2 as int),
                ) + pair_cross_term(comm, ids@[a] as int, ids@[b] as int)(
                    i2 as int,
                    e.to as int,
                    e.weight as int,
                ) by {
                    lemma_ssum_take_step(
                        row@,
                        guarded3(
                            m,
                            pair_cross_term(comm, ids@[a] as int, ids@[b] as int),
                            i2 as int,
                        ),
                        k as int,
                    );
                }
                lemma_ssum_take_step(row@, guarded3(m, lt_cross_term(comm), i2 as int), k as int);
            }
            if i2 < e.to && communities[i2] != communities[e.to] {
                let c1 = communities[i2];
                let c2 = communities[e.to];
                let r1 = rank[c1];
                let r2 = rank[c2];
                proof {
                    lemma_agg_ids_props(comm, n as nat);
                    assert((comm[i2 as int]) as int == c1 as int);
                    assert((comm[e.to as int]) as int == c2 as int);
                    assert(present(comm, c1 as int));
                    assert(present(comm, c2 as int));
                    assert(ids@[r1 as int] as int == c1 as int && r1 < nc);
                    assert(ids@[r2 as int] as int == c2 as int && r2 < nc);
                    assert(r1 != r2);
                    assert(0 <= (r1 as int) * (nc as int) + r2 < (nc as int) * (nc as int) && 0 <= (
                    r2 as int) * (nc as int) + r1 < (nc as int) * (nc as int) && (r1 as int) * (
                    nc as int) + r2 != (r2 as int) * (nc as int) + r1) by (nonlinear_arith)
                        requires
                            0 <= (r1 as int) && (r1 as int) < (nc as int),
                            0 <= (r2 as int) && (r2 as int) < (nc as int),
                            r1 != r2,
                    ;
                    // The running cells stay within the total weight.
                    lemma_pair_term_in_weight(comm, ids@[r1 as int] as int, ids@[r2 as int] as int, m.n());
                    lemma_pair_term_in_weight(comm, ids@[r2 as int] as int, ids@[r1 as int] as int, m.n());
                    lemma_partial_entry_sum_le_total(
                        m,
                        pair_cross_term(comm, ids@[r1 as int] as int, ids@[r2 as int] as int),
                        i2 as nat,
                        k as int,
                    );
                    lemma_partial_entry_sum_le_total(
                        m,
                        pair_cross_term(comm, ids@[r2 as int] as int, ids@[r1 as int] as int),
                        i2 as nat,
                        k as int,
                    );
                    lemma_entry_le_degree(m, i2 as int, k as int);
                    lemma_degree_le_total(m, i2 as int);
                }
                let idx1 = r1 * nc + r2;
                let idx2 = r2 * nc + r1;
                let ghost mat_old = mat@;
                let v1 = mat[idx1] + e.weight;
                mat.set(idx1, v1);
                let v2 = mat[idx2] + e.weight;
                mat.set(idx2, v2);
                proof {
                    lemma_ssum_update_u64(mat_old, idx1 as int, v1);
                    lemma_ssum_update_u64(mat_old.update(idx1 as int, v1), idx2 as int, v2);
                    assert forall|a: int, b: int| 0 <= a < nc && 0 <= b < nc implies #[trigger] mat@[a
                        * (nc as int) + b] == rsum(
                        i2 as nat,
                        entry_row_fn(m, pair_cross_term(comm, ids@[a] as int, ids@[b] as int)),
                    ) + ssum(
                        row@.take(k as int + 1),
                        guarded3(
                            m,
                            pair_cross_term(comm, ids@[a] as int, ids@[b] as int),
                            i2 as int,
                        ),
                    ) by {
                        let cell = a * (nc as int) + b;
                        lemma_cell_index_injective(a, b, r1 as int, r2 as int, nc as int);
                        lemma_cell_index_injective(a, b, r2 as int, r1 as int, nc as int);
                        if a == r1 as int && b == r2 as int {
                            assert(pair_cross_term(comm, ids@[a] as int, ids@[b] as int)(
                                i2 as int,
                                e.to as int,
                                e.weight as int,
                            ) == e.weight as int);
                        } else if a == r2 as int && b == r1 as int {
                            assert(pair_cross_term(comm, ids@[a] as int, ids@[b] as int)(
                                i2 as int,
                                e.to as int,
                                e.weight as int,
                            ) == e.weight as int);
                        } else {
                            lemma_agg_ids_props(comm, n as nat);
                            assert(!(ids@[a] as int == c1 as int && ids@[b] as int == c2 as int));
                            assert(!(ids@[a] as int == c2 as int && ids@[b] as int == c1 as int));
                            assert(pair_cross_term(comm, ids@[a] as int, ids@[b] as int)(
                                i2 as int,
                                e.to as int,
                                e.weight as int,
                            ) == 0);
                            assert(0 <= cell < (nc as int) * (nc as int)) by (nonlinear_arith)
                                requires
                                    0 <= a && a < (nc as int),
                                    0 <= b && b < (nc as int),
                                    cell == a * (nc as int) + b,
                            ;
                            assert(mat@[cell] == mat_old[cell]);
                        }
                    }
                    assert(lt_cross_term(comm)(i2 as int, e.to as int, e.weight as int)
                        == e.weight as int);
                }
            } else {
                proof {
                    assert forall|a: int, b: int| 0 <= a < nc && 0 <= b < nc implies #[trigger] pair_cross_term(
                        comm,
                        ids@[a] as int,
                        ids@[b] as int,
                    )(i2 as int, e.to as int, e.weight as int) == 0 by {}
                    assert(lt_cross_term(comm)(i2 as int, e.to as int, e.weight as int) == 0);
                }
            }
            k = k + 1;
        }
        proof {
            assert forall|a: int, b: int| 0 <= a < nc && 0 <= b < nc implies #[trigger] mat@[a * (
            nc as int) + b] == rsum(
                i2 as nat + 1,
                entry_row_fn(m, pair_cross_term(comm, ids@[a] as int, ids@[b] as int)),
            ) by {
                let f = pair_cross_term(comm, ids@[a] as int, ids@[b] as int);
                lemma_ssum_take_all(row@, guarded3(m, f, i2 as int));
                assert(entry_row_fn(m, f)(i2 as int) == ssum(row@, guarded3(m, f, i2 as int)));
                assert(rsum(i2 as nat + 1, entry_row_fn(m, f)) == rsum(i2 as nat, entry_row_fn(m, f))
                    + entry_row_fn(m, f)(i2 as int));
            }
            lemma_ssum_take_all(row@, guarded3(m, lt_cross_term(comm), i2 as int));
            assert(entry_row_fn(m, lt_cross_term(comm))(i2 as int) == ssum(
                row@,
                guarded3(m, lt_cross_term(comm), i2 as int),
            ));
            assert(rsum(i2 as nat + 1, entry_row_fn(m, lt_cross_term(comm))) == rsum(
                i2 as nat,
                entry_row_fn(m, lt_cross_term(comm)),
            ) + entry_row_fn(m, lt_cross_term(comm))(i2 as int));
        }
        i2 = i2 + 1;
    }
    proof {
        assert forall|a: int, b: int| 0 <= a < nc && 0 <= b < nc implies #[trigger] mat@[a * (
        nc as int) + b] == agg_w(m, comm, ids@[a] as int, ids@[b] as int) by {}
        assert(ssum(mat@, u64_val()) == 2 * lt_cross_weight(m, comm));
    }
    // Emit the aggregated adjacency rows.
    let mut adj2: Vec<Vec<Edge>> = Vec::new();
    let mut p: usize = 0;
    while p < nc
        invariant
            m == graph@,
            comm == communities@,
            m.wf(),
            m.bounded(),
            n == m.n(),
            nc == ids@.len(),
            nc <= n,
            side == nc * nc,
            ids@ == agg_ids(comm, n as nat),
            mat@.len() == side,
            forall|a: int, b: int|
                0 <= a < nc && 0 <= b < nc ==> #[trigger] mat@[a * (nc as int) + b] == agg_w(
                    m,
                    comm,
                    ids@[a] as int,
                    ids@[b] as int,
                ),
            p <= nc,
            adj2@.len() == p,
            forall|p0: int|
                0 <= p0 < p ==> (#[trigger] adj2@[p0])@ == agg_row_upto(m, comm, p0, nc as nat),
        decreases nc - p,
    {
        let mut rowv: Vec<Edge> = Vec::new();
        let mut q: usize = 0;
        while q < nc
            invariant
                m == graph@,
                comm == communities@,
                m.wf(),
                m.bounded(),
                n == m.n(),
                nc == ids@.len(),
                nc <= n,
                side == nc * nc,
                ids@ == agg_ids(comm, n as nat),
                mat@.len() == side,
                forall|a: int, b: int|
                    0 <= a < nc && 0 <= b < nc ==> #[trigger] mat@[a * (nc as int) + b] == agg_w(
                        m,
                        comm,
                        ids@[a] as int,
                        ids@[b] as int,
                    ),
                p < nc,
                q <= nc,
                rowv@ == agg_row_upto(m, comm, p as int, q as nat),
            decreases nc - q,
        {
            proof {
                assert(0 <= (p as int) * (nc as int) + q < (nc as int) * (nc as int))
                    by (nonlinear_arith)
                    requires
                        0 <= (p as int) && (p as int) < (nc as int),
                        0 <= (q as int) && (q as int) < (nc as int),
                ;
                lemma_agg_w_bounds(m, comm, ids@[p as int] as int, ids@[q as int] as int);
            }
            if q != p {
                let w = mat[p * nc + q];
                if w > 0 {
                    rowv.push(Edge { to: q, weight: w });
                }
            }
            q = q + 1;
        }
        adj2.push(rowv);
        p = p + 1;
    }
    let h = Graph { ids, adj: adj2 };
    proof {
        let hm = h@;
        lemma_agg_ids_props(comm, n as nat);
        assert(hm.n() == nc && hm.ids.len() == nc);
        assert forall|p0: int| 0 <= p0 < nc implies (#[trigger] hm.adj[p0]) == agg_row_upto(
            m,
            comm,
            p0,
            nc as nat,
        ) by {}
        // Structural well-formedness of the aggregated graph.
        assert forall|p0: int, k0: int| 0 <= p0 < hm.n() && 0 <= k0 < hm.adj[p0].len() implies (
        #[trigger] hm.adj[p0][k0]).to < hm.n() && hm.adj[p0][k0].to != p0 by {
            lemma_agg_row_props(m, comm, p0, nc as nat);
        }
        assert forall|p0: int, k1: int, k2: int|
            0 <= p0 < hm.n() && 0 <= k1 < k2 < hm.adj[p0].len() implies (
        #[trigger] hm.adj[p0][k1]).to != (#[trigger] hm.adj[p0][k2]).to by {
            lemma_agg_row_props(m, comm, p0, nc as nat);
        }
        assert forall|p0: int, k0: int| 0 <= p0 < hm.n() && 0 <= k0 < hm.adj[p0].len() implies
            #[trigger] hm.has_mirror(p0, k0) by {
            lemma_agg_row_props(m, comm, p0, nc as nat);
            let e = hm.adj[p0][k0];
            let q0 = e.to as int;
            lemma_agg_w_symmetric(m, comm, ids@[p0] as int, ids@[q0] as int);
            lemma_agg_row_contains(m, comm, q0, nc as nat, p0);
            let w0 = agg_w(m, comm, ids@[q0] as int, ids@[p0] as int);
            let k2 = choose|k2: int|
                0 <= k2 < agg_row_upto(m, comm, q0, nc as nat).len() && (#[trigger] agg_row_upto(
                    m,
                    comm,
                    q0,
                    nc as nat,
                )[k2]).to == p0 && agg_row_upto(m, comm, q0, nc as nat)[k2].weight == w0;
            assert(0 <= k2 < hm.adj[q0].len() && (hm.adj[q0][k2]).to == p0 && hm.adj[q0][k2].weight
                == e.weight);
        }
        // Conservation: the aggregated total is the cross-community weight.
        lemma_agg_total(m, comm, hm, nc as nat, mat@);
        lemma_cross_split(m, comm);
        assert(hm.total_weight() == cross_weight(m, comm));
        // And so the caps carry over.
        assert forall|i0: int, j0: int, w0: int|
            0 <= i0 < m.n() && 0 <= j0 < m.n() && w0 >= 0 implies 0 <= #[trigger] cross_w_term(
            comm,
        )(i0, j0, w0) <= #[trigger] weight_term()(i0, j0, w0) by {}
        lemma_entry_sum_le(m, cross_w_term(comm), weight_term());
        lemma_entry_sum_nonneg(m, cross_w_term(comm));
        lemma_entry_sum_total(m);
    }
    h
}

/// Cross-pair summands never exceed the edge weight.
proof fn lemma_pair_term_in_weight(comm: Seq<usize>, a: int, b: int, n: nat)
    ensures
        forall|i0: int, j: int, w: int|
            0 <= i0 < n && 0 <= j < n && w >= 0 ==> 0 <= #[trigger] pair_cross_term(comm, a, b)(
                i0,
                j,
                w,
            ) <= w,
{
}

/// Distinct cell coordinates give distinct flat indices.
proof fn lemma_cell_index_injective(a: int, b: int, r1: int, r2: int, nc: int)
    requires
        0 <= a < nc,
        0 <= b < nc,
        0 <= r1 < nc,
        0 <= r2 < nc,
    ensures
        (a * nc + b == r1 * nc + r2) <==> (a == r1 && b == r2),
{
    if a * nc + b == r1 * nc + r2 && (a != r1 || b != r2) {
        assert(false) by (nonlinear_arith)
            requires
                0 <= a < nc,
                0 <= b < nc,
                0 <= r1 < nc,
                0 <= r2 < nc,
                a * nc + b == r1 * nc + r2,
                a != r1 || b != r2,
        ;
    }
}

/// A fresh zero matrix realizes the empty partial sums.
proof fn lemma_mat_zero_partials(m: GraphModel, comm: Seq<usize>, mat: Seq<u64>, nc: int)
    requires
        forall|t: int| 0 <= t < mat.len() ==> mat[t] == 0,
        mat.len() == nc * nc,
    ensures
        forall|a: int, b: int|
            0 <= a < nc && 0 <= b < nc ==> #[trigger] mat[a * nc + b] == rsum(
                0,
                entry_row_fn(m, pair_cross_term(comm, 0, 0)),
            ),
{
    assert forall|a: int, b: int| 0 <= a < nc && 0 <= b < nc implies #[trigger] mat[a * nc + b]
        == 0 by {
        assert(0 <= a * nc + b < nc * nc) by (nonlinear_arith)
            requires
                0 <= a < nc,
                0 <= b < nc,
        ;
    }
}

/// The sum of a zero vector of cells is zero.
proof fn lemma_ssum_zero_u64(mat: Seq<u64>)
    requires
        forall|t: int| 0 <= t < mat.len() ==> mat[t] == 0,
    ensures
        ssum(mat, u64_val()) == 0,
{
    assert forall|t: int| 0 <= t < mat.len() implies #[trigger] u64_val()(mat[t]) == 0 by {}
    lemma_ssum_zero(mat, u64_val());
}

/// Replacing one cell moves the matrix sum by the difference.
proof fn lemma_ssum_update_u64(mat: Seq<u64>, t: int, v: u64)
    requires
        0 <= t < mat.len(),
    ensures
        ssum(mat.update(t, v), u64_val()) == ssum(mat, u64_val()) - mat[t] + v,
{
    crate::sums::lemma_ssum_update(mat, u64_val(), t, v);
}

/// The total weight of the emitted aggregated graph equals the matrix sum:
/// twice the lower-endpoint cross weight.
proof fn lemma_agg_total(m: GraphModel, comm: Seq<usize>, hm: GraphModel, nc: nat, mat: Seq<u64>)
    requires
        nc == agg_ids(comm, m.n()).len(),
        nc <= MAX_NODES,
        m.total_weight() <= MAX_TOTAL_WEIGHT,
        hm.n() == nc,
        forall|p0: int| 0 <= p0 < nc ==> #[trigger] hm.adj[p0] == agg_row_upto(m, comm, p0, nc),
        mat.len() == nc * nc,
        forall|a: int, b: int|
            0 <= a < nc && 0 <= b < nc ==> #[trigger] mat[a * (nc as int) + b] == agg_w(
                m,
                comm,
                agg_ids(comm, m.n())[a] as int,
                agg_ids(comm, m.n())[b] as int,
            ),
        ssum(mat, u64_val()) == 2 * lt_cross_weight(m, comm),
    ensures
        hm.total_weight() == 2 * lt_cross_weight(m, comm),
{
    // Each aggregated degree is its off-diagonal column sum.
    assert forall|p0: int| 0 <= p0 < nc implies #[trigger] hm.degree_fn()(p0) == rsum(
        nc,
        agg_offdiag_fn(m, comm, p0),
    ) by {
        lemma_agg_row_sum(m, comm, p0, nc, nc);
    }
    let g2 = |p0: int, q0: int| agg_offdiag_fn(m, comm, p0)(q0);
    assert forall|p0: int| 0 <= p0 < nc implies #[trigger] hm.degree_fn()(p0) == rsum(
        nc,
        |q0: int| g2(p0, q0),
    ) by {
        lemma_rsum_congruence(nc, agg_offdiag_fn(m, comm, p0), |q0: int| g2(p0, q0));
    }
    lemma_rsum_congruence(nc, hm.degree_fn(), |p0: int| rsum(nc, |q0: int| g2(p0, q0)));
    assert(hm.total_weight() == dsum(nc, nc, g2));
    // Off-diagonal weights and all-pair weights agree: diagonal weights
    // vanish.
    let cellfn = |p0: int, q0: int| u64_val()(mat[p0 * (nc as int) + q0]);
    assert forall|p0: int, q0: int| 0 <= p0 < nc && 0 <= q0 < nc implies #[trigger] g2(p0, q0)
        == #[trigger] cellfn(p0, q0) by {
        if p0 == q0 {
            lemma_agg_w_diag(m, comm, agg_ids(comm, m.n())[p0] as int);
        }
    }
    lemma_dsum_congruence(nc, nc, g2, cellfn);
    // Summed cell by cell, the matrix carries twice the lower-endpoint
    // cross weight.
    crate::sums::lemma_flat_block_sum(mat, nc, nc, u64_val(), cellfn);
}


/// Ceiling on local-move passes within one level, bounding any oscillation.
pub const PASS_CEILING: usize = 100;

/// Ceiling on Louvain levels.
pub const LEVEL_CEILING: usize = 50;

/// The aggregated graph as one mathematical value.
pub open spec fn agg_model(m: GraphModel, comm: Seq<usize>) -> GraphModel {
    let nc = agg_ids(comm, m.n()).len();
    GraphModel {
        ids: agg_ids(comm, m.n()),
        adj: Seq::new(nc, |p: int| agg_row_upto(m, comm, p, nc)),
    }
}

/// Repeated local-move passes until none changes anything, bounded by
/// `budget` passes: the final partition, and whether the first pass changed
/// anything at all.
pub open spec fn passes_spec(m: GraphModel, s_param: int, comm: Seq<usize>, budget: nat) -> (
    Seq<usize>,
    bool,
)
    decreases budget,
{
    let one = pass_result(m, s_param, comm);
    if !one.1 || budget <= 1 {
        one
    } else {
        (passes_spec(m, s_param, one.0, (budget - 1) as nat).0, one.1)
    }
}

/// Iterated passes keep the partition total and in range.
pub proof fn lemma_passes_spec_valid(m: GraphModel, s_param: int, comm: Seq<usize>, budget: nat)
    requires
        valid_partition(comm, m.n()),
    ensures
        valid_partition(passes_spec(m, s_param, comm, budget).0, m.n()),
    decreases budget,
{
    lemma_pass_upto_valid(m, s_param, comm, m.n());
    let one = pass_result(m, s_param, comm);
    if one.1 && budget > 1 {
        lemma_passes_spec_valid(m, s_param, one.0, (budget - 1) as nat);
    }
}

/// A score in signed millionths, rounded toward zero.
pub open spec fn millionths(num: int, den: int) -> int
    recommends
        den >= 1,
{
    if num >= 0 {
        num * 1_000_000 / den
    } else {
        -((-num) * 1_000_000 / den)
    }
}

/// The community of each original node after composing the current level's
/// assignment over the hierarchy so far.
pub open spec fn compose_comm(comm: Seq<usize>, global: Seq<usize>) -> Seq<usize> {
    Seq::new(global.len(), |o: int| comm[global[o] as int])
}

/// The hierarchy map after one aggregation: each original node now points
/// at the rank its community takes among the aggregated nodes.
pub open spec fn next_global(comm: Seq<usize>, global: Seq<usize>) -> Seq<usize> {
    Seq::new(global.len(), |o: int| agg_rank(comm, comm[global[o] as int] as int) as usize)
}

/// The Louvain driver from one level down: optimize the level to a local
/// optimum, stop when nothing moved, when the modularity gained less than
/// one millionth over the previous level, or when the level budget is
/// spent; otherwise aggregate and recurse.
pub open spec fn louvain_rec(
    m: GraphModel,
    global: Seq<usize>,
    prev_q: int,
    levels_left: nat,
) -> Seq<usize>
    decreases levels_left,
{
    if levels_left == 0 {
        global
    } else {
        let s_param = m.total_weight();
        let opt = passes_spec(m, s_param, init_comm(m.n()), PASS_CEILING as nat);
        let comm = opt.0;
        let q = millionths(mod_num(m, comm), mod_den(m));
        if !opt.1 || q - prev_q < 1 || levels_left <= 1 {
            compose_comm(comm, global)
        } else {
            louvain_rec(agg_model(m, comm), next_global(comm, global), q, (levels_left - 1) as nat)
        }
    }
}

/// The community mapping `run_louvain` computes, as one mathematical
/// function of the graph.
pub open spec fn louvain_spec(m: GraphModel) -> Seq<usize> {
    louvain_rec(m, init_comm(m.n()), -2_000_000, LEVEL_CEILING as nat)
}

/// Determinism: the result of the Louvain driver is a function of the graph
/// alone — two runs on the identical graph yield the identical partition.
pub proof fn lemma_louvain_deterministic(m: GraphModel, r1: Seq<usize>, r2: Seq<usize>)
    requires
        r1 == louvain_spec(m),
        r2 == louvain_spec(m),
    ensures
        r1 == r2,
{
}

/// Converts an exact modularity score to signed millionths.
fn ratio_millionths(r: &Ratio) -> (q: i128)
    requires
        1 <= r.den <= (MAX_TOTAL_WEIGHT as int) * (MAX_TOTAL_WEIGHT as int),
        -r.den <= r.num <= r.den,
    ensures
        q as int == millionths(r.num as int, r.den as int),
        -1_000_000 <= q <= 1_000_000,
{
    let den = r.den as u128;
    if r.num >= 0 {
        let scaled = (r.num as u128) * 1_000_000;
        let qq = scaled / den;
        proof {
            lemma_millionths_le(r.num as int, r.den as int);
        }
        qq as i128
    } else {
        let pos = (-r.num) as u128;
        let scaled = pos * 1_000_000;
        let qq = scaled / den;
        proof {
            lemma_millionths_le(-(r.num as int), r.den as int);
        }
        -(qq as i128)
    }
}

/// With `0 <= num <= den`, the millionths quotient is at most a million.
proof fn lemma_millionths_le(num: int, den: int)
    requires
        0 <= num <= den,
        1 <= den,
    ensures
        0 <= num * 1_000_000 / den <= 1_000_000,
{
    assert(0 <= num * 1_000_000 <= den * 1_000_000) by (nonlinear_arith)
        requires
            0 <= num <= den,
    ;
    vstd::arithmetic::div_mod::lemma_div_is_ordered(0, num * 1_000_000, den);
    vstd::arithmetic::div_mod::lemma_div_is_ordered(num * 1_000_000, den * 1_000_000, den);
    vstd::arithmetic::div_mod::lemma_div_multiples_vanish(1_000_000, den);
    assert(den * 1_000_000 == 1_000_000 * den) by (nonlinear_arith);
}

/// Runs local-move passes until one changes nothing, or the pass ceiling is
/// hit; reports whether the first pass changed anything.
fn run_passes(graph: &Graph, communities: &mut Vec<usize>, s_tot: u64) -> (any: bool)
    requires
        graph@.bounded(),
        valid_partition(old(communities)@, graph@.n()),
    ensures
        (final(communities)@, any) == passes_spec(
            graph@,
            s_tot as int,
            old(communities)@,
            PASS_CEILING as nat,
        ),
        valid_partition(final(communities)@, graph@.n()),
{
    let ghost m = graph@;
    let ghost sp = s_tot as int;
    let ghost comm0 = old(communities)@;
    let ghost goal = passes_spec(m, sp, comm0, PASS_CEILING as nat);
    let mut budget: usize = PASS_CEILING;
    let mut any = false;
    let mut first = true;
    proof {
        lemma_passes_spec_valid(m, sp, comm0, PASS_CEILING as nat);
    }
    loop
        invariant_except_break
            m == graph@,
            m.bounded(),
            sp == s_tot as int,
            valid_partition(communities@, m.n()),
            1 <= budget <= PASS_CEILING,
            goal == passes_spec(m, sp, comm0, PASS_CEILING as nat),
            first ==> communities@ == comm0 && budget == PASS_CEILING && !any,
            !first ==> goal.0 == passes_spec(m, sp, communities@, budget as nat).0 && any && goal.1,
        ensures
            (communities@, any) == goal,
            valid_partition(communities@, m.n()),
        decreases budget,
    {
        let ghost pre = communities@;
        let changed = local_move_pass(graph, communities, s_tot);
        if first {
            any = changed;
            first = false;
        }
        proof {
            assert((communities@, changed) == pass_result(m, sp, pre));
        }
        if !changed || budget == 1 {
            proof {
                assert(passes_spec(m, sp, pre, budget as nat) == (communities@, changed));
                if pre == comm0 && budget == PASS_CEILING {
                    assert(goal == (communities@, changed));
                } else {
                    assert(goal.0 == communities@ && any && goal.1);
                }
            }
            break;
        }
        proof {
            assert(passes_spec(m, sp, pre, budget as nat).0 == passes_spec(
                m,
                sp,
                communities@,
                (budget - 1) as nat,
            ).0);
            assert(passes_spec(m, sp, pre, budget as nat).1);
            if pre == comm0 && budget == PASS_CEILING {
                assert(goal == passes_spec(m, sp, comm0, PASS_CEILING as nat));
                assert(goal.1 == pass_result(m, sp, comm0).1);
            }
        }
        budget = budget - 1;
    }
    any
}

/// Copies a graph node for node and edge for edge.
fn copy_graph(graph: &Graph) -> (r: Graph)
    ensures
        r@ == graph@,
{
    let mut ids: Vec<u64> = Vec::new();
    let mut i: usize = 0;
    let n_ids = graph.ids.len();
    while i < n_ids
        invariant
            i <= n_ids,
            n_ids == graph.ids@.len(),
            ids@ == graph.ids@.take(i as int),
        decreases n_ids - i,
    {
        let v = graph.ids[i];
        ids.push(v);
        proof {
            assert(ids@ =~= graph.ids@.take(i as int + 1));
        }
        i = i + 1;
    }
    let mut adj: Vec<Vec<Edge>> = Vec::new();
    let n = graph.adj.len();
    let mut p: usize = 0;
    while p < n
        invariant
            p <= n,
            n == graph.adj@.len(),
            adj@.len() == p,
            forall|p0: int| 0 <= p0 < p ==> (#[trigger] adj@[p0])@ == (graph.adj@[p0])@,
        decreases n - p,
    {
        let row = &graph.adj[p];
        let mut rowv: Vec<Edge> = Vec::new();
        let mut k: usize = 0;
        while k < row.len()
            invariant
                k <= row@.len(),
                rowv@ == row@.take(k as int),
            decreases row.len() - k,
        {
            let e = row[k];
            rowv.push(e);
            proof {
                assert(rowv@ =~= row@.take(k as int + 1));
            }
            k = k + 1;
        }
        proof {
            assert(rowv@ =~= row@);
        }
        adj.push(rowv);
        p = p + 1;
    }
    let r = Graph { ids, adj };
    proof {
        assert(r.ids@ =~= graph.ids@);
        assert(r@.adj =~= graph@.adj);
        assert(r@.ids =~= graph@.ids);
    }
    r
}

/// Runs the Louvain method to convergence and maps every original node to
/// its final community.
///
/// Levels repeat {local-move passes to a local optimum, aggregate} until a
/// level moves nothing, the modularity gain over the previous level falls
/// under one millionth, or the level ceiling is reached.  An empty graph
/// yields the empty mapping.  The result is a function of the graph alone,
/// so two runs on the identical graph agree.
pub fn run_louvain(graph: &Graph) -> (r: Vec<usize>)
    requires
        graph@.wf(),
    ensures
        r@ == louvain_spec(graph@),
        r@.len() == graph@.n(),
{
    let ghost m0 = graph@;
    let n0 = graph.node_count();
    let mut cur = copy_graph(graph);
    let mut global = initialize_communities(&cur);
    let mut prev_q: i128 = -2_000_000;
    let mut levels_left: usize = LEVEL_CEILING;
    proof {
        assert(global@ =~= init_comm(m0.n()));
    }
    loop
        invariant
            m0 == graph@,
            n0 == m0.n(),
            cur@.wf(),
            global@.len() == n0,
            forall|o: int| 0 <= o < n0 ==> (#[trigger] global@[o]) < cur@.n(),
            1 <= levels_left <= LEVEL_CEILING,
            -2_000_000 <= prev_q <= 1_000_000,
            louvain_spec(m0) == louvain_rec(
                cur@,
                global@,
                prev_q as int,
                levels_left as nat,
            ),
        decreases levels_left,
    {
        let ghost mc = cur@;
        proof {
            lemma_wf_implies_bounded(mc);
        }
        let s_tot = cur.total_weight();
        let mut comm = initialize_communities(&cur);
        let any = run_passes(&cur, &mut comm, s_tot);
        let ghost opt = passes_spec(mc, s_tot as int, init_comm(mc.n()), PASS_CEILING as nat);
        proof {
            assert((comm@, any) == opt);
        }
        let q_ratio = calculate_modularity(&cur, &comm);
        proof {
            lemma_modularity_bounded(mc, comm@);
            assert(mc.total_weight() <= MAX_TOTAL_WEIGHT);
            assert((MAX_TOTAL_WEIGHT as int) * (MAX_TOTAL_WEIGHT as int) >= mc.total_weight()
                * mc.total_weight()) by (nonlinear_arith)
                requires
                    0 <= mc.total_weight() <= MAX_TOTAL_WEIGHT as int,
            ;
        }
        let q = ratio_millionths(&q_ratio);
        if !any || q - prev_q < 1 || levels_left == 1 {
            let mut res: Vec<usize> = Vec::new();
            let mut o: usize = 0;
            while o < n0
                invariant
                    o <= n0,
                    res@.len() == o,
                    global@.len() == n0,
                    comm@.len() == cur@.n(),
                    forall|o0: int| 0 <= o0 < n0 ==> (#[trigger] global@[o0]) < cur@.n(),
                    forall|o0: int| 0 <= o0 < o ==> (#[trigger] res@[o0]) == comm@[global@[o0] as int],
                decreases n0 - o,
            {
                let g = global[o];
                res.push(comm[g]);
                o = o + 1;
            }
            proof {
                assert(res@ =~= compose_comm(comm@, global@));
                assert(louvain_rec(mc, global@, prev_q as int, levels_left as nat) == compose_comm(
                    comm@,
                    global@,
                ));
            }
            return res;
        }
        let h = aggregate_graph(&cur, &comm);
        let ghost hm = h@;
        // Each community's rank among the aggregated nodes, read off the
        // aggregated identifier list.
        let cur_n = cur.node_count();
        let mut rankv: Vec<usize> = Vec::new();
        let mut z: usize = 0;
        while z < cur_n
            invariant
                z <= cur_n,
                rankv@.len() == z,
            decreases cur_n - z,
        {
            rankv.push(0);
            z = z + 1;
        }
        let nc = h.ids.len();
        proof {
            lemma_agg_ids_props(comm@, mc.n());
            assert(hm.ids == agg_ids(comm@, mc.n()));
        }
        let mut k: usize = 0;
        while k < nc
            invariant
                hm == h@,
                mc == cur@,
                nc == hm.ids.len(),
                hm.ids == agg_ids(comm@, mc.n()),
                cur_n == mc.n(),
                rankv@.len() == cur_n,
                k <= nc,
                forall|k0: int|
                    0 <= k0 < nc ==> (#[trigger] hm.ids[k0]) < cur_n && present(
                        comm@,
                        hm.ids[k0] as int,
                    ),
                forall|k0: int|
                    0 <= k0 < k ==> (#[trigger] rankv@[hm.ids[k0] as int]) as int == agg_rank(
                        comm@,
                        hm.ids[k0] as int,
                    ),
                forall|k1: int, k2: int|
                    0 <= k1 < k2 < nc ==> (#[trigger] hm.ids[k1]) < (#[trigger] hm.ids[k2]),
            decreases nc - k,
        {
            let cid = h.ids[k] as usize;
            rankv.set(cid, k);
            proof {
                // This identifier sits exactly at its rank: the list is
                // strictly ascending, so positions and ranks agree.
                lemma_agg_ids_props(comm@, mc.n());
                let c0 = hm.ids[k as int] as int;
                assert(hm.ids[agg_rank(comm@, c0)] as int == c0);
                if agg_rank(comm@, c0) < k as int {
                    assert(hm.ids[agg_rank(comm@, c0)] < hm.ids[k as int]);
                    assert(false);
                } else if agg_rank(comm@, c0) > k as int {
                    assert(hm.ids[k as int] < hm.ids[agg_rank(comm@, c0)]);
                    assert(false);
                }
                assert forall|k0: int| 0 <= k0 < k + 1 implies (#[trigger] rankv@[hm.ids[k0] as int]) as int
                    == agg_rank(comm@, hm.ids[k0] as int) by {
                    if k0 < k && hm.ids[k0] as int != c0 {
                    }
                }
            }
            k = k + 1;
        }
        proof {
            lemma_agg_ids_props(comm@, mc.n());
            assert forall|c0: int| 0 <= c0 < cur_n && present(comm@, c0) implies (
            #[trigger] rankv@[c0]) as int == agg_rank(comm@, c0) by {
                let kk = agg_rank(comm@, c0);
                assert(hm.ids[kk] as int == c0);
                assert(rankv@[hm.ids[kk] as int] as int == agg_rank(comm@, hm.ids[kk] as int));
            }
        }
        // Carry the hierarchy forward: an original node's community becomes
        // that community's aggregated rank.
        let ghost global_old = global@;
        let mut o: usize = 0;
        while o < n0
            invariant
                mc == cur@,
                hm == h@,
                nc == hm.ids.len(),
                hm.ids == agg_ids(comm@, mc.n()),
                comm@.len() == mc.n(),
                valid_partition(comm@, mc.n()),
                cur_n == mc.n(),
                rankv@.len() == cur_n,
                forall|c0: int|
                    0 <= c0 < cur_n && present(comm@, c0) ==> (#[trigger] rankv@[c0]) as int
                        == agg_rank(comm@, c0),
                o <= n0,
                global@.len() == n0,
                forall|o0: int| o <= o0 < n0 ==> (#[trigger] global@[o0]) == global_old[o0],
                forall|o0: int| o <= o0 < n0 ==> (#[trigger] global@[o0]) < cur_n,
                forall|o0: int|
                    0 <= o0 < o ==> (#[trigger] global@[o0]) as int == agg_rank(
                        comm@,
                        comm@[global_old[o0] as int] as int,
                    ) && (global@[o0] as int) < nc,
            decreases n0 - o,
        {
            let g = global[o];
            let c0 = comm[g];
            proof {
                assert((comm@[g as int]) as int == c0 as int);
                assert(present(comm@, c0 as int));
                lemma_agg_ids_props(comm@, mc.n());
            }
            let newg = rankv[c0];
            global.set(o, newg);
            o = o + 1;
        }
        proof {
            assert(global@ =~= next_global(comm@, global_old));
            assert(hm == agg_model(mc, comm@)) by {
                assert(hm.adj =~= agg_model(mc, comm@).adj);
                assert(hm.ids == agg_model(mc, comm@).ids);
            }
            assert(louvain_rec(mc, global_old, prev_q as int, levels_left as nat) == louvain_rec(
                hm,
                next_global(comm@, global_old),
                millionths(mod_num(mc, comm@), mod_den(mc)),
                (levels_left - 1) as nat,
            ));
            assert forall|o0: int| 0 <= o0 < n0 implies (#[trigger] global@[o0]) < hm.n() by {
                assert(present(comm@, comm@[global_old[o0] as int] as int));
            }
        }
        prev_q = q;
        levels_left = levels_left - 1;
        cur = h;
    }
}

} // verus!
