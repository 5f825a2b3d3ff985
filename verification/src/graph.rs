//! The weighted undirected graph that the engine works on, and the
//! similarity-graph builder that produces it from records.
//!
//! Nodes are stored by position: node `i` of the graph has identifier
//! `ids[i]` and adjacency list `adj[i]`.  Every undirected edge is stored
//! twice, once per endpoint, with the same weight both times; weights are
//! fixed-point integers in millionths (`SCALE` is 1.0).  An adjacency entry
//! whose target index falls outside the node range is treated as absent by
//! every reader (the recoverable missing-neighbor policy): its weight counts
//! for nothing anywhere.

use vstd::prelude::*;
use vstd::set_lib::lemma_len_subset;
use vstd::set_lib::lemma_int_range;
use vstd::set_lib::set_int_range;
use crate::node::Node;
use crate::sums::rsum;
use crate::sums::ssum;
use crate::sums::lemma_rsum_nonneg;
use crate::sums::lemma_rsum_zero;
use crate::sums::lemma_rsum_except;
use crate::sums::lemma_rsum_congruence;
use crate::sums::lemma_dsum_swap_with;
use crate::sums::lemma_dsum_congruence;
use crate::sums::lemma_ssum_congruence;
use crate::sums::lemma_rsum_element_le;
use crate::sums::lemma_rsum_prefix_le;
use crate::sums::lemma_ssum_nonneg;
use crate::sums::lemma_ssum_element_le;
use crate::sums::lemma_ssum_take_step;
use crate::sums::lemma_ssum_take_le;
use crate::sums::lemma_ssum_take_all;
use crate::sums::lemma_ssum_bounded;
use crate::sums::lemma_rsum_bounded;
use crate::sums::lemma_ssum_le;
use crate::sums::lemma_rsum_le;
use crate::sums::lemma_ssum_linear;
use crate::sums::lemma_rsum_linear;
use crate::sums::lemma_ssum_scale;
use crate::sums::lemma_rsum_scale;

verus! {

/// Fixed-point representation of the weight 1.0: one million millionths.
pub const SCALE: u64 = 1_000_000;

/// Cap on the number of nodes a graph may hold.  Together with
/// `MAX_TOTAL_WEIGHT` it keeps every accumulation in the engine inside its
/// machine integer; the expected inputs (low thousands of records) sit well
/// inside it.
pub const MAX_NODES: usize = 4096;

/// Cap on the total stored edge weight of a graph: `MAX_NODES` squared
/// adjacency entries of weight at most `SCALE` each.
pub const MAX_TOTAL_WEIGHT: u64 = 0x1_0000_0000_0000;

/// One adjacency entry: the target node's position and the edge weight in
/// millionths.
#[derive(Clone, Copy, PartialEq, Eq, Structural, Debug)]
pub struct Edge {
    pub to: usize,
    pub weight: u64,
}

/// Adjacency-list graph; node `i` has identifier `ids[i]` and edges
/// `adj[i]`.
pub struct Graph {
    pub ids: Vec<u64>,
    pub adj: Vec<Vec<Edge>>,
}

/// The mathematical shadow of a `Graph`: the same data as sequences.
pub struct GraphModel {
    pub ids: Seq<u64>,
    pub adj: Seq<Seq<Edge>>,
}

impl View for Graph {
    type V = GraphModel;

    open spec fn view(&self) -> GraphModel {
        GraphModel { ids: self.ids@, adj: self.adj@.map_values(|row: Vec<Edge>| row@) }
    }
}

/// The weight an adjacency entry contributes in a graph of `n` nodes:
/// its weight if the target is a real node, nothing otherwise.
pub open spec fn valid_weight(n: nat) -> spec_fn(Edge) -> int {
    |e: Edge| if (e.to as int) < n { e.weight as int } else { 0 }
}

impl GraphModel {
    /// Number of nodes.
    pub open spec fn n(self) -> nat {
        self.adj.len()
    }

    /// Weighted degree of node `i`: the sum of the weights of its edges to
    /// real nodes.
    pub open spec fn degree(self, i: int) -> int {
        ssum(self.adj[i], valid_weight(self.n()))
    }

    /// The degree of each node, as a function on positions.
    pub open spec fn degree_fn(self) -> spec_fn(int) -> int {
        |i: int| self.degree(i)
    }

    /// Total stored weight: the sum of all weighted degrees.  Each
    /// undirected edge is stored twice, so this is twice the weight of the
    /// undirected edge set.
    pub open spec fn total_weight(self) -> int {
        rsum(self.n(), self.degree_fn())
    }

    /// Node identifiers are pairwise distinct.
    pub open spec fn ids_distinct(self) -> bool {
        forall|p: int, q: int| 0 <= p < q < self.ids.len() ==> self.ids[p] != self.ids[q]
    }

    /// Every adjacency entry points at a real node other than its owner.
    pub open spec fn entries_valid(self) -> bool {
        forall|i: int, k: int|
            0 <= i < self.n() && 0 <= k < self.adj[i].len() ==> (#[trigger] self.adj[i][k]).to
                < self.n() && self.adj[i][k].to != i
    }

    /// No two entries of one adjacency list point at the same node.
    pub open spec fn rows_distinct(self) -> bool {
        forall|i: int, k1: int, k2: int|
            0 <= i < self.n() && 0 <= k1 < k2 < self.adj[i].len() ==> (#[trigger] self.adj[i][k1]).to
                != (#[trigger] self.adj[i][k2]).to
    }

    /// Entry `k` of row `i` has a mirror entry at its target with the same
    /// weight.
    pub open spec fn has_mirror(self, i: int, k: int) -> bool {
        exists|k2: int|
            0 <= k2 < self.adj[self.adj[i][k].to as int].len() && (#[trigger] self.adj[self.adj[i][k].to as int][k2]).to
                == i && self.adj[self.adj[i][k].to as int][k2].weight == self.adj[i][k].weight
    }

    /// Every stored edge is stored in both directions with the same weight.
    pub open spec fn symmetric(self) -> bool {
        forall|i: int, k: int|
            0 <= i < self.n() && 0 <= k < self.adj[i].len() ==> #[trigger] self.has_mirror(i, k)
    }

    /// Structural size bounds alone: what the scorer needs so that its
    /// arithmetic fits, with no demand that the graph be internally
    /// consistent.
    pub open spec fn bounded(self) -> bool {
        &&& self.ids.len() == self.n()
        &&& self.n() <= MAX_NODES
        &&& forall|i: int| 0 <= i < self.n() ==> (#[trigger] self.adj[i]).len() <= MAX_NODES
        &&& self.total_weight() <= MAX_TOTAL_WEIGHT
    }

    /// Full well-formedness: what the builder establishes and aggregation
    /// preserves.
    pub open spec fn wf(self) -> bool {
        &&& self.ids.len() == self.n()
        &&& self.n() <= MAX_NODES
        &&& self.ids_distinct()
        &&& self.entries_valid()
        &&& self.rows_distinct()
        &&& self.symmetric()
        &&& self.total_weight() <= MAX_TOTAL_WEIGHT
    }

    /// Every edge weight lies in the unit interval (at most `SCALE`, i.e.
    /// 1.0); holds for graphs the builder produces.
    pub open spec fn weights_in_unit(self) -> bool {
        forall|i: int, k: int|
            0 <= i < self.n() && 0 <= k < self.adj[i].len() ==> (#[trigger] self.adj[i][k]).weight
                <= SCALE
    }
}

/// Degrees are non-negative.
pub proof fn lemma_degree_nonneg(m: GraphModel, i: int)
    ensures
        m.degree(i) >= 0,
{
    lemma_ssum_nonneg(m.adj[i], valid_weight(m.n()));
}

/// The total weight is non-negative.
pub proof fn lemma_total_weight_nonneg(m: GraphModel)
    ensures
        m.total_weight() >= 0,
{
    assert forall|i: int| 0 <= i < m.n() implies #[trigger] m.degree_fn()(i) >= 0 by {
        lemma_degree_nonneg(m, i);
    }
    lemma_rsum_nonneg(m.n(), m.degree_fn());
}

/// No node's degree exceeds the total weight.
pub proof fn lemma_degree_le_total(m: GraphModel, i: int)
    requires
        0 <= i < m.n(),
    ensures
        0 <= m.degree(i) <= m.total_weight(),
{
    assert forall|j: int| 0 <= j < m.n() implies #[trigger] m.degree_fn()(j) >= 0 by {
        lemma_degree_nonneg(m, j);
    }
    lemma_rsum_element_le(m.n(), m.degree_fn(), i);
    lemma_degree_nonneg(m, i);
}

/// A single valid entry's weight is at most its node's degree.
pub proof fn lemma_entry_le_degree(m: GraphModel, i: int, k: int)
    requires
        0 <= k < m.adj[i].len(),
        m.adj[i][k].to < m.n(),
    ensures
        m.adj[i][k].weight <= m.degree(i),
{
    let f = valid_weight(m.n());
    assert(f(m.adj[i][k]) == m.adj[i][k].weight as int);
    lemma_ssum_element_le(m.adj[i], f, k);
}

/// Pigeonhole: a row whose entries point at distinct real nodes has at most
/// `n` entries.
pub proof fn lemma_row_len_le_n(m: GraphModel, i: int)
    requires
        0 <= i < m.n(),
        m.entries_valid(),
        m.rows_distinct(),
    ensures
        m.adj[i].len() <= m.n(),
{
    let s = m.adj[i].map_values(|e: Edge| e.to as int);
    assert(s.no_duplicates()) by {
        assert forall|k1: int, k2: int| 0 <= k1 < s.len() && 0 <= k2 < s.len() && k1 != k2
            implies s[k1] != s[k2] by {
            if k1 < k2 {
                assert(m.adj[i][k1].to != m.adj[i][k2].to);
            } else {
                assert(m.adj[i][k2].to != m.adj[i][k1].to);
            }
        }
    }
    s.unique_seq_to_set();
    assert(s.to_set().subset_of(set_int_range(0, m.n() as int))) by {
        assert forall|x: int| s.to_set().contains(x) implies set_int_range(0, m.n() as int).contains(
            x,
        ) by {
            let k = choose|k: int| 0 <= k < s.len() && s[k] == x;
            assert(m.adj[i][k].to < m.n());
        }
    }
    lemma_int_range(0, m.n() as int);
    lemma_len_subset(s.to_set(), set_int_range(0, m.n() as int));
}

/// Well-formedness implies the size bounds the scorer asks for.
pub proof fn lemma_wf_implies_bounded(m: GraphModel)
    requires
        m.wf(),
    ensures
        m.bounded(),
{
    assert forall|i: int| 0 <= i < m.n() implies (#[trigger] m.adj[i]).len() <= MAX_NODES by {
        lemma_row_len_le_n(m, i);
    }
}

/// The weight a row stores toward node `j`: the weight of its last entry
/// pointing at `j`, or 0 when no entry does.  In a row with distinct
/// targets this is the one stored weight toward `j`.
pub open spec fn row_w(s: Seq<Edge>, j: int) -> int
    decreases s.len(),
{
    if s.len() == 0 {
        0
    } else if s.last().to == j {
        s.last().weight as int
    } else {
        row_w(s.drop_last(), j)
    }
}

/// A row with no entry toward `j` stores weight 0 toward `j`.
pub proof fn lemma_row_w_absent(s: Seq<Edge>, j: int)
    requires
        forall|k: int| 0 <= k < s.len() ==> (#[trigger] s[k]).to != j,
    ensures
        row_w(s, j) == 0,
    decreases s.len(),
{
    if s.len() > 0 {
        lemma_row_w_absent(s.drop_last(), j);
    }
}

/// In a row with distinct targets, an entry toward `j` decides the stored
/// weight toward `j`.
pub proof fn lemma_row_w_finds(s: Seq<Edge>, j: int, k: int)
    requires
        0 <= k < s.len(),
        s[k].to == j,
        forall|k1: int, k2: int| 0 <= k1 < k2 < s.len() ==> (#[trigger] s[k1]).to != (
        #[trigger] s[k2]).to,
    ensures
        row_w(s, j) == s[k].weight,
    decreases s.len(),
{
    if k == s.len() - 1 {
    } else {
        assert(s[k].to != s[s.len() - 1].to);
        lemma_row_w_finds(s.drop_last(), j, k);
    }
}

impl GraphModel {
    /// The weight stored from node `i` toward node `j` (0 when no edge).
    pub open spec fn mat_w(self, i: int, j: int) -> int {
        row_w(self.adj[i], j)
    }
}

/// In a well-formed graph the stored weights form a symmetric matrix.
pub proof fn lemma_mat_symmetric(m: GraphModel, i: int, j: int)
    requires
        m.entries_valid(),
        m.rows_distinct(),
        m.symmetric(),
        0 <= i < m.n(),
        0 <= j < m.n(),
    ensures
        m.mat_w(i, j) == m.mat_w(j, i),
{
    if exists|k: int| 0 <= k < m.adj[i].len() && (#[trigger] m.adj[i][k]).to == j {
        let k = choose|k: int| 0 <= k < m.adj[i].len() && (#[trigger] m.adj[i][k]).to == j;
        lemma_row_w_finds(m.adj[i], j, k);
        assert(m.has_mirror(i, k));
        let k2 = choose|k2: int|
            0 <= k2 < m.adj[j as int].len() && (#[trigger] m.adj[j as int][k2]).to == i
                && m.adj[j as int][k2].weight == m.adj[i][k].weight;
        lemma_row_w_finds(m.adj[j], i, k2);
    } else {
        lemma_row_w_absent(m.adj[i], j);
        if exists|k2: int| 0 <= k2 < m.adj[j].len() && (#[trigger] m.adj[j][k2]).to == i {
            let k2 = choose|k2: int| 0 <= k2 < m.adj[j].len() && (#[trigger] m.adj[j][k2]).to == i;
            assert(m.has_mirror(j, k2));
            let k3 = choose|k3: int|
                0 <= k3 < m.adj[i as int].len() && (#[trigger] m.adj[i as int][k3]).to == j
                    && m.adj[i as int][k3].weight == m.adj[j][k2].weight;
            assert(false);
        } else {
            lemma_row_w_absent(m.adj[j], i);
        }
    }
}

/// The term an adjacency entry of row `i` contributes under an edge
/// functional `f(source, target, weight)`: nothing when the target is not
/// a real node.
pub open spec fn guarded3(m: GraphModel, f: spec_fn(int, int, int) -> int, i: int) -> spec_fn(
    Edge,
) -> int {
    |e: Edge|
        if (e.to as int) < m.n() {
            f(i, e.to as int, e.weight as int)
        } else {
            0
        }
}

/// The contribution of row `i`'s valid entries under an edge functional
/// `f(source, target, weight)`.
pub open spec fn entry_row_fn(m: GraphModel, f: spec_fn(int, int, int) -> int) -> spec_fn(
    int,
) -> int {
    |i: int| ssum(m.adj[i], guarded3(m, f, i))
}

/// The sum of `f(source, target, weight)` over every valid adjacency entry
/// of the graph.
pub open spec fn entry_sum(m: GraphModel, f: spec_fn(int, int, int) -> int) -> int {
    rsum(m.n(), entry_row_fn(m, f))
}

/// Entry sums respect pointwise `<=` over source, valid target and
/// non-negative weight.
pub proof fn lemma_entry_sum_le(
    m: GraphModel,
    f: spec_fn(int, int, int) -> int,
    g: spec_fn(int, int, int) -> int,
)
    requires
        forall|i: int, j: int, w: int|
            0 <= i < m.n() && 0 <= j < m.n() && w >= 0 ==> #[trigger] f(i, j, w) <= #[trigger] g(
                i,
                j,
                w,
            ),
    ensures
        entry_sum(m, f) <= entry_sum(m, g),
{
    assert forall|i: int| 0 <= i < m.n() implies #[trigger] entry_row_fn(m, f)(i)
        <= #[trigger] entry_row_fn(m, g)(i) by {
        let s = m.adj[i];
        assert forall|k: int| 0 <= k < s.len() implies #[trigger] guarded3(m, f, i)(s[k])
            <= #[trigger] guarded3(m, g, i)(s[k]) by {}
        lemma_ssum_le(s, guarded3(m, f, i), guarded3(m, g, i));
    }
    lemma_rsum_le(m.n(), entry_row_fn(m, f), entry_row_fn(m, g));
}

/// Entry sums split over a pointwise sum of functionals.
pub proof fn lemma_entry_sum_linear(
    m: GraphModel,
    f: spec_fn(int, int, int) -> int,
    g: spec_fn(int, int, int) -> int,
    h: spec_fn(int, int, int) -> int,
)
    requires
        forall|i: int, j: int, w: int|
            0 <= i < m.n() && 0 <= j < m.n() && w >= 0 ==> #[trigger] h(i, j, w) == #[trigger] f(
                i,
                j,
                w,
            ) + #[trigger] g(i, j, w),
    ensures
        entry_sum(m, h) == entry_sum(m, f) + entry_sum(m, g),
{
    assert forall|i: int| 0 <= i < m.n() implies #[trigger] entry_row_fn(m, h)(i)
        == #[trigger] entry_row_fn(m, f)(i) + #[trigger] entry_row_fn(m, g)(i) by {
        let s = m.adj[i];
        assert forall|k: int| 0 <= k < s.len() implies #[trigger] guarded3(m, h, i)(s[k])
            == #[trigger] guarded3(m, f, i)(s[k]) + #[trigger] guarded3(m, g, i)(s[k]) by {}
        lemma_ssum_linear(s, guarded3(m, f, i), guarded3(m, g, i), guarded3(m, h, i));
    }
    lemma_rsum_linear(m.n(), entry_row_fn(m, f), entry_row_fn(m, g), entry_row_fn(m, h));
}

/// Entry sums only look at the functional's values on source, valid target
/// and non-negative weight.
pub proof fn lemma_entry_sum_congruence(
    m: GraphModel,
    f: spec_fn(int, int, int) -> int,
    g: spec_fn(int, int, int) -> int,
)
    requires
        forall|i: int, j: int, w: int|
            0 <= i < m.n() && 0 <= j < m.n() && w >= 0 ==> #[trigger] f(i, j, w) == #[trigger] g(
                i,
                j,
                w,
            ),
    ensures
        entry_sum(m, f) == entry_sum(m, g),
{
    lemma_entry_sum_le(m, f, g);
    lemma_entry_sum_le(m, g, f);
}

/// Scaling the functional scales the entry sum.
pub proof fn lemma_entry_sum_scale(
    m: GraphModel,
    f: spec_fn(int, int, int) -> int,
    g: spec_fn(int, int, int) -> int,
    c: int,
)
    requires
        forall|i: int, j: int, w: int|
            0 <= i < m.n() && 0 <= j < m.n() && w >= 0 ==> #[trigger] g(i, j, w) == c
                * #[trigger] f(i, j, w),
    ensures
        entry_sum(m, g) == c * entry_sum(m, f),
{
    assert forall|i: int| 0 <= i < m.n() implies #[trigger] entry_row_fn(m, g)(i) == c
        * #[trigger] entry_row_fn(m, f)(i) by {
        let s = m.adj[i];
        assert forall|k: int| 0 <= k < s.len() implies #[trigger] guarded3(m, g, i)(s[k]) == c
            * #[trigger] guarded3(m, f, i)(s[k]) by {
            if !((s[k].to as int) < m.n()) {
                assert(c * 0 == 0) by (nonlinear_arith);
            }
        }
        lemma_ssum_scale(s, guarded3(m, f, i), guarded3(m, g, i), c);
    }
    lemma_rsum_scale(m.n(), entry_row_fn(m, f), entry_row_fn(m, g), c);
}

/// The plain weight functional, whose entry sum is the total weight.
pub open spec fn weight_term() -> spec_fn(int, int, int) -> int {
    |i: int, j: int, w: int| w
}

/// Summing each valid entry's weight gives the total weight.
pub proof fn lemma_entry_sum_total(m: GraphModel)
    ensures
        entry_sum(m, weight_term()) == m.total_weight(),
{
    assert forall|i: int| 0 <= i < m.n() implies #[trigger] entry_row_fn(m, weight_term())(i)
        == #[trigger] m.degree_fn()(i) by {
        let s = m.adj[i];
        assert forall|k: int| 0 <= k < s.len() implies #[trigger] guarded3(m, weight_term(), i)(
            s[k],
        ) == #[trigger] valid_weight(m.n())(s[k]) by {}
        lemma_ssum_congruence(s, guarded3(m, weight_term(), i), valid_weight(m.n()));
    }
    lemma_rsum_congruence(m.n(), entry_row_fn(m, weight_term()), m.degree_fn());
}

/// An entry sum of non-negative terms is non-negative.
pub proof fn lemma_entry_sum_nonneg(m: GraphModel, f: spec_fn(int, int, int) -> int)
    requires
        forall|i: int, j: int, w: int|
            0 <= i < m.n() && 0 <= j < m.n() && w >= 0 ==> #[trigger] f(i, j, w) >= 0,
    ensures
        entry_sum(m, f) >= 0,
{
    assert forall|i: int| 0 <= i < m.n() implies #[trigger] entry_row_fn(m, f)(i) >= 0 by {
        let s = m.adj[i];
        assert forall|k: int| 0 <= k < s.len() implies #[trigger] guarded3(m, f, i)(s[k]) >= 0 by {}
        lemma_ssum_nonneg(s, guarded3(m, f, i));
    }
    lemma_rsum_nonneg(m.n(), entry_row_fn(m, f));
}

/// An entry sum of vanishing terms vanishes.
pub proof fn lemma_entry_sum_zero(m: GraphModel, f: spec_fn(int, int, int) -> int)
    requires
        forall|i: int, j: int, w: int|
            0 <= i < m.n() && 0 <= j < m.n() && w >= 0 ==> #[trigger] f(i, j, w) == 0,
    ensures
        entry_sum(m, f) == 0,
{
    assert forall|i: int| 0 <= i < m.n() implies #[trigger] entry_row_fn(m, f)(i) == 0 by {
        let s = m.adj[i];
        assert forall|k: int| 0 <= k < s.len() implies #[trigger] guarded3(m, f, i)(s[k]) == 0 by {}
        crate::sums::lemma_ssum_zero(s, guarded3(m, f, i));
    }
    lemma_rsum_zero(m.n(), entry_row_fn(m, f));
}

/// A partially accumulated entry sum of a functional dominated by the edge
/// weight stays between 0 and the total weight.
pub proof fn lemma_partial_entry_sum_le_total(
    m: GraphModel,
    f: spec_fn(int, int, int) -> int,
    i: nat,
    k: int,
)
    requires
        forall|i0: int, j: int, w: int|
            0 <= i0 < m.n() && 0 <= j < m.n() && w >= 0 ==> 0 <= #[trigger] f(i0, j, w) <= w,
        i < m.n(),
        0 <= k <= m.adj[i as int].len(),
    ensures
        0 <= rsum(i, entry_row_fn(m, f)) + ssum(m.adj[i as int].take(k), guarded3(m, f, i as int))
            <= m.total_weight(),
{
    let s = m.adj[i as int];
    // Each finished row is between 0 and its degree.
    assert forall|p: int| 0 <= p < m.n() implies 0 <= #[trigger] entry_row_fn(m, f)(p) by {
        assert forall|k0: int| 0 <= k0 < m.adj[p].len() implies #[trigger] guarded3(m, f, p)(
            m.adj[p][k0],
        ) >= 0 by {}
        lemma_ssum_nonneg(m.adj[p], guarded3(m, f, p));
    }
    assert forall|p: int| 0 <= p < m.n() implies entry_row_fn(m, f)(p)
        <= #[trigger] m.degree_fn()(p) by {
        assert forall|k0: int| 0 <= k0 < m.adj[p].len() implies #[trigger] guarded3(m, f, p)(
            m.adj[p][k0],
        ) <= #[trigger] valid_weight(m.n())(m.adj[p][k0]) by {}
        lemma_ssum_le(m.adj[p], guarded3(m, f, p), valid_weight(m.n()));
    }
    lemma_rsum_nonneg(i, entry_row_fn(m, f));
    lemma_rsum_le(i, entry_row_fn(m, f), m.degree_fn());
    // The open row prefix is between 0 and the row's degree.
    assert forall|k0: int| 0 <= k0 < s.take(k).len() implies #[trigger] guarded3(m, f, i as int)(
        s.take(k)[k0],
    ) >= 0 by {}
    lemma_ssum_nonneg(s.take(k), guarded3(m, f, i as int));
    assert forall|k0: int| 0 <= k0 < s.take(k).len() implies guarded3(m, f, i as int)(s.take(k)[k0])
        <= #[trigger] valid_weight(m.n())(s.take(k)[k0]) by {}
    lemma_ssum_le(s.take(k), guarded3(m, f, i as int), valid_weight(m.n()));
    assert forall|k0: int| 0 <= k0 < s.len() implies #[trigger] valid_weight(m.n())(s[k0]) >= 0 by {}
    lemma_ssum_take_le(s, valid_weight(m.n()), k);
    // Close the chain through the degree prefix sum.
    assert forall|p: int| 0 <= p < m.n() implies #[trigger] m.degree_fn()(p) >= 0 by {
        lemma_degree_nonneg(m, p);
    }
    assert(rsum(i + 1, m.degree_fn()) == rsum(i, m.degree_fn()) + m.degree(i as int));
    lemma_rsum_prefix_le(i + 1, m.n(), m.degree_fn());
}

/// One row's entry sum written over the dense weight matrix instead of the
/// sparse list.
pub proof fn lemma_row_sum_dense(s: Seq<Edge>, n: nat, f2: spec_fn(int, int) -> int)
    requires
        forall|k: int| 0 <= k < s.len() ==> (#[trigger] s[k]).to < n,
        forall|k1: int, k2: int| 0 <= k1 < k2 < s.len() ==> (#[trigger] s[k1]).to != (
        #[trigger] s[k2]).to,
        forall|j: int| 0 <= j < n ==> #[trigger] f2(j, 0) == 0,
    ensures
        ssum(s, |e: Edge| f2(e.to as int, e.weight as int)) == rsum(n, |j: int| f2(j, row_w(s, j))),
    decreases s.len(),
{
    let ef = |e: Edge| f2(e.to as int, e.weight as int);
    if s.len() == 0 {
        assert forall|j: int| 0 <= j < n implies #[trigger] f2(j, row_w(s, j)) == 0 by {
            assert(row_w(s, j) == 0);
        }
        lemma_rsum_zero(n, |j: int| f2(j, row_w(s, j)));
    } else {
        let s1 = s.drop_last();
        let e = s.last();
        let t = e.to as int;
        lemma_row_sum_dense(s1, n, f2);
        assert(ssum(s, ef) == ssum(s1, ef) + f2(t, e.weight as int));
        // The dense sums for `s` and `s1` agree except at column `t`.
        let ds = |j: int| f2(j, row_w(s, j));
        let ds1 = |j: int| f2(j, row_w(s1, j));
        assert forall|j: int| 0 <= j < n && j != t implies #[trigger] ds(j) == #[trigger] ds1(j) by {
            assert(row_w(s, j) == row_w(s1, j));
        }
        lemma_rsum_except(n, ds, ds1, t);
        // No earlier entry points at `t`, so `s1` stores nothing there.
        assert forall|k: int| 0 <= k < s1.len() implies (#[trigger] s1[k]).to != t by {
            assert(s[k].to != s[s.len() - 1].to);
        }
        lemma_row_w_absent(s1, t);
        assert(ds(t) == f2(t, e.weight as int));
        assert(ds1(t) == f2(t, 0));
    }
}

/// In a well-formed graph, summing `f(i, j, w)` over all stored edges
/// equals summing the transposed functional `g` (with `g(i, j, w) ==
/// f(j, i, w)`) over all stored edges: each direction of an undirected edge
/// sees the other.
pub proof fn lemma_entry_sum_swap(
    m: GraphModel,
    f: spec_fn(int, int, int) -> int,
    g: spec_fn(int, int, int) -> int,
)
    requires
        m.entries_valid(),
        m.rows_distinct(),
        m.symmetric(),
        forall|i: int, j: int| 0 <= i < m.n() && 0 <= j < m.n() ==> #[trigger] f(i, j, 0) == 0,
        forall|i: int, j: int| 0 <= i < m.n() && 0 <= j < m.n() ==> #[trigger] g(i, j, 0) == 0,
        forall|i: int, j: int, w: int|
            0 <= i < m.n() && 0 <= j < m.n() ==> #[trigger] g(i, j, w) == #[trigger] f(j, i, w),
    ensures
        entry_sum(m, f) == entry_sum(m, g),
{
    let n = m.n();
    let df = |i: int, j: int| f(i, j, m.mat_w(i, j));
    let dg = |i: int, j: int| g(i, j, m.mat_w(i, j));
    // Each row's sparse sum equals the dense row sum, for f and for g.
    assert forall|i: int| 0 <= i < n implies #[trigger] entry_row_fn(m, f)(i) == rsum(
        n,
        |j: int| df(i, j),
    ) by {
        lemma_entry_row_dense(m, f, i, df);
    }
    assert forall|i: int| 0 <= i < n implies #[trigger] entry_row_fn(m, g)(i) == rsum(
        n,
        |j: int| dg(i, j),
    ) by {
        lemma_entry_row_dense(m, g, i, dg);
    }
    lemma_rsum_congruence(n, entry_row_fn(m, f), |i: int| rsum(n, |j: int| df(i, j)));
    lemma_rsum_congruence(n, entry_row_fn(m, g), |i: int| rsum(n, |j: int| dg(i, j)));
    // Exchange the double sum for f, then rewrite with matrix symmetry.
    lemma_dsum_swap_with(n, n, df, |j: int, i: int| df(i, j));
    assert forall|a: int, b: int| 0 <= a < n && 0 <= b < n implies #[trigger] df(b, a)
        == #[trigger] dg(a, b) by {
        lemma_mat_symmetric(m, a, b);
    }
    lemma_dsum_congruence(n, n, |j: int, i: int| df(i, j), dg);
}

/// Helper: one row of `entry_sum` rewritten over the dense matrix.
proof fn lemma_entry_row_dense(
    m: GraphModel,
    f: spec_fn(int, int, int) -> int,
    i: int,
    df: spec_fn(int, int) -> int,
)
    requires
        m.entries_valid(),
        m.rows_distinct(),
        0 <= i < m.n(),
        forall|ii: int, j: int| 0 <= ii < m.n() && 0 <= j < m.n() ==> #[trigger] f(ii, j, 0) == 0,
        forall|a: int, b: int|
            0 <= a < m.n() && 0 <= b < m.n() ==> #[trigger] df(a, b) == f(a, b, m.mat_w(a, b)),
    ensures
        entry_row_fn(m, f)(i) == rsum(m.n(), |j: int| df(i, j)),
{
    let n = m.n();
    let s = m.adj[i];
    let f2 = |j: int, w: int| f(i, j, w);
    let guarded = guarded3(m, f, i);
    let ef = |e: Edge| f2(e.to as int, e.weight as int);
    assert forall|k: int| 0 <= k < s.len() implies #[trigger] guarded(s[k]) == #[trigger] ef(
        s[k],
    ) by {
        assert(s[k].to < n);
    }
    lemma_ssum_congruence(s, guarded, ef);
    lemma_row_sum_dense(s, n, f2);
    let dense1 = |j: int| f2(j, row_w(s, j));
    let dense2 = |j: int| df(i, j);
    assert forall|j: int| 0 <= j < n implies #[trigger] dense1(j) == #[trigger] dense2(j) by {
        assert(df(i, j) == f(i, j, m.mat_w(i, j)));
    }
    lemma_rsum_congruence(n, dense1, dense2);
}

/// Records eligible to share an edge: both carry an estimate and at least
/// one of the three categorical codes (category, year, age bracket)
/// matches exactly.
pub open spec fn eligible(a: Node, b: Node) -> bool {
    &&& a.estimate > 0
    &&& b.estimate > 0
    &&& (a.stub_label_num == b.stub_label_num || a.year_num == b.year_num || a.age_num
        == b.age_num)
}

/// The similarity weight of two positive estimates, in millionths.  With
/// `hi` the larger and `lo` the smaller this is `1 - |lo/hi - hi/hi|`,
/// which simplifies to `lo / hi`; it is 1.0 for equal estimates and falls
/// toward 0 as they diverge.
pub open spec fn pair_weight(ea: int, eb: int) -> int
    recommends
        ea > 0,
        eb > 0,
{
    if ea <= eb {
        ea * (SCALE as int) / eb
    } else {
        eb * (SCALE as int) / ea
    }
}

/// The weight is symmetric in its two arguments.
pub proof fn lemma_pair_weight_symmetric(ea: int, eb: int)
    ensures
        pair_weight(ea, eb) == pair_weight(eb, ea),
{
}

/// The weight of two positive estimates lies in `[0, SCALE]`.
pub proof fn lemma_pair_weight_unit(ea: int, eb: int)
    requires
        ea > 0,
        eb > 0,
    ensures
        0 <= pair_weight(ea, eb) <= SCALE,
{
    let s = SCALE as int;
    if ea <= eb {
        vstd::arithmetic::div_mod::lemma_div_is_ordered(0, ea * s, eb);
        vstd::arithmetic::div_mod::lemma_div_is_ordered(ea * s, eb * s, eb);
        assert(ea * s <= eb * s) by (nonlinear_arith)
            requires
                ea <= eb,
                s > 0,
        ;
        assert(ea * s >= 0) by (nonlinear_arith)
            requires
                ea >= 0,
                s >= 0,
        ;
        vstd::arithmetic::div_mod::lemma_div_multiples_vanish(s, eb);
        assert(eb * s == s * eb) by (nonlinear_arith);
    } else {
        vstd::arithmetic::div_mod::lemma_div_is_ordered(0, eb * s, ea);
        vstd::arithmetic::div_mod::lemma_div_is_ordered(eb * s, ea * s, ea);
        assert(eb * s <= ea * s) by (nonlinear_arith)
            requires
                eb <= ea,
                s > 0,
        ;
        assert(eb * s >= 0) by (nonlinear_arith)
            requires
                eb >= 0,
                s >= 0,
        ;
        vstd::arithmetic::div_mod::lemma_div_multiples_vanish(s, ea);
        assert(ea * s == s * ea) by (nonlinear_arith);
    }
}

/// Record `idx` becomes a node: it carries an estimate and no earlier
/// record with an estimate has the same canonical identifier (zero-estimate
/// records never connect, so they are dropped from node creation; of
/// duplicate identifiers the first occurrence wins).
pub open spec fn kept(s: Seq<Node>, idx: int) -> bool {
    &&& 0 <= idx < s.len()
    &&& s[idx].estimate > 0
    &&& forall|p: int|
        0 <= p < idx ==> !((#[trigger] s[p]).estimate > 0 && s[p].spec_id() == s[idx].spec_id())
}

/// The positions of the records that become nodes, in record order.
pub open spec fn kept_idxs(s: Seq<Node>) -> Seq<int>
    decreases s.len(),
{
    if s.len() == 0 {
        Seq::empty()
    } else {
        let pre = kept_idxs(s.drop_last());
        if kept(s, s.len() - 1) {
            pre.push(s.len() - 1)
        } else {
            pre
        }
    }
}

/// The canonical identifiers of the kept records, in record order.
pub open spec fn kept_ids(s: Seq<Node>) -> Seq<u64> {
    kept_idxs(s).map_values(|idx: int| s[idx].spec_id())
}

/// Basic shape of `kept_idxs`: entries are kept positions, strictly
/// increasing, and there are at most as many as records.
pub proof fn lemma_kept_idxs_props(s: Seq<Node>)
    ensures
        kept_idxs(s).len() <= s.len(),
        forall|k: int|
            0 <= k < kept_idxs(s).len() ==> kept(s, #[trigger] kept_idxs(s)[k]),
        forall|k1: int, k2: int|
            0 <= k1 < k2 < kept_idxs(s).len() ==> #[trigger] kept_idxs(s)[k1]
                < #[trigger] kept_idxs(s)[k2],
    decreases s.len(),
{
    if s.len() > 0 {
        let s1 = s.drop_last();
        lemma_kept_idxs_props(s1);
        assert forall|k: int| 0 <= k < kept_idxs(s1).len() implies kept(
            s,
            #[trigger] kept_idxs(s1)[k],
        ) by {
            assert(kept(s1, kept_idxs(s1)[k]));
            let idx = kept_idxs(s1)[k];
            assert(s1[idx] == s[idx]);
            assert forall|p: int| 0 <= p < idx implies !((#[trigger] s[p]).estimate > 0
                && s[p].spec_id() == s[idx].spec_id()) by {
                assert(s1[p] == s[p]);
            }
        }
    }
}

/// Growing the record prefix by one either appends one kept position or
/// leaves the node list unchanged.
pub proof fn lemma_kept_idxs_take_step(s: Seq<Node>, i: int)
    requires
        0 <= i < s.len(),
    ensures
        kept_idxs(s.take(i + 1)) == if kept(s, i) {
            kept_idxs(s.take(i)).push(i)
        } else {
            kept_idxs(s.take(i))
        },
{
    let t1 = s.take(i + 1);
    assert(t1.drop_last() =~= s.take(i));
    assert(t1[i] == s[i]);
    assert(kept(t1, i) == kept(s, i)) by {
        assert forall|p: int| 0 <= p < i implies s.take(i + 1)[p] == s[p] by {}
    }
}

/// The node list of a longer record prefix extends that of a shorter one.
pub proof fn lemma_kept_idxs_mono(s: Seq<Node>, i1: int, i2: int)
    requires
        0 <= i1 <= i2 <= s.len(),
    ensures
        kept_idxs(s.take(i1)).is_prefix_of(kept_idxs(s.take(i2))),
    decreases i2 - i1,
{
    if i1 < i2 {
        lemma_kept_idxs_mono(s, i1, i2 - 1);
        lemma_kept_idxs_take_step(s, i2 - 1);
    }
}

/// Every record with an estimate has its identifier somewhere in the node
/// list of any prefix that covers it.
pub proof fn lemma_kept_cover(s: Seq<Node>, p: int, i: int)
    requires
        0 <= p < i <= s.len(),
        s[p].estimate > 0,
    ensures
        exists|k: int|
            0 <= k < kept_idxs(s.take(i)).len() && s[#[trigger] kept_idxs(s.take(i))[k]].spec_id()
                == s[p].spec_id(),
    decreases p,
{
    if kept(s, p) {
        lemma_kept_idxs_take_step(s, p);
        lemma_kept_idxs_mono(s, p + 1, i);
        let ks = kept_idxs(s.take(p + 1));
        let k = ks.len() - 1;
        assert(ks[k] == p);
        assert(kept_idxs(s.take(i))[k] == p);
    } else {
        let q = choose|q: int|
            0 <= q < p && (#[trigger] s[q]).estimate > 0 && s[q].spec_id() == s[p].spec_id();
        lemma_kept_cover(s, q, i);
    }
}

/// The adjacency row the builder produces for node `p` once partners
/// `0 .. lim` have been considered: one entry toward each eligible partner,
/// in ascending partner order.  `sel` maps node positions to record
/// positions.
pub open spec fn built_row(s: Seq<Node>, sel: Seq<int>, p: int, lim: nat) -> Seq<Edge>
    decreases lim,
{
    if lim == 0 {
        Seq::empty()
    } else {
        let pre = built_row(s, sel, p, (lim - 1) as nat);
        let q = lim - 1;
        if q != p && eligible(s[sel[p]], s[sel[q]]) {
            pre.push(
                Edge {
                    to: q as usize,
                    weight: pair_weight(
                        s[sel[p]].estimate as int,
                        s[sel[q]].estimate as int,
                    ) as u64,
                },
            )
        } else {
            pre
        }
    }
}

/// Shape of a built row: entries point below `lim`, never at `p`, carry the
/// pair weight of their endpoints (at most `SCALE`), and their targets
/// strictly increase.
pub proof fn lemma_built_row_props(s: Seq<Node>, sel: Seq<int>, p: int, lim: nat)
    requires
        sel.len() <= MAX_NODES,
        forall|k: int| 0 <= k < sel.len() ==> 0 <= #[trigger] sel[k] < s.len(),
        0 <= p < sel.len(),
        lim <= sel.len(),
    ensures
        built_row(s, sel, p, lim).len() <= lim,
        forall|k: int|
            0 <= k < built_row(s, sel, p, lim).len() ==> {
                let e = #[trigger] built_row(s, sel, p, lim)[k];
                &&& e.to < lim
                &&& e.to != p
                &&& eligible(s[sel[p]], s[sel[e.to as int]])
                &&& e.weight == pair_weight(
                    s[sel[p]].estimate as int,
                    s[sel[e.to as int]].estimate as int,
                )
                &&& e.weight <= SCALE
            },
        forall|k1: int, k2: int|
            0 <= k1 < k2 < built_row(s, sel, p, lim).len() ==> (#[trigger] built_row(
                s,
                sel,
                p,
                lim,
            )[k1]).to < (#[trigger] built_row(s, sel, p, lim)[k2]).to,
    decreases lim,
{
    if lim > 0 {
        lemma_built_row_props(s, sel, p, (lim - 1) as nat);
        let q = lim - 1;
        if q != p && eligible(s[sel[p]], s[sel[q]]) {
            lemma_pair_weight_unit(s[sel[p]].estimate as int, s[sel[q]].estimate as int);
        }
    }
}

/// The weight a built row stores toward any target `q0`: the pair weight
/// when `q0` is an eligible partner below `lim`, and nothing otherwise.
pub proof fn lemma_built_row_w(s: Seq<Node>, sel: Seq<int>, p: int, lim: nat, q0: int)
    requires
        sel.len() <= MAX_NODES,
        forall|k: int| 0 <= k < sel.len() ==> 0 <= #[trigger] sel[k] < s.len(),
        0 <= p < sel.len(),
        lim <= sel.len(),
    ensures
        row_w(built_row(s, sel, p, lim), q0) == if 0 <= q0 < lim && q0 != p && eligible(
            s[sel[p]],
            s[sel[q0]],
        ) {
            pair_weight(s[sel[p]].estimate as int, s[sel[q0]].estimate as int)
        } else {
            0
        },
    decreases lim,
{
    lemma_built_row_props(s, sel, p, lim);
    let row = built_row(s, sel, p, lim);
    if lim == 0 {
        lemma_row_w_absent(row, q0);
    } else {
        let q = lim - 1;
        let pre = built_row(s, sel, p, (lim - 1) as nat);
        lemma_built_row_props(s, sel, p, (lim - 1) as nat);
        if q != p && eligible(s[sel[p]], s[sel[q]]) {
            assert(row.last().to == q);
            if q0 == q {
                lemma_pair_weight_unit(s[sel[p]].estimate as int, s[sel[q]].estimate as int);
            } else {
                assert(row.drop_last() =~= pre);
                lemma_built_row_w(s, sel, p, (lim - 1) as nat, q0);
            }
        } else {
            assert(row =~= pre);
            lemma_built_row_w(s, sel, p, (lim - 1) as nat, q0);
            if q0 == q {
                assert forall|k: int| 0 <= k < pre.len() implies (#[trigger] pre[k]).to != q0 by {}
                lemma_row_w_absent(pre, q0);
            }
        }
    }
}

/// An eligible partner below `lim` has an entry in the built row carrying
/// the pair weight.
pub proof fn lemma_built_row_contains(s: Seq<Node>, sel: Seq<int>, p: int, lim: nat, q0: int)
    requires
        sel.len() <= MAX_NODES,
        forall|k: int| 0 <= k < sel.len() ==> 0 <= #[trigger] sel[k] < s.len(),
        0 <= p < sel.len(),
        lim <= sel.len(),
        0 <= q0 < lim,
        q0 != p,
        eligible(s[sel[p]], s[sel[q0]]),
    ensures
        exists|k: int|
            0 <= k < built_row(s, sel, p, lim).len() && (#[trigger] built_row(s, sel, p, lim)[k]).to
                == q0 && built_row(s, sel, p, lim)[k].weight == pair_weight(
                s[sel[p]].estimate as int,
                s[sel[q0]].estimate as int,
            ),
    decreases lim,
{
    let row = built_row(s, sel, p, lim);
    let pw = pair_weight(s[sel[p]].estimate as int, s[sel[q0]].estimate as int);
    let q = lim - 1;
    if q0 == q {
        lemma_pair_weight_unit(s[sel[p]].estimate as int, s[sel[q0]].estimate as int);
        let kk = row.len() - 1;
        assert(0 <= kk < row.len() && (#[trigger] row[kk]).to == q0 && row[kk].weight == pw);
    } else {
        lemma_built_row_contains(s, sel, p, (lim - 1) as nat, q0);
        let pre = built_row(s, sel, p, (lim - 1) as nat);
        let k = choose|k: int|
            0 <= k < pre.len() && (#[trigger] pre[k]).to == q0 && pre[k].weight == pw;
        assert(row[k] == pre[k]);
        assert(0 <= k < row.len() && (#[trigger] row[k]).to == q0 && row[k].weight == pw);
    }
}

/// Being kept is decided by the record's prefix alone.
pub proof fn lemma_kept_prefix(s: Seq<Node>, i: int, t: int)
    requires
        0 <= t < i <= s.len(),
    ensures
        kept(s.take(i), t) == kept(s, t),
{
    assert(s.take(i)[t] == s[t]);
    assert forall|p: int| 0 <= p < t implies s.take(i)[p] == s[p] by {}
}

/// Identifiers of the kept records are pairwise distinct.
pub proof fn lemma_kept_ids_distinct(s: Seq<Node>)
    ensures
        forall|k1: int, k2: int|
            0 <= k1 < k2 < kept_ids(s).len() ==> #[trigger] kept_ids(s)[k1] != #[trigger] kept_ids(
                s,
            )[k2],
{
    lemma_kept_idxs_props(s);
    assert forall|k1: int, k2: int| 0 <= k1 < k2 < kept_ids(s).len() implies #[trigger] kept_ids(
        s,
    )[k1] != #[trigger] kept_ids(s)[k2] by {
        let i1 = kept_idxs(s)[k1];
        let i2 = kept_idxs(s)[k2];
        assert(kept(s, i1) && kept(s, i2) && i1 < i2);
        assert(s[i1].estimate > 0);
    }
}

/// The weight the finished similarity graph owes between node positions
/// `p` and `q`: the pair weight of their records when the pair is
/// eligible, and no edge otherwise.
pub open spec fn built_weight(s: Seq<Node>, p: int, q: int) -> int {
    let sel = kept_idxs(s);
    if p != q && eligible(s[sel[p]], s[sel[q]]) {
        pair_weight(s[sel[p]].estimate as int, s[sel[q]].estimate as int)
    } else {
        0
    }
}

/// Computes the similarity weight of two positive estimates:
/// fixed-point `min / max` in millionths.
pub fn weight_of_estimates(ea: u64, eb: u64) -> (w: u64)
    requires
        ea > 0,
        eb > 0,
    ensures
        w == pair_weight(ea as int, eb as int),
        w <= SCALE,
{
    let (lo, hi) = if ea <= eb {
        (ea, eb)
    } else {
        (eb, ea)
    };
    let prod: u128 = (lo as u128) * (SCALE as u128);
    let q: u128 = prod / (hi as u128);
    proof {
        lemma_pair_weight_unit(ea as int, eb as int);
        assert(q == pair_weight(ea as int, eb as int));
    }
    q as u64
}

impl Graph {
    /// Number of nodes.
    pub fn node_count(&self) -> (r: usize)
        ensures
            r == self@.n(),
    {
        self.adj.len()
    }

    /// The weighted degree of every node, in one pass.
    pub fn degrees(&self) -> (r: Vec<u64>)
        requires
            self@.bounded(),
        ensures
            r@.len() == self@.n(),
            forall|i: int| 0 <= i < self@.n() ==> r@[i] == self@.degree(i),
    {
        let ghost m = self@;
        let n = self.adj.len();
        let mut r: Vec<u64> = Vec::new();
        let mut i: usize = 0;
        while i < n
            invariant
                m == self@,
                m.bounded(),
                n == m.n(),
                i <= n,
                r@.len() == i,
                forall|p: int| 0 <= p < i ==> r@[p] == m.degree(p),
            decreases n - i,
        {
            let row = &self.adj[i];
            let ghost f = valid_weight(m.n());
            let mut acc: u64 = 0;
            let mut k: usize = 0;
            proof {
                assert(row@.take(0) =~= Seq::<Edge>::empty());
            }
            while k < row.len()
                invariant
                    m == self@,
                    m.bounded(),
                    n == m.n(),
                    i < n,
                    row@ == m.adj[i as int],
                    f == valid_weight(m.n()),
                    k <= row.len(),
                    acc == ssum(row@.take(k as int), f),
                    acc <= MAX_TOTAL_WEIGHT,
                decreases row.len() - k,
            {
                let e = row[k];
                proof {
                    lemma_ssum_take_step(row@, f, k as int);
                    assert forall|j: int| 0 <= j < row@.len() implies #[trigger] f(row@[j]) >= 0 by {}
                    lemma_ssum_take_le(row@, f, k as int + 1);
                    lemma_degree_le_total(m, i as int);
                }
                if e.to < n {
                    proof {
                        assert(f(e) == e.weight as int);
                    }
                    acc = acc + e.weight;
                } else {
                    proof {
                        assert(f(e) == 0);
                    }
                }
                k = k + 1;
            }
            proof {
                lemma_ssum_take_all(row@, f);
                assert(acc == m.degree(i as int));
            }
            r.push(acc);
            i = i + 1;
        }
        r
    }

    /// Total stored weight of the graph (each undirected edge counted once
    /// per direction).
    pub fn total_weight(&self) -> (r: u64)
        requires
            self@.bounded(),
        ensures
            r == self@.total_weight(),
    {
        let ghost m = self@;
        let degs = self.degrees();
        let n = self.adj.len();
        let mut acc: u64 = 0;
        let mut i: usize = 0;
        while i < n
            invariant
                m == self@,
                m.bounded(),
                n == m.n(),
                i <= n,
                degs@.len() == n,
                forall|p: int| 0 <= p < n ==> degs@[p] == m.degree(p),
                acc == rsum(i as nat, m.degree_fn()),
                acc <= MAX_TOTAL_WEIGHT,
            decreases n - i,
        {
            proof {
                assert(m.degree_fn()(i as int) == m.degree(i as int));
                assert(rsum(i as nat + 1, m.degree_fn()) == rsum(i as nat, m.degree_fn())
                    + m.degree_fn()(i as int));
                assert forall|j: int| 0 <= j < m.n() implies #[trigger] m.degree_fn()(j) >= 0 by {
                    lemma_degree_nonneg(m, j);
                }
                lemma_rsum_prefix_le(i as nat + 1, m.n(), m.degree_fn());
            }
            acc = acc + degs[i];
            i = i + 1;
        }
        acc
    }
}

/// Reverses a vector of records by moving its elements.
fn reversed(mut v: Vec<Node>) -> (r: Vec<Node>)
    ensures
        r@.len() == v@.len(),
        forall|p: int| 0 <= p < r@.len() ==> r@[p] == v@[v@.len() - 1 - p],
{
    let ghost s = v@;
    let mut r: Vec<Node> = Vec::new();
    while v.len() > 0
        invariant
            v@ == s.take(v@.len() as int),
            r@.len() + v@.len() == s.len(),
            forall|p: int| 0 <= p < r@.len() ==> r@[p] == s[s.len() - 1 - p],
        decreases v.len(),
    {
        let x = v.pop().unwrap();
        r.push(x);
        proof {
            assert(v@ =~= s.take(v@.len() as int));
        }
    }
    r
}

/// Splits records into those with crude-rate units (`unit_num == 1`) and
/// all others, keeping record order within each group.
pub fn split_by_unit_num(nodes: Vec<Node>) -> (r: (Vec<Node>, Vec<Node>))
    ensures
        r.0@ == nodes@.filter(|x: Node| x.unit_num == 1),
        r.1@ == nodes@.filter(|x: Node| x.unit_num != 1),
{
    let ghost s = nodes@;
    let ghost n_all = s.len();
    let mut rev = reversed(nodes);
    let mut group_1: Vec<Node> = Vec::new();
    let mut group_2: Vec<Node> = Vec::new();
    proof {
        assert(s.take(0) =~= Seq::<Node>::empty());
        reveal(Seq::filter);
    }
    while rev.len() > 0
        invariant
            rev@.len() <= n_all == s.len(),
            forall|p: int| 0 <= p < rev@.len() ==> rev@[p] == s[s.len() - 1 - p],
            group_1@ == s.take(n_all - rev@.len()).filter(|x: Node| x.unit_num == 1),
            group_2@ == s.take(n_all - rev@.len()).filter(|x: Node| x.unit_num != 1),
        decreases rev.len(),
    {
        let ghost k = n_all - rev@.len();
        let x = rev.pop().unwrap();
        proof {
            assert(x == s[k]);
            reveal(Seq::filter);
            assert(s.take(k + 1).drop_last() =~= s.take(k));
            assert(s.take(k + 1).last() == s[k]);
        }
        if x.unit_num == 1 {
            group_1.push(x);
        } else {
            group_2.push(x);
        }
    }
    proof {
        assert(s.take(n_all as int) =~= s);
    }
    (group_1, group_2)
}

/// Distributes records over the twelve demographic-axis groups by
/// `stub_name_num`, keeping record order within each group.  Records whose
/// code falls outside `0 .. 12` belong to no group and are dropped.
pub fn subdivide_by_stub_name_num(nodes: Vec<Node>) -> (r: Vec<Vec<Node>>)
    ensures
        r@.len() == 12,
        forall|g: int|
            0 <= g < 12 ==> (#[trigger] r@[g])@ == nodes@.filter(
                |x: Node| x.stub_name_num as int == g,
            ),
{
    let ghost s = nodes@;
    let ghost n_all = s.len();
    let mut groups: Vec<Vec<Node>> = Vec::new();
    let mut g0: usize = 0;
    while g0 < 12
        invariant
            g0 <= 12,
            groups@.len() == g0,
            forall|g: int| 0 <= g < g0 ==> (#[trigger] groups@[g])@ == Seq::<Node>::empty(),
        decreases 12 - g0,
    {
        groups.push(Vec::new());
        g0 = g0 + 1;
    }
    let mut rev = reversed(nodes);
    proof {
        assert(s.take(0) =~= Seq::<Node>::empty());
        reveal(Seq::filter);
    }
    while rev.len() > 0
        invariant
            rev@.len() <= n_all == s.len(),
            forall|p: int| 0 <= p < rev@.len() ==> rev@[p] == s[s.len() - 1 - p],
            groups@.len() == 12,
            forall|g: int|
                0 <= g < 12 ==> (#[trigger] groups@[g])@ == s.take(n_all - rev@.len()).filter(
                    |x: Node| x.stub_name_num as int == g,
                ),
        decreases rev.len(),
    {
        let ghost k = n_all - rev@.len();
        let x = rev.pop().unwrap();
        proof {
            assert(x == s[k]);
            reveal(Seq::filter);
            assert(s.take(k + 1).drop_last() =~= s.take(k));
            assert(s.take(k + 1).last() == s[k]);
        }
        if 0 <= x.stub_name_num && x.stub_name_num < 12 {
            let idx = x.stub_name_num as usize;
            groups[idx].push(x);
        }
        proof {
            assert forall|g: int| 0 <= g < 12 implies (#[trigger] groups@[g])@ == s.take(
                k + 1,
            ).filter(|x: Node| x.stub_name_num as int == g) by {
                reveal(Seq::filter);
            }
        }
    }
    proof {
        assert(s.take(n_all as int) =~= s);
    }
    groups
}

/// Builds the similarity graph of a record set.
///
/// Every record with a positive estimate becomes a node (the first record
/// of each canonical identifier; zero-estimate records never connect and
/// are dropped from node creation).  Two distinct nodes share an edge
/// exactly when at least one of their three categorical codes matches, and
/// the edge weight is the ratio of the smaller to the larger estimate in
/// millionths.  The comparison is pairwise, so building is quadratic in
/// the number of records; that is the intended scale (low thousands).
pub fn build_graph(nodes: Vec<Node>) -> (r: Graph)
    requires
        nodes@.len() <= MAX_NODES,
        forall|t: int| 0 <= t < nodes@.len() ==> (#[trigger] nodes@[t]).id_fields_bounded(),
    ensures
        r@.wf(),
        r@.symmetric(),
        r@.weights_in_unit(),
        r@.ids == kept_ids(nodes@),
        r@.n() == kept_idxs(nodes@).len(),
        forall|p: int|
            0 <= p < r@.n() ==> #[trigger] r@.adj[p] == built_row(
                nodes@,
                kept_idxs(nodes@),
                p,
                kept_idxs(nodes@).len() as nat,
            ),
        forall|p: int, q: int|
            0 <= p < r@.n() && 0 <= q < r@.n() ==> #[trigger] r@.mat_w(p, q) == built_weight(
                nodes@,
                p,
                q,
            ),
{
    let ghost s = nodes@;
    let n_rec = nodes.len();
    // First pass: decide which records become nodes.
    let mut ids: Vec<u64> = Vec::new();
    let mut sel: Vec<usize> = Vec::new();
    let mut idx: usize = 0;
    proof {
        assert(s.take(0) =~= Seq::<Node>::empty());
    }
    while idx < n_rec
        invariant
            s == nodes@,
            n_rec == s.len(),
            s.len() <= MAX_NODES,
            forall|t: int| 0 <= t < s.len() ==> (#[trigger] s[t]).id_fields_bounded(),
            idx <= n_rec,
            ids@.len() == sel@.len(),
            sel@.map_values(|u: usize| u as int) == kept_idxs(s.take(idx as int)),
            ids@ == kept_ids(s.take(idx as int)),
        decreases n_rec - idx,
    {
        let ghost pre = s.take(idx as int);
        proof {
            lemma_kept_idxs_take_step(s, idx as int);
            lemma_kept_idxs_props(pre);
        }
        if nodes[idx].estimate > 0 {
            let id = nodes[idx].id();
            let mut dup = false;
            let mut k: usize = 0;
            while k < ids.len()
                invariant
                    k <= ids.len(),
                    dup == exists|k0: int| 0 <= k0 < k && ids@[k0] == id,
                decreases ids.len() - k,
            {
                if ids[k] == id {
                    dup = true;
                }
                k = k + 1;
            }
            proof {
                // A hit in the identifier list refutes `kept`; a miss
                // establishes it.
                if dup {
                    let k0 = choose|k0: int| 0 <= k0 < ids@.len() && ids@[k0] == id;
                    let i0 = kept_idxs(pre)[k0];
                    assert(kept(pre, i0));
                    lemma_kept_prefix(s, idx as int, i0);
                    assert(s[i0].estimate > 0 && s[i0].spec_id() == s[idx as int].spec_id());
                    assert(!kept(s, idx as int));
                } else if !kept(s, idx as int) {
                    let target_id = s[idx as int].spec_id();
                    let p = choose|p: int|
                        0 <= p < idx && (#[trigger] s[p]).estimate > 0 && s[p].spec_id()
                            == target_id;
                    lemma_kept_cover(s, p, idx as int);
                    let k0 = choose|k0: int|
                        0 <= k0 < kept_idxs(pre).len() && s[#[trigger] kept_idxs(pre)[k0]].spec_id()
                            == s[p].spec_id();
                    assert(pre[kept_idxs(pre)[k0]] == s[kept_idxs(pre)[k0]]);
                    assert(ids@[k0] == id);
                    assert(false);
                }
            }
            if !dup {
                ids.push(id);
                sel.push(idx);
                proof {
                    assert(sel@.map_values(|u: usize| u as int) =~= kept_idxs(
                        s.take(idx as int + 1),
                    ));
                    assert(ids@ =~= kept_ids(s.take(idx as int + 1)));
                }
            } else {
                proof {
                    assert(ids@ =~= kept_ids(s.take(idx as int + 1)));
                }
            }
        } else {
            proof {
                assert(!kept(s, idx as int));
                assert(ids@ =~= kept_ids(s.take(idx as int + 1)));
            }
        }
        idx = idx + 1;
    }
    proof {
        assert(s.take(n_rec as int) =~= s);
        lemma_kept_idxs_props(s);
    }
    let ghost gsel = kept_idxs(s);
    let n = ids.len();
    // Second pass: weigh every eligible pair once and store it both ways.
    let mut adj: Vec<Vec<Edge>> = Vec::new();
    let mut r0: usize = 0;
    while r0 < n
        invariant
            r0 <= n,
            adj@.len() == r0,
            forall|p: int| 0 <= p < r0 ==> (#[trigger] adj@[p])@ == Seq::<Edge>::empty(),
        decreases n - r0,
    {
        adj.push(Vec::new());
        r0 = r0 + 1;
    }
    let mut i: usize = 0;
    while i < n
        invariant
            s == nodes@,
            s.len() <= MAX_NODES,
            gsel == kept_idxs(s),
            sel@.map_values(|u: usize| u as int) == gsel,
            n == gsel.len(),
            n == sel@.len(),
            n <= MAX_NODES,
            forall|k: int| 0 <= k < n ==> 0 <= #[trigger] gsel[k] < s.len(),
            forall|k: int| 0 <= k < n ==> s[#[trigger] gsel[k]].estimate > 0,
            i <= n,
            adj@.len() == n,
            forall|p: int| 0 <= p < i ==> (#[trigger] adj@[p])@ == built_row(s, gsel, p, n as nat),
            forall|p: int| i <= p < n ==> (#[trigger] adj@[p])@ == built_row(s, gsel, p, i as nat),
        decreases n - i,
    {
        let mut j: usize = i + 1;
        proof {
            // Considering a node as its own partner adds nothing.
            assert(built_row(s, gsel, i as int, (i + 1) as nat) == built_row(
                s,
                gsel,
                i as int,
                i as nat,
            ));
        }
        while j < n
            invariant
                s == nodes@,
                s.len() <= MAX_NODES,
                gsel == kept_idxs(s),
                sel@.map_values(|u: usize| u as int) == gsel,
                n == gsel.len(),
                n == sel@.len(),
                n <= MAX_NODES,
                forall|k: int| 0 <= k < n ==> 0 <= #[trigger] gsel[k] < s.len(),
                forall|k: int| 0 <= k < n ==> s[#[trigger] gsel[k]].estimate > 0,
                i < n,
                i + 1 <= j <= n,
                adj@.len() == n,
                forall|p: int|
                    0 <= p < i ==> (#[trigger] adj@[p])@ == built_row(s, gsel, p, n as nat),
                (adj@[i as int])@ == built_row(s, gsel, i as int, j as nat),
                forall|p: int|
                    i < p < j ==> (#[trigger] adj@[p])@ == built_row(s, gsel, p, (i + 1) as nat),
                forall|p: int|
                    j <= p < n ==> (#[trigger] adj@[p])@ == built_row(s, gsel, p, i as nat),
            decreases n - j,
        {
            let si = sel[i];
            let sj = sel[j];
            proof {
                assert(gsel[i as int] == si as int && gsel[j as int] == sj as int);
            }
            let is_match = nodes[si].stub_label_num == nodes[sj].stub_label_num || nodes[si].year_num
                == nodes[sj].year_num || nodes[si].age_num == nodes[sj].age_num;
            if is_match {
                proof {
                    assert(eligible(s[gsel[i as int]], s[gsel[j as int]]));
                }
                let w = weight_of_estimates(nodes[si].estimate, nodes[sj].estimate);
                let ghost adj_before = adj@;
                adj[i].push(Edge { to: j, weight: w });
                adj[j].push(Edge { to: i, weight: w });
                proof {
                    lemma_pair_weight_unit(
                        s[gsel[i as int]].estimate as int,
                        s[gsel[j as int]].estimate as int,
                    );
                    lemma_pair_weight_symmetric(
                        s[gsel[i as int]].estimate as int,
                        s[gsel[j as int]].estimate as int,
                    );
                    assert((adj@[i as int])@ == built_row(s, gsel, i as int, (j + 1) as nat));
                    assert((adj@[j as int])@ == built_row(s, gsel, j as int, (i + 1) as nat));
                    assert forall|p: int| 0 <= p < n && p != i && p != j implies adj@[p]
                        == adj_before[p] by {}
                }
            } else {
                proof {
                    assert(!eligible(s[gsel[i as int]], s[gsel[j as int]]));
                    assert(!eligible(s[gsel[j as int]], s[gsel[i as int]]));
                    assert((adj@[i as int])@ == built_row(s, gsel, i as int, (j + 1) as nat));
                    assert((adj@[j as int])@ == built_row(s, gsel, j as int, (i + 1) as nat));
                }
            }
            j = j + 1;
        }
        i = i + 1;
    }
    let r = Graph { ids, adj };
    proof {
        let m = r@;
        assert(m.ids == kept_ids(s));
        assert(m.n() == n);
        assert forall|p: int| 0 <= p < n implies (#[trigger] m.adj[p]) == built_row(
            s,
            gsel,
            p,
            n as nat,
        ) by {}
        assert forall|p: int, k: int| 0 <= p < m.n() && 0 <= k < m.adj[p].len() implies (
        #[trigger] m.adj[p][k]).to < m.n() && m.adj[p][k].to != p && m.adj[p][k].weight
            <= SCALE by {
            lemma_built_row_props(s, gsel, p, n as nat);
        }
        assert forall|p: int, k1: int, k2: int|
            0 <= p < m.n() && 0 <= k1 < k2 < m.adj[p].len() implies (#[trigger] m.adj[p][k1]).to
            != (#[trigger] m.adj[p][k2]).to by {
            lemma_built_row_props(s, gsel, p, n as nat);
        }
        // Identifiers are distinct because duplicates were dropped.
        lemma_kept_ids_distinct(s);
        // Each stored edge has its mirror: eligibility and the weight are
        // both symmetric in the pair.
        assert forall|p: int, k: int| 0 <= p < m.n() && 0 <= k < m.adj[p].len() implies #[trigger] m.has_mirror(
            p,
            k,
        ) by {
            lemma_built_row_props(s, gsel, p, n as nat);
            let e = m.adj[p][k];
            let q = e.to as int;
            assert(eligible(s[gsel[p]], s[gsel[q]]));
            assert(eligible(s[gsel[q]], s[gsel[p]]));
            lemma_built_row_contains(s, gsel, q, n as nat, p);
            lemma_pair_weight_symmetric(
                s[gsel[p]].estimate as int,
                s[gsel[q]].estimate as int,
            );
            let k2 = choose|k2: int|
                0 <= k2 < built_row(s, gsel, q, n as nat).len() && (#[trigger] built_row(
                    s,
                    gsel,
                    q,
                    n as nat,
                )[k2]).to == p && built_row(s, gsel, q, n as nat)[k2].weight == pair_weight(
                    s[gsel[q]].estimate as int,
                    s[gsel[p]].estimate as int,
                );
            assert(0 <= k2 < m.adj[q].len() && (m.adj[q][k2]).to == p && m.adj[q][k2].weight
                == e.weight);
        }
        // The total weight fits the cap: each row holds at most n unit
        // weights.
        assert forall|p: int| 0 <= p < m.n() implies #[trigger] m.degree_fn()(p) <= (n as int)
            * (SCALE as int) by {
            lemma_built_row_props(s, gsel, p, n as nat);
            let f = valid_weight(m.n());
            assert forall|k: int| 0 <= k < m.adj[p].len() implies #[trigger] f(m.adj[p][k]) <= (
            SCALE as int) by {}
            lemma_ssum_bounded(m.adj[p], f, SCALE as int);
            assert(m.adj[p].len() * (SCALE as int) <= (n as int) * (SCALE as int))
                by (nonlinear_arith)
                requires
                    m.adj[p].len() <= n as int,
                    SCALE as int > 0,
            ;
        }
        lemma_rsum_bounded(m.n(), m.degree_fn(), (n as int) * (SCALE as int));
        assert((n as int) * ((n as int) * (SCALE as int)) <= MAX_TOTAL_WEIGHT)
            by (nonlinear_arith)
            requires
                0 <= n as int <= 4096,
        ;
        assert(m.total_weight() <= MAX_TOTAL_WEIGHT);
        // The stored weight between any two positions is the owed weight.
        assert forall|p: int, q: int| 0 <= p < m.n() && 0 <= q < m.n() implies #[trigger] m.mat_w(
            p,
            q,
        ) == built_weight(s, p, q) by {
            lemma_built_row_w(s, gsel, p, n as nat, q);
        }
    }
    r
}

} // verus!
