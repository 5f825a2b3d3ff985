//! Index-based edge assignment for pre-grouped record collections.
//!
//! Where the graph builder produces one identifier-keyed graph, this
//! component weighs the pairs of each group separately and hands back, for
//! every group, one adjacency list per record position: entry `(k, w)` of
//! row `j` says that records `j` and `k` of that group are joined with
//! similarity weight `w`.  The eligibility and weight rules are exactly the
//! builder's; records without an estimate join nothing.

use vstd::prelude::*;
use crate::node::Node;
use crate::graph::Edge;
use crate::graph::MAX_NODES;
use crate::graph::eligible;
use crate::graph::built_row;
use crate::graph::weight_of_estimates;
use crate::graph::lemma_pair_weight_unit;
use crate::graph::lemma_pair_weight_symmetric;

verus! {

/// Record positions standing for themselves: the trivial selection.
pub open spec fn ident_sel(n: nat) -> Seq<int> {
    Seq::new(n, |i: int| i)
}

/// Weighs every eligible pair within each group of records.
///
/// Row `j` of group `g` holds one entry per eligible partner of record `j`
/// in that group, in ascending partner order, carrying the similarity
/// weight of the pair in millionths.
pub fn assign_edges_in_hashmaps(maps: &Vec<Vec<Node>>) -> (r: Vec<Vec<Vec<Edge>>>)
    requires
        forall|g: int| 0 <= g < maps@.len() ==> (#[trigger] maps@[g])@.len() <= MAX_NODES,
    ensures
        r@.len() == maps@.len(),
        forall|g: int| 0 <= g < maps@.len() ==> (#[trigger] r@[g])@.len() == maps@[g]@.len(),
        forall|g: int, j: int|
            0 <= g < maps@.len() && 0 <= j < maps@[g]@.len() ==> ((#[trigger] r@[g]@[j])@
                == built_row(
                maps@[g]@,
                ident_sel(maps@[g]@.len()),
                j,
                maps@[g]@.len(),
            )),
{
    let mut r: Vec<Vec<Vec<Edge>>> = Vec::new();
    let mut g: usize = 0;
    let n_groups = maps.len();
    while g < n_groups
        invariant
            n_groups == maps@.len(),
            forall|g0: int| 0 <= g0 < maps@.len() ==> (#[trigger] maps@[g0])@.len() <= MAX_NODES,
            g <= n_groups,
            r@.len() == g,
            forall|g0: int| 0 <= g0 < g ==> (#[trigger] r@[g0])@.len() == maps@[g0]@.len(),
            forall|g0: int, j: int|
                0 <= g0 < g && 0 <= j < maps@[g0]@.len() ==> ((#[trigger] r@[g0]@[j])@ == built_row(
                    maps@[g0]@,
                    ident_sel(maps@[g0]@.len()),
                    j,
                    maps@[g0]@.len(),
                )),
        decreases n_groups - g,
    {
        let group = &maps[g];
        let ghost s = group@;
        let ghost sel = ident_sel(s.len());
        let cnt = group.len();
        let mut rows: Vec<Vec<Edge>> = Vec::new();
        let mut z: usize = 0;
        while z < cnt
            invariant
                z <= cnt,
                rows@.len() == z,
                forall|p: int| 0 <= p < z ==> (#[trigger] rows@[p])@ == Seq::<Edge>::empty(),
            decreases cnt - z,
        {
            rows.push(Vec::new());
            z = z + 1;
        }
        let mut i: usize = 0;
        while i < cnt
            invariant
                s == group@,
                group@ == maps@[g as int]@,
                g < maps@.len(),
                sel == ident_sel(s.len()),
                cnt == s.len(),
                cnt <= MAX_NODES,
                i <= cnt,
                rows@.len() == cnt,
                forall|p: int| 0 <= p < i ==> (#[trigger] rows@[p])@ == built_row(s, sel, p, cnt as nat),
                forall|p: int| i <= p < cnt ==> (#[trigger] rows@[p])@ == built_row(s, sel, p, i as nat),
            decreases cnt - i,
        {
            let mut j: usize = i + 1;
            proof {
                assert(built_row(s, sel, i as int, (i + 1) as nat) == built_row(
                    s,
                    sel,
                    i as int,
                    i as nat,
                ));
            }
            while j < cnt
                invariant
                    s == group@,
                    group@ == maps@[g as int]@,
                    g < maps@.len(),
                    sel == ident_sel(s.len()),
                    cnt == s.len(),
                    cnt <= MAX_NODES,
                    i < cnt,
                    i + 1 <= j <= cnt,
                    rows@.len() == cnt,
                    forall|p: int|
                        0 <= p < i ==> (#[trigger] rows@[p])@ == built_row(s, sel, p, cnt as nat),
                    (rows@[i as int])@ == built_row(s, sel, i as int, j as nat),
                    forall|p: int|
                        i < p < j ==> (#[trigger] rows@[p])@ == built_row(s, sel, p, (i + 1) as nat),
                    forall|p: int|
                        j <= p < cnt ==> (#[trigger] rows@[p])@ == built_row(s, sel, p, i as nat),
                decreases cnt - j,
            {
                let a = &group[i];
                let b = &group[j];
                let joined = a.estimate > 0 && b.estimate > 0 && (a.stub_label_num
                    == b.stub_label_num || a.year_num == b.year_num || a.age_num == b.age_num);
                proof {
                    assert(sel[i as int] == i as int && sel[j as int] == j as int);
                    assert(joined == eligible(s[sel[i as int]], s[sel[j as int]]));
                }
                if joined {
                    let w = weight_of_estimates(a.estimate, b.estimate);
                    let ghost rows_before = rows@;
                    rows[i].push(Edge { to: j, weight: w });
                    rows[j].push(Edge { to: i, weight: w });
                    proof {
                        lemma_pair_weight_unit(
                            s[i as int].estimate as int,
                            s[j as int].estimate as int,
                        );
                        lemma_pair_weight_symmetric(
                            s[i as int].estimate as int,
                            s[j as int].estimate as int,
                        );
                        assert((rows@[i as int])@ == built_row(s, sel, i as int, (j + 1) as nat));
                        assert((rows@[j as int])@ == built_row(s, sel, j as int, (i + 1) as nat));
                        assert forall|p: int| 0 <= p < cnt && p != i && p != j implies rows@[p]
                            == rows_before[p] by {}
                    }
                } else {
                    proof {
                        assert(!eligible(s[sel[j as int]], s[sel[i as int]]));
                        assert((rows@[i as int])@ == built_row(s, sel, i as int, (j + 1) as nat));
                        assert((rows@[j as int])@ == built_row(s, sel, j as int, (i + 1) as nat));
                    }
                }
                j = j + 1;
            }
            i = i + 1;
        }
        r.push(rows);
        g = g + 1;
    }
    r
}

} // verus!
