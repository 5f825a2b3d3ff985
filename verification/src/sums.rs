//! Recursive integer sums and the small algebra of lemmas about them that
//! the graph code builds its proofs on: pointwise bounds, congruence,
//! linearity, exchanging the order of a double sum, and bounding a sum over
//! distinct indices by the sum over the whole range.

use vstd::prelude::*;

verus! {

/// `f(0) + f(1) + ... + f(n - 1)`.
pub open spec fn rsum(n: nat, f: spec_fn(int) -> int) -> int
    decreases n,
{
    if n == 0 {
        0
    } else {
        rsum((n - 1) as nat, f) + f(n - 1)
    }
}

/// `f(s[0]) + f(s[1]) + ... + f(s[len - 1])`.
pub open spec fn ssum<A>(s: Seq<A>, f: spec_fn(A) -> int) -> int
    decreases s.len(),
{
    if s.len() == 0 {
        0
    } else {
        ssum(s.drop_last(), f) + f(s.last())
    }
}

/// A range sum of non-negative terms is non-negative.
pub proof fn lemma_rsum_nonneg(n: nat, f: spec_fn(int) -> int)
    requires
        forall|i: int| 0 <= i < n ==> #[trigger] f(i) >= 0,
    ensures
        rsum(n, f) >= 0,
    decreases n,
{
    if n > 0 {
        lemma_rsum_nonneg((n - 1) as nat, f);
    }
}

/// Range sums respect pointwise `<=`.
pub proof fn lemma_rsum_le(n: nat, f: spec_fn(int) -> int, g: spec_fn(int) -> int)
    requires
        forall|i: int| 0 <= i < n ==> #[trigger] f(i) <= #[trigger] g(i),
    ensures
        rsum(n, f) <= rsum(n, g),
    decreases n,
{
    if n > 0 {
        lemma_rsum_le((n - 1) as nat, f, g);
    }
}

/// Range sums only look at the values of the summand on the range.
pub proof fn lemma_rsum_congruence(n: nat, f: spec_fn(int) -> int, g: spec_fn(int) -> int)
    requires
        forall|i: int| 0 <= i < n ==> #[trigger] f(i) == #[trigger] g(i),
    ensures
        rsum(n, f) == rsum(n, g),
    decreases n,
{
    if n > 0 {
        lemma_rsum_congruence((n - 1) as nat, f, g);
    }
}

/// A range sum of zeros is zero.
pub proof fn lemma_rsum_zero(n: nat, f: spec_fn(int) -> int)
    requires
        forall|i: int| 0 <= i < n ==> #[trigger] f(i) == 0,
    ensures
        rsum(n, f) == 0,
    decreases n,
{
    if n > 0 {
        lemma_rsum_zero((n - 1) as nat, f);
    }
}

/// If two summands agree everywhere on the range but at `t`, the sums differ
/// by exactly the difference at `t`.
pub proof fn lemma_rsum_except(n: nat, f: spec_fn(int) -> int, g: spec_fn(int) -> int, t: int)
    requires
        0 <= t < n,
        forall|i: int| 0 <= i < n && i != t ==> #[trigger] f(i) == #[trigger] g(i),
    ensures
        rsum(n, f) - rsum(n, g) == f(t) - g(t),
    decreases n,
{
    if t == n - 1 {
        lemma_rsum_congruence((n - 1) as nat, f, g);
    } else {
        lemma_rsum_except((n - 1) as nat, f, g, t);
    }
}

/// A range sum of a pointwise sum splits.
pub proof fn lemma_rsum_linear(
    n: nat,
    f: spec_fn(int) -> int,
    g: spec_fn(int) -> int,
    h: spec_fn(int) -> int,
)
    requires
        forall|i: int| 0 <= i < n ==> #[trigger] h(i) == #[trigger] f(i) + #[trigger] g(i),
    ensures
        rsum(n, h) == rsum(n, f) + rsum(n, g),
    decreases n,
{
    if n > 0 {
        lemma_rsum_linear((n - 1) as nat, f, g, h);
    }
}

/// Each term of a non-negative range sum is at most the whole sum.
pub proof fn lemma_rsum_element_le(n: nat, f: spec_fn(int) -> int, t: int)
    requires
        0 <= t < n,
        forall|i: int| 0 <= i < n ==> #[trigger] f(i) >= 0,
    ensures
        f(t) <= rsum(n, f),
    decreases n,
{
    if t == n - 1 {
        lemma_rsum_nonneg((n - 1) as nat, f);
    } else {
        lemma_rsum_element_le((n - 1) as nat, f, t);
        assert(f(n - 1) >= 0);
    }
}

/// A range sum whose terms are bounded by `c` is at most `n * c`.
pub proof fn lemma_rsum_bounded(n: nat, f: spec_fn(int) -> int, c: int)
    requires
        forall|i: int| 0 <= i < n ==> #[trigger] f(i) <= c,
    ensures
        rsum(n, f) <= n * c,
    decreases n,
{
    if n == 0 {
        assert(n * c == 0) by (nonlinear_arith)
            requires
                n == 0,
        ;
    } else {
        lemma_rsum_bounded((n - 1) as nat, f, c);
        assert(f(n - 1) <= c);
        assert(rsum(n, f) == rsum((n - 1) as nat, f) + f(n - 1));
        assert(rsum(n, f) <= ((n - 1) as nat) * c + c);
        assert(((n - 1) as nat) * c + c == n * c) by (nonlinear_arith)
            requires
                n >= 1,
        ;
    }
}

/// `f(i, 0) + f(i, 1) + ... + f(i, nc - 1)`, summed over `i` in `0 .. nr`.
pub open spec fn dsum(nr: nat, nc: nat, f: spec_fn(int, int) -> int) -> int {
    rsum(nr, |i: int| rsum(nc, |j: int| f(i, j)))
}

/// A finite double sum can be summed in either order.
pub proof fn lemma_dsum_swap(nr: nat, nc: nat, f: spec_fn(int, int) -> int)
    ensures
        dsum(nr, nc, f) == dsum(nc, nr, |j: int, i: int| f(i, j)),
    decreases nr,
{
    let fs = |j: int, i: int| f(i, j);
    if nr == 0 {
        lemma_rsum_zero(nc, |j: int| rsum(0, |i: int| fs(j, i)));
    } else {
        let nr1 = (nr - 1) as nat;
        lemma_dsum_swap(nr1, nc, f);
        // Peel the last row off the left-hand side.
        assert(dsum(nr, nc, f) == dsum(nr1, nc, f) + rsum(nc, |j: int| f(nr - 1, j)));
        // On the right-hand side, split each inner sum at its last term.
        let g_full = |j: int| rsum(nr, |i: int| fs(j, i));
        let g_short = |j: int| rsum(nr1, |i: int| fs(j, i));
        let g_last = |j: int| f(nr - 1, j);
        assert forall|j: int| 0 <= j < nc implies #[trigger] g_full(j) == #[trigger] g_short(j)
            + #[trigger] g_last(j) by {
            assert(rsum(nr, |i: int| fs(j, i)) == rsum(nr1, |i: int| fs(j, i)) + fs(j, nr - 1));
        }
        lemma_rsum_linear(nc, g_short, g_last, g_full);
    }
}

/// With non-negative terms, extending the range can only grow the sum.
pub proof fn lemma_rsum_prefix_le(n1: nat, n2: nat, f: spec_fn(int) -> int)
    requires
        n1 <= n2,
        forall|i: int| 0 <= i < n2 ==> #[trigger] f(i) >= 0,
    ensures
        rsum(n1, f) <= rsum(n2, f),
    decreases n2,
{
    if n1 < n2 {
        lemma_rsum_prefix_le(n1, (n2 - 1) as nat, f);
    }
}

/// Double sums only look at the values of the summand on the rectangle.
pub proof fn lemma_dsum_congruence(
    nr: nat,
    nc: nat,
    f: spec_fn(int, int) -> int,
    g: spec_fn(int, int) -> int,
)
    requires
        forall|i: int, j: int| 0 <= i < nr && 0 <= j < nc ==> #[trigger] f(i, j) == #[trigger] g(
            i,
            j,
        ),
    ensures
        dsum(nr, nc, f) == dsum(nr, nc, g),
{
    let rf = |i: int| rsum(nc, |j: int| f(i, j));
    let rg = |i: int| rsum(nc, |j: int| g(i, j));
    assert forall|i: int| 0 <= i < nr implies #[trigger] rf(i) == #[trigger] rg(i) by {
        lemma_rsum_congruence(nc, |j: int| f(i, j), |j: int| g(i, j));
    }
    lemma_rsum_congruence(nr, rf, rg);
}

/// The order of a finite double sum can be exchanged: summing `f` row-first
/// equals summing any pointwise-transposed `g` column-first.
pub proof fn lemma_dsum_swap_with(
    nr: nat,
    nc: nat,
    f: spec_fn(int, int) -> int,
    g: spec_fn(int, int) -> int,
)
    requires
        forall|i: int, j: int| 0 <= i < nr && 0 <= j < nc ==> #[trigger] g(j, i) == #[trigger] f(
            i,
            j,
        ),
    ensures
        dsum(nr, nc, f) == dsum(nc, nr, g),
{
    lemma_dsum_swap(nr, nc, f);
    let ft = |j: int, i: int| f(i, j);
    assert forall|j: int, i: int| 0 <= j < nc && 0 <= i < nr implies #[trigger] ft(j, i)
        == #[trigger] g(j, i) by {}
    lemma_dsum_congruence(nc, nr, ft, g);
}

/// Sequence sums respect pointwise `<=` on the elements actually present.
pub proof fn lemma_ssum_le<A>(s: Seq<A>, f: spec_fn(A) -> int, g: spec_fn(A) -> int)
    requires
        forall|k: int| 0 <= k < s.len() ==> #[trigger] f(s[k]) <= #[trigger] g(s[k]),
    ensures
        ssum(s, f) <= ssum(s, g),
    decreases s.len(),
{
    if s.len() > 0 {
        lemma_ssum_le(s.drop_last(), f, g);
    }
}

/// Sequence sums only look at the values of the summand on the elements.
pub proof fn lemma_ssum_congruence<A>(s: Seq<A>, f: spec_fn(A) -> int, g: spec_fn(A) -> int)
    requires
        forall|k: int| 0 <= k < s.len() ==> #[trigger] f(s[k]) == #[trigger] g(s[k]),
    ensures
        ssum(s, f) == ssum(s, g),
    decreases s.len(),
{
    if s.len() > 0 {
        lemma_ssum_congruence(s.drop_last(), f, g);
    }
}

/// A sequence sum of non-negative terms is non-negative.
pub proof fn lemma_ssum_nonneg<A>(s: Seq<A>, f: spec_fn(A) -> int)
    requires
        forall|k: int| 0 <= k < s.len() ==> #[trigger] f(s[k]) >= 0,
    ensures
        ssum(s, f) >= 0,
    decreases s.len(),
{
    if s.len() > 0 {
        lemma_ssum_nonneg(s.drop_last(), f);
    }
}

/// A sequence sum of a pointwise sum splits.
pub proof fn lemma_ssum_linear<A>(
    s: Seq<A>,
    f: spec_fn(A) -> int,
    g: spec_fn(A) -> int,
    h: spec_fn(A) -> int,
)
    requires
        forall|k: int| 0 <= k < s.len() ==> #[trigger] h(s[k]) == #[trigger] f(s[k]) + #[trigger] g(
            s[k],
        ),
    ensures
        ssum(s, h) == ssum(s, f) + ssum(s, g),
    decreases s.len(),
{
    if s.len() > 0 {
        lemma_ssum_linear(s.drop_last(), f, g, h);
    }
}

/// Each term of a non-negative sequence sum is at most the whole sum.
pub proof fn lemma_ssum_element_le<A>(s: Seq<A>, f: spec_fn(A) -> int, t: int)
    requires
        0 <= t < s.len(),
        forall|k: int| 0 <= k < s.len() ==> #[trigger] f(s[k]) >= 0,
    ensures
        f(s[t]) <= ssum(s, f),
    decreases s.len(),
{
    if t == s.len() - 1 {
        lemma_ssum_nonneg(s.drop_last(), f);
    } else {
        lemma_ssum_element_le(s.drop_last(), f, t);
    }
}

/// A sequence sum whose terms are bounded by `c` is at most `len * c`.
pub proof fn lemma_ssum_bounded<A>(s: Seq<A>, f: spec_fn(A) -> int, c: int)
    requires
        forall|k: int| 0 <= k < s.len() ==> #[trigger] f(s[k]) <= c,
    ensures
        ssum(s, f) <= s.len() * c,
    decreases s.len(),
{
    if s.len() > 0 {
        lemma_ssum_bounded(s.drop_last(), f, c);
        assert((s.len() - 1) * c + c == s.len() * c) by (nonlinear_arith);
    }
}

/// A sequence sum of zeros is zero.
pub proof fn lemma_ssum_zero<A>(s: Seq<A>, f: spec_fn(A) -> int)
    requires
        forall|k: int| 0 <= k < s.len() ==> #[trigger] f(s[k]) == 0,
    ensures
        ssum(s, f) == 0,
    decreases s.len(),
{
    if s.len() > 0 {
        lemma_ssum_zero(s.drop_last(), f);
    }
}

/// A range sum whose terms stay within `[-c, c]` stays within `[-n*c, n*c]`.
pub proof fn lemma_rsum_abs_bounded(n: nat, f: spec_fn(int) -> int, c: int)
    requires
        c >= 0,
        forall|i: int| 0 <= i < n ==> -c <= #[trigger] f(i) <= c,
    ensures
        -(n * c) <= rsum(n, f) <= n * c,
    decreases n,
{
    if n == 0 {
        assert(n * c == 0) by (nonlinear_arith)
            requires
                n == 0,
        ;
    } else {
        lemma_rsum_abs_bounded((n - 1) as nat, f, c);
        assert(-c <= f(n - 1) <= c);
        assert(((n - 1) as nat) * c + c == n * c && -(((n - 1) as nat) * c) - c == -(n * c))
            by (nonlinear_arith)
            requires
                n >= 1,
        ;
    }
}

/// A sequence sum whose terms stay within `[-c, c]` stays within
/// `[-len*c, len*c]`.
pub proof fn lemma_ssum_abs_bounded<A>(s: Seq<A>, f: spec_fn(A) -> int, c: int)
    requires
        c >= 0,
        forall|k: int| 0 <= k < s.len() ==> -c <= #[trigger] f(s[k]) <= c,
    ensures
        -(s.len() * c) <= ssum(s, f) <= s.len() * c,
    decreases s.len(),
{
    if s.len() == 0 {
        assert(s.len() * c == 0) by (nonlinear_arith)
            requires
                s.len() == 0,
        ;
    } else {
        lemma_ssum_abs_bounded(s.drop_last(), f, c);
        assert(-c <= f(s.last()) <= c);
        assert((s.len() - 1) * c + c == s.len() * c && -((s.len() - 1) * c) - c == -(s.len() * c))
            by (nonlinear_arith)
            requires
                s.len() >= 1,
        ;
    }
}

/// Pulling a common factor out of a range sum.
pub proof fn lemma_rsum_scale(n: nat, f: spec_fn(int) -> int, g: spec_fn(int) -> int, c: int)
    requires
        forall|i: int| 0 <= i < n ==> #[trigger] g(i) == c * #[trigger] f(i),
    ensures
        rsum(n, g) == c * rsum(n, f),
    decreases n,
{
    if n == 0 {
        assert(c * 0 == 0) by (nonlinear_arith);
    } else {
        lemma_rsum_scale((n - 1) as nat, f, g, c);
        assert(c * rsum((n - 1) as nat, f) + c * f(n - 1) == c * (rsum((n - 1) as nat, f) + f(n
            - 1))) by (nonlinear_arith);
    }
}

/// Pulling a common factor out of a sequence sum.
pub proof fn lemma_ssum_scale<A>(s: Seq<A>, f: spec_fn(A) -> int, g: spec_fn(A) -> int, c: int)
    requires
        forall|k: int| 0 <= k < s.len() ==> #[trigger] g(s[k]) == c * #[trigger] f(s[k]),
    ensures
        ssum(s, g) == c * ssum(s, f),
    decreases s.len(),
{
    if s.len() == 0 {
        assert(c * 0 == 0) by (nonlinear_arith);
    } else {
        lemma_ssum_scale(s.drop_last(), f, g, c);
        assert(c * ssum(s.drop_last(), f) + c * f(s.last()) == c * (ssum(s.drop_last(), f) + f(
            s.last(),
        ))) by (nonlinear_arith);
    }
}

/// A sum over mapped elements is the sum of the composed summand.
pub proof fn lemma_ssum_map<A, B>(
    s: Seq<A>,
    mf: spec_fn(A) -> B,
    v: spec_fn(B) -> int,
    comp: spec_fn(A) -> int,
)
    requires
        forall|k: int| 0 <= k < s.len() ==> #[trigger] comp(s[k]) == v(mf(s[k])),
    ensures
        ssum(s.map_values(mf), v) == ssum(s, comp),
    decreases s.len(),
{
    if s.len() > 0 {
        lemma_ssum_map(s.drop_last(), mf, v, comp);
        assert(s.map_values(mf).drop_last() =~= s.drop_last().map_values(mf));
        assert(s.map_values(mf).last() == mf(s.last()));
    } else {
        assert(s.map_values(mf) =~= Seq::<B>::empty());
    }
}

/// Replacing one element changes the sum by the difference of the terms.
pub proof fn lemma_ssum_update<A>(s: Seq<A>, f: spec_fn(A) -> int, t: int, v: A)
    requires
        0 <= t < s.len(),
    ensures
        ssum(s.update(t, v), f) == ssum(s, f) - f(s[t]) + f(v),
    decreases s.len(),
{
    let su = s.update(t, v);
    if t == s.len() - 1 {
        assert(su.drop_last() =~= s.drop_last());
        assert(su.last() == v);
    } else {
        lemma_ssum_update(s.drop_last(), f, t, v);
        assert(su.drop_last() =~= s.drop_last().update(t, v));
        assert(su.last() == s.last());
    }
}

/// A sequence sum written as a range sum over positions.
pub proof fn lemma_ssum_as_rsum<A>(s: Seq<A>, f: spec_fn(A) -> int, g: spec_fn(int) -> int)
    requires
        forall|k: int| 0 <= k < s.len() ==> #[trigger] g(k) == f(s[k]),
    ensures
        ssum(s, f) == rsum(s.len(), g),
    decreases s.len(),
{
    if s.len() > 0 {
        lemma_ssum_as_rsum(s.drop_last(), f, g);
        assert(forall|k: int| 0 <= k < s.len() - 1 ==> #[trigger] s.drop_last()[k] == s[k]);
    }
}

/// A sum over a flat row-major matrix equals the row-by-row double sum.
pub proof fn lemma_flat_block_sum<A>(
    s: Seq<A>,
    nr: nat,
    nc: nat,
    f: spec_fn(A) -> int,
    g: spec_fn(int, int) -> int,
)
    requires
        s.len() == nr * nc,
        forall|p: int, q: int|
            0 <= p < nr && 0 <= q < nc ==> #[trigger] g(p, q) == f(s[p * (nc as int) + q]),
    ensures
        dsum(nr, nc, g) == ssum(s, f),
    decreases nr,
{
    if nr == 0 {
        assert(s.len() == 0) by (nonlinear_arith)
            requires
                s.len() == nr * nc,
                nr == 0,
        ;
    } else {
        let nr1 = (nr - 1) as nat;
        let split: int = (nr1 * nc) as int;
        let head = s.take(split);
        let tail = s.skip(split);
        assert(nr1 * nc + nc == nr * nc && nr1 * nc >= 0) by (nonlinear_arith)
            requires
                nr >= 1,
                nr1 == nr - 1,
        ;
        assert(head.len() == nr1 * nc);
        assert forall|p: int, q: int| 0 <= p < nr1 && 0 <= q < nc implies #[trigger] g(p, q) == f(
            head[p * (nc as int) + q],
        ) by {
            assert(0 <= p * (nc as int) + q < split) by (nonlinear_arith)
                requires
                    0 <= p < nr1,
                    0 <= q < nc,
                    split == nr1 * nc,
            ;
            assert(head[p * (nc as int) + q] == s[p * (nc as int) + q]);
        }
        lemma_flat_block_sum(head, nr1, nc, f, g);
        // The double sum peels its last row; the flat sum peels its last
        // block.
        assert(dsum(nr, nc, g) == dsum(nr1, nc, g) + rsum(nc, |q: int| g(nr - 1, q)));
        lemma_ssum_concat_last_block(s, split, f);
        let lastrow = |q: int| g(nr - 1, q);
        assert forall|q: int| 0 <= q < nc implies #[trigger] lastrow(q) == f(tail[q]) by {
            assert(tail[q] == s[split + q]);
            assert((nr - 1) * (nc as int) + q == split + q);
        }
        lemma_ssum_as_rsum(tail, f, lastrow);
        assert(tail.len() == nc);
    }
}

/// Splitting a sequence sum at a position.
pub proof fn lemma_ssum_concat_last_block<A>(s: Seq<A>, m: int, f: spec_fn(A) -> int)
    requires
        0 <= m <= s.len(),
    ensures
        ssum(s, f) == ssum(s.take(m), f) + ssum(s.skip(m), f),
    decreases s.len() - m,
{
    if m == s.len() {
        assert(s.take(m) =~= s);
        assert(s.skip(m) =~= Seq::<A>::empty());
    } else {
        lemma_ssum_take_step(s, f, m);
        lemma_ssum_concat_last_block(s, m + 1, f);
        let t1 = s.skip(m);
        let t2 = s.skip(m + 1);
        assert(t1.drop_first() =~= t2);
        lemma_ssum_drop_first(t1, f);
        assert(t1[0] == s[m]);
    }
}

/// A sequence sum peels its first element.
pub proof fn lemma_ssum_drop_first<A>(s: Seq<A>, f: spec_fn(A) -> int)
    requires
        s.len() > 0,
    ensures
        ssum(s, f) == f(s[0]) + ssum(s.drop_first(), f),
    decreases s.len(),
{
    if s.len() == 1 {
        assert(s.drop_first() =~= Seq::<A>::empty());
        assert(ssum(s.drop_first(), f) == 0);
        assert(ssum(s.drop_last(), f) == 0);
        assert(s.last() == s[0]);
    } else {
        lemma_ssum_drop_first(s.drop_last(), f);
        assert(s.drop_last().drop_first() =~= s.drop_first().drop_last());
        assert(s.drop_last()[0] == s[0]);
        assert(s.drop_first().last() == s.last());
        assert(s.drop_first().len() > 0);
        assert(ssum(s.drop_first(), f) == ssum(s.drop_first().drop_last(), f) + f(
            s.drop_first().last(),
        ));
        assert(ssum(s, f) == ssum(s.drop_last(), f) + f(s.last()));
    }
}

/// Stepping a prefix sum: the sum over the first `k + 1` elements is the sum
/// over the first `k` plus the term at `k`.
pub proof fn lemma_ssum_take_step<A>(s: Seq<A>, f: spec_fn(A) -> int, k: int)
    requires
        0 <= k < s.len(),
    ensures
        ssum(s.take(k + 1), f) == ssum(s.take(k), f) + f(s[k]),
{
    assert(s.take(k + 1).drop_last() =~= s.take(k));
    assert(s.take(k + 1).last() == s[k]);
}

/// The sum over the whole sequence is the sum over the full-length prefix.
pub proof fn lemma_ssum_take_all<A>(s: Seq<A>, f: spec_fn(A) -> int)
    ensures
        ssum(s.take(s.len() as int), f) == ssum(s, f),
{
    assert(s.take(s.len() as int) =~= s);
}

/// With non-negative terms, a prefix sum is at most the whole sum.
pub proof fn lemma_ssum_take_le<A>(s: Seq<A>, f: spec_fn(A) -> int, k: int)
    requires
        0 <= k <= s.len(),
        forall|j: int| 0 <= j < s.len() ==> #[trigger] f(s[j]) >= 0,
    ensures
        ssum(s.take(k), f) <= ssum(s, f),
    decreases s.len() - k,
{
    if k == s.len() {
        lemma_ssum_take_all(s, f);
    } else {
        lemma_ssum_take_step(s, f, k);
        lemma_ssum_take_le(s, f, k + 1);
    }
}

/// A sum of non-negative values over distinct indices drawn from `0 .. n`
/// is at most the sum over all of `0 .. n`.
pub proof fn lemma_ssum_distinct_le_rsum(s: Seq<int>, n: nat, v: spec_fn(int) -> int)
    requires
        forall|k: int| 0 <= k < s.len() ==> 0 <= #[trigger] s[k] < n,
        forall|k1: int, k2: int| 0 <= k1 < k2 < s.len() ==> s[k1] != s[k2],
        forall|i: int| 0 <= i < n ==> #[trigger] v(i) >= 0,
    ensures
        ssum(s, v) <= rsum(n, v),
    decreases s.len(),
{
    if s.len() == 0 {
        lemma_rsum_nonneg(n, v);
    } else {
        let t = s.last();
        let s1 = s.drop_last();
        let v1 = |i: int| if i == t { 0 } else { v(i) };
        assert(forall|k: int| 0 <= k < s1.len() ==> #[trigger] s1[k] == s[k]);
        assert forall|k: int| 0 <= k < s1.len() implies #[trigger] v(s1[k]) == #[trigger] v1(s1[k]) by {
            assert(s1[k] != t);
        }
        lemma_ssum_congruence(s1, v, v1);
        lemma_ssum_distinct_le_rsum(s1, n, v1);
        lemma_rsum_except(n, v, v1, t);
        assert(rsum(n, v1) == rsum(n, v) - v(t));
    }
}

} // verus!
