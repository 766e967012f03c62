//! Counting grains: the total load of a grid and why a sweep keeps it.

use vstd::prelude::*;
use crate::model::{flow, flow_upto, inflow, inner, sheds};

verus! {

/// Sum of a sequence of integers.
pub open spec fn sum(s: Seq<int>) -> int
    decreases s.len(),
{
    if s.len() == 0 {
        0
    } else {
        sum(s.drop_last()) + s.last()
    }
}

/// The loads of a grid as integers.
pub open spec fn ints(g: Seq<u32>) -> Seq<int> {
    Seq::new(g.len(), |i: int| g[i] as int)
}

/// Number of grains on the grid.
pub open spec fn total(g: Seq<u32>) -> int {
    sum(ints(g))
}

/// The entry at `k`, or nothing where `k` is off the sequence.
pub open spec fn val(s: Seq<int>, k: int) -> int {
    if 0 <= k < s.len() {
        s[k]
    } else {
        0
    }
}

/// The sequence with the entry at `k` cleared.
pub open spec fn zeroed(s: Seq<int>, k: int) -> Seq<int> {
    if 0 <= k < s.len() {
        s.update(k, 0)
    } else {
        s
    }
}

pub proof fn lemma_sum_update(s: Seq<int>, i: int, v: int)
    requires
        0 <= i < s.len(),
    ensures
        sum(s.update(i, v)) == sum(s) - s[i] + v,
    decreases s.len(),
{
    let t = s.update(i, v);
    if i == s.len() - 1 {
        assert(t.drop_last() =~= s.drop_last());
    } else {
        lemma_sum_update(s.drop_last(), i, v);
        assert(t.drop_last() =~= s.drop_last().update(i, v));
    }
}

pub proof fn lemma_sum_nonneg(s: Seq<int>)
    requires
        forall|i: int| 0 <= i < s.len() ==> 0 <= s[i],
    ensures
        0 <= sum(s),
    decreases s.len(),
{
    if s.len() > 0 {
        lemma_sum_nonneg(s.drop_last());
    }
}

pub proof fn lemma_sum_zero(s: Seq<int>)
    requires
        forall|i: int| 0 <= i < s.len() ==> s[i] == 0,
    ensures
        sum(s) == 0,
    decreases s.len(),
{
    if s.len() > 0 {
        lemma_sum_zero(s.drop_last());
    }
}

pub proof fn lemma_zeroed(s: Seq<int>, k: int)
    ensures
        sum(zeroed(s, k)) == sum(s) - val(s, k),
{
    if 0 <= k < s.len() {
        lemma_sum_update(s, k, 0);
    }
}

/// A grid holds no fewer grains than any one cell.
pub proof fn lemma_cell_le_total(g: Seq<u32>, i: int)
    requires
        0 <= i < g.len(),
    ensures
        g[i] <= total(g),
        0 <= total(g),
{
    let s = ints(g);
    lemma_zeroed(s, i);
    lemma_sum_nonneg(zeroed(s, i));
    lemma_sum_nonneg(s);
}

/// A cell and what its neighbours send it never hold more than the grid.
#[verifier::rlimit(50)]
pub proof fn lemma_reach(g: Seq<u32>, w: int, i: int)
    requires
        0 <= i < g.len(),
    ensures
        g[i] + inflow(g, w, i) <= total(g),
{
    let s0 = ints(g);
    if w < 3 {
        lemma_cell_le_total(g, i);
        assert(forall|k: int| !inner(g.len() as int, w, k));
    } else {
        let s1 = zeroed(s0, i);
        let s2 = zeroed(s1, i - 1);
        let s3 = zeroed(s2, i + 1);
        let s4 = zeroed(s3, i - w);
        let s5 = zeroed(s4, i + w);
        lemma_zeroed(s0, i);
        lemma_zeroed(s1, i - 1);
        lemma_zeroed(s2, i + 1);
        lemma_zeroed(s3, i - w);
        lemma_zeroed(s4, i + w);
        lemma_sum_nonneg(s5);
        assert(sheds(g, w, i - 1) <= val(s1, i - 1));
        assert(sheds(g, w, i + 1) <= val(s2, i + 1));
        assert(sheds(g, w, i - w) <= val(s3, i - w));
        assert(sheds(g, w, i + w) <= val(s4, i + w));
    }
}

/// The grid after the cells before `c` have toppled.
pub open spec fn toppled(g: Seq<u32>, w: int, c: int) -> Seq<int> {
    Seq::new(g.len(), |i: int| g[i] + flow_upto(g, w, i, c))
}

/// Toppling moves grains and makes none: whatever cells have toppled, the
/// grid holds what it held.
#[verifier::rlimit(50)]
pub proof fn lemma_toppled_total(g: Seq<u32>, w: int, c: int)
    requires
        0 <= c <= g.len(),
    ensures
        sum(toppled(g, w, c)) == total(g),
    decreases c,
{
    if c == 0 {
        assert(toppled(g, w, 0) =~= ints(g));
    } else {
        let b = c - 1;
        lemma_toppled_total(g, w, b);
        let d = sheds(g, w, b);
        let a0 = toppled(g, w, b);
        if d == 0 {
            assert(toppled(g, w, c) =~= a0);
        } else {
            assert(inner(g.len() as int, w, b));
            assert(w >= 3);
            let a1 = a0.update(b - w, a0[b - w] + d);
            let a2 = a1.update(b - 1, a1[b - 1] + d);
            let a3 = a2.update(b, a2[b] - 4 * d);
            let a4 = a3.update(b + 1, a3[b + 1] + d);
            let a5 = a4.update(b + w, a4[b + w] + d);
            lemma_sum_update(a0, b - w, a0[b - w] + d);
            lemma_sum_update(a1, b - 1, a1[b - 1] + d);
            lemma_sum_update(a2, b, a2[b] - 4 * d);
            lemma_sum_update(a3, b + 1, a3[b + 1] + d);
            lemma_sum_update(a4, b + w, a4[b + w] + d);
            assert(toppled(g, w, c) =~= a5);
        }
    }
}

/// The grid that one sweep leaves: every inner cell holding four grains or
/// more has given a quarter of its load, rounded down, to each neighbour.
pub open spec fn swept(g: Seq<u32>, w: int) -> Seq<int> {
    Seq::new(g.len(), |i: int| g[i] + flow(g, w, i))
}

/// A sweep conserves the grains on the grid, and leaves no cell above their
/// number or below zero.
pub proof fn lemma_swept_total(g: Seq<u32>, w: int)
    ensures
        sum(swept(g, w)) == total(g),
        forall|i: int| 0 <= i < g.len() ==> 0 <= #[trigger] swept(g, w)[i] <= total(g),
{
    lemma_toppled_total(g, w, g.len() as int);
    assert(swept(g, w) =~= toppled(g, w, g.len() as int));
    assert forall|i: int| 0 <= i < g.len() implies 0 <= #[trigger] swept(g, w)[i] <= total(g) by {
        lemma_reach(g, w, i);
    }
}

/// Where every loaded cell of `a` has a cell of its own in `b` that holds
/// no less, `b` holds no less than `a` in all.
pub proof fn lemma_sum_le(a: Seq<int>, b: Seq<int>, f: spec_fn(int) -> int)
    requires
        forall|i: int| 0 <= i < a.len() ==> 0 <= #[trigger] a[i],
        forall|i: int| 0 <= i < b.len() ==> 0 <= #[trigger] b[i],
        forall|i: int|
            0 <= i < a.len() && #[trigger] a[i] > 0 ==> 0 <= f(i) < b.len() && a[i] <= b[f(i)],
        forall|i: int, j: int|
            0 <= i < j < a.len() && #[trigger] a[i] > 0 && #[trigger] a[j] > 0 ==> f(i) != f(j),
    ensures
        sum(a) <= sum(b),
    decreases a.len(),
{
    if a.len() == 0 {
        lemma_sum_nonneg(b);
    } else {
        let n = a.len() - 1;
        let rest = a.drop_last();
        if a[n] == 0 {
            lemma_sum_le(rest, b, f);
        } else {
            let j = f(n);
            let less = b.update(j, b[j] - a[n]);
            lemma_sum_update(b, j, b[j] - a[n]);
            assert forall|i: int| 0 <= i < rest.len() && #[trigger] rest[i] > 0 implies 0 <= f(i)
                < less.len() && rest[i] <= less[f(i)] by {
                assert(a[i] > 0);
            }
            assert forall|i: int, k: int|
                0 <= i < k < rest.len() && #[trigger] rest[i] > 0 && #[trigger] rest[k]
                    > 0 implies f(i) != f(k) by {
                assert(a[i] > 0 && a[k] > 0);
            }
            lemma_sum_le(rest, less, f);
        }
    }
}

/// The same for grids.
pub proof fn lemma_total_le(a: Seq<u32>, b: Seq<u32>, f: spec_fn(int) -> int)
    requires
        forall|i: int|
            0 <= i < a.len() && #[trigger] a[i] > 0 ==> 0 <= f(i) < b.len() && a[i] <= b[f(i)],
        forall|i: int, j: int|
            0 <= i < j < a.len() && #[trigger] a[i] > 0 && #[trigger] a[j] > 0 ==> f(i) != f(j),
    ensures
        total(a) <= total(b),
{
    let sa = ints(a);
    let sb = ints(b);
    assert forall|i: int| 0 <= i < sa.len() && #[trigger] sa[i] > 0 implies 0 <= f(i) < sb.len()
        && sa[i] <= sb[f(i)] by {
        assert(a[i] > 0);
    }
    assert forall|i: int, j: int|
        0 <= i < j < sa.len() && #[trigger] sa[i] > 0 && #[trigger] sa[j] > 0 implies f(i) != f(
        j,
    ) by {
        assert(a[i] > 0 && a[j] > 0);
    }
    lemma_sum_le(sa, sb, f);
}

} // verus!
