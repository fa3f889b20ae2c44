use vstd::arithmetic::div_mod::{
    lemma_fundamental_div_mod, lemma_fundamental_div_mod_converse, lemma_mod_bound,
};
use vstd::multiset::Multiset;
use vstd::prelude::*;

verus! {

/// Position of the parent of `c` (for `c > 0`) in a heap of branching factor `d`.
pub open spec fn parent_of(c: int, d: int) -> int {
    (c - 1) / d
}

/// Position of the `n`-th child of `i` in a heap of branching factor `d`.
pub open spec fn child_of(i: int, n: int, d: int) -> int {
    i * d + n + 1
}

/// Every live position `c` whose parent is at least `lo` holds a value no
/// larger than its parent's.
pub open spec fn ordered_from(s: Seq<i32>, d: int, lo: int) -> bool {
    forall|c: int|
        1 <= c < s.len() && parent_of(c, d) >= lo ==> s[parent_of(c, d)] >= #[trigger] s[c]
}

/// The max-heap property over all of `s`.
pub open spec fn heap_ordered(s: Seq<i32>, d: int) -> bool {
    ordered_from(s, d, 0)
}

/// The max-heap property with one defect allowed: the edge from position
/// `k` up to its parent. The grandparent still dominates `k`'s children.
pub open spec fn ordered_except(s: Seq<i32>, d: int, k: int) -> bool {
    &&& forall|c: int| 1 <= c < s.len() && c != k ==> s[parent_of(c, d)] >= #[trigger] s[c]
    &&& k > 0 ==> forall|c: int|
        1 <= c < s.len() && parent_of(c, d) == k ==> s[parent_of(k, d)] >= #[trigger] s[c]
}

/// Once the defect at `k` is gone, the whole sequence is in heap order.
pub proof fn lemma_sift_up_done(s: Seq<i32>, d: int, k: int)
    requires
        d >= 1,
        0 <= k < s.len(),
        ordered_except(s, d, k),
        k == 0 || s[parent_of(k, d)] >= s[k],
    ensures
        heap_ordered(s, d),
{
}

/// Trading a value with a smaller parent moves the defect one level up.
pub proof fn lemma_sift_up_step(s: Seq<i32>, d: int, k: int)
    requires
        d >= 1,
        1 <= k < s.len(),
        ordered_except(s, d, k),
        s[parent_of(k, d)] < s[k],
    ensures
        ordered_except(swapped(s, parent_of(k, d), k), d, parent_of(k, d)),
{
    let p = parent_of(k, d);
    let t = swapped(s, p, k);
    lemma_parent_before(k, d);
    assert forall|c: int| 1 <= c < t.len() && c != p implies t[parent_of(c, d)] >= #[trigger] t[c] by {
        lemma_parent_before(c, d);
    }
    if p > 0 {
        lemma_parent_before(p, d);
        assert forall|c: int| 1 <= c < t.len() && parent_of(c, d) == p implies t[parent_of(p, d)]
            >= #[trigger] t[c] by {
            lemma_parent_before(c, d);
        }
    }
}

/// Every child of `k` holds a value no larger than `s[m]`.
pub open spec fn dominates_children(s: Seq<i32>, d: int, k: int, m: int) -> bool {
    forall|c: int| 1 <= c < s.len() && parent_of(c, d) == k ==> s[m] >= #[trigger] s[c]
}

/// `v` is in `m` and no value of `m` exceeds it.
pub open spec fn is_max_of(v: i32, m: Multiset<i32>) -> bool {
    &&& m.count(v) > 0
    &&& forall|x: i32| m.count(x) > 0 ==> x <= v
}

/// In heap order, no value exceeds the one at the root.
pub proof fn lemma_root_dominates(s: Seq<i32>, d: int, c: int)
    requires
        d >= 1,
        heap_ordered(s, d),
        0 <= c < s.len(),
    ensures
        s[c] <= s[0],
    decreases c,
{
    if c > 0 {
        lemma_parent_before(c, d);
        lemma_root_dominates(s, d, parent_of(c, d));
    }
}

/// In heap order, the root holds the largest value.
pub proof fn lemma_root_is_max(s: Seq<i32>, d: int)
    requires
        d >= 1,
        heap_ordered(s, d),
        s.len() > 0,
    ensures
        is_max_of(s[0], s.to_multiset()),
{
    broadcast use vstd::seq_lib::group_to_multiset_ensures;

    assert(s.contains(s[0]));
    assert forall|x: i32| s.to_multiset().count(x) > 0 implies x <= s[0] by {
        assert(s.contains(x));
        let c = choose|c: int| 0 <= c < s.len() && s[c] == x;
        lemma_root_dominates(s, d, c);
    }
}

/// In heap order, every live child of a live position holds a value no
/// larger than that position's.
pub proof fn lemma_heap_children(s: Seq<i32>, d: int, i: int, n: int)
    requires
        d >= 1,
        heap_ordered(s, d),
        0 <= i,
        0 <= n < d,
        child_of(i, n, d) < s.len(),
    ensures
        s[i] >= s[child_of(i, n, d)],
{
    lemma_parent_of_child(i, n, d);
    assert(s[parent_of(child_of(i, n, d), d)] >= s[child_of(i, n, d)]);
}

/// `out` is what successive extractions of the largest value take out of
/// `m`, in the order they take it.
pub open spec fn extraction_sequence(m: Multiset<i32>, out: Seq<i32>) -> bool
    decreases out.len(),
{
    out.len() == 0 || (is_max_of(out[0], m) && extraction_sequence(m.remove(out[0]), out.drop_first()))
}

/// Repeated extractions of the largest value come out in non-increasing
/// order.
pub proof fn lemma_extraction_order(m: Multiset<i32>, out: Seq<i32>)
    requires
        extraction_sequence(m, out),
    ensures
        forall|i: int| 0 <= i < out.len() - 1 ==> out[i] >= #[trigger] out[i + 1],
    decreases out.len(),
{
    if out.len() > 1 {
        let rest = out.drop_first();
        lemma_extraction_order(m.remove(out[0]), rest);
        assert(extraction_sequence(m.remove(out[0]), rest));
        assert(rest[0] == out[1]);
        assert(is_max_of(rest[0], m.remove(out[0])));
        assert(m.remove(out[0]).count(out[1]) > 0);
        assert(m.count(out[1]) > 0);
        assert forall|i: int| 0 <= i < out.len() - 1 implies out[i] >= #[trigger] out[i + 1] by {
            if i > 0 {
                assert(rest[i - 1] >= rest[i]);
            }
        }
    }
}

/// Number of positions on level `k` of a full heap of branching factor `d`.
pub open spec fn level_width(d: int, k: nat) -> int
    decreases k,
{
    if k == 0 {
        1
    } else {
        d * level_width(d, (k - 1) as nat)
    }
}

/// First position of level `k`: the widths of the levels above it, summed.
pub open spec fn level_start(d: int, k: nat) -> int
    decreases k,
{
    if k == 0 {
        0
    } else {
        level_start(d, (k - 1) as nat) + level_width(d, (k - 1) as nat)
    }
}

/// Every level has room for at least one position.
pub proof fn lemma_level_width_positive(d: int, k: nat)
    requires
        d >= 1,
    ensures
        level_width(d, k) >= 1,
    decreases k,
{
    if k > 0 {
        lemma_level_width_positive(d, (k - 1) as nat);
        assert(d * level_width(d, (k - 1) as nat) >= 1) by (nonlinear_arith)
            requires
                d >= 1,
                level_width(d, (k - 1) as nat) >= 1,
        ;
    }
}

/// The position reached from `c` by `n` steps up to the parent, staying put
/// once the root is reached.
pub open spec fn ancestor_at(c: int, d: int, n: nat) -> int
    decreases n,
{
    if n == 0 || c <= 0 {
        c
    } else {
        ancestor_at(parent_of(c, d), d, (n - 1) as nat)
    }
}

/// `a` lies on the path from `c` up to the root, `c` itself included; that
/// is, `c` lies in the subtree rooted at `a`.
pub open spec fn on_root_path(a: int, c: int, d: int) -> bool {
    exists|n: nat| ancestor_at(c, d, n) == a
}

/// Heap order on every edge whose parent lies in the subtree rooted at `r`.
pub open spec fn ordered_in_subtree(s: Seq<i32>, d: int, r: int) -> bool {
    forall|c: int|
        1 <= c < s.len() && on_root_path(r, parent_of(c, d), d) ==> s[parent_of(c, d)]
            >= #[trigger] s[c]
}

/// Heap order on the edges whose parent lies in the subtree rooted at `r`,
/// with one defect allowed: the edges from `k` down to its children. Unless
/// `k` is `r`, the parent of `k` still dominates them.
pub open spec fn ordered_in_subtree_except(s: Seq<i32>, d: int, r: int, k: int) -> bool {
    &&& forall|c: int|
        1 <= c < s.len() && on_root_path(r, parent_of(c, d), d) && parent_of(c, d) != k
            ==> s[parent_of(c, d)] >= #[trigger] s[c]
    &&& k != r ==> forall|c: int|
        1 <= c < s.len() && parent_of(c, d) == k ==> s[parent_of(k, d)] >= #[trigger] s[c]
}

/// Walking up never leads to a larger position.
pub proof fn lemma_ancestor_at_most(c: int, d: int, n: nat)
    requires
        d >= 1,
    ensures
        ancestor_at(c, d, n) <= c,
        c >= 0 ==> ancestor_at(c, d, n) >= 0,
    decreases n,
{
    if n > 0 && c > 0 {
        lemma_parent_before(c, d);
        lemma_ancestor_at_most(parent_of(c, d), d, (n - 1) as nat);
    }
}

/// Positions of the subtree rooted at `r` are at least `r`.
pub proof fn lemma_subtree_after_root(r: int, c: int, d: int)
    requires
        d >= 1,
        on_root_path(r, c, d),
    ensures
        r <= c,
{
    let n = choose|n: nat| ancestor_at(c, d, n) == r;
    lemma_ancestor_at_most(c, d, n);
}

/// One more step up from a position past the root reaches its parent.
pub proof fn lemma_ancestor_next(c: int, d: int, n: nat)
    requires
        d >= 1,
        c >= 0,
        ancestor_at(c, d, n) > 0,
    ensures
        ancestor_at(c, d, n + 1) == parent_of(ancestor_at(c, d, n), d),
    decreases n,
{
    if n > 0 {
        lemma_parent_before(c, d);
        lemma_ancestor_next(parent_of(c, d), d, (n - 1) as nat);
        assert(ancestor_at(c, d, n + 1) == ancestor_at(parent_of(c, d), d, n));
    } else {
        assert(ancestor_at(parent_of(c, d), d, 0) == parent_of(c, d));
    }
}

/// The parent of a position on the path from `c` to the root is on it too.
pub proof fn lemma_root_path_parent(k: int, c: int, d: int)
    requires
        d >= 1,
        c >= 0,
        k > 0,
        on_root_path(k, c, d),
    ensures
        on_root_path(parent_of(k, d), c, d),
{
    let n = choose|n: nat| ancestor_at(c, d, n) == k;
    lemma_ancestor_next(c, d, n);
    assert(ancestor_at(c, d, n + 1) == parent_of(k, d));
}

/// A child of a position in the subtree rooted at `r` is in it too.
pub proof fn lemma_subtree_child(r: int, k: int, m: int, d: int)
    requires
        m > 0,
        parent_of(m, d) == k,
        on_root_path(r, k, d),
    ensures
        on_root_path(r, m, d),
{
    let n = choose|n: nat| ancestor_at(k, d, n) == r;
    assert(ancestor_at(m, d, n + 1) == ancestor_at(k, d, n));
}

/// A position of the subtree rooted at `r` other than `r` has its parent in
/// that subtree.
pub proof fn lemma_subtree_parent(r: int, c: int, d: int)
    requires
        c != r,
        on_root_path(r, c, d),
    ensures
        c > 0,
        on_root_path(r, parent_of(c, d), d),
{
    let n = choose|n: nat| ancestor_at(c, d, n) == r;
    assert(n > 0 && c > 0);
    assert(ancestor_at(parent_of(c, d), d, (n - 1) as nat) == r);
}

/// Once `k` dominates its children, the subtree rooted at `r` is in order.
pub proof fn lemma_subtree_sift_done(s: Seq<i32>, d: int, r: int, k: int)
    requires
        ordered_in_subtree_except(s, d, r, k),
        dominates_children(s, d, k, k),
    ensures
        ordered_in_subtree(s, d, r),
{
}

/// Trading a value with its largest child, which exceeds it, moves the
/// defect of the subtree rooted at `r` one level down.
pub proof fn lemma_subtree_sift_step(s: Seq<i32>, d: int, r: int, k: int, m: int)
    requires
        d >= 1,
        0 <= r <= k < m < s.len(),
        on_root_path(r, k, d),
        parent_of(m, d) == k,
        s[m] > s[k],
        dominates_children(s, d, k, m),
        ordered_in_subtree_except(s, d, r, k),
    ensures
        ordered_in_subtree_except(swapped(s, k, m), d, r, m),
        on_root_path(r, m, d),
{
    let t = swapped(s, k, m);
    lemma_subtree_child(r, k, m, d);
    assert forall|c: int|
        1 <= c < t.len() && on_root_path(r, parent_of(c, d), d) && parent_of(c, d) != m
            implies t[parent_of(c, d)] >= #[trigger] t[c] by {
        lemma_parent_before(c, d);
        if c == k && k == r {
            lemma_subtree_after_root(r, parent_of(c, d), d);
        }
    }
    assert forall|c: int| 1 <= c < t.len() && parent_of(c, d) == m implies t[parent_of(m, d)]
        >= #[trigger] t[c] by {
        lemma_parent_before(c, d);
    }
}

/// Order below the parents from `i + 1` on orders the subtrees of `i`'s
/// children.
pub proof fn lemma_subtree_from_ordered(s: Seq<i32>, d: int, i: int)
    requires
        d >= 1,
        ordered_from(s, d, i + 1),
    ensures
        ordered_in_subtree_except(s, d, i, i),
{
    assert forall|c: int|
        1 <= c < s.len() && on_root_path(i, parent_of(c, d), d) && parent_of(c, d) != i
            implies s[parent_of(c, d)] >= #[trigger] s[c] by {
        lemma_subtree_after_root(i, parent_of(c, d), d);
    }
}

/// Ordering the subtree rooted at `i`, and changing nothing outside it,
/// extends order below the parents from `i + 1` on to order below `i`.
pub proof fn lemma_ordered_from_subtree(s0: Seq<i32>, s1: Seq<i32>, d: int, i: int)
    requires
        d >= 1,
        i >= 0,
        s1.len() == s0.len(),
        ordered_from(s0, d, i + 1),
        ordered_in_subtree(s1, d, i),
        forall|j: int| 0 <= j < s0.len() && !on_root_path(i, j, d) ==> s1[j] == s0[j],
    ensures
        ordered_from(s1, d, i),
{
    assert(ancestor_at(i, d, 0) == i);
    assert forall|c: int| 1 <= c < s1.len() && parent_of(c, d) >= i implies s1[parent_of(c, d)]
        >= #[trigger] s1[c] by {
        let p = parent_of(c, d);
        lemma_parent_before(c, d);
        if !on_root_path(i, p, d) {
            if on_root_path(i, c, d) {
                if c != i {
                    lemma_subtree_parent(i, c, d);
                }
            }
            assert(s0[p] >= s0[c]);
        }
    }
}

/// `s[j]` and `s[i]` traded places.
pub open spec fn swapped(s: Seq<i32>, i: int, j: int) -> Seq<i32> {
    s.update(i, s[j]).update(j, s[i])
}

/// A parent precedes its child.
pub proof fn lemma_parent_before(c: int, d: int)
    requires
        c >= 1,
        d >= 1,
    ensures
        0 <= parent_of(c, d) < c,
{
    let q = (c - 1) / d;
    lemma_fundamental_div_mod(c - 1, d);
    lemma_mod_bound(c - 1, d);
    assert(0 <= q <= c - 1) by (nonlinear_arith)
        requires
            c - 1 == d * q + (c - 1) % d,
            0 <= (c - 1) % d < d,
            c >= 1,
            d >= 1,
    ;
}

/// The parent of the `n`-th child of `i` is `i`.
pub proof fn lemma_parent_of_child(i: int, n: int, d: int)
    requires
        i >= 0,
        0 <= n < d,
    ensures
        parent_of(child_of(i, n, d), d) == i,
        child_of(i, n, d) > i,
{
    lemma_fundamental_div_mod_converse(i * d + n, d, i, n);
    assert(i * d >= i) by (nonlinear_arith)
        requires
            i >= 0,
            d >= 1,
    ;
}

/// Every position past the root is a child of its parent, under the child
/// number `(c - 1) % d`.
pub proof fn lemma_child_of_parent(c: int, d: int)
    requires
        c >= 1,
        d >= 1,
    ensures
        0 <= (c - 1) % d < d,
        c == child_of(parent_of(c, d), (c - 1) % d, d),
{
    lemma_mod_bound(c - 1, d);
    lemma_fundamental_div_mod(c - 1, d);
    assert(d * ((c - 1) / d) == ((c - 1) / d) * d) by (nonlinear_arith);
}

/// Trading two places keeps the multiset of values.
pub proof fn lemma_swap_multiset(s: Seq<i32>, i: int, j: int)
    requires
        0 <= i < s.len(),
        0 <= j < s.len(),
    ensures
        swapped(s, i, j).to_multiset() =~= s.to_multiset(),
        swapped(s, i, j).len() == s.len(),
{
    broadcast use vstd::seq_lib::to_multiset_update, vstd::seq_lib::group_to_multiset_ensures;

    let t = s.update(i, s[j]);
    assert(t.to_multiset() == s.to_multiset().insert(s[j]).remove(s[i]));
    assert(t.update(j, s[i]).to_multiset() == t.to_multiset().insert(s[i]).remove(t[j]));
    if i == j {
        assert(swapped(s, i, j) =~= s);
    } else {
        assert(t[j] == s[j]);
        assert(s.contains(s[i]));
        assert(s.contains(s[j]));
        let m = s.to_multiset();
        assert(m.insert(s[j]).remove(s[i]).insert(s[i]).remove(s[j]) =~= m);
    }
}

} // verus!
