//! Index arithmetic and ordering predicates for a min-max heap laid out in an
//! array: the children of position `p` sit at `2p+1` and `2p+2`, levels
//! alternate between "min levels" (even depth) and "max levels" (odd depth).

use vstd::prelude::*;

verus! {

/// Heap position of the left child of `p`.
pub open spec fn left_of(p: int) -> int {
    2 * p + 1
}

/// Heap position of the right child of `p`.
pub open spec fn right_of(p: int) -> int {
    2 * p + 2
}

/// Heap position of the parent of `c` (meaningful for `c >= 1`).
pub open spec fn parent_of(c: int) -> int {
    (c - 1) / 2
}

/// Depth of position `p` in the tree; the root has depth 0.
pub open spec fn lvl(p: int) -> nat
    decreases p,
{
    if p <= 0 {
        0
    } else {
        1 + lvl(parent_of(p))
    }
}

/// Positions at even depth carry the "min" ordering duty.
pub open spec fn on_min_level(p: int) -> bool {
    lvl(p) % 2 == 0
}

/// `c` is a child of `p`.
pub open spec fn is_child(p: int, c: int) -> bool {
    c == left_of(p) || c == right_of(p)
}

/// `g` is a grandchild of `p`.
pub open spec fn is_grandchild(p: int, g: int) -> bool {
    exists|c: int| #[trigger] is_child(p, c) && is_child(c, g)
}

/// `d` lies in the subtree rooted at `a` (`a` itself included).
pub open spec fn in_subtree(a: int, d: int) -> bool
    decreases d,
{
    if a < 0 || d < 0 {
        false
    } else if d == a {
        true
    } else if d < a {
        false
    } else {
        in_subtree(a, parent_of(d))
    }
}

/// The ordering that the min-max invariant demands between a node `a` and a
/// node `d` below it, by `a`'s polarity.
pub open spec fn ordered_pair(s: Seq<i64>, a: int, d: int) -> bool {
    if on_min_level(a) {
        s[a] <= s[d]
    } else {
        s[a] >= s[d]
    }
}

/// All child and grandchild conditions whose upper node is `u` hold.
pub open spec fn node_down_ok(s: Seq<i64>, u: int) -> bool {
    forall|d: int|
        #![trigger is_child(u, d)]
        #![trigger is_grandchild(u, d)]
        0 <= d < s.len() && (is_child(u, d) || is_grandchild(u, d)) ==> ordered_pair(s, u, d)
}


/// Local form of the min-max invariant inside the subtree rooted at `rt`.
pub open spec fn mm_local_in(s: Seq<i64>, rt: int) -> bool {
    forall|u: int| 0 <= u < s.len() && #[trigger] in_subtree(rt, u) ==> node_down_ok(s, u)
}

/// Local form inside the subtree rooted at `rt`, with the conditions rooted at
/// the single node `x` excused.
pub open spec fn mm_local_in_except(s: Seq<i64>, rt: int, x: int) -> bool {
    forall|u: int|
        0 <= u < s.len() && #[trigger] in_subtree(rt, u) && u != x ==> node_down_ok(s, u)
}

/// Local form of the min-max invariant over the whole array.
pub open spec fn mm_local(s: Seq<i64>) -> bool {
    forall|u: int| 0 <= u < s.len() ==> #[trigger] node_down_ok(s, u)
}

/// Descendant (global) form of the min-max invariant: every node orders its
/// whole subtree. This is the heap-shape part of the queue's invariant.
pub open spec fn mm_global(s: Seq<i64>) -> bool {
    forall|a: int, d: int|
        0 <= a && 0 <= d < s.len() && #[trigger] in_subtree(a, d) && a != d
            ==> ordered_pair(s, a, d)
}


// ---------------------------------------------------------------------------
// Basic facts about the index arithmetic.
// ---------------------------------------------------------------------------

pub proof fn lemma_child_parent(c: int)
    requires
        c >= 1,
    ensures
        is_child(parent_of(c), c),
        0 <= parent_of(c) < c,
{
}

pub proof fn lemma_parent_child(p: int, c: int)
    requires
        p >= 0,
        is_child(p, c),
    ensures
        parent_of(c) == p,
        c > p,
        c >= 1,
{
}

pub proof fn lemma_lvl_child(p: int, c: int)
    requires
        p >= 0,
        is_child(p, c),
    ensures
        lvl(c) == lvl(p) + 1,
        on_min_level(c) == !on_min_level(p),
{
    lemma_parent_child(p, c);
    assert(lvl(c) == 1 + lvl(parent_of(c)));
}

pub proof fn lemma_lvl_grandchild(p: int, g: int)
    requires
        p >= 0,
        is_grandchild(p, g),
    ensures
        lvl(g) == lvl(p) + 2,
        on_min_level(g) == on_min_level(p),
{
    let c = choose|c: int| #[trigger] is_child(p, c) && is_child(c, g);
    lemma_parent_child(p, c);
    lemma_lvl_child(p, c);
    lemma_lvl_child(c, g);
}

// ---------------------------------------------------------------------------
// Facts about the subtree relation.
// ---------------------------------------------------------------------------

pub proof fn lemma_subtree_bounds(a: int, d: int)
    requires
        in_subtree(a, d),
    ensures
        a <= d,
    decreases d,
{
    if d != a {
        lemma_subtree_bounds(a, parent_of(d));
    }
}

pub proof fn lemma_subtree_step(a: int, d: int)
    requires
        a >= 0,
        in_subtree(a, d),
        a != d,
    ensures
        d >= 1,
        in_subtree(a, parent_of(d)),
        is_child(parent_of(d), d),
{
    lemma_subtree_bounds(a, d);
    lemma_child_parent(d);
}

pub proof fn lemma_subtree_trans(a: int, b: int, d: int)
    requires
        in_subtree(a, b),
        in_subtree(b, d),
    ensures
        in_subtree(a, d),
    decreases d,
{
    if d != b {
        lemma_subtree_bounds(a, b);
        lemma_subtree_bounds(b, d);
        lemma_subtree_trans(a, b, parent_of(d));
    }
}

pub proof fn lemma_child_subtree(a: int, c: int)
    requires
        a >= 0,
        is_child(a, c),
    ensures
        in_subtree(a, c),
{
    lemma_parent_child(a, c);
    assert(in_subtree(a, parent_of(c)));
}

pub proof fn lemma_root_reaches_all(d: int)
    requires
        d >= 0,
    ensures
        in_subtree(0, d),
    decreases d,
{
    if d > 0 {
        lemma_root_reaches_all(parent_of(d));
    }
}

/// Every position other than the root lies under position 1 or position 2.
pub proof fn lemma_under_one_or_two(d: int)
    requires
        d >= 1,
    ensures
        in_subtree(1, d) || in_subtree(2, d),
    decreases d,
{
    if d > 2 {
        lemma_under_one_or_two(parent_of(d));
    }
}

/// A proper descendant is below one of the children.
pub proof fn lemma_child_on_path(a: int, d: int)
    requires
        a >= 0,
        in_subtree(a, d),
        a != d,
    ensures
        exists|c: int| #[trigger] is_child(a, c) && in_subtree(c, d),
    decreases d,
{
    lemma_subtree_step(a, d);
    if parent_of(d) == a {
        assert(is_child(a, d) && in_subtree(d, d));
    } else {
        lemma_child_on_path(a, parent_of(d));
        let c = choose|c: int| #[trigger] is_child(a, c) && in_subtree(c, parent_of(d));
        lemma_parent_child(a, c);
        assert(in_subtree(c, d));
    }
}

// ---------------------------------------------------------------------------
// The local conditions imply the descendant form.
// ---------------------------------------------------------------------------

proof fn lemma_local_orders_pair(s: Seq<i64>, a: int, d: int)
    requires
        0 <= a,
        0 <= d < s.len(),
        in_subtree(a, d),
        a != d,
        forall|u: int| 0 <= u < s.len() && #[trigger] in_subtree(a, u) ==> node_down_ok(s, u),
    ensures
        ordered_pair(s, a, d),
    decreases d - a,
{
    lemma_child_on_path(a, d);
    let c = choose|c: int| #[trigger] is_child(a, c) && in_subtree(c, d);
    lemma_parent_child(a, c);
    if c == d {
        assert(in_subtree(a, a));
        assert(is_child(a, d));
    } else {
        lemma_child_on_path(c, d);
        let g = choose|gc: int| #[trigger] is_child(c, gc) && in_subtree(gc, d);
        lemma_parent_child(c, g);
        assert(is_grandchild(a, g));
        lemma_child_subtree(a, c);
        lemma_child_subtree(c, g);
        lemma_subtree_trans(a, c, g);
        lemma_subtree_bounds(g, d);
        lemma_subtree_bounds(a, c);
        if g == d {
            assert(in_subtree(a, a));
            assert(0 <= d < s.len());
            assert(ordered_pair(s, a, d));
        } else {
            // g is strictly between a and d; values below g are ordered by g,
            // and g has a's polarity.
            assert forall|u: int|
                0 <= u < s.len() && #[trigger] in_subtree(g, u) implies node_down_ok(s, u) by {
                lemma_subtree_trans(a, g, u);
            }
            lemma_local_orders_pair(s, g, d);
            lemma_lvl_grandchild(a, g);
            assert(in_subtree(a, a));
            assert(in_subtree(a, g));
            assert(ordered_pair(s, a, g));
        }
    }
}

/// Inside a subtree whose nodes all satisfy their child and grandchild
/// conditions, every node orders its whole subtree.
pub proof fn lemma_local_implies_global_in(s: Seq<i64>, rt: int)
    requires
        rt >= 0,
        mm_local_in(s, rt),
    ensures
        forall|a: int, d: int|
            0 <= a && 0 <= d < s.len() && in_subtree(rt, a) && #[trigger] in_subtree(a, d) && a
                != d ==> ordered_pair(s, a, d),
{
    assert forall|a: int, d: int|
        0 <= a && 0 <= d < s.len() && in_subtree(rt, a) && #[trigger] in_subtree(a, d) && a
            != d implies ordered_pair(s, a, d) by {
        assert forall|u: int| 0 <= u < s.len() && #[trigger] in_subtree(a, u) implies node_down_ok(
            s,
            u,
        ) by {
            lemma_subtree_trans(rt, a, u);
        }
        lemma_local_orders_pair(s, a, d);
    }
}

/// Over the whole array the local form and the descendant form agree.
pub proof fn lemma_local_implies_global(s: Seq<i64>)
    requires
        mm_local(s),
    ensures
        mm_global(s),
{
    assert forall|u: int| 0 <= u < s.len() && #[trigger] in_subtree(0, u) implies node_down_ok(
        s,
        u,
    ) by {}
    lemma_local_implies_global_in(s, 0);
    assert forall|a: int, d: int|
        0 <= a && 0 <= d < s.len() && #[trigger] in_subtree(a, d) && a != d implies ordered_pair(
        s,
        a,
        d,
    ) by {
        lemma_root_reaches_all(a);
    }
}

/// The descendant form also gives back the local form.
pub proof fn lemma_global_implies_local(s: Seq<i64>)
    requires
        mm_global(s),
    ensures
        mm_local(s),
{
    assert forall|u: int| 0 <= u < s.len() implies node_down_ok(s, u) by {
        assert forall|d: int|
            #![trigger is_child(u, d)]
            #![trigger is_grandchild(u, d)]
            0 <= d < s.len() && (is_child(u, d) || is_grandchild(u, d)) implies ordered_pair(
            s,
            u,
            d,
        ) by {
            if is_child(u, d) {
                lemma_child_subtree(u, d);
                lemma_parent_child(u, d);
            } else {
                let c = choose|c: int| #[trigger] is_child(u, c) && is_child(c, d);
                lemma_parent_child(u, c);
                lemma_parent_child(c, d);
                lemma_child_subtree(u, c);
                lemma_child_subtree(c, d);
                lemma_subtree_trans(u, c, d);
            }
        }
    }
}

/// Grandchildren of `p` are exactly the positions `4p+3` through `4p+6`.
pub proof fn lemma_grandchild_range(p: int, g: int)
    requires
        p >= 0,
    ensures
        is_grandchild(p, g) <==> (4 * p + 3 <= g <= 4 * p + 6),
{
    if 4 * p + 3 <= g <= 4 * p + 6 {
        if g <= 4 * p + 4 {
            assert(is_child(p, 2 * p + 1) && is_child(2 * p + 1, g));
        } else {
            assert(is_child(p, 2 * p + 2) && is_child(2 * p + 2, g));
        }
    }
    if is_grandchild(p, g) {
        let c = choose|c: int| #[trigger] is_child(p, c) && is_child(c, g);
    }
}

/// The depth of a position never exceeds the position itself.
pub proof fn lemma_lvl_le(p: int)
    requires
        p >= 0,
    ensures
        lvl(p) <= p,
        p >= 1 ==> lvl(p) >= 1,
    decreases p,
{
    if p >= 1 {
        lemma_lvl_le(parent_of(p));
    }
}


// ---------------------------------------------------------------------------
// The trickle-down step of heapify, shared by the min and the max side.
// ---------------------------------------------------------------------------

/// `m`'s value wins against `d`'s by the polarity of the level of `i`.
pub open spec fn best_for(s: Seq<i64>, i: int, m: int, d: int) -> bool {
    if on_min_level(i) {
        s[m] <= s[d]
    } else {
        s[m] >= s[d]
    }
}

/// `m`'s value wins against every existing child and grandchild of `i`.
pub open spec fn beats_descendants(s: Seq<i64>, i: int, m: int) -> bool {
    forall|d: int|
        #![trigger is_child(i, d)]
        #![trigger is_grandchild(i, d)]
        0 <= d < s.len() && (is_child(i, d) || is_grandchild(i, d)) ==> best_for(s, i, m, d)
}

/// Every proper ancestor of `i` inside the subtree under `pos` orders the
/// whole subtree under `i` (the part of the invariant that survives while the
/// node at `i` trickles down).
pub open spec fn anc_ordered_below(s: Seq<i64>, pos: int, i: int) -> bool {
    forall|a: int, d: int|
        #![trigger in_subtree(a, i), in_subtree(i, d)]
        in_subtree(pos, a) && in_subtree(a, i) && a != i && 0 <= d < s.len() && in_subtree(i, d)
            ==> ordered_pair(s, a, d)
}

/// When the current node wins against all its candidates, the subtree is
/// fully ordered.
pub proof fn lemma_trickle_stop(s: Seq<i64>, pos: int, i: int)
    requires
        0 <= pos <= i < s.len(),
        in_subtree(pos, i),
        mm_local_in_except(s, pos, i),
        forall|d: int|
            #![trigger is_child(i, d)]
            #![trigger is_grandchild(i, d)]
            0 <= d < s.len() && (is_child(i, d) || is_grandchild(i, d)) ==> best_for(s, i, i, d),
    ensures
        mm_local_in(s, pos),
{
    assert(node_down_ok(s, i));
    assert forall|u: int| 0 <= u < s.len() && #[trigger] in_subtree(pos, u) implies node_down_ok(
        s,
        u,
    ) by {}
}

/// After swapping the current node with a winning child, the subtree is
/// fully ordered and the trickle stops.
pub proof fn lemma_trickle_child(s0: Seq<i64>, s2: Seq<i64>, pos: int, i: int, m: int)
    requires
        0 <= pos <= i < s0.len(),
        0 <= m < s0.len(),
        s2.len() == s0.len(),
        in_subtree(pos, i),
        mm_local_in_except(s0, pos, i),
        anc_ordered_below(s0, pos, i),
        is_child(i, m),
        beats_descendants(s0, i, m),
        !best_for(s0, i, i, m),
        s2 == s0.update(i, s0[m]).update(m, s0[i]),
    ensures
        mm_local_in(s2, pos),
{
    let n = s0.len() as int;
    lemma_parent_child(i, m);
    lemma_child_subtree(i, m);
    lemma_lvl_child(i, m);
    assert(in_subtree(i, i) && in_subtree(i, m));
    assert forall|u: int| 0 <= u < n && #[trigger] in_subtree(pos, u) implies node_down_ok(
        s2,
        u,
    ) by {
        assert forall|d: int|
            #![trigger is_child(u, d)]
            #![trigger is_grandchild(u, d)]
            0 <= d < n && (is_child(u, d) || is_grandchild(u, d)) implies ordered_pair(
            s2,
            u,
            d,
        ) by {
            if is_child(u, d) {
                lemma_parent_child(u, d);
                lemma_child_subtree(u, d);
                lemma_lvl_child(u, d);
            } else {
                let c = choose|c: int| #[trigger] is_child(u, c) && is_child(c, d);
                lemma_parent_child(u, c);
                lemma_parent_child(c, d);
                lemma_child_subtree(u, c);
                lemma_child_subtree(c, d);
                lemma_subtree_trans(u, c, d);
                lemma_lvl_grandchild(u, d);
            }
            if u == i {
                // the winner now sits at i and beats every candidate
                if d != m {
                    assert(s2[d] == s0[d]);
                }
            } else if u == m {
                // the displaced value, one level down, still dominates:
                // the old subtree of m was squeezed between the candidate
                // bound and m's own down-conditions
                assert(node_down_ok(s0, m));
                if d != i && d != m {
                    assert(s2[d] == s0[d]);
                    assert(ordered_pair(s0, m, d));
                }
                assert(d != i) by {
                    lemma_subtree_bounds(m, d);
                    if is_child(m, d) {
                        lemma_parent_child(m, d);
                    }
                }
            } else {
                assert(s2[u] == s0[u]);
                if d == i || d == m {
                    // u must be a proper ancestor of i
                    assert(in_subtree(u, i) && u != i) by {
                        if d == i {
                            if !is_child(u, d) {
                                lemma_subtree_step(u, i);
                            }
                        } else {
                            assert(parent_of(m) == i);
                            if is_child(u, d) {
                                assert(u == i);
                            } else {
                                assert(in_subtree(u, m));
                                lemma_subtree_step(u, m);
                            }
                        }
                    }
                    assert(ordered_pair(s0, u, i));
                    assert(ordered_pair(s0, u, m));
                } else {
                    assert(s2[d] == s0[d]);
                    assert(ordered_pair(s0, u, d));
                }
            }
        }
    }
}

/// After swapping the current node with a winning grandchild (and, where the
/// moved value upset its new parent, swapping once more), the trickle
/// invariant moves down to the grandchild's position.
pub proof fn lemma_trickle_gchild(
    s0: Seq<i64>,
    s2: Seq<i64>,
    pos: int,
    i: int,
    par: int,
    m: int,
    swapped: bool,
)
    requires
        0 <= pos <= i < s0.len(),
        0 <= m < s0.len(),
        s2.len() == s0.len(),
        in_subtree(pos, i),
        mm_local_in_except(s0, pos, i),
        anc_ordered_below(s0, pos, i),
        is_child(i, par),
        is_child(par, m),
        beats_descendants(s0, i, m),
        !best_for(s0, i, i, m),
        swapped <==> !best_for(s0, i, i, par),
        s2 == (if swapped {
            s0.update(i, s0[m]).update(m, s0[par]).update(par, s0[i])
        } else {
            s0.update(i, s0[m]).update(m, s0[i])
        }),
    ensures
        in_subtree(pos, m),
        in_subtree(i, m),
        i < m,
        on_min_level(m) == on_min_level(i),
        mm_local_in_except(s2, pos, m),
        anc_ordered_below(s2, pos, m),
{
    let n = s0.len() as int;
    lemma_parent_child(i, par);
    lemma_parent_child(par, m);
    lemma_child_subtree(i, par);
    lemma_child_subtree(par, m);
    lemma_subtree_trans(i, par, m);
    lemma_subtree_trans(pos, i, par);
    lemma_subtree_trans(pos, i, m);
    lemma_lvl_child(i, par);
    lemma_lvl_child(par, m);
    assert(is_grandchild(i, m));
    assert(in_subtree(i, i) && in_subtree(i, par) && in_subtree(i, m));
    // the subtree under par was fully ordered before the swaps
    assert forall|u: int| 0 <= u < n && #[trigger] in_subtree(par, u) implies node_down_ok(
        s0,
        u,
    ) by {
        lemma_subtree_bounds(par, u);
        lemma_subtree_trans(pos, par, u);
    }
    lemma_local_implies_global_in(s0, par);
    assert forall|d: int| 0 <= d < n && #[trigger] in_subtree(par, d) && d != par implies
        ordered_pair(s0, par, d) by {}
    assert forall|d: int| 0 <= d < n && #[trigger] in_subtree(m, d) && d != m implies ordered_pair(
        s0,
        m,
        d,
    ) by {
        lemma_subtree_trans(par, m, d);
        assert(forall|u: int|
            0 <= u < n && #[trigger] in_subtree(m, u) ==> in_subtree(par, u) && in_subtree(
                pos,
                u,
            )) by {
            assert forall|u: int| 0 <= u < n && #[trigger] in_subtree(m, u) implies in_subtree(
                par,
                u,
            ) && in_subtree(pos, u) by {
                lemma_subtree_trans(par, m, u);
                lemma_subtree_trans(pos, par, u);
            }
        }
        lemma_local_implies_global_in(s0, m);
    }
    // the new placement of the three moved values
    assert(s2[i] == s0[m]);
    assert(swapped ==> s2[m] == s0[par] && s2[par] == s0[i]);
    assert(!swapped ==> s2[m] == s0[i] && s2[par] == s0[par]);
    assert forall|u: int| 0 <= u < n && #[trigger] in_subtree(pos, u) && u != m implies
        node_down_ok(s2, u) by {
        assert forall|d: int|
            #![trigger is_child(u, d)]
            #![trigger is_grandchild(u, d)]
            0 <= d < n && (is_child(u, d) || is_grandchild(u, d)) implies ordered_pair(
            s2,
            u,
            d,
        ) by {
            if is_child(u, d) {
                lemma_parent_child(u, d);
                lemma_child_subtree(u, d);
                lemma_lvl_child(u, d);
            } else {
                let c = choose|c: int| #[trigger] is_child(u, c) && is_child(c, d);
                lemma_parent_child(u, c);
                lemma_parent_child(c, d);
                lemma_child_subtree(u, c);
                lemma_child_subtree(c, d);
                lemma_subtree_trans(u, c, d);
                lemma_lvl_grandchild(u, d);
            }
            if u == i {
                if d != m && d != par {
                    assert(s2[d] == s0[d]);
                }
            } else if u == par {
                assert(node_down_ok(s0, par));
                if d != m && d != par && d != i {
                    assert(s2[d] == s0[d]);
                    assert(ordered_pair(s0, par, d));
                }
                assert(d != i && d != par) by {
                    lemma_subtree_bounds(par, d);
                    if is_child(par, d) {
                        lemma_parent_child(par, d);
                    }
                }
                if d == m {
                    assert(ordered_pair(s0, par, m));
                }
            } else {
                assert(s2[u] == s0[u]);
                if d == i || d == m || d == par {
                    // u must be a proper ancestor of i
                    assert(in_subtree(u, i) && u != i) by {
                        if d == i {
                            if !is_child(u, d) {
                                lemma_subtree_step(u, i);
                            }
                        } else if d == par {
                            assert(parent_of(par) == i);
                            if is_child(u, d) {
                                assert(u == i);
                            } else {
                                assert(in_subtree(u, par));
                                lemma_subtree_step(u, par);
                            }
                        } else {
                            assert(parent_of(m) == par && parent_of(par) == i);
                            if is_child(u, d) {
                                assert(u == par);
                            } else {
                                assert(in_subtree(u, m));
                                lemma_subtree_step(u, m);
                                lemma_subtree_step(u, par);
                            }
                        }
                    }
                    assert(ordered_pair(s0, u, i));
                    assert(ordered_pair(s0, u, m));
                    assert(ordered_pair(s0, u, par));
                } else {
                    assert(s2[d] == s0[d]);
                    assert(ordered_pair(s0, u, d));
                }
            }
        }
    }
    // the ancestors of m order the whole subtree under m
    assert forall|a: int, d: int|
        #![trigger in_subtree(a, m), in_subtree(m, d)]
        in_subtree(pos, a) && in_subtree(a, m) && a != m && 0 <= d < n && in_subtree(
            m,
            d,
        ) implies ordered_pair(s2, a, d) by {
        lemma_subtree_bounds(m, d);
        lemma_subtree_bounds(pos, a);
        if a != par && a != i {
            lemma_subtree_step(a, m);
            lemma_subtree_step(a, par);
            assert(in_subtree(a, i) && a != i);
        }
        if a == i {
            if d != m && d != par {
                assert(s2[d] == s0[d]);
                assert(in_subtree(par, d)) by {
                    lemma_subtree_trans(par, m, d);
                }
                if d != par {
                    assert(ordered_pair(s0, par, d));
                    assert(ordered_pair(s0, m, d) || d == m);
                }
            }
        } else if a == par {
            if d != m && d != par {
                assert(s2[d] == s0[d]);
                assert(in_subtree(par, d)) by {
                    lemma_subtree_trans(par, m, d);
                }
                assert(ordered_pair(s0, par, d));
            }
            if d == m {
                assert(ordered_pair(s0, par, m));
            }
        } else {
            assert(ordered_pair(s0, a, i));
            assert(ordered_pair(s0, a, m));
            assert(ordered_pair(s0, a, par));
            if d != m && d != par {
                assert(s2[d] == s0[d]);
                assert(in_subtree(i, d)) by {
                    lemma_subtree_trans(i, m, d);
                }
                assert(ordered_pair(s0, a, d));
            }
        }
    }
}

// ---------------------------------------------------------------------------
// The bubble-up steps: a changed value climbs toward the root.
// ---------------------------------------------------------------------------

/// The state while a value climbs at `i`: every descendant pair is ordered
/// except those rooted at `i` or at `x`, and those descending to `i`. The
/// node at `x` still owes its subtree a downward repair; while nothing owes
/// one, `x` is `i` itself.
pub open spec fn mm_global_away2(s: Seq<i64>, i: int, x: int) -> bool {
    forall|a: int, d: int|
        0 <= a && 0 <= d < s.len() && #[trigger] in_subtree(a, d) && a != d && a != i && a != x
            && d != i ==> ordered_pair(s, a, d)
}

/// Node `i` orders its whole subtree.
pub open spec fn dominates_subtree(s: Seq<i64>, i: int) -> bool {
    forall|d: int|
        0 <= d < s.len() && #[trigger] in_subtree(i, d) && d != i ==> ordered_pair(s, i, d)
}

pub proof fn lemma_dominates_down_ok(s: Seq<i64>, i: int)
    requires
        0 <= i < s.len(),
        dominates_subtree(s, i),
    ensures
        node_down_ok(s, i),
{
    assert forall|d: int|
        #![trigger is_child(i, d)]
        #![trigger is_grandchild(i, d)]
        0 <= d < s.len() && (is_child(i, d) || is_grandchild(i, d)) implies ordered_pair(
        s,
        i,
        d,
    ) by {
        if is_child(i, d) {
            lemma_parent_child(i, d);
            lemma_child_subtree(i, d);
        } else {
            let c = choose|c: int| #[trigger] is_child(i, c) && is_child(c, d);
            lemma_parent_child(i, c);
            lemma_parent_child(c, d);
            lemma_child_subtree(i, c);
            lemma_child_subtree(c, d);
            lemma_subtree_trans(i, c, d);
        }
    }
}

/// A value that mis-orders its parent is exchanged with it before the climb:
/// the parent's old value comes to dominate the subtree it now roots, and
/// only the pairs rooted at `pos` (the repair it owes) and at the parent (the
/// climbing node) stay open.
pub proof fn lemma_bubble_parent_swap(s: Seq<i64>, s2: Seq<i64>, pos: int)
    requires
        1 <= pos < s.len(),
        s2.len() == s.len(),
        mm_global_away2(s, pos, pos),
        !ordered_pair(s, parent_of(pos), pos),
        s2 == s.update(pos, s[parent_of(pos)]).update(parent_of(pos), s[pos]),
    ensures
        mm_global_away2(s2, parent_of(pos), pos),
        dominates_subtree(s2, parent_of(pos)),
        parent_of(pos) >= 1 ==> ordered_pair(s2, parent_of(parent_of(pos)), parent_of(pos)),
        on_min_level(parent_of(pos)) == !on_min_level(pos),
{
    let par = parent_of(pos);
    lemma_child_parent(pos);
    lemma_child_subtree(par, pos);
    lemma_lvl_child(par, pos);
    assert forall|a: int, d: int|
        0 <= a && 0 <= d < s2.len() && #[trigger] in_subtree(a, d) && a != d && a != par && a
            != pos && d != par implies ordered_pair(s2, a, d) by {
        if d == pos {
            lemma_subtree_step(a, pos);
            assert(ordered_pair(s, a, par));
        } else {
            assert(s2[a] == s[a] && s2[d] == s[d]);
            assert(ordered_pair(s, a, d));
        }
    }
    assert forall|d: int| 0 <= d < s2.len() && #[trigger] in_subtree(par, d) && d != par implies
        ordered_pair(s2, par, d) by {
        if d != pos {
            assert(s2[d] == s[d]);
            assert(ordered_pair(s, par, d));
        }
    }
    if par >= 1 {
        let pp = parent_of(par);
        lemma_child_parent(par);
        lemma_child_subtree(pp, par);
        lemma_lvl_child(pp, par);
        assert(ordered_pair(s, pp, par));
    }
}

/// One climb step: the grandparent mis-orders the climbing value, so the two
/// are exchanged and the climb moves up. The grandparent's old value comes to
/// order the subtree it is lowered into, the parent bound moves up with the
/// climb, and dominance by the climbing value is kept.
pub proof fn lemma_bubble_step(s: Seq<i64>, s2: Seq<i64>, i: int, x: int)
    requires
        3 <= i < s.len(),
        s2.len() == s.len(),
        0 <= x < s.len(),
        in_subtree(i, x),
        mm_global_away2(s, i, x),
        !ordered_pair(s, parent_of(parent_of(i)), i),
        s2 == s.update(i, s[parent_of(parent_of(i))]).update(parent_of(parent_of(i)), s[i]),
    ensures
        ({
            let g = parent_of(parent_of(i));
            let x2 = if x == i {
                g
            } else {
                x
            };
            &&& 0 <= g < i
            &&& in_subtree(g, i)
            &&& in_subtree(g, x2)
            &&& on_min_level(g) == on_min_level(i)
            &&& mm_global_away2(s2, g, x2)
            &&& (g >= 1 ==> ordered_pair(s2, parent_of(g), g))
            &&& (dominates_subtree(s, i) ==> dominates_subtree(s2, g))
        }),
{
    let p = parent_of(i);
    let g = parent_of(p);
    let x2 = if x == i {
        g
    } else {
        x
    };
    lemma_child_parent(i);
    lemma_child_parent(p);
    lemma_parent_child(p, i);
    lemma_parent_child(g, p);
    lemma_child_subtree(p, i);
    lemma_child_subtree(g, p);
    lemma_subtree_trans(g, p, i);
    lemma_lvl_child(p, i);
    lemma_lvl_child(g, p);
    lemma_subtree_bounds(i, x);
    if x != i {
        lemma_subtree_trans(g, i, x);
    }
    assert forall|a: int, d: int|
        0 <= a && 0 <= d < s2.len() && #[trigger] in_subtree(a, d) && a != d && a != g && a != x2
            && d != g implies ordered_pair(s2, a, d) by {
        if a == i {
            lemma_subtree_trans(g, i, d);
            assert(ordered_pair(s, g, d));
            assert(s2[d] == s[d]);
        } else if d == i {
            if a == p {
                assert(ordered_pair(s, g, p));
            } else {
                lemma_subtree_step(a, i);
                lemma_subtree_step(a, p);
                lemma_subtree_bounds(a, g);
                assert(ordered_pair(s, a, g));
            }
        } else {
            assert(s2[a] == s[a] && s2[d] == s[d]);
            assert(ordered_pair(s, a, d));
        }
    }
    if g >= 1 {
        let pg = parent_of(g);
        lemma_child_parent(g);
        lemma_child_subtree(pg, g);
        lemma_lvl_child(pg, g);
        lemma_parent_child(pg, g);
        assert(ordered_pair(s, pg, g));
    }
    if dominates_subtree(s, i) {
        assert forall|d: int| 0 <= d < s2.len() && #[trigger] in_subtree(g, d) && d != g implies
            ordered_pair(s2, g, d) by {
            if d == i {
            } else if in_subtree(i, d) {
                lemma_subtree_bounds(i, d);
                assert(ordered_pair(s, i, d));
                assert(s2[d] == s[d]);
            } else {
                assert(ordered_pair(s, g, d));
                assert(s2[d] == s[d]);
            }
        }
    }
}

/// When the climb stops — no grandparent is left, or it orders the climbing
/// value — every node but the landing and the owing node is in order, and
/// every ancestor of the landing orders it.
pub proof fn lemma_bubble_stop(s: Seq<i64>, i: int, x: int)
    requires
        0 <= i < s.len(),
        0 <= x < s.len(),
        in_subtree(i, x),
        mm_global_away2(s, i, x),
        i >= 1 ==> ordered_pair(s, parent_of(i), i),
        i >= 3 ==> ordered_pair(s, parent_of(parent_of(i)), i),
    ensures
        forall|u: int| 0 <= u < s.len() && u != i && u != x ==> node_down_ok(s, u),
        forall|a: int|
            0 <= a && #[trigger] in_subtree(a, i) && a != i ==> ordered_pair(s, a, i),
{
    lemma_subtree_bounds(i, x);
    assert forall|a: int| 0 <= a && #[trigger] in_subtree(a, i) && a != i implies ordered_pair(
        s,
        a,
        i,
    ) by {
        lemma_subtree_step(a, i);
        let p = parent_of(i);
        lemma_lvl_child(p, i);
        if a != p {
            lemma_subtree_step(a, p);
            let g = parent_of(p);
            lemma_child_parent(p);
            lemma_lvl_child(g, p);
            if a != g {
                lemma_subtree_bounds(a, g);
                if on_min_level(a) == on_min_level(i) {
                    assert(ordered_pair(s, a, g));
                } else {
                    assert(ordered_pair(s, a, p));
                }
            }
        }
    }
    assert forall|u: int| 0 <= u < s.len() && u != i && u != x implies node_down_ok(s, u) by {
        assert forall|d: int|
            #![trigger is_child(u, d)]
            #![trigger is_grandchild(u, d)]
            0 <= d < s.len() && (is_child(u, d) || is_grandchild(u, d)) implies ordered_pair(
            s,
            u,
            d,
        ) by {
            if is_child(u, d) {
                lemma_parent_child(u, d);
                lemma_child_subtree(u, d);
            } else {
                let c = choose|c: int| #[trigger] is_child(u, c) && is_child(c, d);
                lemma_parent_child(u, c);
                lemma_parent_child(c, d);
                lemma_child_subtree(u, c);
                lemma_child_subtree(c, d);
                lemma_subtree_trans(u, c, d);
            }
            if d != i {
                assert(ordered_pair(s, u, d));
            }
        }
    }
}

/// After the climb settled everything but the subtree under `rt`, and that
/// subtree was repaired downward, the whole array is ordered: the repair only
/// rearranged values that `rt`'s ancestors already ordered.
pub proof fn lemma_glue_after_up(s_mid: Seq<i64>, s_new: Seq<i64>, rt: int)
    requires
        s_new.len() == s_mid.len(),
        0 <= rt < s_mid.len(),
        forall|u: int| 0 <= u < s_mid.len() && u != rt ==> node_down_ok(s_mid, u),
        forall|a: int|
            0 <= a && #[trigger] in_subtree(a, rt) && a != rt ==> (forall|q: int|
                0 <= q < s_mid.len() && #[trigger] in_subtree(rt, q) ==> ordered_pair(s_mid, a, q)),
        mm_local_in(s_new, rt),
        forall|q: int| 0 <= q < s_new.len() && !in_subtree(rt, q) ==> s_new[q] == s_mid[q],
        subtree_anchored(s_mid, s_new, rt),
    ensures
        mm_local(s_new),
{
    let n = s_new.len() as int;
    assert forall|u: int| 0 <= u < n implies #[trigger] node_down_ok(s_new, u) by {
        if in_subtree(rt, u) {
            assert(node_down_ok(s_new, u));
        } else {
            assert forall|d: int|
                #![trigger is_child(u, d)]
                #![trigger is_grandchild(u, d)]
                0 <= d < n && (is_child(u, d) || is_grandchild(u, d)) implies ordered_pair(
                s_new,
                u,
                d,
            ) by {
                if is_child(u, d) {
                    lemma_parent_child(u, d);
                    lemma_child_subtree(u, d);
                } else {
                    let c = choose|c: int| #[trigger] is_child(u, c) && is_child(c, d);
                    lemma_parent_child(u, c);
                    lemma_parent_child(c, d);
                    lemma_child_subtree(u, c);
                    lemma_child_subtree(c, d);
                    lemma_subtree_trans(u, c, d);
                }
                if !in_subtree(rt, d) {
                    assert(s_new[u] == s_mid[u] && s_new[d] == s_mid[d]);
                    assert(node_down_ok(s_mid, u));
                    assert(ordered_pair(s_mid, u, d));
                } else {
                    assert(in_subtree(u, rt) && u != rt) by {
                        if u <= rt {
                            lemma_subtree_chain(u, rt, d);
                        } else {
                            lemma_subtree_chain(rt, u, d);
                        }
                    }
                    assert(in_subtree(rt, rt));
                }
            }
        }
    }
}

/// Two subtrees rooted at distinct, unrelated positions do not overlap.
pub proof fn lemma_subtree_chain(a: int, b: int, d: int)
    requires
        in_subtree(a, d),
        in_subtree(b, d),
        a <= b,
    ensures
        in_subtree(a, b),
    decreases d,
{
    if b != d {
        lemma_subtree_bounds(b, d);
        lemma_subtree_chain(a, b, parent_of(d));
    }
}

/// An outside node `a` "anchors" the subtree under `rt` when, if `a`'s value
/// ordered every old value in the subtree, it also orders every new one.
/// This is how a repair step inside a subtree preserves what the ancestors
/// above it had established: it only permutes the subtree's values.
pub open spec fn subtree_anchored(s0: Seq<i64>, s1: Seq<i64>, rt: int) -> bool {
    forall|a: int|
        #![trigger in_subtree(rt, a)]
        0 <= a < s1.len() && !in_subtree(rt, a) && (forall|q: int|
            0 <= q < s0.len() && #[trigger] in_subtree(rt, q) ==> ordered_pair(s0, a, q)) ==> (
        forall|q: int|
            0 <= q < s1.len() && #[trigger] in_subtree(rt, q) ==> ordered_pair(s1, a, q))
}

pub proof fn lemma_anchored_refl(s0: Seq<i64>, rt: int)
    ensures
        subtree_anchored(s0, s0, rt),
{
}

/// A swap of two cells inside the subtree keeps it anchored: the outside
/// values are untouched and the subtree's values are only rearranged.
pub proof fn lemma_anchored_step(
    s0: Seq<i64>,
    s1: Seq<i64>,
    s2: Seq<i64>,
    rt: int,
    x: int,
    y: int,
)
    requires
        s0.len() == s1.len(),
        s2.len() == s1.len(),
        0 <= x < s1.len(),
        0 <= y < s1.len(),
        in_subtree(rt, x),
        in_subtree(rt, y),
        subtree_anchored(s0, s1, rt),
        forall|q: int| 0 <= q < s1.len() && !in_subtree(rt, q) ==> s1[q] == s0[q],
        s2 == s1.update(x, s1[y]).update(y, s1[x]),
    ensures
        subtree_anchored(s0, s2, rt),
{
    assert forall|a: int|
        #![trigger in_subtree(rt, a)]
        0 <= a < s2.len() && !in_subtree(rt, a) && (forall|q: int|
            0 <= q < s0.len() && #[trigger] in_subtree(rt, q) ==> ordered_pair(s0, a, q)) implies (
    forall|q: int|
        0 <= q < s2.len() && #[trigger] in_subtree(rt, q) ==> ordered_pair(s2, a, q)) by {
        assert forall|q: int|
            0 <= q < s2.len() && #[trigger] in_subtree(rt, q) implies ordered_pair(s2, a, q) by {
            let src = if q == x {
                y
            } else if q == y {
                x
            } else {
                q
            };
            assert(s2[q] == s1[src]);
            assert(in_subtree(rt, src));
            assert(ordered_pair(s1, a, src));
            assert(s2[a] == s1[a]);
        }
    }
}

/// After an extremum was removed (its position refilled with the last value)
/// and the subtree under that position repaired, the whole array is ordered
/// again. The position is the root or one of its children.
#[verifier::rlimit(100)]
pub proof fn lemma_glue_after_pop(s_old: Seq<i64>, s_mid: Seq<i64>, s_new: Seq<i64>, pos: int)
    requires
        mm_global(s_old),
        s_old.len() >= 2,
        s_mid.len() == s_old.len() - 1,
        s_new.len() == s_mid.len(),
        0 <= pos < s_mid.len(),
        pos <= 2,
        forall|q: int| 0 <= q < s_mid.len() && q != pos ==> s_mid[q] == s_old[q],
        s_mid[pos] == s_old[s_old.len() - 1],
        mm_local_in(s_new, pos),
        forall|q: int| 0 <= q < s_new.len() && !in_subtree(pos, q) ==> s_new[q] == s_mid[q],
        subtree_anchored(s_mid, s_new, pos),
    ensures
        mm_local(s_new),
{
    let n = s_new.len() as int;
    let last = s_old.len() - 1;
    lemma_global_implies_local(s_old);
    assert forall|u: int| 0 <= u < n implies node_down_ok(s_new, u) by {
        if in_subtree(pos, u) {
            assert(node_down_ok(s_new, u));
        } else if u == 0 {
            // the root still bounds the repaired subtree: it bounded every
            // old value there, and the subtree only rearranged them
            assert forall|q: int|
                0 <= q < s_mid.len() && #[trigger] in_subtree(pos, q) implies ordered_pair(
                s_mid,
                0,
                q,
            ) by {
                lemma_subtree_bounds(pos, q);
                lemma_root_reaches_all(q);
                lemma_root_reaches_all(last);
                assert(q != 0);
                if q != pos {
                    assert(ordered_pair(s_old, 0, q));
                } else {
                    assert(ordered_pair(s_old, 0, last));
                }
            }
            assert(in_subtree(pos, pos));
            assert forall|q: int|
                0 <= q < s_new.len() && #[trigger] in_subtree(pos, q) implies ordered_pair(
                s_new,
                0,
                q,
            ) by {}
            assert forall|d: int|
                #![trigger is_child(0, d)]
                #![trigger is_grandchild(0, d)]
                0 <= d < n && (is_child(0, d) || is_grandchild(0, d)) implies ordered_pair(
                s_new,
                0,
                d,
            ) by {
                if is_child(0, d) {
                    lemma_parent_child(0, d);
                    lemma_child_subtree(0, d);
                } else {
                    let c = choose|c: int| #[trigger] is_child(0, c) && is_child(c, d);
                    lemma_parent_child(0, c);
                    lemma_parent_child(c, d);
                    lemma_child_subtree(0, c);
                    lemma_child_subtree(c, d);
                    lemma_subtree_trans(0, c, d);
                }
                if !in_subtree(pos, d) {
                    assert(s_new[d] == s_mid[d] && s_mid[d] == s_old[d]);
                    assert(ordered_pair(s_old, 0, d));
                }
            }
        } else {
            // a node outside the repaired subtree and below the root: its
            // whole subtree is disjoint from the repaired one
            assert forall|d: int|
                #![trigger is_child(u, d)]
                #![trigger is_grandchild(u, d)]
                0 <= d < n && (is_child(u, d) || is_grandchild(u, d)) implies ordered_pair(
                s_new,
                u,
                d,
            ) by {
                if is_child(u, d) {
                    lemma_parent_child(u, d);
                    lemma_child_subtree(u, d);
                } else {
                    let c = choose|c: int| #[trigger] is_child(u, c) && is_child(c, d);
                    lemma_parent_child(u, c);
                    lemma_parent_child(c, d);
                    lemma_child_subtree(u, c);
                    lemma_child_subtree(c, d);
                    lemma_subtree_trans(u, c, d);
                }
                assert(!in_subtree(pos, d)) by {
                    if in_subtree(pos, d) {
                        if pos <= u {
                            lemma_subtree_chain(pos, u, d);
                        } else {
                            lemma_subtree_chain(u, pos, d);
                            lemma_subtree_bounds(u, pos);
                            assert(u >= 1 && pos == 2 && u == 1);
                            assert(in_subtree(1, 2) == false);
                        }
                    }
                }
                assert(s_new[d] == s_mid[d] && s_mid[d] == s_old[d]);
                assert(s_new[u] == s_mid[u] && s_mid[u] == s_old[u]);
                assert(ordered_pair(s_old, u, d));
            }
        }
    }
}

// ---------------------------------------------------------------------------
// Executable index arithmetic.
// ---------------------------------------------------------------------------

/// The heap position of the left child.
pub fn left(i: usize) -> (r: usize)
    requires
        2 * i + 1 <= usize::MAX,
    ensures
        r == left_of(i as int),
{
    2 * i + 1
}

/// The heap position of the right child.
pub fn right(i: usize) -> (r: usize)
    requires
        2 * i + 2 <= usize::MAX,
    ensures
        r == right_of(i as int),
{
    2 * i + 2
}

/// The heap position of the parent.
pub fn parent(i: usize) -> (r: usize)
    requires
        i >= 1,
    ensures
        r == parent_of(i as int),
{
    (i - 1) / 2
}

/// The depth of position `i` in the tree.
pub fn level(i: usize) -> (r: usize)
    ensures
        r == lvl(i as int),
{
    let mut p: usize = i;
    let mut r: usize = 0;
    proof {
        lemma_lvl_le(i as int);
    }
    while p > 0
        invariant
            lvl(i as int) == lvl(p as int) + r,
            r <= lvl(i as int),
            lvl(i as int) <= i <= usize::MAX,
        decreases p,
    {
        proof {
            lemma_lvl_le(p as int);
        }
        p = (p - 1) / 2;
        r = r + 1;
    }
    r
}

/// The floor of the base-two logarithm: the depth of position `x - 1`.
pub fn log2_fast(x: usize) -> (r: usize)
    requires
        x >= 1,
    ensures
        r == lvl(x as int - 1),
{
    let mut v: usize = x;
    let mut r: usize = 0;
    proof {
        lemma_lvl_le(x as int - 1);
    }
    while v > 1
        invariant
            1 <= v <= x,
            lvl(x as int - 1) == lvl(v as int - 1) + r,
            r <= lvl(x as int - 1),
            lvl(x as int - 1) <= x,
        decreases v,
    {
        proof {
            lemma_lvl_le(v as int - 1);
            assert(parent_of(v as int - 1) == v as int / 2 - 1);
        }
        v = v / 2;
        r = r + 1;
    }
    r
}

/// Whether a bulk insertion of `len2` entries into a heap of `len1` should
/// rebuild from scratch (about `2 (len1 + len2)` comparisons) rather than push
/// one by one (about `len2 log2(len1)` comparisons).
pub open spec fn rebuild_is_better(len1: int, len2: int) -> bool {
    len1 > 1 && 2 * (len1 + len2) < len2 * lvl(len1 - 1)
}

pub fn better_to_rebuild(len1: usize, len2: usize) -> (r: bool)
    ensures
        r == rebuild_is_better(len1 as int, len2 as int),
{
    if len1 <= 1 {
        return false;
    }
    let lg = log2_fast(len1);
    let lhs: u128 = 2 * ((len1 as u128) + (len2 as u128));
    proof {
        assert(len2 as int <= u64::MAX && lg as int <= u64::MAX);
        assert((len2 as int) * (lg as int) <= u128::MAX) by (nonlinear_arith)
            requires
                len2 as int <= u64::MAX && lg as int <= u64::MAX,
        ;
    }
    let rhs: u128 = (len2 as u128) * (lg as u128);
    lhs < rhs
}

// ---------------------------------------------------------------------------
// Extremum positions of a min-max heap.
// ---------------------------------------------------------------------------

/// The root of an ordered heap holds a minimal priority.
pub proof fn lemma_root_is_min(s: Seq<i64>)
    requires
        mm_global(s),
        s.len() > 0,
    ensures
        forall|d: int| 0 <= d < s.len() ==> s[0] <= #[trigger] s[d],
{
    assert forall|d: int| 0 <= d < s.len() implies s[0] <= #[trigger] s[d] by {
        if d != 0 {
            lemma_root_reaches_all(d);
            assert(ordered_pair(s, 0, d));
        }
    }
}

/// In an ordered heap of three or more entries, each entry is bounded by the
/// larger of the root's two children.
pub proof fn lemma_max_at_children(s: Seq<i64>)
    requires
        mm_global(s),
        s.len() >= 3,
    ensures
        forall|d: int|
            0 <= d < s.len() ==> #[trigger] s[d] <= (if s[1] >= s[2] {
                s[1]
            } else {
                s[2]
            }),
{
    let m = if s[1] >= s[2] {
        s[1]
    } else {
        s[2]
    };
    assert(lvl(0) == 0);
    assert(parent_of(1) == 0 && parent_of(2) == 0);
    assert(lvl(1) == 1);
    assert(lvl(2) == 1);
    lemma_root_is_min(s);
    assert forall|d: int| 0 <= d < s.len() implies #[trigger] s[d] <= m by {
        if d >= 1 {
            lemma_under_one_or_two(d);
            if in_subtree(1, d) {
                if d != 1 {
                    assert(ordered_pair(s, 1, d));
                }
            } else {
                if d != 2 {
                    assert(ordered_pair(s, 2, d));
                }
            }
        }
    }
}

} // verus!
