//! The queue engine: a double-ended priority queue of unique
//! `(item, priority)` pairs, kept as a min-max heap over the storage engine.
//! The minimum sits at the root; the maximum at one of the root's children.

use crate::heapshape::in_subtree;
use crate::heapshape::is_child;
use crate::heapshape::is_grandchild;
use crate::heapshape::level;
use crate::heapshape::parent_of;
use crate::heapshape::better_to_rebuild;
use crate::heapshape::dominates_subtree;
use crate::heapshape::mm_global_away2;
use crate::heapshape::lemma_bubble_parent_swap;
use crate::heapshape::lemma_bubble_step;
use crate::heapshape::lemma_bubble_stop;
use crate::heapshape::lemma_child_parent;
use crate::heapshape::lemma_dominates_down_ok;
use crate::heapshape::lemma_glue_after_up;
use crate::heapshape::lemma_lvl_child;
use crate::heapshape::lemma_child_subtree;
use crate::heapshape::lemma_grandchild_range;
use crate::heapshape::lemma_glue_after_pop;
use crate::heapshape::lemma_global_implies_local;
use crate::heapshape::lemma_subtree_chain;
use crate::heapshape::lemma_local_implies_global;
use crate::heapshape::lemma_max_at_children;
use crate::heapshape::lemma_parent_child;
use crate::heapshape::lemma_root_is_min;
use crate::heapshape::lemma_subtree_bounds;
use crate::heapshape::lemma_subtree_trans;
use crate::heapshape::anc_ordered_below;
use crate::heapshape::beats_descendants;
use crate::heapshape::best_for;
use crate::heapshape::lemma_anchored_refl;
use crate::heapshape::lemma_anchored_step;
use crate::heapshape::subtree_anchored;
use crate::heapshape::lemma_trickle_child;
use crate::heapshape::lemma_trickle_gchild;
use crate::heapshape::lemma_trickle_stop;
use crate::heapshape::mm_global;
use crate::heapshape::mm_local;
use crate::heapshape::mm_local_in;
use crate::heapshape::mm_local_in_except;
use crate::heapshape::node_down_ok;
use crate::heapshape::on_min_level;
use crate::heapshape::ordered_pair;
use crate::imap::distinct_keys;
use crate::imap::has_key;
use crate::imap::key_index;
use crate::imap::lemma_key_index;
use crate::imap::lemma_key_index_unique;
use crate::imap::new_hasher_state;
use crate::store::Store;
use std::collections::hash_map::RandomState;
use vstd::prelude::*;

verus! {

/// A double-ended priority queue with unique items, `O(1)` access to both
/// extrema and `O(log n)` keyed priority changes.
pub struct DoublePriorityQueue {
    store: Store,
}

impl DoublePriorityQueue {
    /// The `(item, priority)` entries in slot order: the queue's contents.
    pub closed spec fn entries(self) -> Seq<(Seq<char>, i64)> {
        self.store.entries()
    }

    /// The `(item, priority)` pairs in heap-position order.
    pub closed spec fn pairs(self) -> Seq<(Seq<char>, i64)> {
        self.store.pairs()
    }

    /// The priorities in heap-position order.
    pub closed spec fn prios(self) -> Seq<i64> {
        self.store.prios()
    }

    pub closed spec fn len_spec(self) -> nat {
        self.store.len_spec()
    }

    /// The structural half of the invariant: the map, the shape array and
    /// the position table agree (`shape[position[s]] == s` for every slot).
    pub closed spec fn shape_wf(self) -> bool {
        self.store.wf_struct()
    }

    /// The ordering half of the invariant: every node at even depth is at
    /// most its whole subtree, every node at odd depth at least its subtree.
    pub closed spec fn heap_ordered(self) -> bool {
        mm_global(self.store.prios())
    }

    /// The queue's invariant, established by every constructor and kept by
    /// every public operation.
    pub open spec fn wf(self) -> bool {
        self.shape_wf() && self.heap_ordered()
    }

    /// Whether some entry holds the item `k`.
    pub open spec fn contains_key(self, k: Seq<char>) -> bool {
        has_key(self.entries(), k)
    }

    /// The priority stored for the item `k` (meaningful when present).
    pub open spec fn priority_of(self, k: Seq<char>) -> i64 {
        self.entries()[key_index(self.entries(), k)].1
    }

    /// The heap position at which the maximum resides.
    pub closed spec fn max_pos(self) -> int {
        if self.len_spec() <= 1 {
            0
        } else if self.len_spec() == 2 {
            1
        } else if self.prios()[1] >= self.prios()[2] {
            1
        } else {
            2
        }
    }

    // -----------------------------------------------------------------------
    // Constructors.
    // -----------------------------------------------------------------------

    /// An empty queue with the given capacity and hasher.
    pub fn with_capacity_and_hasher(capacity: usize, hash_builder: RandomState) -> (q: Self)
        ensures
            q.wf(),
            q.len_spec() == 0,
            q.entries() == Seq::<(Seq<char>, i64)>::empty(),
    {
        let q = DoublePriorityQueue { store: Store::with_capacity_and_hasher(capacity, hash_builder) };
        proof {
            q.store.lemma_wf_facts();
            assert(q.entries() =~= Seq::<(Seq<char>, i64)>::empty());
        }
        q
    }

    /// An empty queue with the given hasher.
    pub fn with_hasher(hash_builder: RandomState) -> (q: Self)
        ensures
            q.wf(),
            q.len_spec() == 0,
            q.entries() == Seq::<(Seq<char>, i64)>::empty(),
    {
        Self::with_capacity_and_hasher(0, hash_builder)
    }

    /// An empty queue with the given capacity and a default hasher.
    pub fn with_capacity_and_default_hasher(capacity: usize) -> (q: Self)
        ensures
            q.wf(),
            q.len_spec() == 0,
            q.entries() == Seq::<(Seq<char>, i64)>::empty(),
    {
        Self::with_capacity_and_hasher(capacity, new_hasher_state())
    }

    /// An empty queue with a default hasher.
    pub fn with_default_hasher() -> (q: Self)
        ensures
            q.wf(),
            q.len_spec() == 0,
            q.entries() == Seq::<(Seq<char>, i64)>::empty(),
    {
        Self::with_capacity_and_default_hasher(0)
    }

    /// An empty queue with the given capacity.
    pub fn with_capacity(capacity: usize) -> (q: Self)
        ensures
            q.wf(),
            q.len_spec() == 0,
            q.entries() == Seq::<(Seq<char>, i64)>::empty(),
    {
        Self::with_capacity_and_default_hasher(capacity)
    }

    /// An empty queue.
    pub fn new() -> (q: Self)
        ensures
            q.wf(),
            q.len_spec() == 0,
            q.entries() == Seq::<(Seq<char>, i64)>::empty(),
    {
        Self::with_capacity(0)
    }

    // -----------------------------------------------------------------------
    // Size and capacity.
    // -----------------------------------------------------------------------

    /// The number of entries in the queue.
    pub fn len(&self) -> (n: usize)
        requires
            self.wf(),
        ensures
            n == self.len_spec(),
    {
        self.store.len()
    }

    /// Whether the queue holds no entries.
    pub fn is_empty(&self) -> (b: bool)
        requires
            self.wf(),
        ensures
            b == (self.len_spec() == 0),
    {
        self.store.len() == 0
    }

    /// How many entries the backing map can hold without reallocating.
    pub fn capacity(&self) -> (n: usize)
        ensures
            n >= self.len_spec(),
    {
        self.store.capacity()
    }

    /// Reserve room for at least `additional` more entries.
    pub fn reserve(&mut self, additional: usize)
        requires
            old(self).wf(),
            old(self).len_spec() + additional <= usize::MAX,
        ensures
            final(self).wf(),
            final(self).entries() == old(self).entries(),
            final(self).pairs() == old(self).pairs(),
    {
        self.store.reserve(additional);
    }

    /// Shrink the backing structures as far as possible; the contents and the
    /// heap order are untouched, so a second call changes nothing further.
    pub fn shrink_to_fit(&mut self)
        requires
            old(self).wf(),
        ensures
            final(self).wf(),
            final(self).entries() == old(self).entries(),
            final(self).pairs() == old(self).pairs(),
    {
        self.store.shrink_to_fit();
    }

    /// Drop every entry.
    pub fn clear(&mut self)
        requires
            old(self).wf(),
        ensures
            final(self).wf(),
            final(self).len_spec() == 0,
            final(self).entries() == Seq::<(Seq<char>, i64)>::empty(),
    {
        self.store.clear();
        proof {
            self.store.lemma_wf_facts();
        }
    }

    // -----------------------------------------------------------------------
    // Keyed access.
    // -----------------------------------------------------------------------

    /// The priority of `item`, if it is in the queue.
    pub fn get_priority(&self, item: &str) -> (r: Option<i64>)
        requires
            self.wf(),
        ensures
            match r {
                Some(v) => self.contains_key(item@) && v == self.priority_of(item@),
                None => !self.contains_key(item@),
            },
    {
        match self.store.index_of(item) {
            Some(t) => Some(self.store.val_at_slot(t)),
            None => None,
        }
    }

    /// The `(item, priority)` entry for `item`, if it is in the queue.
    pub fn get(&self, item: &str) -> (r: Option<(String, i64)>)
        requires
            self.wf(),
        ensures
            match r {
                Some(p) => self.contains_key(item@) && p.0@ == item@ && p.1 == self.priority_of(
                    item@,
                ),
                None => !self.contains_key(item@),
            },
    {
        match self.store.index_of(item) {
            Some(t) => {
                let k = self.store.key_at_slot(t).clone();
                Some((k, self.store.val_at_slot(t)))
            },
            None => None,
        }
    }
}

impl Default for DoublePriorityQueue {
    /// An empty queue.
    fn default() -> (q: Self)
        ensures
            q.wf(),
            q.len_spec() == 0,
            q.entries() == Seq::<(Seq<char>, i64)>::empty(),
    {
        Self::new()
    }
}

// ---------------------------------------------------------------------------
// Heap maintenance: candidate search and heapify.
// ---------------------------------------------------------------------------

/// The child or grandchild of `i` with the least priority (all that exist).
fn best_descendant_min(st: &Store, i: usize, n: usize) -> (m: usize)
    requires
        st.wf_struct(),
        n == st.len_spec(),
        n >= 2,
        i <= (n - 2) / 2,
    ensures
        i < m < n,
        is_child(i as int, m as int) || is_grandchild(i as int, m as int),
        forall|d: int|
            #![trigger is_child(i as int, d)]
            #![trigger is_grandchild(i as int, d)]
            0 <= d < n && (is_child(i as int, d) || is_grandchild(i as int, d)) ==> st.prios()[m
                as int] <= st.prios()[d],
{
    let l = 2 * i + 1;
    let r = 2 * i + 2;
    let mut m = l;
    if r < n && st.priority_at(r) < st.priority_at(m) {
        m = r;
    }
    if l <= (n - 2) / 2 {
        let ll = 2 * l + 1;
        if st.priority_at(ll) < st.priority_at(m) {
            m = ll;
        }
        let lr = 2 * l + 2;
        if lr < n && st.priority_at(lr) < st.priority_at(m) {
            m = lr;
        }
    }
    if r < n && r <= (n - 2) / 2 {
        let rl = 2 * r + 1;
        if st.priority_at(rl) < st.priority_at(m) {
            m = rl;
        }
        let rr = 2 * r + 2;
        if rr < n && st.priority_at(rr) < st.priority_at(m) {
            m = rr;
        }
    }
    proof {
        assert(is_child(i as int, l as int));
        assert forall|d: int|
            #![trigger is_child(i as int, d)]
            #![trigger is_grandchild(i as int, d)]
            0 <= d < n && (is_child(i as int, d) || is_grandchild(i as int, d)) implies st.prios()[m
            as int] <= st.prios()[d] by {
            lemma_grandchild_range(i as int, d);
            if is_grandchild(i as int, m as int) {
                lemma_grandchild_range(i as int, m as int);
            }
        }
        if m > l {
            lemma_grandchild_range(i as int, m as int);
        }
    }
    m
}

impl DoublePriorityQueue {
    /// Sink the value at the min-level position `pos` until the subtree under
    /// `pos` satisfies the min-max conditions again. Everything else in the
    /// subtree is assumed ordered; positions outside it are untouched.
    #[verifier::rlimit(100)]
    fn heapify_min(&mut self, pos: usize)
        requires
            old(self).store.wf_struct(),
            old(self).store.len_spec() >= 2,
            pos < old(self).store.len_spec(),
            on_min_level(pos as int),
            mm_local_in_except(old(self).store.prios(), pos as int, pos as int),
        ensures
            final(self).store.wf_struct(),
            final(self).store.entries() == old(self).store.entries(),
            final(self).store.len_spec() == old(self).store.len_spec(),
            mm_local_in(final(self).store.prios(), pos as int),
            forall|q: int|
                0 <= q < old(self).store.len_spec() && !in_subtree(pos as int, q)
                    ==> final(self).store.pairs()[q] == old(self).store.pairs()[q],
            forall|q: int|
                0 <= q < old(self).store.len_spec() && !in_subtree(pos as int, q)
                    ==> final(self).store.prios()[q] == old(self).store.prios()[q],
            subtree_anchored(old(self).store.prios(), final(self).store.prios(), pos as int),
            node_down_ok(old(self).store.prios(), pos as int) ==> *final(self) == *old(self),
    {
        let ghost o = *self;
        let n = self.store.len();
        let mut i = pos;
        let mut done = false;
        proof {
            self.store.lemma_wf_facts();
            lemma_anchored_refl(o.store.prios(), pos as int);
            assert forall|a: int, d: int|
                #![trigger in_subtree(a, pos as int), in_subtree(pos as int, d)]
                in_subtree(pos as int, a) && in_subtree(a, pos as int) && a != pos as int && 0 <= d
                    < n && in_subtree(pos as int, d) implies ordered_pair(
                self.store.prios(),
                a,
                d,
            ) by {
                lemma_subtree_bounds(pos as int, a);
                lemma_subtree_bounds(a, pos as int);
            }
            assert(anc_ordered_below(self.store.prios(), pos as int, pos as int));
        }
        while !done && i <= (n - 2) / 2
            invariant
                self.store.wf_struct(),
                n == self.store.len_spec(),
                n >= 2,
                o.store.len_spec() == n,
                o.store.pairs().len() == n,
                o.store.prios().len() == n,
                self.store.entries() == o.store.entries(),
                pos <= i < n,
                on_min_level(pos as int),
                in_subtree(pos as int, i as int),
                on_min_level(i as int),
                !done ==> mm_local_in_except(self.store.prios(), pos as int, i as int),
                !done ==> anc_ordered_below(self.store.prios(), pos as int, i as int),
                forall|q: int|
                    0 <= q < n && !in_subtree(pos as int, q) ==> self.store.pairs()[q]
                        == o.store.pairs()[q],
                forall|q: int|
                    0 <= q < n && !in_subtree(pos as int, q) ==> self.store.prios()[q]
                        == o.store.prios()[q],
                subtree_anchored(o.store.prios(), self.store.prios(), pos as int),
                node_down_ok(o.store.prios(), pos as int) ==> (*self == o && i == pos),
                done ==> mm_local_in(self.store.prios(), pos as int),
            decreases n - i + (if done {
                0int
            } else {
                1int
            }),
        {
            let ghost st0 = self.store;
            let ghost s0 = self.store.prios();
            proof {
                self.store.lemma_wf_facts();
            }
            let m = best_descendant_min(&self.store, i, n);
            proof {
                if is_child(i as int, m as int) {
                    lemma_parent_child(i as int, m as int);
                    lemma_child_subtree(i as int, m as int);
                } else {
                    let c = choose|c: int|
                        #[trigger] is_child(i as int, c) && is_child(c, m as int);
                    lemma_parent_child(i as int, c);
                    lemma_parent_child(c, m as int);
                    lemma_child_subtree(i as int, c);
                    lemma_child_subtree(c, m as int);
                    lemma_subtree_trans(i as int, c, m as int);
                }
                lemma_subtree_trans(pos as int, i as int, m as int);
                assert forall|d: int|
                    #![trigger is_child(i as int, d)]
                    #![trigger is_grandchild(i as int, d)]
                    0 <= d < n && (is_child(i as int, d) || is_grandchild(i as int, d))
                    implies best_for(s0, i as int, m as int, d) by {}
                assert(beats_descendants(s0, i as int, m as int));
            }
            let pi = self.store.priority_at(i);
            let pm = self.store.priority_at(m);
            if pm < pi {
                proof {
                    assert(!best_for(s0, i as int, i as int, m as int));
                    if node_down_ok(o.store.prios(), pos as int) {
                        assert(*self == o && i == pos);
                        assert(ordered_pair(s0, pos as int, m as int));
                        assert(false);
                    }
                }
                self.store.swap(m, i);
                let ghost st1 = self.store;
                proof {
                    st1.lemma_wf_facts();
                    lemma_anchored_step(
                        o.store.prios(),
                        s0,
                        st1.prios(),
                        pos as int,
                        m as int,
                        i as int,
                    );
                }
                if m > 2 * i + 2 {
                    // the winner was a grandchild: settle the displaced value
                    // against its new parent and continue from the winner's
                    // position
                    let par = (m - 1) / 2;
                    proof {
                        lemma_grandchild_range(i as int, m as int);
                        let c = choose|c: int|
                            #[trigger] is_child(i as int, c) && is_child(c, m as int);
                        lemma_parent_child(c, m as int);
                        assert(par as int == c);
                        lemma_parent_child(i as int, par as int);
                        lemma_child_subtree(i as int, par as int);
                        lemma_child_subtree(par as int, m as int);
                        lemma_subtree_trans(pos as int, i as int, par as int);
                        lemma_subtree_trans(i as int, par as int, m as int);
                        lemma_subtree_trans(pos as int, i as int, m as int);
                    }
                    let pv = self.store.priority_at(m);
                    let pw = self.store.priority_at(par);
                    if pv > pw {
                        self.store.swap(m, par);
                        proof {
                            self.store.lemma_wf_facts();
                            lemma_anchored_step(
                                o.store.prios(),
                                st1.prios(),
                                self.store.prios(),
                                pos as int,
                                m as int,
                                par as int,
                            );
                        }
                    }
                    proof {
                        let s2 = self.store.prios();
                        assert(pv == s0[i as int] && pw == s0[par as int]);
                        assert((pv > pw) <==> !best_for(s0, i as int, i as int, par as int));
                        if pv > pw {
                            assert(s2 =~= s0.update(i as int, s0[m as int]).update(
                                m as int,
                                s0[par as int],
                            ).update(par as int, s0[i as int]));
                        } else {
                            assert(s2 =~= s0.update(i as int, s0[m as int]).update(
                                m as int,
                                s0[i as int],
                            ));
                        }
                        lemma_trickle_gchild(
                            s0,
                            s2,
                            pos as int,
                            i as int,
                            par as int,
                            m as int,
                            pv > pw,
                        );
                    }
                    i = m;
                } else {
                    proof {
                        let s2 = self.store.prios();
                        assert(is_child(i as int, m as int)) by {
                            if is_grandchild(i as int, m as int) {
                                lemma_grandchild_range(i as int, m as int);
                            }
                        }
                        assert(s2 =~= s0.update(i as int, s0[m as int]).update(
                            m as int,
                            s0[i as int],
                        ));
                        lemma_trickle_child(s0, s2, pos as int, i as int, m as int);
                    }
                    done = true;
                }
            } else {
                proof {
                    assert forall|d: int|
                        #![trigger is_child(i as int, d)]
                        #![trigger is_grandchild(i as int, d)]
                        0 <= d < n && (is_child(i as int, d) || is_grandchild(i as int, d))
                        implies best_for(s0, i as int, i as int, d) by {}
                    lemma_trickle_stop(s0, pos as int, i as int);
                }
                done = true;
            }
        }
        proof {
            self.store.lemma_wf_facts();
            if !done {
                assert forall|d: int|
                    #![trigger is_child(i as int, d)]
                    #![trigger is_grandchild(i as int, d)]
                    0 <= d < n && (is_child(i as int, d) || is_grandchild(i as int, d))
                    implies best_for(self.store.prios(), i as int, i as int, d) by {
                    lemma_grandchild_range(i as int, d);
                    assert(false);
                }
                lemma_trickle_stop(self.store.prios(), pos as int, i as int);
            }
        }
    }
}

impl DoublePriorityQueue {
    /// Sink the value at the max-level position `pos` until the subtree under
    /// `pos` satisfies the min-max conditions again. Everything else in the
    /// subtree is assumed ordered; positions outside it are untouched.
    #[verifier::rlimit(100)]
    fn heapify_max(&mut self, pos: usize)
        requires
            old(self).store.wf_struct(),
            old(self).store.len_spec() >= 2,
            pos < old(self).store.len_spec(),
            !on_min_level(pos as int),
            mm_local_in_except(old(self).store.prios(), pos as int, pos as int),
        ensures
            final(self).store.wf_struct(),
            final(self).store.entries() == old(self).store.entries(),
            final(self).store.len_spec() == old(self).store.len_spec(),
            mm_local_in(final(self).store.prios(), pos as int),
            forall|q: int|
                0 <= q < old(self).store.len_spec() && !in_subtree(pos as int, q)
                    ==> final(self).store.pairs()[q] == old(self).store.pairs()[q],
            forall|q: int|
                0 <= q < old(self).store.len_spec() && !in_subtree(pos as int, q)
                    ==> final(self).store.prios()[q] == old(self).store.prios()[q],
            subtree_anchored(old(self).store.prios(), final(self).store.prios(), pos as int),
            node_down_ok(old(self).store.prios(), pos as int) ==> *final(self) == *old(self),
    {
        let ghost o = *self;
        let n = self.store.len();
        let mut i = pos;
        let mut done = false;
        proof {
            self.store.lemma_wf_facts();
            lemma_anchored_refl(o.store.prios(), pos as int);
            assert forall|a: int, d: int|
                #![trigger in_subtree(a, pos as int), in_subtree(pos as int, d)]
                in_subtree(pos as int, a) && in_subtree(a, pos as int) && a != pos as int && 0 <= d
                    < n && in_subtree(pos as int, d) implies ordered_pair(
                self.store.prios(),
                a,
                d,
            ) by {
                lemma_subtree_bounds(pos as int, a);
                lemma_subtree_bounds(a, pos as int);
            }
            assert(anc_ordered_below(self.store.prios(), pos as int, pos as int));
        }
        while !done && i <= (n - 2) / 2
            invariant
                self.store.wf_struct(),
                n == self.store.len_spec(),
                n >= 2,
                o.store.len_spec() == n,
                o.store.pairs().len() == n,
                o.store.prios().len() == n,
                self.store.entries() == o.store.entries(),
                pos <= i < n,
                !on_min_level(pos as int),
                in_subtree(pos as int, i as int),
                !on_min_level(i as int),
                !done ==> mm_local_in_except(self.store.prios(), pos as int, i as int),
                !done ==> anc_ordered_below(self.store.prios(), pos as int, i as int),
                forall|q: int|
                    0 <= q < n && !in_subtree(pos as int, q) ==> self.store.pairs()[q]
                        == o.store.pairs()[q],
                forall|q: int|
                    0 <= q < n && !in_subtree(pos as int, q) ==> self.store.prios()[q]
                        == o.store.prios()[q],
                subtree_anchored(o.store.prios(), self.store.prios(), pos as int),
                node_down_ok(o.store.prios(), pos as int) ==> (*self == o && i == pos),
                done ==> mm_local_in(self.store.prios(), pos as int),
            decreases n - i + (if done {
                0int
            } else {
                1int
            }),
        {
            let ghost st0 = self.store;
            let ghost s0 = self.store.prios();
            proof {
                self.store.lemma_wf_facts();
            }
            let m = best_descendant_max(&self.store, i, n);
            proof {
                if is_child(i as int, m as int) {
                    lemma_parent_child(i as int, m as int);
                    lemma_child_subtree(i as int, m as int);
                } else {
                    let c = choose|c: int|
                        #[trigger] is_child(i as int, c) && is_child(c, m as int);
                    lemma_parent_child(i as int, c);
                    lemma_parent_child(c, m as int);
                    lemma_child_subtree(i as int, c);
                    lemma_child_subtree(c, m as int);
                    lemma_subtree_trans(i as int, c, m as int);
                }
                lemma_subtree_trans(pos as int, i as int, m as int);
                assert forall|d: int|
                    #![trigger is_child(i as int, d)]
                    #![trigger is_grandchild(i as int, d)]
                    0 <= d < n && (is_child(i as int, d) || is_grandchild(i as int, d))
                    implies best_for(s0, i as int, m as int, d) by {}
                assert(beats_descendants(s0, i as int, m as int));
            }
            let pi = self.store.priority_at(i);
            let pm = self.store.priority_at(m);
            if pm > pi {
                proof {
                    assert(!best_for(s0, i as int, i as int, m as int));
                    if node_down_ok(o.store.prios(), pos as int) {
                        assert(*self == o && i == pos);
                        assert(ordered_pair(s0, pos as int, m as int));
                        assert(false);
                    }
                }
                self.store.swap(m, i);
                let ghost st1 = self.store;
                proof {
                    st1.lemma_wf_facts();
                    lemma_anchored_step(
                        o.store.prios(),
                        s0,
                        st1.prios(),
                        pos as int,
                        m as int,
                        i as int,
                    );
                }
                if m > 2 * i + 2 {
                    // the winner was a grandchild: settle the displaced value
                    // against its new parent and continue from the winner's
                    // position
                    let par = (m - 1) / 2;
                    proof {
                        lemma_grandchild_range(i as int, m as int);
                        let c = choose|c: int|
                            #[trigger] is_child(i as int, c) && is_child(c, m as int);
                        lemma_parent_child(c, m as int);
                        assert(par as int == c);
                        lemma_parent_child(i as int, par as int);
                        lemma_child_subtree(i as int, par as int);
                        lemma_child_subtree(par as int, m as int);
                        lemma_subtree_trans(pos as int, i as int, par as int);
                        lemma_subtree_trans(i as int, par as int, m as int);
                        lemma_subtree_trans(pos as int, i as int, m as int);
                    }
                    let pv = self.store.priority_at(m);
                    let pw = self.store.priority_at(par);
                    if pv < pw {
                        self.store.swap(m, par);
                        proof {
                            self.store.lemma_wf_facts();
                            lemma_anchored_step(
                                o.store.prios(),
                                st1.prios(),
                                self.store.prios(),
                                pos as int,
                                m as int,
                                par as int,
                            );
                        }
                    }
                    proof {
                        let s2 = self.store.prios();
                        assert(pv == s0[i as int] && pw == s0[par as int]);
                        assert((pv < pw) <==> !best_for(s0, i as int, i as int, par as int));
                        if pv < pw {
                            assert(s2 =~= s0.update(i as int, s0[m as int]).update(
                                m as int,
                                s0[par as int],
                            ).update(par as int, s0[i as int]));
                        } else {
                            assert(s2 =~= s0.update(i as int, s0[m as int]).update(
                                m as int,
                                s0[i as int],
                            ));
                        }
                        lemma_trickle_gchild(
                            s0,
                            s2,
                            pos as int,
                            i as int,
                            par as int,
                            m as int,
                            pv < pw,
                        );
                    }
                    i = m;
                } else {
                    proof {
                        let s2 = self.store.prios();
                        assert(is_child(i as int, m as int)) by {
                            if is_grandchild(i as int, m as int) {
                                lemma_grandchild_range(i as int, m as int);
                            }
                        }
                        assert(s2 =~= s0.update(i as int, s0[m as int]).update(
                            m as int,
                            s0[i as int],
                        ));
                        lemma_trickle_child(s0, s2, pos as int, i as int, m as int);
                    }
                    done = true;
                }
            } else {
                proof {
                    assert forall|d: int|
                        #![trigger is_child(i as int, d)]
                        #![trigger is_grandchild(i as int, d)]
                        0 <= d < n && (is_child(i as int, d) || is_grandchild(i as int, d))
                        implies best_for(s0, i as int, i as int, d) by {}
                    lemma_trickle_stop(s0, pos as int, i as int);
                }
                done = true;
            }
        }
        proof {
            self.store.lemma_wf_facts();
            if !done {
                assert forall|d: int|
                    #![trigger is_child(i as int, d)]
                    #![trigger is_grandchild(i as int, d)]
                    0 <= d < n && (is_child(i as int, d) || is_grandchild(i as int, d))
                    implies best_for(self.store.prios(), i as int, i as int, d) by {
                    lemma_grandchild_range(i as int, d);
                    assert(false);
                }
                lemma_trickle_stop(self.store.prios(), pos as int, i as int);
            }
        }
    }
}

impl DoublePriorityQueue {
    /// Climb the value at `start` toward the root two levels at a time,
    /// swapping with the grandparent while it mis-orders the value, and
    /// return the landing position. `x0` names the node that still owes its
    /// subtree a downward repair (`start` itself when nothing does); in that
    /// case the landing inherits the debt.
    fn bubble_up(&mut self, start: usize, going_min: bool, Ghost(x0): Ghost<int>) -> (landing:
        usize)
        requires
            old(self).store.wf_struct(),
            start < old(self).store.len_spec(),
            going_min == on_min_level(start as int),
            0 <= x0 < old(self).store.len_spec(),
            in_subtree(start as int, x0),
            mm_global_away2(old(self).store.prios(), start as int, x0),
            start >= 1 ==> ordered_pair(
                old(self).store.prios(),
                parent_of(start as int),
                start as int,
            ),
        ensures
            final(self).store.wf_struct(),
            final(self).store.entries() == old(self).store.entries(),
            final(self).store.len_spec() == old(self).store.len_spec(),
            landing <= start,
            in_subtree(landing as int, start as int),
            in_subtree(landing as int, x0),
            ({
                let xl = if x0 == start as int {
                    landing as int
                } else {
                    x0
                };
                let sp = final(self).store.prios();
                &&& mm_global_away2(sp, landing as int, xl)
                &&& (forall|u: int|
                    0 <= u < sp.len() && u != landing as int && u != xl ==> node_down_ok(sp, u))
                &&& (forall|a: int|
                    0 <= a && #[trigger] in_subtree(a, landing as int) && a != landing as int
                        ==> ordered_pair(sp, a, landing as int))
                &&& (dominates_subtree(old(self).store.prios(), start as int)
                    ==> dominates_subtree(sp, landing as int))
            }),
    {
        let n = self.store.len();
        let ghost o = *self;
        let mut i = start;
        let ghost mut xc: int = x0;
        let mut done = false;
        proof {
            self.store.lemma_wf_facts();
        }
        while !done && i >= 3
            invariant
                self.store.wf_struct(),
                n == self.store.len_spec(),
                self.store.entries() == o.store.entries(),
                o.store.prios().len() == n,
                i <= start < n,
                going_min == on_min_level(i as int),
                in_subtree(i as int, start as int),
                in_subtree(start as int, x0),
                0 <= xc < n,
                x0 == start as int ==> xc == i as int,
                x0 != start as int ==> xc == x0,
                in_subtree(i as int, xc),
                mm_global_away2(self.store.prios(), i as int, xc),
                i >= 1 ==> ordered_pair(self.store.prios(), parent_of(i as int), i as int),
                dominates_subtree(o.store.prios(), start as int) ==> dominates_subtree(
                    self.store.prios(),
                    i as int,
                ),
                done ==> (i < 3 || ordered_pair(
                    self.store.prios(),
                    parent_of(parent_of(i as int)),
                    i as int,
                )),
            decreases i + (if done {
                0int
            } else {
                1int
            }),
        {
            let p = (i - 1) / 2;
            let g = (p - 1) / 2;
            proof {
                self.store.lemma_wf_facts();
                assert(p as int == parent_of(i as int));
                assert(g as int == parent_of(parent_of(i as int)));
                lemma_child_parent(i as int);
                lemma_child_parent(p as int);
                lemma_parent_child(p as int, i as int);
                lemma_parent_child(g as int, p as int);
                lemma_lvl_child(p as int, i as int);
                lemma_lvl_child(g as int, p as int);
            }
            let pg = self.store.priority_at(g);
            let pi = self.store.priority_at(i);
            let viol = if going_min {
                pg > pi
            } else {
                pg < pi
            };
            if viol {
                let ghost s0 = self.store.prios();
                proof {
                    assert(!ordered_pair(s0, g as int, i as int));
                }
                self.store.swap(i, g);
                proof {
                    self.store.lemma_wf_facts();
                    let s2 = self.store.prios();
                    assert(s2 =~= s0.update(i as int, s0[g as int]).update(
                        g as int,
                        s0[i as int],
                    ));
                    lemma_bubble_step(s0, s2, i as int, xc);
                    lemma_child_subtree(g as int, p as int);
                    lemma_child_subtree(p as int, i as int);
                    lemma_subtree_trans(g as int, p as int, i as int);
                    lemma_subtree_trans(g as int, i as int, start as int);
                    lemma_subtree_bounds(start as int, x0);
                    if x0 != start as int {
                        assert(xc != i as int);
                        lemma_subtree_trans(g as int, i as int, xc);
                    } else {
                        xc = g as int;
                    }
                }
                i = g;
            } else {
                done = true;
            }
        }
        proof {
            self.store.lemma_wf_facts();
            lemma_bubble_stop(self.store.prios(), i as int, xc);
        }
        i
    }

    /// Repair the heap after the value at heap position `pos` changed: one
    /// opposite-polarity check against the parent, a same-polarity
    /// grandparent climb, then a downward repair of the one subtree that
    /// still owes it. Costs O(log n).
    fn up_heapify(&mut self, pos: usize)
        requires
            old(self).store.wf_struct(),
            pos < old(self).store.len_spec(),
            mm_global_away2(old(self).store.prios(), pos as int, pos as int),
        ensures
            final(self).store.wf_struct(),
            final(self).store.entries() == old(self).store.entries(),
            final(self).store.len_spec() == old(self).store.len_spec(),
            mm_global(final(self).store.prios()),
    {
        proof {
            self.store.lemma_wf_facts();
        }
        let pos_min = level(pos) % 2 == 0;
        let viol = if pos >= 1 {
            let par = (pos - 1) / 2;
            proof {
                assert(par as int == parent_of(pos as int));
                lemma_child_parent(pos as int);
                lemma_parent_child(par as int, pos as int);
                lemma_lvl_child(par as int, pos as int);
            }
            let vp = self.store.priority_at(pos);
            let vpar = self.store.priority_at(par);
            if pos_min {
                vp > vpar
            } else {
                vp < vpar
            }
        } else {
            false
        };
        if viol {
            let par = (pos - 1) / 2;
            let ghost s0 = self.store.prios();
            proof {
                assert(par as int == parent_of(pos as int));
                lemma_child_parent(pos as int);
                lemma_parent_child(par as int, pos as int);
                lemma_child_subtree(par as int, pos as int);
                lemma_lvl_child(par as int, pos as int);
                assert(!ordered_pair(s0, par as int, pos as int));
            }
            self.store.swap(pos, par);
            let ghost s2 = self.store.prios();
            proof {
                self.store.lemma_wf_facts();
                assert(s2 =~= s0.update(pos as int, s0[parent_of(pos as int)]).update(
                    parent_of(pos as int),
                    s0[pos as int],
                ));
                lemma_bubble_parent_swap(s0, s2, pos as int);
            }
            let landing = self.bubble_up(par, !pos_min, Ghost(pos as int));
            let ghost smid = self.store.prios();
            proof {
                self.store.lemma_wf_facts();
                let l = landing as int;
                assert(dominates_subtree(smid, l));
                lemma_dominates_down_ok(smid, l);
                assert forall|u: int|
                    0 <= u < smid.len() && u != pos as int implies node_down_ok(smid, u) by {}
                assert forall|a: int|
                    0 <= a && #[trigger] in_subtree(a, pos as int) && a != pos as int implies (
                forall|q: int|
                    0 <= q < smid.len() && #[trigger] in_subtree(pos as int, q) ==> ordered_pair(
                        smid,
                        a,
                        q,
                    )) by {
                    assert forall|q: int|
                        0 <= q < smid.len() && #[trigger] in_subtree(pos as int, q) implies
                        ordered_pair(smid, a, q) by {
                        lemma_subtree_bounds(a, pos as int);
                        lemma_subtree_bounds(pos as int, q);
                        if a == l {
                            lemma_subtree_trans(l, pos as int, q);
                        } else {
                            lemma_subtree_trans(a, pos as int, q);
                            lemma_subtree_bounds(l, pos as int);
                        }
                    }
                }
            }
            self.heapify(pos);
            proof {
                self.store.lemma_wf_facts();
                lemma_glue_after_up(smid, self.store.prios(), pos as int);
                lemma_local_implies_global(self.store.prios());
            }
        } else {
            let landing = self.bubble_up(pos, pos_min, Ghost(pos as int));
            let ghost smid = self.store.prios();
            proof {
                self.store.lemma_wf_facts();
                let l = landing as int;
                assert forall|u: int|
                    0 <= u < smid.len() && u != l implies node_down_ok(smid, u) by {}
                assert forall|a: int|
                    0 <= a && #[trigger] in_subtree(a, l) && a != l implies (forall|q: int|
                    0 <= q < smid.len() && #[trigger] in_subtree(l, q) ==> ordered_pair(
                        smid,
                        a,
                        q,
                    )) by {
                    assert forall|q: int|
                        0 <= q < smid.len() && #[trigger] in_subtree(l, q) implies ordered_pair(
                        smid,
                        a,
                        q,
                    ) by {
                        lemma_subtree_bounds(a, l);
                        lemma_subtree_bounds(l, q);
                        if q != l {
                            lemma_subtree_trans(a, l, q);
                        }
                    }
                }
            }
            self.heapify(landing);
            proof {
                self.store.lemma_wf_facts();
                lemma_glue_after_up(smid, self.store.prios(), landing as int);
                lemma_local_implies_global(self.store.prios());
            }
        }
    }
}

impl DoublePriorityQueue {
    /// Repair the subtree under `pos` after its root's value changed.
    fn heapify(&mut self, pos: usize)
        requires
            old(self).store.wf_struct(),
            pos < old(self).store.len_spec(),
            mm_local_in_except(old(self).store.prios(), pos as int, pos as int),
        ensures
            final(self).store.wf_struct(),
            final(self).store.entries() == old(self).store.entries(),
            final(self).store.len_spec() == old(self).store.len_spec(),
            mm_local_in(final(self).store.prios(), pos as int),
            forall|q: int|
                0 <= q < old(self).store.len_spec() && !in_subtree(pos as int, q)
                    ==> final(self).store.pairs()[q] == old(self).store.pairs()[q],
            forall|q: int|
                0 <= q < old(self).store.len_spec() && !in_subtree(pos as int, q)
                    ==> final(self).store.prios()[q] == old(self).store.prios()[q],
            subtree_anchored(old(self).store.prios(), final(self).store.prios(), pos as int),
            node_down_ok(old(self).store.prios(), pos as int) ==> *final(self) == *old(self),
    {
        let n = self.store.len();
        if n <= 1 {
            proof {
                self.store.lemma_wf_facts();
                lemma_anchored_refl(self.store.prios(), pos as int);
                assert forall|u: int|
                    0 <= u < n && #[trigger] in_subtree(pos as int, u) implies node_down_ok(
                    self.store.prios(),
                    u,
                ) by {
                    lemma_subtree_bounds(pos as int, u);
                    assert forall|d: int|
                        #![trigger is_child(u, d)]
                        #![trigger is_grandchild(u, d)]
                        0 <= d < n && (is_child(u, d) || is_grandchild(u, d)) implies ordered_pair(
                        self.store.prios(),
                        u,
                        d,
                    ) by {
                        lemma_grandchild_range(u, d);
                        assert(false);
                    }
                }
            }
            return ;
        }
        if level(pos) % 2 == 0 {
            self.heapify_min(pos);
        } else {
            self.heapify_max(pos);
        }
    }

    /// Rebuild the heap order from arbitrary shape-array contents, walking
    /// from the last internal node down to the root. On an already ordered
    /// queue this changes nothing, so a second call in a row is a no-op.
    pub fn heap_build(&mut self)
        requires
            old(self).shape_wf(),
        ensures
            final(self).wf(),
            final(self).entries() == old(self).entries(),
            final(self).len_spec() == old(self).len_spec(),
            final(self).pairs().to_multiset() == old(self).pairs().to_multiset(),
            old(self).wf() ==> *final(self) == *old(self),
    {
        let ghost o = *self;
        let n = self.store.len();
        proof {
            self.store.lemma_wf_facts();
            o.store.lemma_pairs_permutation();
            if o.wf() {
                lemma_global_implies_local(o.store.prios());
            }
        }
        if n == 0 {
            proof {
                assert(mm_global(self.store.prios()));
            }
            return ;
        }
        let mut k: usize = (n - 1) / 2 + 1;
        while k > 0
            invariant
                self.store.wf_struct(),
                n == self.store.len_spec(),
                n >= 1,
                o.store.len_spec() == n,
                o.store.prios().len() == n,
                self.store.entries() == o.store.entries(),
                k <= (n - 1) / 2 + 1,
                forall|u: int|
                    k <= u < n ==> #[trigger] node_down_ok(self.store.prios(), u),
                mm_local(o.store.prios()) ==> *self == o,
            decreases k,
        {
            k = k - 1;
            let ghost st0 = self.store;
            proof {
                self.store.lemma_wf_facts();
                assert forall|u: int|
                    0 <= u < n && #[trigger] in_subtree(k as int, u) && u != k as int implies
                    node_down_ok(self.store.prios(), u) by {
                    lemma_subtree_bounds(k as int, u);
                }
            }
            self.heapify(k);
            proof {
                self.store.lemma_wf_facts();
                assert forall|u: int| k <= u < n implies #[trigger] node_down_ok(
                    self.store.prios(),
                    u,
                ) by {
                    if in_subtree(k as int, u) {
                        assert(node_down_ok(self.store.prios(), u));
                    } else {
                        assert forall|d: int|
                            #![trigger is_child(u, d)]
                            #![trigger is_grandchild(u, d)]
                            0 <= d < n && (is_child(u, d) || is_grandchild(u, d)) implies
                            ordered_pair(self.store.prios(), u, d) by {
                            if is_child(u, d) {
                                lemma_parent_child(u, d);
                                lemma_child_subtree(u, d);
                            } else {
                                let c = choose|c: int|
                                    #[trigger] is_child(u, c) && is_child(c, d);
                                lemma_parent_child(u, c);
                                lemma_parent_child(c, d);
                                lemma_child_subtree(u, c);
                                lemma_child_subtree(c, d);
                                lemma_subtree_trans(u, c, d);
                            }
                            assert(!in_subtree(k as int, d)) by {
                                if in_subtree(k as int, d) {
                                    lemma_subtree_chain(k as int, u, d);
                                }
                            }
                            assert(node_down_ok(st0.prios(), u));
                            assert(self.store.prios()[d] == st0.prios()[d]);
                            assert(self.store.prios()[u] == st0.prios()[u]);
                            assert(ordered_pair(st0.prios(), u, d));
                        }
                    }
                }
                if mm_local(o.store.prios()) {
                    assert(st0 == o.store);
                    assert(node_down_ok(o.store.prios(), k as int));
                }
            }
        }
        proof {
            self.store.lemma_wf_facts();
            assert forall|u: int| 0 <= u < n implies #[trigger] node_down_ok(
                self.store.prios(),
                u,
            ) by {}
            lemma_local_implies_global(self.store.prios());
            self.store.lemma_pairs_permutation();
        }
    }

    /// The heap position holding the maximum.
    fn find_max_pos(&self) -> (p: usize)
        requires
            self.wf(),
            self.len_spec() > 0,
        ensures
            p as int == self.max_pos(),
            p < self.len_spec(),
            p <= 2,
            forall|j: int|
                0 <= j < self.entries().len() ==> #[trigger] self.entries()[j].1 <= self.prios()[p
                    as int],
    {
        proof {
            self.store.lemma_wf_facts();
        }
        let n = self.store.len();
        let p = if n <= 2 {
            if n == 1 {
                0
            } else {
                1
            }
        } else {
            if self.store.priority_at(1) >= self.store.priority_at(2) {
                1
            } else {
                2
            }
        };
        proof {
            lemma_root_is_min(self.store.prios());
            if n >= 3 {
                lemma_max_at_children(self.store.prios());
            }
            assert forall|j: int| 0 <= j < self.entries().len() implies #[trigger] self.entries()[j].1
                <= self.prios()[p as int] by {
                self.store.lemma_slot_prio(j);
            }
        }
        p
    }

    /// The entry with the least priority, or nothing on an empty queue.
    pub fn peek_min(&self) -> (r: Option<(String, i64)>)
        requires
            self.wf(),
        ensures
            match r {
                Some(p) => {
                    &&& self.len_spec() > 0
                    &&& (p.0@, p.1) == self.pairs()[0]
                    &&& self.contains_key(p.0@)
                    &&& p.1 == self.priority_of(p.0@)
                    &&& forall|j: int|
                        0 <= j < self.entries().len() ==> p.1 <= #[trigger] self.entries()[j].1
                },
                None => self.len_spec() == 0,
            },
    {
        if self.store.len() == 0 {
            return None;
        }
        proof {
            self.store.lemma_wf_facts();
            lemma_root_is_min(self.store.prios());
            assert forall|j: int| 0 <= j < self.entries().len() implies self.prios()[0]
                <= #[trigger] self.entries()[j].1 by {
                self.store.lemma_slot_prio(j);
            }
            assert(self.store.pairs()[0] == self.store.pair_at(0));
            assert(self.store.pairs()[0] == self.store.entries()[self.store.shape()[0] as int]);
            lemma_key_index_unique(
                self.store.entries(),
                self.store.pair_at(0).0,
                self.store.shape()[0] as int,
            );
        }
        let k = self.store.key_at(0).clone();
        let v = self.store.priority_at(0);
        Some((k, v))
    }

    /// The entry with the greatest priority, or nothing on an empty queue.
    pub fn peek_max(&self) -> (r: Option<(String, i64)>)
        requires
            self.wf(),
        ensures
            match r {
                Some(p) => {
                    &&& self.len_spec() > 0
                    &&& (p.0@, p.1) == self.pairs()[self.max_pos()]
                    &&& self.contains_key(p.0@)
                    &&& p.1 == self.priority_of(p.0@)
                    &&& forall|j: int|
                        0 <= j < self.entries().len() ==> p.1 >= #[trigger] self.entries()[j].1
                },
                None => self.len_spec() == 0,
            },
    {
        if self.store.len() == 0 {
            return None;
        }
        let pos = self.find_max_pos();
        proof {
            self.store.lemma_wf_facts();
            assert(self.store.pairs()[pos as int] == self.store.pair_at(pos as int));
            assert(self.store.pairs()[pos as int] == self.store.entries()[self.store.shape()[pos as int] as int]);
            lemma_key_index_unique(
                self.store.entries(),
                self.store.pair_at(pos as int).0,
                self.store.shape()[pos as int] as int,
            );
        }
        let k = self.store.key_at(pos).clone();
        let v = self.store.priority_at(pos);
        Some((k, v))
    }

    /// Remove and return the entry with the least priority.
    pub fn pop_min(&mut self) -> (r: Option<(String, i64)>)
        requires
            old(self).wf(),
        ensures
            final(self).wf(),
            match r {
                Some(p) => {
                    &&& old(self).len_spec() > 0
                    &&& (p.0@, p.1) == old(self).pairs()[0]
                    &&& old(self).contains_key(p.0@)
                    &&& p.1 == old(self).priority_of(p.0@)
                    &&& forall|j: int|
                        0 <= j < old(self).entries().len() ==> p.1 <= #[trigger] old(
                            self,
                        ).entries()[j].1
                    &&& final(self).len_spec() == old(self).len_spec() - 1
                    &&& exists|j: int|
                        0 <= j < old(self).entries().len() && #[trigger] old(self).entries()[j]
                            == (p.0@, p.1) && final(self).entries() == old(self).entries().update(
                            j,
                            old(self).entries()[old(self).entries().len() - 1],
                        ).take(old(self).entries().len() - 1)
                },
                None => old(self).len_spec() == 0 && *final(self) == *old(self),
            },
    {
        let n = self.store.len();
        if n == 0 {
            return None;
        }
        proof {
            self.store.lemma_wf_facts();
            lemma_root_is_min(self.store.prios());
            assert forall|j: int| 0 <= j < self.entries().len() implies self.prios()[0]
                <= #[trigger] self.entries()[j].1 by {
                self.store.lemma_slot_prio(j);
            }
            assert(self.store.pairs()[0] == self.store.pair_at(0));
            assert(self.store.pairs()[0] == self.store.entries()[self.store.shape()[0] as int]);
            lemma_key_index_unique(
                self.store.entries(),
                self.store.pair_at(0).0,
                self.store.shape()[0] as int,
            );
        }
        let ghost oq = *self;
        let r = self.store.swap_remove(0);
        proof {
            self.store.lemma_wf_facts();
        }
        let n2 = self.store.len();
        if n2 > 0 {
            let ghost mid = self.store.prios();
            proof {
                lemma_global_implies_local(oq.store.prios());
                assert forall|u: int|
                    0 <= u < n2 && #[trigger] in_subtree(0, u) && u != 0 implies node_down_ok(
                    self.store.prios(),
                    u,
                ) by {
                    assert forall|d: int|
                        #![trigger is_child(u, d)]
                        #![trigger is_grandchild(u, d)]
                        0 <= d < n2 && (is_child(u, d) || is_grandchild(u, d)) implies ordered_pair(
                        self.store.prios(),
                        u,
                        d,
                    ) by {
                        if is_child(u, d) {
                            lemma_parent_child(u, d);
                        } else {
                            let c = choose|c: int| #[trigger] is_child(u, c) && is_child(c, d);
                            lemma_parent_child(u, c);
                            lemma_parent_child(c, d);
                        }
                        assert(node_down_ok(oq.store.prios(), u));
                        assert(mid[u] == oq.store.prios()[u]);
                        assert(mid[d] == oq.store.prios()[d]);
                        assert(ordered_pair(oq.store.prios(), u, d));
                    }
                }
                assert(mm_local_in_except(self.store.prios(), 0, 0));
            }
            self.heapify(0);
            proof {
                self.store.lemma_wf_facts();
                assert(oq.store.prios().len() == n as int);
                assert(mid.len() == n - 1);
                assert(forall|q: int| 0 <= q < mid.len() && q != 0 ==> mid[q] == oq.store.prios()[q]);
                assert(mid[0] == oq.store.prios()[n - 1]);
                lemma_glue_after_pop(oq.store.prios(), mid, self.store.prios(), 0);
                lemma_local_implies_global(self.store.prios());
            }
        } else {
            proof {
                assert(mm_global(self.store.prios()));
            }
        }
        proof {
            assert(oq.store.entries()[oq.store.shape()[0] as int] == (r.0@, r.1));
        }
        Some(r)
    }

    /// Remove and return the entry with the greatest priority.
    pub fn pop_max(&mut self) -> (r: Option<(String, i64)>)
        requires
            old(self).wf(),
        ensures
            final(self).wf(),
            match r {
                Some(p) => {
                    &&& old(self).len_spec() > 0
                    &&& (p.0@, p.1) == old(self).pairs()[old(self).max_pos()]
                    &&& old(self).contains_key(p.0@)
                    &&& p.1 == old(self).priority_of(p.0@)
                    &&& forall|j: int|
                        0 <= j < old(self).entries().len() ==> p.1 >= #[trigger] old(
                            self,
                        ).entries()[j].1
                    &&& final(self).len_spec() == old(self).len_spec() - 1
                    &&& exists|j: int|
                        0 <= j < old(self).entries().len() && #[trigger] old(self).entries()[j]
                            == (p.0@, p.1) && final(self).entries() == old(self).entries().update(
                            j,
                            old(self).entries()[old(self).entries().len() - 1],
                        ).take(old(self).entries().len() - 1)
                },
                None => old(self).len_spec() == 0 && *final(self) == *old(self),
            },
    {
        let n = self.store.len();
        if n == 0 {
            return None;
        }
        let pos = self.find_max_pos();
        proof {
            self.store.lemma_wf_facts();
            assert(self.store.pairs()[pos as int] == self.store.pair_at(pos as int));
            assert(self.store.pairs()[pos as int] == self.store.entries()[self.store.shape()[pos as int] as int]);
            lemma_key_index_unique(
                self.store.entries(),
                self.store.pair_at(pos as int).0,
                self.store.shape()[pos as int] as int,
            );
        }
        let ghost oq = *self;
        let r = self.store.swap_remove(pos);
        proof {
            self.store.lemma_wf_facts();
        }
        let n2 = self.store.len();
        if pos < n2 {
            let ghost mid = self.store.prios();
            proof {
                lemma_global_implies_local(oq.store.prios());
                assert forall|u: int|
                    0 <= u < n2 && #[trigger] in_subtree(pos as int, u) && u != pos as int implies
                    node_down_ok(self.store.prios(), u) by {
                    lemma_subtree_bounds(pos as int, u);
                    assert forall|d: int|
                        #![trigger is_child(u, d)]
                        #![trigger is_grandchild(u, d)]
                        0 <= d < n2 && (is_child(u, d) || is_grandchild(u, d)) implies ordered_pair(
                        self.store.prios(),
                        u,
                        d,
                    ) by {
                        if is_child(u, d) {
                            lemma_parent_child(u, d);
                        } else {
                            let c = choose|c: int| #[trigger] is_child(u, c) && is_child(c, d);
                            lemma_parent_child(u, c);
                            lemma_parent_child(c, d);
                        }
                        assert(node_down_ok(oq.store.prios(), u));
                        assert(mid[u] == oq.store.prios()[u]);
                        assert(mid[d] == oq.store.prios()[d]);
                        assert(ordered_pair(oq.store.prios(), u, d));
                    }
                }
                assert(mm_local_in_except(self.store.prios(), pos as int, pos as int));
            }
            self.heapify(pos);
            proof {
                self.store.lemma_wf_facts();
                assert(oq.store.prios().len() == n as int);
                assert(mid.len() == n - 1);
                assert(forall|q: int|
                    0 <= q < mid.len() && q != pos as int ==> mid[q] == oq.store.prios()[q]);
                assert(mid[pos as int] == oq.store.prios()[n - 1]);
                lemma_glue_after_pop(oq.store.prios(), mid, self.store.prios(), pos as int);
                lemma_local_implies_global(self.store.prios());
            }
        } else {
            proof {
                assert forall|a: int, d: int|
                    0 <= a && 0 <= d < self.store.prios().len() && #[trigger] in_subtree(a, d) && a
                        != d implies ordered_pair(self.store.prios(), a, d) by {
                    lemma_subtree_bounds(a, d);
                    assert(self.store.prios()[a] == oq.store.prios()[a]);
                    assert(self.store.prios()[d] == oq.store.prios()[d]);
                    assert(ordered_pair(oq.store.prios(), a, d));
                }
            }
        }
        proof {
            assert(oq.store.entries()[oq.store.shape()[pos as int] as int] == (r.0@, r.1));
        }
        Some(r)
    }
}

impl DoublePriorityQueue {
    /// Insert the item with the given priority; an item already present keeps
    /// its slot, has its priority replaced, and the old priority is returned.
    /// The heap is repaired with the O(log n) climb.
    pub fn push(&mut self, item: String, priority: i64) -> (r: Option<i64>)
        requires
            old(self).wf(),
            old(self).len_spec() < usize::MAX,
        ensures
            final(self).wf(),
            old(self).contains_key(item@) ==> r == Some(old(self).priority_of(item@))
                && final(self).entries() == old(self).entries().update(
                key_index(old(self).entries(), item@),
                (item@, priority),
            ),
            !old(self).contains_key(item@) ==> r == None::<i64> && final(self).entries() == old(
                self,
            ).entries().push((item@, priority)),
    {
        proof {
            self.store.lemma_wf_facts();
        }
        match self.store.index_of(item.as_str()) {
            Some(t) => {
                let oldp = self.store.val_at_slot(t);
                proof {
                    lemma_key_index(self.store.entries(), item@);
                }
                self.store.set_prio_at_slot(t, priority);
                let p = self.store.position_of_slot(t);
                proof {
                    self.store.lemma_wf_facts();
                    let sp = self.store.prios();
                    let op = old(self).store.prios();
                    assert forall|a: int, d: int|
                        0 <= a && 0 <= d < sp.len() && #[trigger] in_subtree(a, d) && a != d && a
                            != p as int && d != p as int implies ordered_pair(sp, a, d) by {
                        lemma_subtree_bounds(a, d);
                        assert(sp[a] == op[a] && sp[d] == op[d]);
                        assert(ordered_pair(op, a, d));
                    }
                }
                self.up_heapify(p);
                Some(oldp)
            },
            None => {
                let p = self.store.len();
                self.store.push_new(item, priority);
                proof {
                    self.store.lemma_wf_facts();
                    let sp = self.store.prios();
                    let op = old(self).store.prios();
                    assert forall|a: int, d: int|
                        0 <= a && 0 <= d < sp.len() && #[trigger] in_subtree(a, d) && a != d && a
                            != p as int && d != p as int implies ordered_pair(sp, a, d) by {
                        lemma_subtree_bounds(a, d);
                        assert(sp[a] == op[a] && sp[d] == op[d]);
                        assert(ordered_pair(op, a, d));
                    }
                }
                self.up_heapify(p);
                None
            },
        }
    }

    /// Insert, or raise the priority of an existing item; a new priority not
    /// above the stored one is rejected and handed back unchanged.
    pub fn push_increase(&mut self, item: String, priority: i64) -> (r: Option<i64>)
        requires
            old(self).wf(),
            old(self).len_spec() < usize::MAX,
        ensures
            final(self).wf(),
            !old(self).contains_key(item@) ==> r == None::<i64> && final(self).entries() == old(
                self,
            ).entries().push((item@, priority)),
            old(self).contains_key(item@) && priority > old(self).priority_of(item@) ==> r == Some(
                old(self).priority_of(item@),
            ) && final(self).entries() == old(self).entries().update(
                key_index(old(self).entries(), item@),
                (item@, priority),
            ),
            old(self).contains_key(item@) && priority <= old(self).priority_of(item@) ==> r
                == Some(priority) && *final(self) == *old(self),
    {
        let keep = match self.get_priority(item.as_str()) {
            None => false,
            Some(p) => priority <= p,
        };
        if keep {
            Some(priority)
        } else {
            self.push(item, priority)
        }
    }

    /// Insert, or lower the priority of an existing item; a new priority not
    /// below the stored one is rejected and handed back unchanged.
    pub fn push_decrease(&mut self, item: String, priority: i64) -> (r: Option<i64>)
        requires
            old(self).wf(),
            old(self).len_spec() < usize::MAX,
        ensures
            final(self).wf(),
            !old(self).contains_key(item@) ==> r == None::<i64> && final(self).entries() == old(
                self,
            ).entries().push((item@, priority)),
            old(self).contains_key(item@) && priority < old(self).priority_of(item@) ==> r == Some(
                old(self).priority_of(item@),
            ) && final(self).entries() == old(self).entries().update(
                key_index(old(self).entries(), item@),
                (item@, priority),
            ),
            old(self).contains_key(item@) && priority >= old(self).priority_of(item@) ==> r
                == Some(priority) && *final(self) == *old(self),
    {
        let keep = match self.get_priority(item.as_str()) {
            None => false,
            Some(p) => priority >= p,
        };
        if keep {
            Some(priority)
        } else {
            self.push(item, priority)
        }
    }

    /// Replace the priority of an existing item, returning the old one;
    /// an absent item leaves the queue untouched. The heap is repaired with
    /// the O(log n) climb.
    pub fn change_priority(&mut self, item: &str, new_priority: i64) -> (r: Option<i64>)
        requires
            old(self).wf(),
        ensures
            final(self).wf(),
            match r {
                Some(p) => old(self).contains_key(item@) && p == old(self).priority_of(item@)
                    && final(self).entries() == old(self).entries().update(
                    key_index(old(self).entries(), item@),
                    (item@, new_priority),
                ),
                None => !old(self).contains_key(item@) && *final(self) == *old(self),
            },
    {
        proof {
            self.store.lemma_wf_facts();
        }
        match self.store.index_of(item) {
            Some(t) => {
                let oldp = self.store.val_at_slot(t);
                proof {
                    lemma_key_index(self.store.entries(), item@);
                }
                self.store.set_prio_at_slot(t, new_priority);
                let p = self.store.position_of_slot(t);
                proof {
                    self.store.lemma_wf_facts();
                    let sp = self.store.prios();
                    let op = old(self).store.prios();
                    assert forall|a: int, d: int|
                        0 <= a && 0 <= d < sp.len() && #[trigger] in_subtree(a, d) && a != d && a
                            != p as int && d != p as int implies ordered_pair(sp, a, d) by {
                        lemma_subtree_bounds(a, d);
                        assert(sp[a] == op[a] && sp[d] == op[d]);
                        assert(ordered_pair(op, a, d));
                    }
                }
                self.up_heapify(p);
                Some(oldp)
            },
            None => None,
        }
    }

    /// Replace the priority of an existing item with what the given function
    /// makes of the old one; an absent item leaves the queue untouched.
    pub fn change_priority_by<F: Fn(i64) -> i64>(&mut self, item: &str, priority_setter: F) -> (
        changed: bool)
        requires
            old(self).wf(),
            forall|x: i64| #[trigger] priority_setter.requires((x,)),
        ensures
            final(self).wf(),
            !changed ==> !old(self).contains_key(item@) && *final(self) == *old(self),
            changed ==> old(self).contains_key(item@) && exists|y: i64|
                (#[trigger] priority_setter.ensures((old(self).priority_of(item@),), y))
                    && final(self).entries() == old(self).entries().update(
                    key_index(old(self).entries(), item@),
                    (item@, y),
                ),
    {
        match self.get_priority(item) {
            Some(p) => {
                let y = priority_setter(p);
                let _ = self.change_priority(item, y);
                true
            },
            None => false,
        }
    }

    /// Replace every entry's priority with what the given function makes of
    /// it, repairing the heap once at the end: the bulk update with deferred
    /// repair that a mutable traversal would perform.
    pub fn map_priorities<F: Fn(i64) -> i64>(&mut self, priority_setter: F)
        requires
            old(self).wf(),
            forall|x: i64| #[trigger] priority_setter.requires((x,)),
        ensures
            final(self).wf(),
            final(self).entries().len() == old(self).entries().len(),
            forall|j: int|
                0 <= j < old(self).entries().len() ==> (final(self).entries()[j]).0 == (
                #[trigger] old(self).entries()[j]).0 && priority_setter.ensures(
                    (old(self).entries()[j].1,),
                    final(self).entries()[j].1,
                ),
    {
        proof {
            self.store.lemma_wf_facts();
        }
        let ghost o = *old(self);
        let n = self.store.len();
        let mut t: usize = 0;
        while t < n
            invariant
                self.store.wf_struct(),
                n == self.store.len_spec(),
                t <= n,
                o.entries().len() == n,
                self.entries().len() == n,
                forall|x: i64| #[trigger] priority_setter.requires((x,)),
                forall|j: int|
                    0 <= j < t ==> (self.entries()[j]).0 == (#[trigger] o.entries()[j]).0
                        && priority_setter.ensures((o.entries()[j].1,), self.entries()[j].1),
                forall|j: int| t <= j < n ==> self.entries()[j] == #[trigger] o.entries()[j],
            decreases n - t,
        {
            proof {
                self.store.lemma_wf_facts();
            }
            let v = self.store.val_at_slot(t);
            let y = priority_setter(v);
            self.store.set_prio_at_slot(t, y);
            t = t + 1;
        }
        self.heap_build();
    }

    /// Remove an arbitrary item, returning its entry; removing an absent item
    /// returns nothing and changes nothing.
    pub fn remove(&mut self, item: &str) -> (r: Option<(String, i64)>)
        requires
            old(self).wf(),
        ensures
            final(self).wf(),
            match r {
                Some(p) => {
                    &&& old(self).contains_key(item@)
                    &&& p.0@ == item@
                    &&& p.1 == old(self).priority_of(item@)
                    &&& final(self).len_spec() == old(self).len_spec() - 1
                    &&& final(self).entries() == old(self).entries().update(
                        key_index(old(self).entries(), item@),
                        old(self).entries()[old(self).entries().len() - 1],
                    ).take(old(self).entries().len() - 1)
                },
                None => !old(self).contains_key(item@) && *final(self) == *old(self),
            },
    {
        proof {
            self.store.lemma_wf_facts();
        }
        match self.store.index_of(item) {
            Some(t) => {
                proof {
                    lemma_key_index(self.store.entries(), item@);
                }
                let pos = self.store.position_of_slot(t);
                let r = self.store.swap_remove(pos);
                let n2 = self.store.len();
                proof {
                    self.store.lemma_wf_facts();
                }
                if pos < n2 {
                    proof {
                        let sp = self.store.prios();
                        let op = old(self).store.prios();
                        assert forall|a: int, d: int|
                            0 <= a && 0 <= d < sp.len() && #[trigger] in_subtree(a, d) && a != d
                                && a != pos as int && d != pos as int implies ordered_pair(
                            sp,
                            a,
                            d,
                        ) by {
                            lemma_subtree_bounds(a, d);
                            assert(sp[a] == op[a] && sp[d] == op[d]);
                            assert(ordered_pair(op, a, d));
                        }
                    }
                    self.up_heapify(pos);
                } else {
                    proof {
                        let sp = self.store.prios();
                        let op = old(self).store.prios();
                        assert forall|a: int, d: int|
                            0 <= a && 0 <= d < sp.len() && #[trigger] in_subtree(a, d) && a
                                != d implies ordered_pair(sp, a, d) by {
                            lemma_subtree_bounds(a, d);
                            assert(sp[a] == op[a] && sp[d] == op[d]);
                            assert(ordered_pair(op, a, d));
                        }
                    }
                }
                Some(r)
            },
            None => None,
        }
    }

    /// The items in slot order, consuming the queue.
    pub fn into_vec(self) -> (r: Vec<String>)
        requires
            self.wf(),
        ensures
            r@.len() == self.len_spec(),
            forall|j: int| 0 <= j < r@.len() ==> (#[trigger] r@[j])@ == self.entries()[j].0,
    {
        proof {
            self.store.lemma_wf_facts();
        }
        let n = self.store.len();
        let mut r: Vec<String> = Vec::new();
        let mut idx: usize = 0;
        while idx < n
            invariant
                self.wf(),
                n == self.len_spec(),
                idx <= n,
                r@.len() == idx,
                forall|j: int| 0 <= j < r@.len() ==> (#[trigger] r@[j])@ == self.entries()[j].0,
            decreases n - idx,
        {
            proof {
                self.store.lemma_wf_facts();
            }
            let k = self.store.key_at_slot(idx).clone();
            r.push(k);
            idx = idx + 1;
        }
        r
    }

    /// The `(item, priority)` entries in slot order, cloned.
    pub fn iter(&self) -> (r: Vec<(String, i64)>)
        requires
            self.wf(),
        ensures
            r@.len() == self.len_spec(),
            forall|j: int|
                0 <= j < r@.len() ==> ((#[trigger] r@[j]).0@, r@[j].1) == self.entries()[j],
    {
        proof {
            self.store.lemma_wf_facts();
        }
        let n = self.store.len();
        let mut r: Vec<(String, i64)> = Vec::new();
        let mut idx: usize = 0;
        while idx < n
            invariant
                self.wf(),
                n == self.len_spec(),
                idx <= n,
                r@.len() == idx,
                forall|j: int|
                    0 <= j < r@.len() ==> ((#[trigger] r@[j]).0@, r@[j].1) == self.entries()[j],
            decreases n - idx,
        {
            proof {
                self.store.lemma_wf_facts();
            }
            let k = self.store.key_at_slot(idx).clone();
            let v = self.store.val_at_slot(idx);
            r.push((k, v));
            idx = idx + 1;
        }
        r
    }

    /// Consume the queue into an iterator-like handle that hands the entries
    /// out from the least priority forward and the greatest backward.
    pub fn into_sorted_iter(self) -> (it: IntoSortedIter)
        requires
            self.wf(),
        ensures
            it.queue() == self,
            it.wf(),
    {
        IntoSortedIter { pq: self }
    }
}

impl DoublePriorityQueue {
    /// Heap sort: consume the queue by repeated minimum extraction into a
    /// vector of the items, ascending by stored priority.
    pub fn into_ascending_sorted_vec(self) -> (r: Vec<String>)
        requires
            self.wf(),
        ensures
            r@.len() == self.len_spec(),
            forall|a: int| 0 <= a < r@.len() ==> self.contains_key((#[trigger] r@[a])@),
            forall|a: int, b: int| 0 <= a < b < r@.len() ==> (#[trigger] r@[a])@ != (#[trigger] r@[b])@,
            forall|a: int, b: int|
                0 <= a <= b < r@.len() ==> self.priority_of((#[trigger] r@[a])@)
                    <= self.priority_of((#[trigger] r@[b])@),
    {
        let ghost orig = self;
        let mut q = self;
        let mut r: Vec<String> = Vec::new();
        proof {
            q.store.lemma_wf_facts();
        }
        while q.len() > 0
            invariant
                q.wf(),
                r@.len() + q.len_spec() == orig.len_spec(),
                forall|a: int| 0 <= a < r@.len() ==> orig.contains_key((#[trigger] r@[a])@),
                forall|a: int, b: int|
                    0 <= a < b < r@.len() ==> (#[trigger] r@[a])@ != (#[trigger] r@[b])@,
                forall|a: int, b: int|
                    0 <= a <= b < r@.len() ==> orig.priority_of((#[trigger] r@[a])@)
                        <= orig.priority_of((#[trigger] r@[b])@),
                forall|j: int|
                    0 <= j < q.entries().len() ==> orig.contains_key(
                        (#[trigger] q.entries()[j]).0,
                    ) && orig.priority_of(q.entries()[j].0) == q.entries()[j].1,
                forall|a: int, j: int|
                    0 <= a < r@.len() && 0 <= j < q.entries().len() ==> (#[trigger] r@[a])@ != (
                    #[trigger] q.entries()[j]).0,
                forall|a: int, j: int|
                    0 <= a < r@.len() && 0 <= j < q.entries().len() ==> orig.priority_of(
                        (#[trigger] r@[a])@,
                    ) <= (#[trigger] q.entries()[j]).1,
            decreases q.len_spec(),
        {
            let ghost q0 = q;
            let p = match q.pop_min() {
                Some(p) => p,
                None => {
                    proof {
                        assert(false);
                    }
                    unreached()
                },
            };
            proof {
                q0.store.lemma_wf_facts();
                lemma_key_index(q0.entries(), p.0@);
                lemma_key_index_unique(q0.entries(), p.0@, key_index(q0.entries(), p.0@));
            }
            r.push(p.0);
            proof {
                let esq = q.entries();
                let es0 = q0.entries();
                let j = choose|j: int|
                    0 <= j < es0.len() && #[trigger] es0[j] == (p.0@, p.1) && esq == es0.update(
                        j,
                        es0[es0.len() - 1],
                    ).take(es0.len() - 1);
                assert forall|j2: int| 0 <= j2 < esq.len() implies exists|j0: int|
                    0 <= j0 < es0.len() && #[trigger] esq[j2] == es0[j0] by {
                    if j2 == j {
                        assert(esq[j2] == es0[es0.len() - 1]);
                    } else {
                        assert(esq[j2] == es0[j2]);
                    }
                }
            }
        }
        r
    }

    /// Heap sort: consume the queue by repeated maximum extraction into a
    /// vector of the items, descending by stored priority.
    pub fn into_descending_sorted_vec(self) -> (r: Vec<String>)
        requires
            self.wf(),
        ensures
            r@.len() == self.len_spec(),
            forall|a: int| 0 <= a < r@.len() ==> self.contains_key((#[trigger] r@[a])@),
            forall|a: int, b: int| 0 <= a < b < r@.len() ==> (#[trigger] r@[a])@ != (#[trigger] r@[b])@,
            forall|a: int, b: int|
                0 <= a <= b < r@.len() ==> self.priority_of((#[trigger] r@[a])@)
                    >= self.priority_of((#[trigger] r@[b])@),
    {
        let ghost orig = self;
        let mut q = self;
        let mut r: Vec<String> = Vec::new();
        proof {
            q.store.lemma_wf_facts();
        }
        while q.len() > 0
            invariant
                q.wf(),
                r@.len() + q.len_spec() == orig.len_spec(),
                forall|a: int| 0 <= a < r@.len() ==> orig.contains_key((#[trigger] r@[a])@),
                forall|a: int, b: int|
                    0 <= a < b < r@.len() ==> (#[trigger] r@[a])@ != (#[trigger] r@[b])@,
                forall|a: int, b: int|
                    0 <= a <= b < r@.len() ==> orig.priority_of((#[trigger] r@[a])@)
                        >= orig.priority_of((#[trigger] r@[b])@),
                forall|j: int|
                    0 <= j < q.entries().len() ==> orig.contains_key(
                        (#[trigger] q.entries()[j]).0,
                    ) && orig.priority_of(q.entries()[j].0) == q.entries()[j].1,
                forall|a: int, j: int|
                    0 <= a < r@.len() && 0 <= j < q.entries().len() ==> (#[trigger] r@[a])@ != (
                    #[trigger] q.entries()[j]).0,
                forall|a: int, j: int|
                    0 <= a < r@.len() && 0 <= j < q.entries().len() ==> orig.priority_of(
                        (#[trigger] r@[a])@,
                    ) >= (#[trigger] q.entries()[j]).1,
            decreases q.len_spec(),
        {
            let ghost q0 = q;
            let p = match q.pop_max() {
                Some(p) => p,
                None => {
                    proof {
                        assert(false);
                    }
                    unreached()
                },
            };
            proof {
                q0.store.lemma_wf_facts();
                lemma_key_index(q0.entries(), p.0@);
                lemma_key_index_unique(q0.entries(), p.0@, key_index(q0.entries(), p.0@));
            }
            r.push(p.0);
            proof {
                let esq = q.entries();
                let es0 = q0.entries();
                let j = choose|j: int|
                    0 <= j < es0.len() && #[trigger] es0[j] == (p.0@, p.1) && esq == es0.update(
                        j,
                        es0[es0.len() - 1],
                    ).take(es0.len() - 1);
                assert forall|j2: int| 0 <= j2 < esq.len() implies exists|j0: int|
                    0 <= j0 < es0.len() && #[trigger] esq[j2] == es0[j0] by {
                    if j2 == j {
                        assert(esq[j2] == es0[es0.len() - 1]);
                    } else {
                        assert(esq[j2] == es0[j2]);
                    }
                }
            }
        }
        r
    }
}

impl DoublePriorityQueue {
    /// Move every entry of `other` into `self`, ignoring items equal to ones
    /// already here (the entry already in `self` keeps its priority); `other`
    /// is left empty.
    pub fn append(&mut self, other: &mut DoublePriorityQueue)
        requires
            old(self).wf(),
            old(other).wf(),
            old(self).len_spec() + old(other).len_spec() < usize::MAX,
        ensures
            final(self).wf(),
            final(other).wf(),
            final(other).len_spec() == 0,
            // `self` grows: its old entries' slots stay in range
            old(self).entries().len() <= final(self).entries().len(),
            final(self).entries().len() <= old(self).entries().len() + old(
                other,
            ).entries().len(),
            // entries of `self` keep their slots and items; for an item both
            // sides held, which side's priority survives is not promised
            forall|j: int|
                0 <= j < old(self).entries().len() ==> (final(self).entries()[j]).0 == (
                #[trigger] old(self).entries()[j]).0,
            forall|j: int|
                0 <= j < old(self).entries().len() ==> (final(self).entries()[j]).1 == (
                #[trigger] old(self).entries()[j]).1 || (exists|j2: int|
                    0 <= j2 < old(other).entries().len() && #[trigger] old(other).entries()[j2]
                        == (old(self).entries()[j].0, final(self).entries()[j].1)),
            // every item of `other` ends up present
            forall|j: int|
                0 <= j < old(other).entries().len() ==> final(self).contains_key(
                    (#[trigger] old(other).entries()[j]).0,
                ),
            // an item of `other` that was not already here keeps its priority
            forall|j: int|
                0 <= j < old(other).entries().len() && !old(self).contains_key(
                    (#[trigger] old(other).entries()[j]).0,
                ) ==> final(self).priority_of(old(other).entries()[j].0) == old(
                    other,
                ).entries()[j].1,
            // and nothing else appears
            forall|j: int|
                0 <= j < final(self).entries().len() ==> old(self).contains_key(
                    (#[trigger] final(self).entries()[j]).0,
                ) || old(other).contains_key(final(self).entries()[j].0),
    {
        let ghost os = *old(self);
        let ghost oo = *old(other);
        proof {
            self.store.lemma_wf_facts();
            other.store.lemma_wf_facts();
        }
        let total = self.store.len() + other.store.len();
        let mut idx: usize = 0;
        let n_other = other.store.len();
        while idx < n_other
            invariant
                self.store.wf_struct(),
                other.wf(),
                *other == oo,
                n_other == oo.len_spec(),
                idx <= n_other,
                os.entries().len() <= self.entries().len(),
                self.entries().len() <= os.entries().len() + idx,
                os.entries().len() + oo.entries().len() < usize::MAX,
                forall|j: int|
                    0 <= j < os.entries().len() ==> self.entries()[j] == #[trigger] os.entries()[j],
                forall|j: int|
                    0 <= j < idx ==> self.contains_key((#[trigger] oo.entries()[j]).0),
                forall|j: int|
                    0 <= j < idx && !os.contains_key((#[trigger] oo.entries()[j]).0)
                        ==> has_key(self.entries(), oo.entries()[j].0) && self.priority_of(
                        oo.entries()[j].0,
                    ) == oo.entries()[j].1,
                forall|j: int|
                    0 <= j < self.entries().len() ==> os.contains_key(
                        (#[trigger] self.entries()[j]).0,
                    ) || oo.contains_key(self.entries()[j].0),
                forall|j0: int|
                    os.entries().len() <= j0 < self.entries().len() ==> exists|j: int|
                        0 <= j < idx && #[trigger] self.entries()[j0] == (
                        oo.entries()[j].0,
                        oo.entries()[j].1,
                        ),
            decreases n_other - idx,
        {
            proof {
                self.store.lemma_wf_facts();
                other.store.lemma_wf_facts();
            }
            let ghost s0 = self.entries();
            let k = other.store.key_at_slot(idx).clone();
            let v = other.store.val_at_slot(idx);
            let absent = match self.store.index_of(k.as_str()) {
                Some(_) => false,
                None => true,
            };
            if absent {
                self.store.push_new(k, v);
                proof {
                    lemma_key_index_unique(self.entries(), oo.entries()[idx as int].0, s0.len() as int);
                    assert forall|j: int| 0 <= j < idx + 1 implies self.contains_key(
                        (#[trigger] oo.entries()[j]).0,
                    ) by {
                        if j < idx {
                            let key = oo.entries()[j].0;
                            let j0 = choose|j0: int| 0 <= j0 < s0.len() && (#[trigger] s0[j0]).0 == key;
                            assert(self.entries()[j0].0 == key);
                        }
                    }
                    assert forall|j: int|
                        0 <= j < idx && !os.contains_key((#[trigger] oo.entries()[j]).0)
                        implies has_key(self.entries(), oo.entries()[j].0) && self.priority_of(
                        oo.entries()[j].0,
                    ) == oo.entries()[j].1 by {
                        let j0 = key_index(s0, oo.entries()[j].0);
                        lemma_key_index(s0, oo.entries()[j].0);
                        lemma_key_index_unique(self.entries(), oo.entries()[j].0, j0);
                    }
                }
            } else {
                proof {
                    lemma_key_index(self.entries(), k@);
                    // an item of `other` already present must come from `self`:
                    // the earlier moved entries carry distinct other-items
                    if !os.contains_key(k@) {
                        let j0 = key_index(self.entries(), k@);
                        if j0 >= os.entries().len() {
                            let jsrc = choose|j: int|
                                0 <= j < idx && #[trigger] self.entries()[j0] == (
                                oo.entries()[j].0,
                                oo.entries()[j].1,
                                );
                            assert(oo.entries()[jsrc].0 == oo.entries()[idx as int].0);
                            assert(false);
                        } else {
                            assert(os.entries()[j0].0 == k@);
                            assert(false);
                        }
                    }
                }
            }
            idx = idx + 1;
        }
        other.clear();
        self.heap_build();
        proof {
            assert forall|j: int|
                0 <= j < oo.entries().len() && !os.contains_key((#[trigger] oo.entries()[j]).0)
                implies final(self).priority_of(oo.entries()[j].0) == oo.entries()[j].1 by {}
        }
    }
}

/// The view of a batch of owned `(item, priority)` pairs.
pub open spec fn batch_views(b: Seq<(String, i64)>) -> Seq<(Seq<char>, i64)> {
    Seq::new(b.len(), |i: int| (b[i].0@, b[i].1))
}

/// The contents after storing each pair of `batch` in order: an item already
/// present keeps its slot and takes the new priority, a new item is appended.
/// Later occurrences of an item in the batch win.
pub open spec fn upsert_all(es: Seq<(Seq<char>, i64)>, batch: Seq<(Seq<char>, i64)>) -> Seq<
    (Seq<char>, i64),
>
    decreases batch.len(),
{
    if batch.len() == 0 {
        es
    } else {
        let es1 = upsert_all(es, batch.drop_last());
        let k = batch.last().0;
        let v = batch.last().1;
        if has_key(es1, k) {
            es1.update(key_index(es1, k), (k, v))
        } else {
            es1.push((k, v))
        }
    }
}

impl DoublePriorityQueue {
    /// Store every pair of the batch, in order; later duplicates win. When
    /// the batch is large next to the queue, each entry is placed without
    /// repair and one full rebuild runs at the end; otherwise the entries are
    /// pushed one by one.
    pub fn extend(&mut self, batch: Vec<(String, i64)>)
        requires
            old(self).wf(),
            old(self).len_spec() + batch@.len() < usize::MAX,
        ensures
            final(self).wf(),
            final(self).entries() == upsert_all(old(self).entries(), batch_views(batch@)),
    {
        let ghost os = *old(self);
        proof {
            self.store.lemma_wf_facts();
        }
        let rebuild = better_to_rebuild(self.store.len(), batch.len());
        let nb = batch.len();
        let mut idx: usize = 0;
        while idx < nb
            invariant
                self.store.wf_struct(),
                rebuild ==> self.store.wf_struct(),
                !rebuild ==> self.wf(),
                nb == batch@.len(),
                idx <= nb,
                os.len_spec() + nb < usize::MAX,
                self.entries().len() <= os.len_spec() + idx,
                self.entries() == upsert_all(os.entries(), batch_views(batch@).take(idx as int)),
            decreases nb - idx,
        {
            let ghost pre = self.entries();
            let k = batch[idx].0.clone();
            let v = batch[idx].1;
            proof {
                self.store.lemma_wf_facts();
            }
            if rebuild {
                match self.store.index_of(k.as_str()) {
                    Some(t) => {
                        proof {
                            lemma_key_index(self.entries(), k@);
                        }
                        self.store.set_prio_at_slot(t, v);
                    },
                    None => {
                        self.store.push_new(k, v);
                    },
                }
            } else {
                let _ = self.push(k, v);
            }
            proof {
                let bv = batch_views(batch@);
                assert(bv.take(idx + 1).drop_last() =~= bv.take(idx as int));
                assert(bv.take(idx + 1).last() == (batch@[idx as int].0@, batch@[idx as int].1));
                assert(self.entries() == upsert_all(os.entries(), bv.take(idx + 1)));
            }
            idx = idx + 1;
        }
        proof {
            assert(batch_views(batch@).take(nb as int) =~= batch_views(batch@));
        }
        if rebuild {
            self.heap_build();
        }
    }
}

impl DoublePriorityQueue {
    /// Bulk construction from a sequence of pairs; duplicate items collapse
    /// to the last occurrence's priority, and the heap is built once.
    pub fn from_vec(pairs: Vec<(String, i64)>) -> (q: Self)
        requires
            pairs@.len() < usize::MAX,
        ensures
            q.wf(),
            q.entries() == upsert_all(Seq::<(Seq<char>, i64)>::empty(), batch_views(pairs@)),
    {
        let mut q = Self::new();
        q.extend(pairs);
        q
    }
}

// ---------------------------------------------------------------------------
// The laws the queue obeys, stated once over its model.
// ---------------------------------------------------------------------------

/// The bookkeeping of a well-formed queue: the stored length is the number of
/// entries, no two entries share an item, and the heap-position view holds
/// exactly the entries, rearranged.
pub proof fn lemma_queue_model(q: DoublePriorityQueue)
    requires
        q.wf(),
    ensures
        q.len_spec() == q.entries().len(),
        q.pairs().len() == q.entries().len(),
        q.prios().len() == q.entries().len(),
        distinct_keys(q.entries()),
        q.pairs().to_multiset() == q.entries().to_multiset(),
        forall|p: int| 0 <= p < q.pairs().len() ==> (#[trigger] q.pairs()[p]).1 == q.prios()[p],
{
    q.store.lemma_wf_facts();
    q.store.lemma_pairs_permutation();
}

/// In a well-formed queue the min-max shape invariant holds: every node at an
/// even depth is at most every node of its subtree, every node at an odd
/// depth at least — so the least priority sits at the root and the greatest
/// at the root or one of its children.
pub proof fn lemma_min_max_invariant(q: DoublePriorityQueue)
    requires
        q.wf(),
    ensures
        mm_global(q.prios()),
        q.len_spec() > 0 ==> forall|d: int|
            0 <= d < q.prios().len() ==> q.prios()[0] <= #[trigger] q.prios()[d],
{
    q.store.lemma_wf_facts();
    if q.len_spec() > 0 {
        lemma_root_is_min(q.prios());
    }
}

/// Two successive minimum extractions come out in non-decreasing priority
/// order: the first was at most everything stored, and the second is one of
/// the entries that were left. The hypotheses mirror `pop_min`'s contract.
pub proof fn lemma_pop_min_nondecreasing(
    es0: Seq<(Seq<char>, i64)>,
    es1: Seq<(Seq<char>, i64)>,
    p1: i64,
    p2: i64,
    j1: int,
    j2: int,
)
    requires
        forall|j: int| 0 <= j < es0.len() ==> p1 <= (#[trigger] es0[j]).1,
        0 <= j1 < es0.len(),
        es1 == es0.update(j1, es0[es0.len() - 1]).take(es0.len() - 1),
        0 <= j2 < es1.len(),
        p2 == es1[j2].1,
    ensures
        p1 <= p2,
{
    assert(es1[j2] == es0[j1] || es1[j2] == es0[es0.len() - 1] || es1[j2] == es0[j2]);
}

/// The symmetric law for repeated maximum extraction: non-increasing.
pub proof fn lemma_pop_max_nonincreasing(
    es0: Seq<(Seq<char>, i64)>,
    es1: Seq<(Seq<char>, i64)>,
    p1: i64,
    p2: i64,
    j1: int,
    j2: int,
)
    requires
        forall|j: int| 0 <= j < es0.len() ==> p1 >= (#[trigger] es0[j]).1,
        0 <= j1 < es0.len(),
        es1 == es0.update(j1, es0[es0.len() - 1]).take(es0.len() - 1),
        0 <= j2 < es1.len(),
        p2 == es1[j2].1,
    ensures
        p1 >= p2,
{
    assert(es1[j2] == es0[j1] || es1[j2] == es0[es0.len() - 1] || es1[j2] == es0[j2]);
}

/// Storing a priority for an item and then looking the item up returns
/// exactly that priority. The hypothesis is the contents relation that
/// `push` and `change_priority` ensure; the conclusion is what
/// `get_priority` returns on the new contents.
pub proof fn lemma_get_after_put(es: Seq<(Seq<char>, i64)>, k: Seq<char>, p: i64)
    requires
        distinct_keys(es),
    ensures
        ({
            let es2 = if has_key(es, k) {
                es.update(key_index(es, k), (k, p))
            } else {
                es.push((k, p))
            };
            has_key(es2, k) && es2[key_index(es2, k)].1 == p
        }),
{
    let es2 = if has_key(es, k) {
        es.update(key_index(es, k), (k, p))
    } else {
        es.push((k, p))
    };
    if has_key(es, k) {
        lemma_key_index(es, k);
        let j = key_index(es, k);
        assert(es2[j].0 == k);
        assert forall|i: int, i2: int| 0 <= i < i2 < es2.len() implies es2[i].0 != es2[i2].0 by {
            assert(es[i].0 != es[i2].0);
        }
        lemma_key_index_unique(es2, k, j);
    } else {
        assert(es2[es.len() as int].0 == k);
        assert forall|i: int, i2: int| 0 <= i < i2 < es2.len() implies es2[i].0 != es2[i2].0 by {
            if i2 < es.len() {
                assert(es[i].0 != es[i2].0);
            } else {
                assert(!(exists|j: int| 0 <= j < es.len() && (#[trigger] es[j]).0 == k));
                assert(es2[i] == es[i]);
            }
        }
        lemma_key_index_unique(es2, k, es.len() as int);
    }
}

/// A double-ended, sorted, consuming traversal of a queue: the front yields
/// minima, the back maxima.
pub struct IntoSortedIter {
    pq: DoublePriorityQueue,
}

impl IntoSortedIter {
    /// The queue that remains to be drained.
    pub closed spec fn queue(self) -> DoublePriorityQueue {
        self.pq
    }

    pub open spec fn wf(self) -> bool {
        self.queue().wf()
    }

    /// The remaining entry with the least priority, removed.
    pub fn next(&mut self) -> (r: Option<(String, i64)>)
        requires
            old(self).wf(),
        ensures
            final(self).wf(),
            match r {
                Some(p) => {
                    &&& old(self).queue().len_spec() > 0
                    &&& old(self).queue().contains_key(p.0@)
                    &&& p.1 == old(self).queue().priority_of(p.0@)
                    &&& forall|j: int|
                        0 <= j < old(self).queue().entries().len() ==> p.1 <= #[trigger] old(
                            self,
                        ).queue().entries()[j].1
                    &&& final(self).queue().len_spec() == old(self).queue().len_spec() - 1
                    &&& exists|j: int|
                        0 <= j < old(self).queue().entries().len() && #[trigger] old(
                            self,
                        ).queue().entries()[j] == (p.0@, p.1) && final(self).queue().entries()
                            == old(self).queue().entries().update(
                            j,
                            old(self).queue().entries()[old(self).queue().entries().len() - 1],
                        ).take(old(self).queue().entries().len() - 1)
                },
                None => old(self).queue().len_spec() == 0 && final(self).queue() == old(
                    self,
                ).queue(),
            },
    {
        self.pq.pop_min()
    }

    /// The remaining entry with the greatest priority, removed.
    pub fn next_back(&mut self) -> (r: Option<(String, i64)>)
        requires
            old(self).wf(),
        ensures
            final(self).wf(),
            match r {
                Some(p) => {
                    &&& old(self).queue().len_spec() > 0
                    &&& old(self).queue().contains_key(p.0@)
                    &&& p.1 == old(self).queue().priority_of(p.0@)
                    &&& forall|j: int|
                        0 <= j < old(self).queue().entries().len() ==> p.1 >= #[trigger] old(
                            self,
                        ).queue().entries()[j].1
                    &&& final(self).queue().len_spec() == old(self).queue().len_spec() - 1
                    &&& exists|j: int|
                        0 <= j < old(self).queue().entries().len() && #[trigger] old(
                            self,
                        ).queue().entries()[j] == (p.0@, p.1) && final(self).queue().entries()
                            == old(self).queue().entries().update(
                            j,
                            old(self).queue().entries()[old(self).queue().entries().len() - 1],
                        ).take(old(self).queue().entries().len() - 1)
                },
                None => old(self).queue().len_spec() == 0 && final(self).queue() == old(
                    self,
                ).queue(),
            },
    {
        self.pq.pop_max()
    }
}

/// The child or grandchild of `i` with the greatest priority (all that exist).
fn best_descendant_max(st: &Store, i: usize, n: usize) -> (m: usize)
    requires
        st.wf_struct(),
        n == st.len_spec(),
        n >= 2,
        i <= (n - 2) / 2,
    ensures
        i < m < n,
        is_child(i as int, m as int) || is_grandchild(i as int, m as int),
        forall|d: int|
            #![trigger is_child(i as int, d)]
            #![trigger is_grandchild(i as int, d)]
            0 <= d < n && (is_child(i as int, d) || is_grandchild(i as int, d)) ==> st.prios()[m
                as int] >= st.prios()[d],
{
    let l = 2 * i + 1;
    let r = 2 * i + 2;
    let mut m = l;
    if r < n && st.priority_at(r) > st.priority_at(m) {
        m = r;
    }
    if l <= (n - 2) / 2 {
        let ll = 2 * l + 1;
        if st.priority_at(ll) > st.priority_at(m) {
            m = ll;
        }
        let lr = 2 * l + 2;
        if lr < n && st.priority_at(lr) > st.priority_at(m) {
            m = lr;
        }
    }
    if r < n && r <= (n - 2) / 2 {
        let rl = 2 * r + 1;
        if st.priority_at(rl) > st.priority_at(m) {
            m = rl;
        }
        let rr = 2 * r + 2;
        if rr < n && st.priority_at(rr) > st.priority_at(m) {
            m = rr;
        }
    }
    proof {
        assert(is_child(i as int, l as int));
        assert forall|d: int|
            #![trigger is_child(i as int, d)]
            #![trigger is_grandchild(i as int, d)]
            0 <= d < n && (is_child(i as int, d) || is_grandchild(i as int, d)) implies st.prios()[m
            as int] >= st.prios()[d] by {
            lemma_grandchild_range(i as int, d);
            if is_grandchild(i as int, m as int) {
                lemma_grandchild_range(i as int, m as int);
            }
        }
        if m > l {
            lemma_grandchild_range(i as int, m as int);
        }
    }
    m
}

} // verus!
