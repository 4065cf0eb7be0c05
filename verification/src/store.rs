//! The storage engine: an order-preserving map from item to priority (each
//! entry has a dense, stable-until-removal slot number), a heap-shaped array
//! of slot numbers (the shape array), and a position table mapping each slot
//! to its place in the shape array.
//!
//! Invariant: `shape[p] == s` exactly when `position[s] == p` — the dual
//! indirection that lets a keyed item be found and repositioned in O(log n).

use crate::imap::distinct_keys;
use crate::imap::entries_of;
use crate::imap::has_key;
use crate::imap::im_capacity;
use crate::imap::im_clear;
use crate::imap::im_get_index_of;
use crate::imap::im_insert_full;
use crate::imap::im_key_at;
use crate::imap::im_reserve;
use crate::imap::im_set_val_at;
use crate::imap::im_shrink_to_fit;
use crate::imap::im_swap_remove_index;
use crate::imap::im_val_at;
use crate::imap::im_with_capacity_and_hasher;
use crate::imap::key_index;
use crate::imap::lemma_key_index_unique;
use indexmap::IndexMap;
use std::collections::hash_map::RandomState;
use vstd::prelude::*;

verus! {

pub struct Store {
    map: IndexMap<String, i64, RandomState>,
    heap: Vec<usize>,
    qp: Vec<usize>,
    size: usize,
}

impl Store {
    /// The `(item, priority)` entries in slot order.
    pub closed spec fn entries(self) -> Seq<(Seq<char>, i64)> {
        entries_of(self.map)
    }

    /// The shape array: slot numbers in heap-position order.
    pub closed spec fn shape(self) -> Seq<usize> {
        self.heap@
    }

    /// The position table: heap position of each slot.
    pub closed spec fn positions(self) -> Seq<usize> {
        self.qp@
    }

    pub closed spec fn len_spec(self) -> nat {
        self.entries().len()
    }

    /// The `(item, priority)` pair at heap position `p`.
    pub closed spec fn pair_at(self, p: int) -> (Seq<char>, i64) {
        self.entries()[self.shape()[p] as int]
    }

    /// The pairs in heap-position order.
    pub closed spec fn pairs(self) -> Seq<(Seq<char>, i64)> {
        Seq::new(self.len_spec(), |p: int| self.pair_at(p))
    }

    /// The priorities in heap-position order.
    pub closed spec fn prios(self) -> Seq<i64> {
        Seq::new(self.len_spec(), |p: int| self.pair_at(p).1)
    }

    /// Structural well-formedness: the three parallel structures agree.
    pub closed spec fn wf_struct(self) -> bool {
        &&& self.size == self.len_spec()
        &&& self.shape().len() == self.size
        &&& self.positions().len() == self.size
        &&& distinct_keys(self.entries())
        &&& (forall|p: int| 0 <= p < self.size ==> (#[trigger] self.shape()[p]) < self.size)
        &&& (forall|s: int| 0 <= s < self.size ==> (#[trigger] self.positions()[s]) < self.size)
        &&& (forall|s: int|
            0 <= s < self.size ==> self.shape()[#[trigger] self.positions()[s] as int] as int == s)
        &&& (forall|p: int|
            0 <= p < self.size ==> self.positions()[#[trigger] self.shape()[p] as int] as int == p)
    }

    /// The facts that structural well-formedness gives about the views.
    pub proof fn lemma_wf_facts(self)
        requires
            self.wf_struct(),
        ensures
            self.shape().len() == self.len_spec(),
            self.positions().len() == self.len_spec(),
            self.pairs().len() == self.len_spec(),
            self.prios().len() == self.len_spec(),
            self.entries().len() == self.len_spec(),
            distinct_keys(self.entries()),
            forall|p: int|
                0 <= p < self.len_spec() ==> (#[trigger] self.shape()[p]) < self.len_spec(),
            forall|s: int|
                0 <= s < self.len_spec() ==> (#[trigger] self.positions()[s]) < self.len_spec(),
            forall|s: int|
                0 <= s < self.len_spec() ==> self.shape()[#[trigger] self.positions()[s] as int]
                    as int == s,
            forall|p: int|
                0 <= p < self.len_spec() ==> self.positions()[#[trigger] self.shape()[p] as int]
                    as int == p,
            forall|p: int|
                0 <= p < self.len_spec() ==> #[trigger] self.pairs()[p] == self.entries()[self.shape()[p] as int],
            forall|p: int|
                0 <= p < self.len_spec() ==> #[trigger] self.prios()[p] == self.pairs()[p].1,
            forall|p: int|
                0 <= p < self.len_spec() ==> #[trigger] self.pairs()[p] == self.pair_at(p),
    {
    }

    /// Each slot's priority appears in `prios` at that slot's heap position.
    pub proof fn lemma_slot_prio(self, t: int)
        requires
            self.wf_struct(),
            0 <= t < self.len_spec(),
        ensures
            self.prios()[self.positions()[t] as int] == self.entries()[t].1,
            self.pairs()[self.positions()[t] as int] == self.entries()[t],
    {
    }

    pub fn with_capacity_and_hasher(capacity: usize, hash_builder: RandomState) -> (s: Store)
        ensures
            s.wf_struct(),
            s.len_spec() == 0,
    {
        Store {
            map: im_with_capacity_and_hasher(capacity, hash_builder),
            heap: Vec::new(),
            qp: Vec::new(),
            size: 0,
        }
    }

    pub fn len(&self) -> (n: usize)
        requires
            self.wf_struct(),
        ensures
            n == self.len_spec(),
    {
        self.size
    }

    pub fn capacity(&self) -> (n: usize)
        ensures
            n >= self.len_spec(),
    {
        im_capacity(&self.map)
    }

    pub fn reserve(&mut self, additional: usize)
        requires
            old(self).wf_struct(),
            old(self).len_spec() + additional <= usize::MAX,
        ensures
            final(self).wf_struct(),
            final(self).entries() == old(self).entries(),
            final(self).shape() == old(self).shape(),
            final(self).positions() == old(self).positions(),
            final(self).pairs() == old(self).pairs(),
            final(self).prios() == old(self).prios(),
    {
        im_reserve(&mut self.map, additional);
        proof {
            assert(final(self).pairs() =~= old(self).pairs());
            assert(final(self).prios() =~= old(self).prios());
        }
    }

    pub fn shrink_to_fit(&mut self)
        requires
            old(self).wf_struct(),
        ensures
            final(self).wf_struct(),
            final(self).entries() == old(self).entries(),
            final(self).shape() == old(self).shape(),
            final(self).positions() == old(self).positions(),
            final(self).pairs() == old(self).pairs(),
            final(self).prios() == old(self).prios(),
    {
        im_shrink_to_fit(&mut self.map);
        proof {
            assert(final(self).pairs() =~= old(self).pairs());
            assert(final(self).prios() =~= old(self).prios());
        }
    }

    pub fn clear(&mut self)
        requires
            old(self).wf_struct(),
        ensures
            final(self).wf_struct(),
            final(self).len_spec() == 0,
            final(self).entries() == Seq::<(Seq<char>, i64)>::empty(),
    {
        im_clear(&mut self.map);
        self.heap.clear();
        self.qp.clear();
        self.size = 0;
    }

    /// The priority at heap position `p`.
    pub fn priority_at(&self, p: usize) -> (v: i64)
        requires
            self.wf_struct(),
            p < self.len_spec(),
        ensures
            v == self.prios()[p as int],
    {
        let slot = self.heap[p];
        im_val_at(&self.map, slot)
    }

    /// The item at heap position `p`.
    pub fn key_at(&self, p: usize) -> (k: &String)
        requires
            self.wf_struct(),
            p < self.len_spec(),
        ensures
            k@ == self.pair_at(p as int).0,
    {
        let slot = self.heap[p];
        im_key_at(&self.map, slot)
    }

    /// The item stored in slot `t`.
    pub fn key_at_slot(&self, t: usize) -> (k: &String)
        requires
            self.wf_struct(),
            t < self.len_spec(),
        ensures
            k@ == self.entries()[t as int].0,
    {
        im_key_at(&self.map, t)
    }

    /// The priority stored in slot `t`.
    pub fn val_at_slot(&self, t: usize) -> (v: i64)
        requires
            self.wf_struct(),
            t < self.len_spec(),
        ensures
            v == self.entries()[t as int].1,
    {
        im_val_at(&self.map, t)
    }

    /// The heap position of slot `t`.
    pub fn position_of_slot(&self, t: usize) -> (p: usize)
        requires
            self.wf_struct(),
            t < self.len_spec(),
        ensures
            p == self.positions()[t as int],
            p < self.len_spec(),
            self.pair_at(p as int) == self.entries()[t as int],
    {
        proof {
            self.lemma_slot_prio(t as int);
        }
        self.qp[t]
    }

    /// The slot holding item `k`, if any.
    pub fn index_of(&self, k: &str) -> (r: Option<usize>)
        requires
            self.wf_struct(),
        ensures
            match r {
                Some(t) => has_key(self.entries(), k@) && t == key_index(self.entries(), k@) && t
                    < self.len_spec(),
                None => !has_key(self.entries(), k@),
            },
    {
        let r = im_get_index_of(&self.map, k);
        proof {
            if let Some(t) = r {
                lemma_key_index_unique(self.entries(), k@, t as int);
            }
        }
        r
    }

    /// Exchange the heap cells `a` and `b` and repair the position table.
    pub fn swap(&mut self, a: usize, b: usize)
        requires
            old(self).wf_struct(),
            a < old(self).len_spec(),
            b < old(self).len_spec(),
        ensures
            final(self).wf_struct(),
            final(self).entries() == old(self).entries(),
            final(self).len_spec() == old(self).len_spec(),
            final(self).shape() == old(self).shape().update(
                a as int,
                old(self).shape()[b as int],
            ).update(b as int, old(self).shape()[a as int]),
            final(self).pairs() == old(self).pairs().update(
                a as int,
                old(self).pairs()[b as int],
            ).update(b as int, old(self).pairs()[a as int]),
            final(self).prios() == old(self).prios().update(
                a as int,
                old(self).prios()[b as int],
            ).update(b as int, old(self).prios()[a as int]),
    {
        let ha = self.heap[a];
        let hb = self.heap[b];
        self.heap[a] = hb;
        self.heap[b] = ha;
        self.qp[hb] = a;
        self.qp[ha] = b;
        proof {
            assert(final(self).pairs() =~= old(self).pairs().update(
                a as int,
                old(self).pairs()[b as int],
            ).update(b as int, old(self).pairs()[a as int]));
            assert(final(self).prios() =~= old(self).prios().update(
                a as int,
                old(self).prios()[b as int],
            ).update(b as int, old(self).prios()[a as int]));
        }
    }

    /// Append a new item with a fresh slot at the end of the shape array.
    pub fn push_new(&mut self, k: String, v: i64)
        requires
            old(self).wf_struct(),
            !has_key(old(self).entries(), k@),
            old(self).len_spec() < usize::MAX,
        ensures
            final(self).wf_struct(),
            final(self).len_spec() == old(self).len_spec() + 1,
            final(self).entries() == old(self).entries().push((k@, v)),
            final(self).shape() == old(self).shape().push(old(self).len_spec() as usize),
            final(self).positions() == old(self).positions().push(old(self).len_spec() as usize),
            final(self).pairs() == old(self).pairs().push((k@, v)),
            final(self).prios() == old(self).prios().push(v),
    {
        let n = self.size;
        let _ = im_insert_full(&mut self.map, k, v);
        self.heap.push(n);
        self.qp.push(n);
        self.size = n + 1;
        proof {
            assert(final(self).pairs() =~= old(self).pairs().push((k@, v)));
            assert(final(self).prios() =~= old(self).prios().push(v));
        }
    }

    /// Replace the priority stored in slot `t`.
    pub fn set_prio_at_slot(&mut self, t: usize, v: i64)
        requires
            old(self).wf_struct(),
            t < old(self).len_spec(),
        ensures
            final(self).wf_struct(),
            final(self).len_spec() == old(self).len_spec(),
            final(self).entries() == old(self).entries().update(
                t as int,
                (old(self).entries()[t as int].0, v),
            ),
            final(self).shape() == old(self).shape(),
            final(self).positions() == old(self).positions(),
            final(self).pairs() == old(self).pairs().update(
                old(self).positions()[t as int] as int,
                (old(self).entries()[t as int].0, v),
            ),
            final(self).prios() == old(self).prios().update(
                old(self).positions()[t as int] as int,
                v,
            ),
    {
        im_set_val_at(&mut self.map, t, v);
        proof {
            let p = old(self).positions()[t as int] as int;
            assert forall|q: int| 0 <= q < final(self).pairs().len() implies final(self).pairs()[q]
                == old(self).pairs().update(p, (old(self).entries()[t as int].0, v))[q] by {
                if old(self).shape()[q] as int == t as int {
                    assert(old(self).positions()[old(self).shape()[q] as int] as int == q);
                }
            }
            assert(final(self).pairs() =~= old(self).pairs().update(
                p,
                (old(self).entries()[t as int].0, v),
            ));
            assert(final(self).prios() =~= old(self).prios().update(p, v));
        }
    }

    /// Remove the entry at heap position `pos`. The map swap-removes its slot
    /// (the last slot is renamed to fill the gap), the shape array
    /// swap-removes the cell, and the position table is reconciled.
    pub fn swap_remove(&mut self, pos: usize) -> (r: (String, i64))
        requires
            old(self).wf_struct(),
            pos < old(self).len_spec(),
        ensures
            final(self).wf_struct(),
            final(self).len_spec() == old(self).len_spec() - 1,
            r.0@ == old(self).pair_at(pos as int).0,
            r.1 == old(self).pair_at(pos as int).1,
            final(self).entries() == old(self).entries().update(
                old(self).shape()[pos as int] as int,
                old(self).entries()[old(self).len_spec() - 1],
            ).take(old(self).len_spec() - 1),
            final(self).pairs() == old(self).pairs().update(
                pos as int,
                old(self).pairs()[old(self).len_spec() - 1],
            ).take(old(self).len_spec() - 1),
            final(self).prios() == old(self).prios().update(
                pos as int,
                old(self).prios()[old(self).len_spec() - 1],
            ).take(old(self).len_spec() - 1),
    {
        let n = self.size;
        let s = self.heap[pos];
        let last_slot = n - 1;
        let r = im_swap_remove_index(&mut self.map, s);
        // The heap cell that referenced the renamed slot must reference `s`.
        let p_last = self.qp[last_slot];
        self.heap[p_last] = s;
        // The renamed slot keeps its heap position; drop the dead table entry.
        let _ = self.qp.swap_remove(s);
        // Drop the vacated heap cell; the last cell moves into its place.
        let _ = self.heap.swap_remove(pos);
        self.size = n - 1;
        // The slot that moved into `pos` points back at it.
        if pos < n - 1 {
            let moved = self.heap[pos];
            self.qp[moved] = pos;
        }
        proof {
            assert(final(self).pairs() =~= old(self).pairs().update(
                pos as int,
                old(self).pairs()[old(self).len_spec() - 1],
            ).take(old(self).len_spec() - 1));
            assert(final(self).prios() =~= old(self).prios().update(
                pos as int,
                old(self).prios()[old(self).len_spec() - 1],
            ).take(old(self).len_spec() - 1));
        }
        r
    }

    /// The heap-position view holds exactly the entries, rearranged: the
    /// shape array is a bijection between heap positions and slots.
    pub proof fn lemma_pairs_permutation(self)
        requires
            self.wf_struct(),
        ensures
            self.pairs().to_multiset() == self.entries().to_multiset(),
    {
        lemma_reindex_multiset(self.entries(), self.shape(), self.positions());
        assert(self.pairs() =~= Seq::new(
            self.entries().len(),
            |p: int| self.entries()[self.shape()[p] as int],
        ));
    }
}

/// Reading a sequence through a bijection on its index range (given together
/// with its inverse) rearranges the elements but keeps their multiset.
proof fn lemma_reindex_multiset<A>(es: Seq<A>, sh: Seq<usize>, qp: Seq<usize>)
    requires
        sh.len() == es.len(),
        qp.len() == es.len(),
        forall|p: int| 0 <= p < es.len() ==> (#[trigger] sh[p]) < es.len(),
        forall|s: int| 0 <= s < es.len() ==> (#[trigger] qp[s]) < es.len(),
        forall|s: int| 0 <= s < es.len() ==> sh[#[trigger] qp[s] as int] as int == s,
        forall|p: int| 0 <= p < es.len() ==> qp[#[trigger] sh[p] as int] as int == p,
    ensures
        Seq::new(es.len(), |p: int| es[sh[p] as int]).to_multiset() == es.to_multiset(),
    decreases es.len(),
{
    broadcast use vstd::seq_lib::group_to_multiset_ensures;
    broadcast use vstd::multiset::group_multiset_axioms;

    let n = es.len() as int;
    let t = Seq::new(es.len(), |p: int| es[sh[p] as int]);
    if n == 0 {
        assert(t =~= Seq::<A>::empty());
        assert(t.to_multiset() =~= es.to_multiset());
    } else {
        let p0 = qp[n - 1] as int;
        let x = es[n - 1];
        // Drop the last slot: shrink the bijection around position `p0`,
        // which is the one place where slot `n - 1` is read.
        let es1 = es.drop_last();
        let sh1 = Seq::new((n - 1) as nat, |p: int| if p < p0 { sh[p] } else { sh[p + 1] });
        let qp1 = Seq::new(
            (n - 1) as nat,
            |s: int| if qp[s] < p0 { qp[s] } else { (qp[s] - 1) as usize },
        );
        assert forall|s: int| 0 <= s < n - 1 implies (#[trigger] qp1[s]) < n - 1
            && sh1[qp1[s] as int] as int == s by {
            assert(qp[s] as int != p0);
        }
        assert forall|p: int| 0 <= p < n - 1 implies (#[trigger] sh1[p]) < n - 1
            && qp1[sh1[p] as int] as int == p by {
            if p < p0 {
                assert(sh[p] as int != n - 1);
            } else {
                assert(sh[p + 1] as int != n - 1);
            }
        }
        lemma_reindex_multiset(es1, sh1, qp1);
        let t1 = Seq::new(es1.len(), |p: int| es1[sh1[p] as int]);
        assert(t1 =~= t.remove(p0));
        assert(t.remove(p0).to_multiset() == t.to_multiset().remove(t[p0]));
        assert(t[p0] == x);
        assert(t.contains(x));
        assert(t.to_multiset().count(x) > 0);
        assert(es =~= es1.push(x));
        assert(es.to_multiset() == es1.to_multiset().insert(x));
        assert(t.to_multiset() =~= t.to_multiset().remove(x).insert(x));
        assert(t.to_multiset() == es.to_multiset());
    }
}

} // verus!
