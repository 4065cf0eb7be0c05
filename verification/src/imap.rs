//! The order-preserving associative map that backs the queue: an
//! `indexmap::IndexMap` from item to priority, where every entry keeps a
//! dense index (its "slot number") that is stable until a removal.
//!
//! Verus sees the map only through the contracts in this module. Its logical
//! contents are named by `entries_of`, the sequence of `(item, priority)`
//! pairs in index order.

use indexmap::IndexMap;
use std::collections::hash_map::RandomState;
use vstd::prelude::*;

verus! {

#[verifier::external_type_specification]
#[verifier::external_body]
#[verifier::reject_recursive_types(K)]
#[verifier::reject_recursive_types(V)]
#[verifier::reject_recursive_types(S)]
pub struct ExIndexMap<K, V, S>(IndexMap<K, V, S>);

/// The `(item, priority)` entries of the map, in index order.
pub uninterp spec fn entries_of(m: IndexMap<String, i64, RandomState>) -> Seq<(Seq<char>, i64)>;

/// No two entries share an item. `IndexMap` guarantees this for every map it
/// ever hands out; it is carried along as an invariant.
pub open spec fn distinct_keys(es: Seq<(Seq<char>, i64)>) -> bool {
    forall|i: int, j: int| 0 <= i < j < es.len() ==> es[i].0 != es[j].0
}

/// Some entry holds the item `k`.
pub open spec fn has_key(es: Seq<(Seq<char>, i64)>, k: Seq<char>) -> bool {
    exists|j: int| 0 <= j < es.len() && es[j].0 == k
}

/// The index of the entry holding `k` (meaningful when `has_key` and the keys
/// are distinct).
pub open spec fn key_index(es: Seq<(Seq<char>, i64)>, k: Seq<char>) -> int {
    choose|j: int| 0 <= j < es.len() && es[j].0 == k
}

pub proof fn lemma_key_index(es: Seq<(Seq<char>, i64)>, k: Seq<char>)
    requires
        has_key(es, k),
    ensures
        0 <= key_index(es, k) < es.len(),
        es[key_index(es, k)].0 == k,
{
}

/// `key_index` is the only index holding `k` when keys are distinct.
pub proof fn lemma_key_index_unique(es: Seq<(Seq<char>, i64)>, k: Seq<char>, j: int)
    requires
        distinct_keys(es),
        0 <= j < es.len(),
        es[j].0 == k,
    ensures
        has_key(es, k),
        key_index(es, k) == j,
{
    let i = key_index(es, k);
}

/// Relies on `std::collections::hash_map::RandomState::new`: a freshly seeded
/// hasher state; nothing is promised of it.
#[verifier::external_body]
pub(crate) fn new_hasher_state() -> RandomState {
    RandomState::new()
}

/// Relies on `indexmap::IndexMap::with_capacity_and_hasher`: an empty map.
#[verifier::external_body]
pub(crate) fn im_with_capacity_and_hasher(n: usize, h: RandomState) -> (m: IndexMap<
    String,
    i64,
    RandomState,
>)
    ensures
        entries_of(m) == Seq::<(Seq<char>, i64)>::empty(),
{
    IndexMap::with_capacity_and_hasher(n, h)
}


/// Relies on `indexmap::IndexMap::capacity`: how many entries fit without
/// reallocation, which is never fewer than the map holds now.
#[verifier::external_body]
pub(crate) fn im_capacity(m: &IndexMap<String, i64, RandomState>) -> (n: usize)
    ensures
        n >= entries_of(*m).len(),
{
    m.capacity()
}

/// Relies on `indexmap::IndexMap::insert_full`: an existing item keeps its
/// index and only its priority is replaced, with the old priority returned;
/// a new item is appended at the end.
#[verifier::external_body]
pub(crate) fn im_insert_full(m: &mut IndexMap<String, i64, RandomState>, k: String, v: i64) -> (r:
    (usize, Option<i64>))
    requires
        distinct_keys(entries_of(*old(m))),
        entries_of(*old(m)).len() < usize::MAX,
    ensures
        ({
            let es = entries_of(*old(m));
            let es2 = entries_of(*final(m));
            if has_key(es, k@) {
                let j = key_index(es, k@);
                r.0 == j && r.1 == Some(es[j].1) && es2 == es.update(j, (es[j].0, v))
            } else {
                r.0 == es.len() && r.1 == None::<i64> && es2 == es.push((k@, v))
            }
        }),
{
    m.insert_full(k, v)
}

/// Relies on `indexmap::IndexMap::get_index_of`: the index of the entry whose
/// item equals the looked-up string, if one exists.
#[verifier::external_body]
pub(crate) fn im_get_index_of(m: &IndexMap<String, i64, RandomState>, k: &str) -> (r: Option<
    usize,
>)
    ensures
        match r {
            Some(j) => j < entries_of(*m).len() && entries_of(*m)[j as int].0 == k@,
            None => !has_key(entries_of(*m), k@),
        },
{
    m.get_index_of(k)
}

/// Relies on `indexmap::IndexMap::get_index`: the entry at a valid index.
#[verifier::external_body]
pub(crate) fn im_key_at(m: &IndexMap<String, i64, RandomState>, i: usize) -> (k: &String)
    requires
        i < entries_of(*m).len(),
    ensures
        k@ == entries_of(*m)[i as int].0,
{
    m.get_index(i).unwrap().0
}

/// Relies on `indexmap::IndexMap::get_index`: the entry at a valid index.
#[verifier::external_body]
pub(crate) fn im_val_at(m: &IndexMap<String, i64, RandomState>, i: usize) -> (v: i64)
    requires
        i < entries_of(*m).len(),
    ensures
        v == entries_of(*m)[i as int].1,
{
    *m.get_index(i).unwrap().1
}

/// Relies on `indexmap::IndexMap::get_index_mut`: the entry at a valid index,
/// its priority writable in place while the item stays put.
#[verifier::external_body]
pub(crate) fn im_set_val_at(m: &mut IndexMap<String, i64, RandomState>, i: usize, v: i64)
    requires
        i < entries_of(*old(m)).len(),
    ensures
        ({
            let es = entries_of(*old(m));
            entries_of(*final(m)) == es.update(i as int, (es[i as int].0, v))
        }),
{
    *m.get_index_mut(i).unwrap().1 = v;
}

/// Relies on `indexmap::IndexMap::swap_remove_index`: removes the entry at a
/// valid index by swapping the last entry into its place and popping.
#[verifier::external_body]
pub(crate) fn im_swap_remove_index(m: &mut IndexMap<String, i64, RandomState>, i: usize) -> (r: (
    String,
    i64,
))
    requires
        i < entries_of(*old(m)).len(),
    ensures
        ({
            let es = entries_of(*old(m));
            r.0@ == es[i as int].0 && r.1 == es[i as int].1 && entries_of(*final(m)) == es.update(
                i as int,
                es[es.len() - 1],
            ).take(es.len() - 1)
        }),
{
    let (k, v) = m.swap_remove_index(i).unwrap();
    (k, v)
}

/// Relies on `indexmap::IndexMap::reserve`: grows capacity and leaves the
/// entries as they are.
#[verifier::external_body]
pub(crate) fn im_reserve(m: &mut IndexMap<String, i64, RandomState>, additional: usize)
    requires
        entries_of(*old(m)).len() + additional <= usize::MAX,
    ensures
        entries_of(*final(m)) == entries_of(*old(m)),
{
    m.reserve(additional)
}

/// Relies on `indexmap::IndexMap::shrink_to_fit`: shrinks capacity and leaves
/// the entries as they are.
#[verifier::external_body]
pub(crate) fn im_shrink_to_fit(m: &mut IndexMap<String, i64, RandomState>)
    ensures
        entries_of(*final(m)) == entries_of(*old(m)),
{
    m.shrink_to_fit()
}

/// Relies on `indexmap::IndexMap::clear`: removes every entry.
#[verifier::external_body]
pub(crate) fn im_clear(m: &mut IndexMap<String, i64, RandomState>)
    ensures
        entries_of(*final(m)) == Seq::<(Seq<char>, i64)>::empty(),
{
    m.clear()
}

} // verus!
