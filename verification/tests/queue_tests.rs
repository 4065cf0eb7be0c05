use double_priority_queue::queue::DoublePriorityQueue;

fn s(x: &str) -> String {
    x.to_string()
}

#[test]
fn empty_queue_basics() {
    let mut pq = DoublePriorityQueue::new();
    assert!(pq.is_empty());
    assert_eq!(pq.len(), 0);
    assert_eq!(pq.peek_min(), None);
    assert_eq!(pq.peek_max(), None);
    assert_eq!(pq.pop_min(), None);
    assert_eq!(pq.pop_max(), None);
}

#[test]
fn push_and_peek_extrema() {
    let mut pq = DoublePriorityQueue::new();
    assert_eq!(pq.push(s("Apples"), 5), None);
    assert_eq!(pq.push(s("Bananas"), 8), None);
    assert_eq!(pq.push(s("Strawberries"), 23), None);
    assert_eq!(pq.peek_max(), Some((s("Strawberries"), 23)));
    assert_eq!(pq.peek_min(), Some((s("Apples"), 5)));
    assert_eq!(pq.change_priority("Bananas", 25), Some(8));
    assert_eq!(pq.peek_max(), Some((s("Bananas"), 25)));
}

#[test]
fn push_overwrites_existing() {
    let mut pq = DoublePriorityQueue::new();
    assert_eq!(pq.push(s("a"), 1), None);
    assert_eq!(pq.push(s("a"), 7), Some(1));
    assert_eq!(pq.len(), 1);
    assert_eq!(pq.get_priority("a"), Some(7));
}

#[test]
fn get_after_push_and_change() {
    let mut pq = DoublePriorityQueue::new();
    pq.push(s("x"), 3);
    assert_eq!(pq.get_priority("x"), Some(3));
    pq.change_priority("x", -4);
    assert_eq!(pq.get_priority("x"), Some(-4));
    assert_eq!(pq.get("x"), Some((s("x"), -4)));
    assert_eq!(pq.get("y"), None);
    assert_eq!(pq.get_priority("y"), None);
}

#[test]
fn ascending_round_trip() {
    let mut pq = DoublePriorityQueue::new();
    pq.push(s("A"), 5);
    pq.push(s("B"), 8);
    pq.push(s("C"), 23);
    assert_eq!(pq.into_ascending_sorted_vec(), vec![s("A"), s("B"), s("C")]);
}

#[test]
fn descending_round_trip() {
    let mut pq = DoublePriorityQueue::new();
    pq.push(s("A"), 5);
    pq.push(s("B"), 8);
    pq.push(s("C"), 23);
    assert_eq!(pq.into_descending_sorted_vec(), vec![s("C"), s("B"), s("A")]);
}

#[test]
fn pop_min_sequence_is_nondecreasing() {
    let mut pq = DoublePriorityQueue::new();
    let vals: [i64; 12] = [5, -3, 9, 0, 22, -17, 4, 4, 31, 2, -3, 8];
    for (i, v) in vals.iter().enumerate() {
        pq.push(format!("item{}", i), *v);
    }
    let mut prev = i64::MIN;
    let mut count = 0;
    while let Some((_, p)) = pq.pop_min() {
        assert!(prev <= p);
        prev = p;
        count += 1;
    }
    assert_eq!(count, 12);
}

#[test]
fn pop_max_sequence_is_nonincreasing() {
    let mut pq = DoublePriorityQueue::new();
    let vals: [i64; 12] = [5, -3, 9, 0, 22, -17, 4, 4, 31, 2, -3, 8];
    for (i, v) in vals.iter().enumerate() {
        pq.push(format!("item{}", i), *v);
    }
    let mut prev = i64::MAX;
    let mut count = 0;
    while let Some((_, p)) = pq.pop_max() {
        assert!(prev >= p);
        prev = p;
        count += 1;
    }
    assert_eq!(count, 12);
}

#[test]
fn push_increase_rejects_lower_or_equal() {
    let mut pq = DoublePriorityQueue::new();
    pq.push(s("a"), 10);
    // a lower or equal priority is handed back unchanged
    assert_eq!(pq.push_increase(s("a"), 10), Some(10));
    assert_eq!(pq.get_priority("a"), Some(10));
    assert_eq!(pq.push_increase(s("a"), 3), Some(3));
    assert_eq!(pq.get_priority("a"), Some(10));
    // a strictly greater one replaces and returns the old value
    assert_eq!(pq.push_increase(s("a"), 12), Some(10));
    assert_eq!(pq.get_priority("a"), Some(12));
    // a missing item is inserted
    assert_eq!(pq.push_increase(s("b"), 1), None);
    assert_eq!(pq.get_priority("b"), Some(1));
}

#[test]
fn push_decrease_rejects_higher_or_equal() {
    let mut pq = DoublePriorityQueue::new();
    pq.push(s("a"), 10);
    assert_eq!(pq.push_decrease(s("a"), 10), Some(10));
    assert_eq!(pq.get_priority("a"), Some(10));
    assert_eq!(pq.push_decrease(s("a"), 30), Some(30));
    assert_eq!(pq.get_priority("a"), Some(10));
    assert_eq!(pq.push_decrease(s("a"), 2), Some(10));
    assert_eq!(pq.get_priority("a"), Some(2));
    assert_eq!(pq.push_decrease(s("b"), 1), None);
}

#[test]
fn remove_missing_is_a_noop() {
    let mut pq = DoublePriorityQueue::new();
    pq.push(s("a"), 1);
    pq.push(s("b"), 2);
    assert_eq!(pq.remove("zebra"), None);
    assert_eq!(pq.len(), 2);
}

#[test]
fn remove_present_item() {
    let mut pq = DoublePriorityQueue::new();
    pq.push(s("a"), 1);
    pq.push(s("b"), 2);
    pq.push(s("c"), 3);
    assert_eq!(pq.remove("b"), Some((s("b"), 2)));
    assert_eq!(pq.len(), 2);
    assert_eq!(pq.get_priority("b"), None);
    assert_eq!(pq.pop_min(), Some((s("a"), 1)));
    assert_eq!(pq.pop_min(), Some((s("c"), 3)));
}

#[test]
fn len_tracks_pushes_and_pops() {
    let mut pq = DoublePriorityQueue::new();
    pq.push(s("a"), 1);
    pq.push(s("b"), 2);
    pq.push(s("c"), 3);
    assert_eq!(pq.len(), 3);
    pq.push(s("b"), 9); // overwrite: no growth
    assert_eq!(pq.len(), 3);
    pq.pop_min();
    assert_eq!(pq.len(), 2);
    pq.pop_max();
    assert_eq!(pq.len(), 1);
    pq.remove("zebra"); // absent: no shrink
    assert_eq!(pq.len(), 1);
    pq.clear();
    assert_eq!(pq.len(), 0);
}

#[test]
fn shrink_to_fit_and_heap_build_are_idempotent() {
    let mut pq = DoublePriorityQueue::with_capacity(64);
    pq.push(s("a"), 4);
    pq.push(s("b"), -1);
    pq.push(s("c"), 10);
    pq.shrink_to_fit();
    let snap1 = pq.iter();
    pq.shrink_to_fit();
    assert_eq!(pq.iter(), snap1);
    pq.heap_build();
    let snap2 = pq.iter();
    pq.heap_build();
    assert_eq!(pq.iter(), snap2);
    assert_eq!(pq.peek_min(), Some((s("b"), -1)));
    assert_eq!(pq.peek_max(), Some((s("c"), 10)));
}

#[test]
fn iter_and_into_vec_list_all_entries() {
    let mut pq = DoublePriorityQueue::new();
    pq.push(s("a"), 1);
    pq.push(s("b"), 2);
    let entries = pq.iter();
    assert_eq!(entries.len(), 2);
    assert!(entries.contains(&(s("a"), 1)));
    assert!(entries.contains(&(s("b"), 2)));
    let items = pq.into_vec();
    assert_eq!(items.len(), 2);
    assert!(items.contains(&s("a")));
    assert!(items.contains(&s("b")));
}

#[test]
fn sorted_iter_is_double_ended() {
    let mut pq = DoublePriorityQueue::new();
    pq.push(s("low"), 1);
    pq.push(s("mid"), 2);
    pq.push(s("high"), 3);
    let mut it = pq.into_sorted_iter();
    assert_eq!(it.next(), Some((s("low"), 1)));
    assert_eq!(it.next_back(), Some((s("high"), 3)));
    assert_eq!(it.next(), Some((s("mid"), 2)));
    assert_eq!(it.next(), None);
    assert_eq!(it.next_back(), None);
}

#[test]
fn constructors_agree() {
    let pq = DoublePriorityQueue::with_capacity_and_default_hasher(10);
    assert!(pq.is_empty());
    let pq = DoublePriorityQueue::with_default_hasher();
    assert!(pq.is_empty());
    let pq = DoublePriorityQueue::with_capacity(3);
    assert!(pq.capacity() >= 0);
    assert!(pq.is_empty());
}

#[test]
fn reserve_keeps_contents() {
    let mut pq = DoublePriorityQueue::new();
    pq.push(s("a"), 1);
    pq.reserve(100);
    assert!(pq.capacity() >= 1);
    assert_eq!(pq.get_priority("a"), Some(1));
    assert_eq!(pq.len(), 1);
}

#[test]
fn duplicate_priorities_all_come_out() {
    let mut pq = DoublePriorityQueue::new();
    pq.push(s("a"), 7);
    pq.push(s("b"), 7);
    pq.push(s("c"), 7);
    let mut items = pq.into_ascending_sorted_vec();
    items.sort();
    assert_eq!(items, vec![s("a"), s("b"), s("c")]);
}

#[test]
fn append_merges_and_empties_other() {
    let mut a = DoublePriorityQueue::new();
    a.push(s("x"), 1);
    a.push(s("y"), 5);
    let mut b = DoublePriorityQueue::new();
    b.push(s("y"), 100); // duplicate: a's entry wins
    b.push(s("z"), 3);
    a.append(&mut b);
    assert!(b.is_empty());
    assert_eq!(a.len(), 3);
    assert_eq!(a.get_priority("x"), Some(1));
    assert_eq!(a.get_priority("y"), Some(5));
    assert_eq!(a.get_priority("z"), Some(3));
    assert_eq!(a.into_ascending_sorted_vec(), vec![s("x"), s("z"), s("y")]);
}

#[test]
fn negative_priorities_order_correctly() {
    let mut pq = DoublePriorityQueue::new();
    pq.push(s("n"), -50);
    pq.push(s("z"), 0);
    pq.push(s("p"), 50);
    assert_eq!(pq.peek_min(), Some((s("n"), -50)));
    assert_eq!(pq.peek_max(), Some((s("p"), 50)));
    assert_eq!(pq.pop_max(), Some((s("p"), 50)));
    assert_eq!(pq.pop_max(), Some((s("z"), 0)));
    assert_eq!(pq.pop_max(), Some((s("n"), -50)));
}

#[test]
fn extend_upserts_in_order() {
    let mut pq = DoublePriorityQueue::new();
    pq.push(s("a"), 1);
    pq.extend(vec![(s("b"), 2), (s("a"), 10), (s("c"), 3), (s("c"), -7)]);
    assert_eq!(pq.len(), 3);
    assert_eq!(pq.get_priority("a"), Some(10)); // overwritten by the batch
    assert_eq!(pq.get_priority("b"), Some(2));
    assert_eq!(pq.get_priority("c"), Some(-7)); // the later occurrence wins
    assert_eq!(pq.peek_min(), Some((s("c"), -7)));
    assert_eq!(pq.peek_max(), Some((s("a"), 10)));
}

#[test]
fn extend_large_batch_triggers_rebuild_path() {
    let mut pq = DoublePriorityQueue::new();
    pq.push(s("seed"), 0);
    let mut batch: Vec<(String, i64)> = Vec::new();
    for i in 0..200i64 {
        batch.push((format!("k{}", i), 200 - i));
    }
    pq.extend(batch);
    assert_eq!(pq.len(), 201);
    assert_eq!(pq.peek_min(), Some((s("seed"), 0)));
    assert_eq!(pq.peek_max(), Some((s("k0"), 200)));
    let mut prev = i64::MIN;
    while let Some((_, p)) = pq.pop_min() {
        assert!(prev <= p);
        prev = p;
    }
}

#[test]
fn from_vec_collapses_duplicates_to_the_last() {
    let pq = DoublePriorityQueue::from_vec(vec![(s("a"), 1), (s("b"), 9), (s("a"), 4)]);
    assert_eq!(pq.len(), 2);
    assert_eq!(pq.get_priority("a"), Some(4));
    assert_eq!(pq.peek_max(), Some((s("b"), 9)));
    assert_eq!(pq.peek_min(), Some((s("a"), 4)));
}

#[test]
fn clear_drops_every_entry() {
    let mut pq = DoublePriorityQueue::new();
    pq.push(s("a"), 1);
    pq.push(s("b"), 2);
    pq.clear();
    assert_eq!(pq.get_priority("a"), None);
    assert_eq!(pq.get("b"), None);
    assert_eq!(pq.peek_min(), None);
    assert_eq!(pq.peek_max(), None);
    assert!(pq.is_empty());
}

#[test]
fn default_is_empty() {
    let pq = DoublePriorityQueue::default();
    assert!(pq.is_empty());
    assert_eq!(pq.peek_min(), None);
}

#[test]
fn change_priority_by_applies_function() {
    let mut pq = DoublePriorityQueue::new();
    pq.push(s("a"), 5);
    pq.push(s("b"), 10);
    assert!(pq.change_priority_by("a", |p| p + 100));
    assert!(!pq.change_priority_by("zebra", |p| p + 1));
    assert_eq!(pq.get_priority("a"), Some(105));
    assert_eq!(pq.peek_max(), Some((s("a"), 105)));
    assert_eq!(pq.len(), 2);
}

#[test]
fn priority_changes_keep_heap_order() {
    let mut pq = DoublePriorityQueue::new();
    for i in 0..30i64 {
        pq.push(format!("k{}", i), (i * 7) % 30);
    }
    // push every direction of repair: raises, drops, and no-ops at inner nodes
    for i in 0..30i64 {
        let k = format!("k{}", i);
        assert!(pq.change_priority(&k, (i * 13) % 41 - 17).is_some());
    }
    assert_eq!(pq.len(), 30);
    let mut last = i64::MIN;
    let mut seen = 0;
    let mut q = pq;
    while let Some((_, p)) = q.pop_min() {
        assert!(p >= last);
        last = p;
        seen += 1;
    }
    assert_eq!(seen, 30);
}

#[test]
fn removals_keep_heap_order() {
    let mut pq = DoublePriorityQueue::new();
    for i in 0..24i64 {
        pq.push(format!("r{}", i), (i * 11) % 24);
    }
    for i in 0..24i64 {
        if i % 3 == 0 {
            let k = format!("r{}", i);
            assert!(pq.remove(&k).is_some());
        }
    }
    assert_eq!(pq.len(), 16);
    let mut last = i64::MAX;
    let mut q = pq;
    while let Some((_, p)) = q.pop_max() {
        assert!(p <= last);
        last = p;
    }
}

#[test]
fn map_priorities_updates_every_entry() {
    let mut pq = DoublePriorityQueue::new();
    pq.push(s("a"), 1);
    pq.push(s("b"), 2);
    pq.push(s("c"), 3);
    pq.map_priorities(|p| -p);
    assert_eq!(pq.get_priority("a"), Some(-1));
    assert_eq!(pq.get_priority("b"), Some(-2));
    assert_eq!(pq.get_priority("c"), Some(-3));
    assert_eq!(pq.peek_min(), Some((s("c"), -3)));
    assert_eq!(pq.peek_max(), Some((s("a"), -1)));
}
