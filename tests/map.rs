use treap::{EmptyStats, KeyValueSum, TreapMap};

#[test]
fn map_basic() {
    let mut t: TreapMap<u8, i32> = TreapMap::new();
    assert!(t.is_empty());
    assert_eq!(t.insert(b'a', 0), None);
    assert!(!t.is_empty());
    assert_eq!(t.len(), 1);
    assert_eq!(t.insert(b'a', 1), Some(0));
    assert_eq!(t.len(), 1);
    assert_eq!(t.insert(b'b', 4), None);
    assert_eq!(t.len(), 2);
    assert_eq!(t.remove(&b'a'), Some(1));
    assert_eq!(t.len(), 1);
    assert_eq!(t.get(&b'a'), None);
    assert_eq!(t.remove(&b'a'), None);
    assert_eq!(t.get(&b'b'), Some(&4));
    t.clear();
    assert!(t.is_empty());
}

#[test]
fn map_stats() {
    let mut t: TreapMap<isize, isize, KeyValueSum> = TreapMap::default();
    for i in 0..10 {
        assert_eq!(t.insert(i, i * 10), None);
    }
    assert_eq!(t.len(), 10);
    assert_eq!(
        t.stats(&3..&6),
        Some(KeyValueSum {
            key_sum: (3 + 4 + 5),
            value_sum: (3 + 4 + 5) * 10,
        })
    );
    assert_eq!(
        t.stats_full(),
        Some(KeyValueSum {
            key_sum: 9 * (9 + 1) / 2,
            value_sum: 9 * (9 + 1) / 2 * 10,
        })
    );
}

fn sums_map() -> TreapMap<isize, isize, KeyValueSum> {
    let mut t: TreapMap<isize, isize, KeyValueSum> = TreapMap::new();
    for i in 0..10 {
        assert_eq!(t.insert(i, i * 10), None);
    }
    t
}

#[test]
fn replace_keeps_len_and_returns_old_value() {
    let mut t: TreapMap<u64, u64> = TreapMap::new();
    assert_eq!(t.insert(7, 70), None);
    assert_eq!(t.insert(8, 80), None);
    assert_eq!(t.len(), 2);
    assert_eq!(t.insert(7, 71), Some(70));
    assert_eq!(t.len(), 2);
    assert_eq!(t.get(&7), Some(&71));
    assert_eq!(t.get(&8), Some(&80));
}

#[test]
fn remove_absent_key_changes_nothing() {
    let mut t: TreapMap<u64, u64> = TreapMap::new();
    assert_eq!(t.remove(&26), None);
    assert_eq!(t.len(), 0);
    t.insert(1, 10);
    t.insert(2, 20);
    assert_eq!(t.remove(&26), None);
    assert_eq!(t.len(), 2);
    assert_eq!(t.get(&1), Some(&10));
    assert_eq!(t.get(&2), Some(&20));
}

#[test]
fn remove_present_key() {
    let mut t = sums_map();
    assert_eq!(t.remove(&4), Some(40));
    assert_eq!(t.len(), 9);
    assert_eq!(t.get(&4), None);
    assert_eq!(
        t.stats_full(),
        Some(KeyValueSum { key_sum: 41, value_sum: 410 })
    );
}

#[test]
fn clear_empties_the_map() {
    let mut t = sums_map();
    t.clear();
    assert!(t.is_empty());
    assert_eq!(t.len(), 0);
    assert_eq!(t.stats_full(), None);
    assert_eq!(t.get(&3), None);
}

#[test]
fn range_without_keys_gives_none() {
    let mut t = sums_map();
    assert_eq!(t.stats(&20..&30), None);
    assert_eq!(t.stats(&5..&5), None);
    assert_eq!(t.stats(&6..&3), None);
    assert_eq!(t.len(), 10);
}

#[test]
fn range_bounds_are_half_open() {
    let mut t = sums_map();
    assert_eq!(
        t.stats(&-5..&1),
        Some(KeyValueSum { key_sum: 0, value_sum: 0 })
    );
    assert_eq!(
        t.stats(&9..&100),
        Some(KeyValueSum { key_sum: 9, value_sum: 90 })
    );
    assert_eq!(
        t.stats(&0..&10),
        Some(KeyValueSum { key_sum: 45, value_sum: 450 })
    );
}

#[test]
fn range_query_keeps_contents() {
    let mut t = sums_map();
    assert!(t.stats(&2..&7).is_some());
    assert!(t.stats(&0..&1).is_some());
    assert_eq!(t.len(), 10);
    for i in 0..10 {
        assert_eq!(t.get(&i), Some(&(i * 10)));
    }
    assert_eq!(t.get(&10), None);
}

#[test]
fn fixed_priorities_give_same_results() {
    let mut t: TreapMap<isize, isize, KeyValueSum> = TreapMap::new();
    for i in 0..10 {
        assert_eq!(t.insert_with_priority(i, i * 10, (10 - i) as u64), None);
    }
    assert_eq!(t.insert_with_priority(3, 33, 0), Some(30));
    assert_eq!(
        t.stats(&3..&6),
        Some(KeyValueSum { key_sum: 12, value_sum: 123 })
    );
    assert_eq!(
        t.stats_full(),
        Some(KeyValueSum { key_sum: 45, value_sum: 453 })
    );
}

#[test]
fn equal_priorities_are_handled() {
    let mut t: TreapMap<u64, u64> = TreapMap::new();
    for i in 0..20 {
        assert_eq!(t.insert_with_priority(i, i, 5), None);
    }
    assert_eq!(t.len(), 20);
    for i in 0..20 {
        assert_eq!(t.get(&i), Some(&i));
    }
    assert_eq!(t.remove(&10), Some(10));
    assert_eq!(t.get(&10), None);
    assert_eq!(t.len(), 19);
}

#[test]
fn sums_wrap_on_overflow() {
    let mut t: TreapMap<isize, isize, KeyValueSum> = TreapMap::new();
    t.insert(isize::MAX, 1);
    t.insert(1, isize::MAX);
    assert_eq!(
        t.stats_full(),
        Some(KeyValueSum { key_sum: isize::MIN, value_sum: isize::MIN })
    );
}

#[test]
fn empty_stats_policy() {
    let mut t: TreapMap<i32, i32, EmptyStats> = TreapMap::new();
    assert_eq!(t.stats_full(), None);
    t.insert(-3, 1);
    assert_eq!(t.stats_full(), Some(EmptyStats));
    assert_eq!(t.stats(&-3..&-2), Some(EmptyStats));
    assert_eq!(t.stats(&-2..&0), None);
}
