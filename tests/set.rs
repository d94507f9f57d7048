use treap::{ElementSum, TreapSet};

#[test]
fn set_basic() {
    let mut t: TreapSet<u8> = TreapSet::new();
    assert!(t.is_empty());
    assert_eq!(t.insert(b'a'), true);
    assert!(!t.is_empty());
    assert_eq!(t.len(), 1);
    assert_eq!(t.insert(b'a'), false);
    assert_eq!(t.len(), 1);
    assert_eq!(t.insert(b'b'), true);
    assert_eq!(t.len(), 2);
    assert_eq!(t.remove(&b'a'), true);
    assert_eq!(t.len(), 1);
    assert_eq!(t.contains(&b'a'), false);
    assert_eq!(t.remove(&b'a'), false);
    assert_eq!(t.contains(&b'b'), true);
    t.clear();
    assert!(t.is_empty());
}

#[test]
fn set_stats() {
    let mut t: TreapSet<isize, ElementSum> = TreapSet::default();
    for i in 0..10 {
        assert!(t.insert(i));
    }
    assert_eq!(t.len(), 10);
    assert_eq!(t.stats(&3..&6), Some(ElementSum { sum: 3 + 4 + 5 }));
    assert_eq!(t.stats_full(), Some(ElementSum { sum: 9 * 10 / 2 }));
}

#[test]
fn set_range_queries_keep_elements() {
    let mut t: TreapSet<isize, ElementSum> = TreapSet::new();
    for i in 0..10 {
        assert!(t.insert(i * 2));
    }
    assert_eq!(t.stats(&1..&2), None);
    assert_eq!(t.stats(&1..&7), Some(ElementSum { sum: 2 + 4 + 6 }));
    for i in 0..10 {
        assert!(t.contains(&(i * 2)));
        assert!(!t.contains(&(i * 2 + 1)));
    }
    assert_eq!(t.len(), 10);
    t.clear();
    assert_eq!(t.len(), 0);
    assert_eq!(t.stats_full(), None);
}
