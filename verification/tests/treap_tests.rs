use treap::treap::{Node, Treap};

#[test]
fn scenario_insert_sum_and_top_two() {
    let mut t = Treap::new();
    t.insert_value(5);
    t.insert_value(3);
    t.insert_value(8);
    t.insert_value(1);
    assert_eq!(t.sum(), 17);
    assert_eq!(t.sum_of_n_greatest(2), 13);
    t.remove_value(3);
    assert_eq!(t.sum(), 14);
    assert_eq!(t.sum_of_n_greatest(2), 13);
}

#[test]
fn scenario_quota_edges() {
    let mut t = Treap::new();
    t.insert_value(1);
    t.insert_value(2);
    t.insert_value(3);
    t.insert_value(4);
    assert_eq!(t.sum_of_n_greatest(0), 0);
    assert_eq!(t.sum_of_n_greatest(4), 10);
    assert_eq!(t.sum_of_n_greatest(5), 10);
}

#[test]
fn empty_treap_aggregates() {
    let t = Treap::new();
    assert_eq!(t.sum(), 0);
    assert_eq!(t.count(), 0);
    assert_eq!(t.sum_of_n_greatest(3), 0);
    assert!(!t.find_value(7));
    assert!(t.iter().is_empty());
    assert!(t.get().is_none());
}

#[test]
fn duplicates_kept_and_removed_one_at_a_time() {
    let mut t = Treap::new();
    t.insert_value(2);
    t.insert_value(2);
    t.insert_value(2);
    assert_eq!(t.count(), 3);
    assert_eq!(t.sum(), 6);
    assert_eq!(t.sum_of_n_greatest(2), 4);
    t.remove_value(2);
    assert_eq!(t.count(), 2);
    assert_eq!(t.sum(), 4);
    assert!(t.find_value(2));
}

#[test]
fn iter_yields_values_in_ascending_order() {
    let mut t = Treap::new();
    for v in [9i64, -3, 4, 4, 0, 12, -3] {
        t.insert_value(v);
    }
    assert_eq!(t.iter(), vec![-3, -3, 0, 4, 4, 9, 12]);
}

#[test]
fn insert_then_remove_restores_aggregates() {
    let mut t = Treap::new();
    for v in [10i64, 20, 30] {
        t.insert_value(v);
    }
    let sum0 = t.sum();
    let count0 = t.count();
    let seq0 = t.iter();
    t.insert_value(25);
    assert_eq!(t.sum(), sum0 + 25);
    assert_eq!(t.count(), count0 + 1);
    t.remove_value(25);
    assert_eq!(t.sum(), sum0);
    assert_eq!(t.count(), count0);
    assert_eq!(t.iter(), seq0);
}

#[test]
fn split_then_merge_restores_the_sequence() {
    let mut t = Treap::new();
    for v in [5i64, 1, 9, 7, 3] {
        t.insert_value(v);
    }
    let seq0 = t.iter();
    let sum0 = t.sum();
    let count0 = t.count();
    let (low, high) = t.split_at_value(6);
    assert_eq!(t.count(), 0);
    let joined = Treap::merge(low, high);
    let back = Treap::from_root(joined);
    assert_eq!(back.iter(), seq0);
    assert_eq!(back.sum(), sum0);
    assert_eq!(back.count(), count0);
}

#[test]
fn split_partitions_by_threshold() {
    let mut t = Treap::new();
    for v in [5i64, 1, 9, 7, 3] {
        t.insert_value(v);
    }
    let (low, high) = t.split_at_value(6);
    let low_t = Treap::from_root(low);
    let high_t = Treap::from_root(high);
    assert_eq!(low_t.iter(), vec![1, 3, 5]);
    assert_eq!(high_t.iter(), vec![7, 9]);
}

#[test]
fn split_at_value_routes_equal_values_right() {
    let mut t = Treap::new();
    for v in [2i64, 4, 4, 6] {
        t.insert_value(v);
    }
    let (low, high) = t.split_at_value(4);
    assert_eq!(Treap::from_root(low).iter(), vec![2]);
    assert_eq!(Treap::from_root(high).iter(), vec![4, 4, 6]);
}

#[test]
fn merge_with_empty_sides() {
    assert!(Treap::merge(None, None).is_none());
    let single = Some(Box::new(Node::new_with_priority(3, 1)));
    let joined = Treap::merge(single, None);
    let t = Treap::from_root(joined);
    assert_eq!(t.iter(), vec![3]);
    let single2 = Some(Box::new(Node::new_with_priority(8, 1)));
    let joined2 = Treap::merge(None, single2);
    assert_eq!(Treap::from_root(joined2).iter(), vec![8]);
}

#[test]
fn find_value_present_and_absent() {
    let mut t = Treap::new();
    for v in [4i64, 8, 15] {
        t.insert_value(v);
    }
    assert!(t.find_value(8));
    assert!(t.find_value(4));
    assert!(!t.find_value(9));
    t.remove_value(8);
    assert!(!t.find_value(8));
}

#[test]
fn negative_values() {
    let mut t = Treap::new();
    for v in [-5i64, -1, 3] {
        t.insert_value(v);
    }
    assert_eq!(t.sum(), -3);
    assert_eq!(t.sum_of_n_greatest(1), 3);
    assert_eq!(t.sum_of_n_greatest(2), 2);
    t.remove_value(-5);
    assert_eq!(t.sum(), 2);
}

#[test]
fn remove_only_element() {
    let mut t = Treap::new();
    t.insert_value(5);
    t.remove_value(5);
    assert_eq!(t.count(), 0);
    assert_eq!(t.sum(), 0);
    assert!(t.iter().is_empty());
}

#[test]
fn node_constructors_build_singleton_leaves() {
    let n = Node::new(42);
    assert_eq!(n.value, 42);
    assert_eq!(n.priority, 0);
    assert_eq!(n.count, 1);
    assert_eq!(n.sum, 42);
    assert!(n.left.is_none());
    assert!(n.right.is_none());
    let m = Node::new_with_priority(-7, 11);
    assert_eq!(m.value, -7);
    assert_eq!(m.priority, 11);
    assert_eq!(m.count, 1);
    assert_eq!(m.sum, -7);
}

#[test]
fn pull_recomputes_aggregates_from_children() {
    let a = Some(Box::new(Node::new_with_priority(1, 2)));
    let b = Some(Box::new(Node::new_with_priority(9, 3)));
    let joined = Treap::pull(5, 10, a, b);
    let t = Treap::from_root(joined);
    assert_eq!(t.count(), 3);
    assert_eq!(t.sum(), 15);
    assert_eq!(t.iter(), vec![1, 5, 9]);
}

#[test]
fn get_reads_the_root_aggregates() {
    let mut t = Treap::new();
    for v in [6i64, 2, 8] {
        t.insert_value(v);
    }
    let root = t.get().as_ref().unwrap();
    assert_eq!(root.count, 3);
    assert_eq!(root.sum, 16);
}

#[test]
fn many_values_stay_sorted_with_correct_aggregates() {
    let mut t = Treap::new();
    let mut expected: Vec<i64> = Vec::new();
    for i in 0..50i64 {
        let v = (i * 37 + 11) % 100;
        t.insert_value(v);
        expected.push(v);
    }
    expected.sort();
    assert_eq!(t.iter(), expected);
    assert_eq!(t.count(), 50);
    assert_eq!(t.sum(), expected.iter().sum::<i64>());
    let top10: i64 = expected[40..].iter().sum();
    assert_eq!(t.sum_of_n_greatest(10), top10);
}

#[test]
fn merge_higher_priority_wins_the_root() {
    let a = Some(Box::new(Node::new_with_priority(1, 50)));
    let b = Some(Box::new(Node::new_with_priority(9, 7)));
    let joined = Treap::merge(a, b);
    let root = joined.as_ref().unwrap();
    assert_eq!(root.value, 1);
    assert_eq!(root.priority, 50);
}

#[test]
fn merge_tie_prefers_the_right_root() {
    let a = Some(Box::new(Node::new_with_priority(1, 7)));
    let b = Some(Box::new(Node::new_with_priority(9, 7)));
    let joined = Treap::merge(a, b);
    let root = joined.as_ref().unwrap();
    assert_eq!(root.value, 9);
    assert_eq!(root.priority, 7);
}
