use cdcl_sat::heap::VarHeap;

#[test]
fn test_basic_heap() {
    let mut h = VarHeap::new(5);
    h.set_activity(&[0, 30, 10, 50, 20, 40]);
    for v in 1..=5 {
        h.insert(v);
    }
    assert_eq!(h.remove_min(), Some(3));
    assert_eq!(h.remove_min(), Some(5));
    assert_eq!(h.remove_min(), Some(1));
    assert_eq!(h.remove_min(), Some(4));
    assert_eq!(h.remove_min(), Some(2));
    assert!(h.remove_min().is_none());
}

#[test]
fn test_update_activity() {
    let mut h = VarHeap::new(3);
    h.set_activity(&[0, 10, 20, 30]);
    for v in 1..=3 {
        h.insert(v);
    }
    assert_eq!(h.remove_min(), Some(3));
    h.update_activity(3, 5);
    h.insert(3);
    assert_eq!(h.remove_min(), Some(2));
    assert_eq!(h.remove_min(), Some(1));
    assert_eq!(h.remove_min(), Some(3));
}

#[test]
fn test_in_heap() {
    let mut h = VarHeap::new(3);
    h.set_activity(&[0, 10, 20, 30]);
    assert!(!h.in_heap(1));
    h.insert(1);
    assert!(h.in_heap(1));
    h.remove_min();
    assert!(!h.in_heap(1));
}

#[test]
fn test_decrease_promotes_variable() {
    let mut h = VarHeap::new(3);
    h.set_activity(&[0, 10, 20, 30]);
    for v in 1..=3 {
        h.insert(v);
    }
    h.raise_activity(1, 100);
    h.decrease(1);
    assert_eq!(h.remove_min(), Some(1));
}

#[test]
fn test_insert_idempotent() {
    let mut h = VarHeap::new(3);
    h.set_activity(&[0, 10, 20, 30]);
    h.insert(2);
    h.insert(2);
    assert!(h.in_heap(2));
    assert_eq!(h.remove_min(), Some(2));
    assert!(h.remove_min().is_none());
}

#[test]
fn test_empty_heap() {
    let h = VarHeap::new(0);
    assert!(h.is_empty());
}

#[test]
fn test_sync_activity_rebuilds_order() {
    let mut h = VarHeap::new(4);
    h.set_activity(&[0, 40, 30, 20, 10]);
    for v in 1..=4 {
        h.insert(v);
    }
    h.sync_activity(&[0, 10, 20, 30, 40]);
    assert_eq!(h.remove_min(), Some(4));
    assert_eq!(h.remove_min(), Some(3));
}

#[test]
fn test_large_heap() {
    let n = 1000usize;
    let mut h = VarHeap::new(n);
    let act: Vec<u64> = (0..=n as u64).collect();
    h.set_activity(&act);
    for v in 1..=n {
        h.insert(v as i32);
    }
    let mut prev = u64::MAX;
    for _ in 0..n {
        let v = h.remove_min().unwrap();
        let a = v as u64;
        assert!(a <= prev);
        prev = a;
    }
    assert!(h.is_empty());
}
