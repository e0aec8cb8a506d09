use cdcl_sat::clause_arena::ClauseArena;

#[test]
fn test_alloc_original_clause_and_readback() {
    let mut arena = ClauseArena::new();
    let lits: Vec<i32> = vec![1, -2, 3];
    let cr = arena.alloc_clause(&lits, false, 0);
    assert_eq!(cr, 0);
    assert_eq!(arena.len(cr), 3);
    assert!(!arena.is_learnt(cr));
    assert!(!arena.is_deleted(cr));
    assert_eq!(arena.lits(cr), vec![1, -2, 3]);
}

#[test]
fn test_alloc_learned_clause_and_readback() {
    let mut arena = ClauseArena::new();
    let lits: Vec<i32> = vec![-5, 7];
    let cr = arena.alloc_clause(&lits, true, 2);
    assert_eq!(cr, 0);
    assert_eq!(arena.len(cr), 2);
    assert!(arena.is_learnt(cr));
    assert!(!arena.is_deleted(cr));
    assert_eq!(arena.lbd(cr), 2);
    assert_eq!(arena.lits(cr), vec![-5, 7]);
}

#[test]
fn test_alloc_unit_clause() {
    let mut arena = ClauseArena::new();
    let cr = arena.alloc_clause(&[42], false, 0);
    assert_eq!(arena.len(cr), 1);
    assert_eq!(arena.lits(cr), vec![42]);
}

#[test]
fn test_alloc_empty_clause() {
    let mut arena = ClauseArena::new();
    let cr = arena.alloc_clause(&[], false, 0);
    assert_eq!(arena.len(cr), 0);
    assert_eq!(arena.lits(cr), Vec::<i32>::new());
}

#[test]
fn test_multiple_clauses_original() {
    let mut arena = ClauseArena::new();
    let cr0 = arena.alloc_clause(&[1, -2], false, 0);
    let cr1 = arena.alloc_clause(&[3, 4, 5], false, 0);
    let cr2 = arena.alloc_clause(&[-6], false, 0);
    assert_eq!(arena.lits(cr0), vec![1, -2]);
    assert_eq!(arena.lits(cr1), vec![3, 4, 5]);
    assert_eq!(arena.lits(cr2), vec![-6]);
    assert_eq!(cr1, 3);
    assert_eq!(cr2, 7);
}

#[test]
fn test_multiple_clauses_mixed_learnt() {
    let mut arena = ClauseArena::new();
    let cr0 = arena.alloc_clause(&[1, -2], false, 0);
    let cr1 = arena.alloc_clause(&[3, 4, 5], true, 3);
    let cr2 = arena.alloc_clause(&[-6], false, 0);
    assert_eq!(cr0, 0);
    assert_eq!(cr1, 3);
    assert_eq!(cr2, 9);
    assert!(!arena.is_learnt(cr0));
    assert!(arena.is_learnt(cr1));
    assert!(!arena.is_learnt(cr2));
    assert_eq!(arena.lits(cr0), vec![1, -2]);
    assert_eq!(arena.lits(cr1), vec![3, 4, 5]);
    assert_eq!(arena.lbd(cr1), 3);
    assert_eq!(arena.lits(cr2), vec![-6]);
}

#[test]
fn test_mutate_literals_swap() {
    let mut arena = ClauseArena::new();
    let cr = arena.alloc_clause(&[10, 20, 30], false, 0);
    arena.swap_lits(cr, 0, 2);
    assert_eq!(arena.lits(cr), vec![30, 20, 10]);
}

#[test]
fn test_mutate_literals_overwrite() {
    let mut arena = ClauseArena::new();
    let cr = arena.alloc_clause(&[1, 2, 3, 4], true, 1);
    arena.set_lit(cr, 1, -99);
    assert_eq!(arena.lits(cr), vec![1, -99, 3, 4]);
}

#[test]
fn test_mutate_does_not_affect_neighbors() {
    let mut arena = ClauseArena::new();
    let cr0 = arena.alloc_clause(&[1, 2], false, 0);
    let cr1 = arena.alloc_clause(&[3, 4], false, 0);
    let cr2 = arena.alloc_clause(&[5, 6], false, 0);
    arena.set_lit(cr1, 0, -100);
    arena.set_lit(cr1, 1, -200);
    assert_eq!(arena.lits(cr0), vec![1, 2]);
    assert_eq!(arena.lits(cr1), vec![-100, -200]);
    assert_eq!(arena.lits(cr2), vec![5, 6]);
}

#[test]
fn test_delete_original_clause() {
    let mut arena = ClauseArena::new();
    let cr = arena.alloc_clause(&[1, -2, 3], false, 0);
    assert!(!arena.is_deleted(cr));
    assert_eq!(arena.wasted(), 0);
    arena.set_deleted(cr);
    assert!(arena.is_deleted(cr));
    assert_eq!(arena.wasted(), 4);
    assert_eq!(arena.lits(cr), vec![1, -2, 3]);
}

#[test]
fn test_delete_preserves_other_clauses() {
    let mut arena = ClauseArena::new();
    let cr0 = arena.alloc_clause(&[1, 2], false, 0);
    let cr1 = arena.alloc_clause(&[3, 4, 5], false, 0);
    let cr2 = arena.alloc_clause(&[6, 7], true, 1);
    arena.set_deleted(cr1);
    assert!(!arena.is_deleted(cr0));
    assert!(arena.is_deleted(cr1));
    assert!(!arena.is_deleted(cr2));
    assert_eq!(arena.lits(cr0), vec![1, 2]);
    assert_eq!(arena.lits(cr2), vec![6, 7]);
}

#[test]
fn test_set_lbd_does_not_affect_literals() {
    let mut arena = ClauseArena::new();
    let cr = arena.alloc_clause(&[10, 20], true, 99);
    arena.set_lbd(cr, 1);
    assert_eq!(arena.lbd(cr), 1);
    assert_eq!(arena.lits(cr), vec![10, 20]);
}

#[test]
fn test_negative_literal_roundtrip() {
    let mut arena = ClauseArena::new();
    let lits: Vec<i32> = vec![-1, -2, -100, i32::MIN + 1, i32::MAX];
    let cr = arena.alloc_clause(&lits, false, 0);
    assert_eq!(arena.lits(cr), lits);
}

#[test]
fn test_many_clauses() {
    let mut arena = ClauseArena::new();
    let mut refs = Vec::new();
    for i in 0..1000i32 {
        let size = (i % 7) + 1;
        let lits: Vec<i32> = (0..size)
            .map(|j| if j % 2 == 0 { i + j + 1 } else { -(i + j + 1) })
            .collect();
        let learnt = i % 3 == 0;
        let lbd = if learnt { (i % 5) as u32 } else { 0 };
        let cr = arena.alloc_clause(&lits, learnt, lbd);
        refs.push((cr, lits, learnt, lbd));
    }
    for (cr, expected_lits, learnt, lbd) in &refs {
        assert_eq!(&arena.lits(*cr), expected_lits);
        assert_eq!(arena.is_learnt(*cr), *learnt);
        if *learnt {
            assert_eq!(arena.lbd(*cr), *lbd);
        }
        assert!(!arena.is_deleted(*cr));
    }
    let mut expected_wasted = 0usize;
    for (i, (cr, lits, learnt, _)) in refs.iter().enumerate() {
        if i % 2 == 0 {
            let footprint = 1 + if *learnt { 2 } else { 0 } + lits.len();
            expected_wasted += footprint;
            arena.set_deleted(*cr);
        }
    }
    assert_eq!(arena.wasted(), expected_wasted);
    for (i, (cr, expected_lits, _, _)) in refs.iter().enumerate() {
        if i % 2 == 0 {
            assert!(arena.is_deleted(*cr));
        } else {
            assert!(!arena.is_deleted(*cr));
            assert_eq!(&arena.lits(*cr), expected_lits);
        }
    }
}
