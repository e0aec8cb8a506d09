use cdcl_sat::clause_arena::{ClauseArena, CREF_UNDEF};
use cdcl_sat::drat::DratLogger;

#[test]
fn test_delete_learned_clause() {
    let mut arena = ClauseArena::new();
    let cr = arena.alloc_clause(&[-5, 7], true, 2);
    arena.set_deleted(cr);
    assert!(arena.is_deleted(cr));
    assert_eq!(arena.wasted(), 5);
}

#[test]
fn test_double_delete_is_idempotent() {
    let mut arena = ClauseArena::new();
    let cr = arena.alloc_clause(&[1, 2], false, 0);
    arena.set_deleted(cr);
    let w1 = arena.wasted();
    arena.set_deleted(cr);
    let w2 = arena.wasted();
    assert_eq!(w1, w2, "double delete should not double-count wasted space");
}

#[test]
fn test_wasted_accumulates() {
    let mut arena = ClauseArena::new();
    let cr0 = arena.alloc_clause(&[1, 2], false, 0);
    let cr1 = arena.alloc_clause(&[3, 4, 5], true, 2);
    let _cr2 = arena.alloc_clause(&[6], false, 0);
    arena.set_deleted(cr0);
    assert_eq!(arena.wasted(), 3);
    arena.set_deleted(cr1);
    assert_eq!(arena.wasted(), 3 + 6);
}

#[test]
fn test_set_lbd() {
    let mut arena = ClauseArena::new();
    let cr = arena.alloc_clause(&[1, -2, 3], true, 5);
    assert_eq!(arena.lbd(cr), 5);
    arena.set_lbd(cr, 2);
    assert_eq!(arena.lbd(cr), 2);
}

#[test]
fn test_cref_undef_is_max() {
    assert_eq!(CREF_UNDEF, u32::MAX);
}

#[test]
fn test_with_capacity() {
    let arena = ClauseArena::with_capacity(1024);
    assert_eq!(arena.wasted(), 0);
    assert_eq!(arena.total_words(), 0);
}

#[test]
fn test_default() {
    let arena = ClauseArena::default();
    assert_eq!(arena.wasted(), 0);
}

#[test]
fn test_delete_preserves_learnt_flag() {
    let mut arena = ClauseArena::new();
    let cr = arena.alloc_clause(&[1, 2, 3], true, 7);
    assert!(arena.is_learnt(cr));
    arena.set_deleted(cr);
    assert!(arena.is_learnt(cr));
    assert!(arena.is_deleted(cr));
    assert_eq!(arena.len(cr), 3);
}

#[test]
fn test_delete_preserves_length() {
    let mut arena = ClauseArena::new();
    let cr = arena.alloc_clause(&[1, 2, 3, 4, 5], false, 0);
    arena.set_deleted(cr);
    assert_eq!(arena.len(cr), 5);
}

#[test]
fn arena_layout_and_mutation() {
    let mut arena = ClauseArena::new();
    let cr0 = arena.alloc_clause(&[1, -2], false, 0);
    let cr1 = arena.alloc_clause(&[3, 4, 5], true, 3);
    let cr2 = arena.alloc_clause(&[-6], false, 0);
    assert_eq!((cr0, cr1, cr2), (0, 3, 9));
    assert_eq!(arena.lits(cr1), vec![3, 4, 5]);
    arena.swap_lits(cr1, 0, 2);
    arena.set_lit(cr1, 1, -99);
    assert_eq!(arena.lits(cr1), vec![5, -99, 3]);
    assert_eq!(arena.lits(cr0), vec![1, -2]);
    assert_eq!(arena.lits(cr2), vec![-6]);
    assert_eq!(arena.lit(cr2, 0), -6);
    assert_eq!(arena.activity(cr1), 0);
    arena.set_activity(cr1, 17);
    assert_eq!(arena.activity(cr1), 17);
    assert_eq!(arena.total_words(), 11);
    let lits = vec![-1, -100, i32::MIN + 1, i32::MAX];
    let cr3 = arena.alloc_clause(&lits, false, 0);
    assert_eq!(arena.lits(cr3), lits);
}

#[test]
fn test_in_memory_logging() {
    let mut logger = DratLogger::in_memory();
    assert!(logger.is_enabled());
    logger.add_clause(&[1, -2, 3]);
    logger.add_clause(&[-4, 5]);
    logger.delete_clause(&[1, -2, 3]);
    assert_eq!(logger.num_additions(), 2);
    assert_eq!(logger.num_deletions(), 1);
}

#[test]
fn test_empty_clause() {
    let mut logger = DratLogger::in_memory();
    logger.add_clause(&[]);
    assert_eq!(logger.num_additions(), 1);
}

#[test]
fn drat_text_and_disabled_logger() {
    let mut logger = DratLogger::in_memory();
    logger.add_clause(&[1, -2, 3]);
    logger.add_clause(&[-4]);
    logger.delete_clause(&[1, -2, 3]);
    logger.flush();
    assert_eq!(logger.output(), "1 -2 3 0\n-4 0\nd 1 -2 3 0\n");
    let mut off = DratLogger::disabled();
    assert!(!off.is_enabled());
    off.add_clause(&[1, -2, 3]);
    off.delete_clause(&[4, 5]);
    assert_eq!(off.num_additions(), 0);
    assert_eq!(off.num_deletions(), 0);
    assert_eq!(off.output(), "");
}

#[test]
fn test_disabled_logger() {
    let mut logger = DratLogger::disabled();
    assert!(!logger.is_enabled());
    logger.add_clause(&[1, -2, 3]);
    logger.delete_clause(&[4, 5]);
    assert_eq!(logger.num_additions(), 0);
    assert_eq!(logger.num_deletions(), 0);
}
