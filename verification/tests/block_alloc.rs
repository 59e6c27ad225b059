use pwdchk::block_alloc::{MyAlloc, ALLOC_BLOCK_NUM, ALLOC_BLOCK_SIZE};

#[test]
fn new_marks_every_block_taken() {
    let a = MyAlloc::new();
    assert!(a.data.tab_alloc.iter().all(|b| *b));
    assert!(a.memory.iter().all(|b| *b == 0));
    assert_eq!(ALLOC_BLOCK_NUM, 16384);
    assert_eq!(ALLOC_BLOCK_SIZE, 64);
    for n in 0..4 {
        assert_eq!(a.data.find_blocks(n), None);
    }
}

#[test]
fn find_blocks_returns_end_of_first_free_run() {
    let mut a = MyAlloc::new();
    a.data.mark_blocks(10, 3, false);
    assert_eq!(a.data.find_blocks(1), Some(10));
    assert_eq!(a.data.find_blocks(2), Some(11));
    assert_eq!(a.data.find_blocks(3), Some(12));
    assert_eq!(a.data.find_blocks(4), None);
    assert_eq!(a.data.find_blocks(0), None);
}

#[test]
fn find_blocks_skips_runs_too_short() {
    let mut a = MyAlloc::new();
    a.data.mark_blocks(0, 2, false);
    a.data.mark_blocks(100, 5, false);
    assert_eq!(a.data.find_blocks(2), Some(1));
    assert_eq!(a.data.find_blocks(3), Some(102));
    assert_eq!(a.data.find_blocks(5), Some(104));
    assert_eq!(a.data.find_blocks(6), None);
}

#[test]
fn mark_blocks_sets_exactly_the_range() {
    let mut a = MyAlloc::new();
    a.data.mark_blocks(5, 4, false);
    for i in 0..ALLOC_BLOCK_NUM {
        assert_eq!(a.data.tab_alloc[i], !(5..9).contains(&i));
    }
    a.data.mark_blocks(6, 2, true);
    assert!(!a.data.tab_alloc[5] && a.data.tab_alloc[6] && a.data.tab_alloc[7] && !a.data.tab_alloc[8]);
    assert_eq!(a.data.find_blocks(2), None);
    assert_eq!(a.data.find_blocks(1), Some(5));
}

#[test]
fn mark_blocks_of_nothing_changes_nothing() {
    let mut a = MyAlloc::new();
    a.data.mark_blocks(ALLOC_BLOCK_NUM, 0, false);
    assert!(a.data.tab_alloc.iter().all(|b| *b));
}

#[test]
fn whole_table_free() {
    let mut a = MyAlloc::new();
    a.data.mark_blocks(0, ALLOC_BLOCK_NUM, false);
    assert_eq!(a.data.find_blocks(ALLOC_BLOCK_NUM), Some(ALLOC_BLOCK_NUM - 1));
    assert_eq!(a.data.find_blocks(ALLOC_BLOCK_NUM + 1), None);
    assert_eq!(a.data.find_blocks(1), Some(0));
}

#[test]
fn take_then_release_restores() {
    let mut a = MyAlloc::new();
    a.data.mark_blocks(20, 8, false);
    let end = a.data.find_blocks(4).unwrap();
    assert_eq!(end, 23);
    a.data.mark_blocks(end + 1 - 4, 4, true);
    assert_eq!(a.data.find_blocks(4), Some(27));
    a.data.mark_blocks(end + 1 - 4, 4, false);
    assert_eq!(a.data.find_blocks(8), Some(27));
}
