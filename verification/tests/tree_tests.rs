use feather_core::tree::ChronoPatchTree;
use feather_core::StoreError;

#[test]
fn create_zero_size_is_invalid() {
    assert!(matches!(ChronoPatchTree::create(0), Err(StoreError::InvalidSize)));
}

#[test]
fn fresh_region_is_zeroed() {
    let t = ChronoPatchTree::create(4096).expect("create");
    assert_eq!(t.size(), 4096);
    assert_eq!(t.read(0, 16).expect("in bounds"), vec![0u8; 16]);
    assert_eq!(t.cursor(), 0);
    assert_eq!(t.journal_len(), 0);
}

#[test]
fn write_then_read_returns_written_bytes() {
    let mut t = ChronoPatchTree::create(4096).expect("create");
    assert!(t.write(100, &vec![9, 8, 7]));
    assert_eq!(t.read(100, 3).expect("in bounds"), vec![9, 8, 7]);
    assert_eq!(t.read(99, 5).expect("in bounds"), vec![0, 9, 8, 7, 0]);
}

#[test]
fn scenario_write_revert_apply() {
    let mut t = ChronoPatchTree::create(4096).expect("create");
    assert!(t.write(0, &vec![1, 2, 3, 4]));
    assert_eq!(t.read(0, 4).expect("in bounds"), vec![1, 2, 3, 4]);
    t.revert_patch();
    assert_eq!(t.read(0, 4).expect("in bounds"), vec![0, 0, 0, 0]);
    t.apply_patch();
    assert_eq!(t.read(0, 4).expect("in bounds"), vec![1, 2, 3, 4]);
}

#[test]
fn n_writes_n_reverts_restore_exactly() {
    let mut t = ChronoPatchTree::create(256).expect("create");
    assert!(t.write(10, &vec![1, 1, 1, 1]));
    let snapshot: Vec<u8> = t.read(0, 256).expect("whole region");
    // Three overlapping writes, then three reverts.
    assert!(t.write(10, &vec![2, 2]));
    assert!(t.write(11, &vec![3, 3, 3]));
    assert!(t.write(9, &vec![4, 4, 4, 4, 4, 4]));
    t.revert_patch();
    t.revert_patch();
    t.revert_patch();
    assert_eq!(t.read(0, 256).expect("whole region"), snapshot);
    assert_eq!(t.cursor(), 1);
}

#[test]
fn revert_on_empty_history_is_noop() {
    let mut t = ChronoPatchTree::create(64).expect("create");
    t.revert_patch();
    assert_eq!(t.cursor(), 0);
    assert_eq!(t.read(0, 64).expect("in bounds"), vec![0u8; 64]);
}

#[test]
fn apply_with_no_redo_is_noop() {
    let mut t = ChronoPatchTree::create(64).expect("create");
    assert!(t.write(0, &vec![5]));
    t.apply_patch();
    assert_eq!(t.cursor(), 1);
    assert_eq!(t.read(0, 1).expect("in bounds"), vec![5]);
}

#[test]
fn write_truncates_redo_tail() {
    let mut t = ChronoPatchTree::create(64).expect("create");
    assert!(t.write(0, &vec![0xAA])); // A
    assert!(t.write(1, &vec![0xBB])); // B
    t.revert_patch();
    t.revert_patch();
    assert_eq!(t.cursor(), 0);
    assert!(t.write(2, &vec![0xCC])); // C discards A and B for good
    assert_eq!(t.cursor(), 1);
    assert_eq!(t.journal_len(), 1);
    t.apply_patch(); // no-op: nothing redoable
    assert_eq!(t.cursor(), 1);
    assert_eq!(t.read(0, 3).expect("in bounds"), vec![0, 0, 0xCC]);
}

#[test]
fn out_of_bounds_write_is_reported_and_harmless() {
    let mut t = ChronoPatchTree::create(16).expect("create");
    assert!(t.write(0, &vec![7; 16]));
    assert!(!t.write(15, &vec![1, 2]));
    assert!(!t.write(16, &vec![1]));
    assert!(!t.write(usize::MAX, &vec![1]));
    assert_eq!(t.cursor(), 1);
    assert_eq!(t.journal_len(), 1);
    assert_eq!(t.read(0, 16).expect("in bounds"), vec![7; 16]);
}

#[test]
fn out_of_bounds_read_is_none() {
    let t = ChronoPatchTree::create(16).expect("create");
    assert!(t.read(0, 16).is_some());
    assert!(t.read(0, 17).is_none());
    assert!(t.read(16, 1).is_none());
    assert!(t.read(usize::MAX, 2).is_none());
    assert!(t.read(16, 0).is_some());
}

#[test]
fn close_releases_the_tree() {
    let mut t = ChronoPatchTree::create(32).expect("create");
    assert!(t.write(0, &vec![1]));
    let _flushed = t.close();
}
