use feather_core::store::Store;
use feather_core::StoreError;

#[test]
fn store_zero_size_is_invalid() {
    assert!(matches!(Store::create(0), Err(StoreError::InvalidSize)));
}

#[test]
fn store_starts_zeroed() {
    let s = Store::create(1024).expect("create");
    assert_eq!(s.size(), 1024);
    assert_eq!(s.read(0, 1024).expect("in bounds"), vec![0u8; 1024]);
}

#[test]
fn store_write_then_read() {
    let mut s = Store::create(64).expect("create");
    assert!(s.write_range(10, &vec![1, 2, 3]));
    assert_eq!(s.read(10, 3).expect("in bounds"), vec![1, 2, 3]);
    assert_eq!(s.read(9, 1).expect("in bounds"), vec![0]);
    assert_eq!(s.read(13, 1).expect("in bounds"), vec![0]);
}

#[test]
fn store_boundary_policy() {
    let mut s = Store::create(8).expect("create");
    assert!(s.write_range(6, &vec![1, 2]));
    assert!(!s.write_range(7, &vec![1, 2]));
    assert!(!s.write_range(8, &vec![1]));
    assert!(!s.write_range(usize::MAX, &vec![1]));
    assert!(s.read(6, 2).is_some());
    assert!(s.read(7, 2).is_none());
    assert_eq!(s.read(0, 8).expect("in bounds"), vec![0, 0, 0, 0, 0, 0, 1, 2]);
}

#[test]
fn store_sync_reports() {
    let s = Store::create(8).expect("create");
    let _ = s.sync();
}
