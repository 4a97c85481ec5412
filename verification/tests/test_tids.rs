use disk_utils::wal::tids::TidSet;

#[test]
fn test_tid_set() {
    let mut set = TidSet::new();
    assert!(set.is_empty());
    assert_eq!(set.max(), 0);
    assert!(!set.contains(3));
    set.insert(3);
    set.insert(1);
    set.insert(3);
    set.insert(2);
    assert_eq!(set.to_vec(), vec![3, 1, 2]);
    assert!(set.contains(1));
    assert_eq!(set.max(), 3);
    set.remove(3);
    set.remove(7);
    assert_eq!(set.to_vec(), vec![1, 2]);
    assert_eq!(set.max(), 2);
    set.remove(1);
    set.remove(2);
    assert!(set.is_empty());

    let set = TidSet::from_slice(&[5, 4, 5, 5, 9, 4]);
    assert_eq!(set.to_vec(), vec![5, 4, 9]);
    assert_eq!(set.max(), 9);
    assert_eq!(TidSet::from_slice(&[u64::MAX, 0]).max(), u64::MAX);
}
