use rle_store::interval::Interval;
use rle_store::store::RunStore;

fn get_mock_run_store() -> RunStore {
    RunStore::try_from(vec![
        Interval::from((5, 10)),
        Interval::from((15, 20)),
        Interval::from((25, 35)),
        Interval::from((37, 50)),
    ])
    .unwrap()
    .clone()
}

#[test]
fn test_interleaved_binary_search() {
    let store = get_mock_run_store();

    // found
    assert_eq!(store.interleaved_binary_search(5), Ok(0));
    assert_eq!(store.interleaved_binary_search(15), Ok(1));
    assert_eq!(store.interleaved_binary_search(25), Ok(2));
    assert_eq!(store.interleaved_binary_search(37), Ok(3));

    // not found
    assert_eq!(store.interleaved_binary_search(3), Err(-1));
    assert_eq!(store.interleaved_binary_search(8), Err(0));
    assert_eq!(store.interleaved_binary_search(10), Err(0));
    assert_eq!(store.interleaved_binary_search(11), Err(0));
    assert_eq!(store.interleaved_binary_search(23), Err(1));
    assert_eq!(store.interleaved_binary_search(51), Err(3));
}

#[test]
fn find_run() {
    let store = get_mock_run_store();

    assert!(store.find_run(0).is_err());
    assert_eq!(store.find_run(3), Err(-1));
    assert_eq!(store.find_run(5), Ok(0));
    assert_eq!(store.find_run(7), Ok(0));
    assert_eq!(store.find_run(10), Ok(0));
    assert_eq!(store.find_run(13), Err(0));
    assert_eq!(store.find_run(15), Ok(1));
    assert_eq!(store.find_run(20), Ok(1));
    assert_eq!(store.find_run(21), Err(1));
    assert_eq!(store.find_run(35), Ok(2));
    assert_eq!(store.find_run(51), Err(3));
}

#[test]
fn test_insert() {
    let mut store = get_mock_run_store();

    // already exists
    assert!(!store.insert(5));
    assert!(!store.insert(7));
    assert!(!store.insert(10));

    // does not exist, create and append to new run at beginning
    assert!(store.insert(0));
    assert!(store.insert(1));
    assert!(store.insert(2));
    assert_eq!(store.get(0), Some(Interval::from((0, 2))));
    assert_eq!(store.len(), 5);

    // does not exist, create and append to new run in middle
    assert!(store.insert(22));
    assert!(store.insert(23));
    assert_eq!(store.len(), 6);

    // does not exist, fusing two existing intervals
    assert!(store.insert(36));
    assert_eq!(store.get(store.len() - 1), Some(Interval::from((25, 50))));
    assert_eq!(store.len(), 5);

    // does not exist, append to current interval (relative to index 1)
    assert!(store.insert(11));
    assert_eq!(store.get(1), Some(Interval::from((5, 11))));
    assert_eq!(store.len(), 5);

    // does not exist, prepend to next interval (relative to index 0)
    assert!(store.insert(4));
    assert_eq!(store.get(1), Some(Interval::from((4, 11))));
    assert_eq!(store.len(), 5);
}
