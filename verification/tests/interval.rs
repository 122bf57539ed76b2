use rle_store::interval::Interval;
use std::cmp::Ordering;

#[test]
fn test_compare_with_index() {
    let interval = Interval::from((10, 20));
    assert_eq!(interval.compare_to_index(9), Ordering::Greater);
    assert_eq!(interval.compare_to_index(10), Ordering::Equal);
    assert_eq!(interval.compare_to_index(15), Ordering::Equal);
    assert_eq!(interval.compare_to_index(20), Ordering::Equal);
    assert_eq!(interval.compare_to_index(21), Ordering::Less);
}

#[test]
fn test_try_fuse() {
    let interval_1 = Interval::from((3, 5)); // [3, 4, 5]
    let interval_2 = Interval::from((7, 10)); // [7, 8, 9, 10]
    let interval_3 = Interval::from((8, 10)); // [8, 9, 10]

    assert_eq!(interval_1.try_fuse(Some(&interval_2)), Some(Interval::from((3, 10))));
    assert_eq!(interval_2.try_fuse(Some(&interval_1)), Some(Interval::from((3, 10))));
    assert_eq!(interval_1.try_fuse(Some(&interval_3)), None);
    assert_eq!(interval_3.try_fuse(Some(&interval_1)), None);
}
