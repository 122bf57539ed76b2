use rle_store::interval::Interval;
use rle_store::ops::{and, or, xor};
use rle_store::store::{Error, ErrorKind, RunStore};
use rle_store::visitor::{BinaryOperationVisitor, RunWriter};

fn store_of(pairs: &[(u16, u16)]) -> RunStore {
    RunStore::try_from(pairs.iter().map(|&pair| Interval::from(pair)).collect::<Vec<Interval>>())
        .unwrap()
}

fn runs_of(store: &RunStore) -> Vec<(u16, u16)> {
    (0..store.len()).map(|i| store.get(i).unwrap().get_pair()).collect()
}

fn apply(f: fn(&RunStore, &RunStore, &mut RunWriter), lhs: &RunStore, rhs: &RunStore) -> RunStore {
    let mut writer = RunWriter::new();
    f(lhs, rhs, &mut writer);
    writer.into_inner()
}

fn violation(index: usize) -> Error {
    Error { index, kind: ErrorKind::MonotonicityViolation }
}

#[test]
fn interval_bounds() {
    let interval = Interval::new(3, 2);
    assert_eq!(interval.value, 3);
    assert_eq!(interval.length, 2);
    assert_eq!(interval.get_end(), 5);
    assert_eq!(interval.get_pair(), (3, 5));
    assert_eq!(Interval::new(0, 0xFFFF).get_end(), 0xFFFF);
    assert_eq!(Interval::new(0xFFFF, 0).get_pair(), (0xFFFF, 0xFFFF));
}

#[test]
fn interval_conversions() {
    assert_eq!(Interval::from(7u16), Interval::new(7, 0));
    assert_eq!(Interval::from((3u16, 5u16)), Interval::new(3, 2));
    assert_eq!(Interval::from((9u16, 9u16)), Interval::new(9, 0));
    assert_eq!(Interval::from((5u16, 3u16)), Interval::new(5, 0xFFFE));
}

#[test]
fn fuse_needs_exactly_one_missing_key() {
    let low = Interval::from((3, 5));
    assert_eq!(low.try_fuse(None), None);
    assert_eq!(low.try_fuse(Some(&Interval::from((6, 9)))), None);
    assert_eq!(low.try_fuse(Some(&Interval::from((4, 9)))), None);
    assert_eq!(low.try_fuse(Some(&Interval::from((7, 7)))), Some(Interval::from((3, 7))));
    assert_eq!(
        Interval::from((0xFFFF, 0xFFFF)).try_fuse(Some(&Interval::from((0, 0xFFFD)))),
        Some(Interval::from((0, 0xFFFF)))
    );
}

#[test]
fn construction_accepts_gaps_of_two() {
    assert_eq!(runs_of(&store_of(&[])), vec![]);
    assert_eq!(runs_of(&store_of(&[(0, 0xFFFF)])), vec![(0, 0xFFFF)]);
    assert_eq!(runs_of(&store_of(&[(0, 0), (2, 2), (4, 4)])), vec![(0, 0), (2, 2), (4, 4)]);
    assert_eq!(RunStore::new().len(), 0);
    assert_eq!(RunStore::new().get(0), None);
}

#[test]
fn construction_reports_first_violation() {
    let build = |pairs: &[(u16, u16)]| {
        RunStore::try_from(pairs.iter().map(|&p| Interval::from(p)).collect::<Vec<Interval>>())
    };
    // overlap
    assert_eq!(build(&[(5, 10), (7, 8)]), Err(violation(1)));
    assert_eq!(build(&[(0, 3), (5, 10), (10, 12), (1, 2)]), Err(violation(2)));
    // touching
    assert_eq!(build(&[(5, 10), (11, 12)]), Err(violation(1)));
    // starts that do not increase
    assert_eq!(build(&[(5, 6), (5, 6)]), Err(violation(1)));
    assert_eq!(build(&[(5, 6), (8, 9), (1, 2)]), Err(violation(2)));
    // later intervals are held against the one right before them
    assert_eq!(build(&[(0, 1), (10, 20), (15, 30)]), Err(violation(2)));
    // an interval that runs out of the key space
    assert_eq!(
        RunStore::try_from(vec![Interval::new(0xFFFF, 1)]),
        Err(violation(0))
    );
    assert_eq!(
        RunStore::try_from(vec![Interval::new(0, 1), Interval::new(0xFFF0, 0x10)]),
        Err(violation(1))
    );
}

#[test]
fn inserted_key_is_found_and_second_insert_changes_nothing() {
    for key in [0u16, 1, 7, 1000, 0xFFFE, 0xFFFF] {
        let mut store = RunStore::new();
        assert_eq!(store.find_run(key), Err(-1));
        assert!(store.insert(key));
        assert_eq!(store.find_run(key), Ok(0));
        assert_eq!(store.interleaved_binary_search(key), Ok(0));
        assert!(!store.insert(key));
        assert_eq!(runs_of(&store), vec![(key, key)]);
    }
}

#[test]
fn insert_extends_joins_and_creates() {
    let mut store = store_of(&[(5, 10), (15, 20), (25, 35), (37, 50)]);
    assert!(store.insert(36));
    assert_eq!(runs_of(&store), vec![(5, 10), (15, 20), (25, 50)]);
    assert!(store.insert(11));
    assert_eq!(runs_of(&store), vec![(5, 11), (15, 20), (25, 50)]);
    assert!(store.insert(14));
    assert_eq!(runs_of(&store), vec![(5, 11), (14, 20), (25, 50)]);
    assert!(store.insert(22));
    assert_eq!(runs_of(&store), vec![(5, 11), (14, 20), (22, 22), (25, 50)]);
    assert!(store.insert(60));
    assert_eq!(runs_of(&store), vec![(5, 11), (14, 20), (22, 22), (25, 50), (60, 60)]);
    assert!(!store.insert(30));
    assert!(store.insert(0));
    assert_eq!(store.get(0), Some(Interval::from((0, 0))));
    assert_eq!(store.len(), 6);
}

#[test]
fn insert_at_the_top_of_the_key_space() {
    let mut store = store_of(&[(0, 0xFFFE)]);
    assert!(!store.is_full());
    assert!(store.insert(0xFFFF));
    assert!(store.is_full());
    assert_eq!(runs_of(&store), vec![(0, 0xFFFF)]);
    assert!(!store.insert(0xFFFF));
    assert!(!store.insert(0));
}

#[test]
fn insert_below_the_first_run() {
    // two keys below: fused with the first run, the key between comes in
    let mut store = store_of(&[(5, 10)]);
    assert!(store.insert(3));
    assert_eq!(runs_of(&store), vec![(3, 10)]);
    assert_eq!(store.find_run(4), Ok(0));
    // right below: a run of its own in front
    let mut store = store_of(&[(5, 10)]);
    assert!(store.insert(4));
    assert_eq!(runs_of(&store), vec![(4, 4), (5, 10)]);
    assert_eq!(store.find_run(4), Ok(0));
    assert_eq!(store.find_run(5), Ok(1));
    // further below
    let mut store = store_of(&[(5, 10)]);
    assert!(store.insert(1));
    assert_eq!(runs_of(&store), vec![(1, 1), (5, 10)]);
}

#[test]
fn insertions_keep_runs_apart() {
    let mut store = RunStore::new();
    for key in [10u16, 12, 11, 20, 30, 25, 21, 19, 13, 40, 0xFFFF, 0xFFFD, 0xFFFE] {
        store.insert(key);
    }
    let runs = runs_of(&store);
    assert_eq!(runs, vec![(10, 13), (19, 21), (25, 25), (30, 30), (40, 40), (0xFFFD, 0xFFFF)]);
    for pair in runs.windows(2) {
        assert!(pair[0].1 as u32 + 2 <= pair[1].0 as u32);
    }
}

#[test]
fn is_full_only_for_the_whole_key_space() {
    assert!(store_of(&[(0, 0xFFFF)]).is_full());
    assert!(!store_of(&[]).is_full());
    assert!(!store_of(&[(0, 0xFFFE)]).is_full());
    assert!(!store_of(&[(1, 0xFFFF)]).is_full());
    assert!(!store_of(&[(0, 10), (12, 0xFFFF)]).is_full());
}

#[test]
fn writer_merges_what_overlaps_or_touches() {
    let mut writer = RunWriter::new();
    writer.visit_interval(&Interval::from((1, 3)));
    writer.visit_interval(&Interval::from((2, 6)));
    writer.visit_interval(&Interval::from((7, 7)));
    writer.visit_interval(&Interval::from((7, 7)));
    writer.visit_interval(&Interval::from((9, 20)));
    writer.visit_interval(&Interval::from((10, 12)));
    writer.visit_interval(&Interval::from((0xFFFF, 0xFFFF)));
    assert_eq!(runs_of(&writer.into_inner()), vec![(1, 7), (9, 20), (0xFFFF, 0xFFFF)]);
}

#[test]
fn writer_takes_a_whole_store() {
    let mut writer = RunWriter::new();
    writer.visit_interval(&Interval::from((1, 3)));
    writer.visit_run_store(&store_of(&[(10, 12), (20, 22)]));
    writer.visit_interval(&Interval::from((23, 30)));
    assert_eq!(runs_of(&writer.into_inner()), vec![(10, 12), (20, 30)]);
    assert_eq!(RunWriter::new().into_inner(), RunStore::new());
}

#[test]
fn union_with_full_is_full() {
    let full = store_of(&[(0, 0xFFFF)]);
    for other in [store_of(&[]), store_of(&[(3, 9), (20, 30)]), store_of(&[(0, 0xFFFF)])] {
        assert_eq!(apply(or, &full, &other), full);
        assert_eq!(apply(or, &other, &full), full);
    }
}

#[test]
fn intersection_with_full_is_the_other() {
    let full = store_of(&[(0, 0xFFFF)]);
    for other in [store_of(&[]), store_of(&[(3, 9), (20, 30)]), store_of(&[(0, 0xFFFF)])] {
        assert_eq!(apply(and, &full, &other), other);
        assert_eq!(apply(and, &other, &full), other);
    }
}

#[test]
fn symmetric_difference_with_itself_is_empty() {
    for store in [
        store_of(&[]),
        store_of(&[(3, 9), (20, 30)]),
        store_of(&[(0, 0xFFFF)]),
        store_of(&[(0, 0), (0xFFFF, 0xFFFF)]),
    ] {
        assert_eq!(apply(xor, &store, &store), RunStore::new());
    }
}

#[test]
fn symmetric_difference_at_the_top_of_the_key_space() {
    let full = store_of(&[(0, 0xFFFF)]);
    let some = store_of(&[(5, 7), (0xFFF0, 0xFFFF)]);
    let expected = store_of(&[(0, 4), (8, 0xFFEF)]);
    assert_eq!(apply(xor, &full, &some), expected);
    assert_eq!(apply(xor, &some, &full), expected);
    assert_eq!(apply(xor, &full, &store_of(&[])), full);
}

#[test]
fn intersection_of_runs_that_end_together() {
    let wide = store_of(&[(0, 10), (20, 0xFFFF)]);
    let narrow = store_of(&[(5, 10), (12, 14), (30, 0xFFFF)]);
    let expected = store_of(&[(5, 10), (30, 0xFFFF)]);
    assert_eq!(apply(and, &wide, &narrow), expected);
    assert_eq!(apply(and, &narrow, &wide), expected);
}

#[test]
fn operations_agree_with_key_by_key_sets() {
    let a = store_of(&[(0, 3), (5, 5), (9, 14), (30, 40), (50, 50)]);
    let b = store_of(&[(2, 6), (10, 11), (13, 31), (41, 49), (52, 60)]);
    let holds = |store: &RunStore, key: u16| store.find_run(key).is_ok();
    let either = apply(or, &a, &b);
    let one = apply(xor, &a, &b);
    let both = apply(and, &a, &b);
    for key in 0u16..70 {
        assert_eq!(holds(&either, key), holds(&a, key) || holds(&b, key));
        assert_eq!(holds(&one, key), holds(&a, key) != holds(&b, key));
        assert_eq!(holds(&both, key), holds(&a, key) && holds(&b, key));
    }
    assert_eq!(runs_of(&either), vec![(0, 6), (9, 50), (52, 60)]);
    assert_eq!(
        runs_of(&one),
        vec![(0, 1), (4, 4), (6, 6), (9, 9), (12, 12), (15, 29), (32, 50), (52, 60)]
    );
    assert_eq!(runs_of(&both), vec![(2, 3), (5, 5), (10, 11), (13, 14), (30, 31)]);
}

#[test]
fn operations_on_stores_with_touching_runs() {
    let mut a = store_of(&[(5, 10)]);
    a.insert(4);
    let b = store_of(&[(0, 4), (10, 12)]);
    assert_eq!(runs_of(&apply(or, &a, &b)), vec![(0, 12)]);
    assert_eq!(runs_of(&apply(or, &b, &a)), vec![(0, 12)]);
    assert_eq!(runs_of(&apply(xor, &a, &b)), vec![(0, 3), (5, 9), (11, 12)]);
    assert_eq!(runs_of(&apply(xor, &b, &a)), vec![(0, 3), (5, 9), (11, 12)]);
    assert_eq!(runs_of(&apply(and, &a, &b)), vec![(4, 4), (10, 10)]);
    assert_eq!(runs_of(&apply(and, &b, &a)), vec![(4, 4), (10, 10)]);
}

#[test]
fn clone_is_independent() {
    let store = store_of(&[(5, 10)]);
    let mut copy = store.clone();
    assert_eq!(copy, store);
    copy.insert(20);
    assert_eq!(runs_of(&store), vec![(5, 10)]);
    assert_eq!(runs_of(&copy), vec![(5, 10), (20, 20)]);
}
