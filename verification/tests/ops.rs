use rle_store::interval::Interval;
use rle_store::ops::{and, or, xor};
use rle_store::store::RunStore;
use rle_store::visitor::RunWriter;

fn create_run_store(pairs: &[(u16, u16)]) -> RunStore {
    RunStore::try_from(pairs.iter().map(|&pair| Interval::from(pair)).collect::<Vec<Interval>>())
        .unwrap()
}

fn run_commutative_binary_op_test(
    f: fn(&RunStore, &RunStore, &mut RunWriter),
    expected: &[(u16, u16)],
    left: &[(u16, u16)],
    right: &[(u16, u16)],
) {
    let left = create_run_store(left);
    let right = create_run_store(right);
    let expected = create_run_store(expected);

    let mut visitor = RunWriter::new();
    f(&(left.clone()), &(right.clone()), &mut visitor);
    let got = visitor.into_inner();
    assert_eq!(expected, got);

    let mut visitor = RunWriter::new();
    f(&(right.clone()), &(left.clone()), &mut visitor);
    let got = visitor.into_inner();
    assert_eq!(expected, got);
}

#[test]
fn test_or() {
    // chained
    run_commutative_binary_op_test(or, &[(1, 10)], &[(1, 5)], &[(6, 10)]);

    // interspersed
    run_commutative_binary_op_test(or, &[(1, 7)], &[(1, 3), (5, 7)], &[(4, 4)]);
    run_commutative_binary_op_test(or, &[(1, 8)], &[(1, 3), (5, 7)], &[(2, 4), (6, 8)]);

    // extension
    run_commutative_binary_op_test(
        or,
        &[(1, 3), (5, 10), (12, 15)],
        &[(1, 3), (5, 7)],
        &[(7, 10), (12, 15)],
    );

    // trailing
    run_commutative_binary_op_test(
        or,
        &[(1, 3), (5, 7), (9, 11)],
        &[(1, 3), (5, 7), (9, 11)],
        &[],
    );

    // filled
    run_commutative_binary_op_test(or, &[(0, 0xFFFF)], &[(0, 0xFFFF)], &[]);

    // interjected
    run_commutative_binary_op_test(
        or,
        &[(1, 2), (4, 5), (7, 8)],
        &[(1, 2), (7, 8)],
        &[(4, 5)],
    );
}

#[test]
fn test_xor() {
    // shared middle
    run_commutative_binary_op_test(xor, &[(0, 4), (8, 12)], &[(0, 12)], &[(5, 7)]);

    // merge
    run_commutative_binary_op_test(xor, &[(0, 8)], &[(0, 4)], &[(5, 8)]);

    // no merge
    run_commutative_binary_op_test(xor, &[(0, 4), (6, 10)], &[(0, 4)], &[(6, 10)]);

    // cancel the same element
    run_commutative_binary_op_test(
        xor,
        &[(0, 4), (8, 12)],
        &[(0, 12), (15, 25)],
        &[(5, 7), (15, 25)],
    );

    // same prefix, different suffix
    run_commutative_binary_op_test(xor, &[(9, 12)], &[(0, 8)], &[(0, 12)]);

    // same suffix, different prefix
    run_commutative_binary_op_test(xor, &[(0, 3)], &[(0, 12)], &[(4, 12)])
}

#[test]
fn test_and() {
    // same set
    run_commutative_binary_op_test(and, &[(0, 10)], &[(0, 10)], &[(0, 10)]);

    // same prefix, different suffix
    run_commutative_binary_op_test(and, &[(0, 10)], &[(0, 20)], &[(0, 10)]);

    // disjoint sets
    run_commutative_binary_op_test(and, &[], &[(0, 10)], &[(11, 20)]);

    // subset
    run_commutative_binary_op_test(and, &[(0, 5), (10, 15)], &[(0, 20)], &[(0, 5), (10, 15)]);

    // interwoven
    run_commutative_binary_op_test(and, &[(2, 4), (8, 10)], &[(2, 10)], &[(0, 4), (8, 12)]);
}
