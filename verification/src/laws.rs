//! What holds of the operations taken together. Each law is stated over the
//! run lists and key sets that the contracts of the operations speak of.

use crate::insertion::{
    inserted, inserted_keys, lemma_inserted, lemma_starts_below, meets_first, starts_below,
};
use crate::interval::Interval;
use crate::ops::{is_intersection, is_sym_diff, is_union};
use crate::runs::{
    full_runs, has_key, key_set, lemma_empty_keys, lemma_maximal_unique, maximal, ordered,
};
use vstd::prelude::*;

verus! {

/// The keys of the full run list are the whole key space, and the keys of
/// every ordered run list lie in it.
pub proof fn law_full_holds_all(runs: Seq<Interval>)
    requires
        ordered(runs),
    ensures
        maximal(full_runs()),
        key_set(full_runs()) == Set::new(|key: int| 0 <= key <= u16::MAX),
        key_set(runs).subset_of(key_set(full_runs())),
{
    let full = full_runs();
    assert(full.len() == 1);
    assert forall|key: int| #[trigger] has_key(full, key) <==> 0 <= key <= u16::MAX by {
        if 0 <= key <= u16::MAX {
            assert(full[0].contains(key));
        }
    }
    assert(key_set(full) =~= Set::new(|key: int| 0 <= key <= u16::MAX));
    assert forall|key: int| key_set(runs).contains(key) implies key_set(full).contains(key) by {
        let i = choose|i: int| 0 <= i < runs.len() && (#[trigger] runs[i]).contains(key);
        assert(runs[i].wf());
    }
}

/// After the insertion of `key` the run list holds `key`, and a second
/// insertion of `key` changes nothing.
pub proof fn law_insert_once(runs: Seq<Interval>, key: u16)
    requires
        ordered(runs),
    ensures
        has_key(inserted(runs, key), key as int),
        inserted(inserted(runs, key), key) == inserted(runs, key),
{
    lemma_inserted(runs, key);
    let after = inserted(runs, key);
    assert(key_set(after).contains(key as int));
    law_insert_present(after, key);
}

/// The insertion of a key that the run list holds changes nothing.
pub proof fn law_insert_present(runs: Seq<Interval>, key: u16)
    requires
        ordered(runs),
        has_key(runs, key as int),
    ensures
        inserted(runs, key) == runs,
{
    lemma_starts_below(runs, key as int);
    let n = starts_below(runs, key as int);
    let i = choose|i: int| 0 <= i < runs.len() && (#[trigger] runs[i]).contains(key as int);
    if runs[i].value == key {
        if i < n {
            assert(runs[i].value < key);
        } else if n < i {
            assert(runs[n].spec_end() < runs[i].value);
        }
    } else {
        if i >= n {
            assert(runs[i].value >= key);
        } else if i < n - 1 {
            assert(runs[i].spec_end() < runs[n - 1].value);
        }
        if n < runs.len() {
            assert(runs[i].spec_end() < runs[n].value);
        }
    }
}

/// The run list after the insertion of each of `keys` in turn.
pub open spec fn inserted_all(runs: Seq<Interval>, keys: Seq<u16>) -> Seq<Interval>
    decreases keys.len(),
{
    if keys.len() == 0 {
        runs
    } else {
        inserted(inserted_all(runs, keys.drop_last()), keys.last())
    }
}

/// None of `keys`, at its turn, lies right below the first interval.
pub open spec fn clear_of_first(runs: Seq<Interval>, keys: Seq<u16>) -> bool
    decreases keys.len(),
{
    keys.len() > 0 ==> clear_of_first(runs, keys.drop_last()) && !meets_first(
        inserted_all(runs, keys.drop_last()),
        keys.last(),
    )
}

/// Any number of insertions keeps a run list ordered, and every inserted key
/// is held at the end. A maximal run list stays maximal as long as no key, at
/// its turn, lies right below the first interval.
pub proof fn law_insertions(runs: Seq<Interval>, keys: Seq<u16>)
    requires
        ordered(runs),
    ensures
        ordered(inserted_all(runs, keys)),
        key_set(runs).subset_of(key_set(inserted_all(runs, keys))),
        forall|i: int|
            0 <= i < keys.len() ==> key_set(inserted_all(runs, keys)).contains(
                #[trigger] keys[i] as int,
            ),
        maximal(runs) && clear_of_first(runs, keys) ==> maximal(inserted_all(runs, keys)),
    decreases keys.len(),
{
    if keys.len() > 0 {
        let init = keys.drop_last();
        let before = inserted_all(runs, init);
        law_insertions(runs, init);
        lemma_inserted(before, keys.last());
        let after = inserted_all(runs, keys);
        assert(key_set(before).subset_of(inserted_keys(before, keys.last())));
        assert forall|i: int| 0 <= i < keys.len() implies key_set(after).contains(
            #[trigger] keys[i] as int,
        ) by {
            if i < init.len() {
                assert(init[i] == keys[i]);
                assert(key_set(before).contains(init[i] as int));
            }
        }
    }
}

/// Union does not depend on the order of its operands.
pub proof fn law_or_commutes(
    a: Seq<Interval>,
    b: Seq<Interval>,
    ab: Seq<Interval>,
    ba: Seq<Interval>,
)
    requires
        is_union(a, b, ab),
        is_union(b, a, ba),
    ensures
        ab == ba,
{
    if a != full_runs() && b != full_runs() {
        assert(key_set(a).union(key_set(b)) =~= key_set(b).union(key_set(a)));
        lemma_maximal_unique(ab, ba);
    }
}

/// Symmetric difference does not depend on the order of its operands.
pub proof fn law_xor_commutes(
    a: Seq<Interval>,
    b: Seq<Interval>,
    ab: Seq<Interval>,
    ba: Seq<Interval>,
)
    requires
        is_sym_diff(a, b, ab),
        is_sym_diff(b, a, ba),
    ensures
        ab == ba,
{
    assert(key_set(ab) =~= key_set(ba));
    lemma_maximal_unique(ab, ba);
}

/// Intersection does not depend on the order of its operands.
pub proof fn law_and_commutes(
    a: Seq<Interval>,
    b: Seq<Interval>,
    ab: Seq<Interval>,
    ba: Seq<Interval>,
)
    requires
        is_intersection(a, b, ab),
        is_intersection(b, a, ba),
    ensures
        ab == ba,
{
    if a != full_runs() && b != full_runs() {
        assert(key_set(a).intersect(key_set(b)) =~= key_set(b).intersect(key_set(a)));
        lemma_maximal_unique(ab, ba);
    }
}

/// The union of the full store with any store is the full store.
pub proof fn law_or_full(x: Seq<Interval>, result: Seq<Interval>)
    requires
        is_union(full_runs(), x, result) || is_union(x, full_runs(), result),
    ensures
        result == full_runs(),
{
}

/// The intersection of the full store with any store is that store.
pub proof fn law_and_full(x: Seq<Interval>, result: Seq<Interval>)
    requires
        is_intersection(full_runs(), x, result) || is_intersection(x, full_runs(), result),
    ensures
        result == x,
{
}

/// The symmetric difference of a store with itself is the empty store.
pub proof fn law_xor_self(a: Seq<Interval>, result: Seq<Interval>)
    requires
        is_sym_diff(a, a, result),
    ensures
        result == Seq::<Interval>::empty(),
{
    assert(key_set(result) =~= Set::<int>::empty());
    lemma_empty_keys(result);
    assert(result =~= Seq::<Interval>::empty());
}

/// Whatever the operands, the keys of a union are the keys of both, and the
/// keys of an intersection are the keys that both hold.
pub proof fn law_result_keys(
    a: Seq<Interval>,
    b: Seq<Interval>,
    either: Seq<Interval>,
    both: Seq<Interval>,
)
    requires
        ordered(a),
        ordered(b),
        is_union(a, b, either),
        is_intersection(a, b, both),
    ensures
        key_set(either) == key_set(a).union(key_set(b)),
        key_set(both) == key_set(a).intersect(key_set(b)),
{
    law_full_holds_all(a);
    law_full_holds_all(b);
    assert(key_set(either) =~= key_set(a).union(key_set(b)));
    assert(key_set(both) =~= key_set(a).intersect(key_set(b)));
}

} // verus!
