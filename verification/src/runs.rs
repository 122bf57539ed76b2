//! The mathematical model of a run list: a sequence of intervals, the
//! conditions on it, and the set of keys that it stands for.

use crate::interval::Interval;
use vstd::prelude::*;

verus! {

/// Every interval stays inside the key space, and each one starts above the
/// end of all those before it: ascending, without overlap.
pub open spec fn ordered(runs: Seq<Interval>) -> bool {
    &&& forall|i: int| 0 <= i < runs.len() ==> (#[trigger] runs[i]).wf()
    &&& forall|i: int, j: int|
        0 <= i < j < runs.len() ==> (#[trigger] runs[i]).spec_end() < (#[trigger] runs[j]).value
}

/// `ordered`, and at least one missing key lies between any two intervals:
/// each interval is a maximal range of present keys.
pub open spec fn maximal(runs: Seq<Interval>) -> bool {
    &&& forall|i: int| 0 <= i < runs.len() ==> (#[trigger] runs[i]).wf()
    &&& forall|i: int, j: int|
        0 <= i < j < runs.len() ==> (#[trigger] runs[i]).spec_end() + 1 < (#[trigger]
        runs[j]).value
}

/// `key` lies in one of the intervals.
pub open spec fn has_key(runs: Seq<Interval>, key: int) -> bool {
    exists|i: int| 0 <= i < runs.len() && (#[trigger] runs[i]).contains(key)
}

/// The set of keys that the intervals hold.
pub open spec fn key_set(runs: Seq<Interval>) -> Set<int> {
    Set::new(|key: int| has_key(runs, key))
}

/// The keys that lie in just one of the two sets.
pub open spec fn sym_diff(a: Set<int>, b: Set<int>) -> Set<int> {
    Set::new(|key: int| a.contains(key) != b.contains(key))
}

/// The run list of the whole key space.
pub open spec fn full_runs() -> Seq<Interval> {
    seq![Interval { value: 0, length: u16::MAX }]
}

/// Replacing an interval by one that holds its keys and `extra` adds `extra`
/// to the keys of the list.
pub proof fn lemma_update_keys(runs: Seq<Interval>, index: int, run: Interval, extra: Set<int>)
    requires
        0 <= index < runs.len(),
        run.keys() == runs[index].keys().union(extra),
    ensures
        key_set(runs.update(index, run)) == key_set(runs).union(extra),
{
    let after = runs.update(index, run);
    assert forall|key: int| has_key(after, key) <==> has_key(runs, key) || extra.contains(
        key,
    ) by {
        assert(run.keys().contains(key) <==> runs[index].keys().contains(key) || extra.contains(
            key,
        ));
        if has_key(after, key) {
            let i = choose|i: int| 0 <= i < after.len() && (#[trigger] after[i]).contains(key);
            if i != index {
                assert(runs[i].contains(key));
            } else if !extra.contains(key) {
                assert(runs[index].contains(key));
            }
        }
        if has_key(runs, key) {
            let i = choose|i: int| 0 <= i < runs.len() && (#[trigger] runs[i]).contains(key);
            assert(after[i].contains(key));
        }
        if extra.contains(key) {
            assert(after[index].contains(key));
        }
    }
    assert(key_set(after) =~= key_set(runs).union(extra));
}

/// A new interval adds its keys to those of the list, wherever it is put.
pub proof fn lemma_insert_keys(runs: Seq<Interval>, index: int, run: Interval)
    requires
        0 <= index <= runs.len(),
    ensures
        key_set(runs.insert(index, run)) == key_set(runs).union(run.keys()),
{
    let after = runs.insert(index, run);
    assert forall|key: int| has_key(after, key) <==> has_key(runs, key) || run.contains(key) by {
        if has_key(after, key) {
            let i = choose|i: int| 0 <= i < after.len() && (#[trigger] after[i]).contains(key);
            if i < index {
                assert(runs[i].contains(key));
            } else if i > index {
                assert(runs[i - 1].contains(key));
            }
        }
        if has_key(runs, key) {
            let i = choose|i: int| 0 <= i < runs.len() && (#[trigger] runs[i]).contains(key);
            if i < index {
                assert(after[i].contains(key));
            } else {
                assert(after[i + 1].contains(key));
            }
        }
        if run.contains(key) {
            assert(after[index].contains(key));
        }
    }
    assert(key_set(after) =~= key_set(runs).union(run.keys()));
}

/// The keys of a list are those of one of its intervals and those of the
/// list without it.
pub proof fn lemma_remove_keys(runs: Seq<Interval>, index: int)
    requires
        0 <= index < runs.len(),
    ensures
        key_set(runs) == key_set(runs.remove(index)).union(runs[index].keys()),
{
    let rest = runs.remove(index);
    assert(rest.insert(index, runs[index]) =~= runs);
    lemma_insert_keys(rest, index, runs[index]);
}

/// From the interval at `from` on, an ordered run list holds those of its
/// keys that lie at the start of that interval or above.
pub proof fn lemma_suffix_keys(runs: Seq<Interval>, from: int)
    requires
        ordered(runs),
        0 <= from < runs.len(),
    ensures
        forall|key: int| #[trigger]
            has_key(runs.skip(from), key) <==> has_key(runs, key) && key >= runs[from].value,
{
    let rest = runs.skip(from);
    assert forall|key: int| #[trigger]
        has_key(rest, key) <==> has_key(runs, key) && key >= runs[from].value by {
        if has_key(rest, key) {
            let i = choose|i: int| 0 <= i < rest.len() && (#[trigger] rest[i]).contains(key);
            assert(runs[i + from].contains(key));
            if i > 0 {
                assert(runs[from].spec_end() < runs[i + from].value);
            }
        }
        if has_key(runs, key) && key >= runs[from].value {
            let i = choose|i: int| 0 <= i < runs.len() && (#[trigger] runs[i]).contains(key);
            if i < from {
                assert(runs[i].spec_end() < runs[from].value);
            }
            assert(rest[i - from].contains(key));
        }
    }
}

/// The first intervals of a maximal run list are a maximal run list.
pub proof fn lemma_maximal_prefix(runs: Seq<Interval>, count: int)
    requires
        maximal(runs),
        0 <= count <= runs.len(),
    ensures
        maximal(runs.take(count)),
{
    let shorter = runs.take(count);
    assert forall|a: int, b: int| 0 <= a < b < shorter.len() implies (#[trigger] shorter[a]).spec_end()
        + 1 < (#[trigger] shorter[b]).value by {
        assert(runs[a].spec_end() + 1 < runs[b].value);
    }
    assert forall|a: int| 0 <= a < shorter.len() implies (#[trigger] shorter[a]).wf() by {
        assert(runs[a].wf());
    }
}

/// A run list without intervals is maximal and has no keys; a maximal run
/// list without keys has no intervals.
pub proof fn lemma_empty_keys(runs: Seq<Interval>)
    ensures
        runs.len() == 0 ==> maximal(runs) && key_set(runs) == Set::<int>::empty(),
        maximal(runs) && key_set(runs) == Set::<int>::empty() ==> runs.len() == 0,
{
    if runs.len() == 0 {
        assert(key_set(runs) =~= Set::<int>::empty());
    } else if maximal(runs) {
        assert(runs[0].contains(runs[0].value as int));
        assert(key_set(runs).contains(runs[0].value as int));
    }
}

/// The keys of the first `count + 1` intervals are those of the first `count`
/// and of the interval at `count`; the keys of the first `count` all lie
/// below the start of that interval.
pub proof fn lemma_prefix_keys(runs: Seq<Interval>, count: int)
    requires
        ordered(runs),
        0 <= count < runs.len(),
    ensures
        key_set(runs.take(count + 1)) == key_set(runs.take(count)).union(runs[count].keys()),
        forall|key: int| #[trigger]
            has_key(runs.take(count + 1), key) <==> has_key(runs.take(count), key)
                || runs[count].contains(key),
        forall|key: int| #[trigger]
            has_key(runs.take(count), key) ==> key < runs[count].value,
{
    let shorter = runs.take(count);
    let longer = runs.take(count + 1);
    assert(longer =~= shorter.insert(count, runs[count]));
    lemma_insert_keys(shorter, count, runs[count]);
    assert forall|key: int| #[trigger] has_key(shorter, key) implies key < runs[count].value by {
        let i = choose|i: int| 0 <= i < shorter.len() && (#[trigger] shorter[i]).contains(key);
        assert(runs[i].spec_end() < runs[count].value);
    }
    assert forall|key: int| #[trigger]
        has_key(longer, key) <==> has_key(shorter, key) || runs[count].contains(key) by {
        assert(key_set(longer).contains(key) <==> key_set(shorter).contains(key)
            || runs[count].keys().contains(key));
    }
}

/// A maximal run list is ordered.
pub proof fn lemma_maximal_is_ordered(runs: Seq<Interval>)
    requires
        maximal(runs),
    ensures
        ordered(runs),
{
}

/// In an ordered run list the interval at index `i` starts at `i` or above,
/// so the list has at most 65536 intervals.
pub proof fn lemma_ordered_len(runs: Seq<Interval>)
    requires
        ordered(runs),
    ensures
        forall|i: int| 0 <= i < runs.len() ==> (#[trigger] runs[i]).value >= i,
        runs.len() <= 0x1_0000,
{
    assert forall|i: int| 0 <= i < runs.len() implies (#[trigger] runs[i]).value >= i by {
        lemma_start_at_least(runs, i);
    }
    if runs.len() > 0 {
        let last = runs.len() - 1;
        assert(runs[last].value >= last);
    }
}

proof fn lemma_start_at_least(runs: Seq<Interval>, i: int)
    requires
        ordered(runs),
        0 <= i < runs.len(),
    ensures
        runs[i].value >= i,
    decreases i,
{
    if i > 0 {
        lemma_start_at_least(runs, i - 1);
        assert(runs[i - 1].spec_end() < runs[i].value);
    }
}

/// A maximal run list without its first interval is maximal, and its keys
/// are those above the end of the first interval.
proof fn lemma_maximal_rest(runs: Seq<Interval>)
    requires
        maximal(runs),
        runs.len() > 0,
    ensures
        maximal(runs.skip(1)),
        forall|key: int| #[trigger]
            has_key(runs.skip(1), key) <==> has_key(runs, key) && key > runs[0].spec_end(),
{
    let rest = runs.skip(1);
    assert forall|i: int, j: int| 0 <= i < j < rest.len() implies (#[trigger] rest[i]).spec_end()
        + 1 < (#[trigger] rest[j]).value by {
        assert(runs[i + 1].spec_end() + 1 < runs[j + 1].value);
    }
    assert forall|i: int| 0 <= i < rest.len() implies (#[trigger] rest[i]).wf() by {
        assert(runs[i + 1].wf());
    }
    assert forall|key: int| #[trigger]
        has_key(rest, key) <==> has_key(runs, key) && key > runs[0].spec_end() by {
        if has_key(rest, key) {
            let i = choose|i: int| 0 <= i < rest.len() && (#[trigger] rest[i]).contains(key);
            assert(runs[i + 1].contains(key));
            assert(runs[0].spec_end() + 1 < runs[i + 1].value);
        }
        if has_key(runs, key) && key > runs[0].spec_end() {
            let i = choose|i: int| 0 <= i < runs.len() && (#[trigger] runs[i]).contains(key);
            assert(rest[i - 1].contains(key));
        }
    }
}

/// The first interval of a maximal run list starts at the least key of the
/// list, and the key behind its end is missing.
proof fn lemma_maximal_first(runs: Seq<Interval>)
    requires
        maximal(runs),
        runs.len() > 0,
    ensures
        runs[0].wf(),
        has_key(runs, runs[0].value as int),
        forall|key: int| #[trigger] has_key(runs, key) ==> runs[0].value <= key,
        forall|key: int|
            runs[0].value <= key <= runs[0].spec_end() + 1 ==> (#[trigger] has_key(runs, key)
                <==> key <= runs[0].spec_end()),
{
    assert(runs[0].wf());
    assert(runs[0].contains(runs[0].value as int));
    assert forall|key: int| #[trigger] has_key(runs, key) implies runs[0].value <= key by {
        let i = choose|i: int| 0 <= i < runs.len() && (#[trigger] runs[i]).contains(key);
        if i > 0 {
            assert(runs[0].spec_end() + 1 < runs[i].value);
        }
    }
    assert forall|key: int| runs[0].value <= key <= runs[0].spec_end() + 1 implies (#[trigger] has_key(
        runs,
        key,
    ) <==> key <= runs[0].spec_end()) by {
        if key <= runs[0].spec_end() {
            assert(runs[0].contains(key));
        }
        if has_key(runs, key) {
            let i = choose|i: int| 0 <= i < runs.len() && (#[trigger] runs[i]).contains(key);
            if i > 0 {
                assert(runs[0].spec_end() + 1 < runs[i].value);
            }
        }
    }
}

/// A set of keys has one maximal run list: two maximal run lists with the
/// same keys are the same list.
pub proof fn lemma_maximal_unique(a: Seq<Interval>, b: Seq<Interval>)
    requires
        maximal(a),
        maximal(b),
        key_set(a) == key_set(b),
    ensures
        a == b,
    decreases a.len(),
{
    assert forall|key: int| #[trigger] has_key(a, key) == has_key(b, key) by {
        assert(key_set(a).contains(key) == has_key(a, key));
        assert(key_set(b).contains(key) == has_key(b, key));
    }
    if a.len() == 0 {
        if b.len() > 0 {
            lemma_maximal_first(b);
            assert(has_key(a, b[0].value as int));
        }
        assert(a =~= b);
    } else if b.len() == 0 {
        lemma_maximal_first(a);
        assert(has_key(b, a[0].value as int));
    } else {
        lemma_maximal_first(a);
        lemma_maximal_first(b);
        assert(has_key(b, a[0].value as int));
        assert(has_key(a, b[0].value as int));
        assert(a[0].value == b[0].value);
        if a[0].spec_end() < b[0].spec_end() {
            assert(has_key(b, a[0].spec_end() + 1));
            assert(has_key(a, a[0].spec_end() + 1));
        } else if b[0].spec_end() < a[0].spec_end() {
            assert(has_key(a, b[0].spec_end() + 1));
            assert(has_key(b, b[0].spec_end() + 1));
        }
        assert(a[0] == b[0]);
        lemma_maximal_rest(a);
        lemma_maximal_rest(b);
        assert(key_set(a.skip(1)) =~= key_set(b.skip(1)));
        lemma_maximal_unique(a.skip(1), b.skip(1));
        assert(a =~= seq![a[0]] + a.skip(1));
        assert(b =~= seq![b[0]] + b.skip(1));
    }
}

} // verus!
