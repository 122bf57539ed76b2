//! The model of the insertion of one key into a run list, and what holds
//! of it.

use crate::interval::Interval;
use crate::runs::{
    key_set, lemma_insert_keys, lemma_remove_keys, lemma_update_keys, maximal, ordered,
};
use vstd::prelude::*;

verus! {

/// How many intervals start below `key`. In an ordered run list these are the
/// first ones, so this is also the index of the first interval that starts at
/// `key` or above.
pub open spec fn starts_below(runs: Seq<Interval>, key: int) -> int
    decreases runs.len(),
{
    if runs.len() == 0 {
        0
    } else if runs.last().value < key {
        runs.len() as int
    } else {
        starts_below(runs.drop_last(), key)
    }
}

/// What fusing `run` with the interval at `index` gives; nothing where the
/// list has no such interval.
pub open spec fn fused_at(runs: Seq<Interval>, run: Interval, index: int) -> Option<Interval> {
    if 0 <= index < runs.len() {
        run.fused(runs[index])
    } else {
        None
    }
}

/// The run list after the insertion of `pos`.
///
/// Let `run` be the last interval that starts below `pos`, and `next` the one
/// after it. A `pos` that an interval starts at or holds changes nothing. A
/// `pos` right behind the end of `run` makes `run` one key longer, or joins it
/// to `next` where that closes the gap. A `pos` right in front of `next` makes
/// `next` start one key earlier. Where no interval starts below `pos`, the
/// single key `pos` is fused with the first interval if exactly one key lies
/// between them (that key then comes in too). In every other case the single
/// key becomes an interval of its own.
pub open spec fn inserted(runs: Seq<Interval>, pos: u16) -> Seq<Interval> {
    let n = starts_below(runs, pos as int);
    let single = Interval { value: pos, length: 0 };
    if n < runs.len() && runs[n].value == pos {
        runs
    } else if n > 0 {
        let run = runs[n - 1];
        if pos <= run.spec_end() {
            runs
        } else if pos == run.spec_end() + 1 {
            match fused_at(runs, run, n) {
                Some(joined) => runs.remove(n).update(n - 1, joined),
                None => runs.update(
                    n - 1,
                    Interval { value: run.value, length: (run.length + 1) as u16 },
                ),
            }
        } else if n < runs.len() && runs[n].value == pos + 1 {
            runs.update(n, Interval { value: pos, length: (runs[n].length + 1) as u16 })
        } else {
            runs.insert(n, single)
        }
    } else {
        match fused_at(runs, single, 0) {
            Some(joined) => runs.update(0, joined),
            None => runs.insert(0, single),
        }
    }
}

/// `starts_below` splits an ordered run list: the intervals before that
/// index start below `key`, the others at `key` or above.
pub proof fn lemma_starts_below(runs: Seq<Interval>, key: int)
    requires
        ordered(runs),
    ensures
        0 <= starts_below(runs, key) <= runs.len(),
        forall|i: int| 0 <= i < starts_below(runs, key) ==> (#[trigger] runs[i]).value < key,
        forall|i: int|
            starts_below(runs, key) <= i < runs.len() ==> (#[trigger] runs[i]).value >= key,
    decreases runs.len(),
{
    if runs.len() > 0 {
        let init = runs.drop_last();
        let last = runs.len() - 1;
        assert forall|i: int| 0 <= i < init.len() implies init[i] == runs[i] by {}
        assert(ordered(init)) by {
            assert forall|i: int, j: int| 0 <= i < j < init.len() implies (#[trigger] init[i]).spec_end()
                < (#[trigger] init[j]).value by {
                assert(runs[i].spec_end() < runs[j].value);
            }
            assert forall|i: int| 0 <= i < init.len() implies (#[trigger] init[i]).wf() by {
                assert(runs[i].wf());
            }
        }
        lemma_starts_below(init, key);
        if runs.last().value < key {
            assert forall|i: int| 0 <= i < runs.len() implies (#[trigger] runs[i]).value < key by {
                if i < last {
                    assert(runs[i].spec_end() < runs[last].value);
                }
            }
        } else {
            let n = starts_below(init, key);
            assert forall|i: int| n <= i < runs.len() implies (#[trigger] runs[i]).value >= key by {
                if i < last {
                    assert(init[i].value >= key);
                }
            }
            assert forall|i: int| 0 <= i < n implies (#[trigger] runs[i]).value < key by {
                assert(init[i].value < key);
            }
        }
    }
}

/// The only index that splits an ordered run list as `starts_below` does is
/// `starts_below` itself.
pub proof fn lemma_starts_below_is(runs: Seq<Interval>, key: int, n: int)
    requires
        ordered(runs),
        0 <= n <= runs.len(),
        forall|i: int| 0 <= i < n ==> (#[trigger] runs[i]).value < key,
        forall|i: int| n <= i < runs.len() ==> (#[trigger] runs[i]).value >= key,
    ensures
        starts_below(runs, key) == n,
{
    lemma_starts_below(runs, key);
    let m = starts_below(runs, key);
    if m < n {
        assert(runs[m].value < key);
    } else if n < m {
        assert(runs[n].value >= key);
    }
}

/// The first interval starts right above `pos`: the single key `pos` then
/// comes to stand in front of it as an interval of its own.
pub open spec fn meets_first(runs: Seq<Interval>, pos: u16) -> bool {
    runs.len() > 0 && runs[0].value == pos + 1
}

/// The first interval starts two keys above `pos`: the insertion then fuses
/// the two, and the key between them comes in as well.
pub open spec fn fuses_first(runs: Seq<Interval>, pos: u16) -> bool {
    runs.len() > 0 && runs[0].value == pos + 2
}

/// The keys after the insertion of `pos`.
pub open spec fn inserted_keys(runs: Seq<Interval>, pos: u16) -> Set<int> {
    if fuses_first(runs, pos) {
        key_set(runs).insert(pos as int).insert(pos + 1)
    } else {
        key_set(runs).insert(pos as int)
    }
}

/// An insertion keeps the run list ordered and adds `pos` to its keys (and
/// the key above `pos` where it fuses `pos` with the first interval). It keeps
/// a maximal run list maximal unless `pos` lies right below the first interval.
pub proof fn lemma_inserted(runs: Seq<Interval>, pos: u16)
    requires
        ordered(runs),
    ensures
        ordered(inserted(runs, pos)),
        key_set(inserted(runs, pos)) == inserted_keys(runs, pos),
        key_set(inserted(runs, pos)).contains(pos as int),
        maximal(runs) && !meets_first(runs, pos) ==> maximal(inserted(runs, pos)),
{
    lemma_apart(runs);
    lemma_apart(inserted(runs, pos));
    lemma_inserted_keys(runs, pos);
    lemma_inserted_apart(runs, pos, 1);
    if maximal(runs) && !meets_first(runs, pos) {
        lemma_inserted_apart(runs, pos, 2);
    }
}

/// The keys of `inserted`.
proof fn lemma_inserted_keys(runs: Seq<Interval>, pos: u16)
    requires
        ordered(runs),
    ensures
        key_set(inserted(runs, pos)) == inserted_keys(runs, pos),
{
    lemma_starts_below(runs, pos as int);
    let n = starts_below(runs, pos as int);
    let single = Interval { value: pos, length: 0 };
    let after = inserted(runs, pos);
    assert(single.keys() =~= set![pos as int]);
    if n > 0 {
        assert(runs[0].value < pos);
    } else if runs.len() > 0 {
        assert(runs[0].value >= pos);
    }
    if n < runs.len() && runs[n].value == pos {
        assert(runs[n].contains(pos as int));
        assert(key_set(runs).insert(pos as int) =~= key_set(runs));
    } else if n > 0 {
        let run = runs[n - 1];
        if pos <= run.spec_end() {
            assert(run.contains(pos as int));
            assert(key_set(runs).insert(pos as int) =~= key_set(runs));
        } else if pos == run.spec_end() + 1 {
            if n < runs.len() && runs[n].value == pos + 1 {
                let next = runs[n];
                let joined = Interval::spanning(run.value as int, next.spec_end());
                let rest = runs.remove(n);
                assert(next.wf());
                assert(after == rest.update(n - 1, joined));
                lemma_remove_keys(runs, n);
                assert(joined.keys() =~= rest[n - 1].keys().union(
                    next.keys().insert(pos as int),
                ));
                lemma_update_keys(rest, n - 1, joined, next.keys().insert(pos as int));
                assert(key_set(after) =~= key_set(runs).insert(pos as int));
            } else {
                let longer = Interval { value: run.value, length: (run.length + 1) as u16 };
                assert(after == runs.update(n - 1, longer));
                assert(longer.keys() =~= run.keys().union(set![pos as int]));
                lemma_update_keys(runs, n - 1, longer, set![pos as int]);
                assert(key_set(after) =~= key_set(runs).insert(pos as int));
            }
        } else if n < runs.len() && runs[n].value == pos + 1 {
            let next = runs[n];
            let earlier = Interval { value: pos, length: (next.length + 1) as u16 };
            assert(next.wf());
            assert(after == runs.update(n, earlier));
            assert(earlier.keys() =~= next.keys().union(set![pos as int]));
            lemma_update_keys(runs, n, earlier, set![pos as int]);
            assert(key_set(after) =~= key_set(runs).insert(pos as int));
        } else {
            assert(after == runs.insert(n, single));
            lemma_insert_keys(runs, n, single);
            assert(key_set(after) =~= key_set(runs).insert(pos as int));
        }
    } else {
        if fuses_first(runs, pos) {
            let first = runs[0];
            let joined = Interval::spanning(pos as int, first.spec_end());
            assert(first.wf());
            assert(after == runs.update(0, joined));
            assert(joined.keys() =~= first.keys().union(set![pos as int, pos + 1]));
            lemma_update_keys(runs, 0, joined, set![pos as int, pos + 1]);
            assert(key_set(after) =~= key_set(runs).insert(pos as int).insert(pos + 1));
        } else {
            assert(after == runs.insert(0, single));
            lemma_insert_keys(runs, 0, single);
            assert(key_set(after) =~= key_set(runs).insert(pos as int));
        }
    }
}

/// `inserted` keeps the intervals `gap` apart, for the distance 1 always
/// and for the distance 2 unless `pos` lies right below the first interval.
proof fn lemma_inserted_apart(runs: Seq<Interval>, pos: u16, gap: int)
    requires
        apart(runs, gap),
        gap == 1 || (gap == 2 && !meets_first(runs, pos)),
    ensures
        apart(inserted(runs, pos), gap),
{
    lemma_apart_ordered(runs, gap);
    lemma_starts_below(runs, pos as int);
    let n = starts_below(runs, pos as int);
    if n < runs.len() && runs[n].value == pos {
    } else if n > 0 {
        lemma_inserted_apart_behind(runs, pos, gap);
    } else {
        lemma_inserted_apart_front(runs, pos, gap);
    }
}

/// `lemma_inserted_apart` where some interval starts below `pos`.
proof fn lemma_inserted_apart_behind(runs: Seq<Interval>, pos: u16, gap: int)
    requires
        apart(runs, gap),
        ordered(runs),
        1 <= gap <= 2,
        0 < starts_below(runs, pos as int) <= runs.len(),
        runs[starts_below(runs, pos as int) - 1].value < pos,
        starts_below(runs, pos as int) < runs.len() ==> runs[starts_below(
            runs,
            pos as int,
        )].value > pos,
    ensures
        apart(inserted(runs, pos), gap),
{
    let n = starts_below(runs, pos as int);
    let single = Interval { value: pos, length: 0 };
    let run = runs[n - 1];
    lemma_apart_at(runs, gap, n - 1, n);
    if n > 1 {
        lemma_apart_at(runs, gap, n - 2, n - 1);
    }
    if n < runs.len() {
        lemma_apart_at(runs, gap, n, n + 1);
    }
    if pos <= run.spec_end() {
    } else if pos == run.spec_end() + 1 {
        if n < runs.len() && runs[n].value == pos + 1 {
            lemma_joined_apart(runs, n, gap);
        } else {
            let longer = Interval { value: run.value, length: (run.length + 1) as u16 };
            lemma_replaced_apart(runs, n - 1, longer, gap);
        }
    } else if n < runs.len() && runs[n].value == pos + 1 {
        let earlier = Interval { value: pos, length: (runs[n].length + 1) as u16 };
        lemma_replaced_apart(runs, n, earlier, gap);
    } else {
        lemma_placed_apart(runs, n, single, gap);
    }
}

/// `lemma_inserted_apart` where no interval starts at `pos` or below.
proof fn lemma_inserted_apart_front(runs: Seq<Interval>, pos: u16, gap: int)
    requires
        apart(runs, gap),
        gap == 1 || (gap == 2 && !meets_first(runs, pos)),
        starts_below(runs, pos as int) == 0,
        runs.len() > 0 ==> runs[0].value > pos,
    ensures
        apart(inserted(runs, pos), gap),
{
    let single = Interval { value: pos, length: 0 };
    if runs.len() > 0 {
        lemma_apart_at(runs, gap, 0, 1);
    }
    if fuses_first(runs, pos) {
        let joined = Interval::spanning(pos as int, runs[0].spec_end());
        lemma_replaced_apart(runs, 0, joined, gap);
    } else {
        lemma_placed_apart(runs, 0, single, gap);
    }
}

/// The least distance that `ordered` (1) and `maximal` (2) ask between the
/// end of an interval and the start of a later one.
#[verifier::opaque]
spec fn apart(runs: Seq<Interval>, gap: int) -> bool {
    &&& forall|i: int| 0 <= i < runs.len() ==> (#[trigger] runs[i]).wf()
    &&& forall|i: int, j: int|
        0 <= i < j < runs.len() ==> (#[trigger] runs[i]).spec_end() + gap <= (#[trigger]
        runs[j]).value
}

proof fn lemma_apart(runs: Seq<Interval>)
    ensures
        apart(runs, 1) <==> ordered(runs),
        apart(runs, 2) <==> maximal(runs),
{
    reveal(apart);
}

/// What `apart` says of one interval and of one pair of intervals.
proof fn lemma_apart_at(runs: Seq<Interval>, gap: int, i: int, j: int)
    requires
        apart(runs, gap),
        0 <= i < runs.len(),
    ensures
        runs[i].wf(),
        i < j < runs.len() ==> runs[i].spec_end() + gap <= runs[j].value,
{
    reveal(apart);
}

/// Intervals that are some distance apart are ordered.
proof fn lemma_apart_ordered(runs: Seq<Interval>, gap: int)
    requires
        apart(runs, gap),
        gap >= 1,
    ensures
        ordered(runs),
{
    reveal(apart);
}

/// An interval that replaces the one at `index` and keeps the distance to both
/// neighbours keeps the run list apart.
proof fn lemma_replaced_apart(runs: Seq<Interval>, index: int, run: Interval, gap: int)
    requires
        apart(runs, gap),
        gap >= 1,
        0 <= index < runs.len(),
        run.wf(),
        index > 0 ==> runs[index - 1].spec_end() + gap <= run.value,
        index + 1 < runs.len() ==> run.spec_end() + gap <= runs[index + 1].value,
    ensures
        apart(runs.update(index, run), gap),
{
    reveal(apart);
    let after = runs.update(index, run);
    assert forall|i: int, j: int| 0 <= i < j < after.len() implies (#[trigger] after[i]).spec_end()
        + gap <= (#[trigger] after[j]).value by {
        if j == index {
            if i < index - 1 {
                assert(runs[i].spec_end() + gap <= runs[index - 1].value);
            }
        } else if i == index {
            if index + 1 < j {
                assert(runs[index + 1].spec_end() + gap <= runs[j].value);
            }
        } else {
            assert(runs[i].spec_end() + gap <= runs[j].value);
        }
    }
    assert forall|i: int| 0 <= i < after.len() implies (#[trigger] after[i]).wf() by {
        if i != index {
            assert(runs[i].wf());
        }
    }
}

/// An interval put at `index` at the distance `gap` from both neighbours
/// keeps the run list apart.
proof fn lemma_placed_apart(runs: Seq<Interval>, index: int, run: Interval, gap: int)
    requires
        apart(runs, gap),
        gap >= 1,
        0 <= index <= runs.len(),
        run.wf(),
        index > 0 ==> runs[index - 1].spec_end() + gap <= run.value,
        index < runs.len() ==> run.spec_end() + gap <= runs[index].value,
    ensures
        apart(runs.insert(index, run), gap),
{
    reveal(apart);
    let after = runs.insert(index, run);
    assert forall|i: int, j: int| 0 <= i < j < after.len() implies (#[trigger] after[i]).spec_end()
        + gap <= (#[trigger] after[j]).value by {
        if j == index {
            if i < index - 1 {
                assert(runs[i].spec_end() + gap <= runs[index - 1].value);
            }
        } else if i == index {
            if index + 1 < j {
                assert(runs[index].spec_end() + gap <= runs[j - 1].value);
            }
        } else if i < index && index < j {
            assert(runs[i].spec_end() + gap <= runs[j - 1].value);
        } else if j < index {
            assert(runs[i].spec_end() + gap <= runs[j].value);
        } else {
            assert(runs[i - 1].spec_end() + gap <= runs[j - 1].value);
        }
    }
    assert forall|i: int| 0 <= i < after.len() implies (#[trigger] after[i]).wf() by {
        if i < index {
            assert(runs[i].wf());
        } else if i > index {
            assert(runs[i - 1].wf());
        }
    }
}

/// Joining the interval before `index` to the one at `index` keeps the run
/// list apart.
proof fn lemma_joined_apart(runs: Seq<Interval>, index: int, gap: int)
    requires
        apart(runs, gap),
        gap >= 1,
        0 < index < runs.len(),
    ensures
        apart(
            runs.remove(index).update(
                index - 1,
                Interval::spanning(runs[index - 1].value as int, runs[index].spec_end()),
            ),
            gap,
        ),
{
    reveal(apart);
    let joined = Interval::spanning(runs[index - 1].value as int, runs[index].spec_end());
    let after = runs.remove(index).update(index - 1, joined);
    assert(runs[index - 1].spec_end() + gap <= runs[index].value);
    assert(runs[index].wf());
    assert forall|i: int, j: int| 0 <= i < j < after.len() implies (#[trigger] after[i]).spec_end()
        + gap <= (#[trigger] after[j]).value by {
        if j == index - 1 {
            assert(runs[i].spec_end() + gap <= runs[index - 1].value);
        } else if i == index - 1 {
            assert(runs[index].spec_end() + gap <= runs[j + 1].value);
        } else if j < index - 1 {
            assert(runs[i].spec_end() + gap <= runs[j].value);
        } else if i < index - 1 {
            assert(runs[i].spec_end() + gap <= runs[j + 1].value);
        } else {
            assert(runs[i + 1].spec_end() + gap <= runs[j + 1].value);
        }
    }
    assert forall|i: int| 0 <= i < after.len() implies (#[trigger] after[i]).wf() by {
        if i < index - 1 {
            assert(runs[i].wf());
        } else if i > index - 1 {
            assert(runs[i + 1].wf());
        }
    }
}

} // verus!
