use crate::interval::Interval;
use crate::runs::{
    full_runs, has_key, key_set, lemma_empty_keys, lemma_prefix_keys, maximal, ordered, sym_diff,
};
use crate::store::RunStore;
use crate::sweep::{
    and_emitted, and_pending, in_both, in_one, leads, lemma_advance, lemma_and_step,
    holds, lemma_tail_swap, lemma_xor_step, tail_is, xor_carried, xor_flushed,
};
use crate::visitor::{
    absorbed, accepts, continues, lemma_absorbed, lemma_continues_absorbed, lemma_continues_self,
    BinaryOperationVisitor,
};
use vstd::prelude::*;

verus! {

/// The intervals of `next` may follow what `runs` holds: the first of them
/// does not start below the last run.
pub open spec fn admits(runs: Seq<Interval>, next: Seq<Interval>) -> bool {
    runs.len() > 0 && next.len() > 0 ==> runs.last().value <= next[0].value
}

/// `result` is what `or` leaves in a new visitor: the full run list where
/// one store is full, else the maximal run list of the keys of both stores.
pub open spec fn is_union(lhs: Seq<Interval>, rhs: Seq<Interval>, result: Seq<Interval>) -> bool {
    if lhs == full_runs() {
        result == lhs
    } else if rhs == full_runs() {
        result == rhs
    } else {
        maximal(result) && key_set(result) == key_set(lhs).union(key_set(rhs))
    }
}

/// `result` is what `xor` leaves in a new visitor: the maximal run list of
/// the keys that lie in just one of the stores.
pub open spec fn is_sym_diff(
    lhs: Seq<Interval>,
    rhs: Seq<Interval>,
    result: Seq<Interval>,
) -> bool {
    maximal(result) && key_set(result) == sym_diff(key_set(lhs), key_set(rhs))
}

/// `result` is what `and` leaves in a new visitor: the runs of the other
/// store where one store is full, else the maximal run list of the keys that
/// lie in both stores.
pub open spec fn is_intersection(
    lhs: Seq<Interval>,
    rhs: Seq<Interval>,
    result: Seq<Interval>,
) -> bool {
    if lhs == full_runs() {
        result == rhs
    } else if rhs == full_runs() {
        result == lhs
    } else {
        maximal(result) && key_set(result) == key_set(lhs).intersect(key_set(rhs))
    }
}

/// The run list of a visitor after it has taken in `ival`, if there is one.
pub open spec fn absorbed_if(runs: Seq<Interval>, ival: Option<Interval>) -> Seq<Interval> {
    match ival {
        Some(ival) => absorbed(runs, ival),
        None => runs,
    }
}

/// The two numbers, the lower one first.
fn minmax(a: u16, b: u16) -> (r: (u16, u16))
    ensures
        r.0 <= r.1,
        (r.0 == a && r.1 == b) || (r.0 == b && r.1 == a),
{
    if a <= b {
        (a, b)
    } else {
        (b, a)
    }
}

/// Of the next interval of each store, the one of `lhs` comes first: it
/// starts no higher than the other, or `rhs` has none left.
fn lhs_comes_next(lhs: &RunStore, rhs: &RunStore, i: usize, j: usize) -> (r: bool)
    requires
        i <= lhs@.len(),
        j <= rhs@.len(),
        i < lhs@.len() || j < rhs@.len(),
    ensures
        r ==> i < lhs@.len() && (j < rhs@.len() ==> lhs@[i as int].value <= rhs@[j as int].value),
        !r ==> j < rhs@.len() && (i < lhs@.len() ==> rhs@[j as int].value < lhs@[i as int].value),
{
    j >= rhs.len() || (i < lhs.len() && lhs.run(i).value <= rhs.run(j).value)
}

/// A start that no interval of the two stores lies below: the lower of
/// their first starts, or the end of the key space if both are empty.
spec fn first_start(lhs: Seq<Interval>, rhs: Seq<Interval>) -> int {
    if lhs.len() > 0 && rhs.len() > 0 {
        if lhs[0].value <= rhs[0].value {
            lhs[0].value as int
        } else {
            rhs[0].value as int
        }
    } else if lhs.len() > 0 {
        lhs[0].value as int
    } else if rhs.len() > 0 {
        rhs[0].value as int
    } else {
        0x1_0000
    }
}

/// Before the sweep has taken an interval, nothing is pending.
proof fn lemma_sweep_start(lhs: Seq<Interval>, rhs: Seq<Interval>)
    ensures
        tail_is(lhs, 0, rhs, 0, None, first_start(lhs, rhs)),
        forall|key: int| !#[trigger] in_one(lhs, 0, rhs, 0, key),
        forall|key: int| !#[trigger] in_both(lhs, 0, rhs, 0, key),
{
    assert(lhs.take(0) =~= Seq::<Interval>::empty());
    assert(rhs.take(0) =~= Seq::<Interval>::empty());
}

/// One step of the symmetric difference: `curr` arrives while `prev_interval`
/// is pending. Returns what is pending afterwards.
fn xor_append(
    prev_interval: Option<Interval>,
    curr_interval: Interval,
    visitor: &mut impl BinaryOperationVisitor,
) -> (carry: Option<Interval>)
    requires
        curr_interval.wf(),
        leads(prev_interval, curr_interval),
        ordered(old(visitor).runs()),
        prev_interval is Some ==> accepts(old(visitor).runs(), prev_interval.unwrap()),
    ensures
        carry == xor_carried(prev_interval, curr_interval),
        final(visitor).runs() == absorbed_if(
            old(visitor).runs(),
            xor_flushed(prev_interval, curr_interval),
        ),
{
    let unwrapped_prev = match prev_interval {
        Some(prev) => prev,
        None => {
            return Some(curr_interval);
        },
    };
    // the same interval cancels each other out
    if unwrapped_prev == curr_interval {
        return None;
    }
    let (prev_start, prev_end) = unwrapped_prev.get_pair();
    let (curr_start, curr_end) = curr_interval.get_pair();
    // no overlap, append previous interval
    if prev_end < curr_start && curr_start - prev_end > 1 {
        visitor.visit_interval(&unwrapped_prev);
        return Some(curr_interval);
    }
    if prev_start == curr_start {
        // same prefix, different suffix
        let (min, max) = minmax(prev_end, curr_end);
        Some(Interval::from((min + 1, max)))
    } else if prev_end == curr_end {
        // different prefix, same suffix
        let (min, max) = minmax(prev_start, curr_start);
        Some(Interval::from((min, max - 1)))
    } else {
        // two disjoint resultant sets
        let (min_end, max_end) = minmax(prev_end, curr_end);
        let left = Interval::from((prev_start, curr_start - 1));
        let right = Interval::from((min_end + 1, max_end));
        visitor.visit_interval(&left);
        Some(right)
    }
}

/// One step of the intersection: `curr` arrives while `prev_interval` is
/// pending. Returns what is pending afterwards.
fn and_append(
    prev_interval: Option<Interval>,
    curr_interval: Interval,
    visitor: &mut impl BinaryOperationVisitor,
) -> (pending: Option<Interval>)
    requires
        curr_interval.wf(),
        leads(prev_interval, curr_interval),
        ordered(old(visitor).runs()),
        accepts(old(visitor).runs(), curr_interval),
    ensures
        pending == and_pending(prev_interval, curr_interval),
        final(visitor).runs() == absorbed_if(
            old(visitor).runs(),
            and_emitted(prev_interval, curr_interval),
        ),
{
    let unwrapped_interval = match prev_interval {
        Some(prev) => prev,
        None => {
            return Some(curr_interval);
        },
    };
    // same interval, automatically append it
    if unwrapped_interval == curr_interval {
        visitor.visit_interval(&curr_interval);
        return None;
    }
    let (prev_start, prev_end) = unwrapped_interval.get_pair();
    let (curr_start, curr_end) = curr_interval.get_pair();
    // no overlap, set previous interval to current
    if prev_end < curr_start {
        return Some(curr_interval);
    }
    if prev_start == curr_start {
        // same prefix, different suffix
        let (min, max) = minmax(prev_end, curr_end);
        visitor.visit_interval(&Interval::from((prev_start, min)));
        Some(Interval::from((min + 1, max)))
    } else if prev_end < curr_end {
        // overlap suffix of left with prefix of right
        visitor.visit_interval(&Interval::from((curr_start, prev_end)));
        Some(Interval::from((prev_end + 1, curr_end)))
    } else {
        // the pending interval holds all of `curr_interval`; what is left of
        // it starts behind the last shared key
        visitor.visit_interval(&curr_interval);
        if curr_end < prev_end {
            Some(Interval::from((curr_end + 1, prev_end)))
        } else {
            None
        }
    }
}

/// Union: hands the visitor the runs of both stores in ascending order of
/// their starts, or the whole of a store that is full.
pub fn or(lhs: &RunStore, rhs: &RunStore, visitor: &mut impl BinaryOperationVisitor)
    requires
        lhs.wf(),
        rhs.wf(),
        lhs@ != full_runs() && rhs@ != full_runs() ==> {
            &&& ordered(old(visitor).runs())
            &&& admits(old(visitor).runs(), lhs@)
            &&& admits(old(visitor).runs(), rhs@)
        },
    ensures
        lhs@ == full_runs() ==> final(visitor).runs() == lhs@,
        lhs@ != full_runs() && rhs@ == full_runs() ==> final(visitor).runs() == rhs@,
        lhs@ != full_runs() && rhs@ != full_runs() ==> {
            &&& ordered(final(visitor).runs())
            &&& key_set(final(visitor).runs()) == key_set(old(visitor).runs()).union(
                lhs.keys().union(rhs.keys()),
            )
            &&& maximal(old(visitor).runs()) ==> maximal(final(visitor).runs())
            &&& continues(old(visitor).runs(), final(visitor).runs())
        },
        old(visitor).runs().len() == 0 ==> is_union(lhs@, rhs@, final(visitor).runs()),
{
    if lhs.is_full() {
        visitor.visit_run_store(lhs);
        return ;
    }
    if rhs.is_full() {
        visitor.visit_run_store(rhs);
        return ;
    }
    proof {
        lemma_empty_keys(visitor.runs());
        lemma_continues_self(visitor.runs());
    }
    let n = lhs.len();
    let m = rhs.len();
    let mut i: usize = 0;
    let mut j: usize = 0;
    proof {
        assert(key_set(lhs@.take(0)) =~= Set::<int>::empty());
        assert(key_set(rhs@.take(0)) =~= Set::<int>::empty());
        assert(key_set(visitor.runs()) =~= key_set(visitor.runs()).union(
            Set::<int>::empty().union(Set::<int>::empty()),
        ));
    }
    while i < n || j < m
        invariant
            lhs.wf(),
            rhs.wf(),
            n == lhs@.len(),
            m == rhs@.len(),
            i <= n,
            j <= m,
            ordered(visitor.runs()),
            visitor.runs().len() > 0 && i < n ==> visitor.runs().last().value <= lhs@[i as int].value,
            visitor.runs().len() > 0 && j < m ==> visitor.runs().last().value <= rhs@[j as int].value,
            key_set(visitor.runs()) == key_set(old(visitor).runs()).union(
                key_set(lhs@.take(i as int)).union(key_set(rhs@.take(j as int))),
            ),
            maximal(old(visitor).runs()) ==> maximal(visitor.runs()),
            continues(old(visitor).runs(), visitor.runs()),
        decreases (n - i) + (m - j),
    {
        let ghost before = visitor.runs();
        let from_lhs = j >= m || (i < n && lhs.run(i).value <= rhs.run(j).value);
        let next = if from_lhs {
            lhs.run(i)
        } else {
            rhs.run(j)
        };
        proof {
            lemma_absorbed(before, next);
            lemma_continues_absorbed(old(visitor).runs(), before, next);
            if from_lhs {
                lemma_prefix_keys(lhs@, i as int);
                if i + 1 < n {
                    assert(lhs@[i as int].spec_end() < lhs@[i + 1].value);
                }
            } else {
                lemma_prefix_keys(rhs@, j as int);
                if j + 1 < m {
                    assert(rhs@[j as int].spec_end() < rhs@[j + 1].value);
                }
            }
        }
        visitor.visit_interval(&next);
        if from_lhs {
            i += 1;
        } else {
            j += 1;
        }
        proof {
            assert(key_set(visitor.runs()) =~= key_set(old(visitor).runs()).union(
                key_set(lhs@.take(i as int)).union(key_set(rhs@.take(j as int))),
            ));
        }
    }
    proof {
        assert(lhs@.take(n as int) =~= lhs@);
        assert(rhs@.take(m as int) =~= rhs@);
        if old(visitor).runs().len() == 0 {
            assert(key_set(visitor.runs()) =~= lhs.keys().union(rhs.keys()));
        }
    }
}

/// Symmetric difference: sweeps the runs of both stores in ascending order of
/// their starts and hands the visitor the ranges of keys that lie in just one
/// of the two.
pub fn xor(lhs: &RunStore, rhs: &RunStore, visitor: &mut impl BinaryOperationVisitor)
    requires
        lhs.wf(),
        rhs.wf(),
        ordered(old(visitor).runs()),
        admits(old(visitor).runs(), lhs@),
        admits(old(visitor).runs(), rhs@),
    ensures
        ordered(final(visitor).runs()),
        key_set(final(visitor).runs()) == key_set(old(visitor).runs()).union(
            sym_diff(lhs.keys(), rhs.keys()),
        ),
        maximal(old(visitor).runs()) ==> maximal(final(visitor).runs()),
        continues(old(visitor).runs(), final(visitor).runs()),
        old(visitor).runs().len() == 0 ==> is_sym_diff(lhs@, rhs@, final(visitor).runs()),
{
    proof {
        lemma_empty_keys(visitor.runs());
        lemma_continues_self(visitor.runs());
    }
    let n = lhs.len();
    let m = rhs.len();
    let mut i: usize = 0;
    let mut j: usize = 0;
    let mut prev_interval: Option<Interval> = None;
    let ghost mut floor: int = first_start(lhs@, rhs@);
    proof {
        lemma_sweep_start(lhs@, rhs@);
    }
    while i < n || j < m
        invariant
            lhs.wf(),
            rhs.wf(),
            n == lhs@.len(),
            m == rhs@.len(),
            i <= n,
            j <= m,
            ordered(visitor.runs()),
            maximal(old(visitor).runs()) ==> maximal(visitor.runs()),
            continues(old(visitor).runs(), visitor.runs()),
            tail_is(lhs@, i as int, rhs@, j as int, prev_interval, floor),
            visitor.runs().len() > 0 ==> visitor.runs().last().value <= floor,
            forall|key: int| #[trigger]
                has_key(visitor.runs(), key) <==> has_key(old(visitor).runs(), key) || (key
                    < floor && in_one(lhs@, i as int, rhs@, j as int, key)),
        decreases (n - i) + (m - j),
    {
        let ghost before = visitor.runs();
        let ghost before_floor = floor;
        let ghost before_i = i as int;
        let ghost before_j = j as int;
        let from_lhs = lhs_comes_next(lhs, rhs, i, j);
        let curr = if from_lhs {
            lhs.run(i)
        } else {
            rhs.run(j)
        };
        let carry = xor_append(prev_interval, curr, visitor);
        proof {
            let flushed = xor_flushed(prev_interval, curr);
            floor = if carry is Some {
                carry.unwrap().value as int
            } else {
                before_floor
            };
            lemma_xor_step(prev_interval, curr);
            if flushed is Some {
                lemma_absorbed(before, flushed.unwrap());
                lemma_continues_absorbed(old(visitor).runs(), before, flushed.unwrap());
            }
            assert forall|key: int| key >= floor implies ((holds(prev_interval, key)
                != curr.contains(key)) <==> #[trigger] holds(carry, key)) by {
                assert(holds(flushed, key) || holds(carry, key) <==> (holds(
                    prev_interval,
                    key,
                ) != curr.contains(key)));
            }
            if from_lhs {
                lemma_advance(
                    lhs@,
                    before_i,
                    rhs@,
                    before_j,
                    prev_interval,
                    before_floor,
                    carry,
                    floor,
                );
            } else {
                lemma_tail_swap(lhs@, before_i, rhs@, before_j, prev_interval, before_floor);
                lemma_advance(
                    rhs@,
                    before_j,
                    lhs@,
                    before_i,
                    prev_interval,
                    before_floor,
                    carry,
                    floor,
                );
                lemma_tail_swap(rhs@, before_j + 1, lhs@, before_i, carry, floor);
            }
        }
        if from_lhs {
            i += 1;
        } else {
            j += 1;
        }
        proof {
            let flushed = xor_flushed(prev_interval, curr);
            assert forall|key: int| #[trigger]
                has_key(visitor.runs(), key) <==> has_key(old(visitor).runs(), key) || (key
                    < floor && in_one(lhs@, i as int, rhs@, j as int, key)) by {
                assert(key_set(visitor.runs()).contains(key) <==> has_key(before, key)
                    || holds(flushed, key));
                assert(has_key(before, key) <==> has_key(old(visitor).runs(), key) || (key
                    < before_floor && in_one(lhs@, before_i, rhs@, before_j, key)));
                assert(holds(flushed, key) || holds(carry, key) <==> (holds(
                    prev_interval,
                    key,
                ) != curr.contains(key)));
                assert(in_one(lhs@, before_i, rhs@, before_j, key) == in_one(
                    rhs@,
                    before_j,
                    lhs@,
                    before_i,
                    key,
                ));
                assert(in_one(lhs@, i as int, rhs@, j as int, key) == in_one(
                    rhs@,
                    j as int,
                    lhs@,
                    i as int,
                    key,
                ));
                if key >= before_floor {
                    assert(in_one(lhs@, before_i, rhs@, before_j, key) <==> holds(
                        prev_interval,
                        key,
                    ));
                }
            }
        }
        prev_interval = carry;
    }
    let ghost before = visitor.runs();
    if prev_interval.is_some() {
        proof {
            lemma_absorbed(before, prev_interval.unwrap());
            lemma_continues_absorbed(old(visitor).runs(), before, prev_interval.unwrap());
        }
        visitor.visit_interval(&prev_interval.unwrap());
    }
    proof {
        assert(lhs@.take(n as int) =~= lhs@);
        assert(rhs@.take(m as int) =~= rhs@);
        assert forall|key: int|
            key_set(visitor.runs()).contains(key) <==> key_set(old(visitor).runs()).union(
                sym_diff(lhs.keys(), rhs.keys()),
            ).contains(key) by {
            assert(key_set(visitor.runs()).contains(key) <==> has_key(before, key) || holds(
                prev_interval,
                key,
            ));
            assert(has_key(before, key) <==> has_key(old(visitor).runs(), key) || (key < floor
                && in_one(lhs@, n as int, rhs@, m as int, key)));
            if key >= floor {
                assert(in_one(lhs@, n as int, rhs@, m as int, key) <==> holds(
                    prev_interval,
                    key,
                ));
            }
        }
        assert(key_set(visitor.runs()) =~= key_set(old(visitor).runs()).union(
            sym_diff(lhs.keys(), rhs.keys()),
        ));
        if old(visitor).runs().len() == 0 {
            assert(key_set(visitor.runs()) =~= sym_diff(lhs.keys(), rhs.keys()));
        }
    }
}

/// Intersection: sweeps the runs of both stores in ascending order of their
/// starts and hands the visitor the ranges of keys that lie in both. Where
/// one store is full, the visitor gets the whole of the other.
pub fn and(lhs: &RunStore, rhs: &RunStore, visitor: &mut impl BinaryOperationVisitor)
    requires
        lhs.wf(),
        rhs.wf(),
        lhs@ != full_runs() && rhs@ != full_runs() ==> {
            &&& ordered(old(visitor).runs())
            &&& admits(old(visitor).runs(), lhs@)
            &&& admits(old(visitor).runs(), rhs@)
        },
    ensures
        lhs@ == full_runs() ==> final(visitor).runs() == rhs@,
        lhs@ != full_runs() && rhs@ == full_runs() ==> final(visitor).runs() == lhs@,
        lhs@ != full_runs() && rhs@ != full_runs() ==> {
            &&& ordered(final(visitor).runs())
            &&& key_set(final(visitor).runs()) == key_set(old(visitor).runs()).union(
                lhs.keys().intersect(rhs.keys()),
            )
            &&& maximal(old(visitor).runs()) ==> maximal(final(visitor).runs())
            &&& continues(old(visitor).runs(), final(visitor).runs())
        },
        old(visitor).runs().len() == 0 ==> is_intersection(lhs@, rhs@, final(visitor).runs()),
{
    if lhs.is_full() {
        visitor.visit_run_store(rhs);
        return ;
    }
    if rhs.is_full() {
        visitor.visit_run_store(lhs);
        return ;
    }
    proof {
        lemma_empty_keys(visitor.runs());
        lemma_continues_self(visitor.runs());
    }
    let n = lhs.len();
    let m = rhs.len();
    let mut i: usize = 0;
    let mut j: usize = 0;
    let mut prev_interval: Option<Interval> = None;
    let ghost mut floor: int = first_start(lhs@, rhs@);
    proof {
        lemma_sweep_start(lhs@, rhs@);
    }
    while i < n || j < m
        invariant
            lhs.wf(),
            rhs.wf(),
            n == lhs@.len(),
            m == rhs@.len(),
            i <= n,
            j <= m,
            ordered(visitor.runs()),
            maximal(old(visitor).runs()) ==> maximal(visitor.runs()),
            continues(old(visitor).runs(), visitor.runs()),
            tail_is(lhs@, i as int, rhs@, j as int, prev_interval, floor),
            visitor.runs().len() > 0 ==> visitor.runs().last().value <= floor,
            forall|key: int| #[trigger]
                has_key(visitor.runs(), key) <==> has_key(old(visitor).runs(), key) || in_both(
                    lhs@,
                    i as int,
                    rhs@,
                    j as int,
                    key,
                ),
        decreases (n - i) + (m - j),
    {
        let ghost before = visitor.runs();
        let ghost before_floor = floor;
        let ghost before_i = i as int;
        let ghost before_j = j as int;
        let from_lhs = lhs_comes_next(lhs, rhs, i, j);
        let curr = if from_lhs {
            lhs.run(i)
        } else {
            rhs.run(j)
        };
        let pending = and_append(prev_interval, curr, visitor);
        proof {
            let emitted = and_emitted(prev_interval, curr);
            floor = if pending is Some {
                pending.unwrap().value as int
            } else {
                curr.value as int
            };
            lemma_and_step(prev_interval, curr);
            if emitted is Some {
                lemma_absorbed(before, emitted.unwrap());
                lemma_continues_absorbed(old(visitor).runs(), before, emitted.unwrap());
            }
            if from_lhs {
                lemma_advance(
                    lhs@,
                    before_i,
                    rhs@,
                    before_j,
                    prev_interval,
                    before_floor,
                    pending,
                    floor,
                );
            } else {
                lemma_tail_swap(lhs@, before_i, rhs@, before_j, prev_interval, before_floor);
                lemma_advance(
                    rhs@,
                    before_j,
                    lhs@,
                    before_i,
                    prev_interval,
                    before_floor,
                    pending,
                    floor,
                );
                lemma_tail_swap(rhs@, before_j + 1, lhs@, before_i, pending, floor);
            }
        }
        if from_lhs {
            i += 1;
        } else {
            j += 1;
        }
        proof {
            let emitted = and_emitted(prev_interval, curr);
            assert forall|key: int| #[trigger]
                has_key(visitor.runs(), key) <==> has_key(old(visitor).runs(), key) || in_both(
                    lhs@,
                    i as int,
                    rhs@,
                    j as int,
                    key,
                ) by {
                assert(key_set(visitor.runs()).contains(key) <==> has_key(before, key) || holds(
                    emitted,
                    key,
                ));
                assert(has_key(before, key) <==> has_key(old(visitor).runs(), key) || in_both(
                    lhs@,
                    before_i,
                    rhs@,
                    before_j,
                    key,
                ));
                assert(holds(emitted, key) <==> holds(prev_interval, key) && curr.contains(key));
                assert(in_both(lhs@, before_i, rhs@, before_j, key) == in_both(
                    rhs@,
                    before_j,
                    lhs@,
                    before_i,
                    key,
                ));
                assert(in_both(lhs@, i as int, rhs@, j as int, key) == in_both(
                    rhs@,
                    j as int,
                    lhs@,
                    i as int,
                    key,
                ));
                if curr.contains(key) {
                    if from_lhs {
                        assert(has_key(rhs@.take(before_j), key) <==> holds(prev_interval, key));
                    } else {
                        assert(has_key(lhs@.take(before_i), key) <==> holds(prev_interval, key));
                    }
                }
            }
        }
        prev_interval = pending;
    }
    proof {
        assert(lhs@.take(n as int) =~= lhs@);
        assert(rhs@.take(m as int) =~= rhs@);
        assert forall|key: int|
            key_set(visitor.runs()).contains(key) <==> key_set(old(visitor).runs()).union(
                lhs.keys().intersect(rhs.keys()),
            ).contains(key) by {
            assert(has_key(visitor.runs(), key) <==> has_key(old(visitor).runs(), key)
                || in_both(lhs@, n as int, rhs@, m as int, key));
        }
        assert(key_set(visitor.runs()) =~= key_set(old(visitor).runs()).union(
            lhs.keys().intersect(rhs.keys()),
        ));
        if old(visitor).runs().len() == 0 {
            assert(key_set(visitor.runs()) =~= lhs.keys().intersect(rhs.keys()));
        }
    }
}

} // verus!
