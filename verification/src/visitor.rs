use crate::interval::Interval;
use crate::runs::{
    has_key, key_set, lemma_insert_keys, lemma_maximal_is_ordered, lemma_maximal_unique,
    lemma_suffix_keys, lemma_update_keys, maximal, ordered,
};
use crate::store::RunStore;
use vstd::prelude::*;

verus! {

/// The run list after it has taken in `ival`: an interval that starts inside
/// the last run, or right behind its end, makes that run reach to the higher
/// of the two ends; any other interval becomes a new last run.
pub open spec fn absorbed(runs: Seq<Interval>, ival: Interval) -> Seq<Interval> {
    if runs.len() > 0 && ival.value <= runs.last().spec_end() + 1 {
        let last = runs.last();
        let end = if last.spec_end() >= ival.spec_end() {
            last.spec_end()
        } else {
            ival.spec_end()
        };
        runs.update(runs.len() - 1, Interval::spanning(last.value as int, end))
    } else {
        runs.push(ival)
    }
}

/// `ival` may follow what `runs` holds: it does not start below the last run.
pub open spec fn accepts(runs: Seq<Interval>, ival: Interval) -> bool {
    ival.wf() && (runs.len() > 0 ==> runs.last().value <= ival.value)
}

/// Taking in an interval that may follow keeps the run list ordered, keeps it
/// maximal if it was, and adds the keys of the interval to its keys.
pub proof fn lemma_absorbed(runs: Seq<Interval>, ival: Interval)
    requires
        ordered(runs),
        accepts(runs, ival),
    ensures
        ordered(absorbed(runs, ival)),
        maximal(runs) ==> maximal(absorbed(runs, ival)),
        key_set(absorbed(runs, ival)) == key_set(runs).union(ival.keys()),
        absorbed(runs, ival).len() > 0,
        absorbed(runs, ival).last().value <= ival.value,
        absorbed(runs, ival).last().spec_end() >= ival.spec_end(),
{
    let after = absorbed(runs, ival);
    if runs.len() > 0 && ival.value <= runs.last().spec_end() + 1 {
        let n = runs.len() - 1;
        let last = runs[n];
        let longer = after[n];
        assert(last.wf());
        assert(longer.keys() =~= last.keys().union(ival.keys()));
        lemma_update_keys(runs, n, longer, ival.keys());
        assert forall|i: int, j: int| 0 <= i < j < after.len() implies (#[trigger] after[i]).spec_end()
            < (#[trigger] after[j]).value && (maximal(runs) ==> after[i].spec_end() + 1
            < after[j].value) by {
            assert(runs[i].spec_end() < runs[j].value);
            if maximal(runs) {
                assert(runs[i].spec_end() + 1 < runs[j].value);
            }
        }
        assert forall|i: int| 0 <= i < after.len() implies (#[trigger] after[i]).wf() by {
            if i < n {
                assert(runs[i].wf());
            }
        }
    } else {
        let n = runs.len() as int;
        assert(after =~= runs.insert(n, ival));
        lemma_insert_keys(runs, n, ival);
        assert forall|i: int, j: int| 0 <= i < j < after.len() implies (#[trigger] after[i]).spec_end()
            < (#[trigger] after[j]).value && (maximal(runs) ==> after[i].spec_end() + 1
            < after[j].value) by {
            if j < n {
                assert(runs[i].spec_end() < runs[j].value);
                if maximal(runs) {
                    assert(runs[i].spec_end() + 1 < runs[j].value);
                }
            } else if i < n - 1 {
                assert(runs[i].spec_end() < runs[n - 1].value);
            }
        }
        assert forall|i: int| 0 <= i < after.len() implies (#[trigger] after[i]).wf() by {
            if i < n {
                assert(runs[i].wf());
            }
        }
    }
}

/// `after` continues `before`: it keeps every run of `before` but the last,
/// the last one keeps its start, and from there on `after` is maximal. A run
/// list that continues the empty one is maximal.
pub open spec fn continues(before: Seq<Interval>, after: Seq<Interval>) -> bool {
    if before.len() == 0 {
        maximal(after)
    } else {
        let kept = before.len() - 1;
        &&& after.len() >= before.len()
        &&& after.take(kept) == before.take(kept)
        &&& after[kept].value == before[kept].value
        &&& maximal(after.skip(kept))
    }
}

/// An ordered run list continues itself.
pub proof fn lemma_continues_self(runs: Seq<Interval>)
    requires
        ordered(runs),
    ensures
        continues(runs, runs),
{
    if runs.len() > 0 {
        let kept = runs.len() - 1;
        assert(runs.skip(kept).len() == 1);
        assert(runs.skip(kept)[0] == runs[kept]);
        assert(runs[kept].wf());
    }
}

/// What continues a run list still does so after it has taken in one more
/// interval.
pub proof fn lemma_continues_absorbed(before: Seq<Interval>, now: Seq<Interval>, ival: Interval)
    requires
        ordered(now),
        continues(before, now),
        accepts(now, ival),
    ensures
        continues(before, absorbed(now, ival)),
{
    let after = absorbed(now, ival);
    if before.len() == 0 {
        lemma_absorbed(now, ival);
    } else {
        let kept = before.len() - 1;
        let tail = now.skip(kept);
        assert(tail.last() == now.last());
        assert(after.skip(kept) =~= absorbed(tail, ival));
        lemma_maximal_is_ordered(tail);
        lemma_absorbed(tail, ival);
        assert(after.take(kept) =~= now.take(kept));
    }
}

/// A run list and a set of keys leave one choice for what continues the run
/// list with those keys.
pub proof fn lemma_continues_unique(before: Seq<Interval>, a: Seq<Interval>, b: Seq<Interval>)
    requires
        ordered(a),
        ordered(b),
        continues(before, a),
        continues(before, b),
        key_set(a) == key_set(b),
    ensures
        a == b,
{
    if before.len() == 0 {
        lemma_maximal_unique(a, b);
    } else {
        let kept = before.len() - 1;
        lemma_suffix_keys(a, kept);
        lemma_suffix_keys(b, kept);
        assert forall|key: int| has_key(a, key) == has_key(b, key) by {
            assert(key_set(a).contains(key) == has_key(a, key));
            assert(key_set(b).contains(key) == has_key(b, key));
        }
        assert(key_set(a.skip(kept)) =~= key_set(b.skip(kept)));
        lemma_maximal_unique(a.skip(kept), b.skip(kept));
        assert(a =~= a.take(kept) + a.skip(kept));
        assert(b =~= b.take(kept) + b.skip(kept));
    }
}

/// What a set operation hands its result to: one interval after the other,
/// in ascending order of their starts, or a whole store at once. This parts
/// the operations from what is done with their results.
///
/// To the operations every visitor is a run list, `runs`, that takes the
/// intervals in as a `RunWriter` does.
pub trait BinaryOperationVisitor {
    /// The run list that the visitor stands for.
    spec fn runs(&self) -> Seq<Interval>;

    /// Takes in one interval of the result, which must not start below the
    /// last run.
    fn visit_interval(&mut self, ival: &Interval)
        requires
            ordered(old(self).runs()),
            accepts(old(self).runs(), *ival),
        ensures
            final(self).runs() == absorbed(old(self).runs(), *ival),
    ;

    /// Takes `store` as the whole result, in place of what was taken in
    /// before.
    fn visit_run_store(&mut self, store: &RunStore)
        ensures
            final(self).runs() == store@,
    ;
}

/// The visitor that builds the result as a new store.
pub struct RunWriter {
    store: RunStore,
}

impl RunWriter {
    pub fn new() -> (r: Self)
        ensures
            r.runs() == Seq::<Interval>::empty(),
    {
        RunWriter { store: RunStore::new() }
    }

    /// The store that was built.
    pub fn into_inner(self) -> (r: RunStore)
        ensures
            r@ == self.runs(),
    {
        self.store
    }
}

impl BinaryOperationVisitor for RunWriter {
    closed spec fn runs(&self) -> Seq<Interval> {
        self.store@
    }

    /// Appends an interval to the store, merging it into the last run where
    /// the two overlap or touch.
    #[inline]
    fn visit_interval(&mut self, ival: &Interval) {
        proof {
            self.store.lemma_view();
        }
        let n = self.store.vec.len();
        if n > 0 {
            let last_ival = &mut self.store.vec[n - 1];
            let last_end = last_ival.get_end();
            let ival_end = ival.get_end();
            let max_end = if last_end >= ival_end {
                last_end
            } else {
                ival_end
            };
            if ival.value <= last_end || ival.value - last_end == 1 {
                last_ival.length = max_end - last_ival.value;
            } else {
                self.store.vec.push(*ival);
            }
        } else {
            self.store.vec.push(*ival);
        }
        proof {
            self.store.lemma_view();
            assert(self.store@ =~= absorbed(old(self).store@, *ival));
        }
    }

    fn visit_run_store(&mut self, store: &RunStore) {
        self.store = store.clone()
    }
}

} // verus!
