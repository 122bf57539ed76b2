use crate::interval::Interval;
use crate::insertion::{
    inserted, inserted_keys, lemma_inserted, lemma_starts_below, lemma_starts_below_is,
    meets_first, starts_below,
};
use crate::runs::{
    full_runs, has_key, key_set, lemma_maximal_prefix, lemma_ordered_len, maximal, ordered,
};
use std::cmp::Ordering;
use vstd::prelude::*;

verus! {

/// A set of 16-bit keys, kept as an ascending list of closed ranges.
#[derive(Debug, PartialEq, Eq)]
pub struct RunStore {
    pub(crate) vec: Vec<Interval>,
}

/// Why a list of intervals was refused, and at which index.
#[derive(Debug, PartialEq, Eq)]
pub struct Error {
    pub index: usize,
    pub kind: ErrorKind,
}

#[derive(Copy, Clone, Debug, PartialEq, Eq)]
pub enum ErrorKind {
    /// An interval does not start at least two keys above the end of the one
    /// before it, or runs past the end of the key space.
    MonotonicityViolation,
}

/// Where a run lies, seen from a key.
enum Side {
    /// The whole run is below the key.
    Below,
    /// The run holds the key.
    Holds,
    /// The whole run is above the key.
    Above,
}

fn side_of_key(run: &Interval, key: u16) -> (r: Side)
    requires
        run.wf(),
    ensures
        r is Below <==> run.value + run.length < key,
        r is Holds <==> run.value <= key && key <= run.value + run.length,
        r is Above <==> key < run.value,
{
    match run.compare_to_index(key) {
        Ordering::Less => Side::Below,
        Ordering::Equal => Side::Holds,
        Ordering::Greater => Side::Above,
    }
}

impl Clone for RunStore {
    fn clone(&self) -> (r: Self)
        ensures
            r@ == self@,
    {
        let vec = self.vec.clone();
        proof {
            assert(vec@ =~= self.vec@);
        }
        RunStore { vec }
    }
}

impl View for RunStore {
    type V = Seq<Interval>;

    /// The runs of the store, in order.
    closed spec fn view(&self) -> Seq<Interval> {
        self.vec@
    }
}

impl RunStore {
    /// The runs ascend without overlap. Every store that this library hands
    /// out is well formed.
    pub open spec fn wf(&self) -> bool {
        ordered(self@)
    }

    /// The keys of the store.
    pub open spec fn keys(&self) -> Set<int> {
        key_set(self@)
    }

    /// The view is the content of the vector.
    pub(crate) proof fn lemma_view(&self)
        ensures
            self@ == self.vec@,
    {
    }

    pub fn new() -> (r: RunStore)
        ensures
            r@ == Seq::<Interval>::empty(),
            r.wf(),
    {
        RunStore { vec: Vec::new() }
    }

    /// The number of runs.
    pub fn len(&self) -> (r: usize)
        ensures
            r == self@.len(),
    {
        self.vec.len()
    }

    /// The run at `index`.
    pub fn get(&self, index: usize) -> (r: Option<Interval>)
        ensures
            r == if index < self@.len() {
                Some(self@[index as int])
            } else {
                None
            },
    {
        if index < self.vec.len() {
            Some(self.vec[index])
        } else {
            None
        }
    }

    /// Searches for the run that starts at `ikey`: `Ok` with its index. If
    /// there is none, `Err` with the index of the last run that starts below
    /// `ikey`, or `Err(-1)` if no run does.
    pub fn interleaved_binary_search(&self, ikey: u16) -> (r: Result<i32, i32>)
        requires
            self.wf(),
        ensures
            match r {
                Ok(x) => 0 <= x < self@.len() && self@[x as int].value == ikey,
                Err(y) => {
                    &&& -1 <= y < self@.len()
                    &&& forall|i: int| 0 <= i <= y ==> (#[trigger] self@[i]).value < ikey
                    &&& forall|i: int| y < i < self@.len() ==> (#[trigger] self@[i]).value > ikey
                },
            },
    {
        proof {
            lemma_ordered_len(self@);
        }
        let mut lo: usize = 0;
        let mut hi: usize = self.vec.len();
        while lo < hi
            invariant
                self.wf(),
                lo <= hi <= self@.len() <= 0x1_0000,
                forall|i: int| 0 <= i < lo ==> (#[trigger] self@[i]).value < ikey,
                forall|i: int| hi <= i < self@.len() ==> (#[trigger] self@[i]).value > ikey,
            decreases hi - lo,
        {
            let mid = lo + (hi - lo) / 2;
            let start = self.vec[mid].value;
            if start == ikey {
                return Ok(mid as i32);
            } else if start < ikey {
                assert forall|i: int| 0 <= i < mid + 1 implies (#[trigger] self@[i]).value
                    < ikey by {
                    if i < mid {
                        assert(self@[i].spec_end() < self@[mid as int].value);
                    }
                }
                lo = mid + 1;
            } else {
                assert forall|i: int| mid <= i < self@.len() implies (#[trigger] self@[i]).value
                    > ikey by {
                    if mid < i {
                        assert(self@[mid as int].spec_end() < self@[i].value);
                    }
                }
                hi = mid;
            }
        }
        Err(lo as i32 - 1)
    }

    /// Searches for the run that holds `ikey`: `Ok` with its index. If there
    /// is none, `Err` with the index of the last run below `ikey`, or
    /// `Err(-1)` if no run is.
    pub fn find_run(&self, ikey: u16) -> (r: Result<i32, i32>)
        requires
            self.wf(),
        ensures
            r is Ok <==> self.keys().contains(ikey as int),
            match r {
                Ok(x) => 0 <= x < self@.len() && self@[x as int].contains(ikey as int),
                Err(y) => {
                    &&& -1 <= y < self@.len()
                    &&& forall|i: int| 0 <= i <= y ==> (#[trigger] self@[i]).spec_end() < ikey
                    &&& forall|i: int| y < i < self@.len() ==> (#[trigger] self@[i]).value > ikey
                },
            },
    {
        proof {
            lemma_ordered_len(self@);
        }
        let mut lo: usize = 0;
        let mut hi: usize = self.vec.len();
        while lo < hi
            invariant
                self.wf(),
                lo <= hi <= self@.len() <= 0x1_0000,
                forall|i: int| 0 <= i < lo ==> (#[trigger] self@[i]).spec_end() < ikey,
                forall|i: int| hi <= i < self@.len() ==> (#[trigger] self@[i]).value > ikey,
            decreases hi - lo,
        {
            let mid = lo + (hi - lo) / 2;
            let run = &self.vec[mid];
            match side_of_key(run, ikey) {
                Side::Holds => {
                    return Ok(mid as i32);
                },
                Side::Below => {
                    assert forall|i: int| 0 <= i < mid + 1 implies (#[trigger] self@[i]).spec_end()
                        < ikey by {
                        if i < mid {
                            assert(self@[i].spec_end() < run.value);
                        }
                    }
                    lo = mid + 1;
                },
                Side::Above => {
                    assert forall|i: int| mid <= i < self@.len() implies (#[trigger] self@[i]).value
                        > ikey by {
                        if mid < i {
                            assert(run.spec_end() < self@[i].value);
                        }
                    }
                    hi = mid;
                },
            }
        }
        proof {
            if has_key(self@, ikey as int) {
                let i = choose|i: int|
                    0 <= i < self@.len() && (#[trigger] self@[i]).contains(ikey as int);
                assert(self@[i].spec_end() < ikey || self@[i].value > ikey);
            }
        }
        Err(lo as i32 - 1)
    }

    /// Puts `pos` into the store and says whether `pos` was new to it.
    ///
    /// The runs change as `inserted` says. The store stays well formed and
    /// gains `pos`; where `pos` lies two keys below the first run, it gains the
    /// key between them too. Maximal runs stay maximal, unless `pos` lies right
    /// below the first run.
    pub fn insert(&mut self, pos: u16) -> (changed: bool)
        requires
            old(self).wf(),
        ensures
            final(self)@ == inserted(old(self)@, pos),
            changed == !old(self).keys().contains(pos as int),
            final(self).wf(),
            final(self).keys() == inserted_keys(old(self)@, pos),
            final(self).keys().contains(pos as int),
            maximal(old(self)@) && !meets_first(old(self)@, pos) ==> maximal(final(self)@),
    {
        proof {
            lemma_inserted(self@, pos);
        }
        let index = match self.interleaved_binary_search(pos) {
            Ok(found) => {
                proof {
                    self.lemma_start_found(pos, found as int);
                }
                return false;
            },
            Err(index) => index,
        };
        proof {
            lemma_ordered_len(self@);
            lemma_starts_below_is(self@, pos as int, index + 1);
            self.lemma_key_between(pos, index as int);
        }
        if index >= 0 {
            let index = index as usize;
            let interval = self.vec[index];
            let offset = pos - interval.value;
            let len = interval.length;
            if offset <= len {
                return false;
            } else if offset - len == 1 {
                let fused = if index + 1 < self.vec.len() {
                    interval.try_fuse(Some(&self.vec[index + 1]))
                } else {
                    None
                };
                if let Some(fused_interval) = fused {
                    self.vec.remove(index + 1);
                    self.vec[index] = fused_interval;
                    return true;
                } else {
                    self.vec[index].length += 1;
                    return true;
                }
            } else if index + 1 < self.vec.len() {
                let next_interval = &mut self.vec[index + 1];
                if next_interval.value == pos + 1 {
                    next_interval.value = pos;
                    next_interval.length += 1;
                    return true;
                }
            }
        }
        if index == -1 {
            let fused = if self.vec.len() > 0 {
                Interval::from(pos).try_fuse(Some(&self.vec[0]))
            } else {
                None
            };
            if let Some(fused_interval) = fused {
                self.vec[0] = fused_interval;
                return true;
            }
        }
        self.vec.insert((index + 1) as usize, Interval::from(pos));
        assert(self@ == inserted(old(self)@, pos));
        true
    }

    /// A key that a run starts at is a key of the store.
    proof fn lemma_start_found(&self, pos: u16, found: int)
        requires
            self.wf(),
            0 <= found < self@.len(),
            self@[found].value == pos,
        ensures
            self.keys().contains(pos as int),
            inserted(self@, pos) == self@,
    {
        assert(self@[found].contains(pos as int));
        lemma_starts_below(self@, pos as int);
        let n = starts_below(self@, pos as int);
        if n < found {
            assert(self@[n].spec_end() < self@[found].value);
        }
    }

    /// Where `index` is the last run that starts below `pos` and no run
    /// starts at `pos`, the store holds `pos` just when that run does.
    proof fn lemma_key_between(&self, pos: u16, index: int)
        requires
            self.wf(),
            -1 <= index < self@.len(),
            forall|i: int| 0 <= i <= index ==> (#[trigger] self@[i]).value < pos,
            forall|i: int| index < i < self@.len() ==> (#[trigger] self@[i]).value > pos,
        ensures
            self.keys().contains(pos as int) <==> index >= 0 && pos <= self@[index].spec_end(),
    {
        if index >= 0 && pos <= self@[index].spec_end() {
            assert(self@[index].contains(pos as int));
        }
        if has_key(self@, pos as int) {
            let i = choose|i: int| 0 <= i < self@.len() && (#[trigger] self@[i]).contains(pos as int);
            if i < index {
                assert(self@[i].spec_end() < self@[index].value);
            }
        }
    }

    /// The run at `index`, which the store must have.
    pub(crate) fn run(&self, index: usize) -> (r: Interval)
        requires
            index < self@.len(),
        ensures
            r == self@[index as int],
    {
        self.vec[index]
    }

    /// The store is the single run that covers the whole key space.
    pub fn is_full(&self) -> (r: bool)
        ensures
            r == (self@ == full_runs()),
    {
        let r = self.vec.len() == 1 && self.vec[0].value == 0 && self.vec[0].length == u16::MAX;
        proof {
            if r {
                assert(self@ =~= full_runs());
            } else if self@ == full_runs() {
                assert(full_runs()[0] == Interval { value: 0, length: u16::MAX });
            }
        }
        r
    }
}

/// The interval at `index` is the first that cannot be a run after those
/// before it: up to it the list is maximal, with it no longer.
pub open spec fn first_violation(runs: Seq<Interval>, index: int) -> bool {
    &&& 0 <= index < runs.len()
    &&& maximal(runs.take(index))
    &&& !maximal(runs.take(index + 1))
}

/// A list has at most one first violation, and a maximal list has none.
pub proof fn lemma_first_violation(runs: Seq<Interval>, i: int, j: int)
    requires
        first_violation(runs, i),
    ensures
        !maximal(runs),
        first_violation(runs, j) ==> i == j,
{
    if maximal(runs) {
        lemma_maximal_prefix(runs, i + 1);
    }
    if first_violation(runs, j) {
        if i < j {
            lemma_maximal_prefix(runs.take(j), i + 1);
            assert(runs.take(j).take(i + 1) =~= runs.take(i + 1));
        } else if j < i {
            lemma_maximal_prefix(runs.take(i), j + 1);
            assert(runs.take(i).take(j + 1) =~= runs.take(j + 1));
        }
    }
}

impl vstd::std_specs::convert::TryFromSpecImpl<Vec<Interval>> for RunStore {
    open spec fn obeys_try_from_spec() -> bool {
        true
    }

    closed spec fn try_from_spec(value: Vec<Interval>) -> Result<Self, Error> {
        if maximal(value@) {
            Ok(RunStore { vec: value })
        } else {
            Err(
                Error {
                    index: choose|index: usize| first_violation(value@, index as int),
                    kind: ErrorKind::MonotonicityViolation,
                },
            )
        }
    }
}

impl TryFrom<Vec<Interval>> for RunStore {
    type Error = Error;

    /// Takes the intervals as the runs of a store if each one stays inside
    /// the key space and starts at least two keys above the end of the one
    /// before it. Otherwise reports the first index at which this fails.
    fn try_from(value: Vec<Interval>) -> (r: Result<Self, Error>)
        ensures
            r is Ok <==> maximal(value@),
            r is Ok ==> r.unwrap()@ == value@ && r.unwrap().wf(),
            r is Err ==> r.unwrap_err().kind is MonotonicityViolation && first_violation(
                value@,
                r.unwrap_err().index as int,
            ),
    {
        let n = value.len();
        let mut i: usize = 0;
        while i < n
            invariant
                n == value@.len(),
                i <= n,
                maximal(value@.take(i as int)),
            decreases n - i,
        {
            let curr = value[i];
            let fits = curr.length <= u16::MAX - curr.value;
            let above = if i == 0 {
                true
            } else {
                let prev = value[i - 1];
                (curr.value as u32) >= (prev.value as u32) + (prev.length as u32) + 2
            };
            if !(fits && above) {
                proof {
                    let longer = value@.take(i + 1);
                    assert(longer[i as int] == curr);
                    if i > 0 {
                        assert(longer[i - 1] == value@[i - 1]);
                    }
                    assert(first_violation(value@, i as int));
                    let chosen = choose|index: usize| first_violation(value@, index as int);
                    lemma_first_violation(value@, i as int, chosen as int);
                }
                return Err(Error { index: i, kind: ErrorKind::MonotonicityViolation });
            }
            proof {
                let shorter = value@.take(i as int);
                let longer = value@.take(i + 1);
                assert forall|a: int, b: int| 0 <= a < b < longer.len() implies (#[trigger] longer[a]).spec_end()
                    + 1 < (#[trigger] longer[b]).value by {
                    if b < i {
                        assert(shorter[a] == longer[a] && shorter[b] == longer[b]);
                    } else if a < i - 1 {
                        assert(shorter[a] == longer[a] && shorter[i - 1] == longer[i - 1]);
                        assert(shorter[a].spec_end() + 1 < shorter[i - 1].value);
                    }
                }
                assert forall|a: int| 0 <= a < longer.len() implies (#[trigger] longer[a]).wf() by {
                    if a < i {
                        assert(shorter[a] == longer[a]);
                    }
                }
            }
            i += 1;
        }
        proof {
            assert(value@.take(n as int) =~= value@);
        }
        Ok(RunStore { vec: value })
    }
}

} // verus!
