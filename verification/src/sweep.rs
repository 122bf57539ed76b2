//! One step of the sweeps for symmetric difference and intersection: what
//! happens to the pending interval when the next interval arrives, and what
//! goes to the visitor.

use crate::interval::Interval;
use crate::runs::{has_key, lemma_prefix_keys, ordered};
use vstd::prelude::*;

verus! {

/// `key` lies in the interval, if there is one.
pub open spec fn holds(run: Option<Interval>, key: int) -> bool {
    run is Some && run.unwrap().contains(key)
}

/// The lower of the two ends.
pub open spec fn low_end(a: Interval, b: Interval) -> int {
    if a.spec_end() <= b.spec_end() {
        a.spec_end()
    } else {
        b.spec_end()
    }
}

/// The higher of the two ends.
pub open spec fn high_end(a: Interval, b: Interval) -> int {
    if a.spec_end() <= b.spec_end() {
        b.spec_end()
    } else {
        a.spec_end()
    }
}

/// Symmetric difference: what is final once `curr` has arrived, and goes to
/// the visitor. That is the pending interval if `curr` starts more than one
/// key past its end; its part below `curr` if the two overlap or touch and
/// differ in both start and end; and nothing in any other case.
pub open spec fn xor_flushed(carry: Option<Interval>, curr: Interval) -> Option<Interval> {
    match carry {
        None => None,
        Some(prev) => if prev == curr {
            None
        } else if prev.spec_end() + 1 < curr.value {
            Some(prev)
        } else if prev.value == curr.value || prev.spec_end() == curr.spec_end() {
            None
        } else {
            Some(Interval::spanning(prev.value as int, curr.value - 1))
        },
    }
}

/// Symmetric difference: the pending interval once `curr` has arrived. Two
/// equal intervals cancel. An interval that starts more than one key past the
/// pending one takes its place. Of two that share their start, the part
/// above the lower end stays; of two that share their end, the part below
/// the higher start; of any other two, the part above the lower end.
pub open spec fn xor_carried(carry: Option<Interval>, curr: Interval) -> Option<Interval> {
    match carry {
        None => Some(curr),
        Some(prev) => if prev == curr {
            None
        } else if prev.spec_end() + 1 < curr.value {
            Some(curr)
        } else if prev.spec_end() == curr.spec_end() && prev.value != curr.value {
            Some(Interval::spanning(prev.value as int, curr.value - 1))
        } else {
            Some(Interval::spanning(low_end(prev, curr) + 1, high_end(prev, curr)))
        },
    }
}

/// Intersection: what goes to the visitor once `curr` has arrived: the keys
/// that the pending interval and `curr` share, if there are any.
pub open spec fn and_emitted(pending: Option<Interval>, curr: Interval) -> Option<Interval> {
    match pending {
        None => None,
        Some(prev) => if prev.spec_end() < curr.value {
            None
        } else {
            Some(Interval::spanning(curr.value as int, low_end(prev, curr)))
        },
    }
}

/// Intersection: the pending interval once `curr` has arrived: `curr` itself
/// where it shares no key with the one before, else what reaches past the
/// lower of the two ends, if anything does.
pub open spec fn and_pending(pending: Option<Interval>, curr: Interval) -> Option<Interval> {
    match pending {
        None => Some(curr),
        Some(prev) => if prev.spec_end() < curr.value {
            Some(curr)
        } else if prev.spec_end() == curr.spec_end() {
            None
        } else {
            Some(Interval::spanning(low_end(prev, curr) + 1, high_end(prev, curr)))
        },
    }
}

/// The pending interval, where there is one, stays inside the key space and
/// does not start above `curr`.
pub open spec fn leads(pending: Option<Interval>, curr: Interval) -> bool {
    pending is Some ==> pending.unwrap().wf() && pending.unwrap().value <= curr.value
}

/// A step of the symmetric difference parts the keys that lie in just one of
/// the pending interval and `curr` between the visitor and the new pending
/// interval, the lower ones to the visitor.
pub proof fn lemma_xor_step(carry: Option<Interval>, curr: Interval)
    requires
        curr.wf(),
        leads(carry, curr),
    ensures
        forall|key: int|
            (holds(carry, key) != curr.contains(key)) <==> (#[trigger] holds(
                xor_flushed(carry, curr),
                key,
            ) || holds(xor_carried(carry, curr), key)),
        xor_flushed(carry, curr) is Some ==> {
            &&& carry is Some
            &&& xor_flushed(carry, curr).unwrap().wf()
            &&& xor_flushed(carry, curr).unwrap().value == carry.unwrap().value
            &&& xor_flushed(carry, curr).unwrap().spec_end() < curr.value
            &&& xor_carried(carry, curr) is Some
        },
        xor_carried(carry, curr) is Some ==> {
            &&& xor_carried(carry, curr).unwrap().wf()
            &&& carry is Some ==> carry.unwrap().value <= xor_carried(carry, curr).unwrap().value
            &&& xor_carried(carry, curr).unwrap().value <= curr.spec_end() + 1
            &&& xor_flushed(carry, curr) is Some ==> xor_flushed(carry, curr).unwrap().spec_end()
                < xor_carried(carry, curr).unwrap().value
        },
{
}

/// A step of the intersection hands the visitor the keys that the pending
/// interval and `curr` share. From the start of `curr` on, the new pending
/// interval holds the keys that lie in just one of the two.
pub proof fn lemma_and_step(pending: Option<Interval>, curr: Interval)
    requires
        curr.wf(),
        leads(pending, curr),
    ensures
        forall|key: int|
            (holds(pending, key) && curr.contains(key)) <==> #[trigger] holds(
                and_emitted(pending, curr),
                key,
            ),
        forall|key: int|
            key >= curr.value ==> ((holds(pending, key) != curr.contains(key)) <==> #[trigger] holds(
                and_pending(pending, curr),
                key,
            )),
        and_emitted(pending, curr) is Some ==> {
            &&& and_emitted(pending, curr).unwrap().wf()
            &&& and_emitted(pending, curr).unwrap().value == curr.value
        },
        and_pending(pending, curr) is Some ==> {
            &&& and_pending(pending, curr).unwrap().wf()
            &&& curr.value <= and_pending(pending, curr).unwrap().value
            &&& and_pending(pending, curr).unwrap().value <= curr.spec_end() + 1
        },
{
}

/// `key` lies in just one of the two stores, as far as the sweep has come:
/// in the first `c` intervals of the one or in the first `d` of the other.
pub open spec fn in_one(
    own: Seq<Interval>,
    c: int,
    other: Seq<Interval>,
    d: int,
    key: int,
) -> bool {
    has_key(own.take(c), key) != has_key(other.take(d), key)
}

/// `key` lies in both stores, as far as the sweep has come.
pub open spec fn in_both(
    own: Seq<Interval>,
    c: int,
    other: Seq<Interval>,
    d: int,
    key: int,
) -> bool {
    has_key(own.take(c), key) && has_key(other.take(d), key)
}

/// What the sweep keeps true of the pending interval. No interval that is
/// still to come starts below `floor`; the pending interval, where there is
/// one, starts at `floor`; and from `floor` on it holds just the keys that lie
/// in one of the two stores alone, as far as the sweep has come.
pub open spec fn tail_is(
    own: Seq<Interval>,
    c: int,
    other: Seq<Interval>,
    d: int,
    pending: Option<Interval>,
    floor: int,
) -> bool {
    &&& c < own.len() ==> floor <= own[c].value
    &&& d < other.len() ==> floor <= other[d].value
    &&& pending is Some ==> pending.unwrap().wf() && pending.unwrap().value == floor
    &&& forall|key: int|
        key >= floor ==> (#[trigger] in_one(own, c, other, d, key) <==> holds(pending, key))
}

/// It makes no difference which of the two stores is named first.
pub proof fn lemma_tail_swap(
    own: Seq<Interval>,
    c: int,
    other: Seq<Interval>,
    d: int,
    pending: Option<Interval>,
    floor: int,
)
    requires
        tail_is(own, c, other, d, pending, floor),
    ensures
        tail_is(other, d, own, c, pending, floor),
{
    assert forall|key: int| key >= floor implies (#[trigger] in_one(other, d, own, c, key)
        <==> holds(pending, key)) by {
        assert(in_one(own, c, other, d, key) == in_one(other, d, own, c, key));
    }
}

/// The sweep takes the interval at `c` of `own`, which starts no higher than
/// the next interval of `other`. If the new pending interval holds, from the
/// new floor on, the keys that lie in just one of the old pending interval
/// and the interval taken, and if both of these hold every key between the
/// start of the interval taken and the new floor, then the sweep is as it
/// should be one interval further on.
pub proof fn lemma_advance(
    own: Seq<Interval>,
    c: int,
    other: Seq<Interval>,
    d: int,
    pending: Option<Interval>,
    floor: int,
    next: Option<Interval>,
    next_floor: int,
)
    requires
        ordered(own),
        ordered(other),
        0 <= c < own.len(),
        0 <= d <= other.len(),
        d < other.len() ==> own[c].value <= other[d].value,
        tail_is(own, c, other, d, pending, floor),
        next is Some ==> next.unwrap().wf() && next.unwrap().value == next_floor,
        floor <= next_floor <= own[c].spec_end() + 1,
        forall|key: int|
            key >= next_floor ==> ((holds(pending, key) != own[c].contains(key)) <==> #[trigger] holds(
                next,
                key,
            )),
        forall|key: int|
            own[c].value <= key < next_floor ==> #[trigger] holds(pending, key) && own[c].contains(
                key,
            ),
    ensures
        tail_is(own, c + 1, other, d, next, next_floor),
        forall|key: int| #[trigger]
            in_one(own, c + 1, other, d, key) <==> (in_one(own, c, other, d, key)
                != own[c].contains(key)),
        forall|key: int| #[trigger]
            in_both(own, c + 1, other, d, key) <==> in_both(own, c, other, d, key) || (
            own[c].contains(key) && has_key(other.take(d), key)),
        forall|key: int|
            own[c].contains(key) ==> (#[trigger] has_key(other.take(d), key) <==> holds(
                pending,
                key,
            )),
{
    let taken = own[c];
    lemma_prefix_keys(own, c);
    assert(taken.wf());
    assert forall|key: int| #[trigger]
        in_one(own, c + 1, other, d, key) <==> (in_one(own, c, other, d, key) != taken.contains(
            key,
        )) by {
        assert(has_key(own.take(c + 1), key) <==> has_key(own.take(c), key) || taken.contains(
            key,
        ));
        if has_key(own.take(c), key) {
            assert(key < taken.value);
        }
    }
    assert forall|key: int| #[trigger]
        in_both(own, c + 1, other, d, key) <==> in_both(own, c, other, d, key) || (taken.contains(
            key,
        ) && has_key(other.take(d), key)) by {
        assert(has_key(own.take(c + 1), key) <==> has_key(own.take(c), key) || taken.contains(
            key,
        ));
    }
    assert forall|key: int| taken.contains(key) implies (#[trigger] has_key(other.take(d), key)
        <==> holds(pending, key)) by {
        if has_key(own.take(c), key) {
            assert(key < taken.value);
        }
        assert(in_one(own, c, other, d, key) <==> holds(pending, key));
    }
    if c + 1 < own.len() {
        assert(taken.spec_end() < own[c + 1].value);
    }
    if d < other.len() && next_floor > other[d].value {
        let key = other[d].value as int;
        lemma_prefix_keys(other, d);
        assert(holds(pending, key) && taken.contains(key));
        assert(in_one(own, c, other, d, key) <==> holds(pending, key));
        if has_key(other.take(d), key) {
            assert(key < other[d].value);
        }
        if has_key(own.take(c), key) {
            assert(key < taken.value);
        }
        assert(false);
    }
    assert forall|key: int| key >= next_floor implies (#[trigger] in_one(
        own,
        c + 1,
        other,
        d,
        key,
    ) <==> holds(next, key)) by {
        assert(in_one(own, c, other, d, key) <==> holds(pending, key));
    }
}

} // verus!
