use std::cmp::Ordering;
use vstd::prelude::*;

verus! {

/// A run-length pair that stands for the closed range `[value, value + length]`.
/// The pair `{3, 2}` is the set `{3, 4, 5}`.
#[derive(Copy, Clone, Debug, PartialEq, Eq, PartialOrd, Ord, Structural)]
pub struct Interval {
    pub value: u16,
    pub length: u16,
}

impl Interval {
    /// The range stays inside the 16-bit key space.
    pub open spec fn wf(self) -> bool {
        self.value + self.length <= u16::MAX
    }

    /// The last key of the range.
    pub open spec fn spec_end(self) -> int {
        self.value + self.length
    }

    /// `key` lies in the range, both bounds included.
    pub open spec fn contains(self, key: int) -> bool {
        self.value <= key <= self.value + self.length
    }

    /// The keys of the range.
    pub open spec fn keys(self) -> Set<int> {
        Set::new(|key: int| self.contains(key))
    }

    /// The interval `[start, end]`.
    pub open spec fn spanning(start: int, end: int) -> Interval {
        Interval { value: start as u16, length: (end - start) as u16 }
    }

    /// What fusing `self` with `other` gives: the range from the lower start to
    /// the higher end when exactly one key lies between the two, else nothing.
    pub open spec fn fused(self, other: Interval) -> Option<Interval> {
        if other.value - self.spec_end() == 2 {
            Some(Interval::spanning(self.value as int, other.spec_end()))
        } else if self.value - other.spec_end() == 2 {
            Some(Interval::spanning(other.value as int, self.spec_end()))
        } else {
            None
        }
    }

    pub fn new(value: u16, length: u16) -> (r: Interval)
        ensures
            r.value == value,
            r.length == length,
    {
        Interval { value, length }
    }

    pub fn get_pair(&self) -> (r: (u16, u16))
        requires
            self.wf(),
        ensures
            r.0 == self.value,
            r.1 == self.spec_end(),
    {
        (self.value, self.value + self.length)
    }

    pub fn get_end(&self) -> (r: u16)
        requires
            self.wf(),
        ensures
            r == self.spec_end(),
    {
        self.value + self.length
    }

    /// Compares the interval to `key`, as seen from the interval: `Less` says
    /// that the whole interval lies below the key, `Greater` that it lies above,
    /// `Equal` that it holds the key.
    pub fn compare_to_index(&self, key: u16) -> (r: Ordering)
        requires
            self.wf(),
        ensures
            r is Greater <==> key < self.value,
            r is Equal <==> self.value <= key && key <= self.value + self.length,
            r is Less <==> self.value + self.length < key,
    {
        let istart = self.value;
        let iend = istart + self.length;
        if key < istart {
            Ordering::Greater
        } else if key <= iend {
            Ordering::Equal
        } else {
            Ordering::Less
        }
    }

    /// Tries to fuse two intervals that are separated by a single key.
    pub fn try_fuse(&self, other: Option<&Interval>) -> (r: Option<Interval>)
        requires
            self.wf(),
            other is Some ==> other.unwrap().wf(),
        ensures
            r == match other {
                Some(o) => self.fused(*o),
                None => None,
            },
            r is Some ==> r.unwrap().wf(),
    {
        let other = match other {
            Some(o) => o,
            None => {
                return None;
            },
        };
        let (this_start, this_end) = self.get_pair();
        let (other_start, other_end) = other.get_pair();
        if other_start > this_end && other_start - this_end == 2 {
            Some(Interval { value: this_start, length: other_end - this_start })
        } else if this_start > other_end && this_start - other_end == 2 {
            Some(Interval { value: other_start, length: this_end - other_start })
        } else {
            None
        }
    }
}

/// The single key `value`.
impl From<u16> for Interval {
    fn from(value: u16) -> (r: Self) {
        Interval::new(value, 0)
    }
}

impl vstd::std_specs::convert::FromSpecImpl<u16> for Interval {
    open spec fn obeys_from_spec() -> bool {
        true
    }

    open spec fn from_spec(value: u16) -> Self {
        Interval { value, length: 0 }
    }
}

/// The closed range from `value.0` to `value.1`. Where the second bound is
/// below the first, the length wraps around the 16-bit range and the result
/// is not well formed.
impl From<(u16, u16)> for Interval {
    #[inline]
    fn from(value: (u16, u16)) -> (r: Self) {
        Interval::new(value.0, value.1.wrapping_sub(value.0))
    }
}

impl vstd::std_specs::convert::FromSpecImpl<(u16, u16)> for Interval {
    open spec fn obeys_from_spec() -> bool {
        true
    }

    open spec fn from_spec(value: (u16, u16)) -> Self {
        Interval {
            value: value.0,
            length: if value.0 <= value.1 {
                (value.1 - value.0) as u16
            } else {
                (value.1 - value.0 + 0x1_0000) as u16
            },
        }
    }
}

} // verus!
