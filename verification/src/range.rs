//! Set-like operations on half-open integer ranges: emptiness,
//! containment, intersection, union and difference.

use vstd::prelude::*;

verus! {

/// Whether `x` lies in the half-open range.
pub open spec fn in_range(r: core::ops::Range<i64>, x: int) -> bool {
    r.start <= x < r.end
}

/// Set-like operations on ranges.
pub trait RangeExt: Sized {
    /// Whether the range holds no value.
    fn empty(&self) -> bool;

    /// Whether `rhs` lies entirely inside `self`.
    fn contains_range(&self, rhs: Self) -> bool;

    /// The values in both ranges, when any.
    fn intersection(&self, rhs: Self) -> Option<Self>;

    /// The values in either range, when they overlap (so the union is
    /// again a range).
    fn union(&self, rhs: Self) -> Option<Self>;

    /// The values of `self` not in `rhs`, as at most two disjoint ranges
    /// in increasing order.
    fn difference(&self, rhs: Self) -> Vec<Self>;
}

impl RangeExt for core::ops::Range<i64> {
    /// Whether the range holds no value.
    fn empty(&self) -> (r: bool)
        ensures
            r <==> (forall|x: int| !in_range(*self, x)),
            r <==> self.start >= self.end,
    {
        // a reversed range holds nothing, exactly like an equal-endpoint one
        proof {
            if self.start < self.end {
                assert(in_range(*self, self.start as int));
            }
        }
        self.start >= self.end
    }

    /// Whether `rhs` lies entirely inside `self`, comparing endpoints.
    fn contains_range(&self, rhs: Self) -> (r: bool)
        ensures
            r <==> (self.start <= rhs.start && rhs.end <= self.end),
    {
        self.start <= rhs.start && rhs.end <= self.end
    }

    /// The values in both ranges, when any.
    fn intersection(&self, rhs: Self) -> (r: Option<Self>)
        ensures
            r matches Some(t) ==> t.start < t.end && (forall|x: int|
                in_range(t, x) <==> (in_range(*self, x) && in_range(rhs, x))),
            r is None ==> forall|x: int| !(in_range(*self, x) && in_range(rhs, x)),
    {
        let start = if self.start >= rhs.start {
            self.start
        } else {
            rhs.start
        };
        let end = if self.end <= rhs.end {
            self.end
        } else {
            rhs.end
        };
        if start < end {
            Some(start..end)
        } else {
            None
        }
    }

    /// The values in either range, when the two overlap.
    fn union(&self, rhs: Self) -> (r: Option<Self>)
        ensures
            r matches Some(t) ==> forall|x: int|
                in_range(t, x) <==> (in_range(*self, x) || in_range(rhs, x)),
            r is None ==> forall|x: int| !(in_range(*self, x) && in_range(rhs, x)),
    {
        match self.intersection(rhs.start..rhs.end) {
            None => None,
            Some(common) => {
                let start = if self.start <= rhs.start {
                    self.start
                } else {
                    rhs.start
                };
                let end = if self.end >= rhs.end {
                    self.end
                } else {
                    rhs.end
                };
                proof {
                    assert(in_range(common, common.start as int));
                    let ghost w = common.start as int;
                    assert forall|x: int|
                        in_range(start..end, x) <==> (in_range(*self, x) || in_range(rhs, x)) by {
                        assert(in_range(*self, w) && in_range(rhs, w));
                    }
                }
                Some(start..end)
            },
        }
    }

    /// The values of `self` not in `rhs`: nothing, one range, or the two
    /// pieces either side of `rhs`, in increasing order.
    fn difference(&self, rhs: Self) -> (r: Vec<Self>)
        ensures
            forall|x: int|
                (in_range(*self, x) && !in_range(rhs, x)) <==> (exists|t: int|
                    0 <= t < r@.len() && in_range(#[trigger] r@[t], x)),
            forall|t: int| 0 <= t < r@.len() ==> (#[trigger] r@[t]).start < r@[t].end,
            r@.len() <= 2,
            forall|t1: int, t2: int| 0 <= t1 < t2 < r@.len() ==> r@[t1].end <= r@[t2].start,
    {
        match self.intersection(rhs.start..rhs.end) {
            None => {
                let mut ret: Vec<Self> = Vec::new();
                if self.start < self.end {
                    ret.push(self.start..self.end);
                }
                proof {
                    assert forall|x: int|
                        (in_range(*self, x) && !in_range(rhs, x)) <==> (exists|t: int|
                            0 <= t < ret@.len() && in_range(#[trigger] ret@[t], x)) by {
                        if in_range(*self, x) && !in_range(rhs, x) {
                            assert(in_range(ret@[0], x));
                        }
                    }
                }
                ret
            },
            Some(common) => {
                let mut ret: Vec<Self> = Vec::new();
                if self.start < rhs.start {
                    ret.push(self.start..rhs.start);
                }
                if rhs.end < self.end {
                    ret.push(rhs.end..self.end);
                }
                proof {
                    assert(in_range(common, common.start as int));
                    let ghost w = common.start as int;
                    assert(in_range(*self, w) && in_range(rhs, w));
                    assert forall|x: int|
                        (in_range(*self, x) && !in_range(rhs, x)) <==> (exists|t: int|
                            0 <= t < ret@.len() && in_range(#[trigger] ret@[t], x)) by {
                        if in_range(*self, x) && !in_range(rhs, x) {
                            if x < rhs.start {
                                assert(in_range(ret@[0], x));
                            } else {
                                assert(x >= rhs.end);
                                assert(in_range(ret@[ret@.len() - 1], x));
                            }
                        }
                    }
                }
                ret
            },
        }
    }
}

} // verus!
