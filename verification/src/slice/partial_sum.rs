//! Prefix sums over a sequence, answering range-sum queries in O(1).

use vstd::prelude::*;

verus! {

/// The sum of the elements of a sequence of machine integers, as a
/// mathematical integer.
pub open spec fn seq_sum(s: Seq<i64>) -> int
    decreases s.len(),
{
    if s.len() == 0 {
        0
    } else {
        seq_sum(s.drop_last()) + s.last()
    }
}

/// A prefix-sum table: entry `k` holds the sum of the first `k` elements.
pub struct PartialSum {
    sum: Vec<i64>,
}

impl View for PartialSum {
    type V = Seq<i64>;

    /// The underlying sequence, recovered from adjacent differences.
    closed spec fn view(&self) -> Seq<i64> {
        Seq::new((self.sum@.len() - 1) as nat, |i: int| (self.sum@[i + 1] - self.sum@[i]) as i64)
    }
}

impl PartialSum {
    /// The table is a running sum starting from zero.
    pub closed spec fn wf(&self) -> bool {
        &&& self.sum@.len() >= 1
        &&& self.sum@[0] == 0i64
        &&& forall|k: int| 0 <= k < self.sum@.len() ==> #[trigger] self.sum@[k] == seq_sum(self@.take(k))
    }

    /// O(n).  Build the prefix sums of a slice; every prefix sum must fit
    /// in a machine integer.
    pub fn new(v: &[i64]) -> (r: PartialSum)
        requires
            forall|k: int|
                0 <= k <= v@.len() ==> i64::MIN <= #[trigger] seq_sum(v@.take(k)) <= i64::MAX,
        ensures
            r.wf(),
            r@ == v@,
    {
        let mut sum: Vec<i64> = Vec::new();
        sum.push(0);
        let mut i: usize = 0;
        while i < v.len()
            invariant
                i <= v@.len(),
                sum@.len() == i + 1,
                sum@[0] == 0i64,
                forall|k: int|
                    0 <= k <= v@.len() ==> i64::MIN <= #[trigger] seq_sum(v@.take(k)) <= i64::MAX,
                forall|k: int| 0 <= k <= i ==> #[trigger] sum@[k] == seq_sum(v@.take(k)),
            decreases v@.len() - i,
        {
            proof {
                assert(v@.take(i + 1).drop_last() =~= v@.take(i as int));
                assert(v@.take(i + 1).last() == v@[i as int]);
                assert(sum@[i as int] == seq_sum(v@.take(i as int)));
                assert(sum@[i as int] + v@[i as int] == seq_sum(v@.take(i + 1)));
            }
            let next = sum[i] + v[i];
            sum.push(next);
            i = i + 1;
        }
        let r = PartialSum { sum };
        proof {
            assert forall|k: int| 0 <= k < r@.len() implies r@[k] == v@[k] by {
                assert(r.sum@[k + 1] == seq_sum(v@.take(k + 1)));
                assert(r.sum@[k] == seq_sum(v@.take(k)));
                assert(v@.take(k + 1).drop_last() =~= v@.take(k));
                assert(v@.take(k + 1).last() == v@[k]);
            }
            assert(r@ =~= v@);
            assert forall|k: int| 0 <= k < r.sum@.len() implies #[trigger] r.sum@[k] == seq_sum(
                r@.take(k)) by {
                assert(r@.take(k) =~= v@.take(k));
            }
        }
        r
    }

    /// O(1).  The sum of the elements in positions `i .. j`.
    pub fn sum(&self, i: usize, j: usize) -> (r: i64)
        requires
            self.wf(),
            i <= j <= self@.len(),
            i64::MIN <= seq_sum(self@.subrange(i as int, j as int)) <= i64::MAX,
        ensures
            r == seq_sum(self@.subrange(i as int, j as int)),
    {
        proof {
            lemma_seq_sum_split(self@, i as int, j as int);
        }
        self.sum[j] - self.sum[i]
    }
}

/// A range sum is the difference of the two prefix sums around it.
proof fn lemma_seq_sum_split(s: Seq<i64>, i: int, j: int)
    requires
        0 <= i <= j <= s.len(),
    ensures
        seq_sum(s.take(j)) == seq_sum(s.take(i)) + seq_sum(s.subrange(i, j)),
    decreases j - i,
{
    if i == j {
        assert(s.subrange(i, j) =~= Seq::<i64>::empty());
    } else {
        lemma_seq_sum_split(s, i, j - 1);
        assert(s.take(j).drop_last() =~= s.take(j - 1));
        assert(s.take(j).last() == s[j - 1]);
        assert(s.subrange(i, j).drop_last() =~= s.subrange(i, j - 1));
        assert(s.subrange(i, j).last() == s[j - 1]);
    }
}

} // verus!
