//! The chart: the externally visible result of a parse.
//!
//! Bucket `k` holds the passive edges that end at input position `k`;
//! the chart for an `n`-token input has `n + 1` buckets.

use crate::edge::{Edge, SpecEdge};
use vstd::prelude::*;

verus! {

/// Passive edges, grouped by end position.
#[derive(Debug)]
pub struct Chart {
    pub chart: Vec<Vec<Edge>>,
}

impl View for Chart {
    type V = Seq<Seq<SpecEdge>>;

    open spec fn view(&self) -> Seq<Seq<SpecEdge>> {
        self.chart.deep_view()
    }
}

impl Chart {
    /// A chart with no buckets.
    pub fn new() -> (r: Chart)
        ensures
            r@ == Seq::<Seq<SpecEdge>>::empty(),
    {
        let r = Chart { chart: Vec::new() };
        proof {
            assert(r@ =~~= Seq::<Seq<SpecEdge>>::empty());
        }
        r
    }

    /// The total number of edges over all buckets, capped at the largest
    /// machine integer.
    pub fn chartsize(&self) -> (r: usize)
        ensures
            bucket_count(self@, self@.len() as int) <= usize::MAX ==> r == bucket_count(
                self@,
                self@.len() as int,
            ),
            bucket_count(self@, self@.len() as int) > usize::MAX ==> r == usize::MAX,
    {
        let mut total: usize = 0;
        let mut i: usize = 0;
        while i < self.chart.len()
            invariant
                i <= self.chart@.len(),
                bucket_count(self@, i as int) <= usize::MAX ==> total == bucket_count(
                    self@,
                    i as int,
                ),
                bucket_count(self@, i as int) > usize::MAX ==> total == usize::MAX,
            decreases self.chart@.len() - i,
        {
            let n = self.chart[i].len();
            proof {
                assert(self@[i as int].len() == n);
                lemma_bucket_count_nonneg(self@, i as int);
            }
            if n > usize::MAX - total {
                total = usize::MAX;
            } else {
                total = total + n;
            }
            i = i + 1;
        }
        total
    }
}

/// The number of edges in the first `k` buckets.
pub open spec fn bucket_count(s: Seq<Seq<SpecEdge>>, k: int) -> int
    decreases k,
{
    if k <= 0 {
        0
    } else {
        bucket_count(s, k - 1) + s[k - 1].len()
    }
}

/// Bucket counts are never negative.
pub proof fn lemma_bucket_count_nonneg(s: Seq<Seq<SpecEdge>>, k: int)
    ensures
        bucket_count(s, k) >= 0,
    decreases k,
{
    if k > 0 {
        lemma_bucket_count_nonneg(s, k - 1);
    }
}

} // verus!
