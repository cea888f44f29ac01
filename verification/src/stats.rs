//! Running statistics over the latencies of the trials done so far. A latency
//! is a whole number of nanoseconds, as a monotonic clock measures it.

use vstd::prelude::*;

verus! {

/// The least, the greatest and the total of the latencies recorded so far, and
/// how many they are. Before the first one, `min` holds the greatest value
/// there is and `max` the least, so that any latency replaces neither wrongly.
#[derive(Clone, Copy, Debug, PartialEq, Eq, Structural)]
pub struct RunningStats {
    pub min: u64,
    pub max: u64,
    pub sum: u128,
    pub count: u32,
}

/// What is reported of a finished series: the least latency, the mean rounded
/// down to a whole nanosecond, and the greatest latency.
#[derive(Clone, Copy, Debug, PartialEq, Eq, Structural)]
pub struct Summary {
    pub min: u64,
    pub avg: u64,
    pub max: u64,
}

impl RunningStats {
    /// The statistics of no latency at all.
    pub open spec fn empty() -> RunningStats {
        RunningStats { min: u64::MAX, max: 0, sum: 0, count: 0 }
    }

    /// The statistics after one more latency: it replaces `min` where it is
    /// strictly less, `max` where it is strictly greater, and is added to the
    /// total in any case.
    pub open spec fn recorded(self, latency: u64) -> RunningStats {
        RunningStats {
            min: if latency < self.min {
                latency
            } else {
                self.min
            },
            max: if latency > self.max {
                latency
            } else {
                self.max
            },
            sum: (self.sum + latency) as u128,
            count: (self.count + 1) as u32,
        }
    }

    /// Whether the four numbers can be the statistics of some latencies: with
    /// none recorded they are those of `empty`; otherwise the total lies
    /// between `count` times the least and `count` times the greatest.
    pub open spec fn wf(self) -> bool {
        if self.count == 0 {
            self == RunningStats::empty()
        } else {
            &&& self.min <= self.max
            &&& self.min * self.count <= self.sum
            &&& self.sum <= self.max * self.count
        }
    }

    /// The summary of statistics of at least one latency.
    pub open spec fn spec_summary(self) -> Summary {
        Summary { min: self.min, avg: (self.sum / self.count as u128) as u64, max: self.max }
    }

    /// Starts with no latency recorded.
    pub fn new() -> (r: RunningStats)
        ensures
            r == RunningStats::empty(),
            r.wf(),
    {
        RunningStats { min: u64::MAX, max: 0, sum: 0, count: 0 }
    }

    /// Records one more latency.
    pub fn record(&mut self, latency: u64)
        requires
            old(self).wf(),
            old(self).count < u32::MAX,
        ensures
            *final(self) == old(self).recorded(latency),
            final(self).wf(),
    {
        proof {
            lemma_recorded_wf(*self, latency);
        }
        if latency < self.min {
            self.min = latency;
        }
        if latency > self.max {
            self.max = latency;
        }
        self.sum = self.sum + latency as u128;
        self.count = self.count + 1;
    }

    /// Sums up the latencies recorded so far. Of none there is no summary,
    /// as they have no mean.
    pub fn summary(self) -> (r: Option<Summary>)
        requires
            self.wf(),
        ensures
            self.count == 0 ==> r is None,
            self.count > 0 ==> r == Some(self.spec_summary()),
            r matches Some(s) ==> s.min <= s.avg <= s.max,
    {
        if self.count == 0 {
            return None;
        }
        proof {
            lemma_mean_between(self);
        }
        Some(Summary { min: self.min, avg: (self.sum / self.count as u128) as u64, max: self.max })
    }
}

/// Recording a latency keeps statistics well formed, and the new total and
/// count are the old ones plus the latency and plus one.
pub proof fn lemma_recorded_wf(stats: RunningStats, latency: u64)
    requires
        stats.wf(),
        stats.count < u32::MAX,
    ensures
        stats.recorded(latency).wf(),
        stats.recorded(latency).sum == stats.sum + latency,
        stats.recorded(latency).count == stats.count + 1,
        stats.sum + latency <= u128::MAX,
{
    let next = stats.recorded(latency);
    let n = stats.count as int;
    assert(stats.sum <= stats.max * n);
    assert(stats.max * n <= 0xffff_ffff_ffff_ffff * 0xffff_ffff) by (nonlinear_arith)
        requires
            0 <= stats.max <= 0xffff_ffff_ffff_ffff,
            0 <= n <= 0xffff_ffff,
    ;
    let lo = next.min as int;
    let hi = next.max as int;
    assert(next.count == n + 1);
    assert(next.sum == stats.sum + latency);
    if n == 0 {
        assert(lo == latency && hi == latency);
        assert(lo * (n + 1) == latency && hi * (n + 1) == latency) by (nonlinear_arith)
            requires
                lo == latency,
                hi == latency,
                n == 0,
        ;
    } else {
        assert(lo * (n + 1) <= stats.min * n + latency) by (nonlinear_arith)
            requires
                lo <= stats.min,
                lo <= latency,
                0 <= n,
        ;
        assert(stats.max * n + latency <= hi * (n + 1)) by (nonlinear_arith)
            requires
                stats.max <= hi,
                latency <= hi,
                0 <= n,
        ;
    }
}

/// The mean of well-formed statistics lies between the least and the greatest
/// latency.
pub proof fn lemma_mean_between(stats: RunningStats)
    requires
        stats.wf(),
        stats.count > 0,
    ensures
        stats.min <= stats.sum / stats.count as u128 <= stats.max,
{
    let n = stats.count as int;
    let s = stats.sum as int;
    let lo = stats.min as int;
    let hi = stats.max as int;
    assert(lo <= s / n <= hi) by (nonlinear_arith)
        requires
            n > 0,
            lo * n <= s,
            s <= hi * n,
    ;
}

/// The statistics of a series of latencies, recorded one after the other.
pub open spec fn stats_of(latencies: Seq<u64>) -> RunningStats
    decreases latencies.len(),
{
    if latencies.len() == 0 {
        RunningStats::empty()
    } else {
        stats_of(latencies.drop_last()).recorded(latencies.last())
    }
}

/// The total of a series of latencies.
pub open spec fn total(latencies: Seq<u64>) -> nat
    decreases latencies.len(),
{
    if latencies.len() == 0 {
        0
    } else {
        total(latencies.drop_last()) + latencies.last() as nat
    }
}

/// After any series of latencies the statistics are well formed, `count` is
/// the length of the series, `sum` is its total, every latency of the series
/// lies between `min` and `max`, and both are latencies of the series.
pub proof fn lemma_stats_of(latencies: Seq<u64>)
    requires
        latencies.len() <= u32::MAX,
    ensures
        stats_of(latencies).wf(),
        stats_of(latencies).count == latencies.len(),
        stats_of(latencies).sum == total(latencies),
        forall|i: int|
            0 <= i < latencies.len() ==> stats_of(latencies).min <= #[trigger] latencies[i]
                <= stats_of(latencies).max,
        latencies.len() > 0 ==> exists|i: int|
            0 <= i < latencies.len() && latencies[i] == stats_of(latencies).min,
        latencies.len() > 0 ==> exists|i: int|
            0 <= i < latencies.len() && latencies[i] == stats_of(latencies).max,
    decreases latencies.len(),
{
    if latencies.len() > 0 {
        let front = latencies.drop_last();
        let last = latencies.last();
        let before = stats_of(front);
        let now = stats_of(latencies);
        lemma_stats_of(front);
        lemma_recorded_wf(before, last);
        assert forall|i: int| 0 <= i < latencies.len() implies now.min <= #[trigger] latencies[i]
            <= now.max by {
            if i < front.len() {
                assert(front[i] == latencies[i]);
            }
        }
        if front.len() > 0 {
            let i = choose|i: int| 0 <= i < front.len() && front[i] == before.min;
            let j = choose|j: int| 0 <= j < front.len() && front[j] == before.max;
            assert(latencies[i] == before.min);
            assert(latencies[j] == before.max);
            assert(latencies[latencies.len() - 1] == last);
        } else {
            assert(latencies[0] == last);
        }
    }
}

} // verus!
