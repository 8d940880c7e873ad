use std::collections::VecDeque;
use vstd::prelude::*;
use vstd::seq_lib::{to_multiset_build, to_multiset_insert};

verus! {

/// Latencies kept per stream.
pub const LATENCY_HISTORY_SIZE: usize = 100;

/// Sum of the values.
pub open spec fn sum_of(s: Seq<u64>) -> int
    decreases s.len(),
{
    if s.len() == 0 {
        0
    } else {
        sum_of(s.drop_last()) + s.last()
    }
}

pub open spec fn ascending(t: Seq<u64>) -> bool {
    forall|i: int, j: int| 0 <= i < j < t.len() ==> t[i] <= t[j]
}

/// Index of the 99th percentile in a sorted sequence of `n` values.
pub open spec fn p99_index(n: int) -> int {
    n * 99 / 100
}

/// `v` is the 99th percentile of `s`: the value at `p99_index` once `s` is sorted.
pub open spec fn is_p99(s: Seq<u64>, v: u64) -> bool {
    exists|t: Seq<u64>|
        ascending(t) && t.to_multiset() == s.to_multiset() && t.len() == s.len() && v == t[p99_index(
            s.len() as int,
        )]
}

/// `s` with `x` appended, the oldest value dropped beyond the cap.
pub open spec fn capped_push(s: Seq<u64>, x: u64) -> Seq<u64> {
    if s.push(x).len() > LATENCY_HISTORY_SIZE {
        s.push(x).drop_first()
    } else {
        s.push(x)
    }
}

/// The statistics of one stream: mean and 99th percentile when it has values; `avg` and
/// `p99` as they were otherwise.
pub open spec fn stats_hold(s: Seq<u64>, avg: u64, p99: u64, old_avg: u64, old_p99: u64) -> bool {
    if s.len() > 0 {
        avg == sum_of(s) / s.len() as int && is_p99(s, p99)
    } else {
        avg == old_avg && p99 == old_p99
    }
}

/// Execution and data-feed latencies in nanoseconds, with their mean and 99th percentile
/// over the newest `LATENCY_HISTORY_SIZE` values.
#[derive(Clone, Debug)]
pub struct LatencyMetrics {
    pub execution_latencies: VecDeque<u64>,
    pub datafeed_latencies: VecDeque<u64>,
    pub last_execution: Option<u64>,
    pub avg_execution: u64,
    pub avg_datafeed: u64,
    pub p99_execution: u64,
    pub p99_datafeed: u64,
}

proof fn lemma_sum_bound(s: Seq<u64>)
    ensures
        0 <= sum_of(s) <= s.len() * u64::MAX,
    decreases s.len(),
{
    if s.len() > 0 {
        lemma_sum_bound(s.drop_last());
    }
}

/// The mean, rounded down.
fn mean(s: &VecDeque<u64>) -> (r: u64)
    requires
        0 < s@.len() <= LATENCY_HISTORY_SIZE,
    ensures
        r == sum_of(s@) / s@.len() as int,
{
    let n = s.len();
    let mut total: u128 = 0;
    let mut i: usize = 0;
    while i < n
        invariant
            n == s@.len() <= LATENCY_HISTORY_SIZE,
            i <= n,
            total == sum_of(s@.subrange(0, i as int)),
        decreases n - i,
    {
        proof {
            assert(s@.subrange(0, i + 1).drop_last() =~= s@.subrange(0, i as int));
            lemma_sum_bound(s@.subrange(0, i as int));
        }
        total = total + s[i] as u128;
        i = i + 1;
    }
    proof {
        assert(s@.subrange(0, n as int) =~= s@);
        lemma_sum_bound(s@);
        assert(total / (n as u128) <= u64::MAX) by (nonlinear_arith)
            requires
                total <= n * u64::MAX,
                n > 0,
        ;
    }
    (total / (n as u128)) as u64
}

/// The 99th percentile: the values are sorted by insertion and the one at `p99_index` taken.
fn percentile99(s: &VecDeque<u64>) -> (r: u64)
    requires
        0 < s@.len() <= LATENCY_HISTORY_SIZE,
    ensures
        is_p99(s@, r),
{
    let n = s.len();
    let mut t: Vec<u64> = Vec::new();
    let mut i: usize = 0;
    proof {
        assert(t@ =~= s@.subrange(0, 0));
    }
    while i < n
        invariant
            n == s@.len(),
            i <= n,
            t.len() == i,
            ascending(t@),
            t@.to_multiset() == s@.subrange(0, i as int).to_multiset(),
        decreases n - i,
    {
        let x = s[i];
        let mut p: usize = 0;
        while p < t.len() && t[p] <= x
            invariant
                p <= t.len(),
                forall|k: int| 0 <= k < p ==> t@[k] <= x,
            decreases t.len() - p,
        {
            p = p + 1;
        }
        proof {
            to_multiset_insert(t@, p as int, x);
            assert(s@.subrange(0, i + 1) =~= s@.subrange(0, i as int).push(x));
            to_multiset_build(s@.subrange(0, i as int), x);
            t@.insert_ensures(p as int, x);
        }
        let ghost before = t@;
        t.insert(p, x);
        proof {
            assert forall|a: int, b: int| 0 <= a < b < t@.len() implies t@[a] <= t@[b] by {
                if b < p {
                    assert(t@[a] == before[a] && t@[b] == before[b]);
                } else if b == p {
                    assert(t@[a] == before[a]);
                } else if a < p {
                    assert(t@[a] == before[a] && t@[b] == before[b - 1]);
                } else if a == p {
                    assert(t@[b] == before[b - 1]);
                } else {
                    assert(t@[a] == before[a - 1] && t@[b] == before[b - 1]);
                }
            }
        }
        i = i + 1;
    }
    proof {
        assert(s@.subrange(0, n as int) =~= s@);
    }
    let idx = n * 99 / 100;
    let r = t[idx];
    proof {
        assert(ascending(t@) && t@.to_multiset() == s@.to_multiset() && t@.len() == s@.len() && r
            == t@[p99_index(s@.len() as int)]);
    }
    r
}

impl LatencyMetrics {
    pub open spec fn wf(&self) -> bool {
        self.execution_latencies@.len() <= LATENCY_HISTORY_SIZE
            && self.datafeed_latencies@.len() <= LATENCY_HISTORY_SIZE
    }

    /// No latencies, every statistic zero.
    pub fn new() -> (r: LatencyMetrics)
        ensures
            r.wf(),
            r.execution_latencies@.len() == 0,
            r.datafeed_latencies@.len() == 0,
            r.last_execution is None,
            r.avg_execution == 0,
            r.avg_datafeed == 0,
            r.p99_execution == 0,
            r.p99_datafeed == 0,
    {
        LatencyMetrics {
            execution_latencies: VecDeque::new(),
            datafeed_latencies: VecDeque::new(),
            last_execution: None,
            avg_execution: 0,
            avg_datafeed: 0,
            p99_execution: 0,
            p99_datafeed: 0,
        }
    }

    /// Records an execution latency and refreshes the statistics of both streams.
    pub fn record_execution(&mut self, latency: u64)
        requires
            old(self).wf(),
        ensures
            final(self).wf(),
            final(self).last_execution == Some(latency),
            final(self).execution_latencies@ == capped_push(old(self).execution_latencies@, latency),
            final(self).datafeed_latencies@ == old(self).datafeed_latencies@,
            stats_hold(
                final(self).execution_latencies@,
                final(self).avg_execution,
                final(self).p99_execution,
                old(self).avg_execution,
                old(self).p99_execution,
            ),
            stats_hold(
                final(self).datafeed_latencies@,
                final(self).avg_datafeed,
                final(self).p99_datafeed,
                old(self).avg_datafeed,
                old(self).p99_datafeed,
            ),
    {
        self.last_execution = Some(latency);
        self.execution_latencies.push_back(latency);
        if self.execution_latencies.len() > LATENCY_HISTORY_SIZE {
            self.execution_latencies.pop_front();
        }
        self.update_stats();
    }

    /// Records a data-feed latency and refreshes the statistics of both streams.
    pub fn record_datafeed(&mut self, latency: u64)
        requires
            old(self).wf(),
        ensures
            final(self).wf(),
            final(self).last_execution == old(self).last_execution,
            final(self).datafeed_latencies@ == capped_push(old(self).datafeed_latencies@, latency),
            final(self).execution_latencies@ == old(self).execution_latencies@,
            stats_hold(
                final(self).execution_latencies@,
                final(self).avg_execution,
                final(self).p99_execution,
                old(self).avg_execution,
                old(self).p99_execution,
            ),
            stats_hold(
                final(self).datafeed_latencies@,
                final(self).avg_datafeed,
                final(self).p99_datafeed,
                old(self).avg_datafeed,
                old(self).p99_datafeed,
            ),
    {
        self.datafeed_latencies.push_back(latency);
        if self.datafeed_latencies.len() > LATENCY_HISTORY_SIZE {
            self.datafeed_latencies.pop_front();
        }
        self.update_stats();
    }

    fn update_stats(&mut self)
        requires
            old(self).wf(),
        ensures
            final(self).wf(),
            final(self).last_execution == old(self).last_execution,
            final(self).execution_latencies@ == old(self).execution_latencies@,
            final(self).datafeed_latencies@ == old(self).datafeed_latencies@,
            stats_hold(
                final(self).execution_latencies@,
                final(self).avg_execution,
                final(self).p99_execution,
                old(self).avg_execution,
                old(self).p99_execution,
            ),
            stats_hold(
                final(self).datafeed_latencies@,
                final(self).avg_datafeed,
                final(self).p99_datafeed,
                old(self).avg_datafeed,
                old(self).p99_datafeed,
            ),
    {
        if self.execution_latencies.len() > 0 {
            self.avg_execution = mean(&self.execution_latencies);
            self.p99_execution = percentile99(&self.execution_latencies);
        }
        if self.datafeed_latencies.len() > 0 {
            self.avg_datafeed = mean(&self.datafeed_latencies);
            self.p99_datafeed = percentile99(&self.datafeed_latencies);
        }
    }
}

} // verus!
