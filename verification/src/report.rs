//! The report builder: a pure function from a finished accumulator and the
//! elapsed wall time to an immutable benchmark summary. All rates are kept
//! as scaled integers (per-mille and per-second values), so the caller can
//! render them however it likes.
use crate::cli::RunConfig;
use crate::outcome::AbsOutcome;
use crate::stats::{
    is_success, outcome_latency, outcome_latency_sq, success_count, sum_latency, sum_latency_sq,
    StatisticsAccumulator,
};
use vstd::arithmetic::div_mod::{
    lemma_div_is_ordered, lemma_div_multiples_vanish, lemma_fundamental_div_mod,
};
use vstd::arithmetic::mul::lemma_mul_left_inequality;
use vstd::prelude::*;

verus! {

/// Derived, immutable snapshot of a finished run. Latencies are nanoseconds;
/// `requests_per_sec_milli` and `avg_size_per_request_milli` carry three
/// decimal places as thousandths; `bytes_per_sec` is a plain rate.
pub struct BenchmarkSummary {
    pub url: String,
    pub concurrency: u64,
    pub elapsed_ns: u64,
    pub requests_per_sec_milli: u128,
    pub bytes_per_sec: u128,
    pub average_latency_ns: u64,
    pub latency_std_dev_ns: u64,
    pub slowest_ns: u64,
    pub fastest_ns: u64,
    pub p50_ns: u64,
    pub p90_ns: u64,
    pub p95_ns: u64,
    pub p99_ns: u64,
    pub p99_9_ns: u64,
    pub total_data: u64,
    pub avg_size_per_request_milli: u128,
    pub total_requests: u64,
    pub successful_requests: u64,
    pub status_code_dist: Vec<(u16, u64)>,
    pub error_dist: Vec<(String, u64)>,
}

/// Requests per second, in thousandths: `total / (elapsed_ns / 1e9) * 1000`.
pub open spec fn rps_milli_spec(total: int, elapsed_ns: int) -> int {
    (total * 1000000000000) / elapsed_ns
}

/// Bytes per second: `bytes / (elapsed_ns / 1e9)`.
pub open spec fn bytes_per_sec_spec(bytes: int, elapsed_ns: int) -> int {
    (bytes * 1000000000) / elapsed_ns
}

/// `n^2` times the exact population variance of the success latencies:
/// `n * sum(x^2) - (sum(x))^2`, over unbounded integers.
pub open spec fn variance_num_spec(s: Seq<crate::outcome::AbsOutcome>) -> int {
    success_count(s) * sum_latency_sq(s) - sum_latency(s) * sum_latency(s)
}

/// Integer square root over the u128 range.
fn isqrt_u128(x: u128) -> (r: u64)
    ensures
        (r as int) * (r as int) <= x,
        x < (r as int + 1) * (r as int + 1),
{
    proof {
        assert((u64::MAX as int) * (u64::MAX as int) <= u128::MAX as int) by (nonlinear_arith);
    }
    let mlimit: u128 = (u64::MAX as u128) * (u64::MAX as u128);
    if x >= mlimit {
        proof {
            assert((u128::MAX as int) < ((u64::MAX as int) + 1) * ((u64::MAX as int) + 1))
                by (nonlinear_arith);
        }
        return u64::MAX;
    }
    let mut lo: u64 = 0;
    let mut hi: u64 = u64::MAX;
    while lo + 1 < hi
        invariant
            lo < hi,
            (lo as int) * (lo as int) <= x,
            x < (hi as int) * (hi as int),
        decreases hi - lo,
    {
        let mid = lo + (hi - lo) / 2;
        assert(lo < mid < hi);
        proof {
            assert((mid as int) * (mid as int) <= (u64::MAX as int) * (u64::MAX as int))
                by (nonlinear_arith)
                requires
                    mid <= u64::MAX,
            ;
        }
        let sq = (mid as u128) * (mid as u128);
        if sq <= x {
            lo = mid;
        } else {
            hi = mid;
        }
    }
    lo
}

/// The latency sum only collects from successes, each below u64::MAX.
proof fn lemma_latency_sum_le(s: Seq<AbsOutcome>)
    ensures
        0 <= crate::stats::sum_latency(s) <= success_count(s) * (u64::MAX as int),
    decreases s.len(),
{
    broadcast use Seq::lemma_filter_push;

    reveal(Seq::filter);
    if s.len() == 0 {
        assert(success_count(s) * (u64::MAX as int) == 0) by (nonlinear_arith)
            requires
                success_count(s) == 0,
        ;
    } else {
        let dl = s.drop_last();
        let x = s.last();
        lemma_latency_sum_le(dl);
        assert(dl.push(x) =~= s);
        assert(crate::stats::sum_latency(s) == crate::stats::sum_latency(dl) + outcome_latency(x))
            by {
            assert(s.drop_last() == dl && s.last() == x);
        }
        assert(success_count(s) == success_count(dl) + if is_success(x) {
            1int
        } else {
            0int
        });
        assert((success_count(dl) + 1) * (u64::MAX as int) == success_count(dl) * (
        u64::MAX as int) + u64::MAX as int) by (nonlinear_arith);
    }
}

/// The inductive heart of Cauchy-Schwarz: a cross term against any `y` is
/// dominated by the squared sums, with one `y^2` per success.
proof fn lemma_cross_bound(s: Seq<AbsOutcome>, y: int)
    ensures
        2 * y * sum_latency(s) <= sum_latency_sq(s) + success_count(s) * (y * y),
    decreases s.len(),
{
    broadcast use Seq::lemma_filter_push;

    reveal(Seq::filter);
    if s.len() == 0 {
        assert(success_count(s) * (y * y) == 0) by (nonlinear_arith)
            requires
                success_count(s) == 0,
        ;
    } else {
        let dl = s.drop_last();
        let o = s.last();
        lemma_cross_bound(dl, y);
        assert(dl.push(o) =~= s);
        let x = outcome_latency(o);
        let n = success_count(dl) as int;
        assert(success_count(s) == n + if is_success(o) {
            1int
        } else {
            0int
        });
        if is_success(o) {
            assert(outcome_latency_sq(o) == x * x);
            assert(2 * y * (sum_latency(dl) + x) <= (sum_latency_sq(dl) + x * x) + (n + 1) * (y
                * y)) by (nonlinear_arith)
                requires
                    2 * y * sum_latency(dl) <= sum_latency_sq(dl) + n * (y * y),
            ;
        } else {
            assert(x == 0 && outcome_latency_sq(o) == 0);
        }
    }
}

/// Cauchy-Schwarz over the success latencies: `(sum x)^2 <= n * sum(x^2)`,
/// so the variance numerator is never negative.
proof fn lemma_cauchy_schwarz(s: Seq<AbsOutcome>)
    ensures
        sum_latency(s) * sum_latency(s) <= success_count(s) * sum_latency_sq(s),
        sum_latency_sq(s) >= 0,
    decreases s.len(),
{
    broadcast use Seq::lemma_filter_push;

    reveal(Seq::filter);
    if s.len() == 0 {
        assert(success_count(s) * sum_latency_sq(s) == 0) by (nonlinear_arith)
            requires
                success_count(s) == 0,
                sum_latency_sq(s) == 0,
        ;
    } else {
        let dl = s.drop_last();
        let o = s.last();
        lemma_cauchy_schwarz(dl);
        assert(dl.push(o) =~= s);
        let x = outcome_latency(o);
        let n = success_count(dl) as int;
        assert(success_count(s) == n + if is_success(o) {
            1int
        } else {
            0int
        });
        lemma_cross_bound(dl, x);
        if is_success(o) {
            assert(outcome_latency_sq(o) == x * x);
            assert((sum_latency(dl) + x) * (sum_latency(dl) + x) <= (n + 1) * (sum_latency_sq(dl)
                + x * x)) by (nonlinear_arith)
                requires
                    sum_latency(dl) * sum_latency(dl) <= n * sum_latency_sq(dl),
                    2 * x * sum_latency(dl) <= sum_latency_sq(dl) + n * (x * x),
            ;
            assert(x * x >= 0) by (nonlinear_arith);
        } else {
            assert(x == 0 && outcome_latency_sq(o) == 0);
            assert((sum_latency(dl) + 0) * (sum_latency(dl) + 0) <= n * (sum_latency_sq(dl) + 0))
                by (nonlinear_arith)
                requires
                    sum_latency(dl) * sum_latency(dl) <= n * sum_latency_sq(dl),
            ;
        }
    }
}

/// A copy of the status distribution.
fn clone_status_dist(v: &Vec<(u16, u64)>) -> (r: Vec<(u16, u64)>)
    ensures
        r@ == v@,
{
    let mut r: Vec<(u16, u64)> = Vec::new();
    let mut i: usize = 0;
    while i < v.len()
        invariant
            0 <= i <= v@.len(),
            r@ == v@.take(i as int),
        decreases v@.len() - i,
    {
        r.push(v[i]);
        proof {
            assert(r@ =~= v@.take(i as int + 1));
        }
        i = i + 1;
    }
    proof {
        assert(v@.take(v@.len() as int) =~= v@);
    }
    r
}

/// A copy of the error distribution.
fn clone_error_dist(v: &Vec<(String, u64)>) -> (r: Vec<(String, u64)>)
    ensures
        r@ == v@,
{
    let mut r: Vec<(String, u64)> = Vec::new();
    let mut i: usize = 0;
    while i < v.len()
        invariant
            0 <= i <= v@.len(),
            r@ == v@.take(i as int),
        decreases v@.len() - i,
    {
        let msg = v[i].0.clone();
        let c = v[i].1;
        r.push((msg, c));
        proof {
            assert(r@ =~= v@.take(i as int + 1));
        }
        i = i + 1;
    }
    proof {
        assert(v@.take(v@.len() as int) =~= v@);
    }
    r
}

/// What a run gathered: its configuration and the shared accumulator.
pub struct StatisticList {
    /// The run's immutable configuration.
    pub cli: RunConfig,
    /// The aggregate every worker recorded into.
    pub acc: StatisticsAccumulator,
}

impl StatisticList {
    /// Build the summary of a finished run from the accumulator and the
    /// actual elapsed wall time. A run with no outcome at all yields `None`
    /// ("no data"), never a division error. A run whose outcomes are all
    /// failures reports zeroed latency and data fields beside the full error
    /// distribution. Rates are truncating integer divisions; the standard
    /// deviation is the floor of the exact population standard deviation
    /// `sqrt((n * sum(x^2) - (sum x)^2) / n^2)` whenever `n * sum(x^2)` fits
    /// in a u128 - any realistic run - and saturates to `u64::MAX` beyond
    /// that.
    pub fn analyze(&self, elapsed_ns: u64) -> (r: Option<BenchmarkSummary>)
        requires
            self.acc.wf(),
            elapsed_ns > 0,
        ensures
            r is Some <==> self.acc.total_issued > 0,
            match r {
                Some(b) => {
                    &&& b.url@ == self.cli.url@
                    &&& b.concurrency == self.cli.concurrency as u64
                    &&& b.elapsed_ns == elapsed_ns
                    &&& b.total_requests == self.acc.total_issued
                    &&& b.successful_requests == self.acc.successful
                    &&& b.requests_per_sec_milli == rps_milli_spec(
                        self.acc.total_issued as int,
                        elapsed_ns as int,
                    )
                    &&& b.error_dist@ == self.acc.error_counts@
                    &&& self.acc.successful > 0 ==> {
                        &&& b.total_data == self.acc.total_bytes
                        &&& b.bytes_per_sec == bytes_per_sec_spec(
                            self.acc.total_bytes as int,
                            elapsed_ns as int,
                        )
                        &&& b.avg_size_per_request_milli == (self.acc.total_bytes as int * 1000)
                            / self.acc.successful as int
                        &&& b.average_latency_ns == self.acc.latency_sum as int
                            / self.acc.successful as int
                        &&& ({
                            let n = self.acc.successful as int;
                            let num = variance_num_spec(self.acc.recorded@);
                            let d = b.latency_std_dev_ns as int;
                            if sum_latency_sq(self.acc.recorded@) < u128::MAX as int && n
                                * sum_latency_sq(self.acc.recorded@) <= u128::MAX as int {
                                (d * n) * (d * n) <= num < ((d + 1) * n) * ((d + 1) * n)
                            } else {
                                d == u64::MAX as int
                            }
                        })
                        &&& b.fastest_ns == self.acc.histogram.min_value
                        &&& b.slowest_ns == self.acc.histogram.max_value
                        &&& b.p50_ns == self.acc.histogram.quantile_spec(500)
                        &&& b.p90_ns == self.acc.histogram.quantile_spec(900)
                        &&& b.p95_ns == self.acc.histogram.quantile_spec(950)
                        &&& b.p99_ns == self.acc.histogram.quantile_spec(990)
                        &&& b.p99_9_ns == self.acc.histogram.quantile_spec(999)
                        &&& b.status_code_dist@ == self.acc.status_counts@
                    }
                    &&& self.acc.successful == 0 ==> {
                        &&& b.total_data == 0
                        &&& b.bytes_per_sec == 0
                        &&& b.avg_size_per_request_milli == 0
                        &&& b.average_latency_ns == 0
                        &&& b.latency_std_dev_ns == 0
                        &&& b.fastest_ns == 0
                        &&& b.slowest_ns == 0
                        &&& b.p50_ns == 0
                        &&& b.p90_ns == 0
                        &&& b.p95_ns == 0
                        &&& b.p99_ns == 0
                        &&& b.p99_9_ns == 0
                        &&& b.status_code_dist@.len() == 0
                    }
                },
                None => self.acc.total_issued == 0,
            },
    {
        if self.acc.total_issued == 0 {
            return None;
        }
        if self.acc.successful == 0 {
            return Some(self.build_error_summary(elapsed_ns));
        }
        let total = self.acc.total_issued;
        let n = self.acc.successful;
        proof {
            assert((total as int) * 1000000000000 <= u128::MAX as int) by (nonlinear_arith)
                requires
                    total <= u64::MAX,
            ;
            assert((self.acc.total_bytes as int) * 1000000000 <= u128::MAX as int)
                by (nonlinear_arith)
                requires
                    self.acc.total_bytes <= u64::MAX,
            ;
            assert((self.acc.total_bytes as int) * 1000 <= u128::MAX as int) by (nonlinear_arith)
                requires
                    self.acc.total_bytes <= u64::MAX,
            ;
        }
        let rps_milli: u128 = (total as u128) * 1000000000000u128 / (elapsed_ns as u128);
        let bps: u128 = (self.acc.total_bytes as u128) * 1000000000u128 / (elapsed_ns as u128);
        let avg_size_milli: u128 = (self.acc.total_bytes as u128) * 1000u128 / (n as u128);
        // Mean latency fits in u64: the sum is at most n * u64::MAX.
        proof {
            broadcast use Seq::lemma_filter_len;

            lemma_latency_sum_le(self.acc.recorded@);
            lemma_div_is_ordered(
                self.acc.latency_sum as int,
                (n as int) * (u64::MAX as int),
                n as int,
            );
            lemma_div_multiples_vanish(u64::MAX as int, n as int);
        }
        let mean128: u128 = self.acc.latency_sum / (n as u128);
        assert(mean128 <= u64::MAX);
        let mean: u64 = mean128 as u64;
        let ghost rec = self.acc.recorded@;
        let ghost ss = sum_latency_sq(rec);
        let stddev: u64;
        if self.acc.latency_sq_sum < u128::MAX && self.acc.latency_sq_sum <= u128::MAX / (
        n as u128) {
            proof {
                // The squared sum did not saturate, so the field is the true
                // sum, and n times it still fits in a u128.
                assert(self.acc.latency_sq_sum == ss);
                lemma_fundamental_div_mod(u128::MAX as int, n as int);
                lemma_mul_left_inequality(
                    n as int,
                    self.acc.latency_sq_sum as int,
                    (u128::MAX as u128 / n as u128) as int,
                );
                assert((n as int) * ((u128::MAX as u128 / n as u128) as int) <= u128::MAX as int);
                lemma_cauchy_schwarz(rec);
            }
            let prod: u128 = (n as u128) * self.acc.latency_sq_sum;
            let lsq: u128 = self.acc.latency_sum * self.acc.latency_sum;
            let num: u128 = prod - lsq;
            let root = isqrt_u128(num);
            let d: u64 = root / n;
            proof {
                // root == d * n + rem with rem < n, so squaring the division
                // brackets the variance numerator exactly.
                lemma_fundamental_div_mod(root as int, n as int);
                let dd = d as int;
                let nn = n as int;
                let rr = root as int;
                assert(nn * dd <= rr && rr + 1 <= (dd + 1) * nn) by (nonlinear_arith)
                    requires
                        rr == nn * dd + rr % nn,
                        0 <= rr % nn < nn,
                ;
                assert((dd * nn) * (dd * nn) <= rr * rr) by (nonlinear_arith)
                    requires
                        0 <= dd * nn <= rr,
                ;
                assert(rr * rr <= num < (rr + 1) * (rr + 1));
                assert((rr + 1) * (rr + 1) <= ((dd + 1) * nn) * ((dd + 1) * nn))
                    by (nonlinear_arith)
                    requires
                        0 <= rr + 1 <= (dd + 1) * nn,
                ;
            }
            stddev = d;
        } else {
            stddev = u64::MAX;
            proof {
                // Either the squared sum itself saturated, or n times it
                // cannot fit: the contract's saturation case.
                if self.acc.latency_sq_sum < u128::MAX {
                    assert(self.acc.latency_sq_sum == ss);
                    let q = (u128::MAX as u128 / n as u128) as int;
                    lemma_fundamental_div_mod(u128::MAX as int, n as int);
                    assert((n as int) * (q + 1) > u128::MAX as int) by (nonlinear_arith)
                        requires
                            u128::MAX as int == (n as int) * q + (u128::MAX as int) % (n as int),
                            0 <= (u128::MAX as int) % (n as int) < (n as int),
                    ;
                    lemma_mul_left_inequality(n as int, q + 1, ss);
                }
            }
        }
        let p50 = self.acc.histogram.value_at_quantile(500);
        let p90 = self.acc.histogram.value_at_quantile(900);
        let p95 = self.acc.histogram.value_at_quantile(950);
        let p99 = self.acc.histogram.value_at_quantile(990);
        let p99_9 = self.acc.histogram.value_at_quantile(999);
        Some(
            BenchmarkSummary {
                url: self.cli.url.clone(),
                concurrency: self.cli.concurrency as u64,
                elapsed_ns,
                requests_per_sec_milli: rps_milli,
                bytes_per_sec: bps,
                average_latency_ns: mean,
                latency_std_dev_ns: stddev,
                slowest_ns: self.acc.histogram.max(),
                fastest_ns: self.acc.histogram.min(),
                p50_ns: p50,
                p90_ns: p90,
                p95_ns: p95,
                p99_ns: p99,
                p99_9_ns: p99_9,
                total_data: self.acc.total_bytes,
                avg_size_per_request_milli: avg_size_milli,
                total_requests: total,
                successful_requests: n,
                status_code_dist: clone_status_dist(&self.acc.status_counts),
                error_dist: clone_error_dist(&self.acc.error_counts),
            },
        )
    }

    /// The summary of a run in which every outcome failed: latency and data
    /// fields are zero, the error distribution and the request rate are real.
    fn build_error_summary(&self, elapsed_ns: u64) -> (b: BenchmarkSummary)
        requires
            self.acc.wf(),
            elapsed_ns > 0,
            self.acc.total_issued > 0,
            self.acc.successful == 0,
        ensures
            b.url@ == self.cli.url@,
            b.concurrency == self.cli.concurrency as u64,
            b.elapsed_ns == elapsed_ns,
            b.total_requests == self.acc.total_issued,
            b.successful_requests == 0,
            b.requests_per_sec_milli == rps_milli_spec(
                self.acc.total_issued as int,
                elapsed_ns as int,
            ),
            b.error_dist@ == self.acc.error_counts@,
            b.total_data == 0,
            b.bytes_per_sec == 0,
            b.avg_size_per_request_milli == 0,
            b.average_latency_ns == 0,
            b.latency_std_dev_ns == 0,
            b.fastest_ns == 0,
            b.slowest_ns == 0,
            b.p50_ns == 0,
            b.p90_ns == 0,
            b.p95_ns == 0,
            b.p99_ns == 0,
            b.p99_9_ns == 0,
            b.status_code_dist@.len() == 0,
    {
        let total = self.acc.total_issued;
        proof {
            assert((total as int) * 1000000000000 <= u128::MAX as int) by (nonlinear_arith)
                requires
                    total <= u64::MAX,
            ;
        }
        let rps_milli: u128 = (total as u128) * 1000000000000u128 / (elapsed_ns as u128);
        BenchmarkSummary {
            url: self.cli.url.clone(),
            concurrency: self.cli.concurrency as u64,
            elapsed_ns,
            requests_per_sec_milli: rps_milli,
            bytes_per_sec: 0,
            average_latency_ns: 0,
            latency_std_dev_ns: 0,
            slowest_ns: 0,
            fastest_ns: 0,
            p50_ns: 0,
            p90_ns: 0,
            p95_ns: 0,
            p99_ns: 0,
            p99_9_ns: 0,
            total_data: 0,
            avg_size_per_request_milli: 0,
            total_requests: total,
            successful_requests: 0,
            status_code_dist: Vec::new(),
            error_dist: clone_error_dist(&self.acc.error_counts),
        }
    }
}

/// For any run with at least one recorded latency, the percentile ladder of
/// the summary is ordered: `min <= p50 <= p90 <= p95 <= p99 <= p99.9 <= max`.
pub proof fn lemma_percentile_ladder(acc: StatisticsAccumulator)
    requires
        acc.wf(),
        acc.histogram.total > 0,
    ensures
        acc.histogram.min_value <= acc.histogram.quantile_spec(500),
        acc.histogram.quantile_spec(500) <= acc.histogram.quantile_spec(900),
        acc.histogram.quantile_spec(900) <= acc.histogram.quantile_spec(950),
        acc.histogram.quantile_spec(950) <= acc.histogram.quantile_spec(990),
        acc.histogram.quantile_spec(990) <= acc.histogram.quantile_spec(999),
        acc.histogram.quantile_spec(999) <= acc.histogram.max_value,
{
    acc.histogram.lemma_quantile_bounds(500);
    acc.histogram.lemma_quantile_monotone(500, 900);
    acc.histogram.lemma_quantile_monotone(900, 950);
    acc.histogram.lemma_quantile_monotone(950, 990);
    acc.histogram.lemma_quantile_monotone(990, 999);
    acc.histogram.lemma_quantile_bounds(999);
}

} // verus!
