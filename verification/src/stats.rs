//! The statistics accumulator: the single shared aggregate every worker
//! feeds. It exposes one operation, `record`, and its whole state is a
//! function of the multiset of outcomes recorded so far, so any interleaving
//! of recordings yields the same final aggregate.
use crate::histogram::LatencyHistogram;
use crate::outcome::{AbsOutcome, Outcome};
use vstd::prelude::*;
use vstd::seq_lib::group_seq_properties;

verus! {

pub open spec fn is_success(o: AbsOutcome) -> bool {
    o is Success
}

/// Bytes an outcome contributes: a success's declared content length.
pub open spec fn outcome_bytes(o: AbsOutcome) -> int {
    match o {
        AbsOutcome::Success { content_length, .. } => content_length as int,
        AbsOutcome::Failure { .. } => 0,
    }
}

/// Latency an outcome contributes: a success's elapsed nanoseconds.
pub open spec fn outcome_latency(o: AbsOutcome) -> int {
    match o {
        AbsOutcome::Success { time_cost_ns, .. } => time_cost_ns as int,
        AbsOutcome::Failure { .. } => 0,
    }
}

/// Squared latency, for the standard deviation.
pub open spec fn outcome_latency_sq(o: AbsOutcome) -> int {
    outcome_latency(o) * outcome_latency(o)
}

/// Fold of `f` over a sequence of outcomes.
pub open spec fn sum_of<A>(s: Seq<A>, f: spec_fn(A) -> int) -> int
    decreases s.len(),
{
    if s.len() == 0 {
        0
    } else {
        sum_of(s.drop_last(), f) + f(s.last())
    }
}

pub open spec fn sum_bytes(s: Seq<AbsOutcome>) -> int {
    sum_of(s, |o: AbsOutcome| outcome_bytes(o))
}

pub open spec fn sum_latency(s: Seq<AbsOutcome>) -> int {
    sum_of(s, |o: AbsOutcome| outcome_latency(o))
}

pub open spec fn sum_latency_sq(s: Seq<AbsOutcome>) -> int {
    sum_of(s, |o: AbsOutcome| outcome_latency_sq(o))
}

/// How many outcomes are successes.
pub open spec fn success_count(s: Seq<AbsOutcome>) -> nat {
    s.filter(|o: AbsOutcome| is_success(o)).len()
}

/// How many successes carry status code `c`.
pub open spec fn count_code(s: Seq<AbsOutcome>, c: u16) -> nat {
    s.filter(
        |o: AbsOutcome| o matches AbsOutcome::Success { status_code, .. } && status_code == c,
    ).len()
}

/// How many failures carry message `k`.
pub open spec fn count_error(s: Seq<AbsOutcome>, k: Seq<char>) -> nat {
    s.filter(|o: AbsOutcome| o matches AbsOutcome::Failure { message, .. } && message == k).len()
}

/// The latencies of the successes, in recording order: what the histogram holds.
pub open spec fn success_latencies(s: Seq<AbsOutcome>) -> Seq<u64> {
    s.filter(|o: AbsOutcome| is_success(o)).map_values(
        |o: AbsOutcome| match o {
            AbsOutcome::Success { time_cost_ns, .. } => time_cost_ns,
            AbsOutcome::Failure { .. } => 0u64,
        },
    )
}

/// What a count vector says for key `k`: the sum of the counts of its
/// entries with that key. This is the status-code distribution read as a map.
pub open spec fn dist_count(s: Seq<(u16, u64)>, k: u16) -> int
    decreases s.len(),
{
    if s.len() == 0 {
        0
    } else {
        dist_count(s.drop_last(), k) + if s.last().0 == k {
            s.last().1 as int
        } else {
            0
        }
    }
}

/// The error distribution read as a map keyed by message characters.
pub open spec fn dist_count_str(s: Seq<(String, u64)>, k: Seq<char>) -> int
    decreases s.len(),
{
    if s.len() == 0 {
        0
    } else {
        dist_count_str(s.drop_last(), k) + if s.last().0@ == k {
            s.last().1 as int
        } else {
            0
        }
    }
}

/// The total of a count vector's entries.
pub open spec fn sum_counts(s: Seq<(u16, u64)>) -> int
    decreases s.len(),
{
    if s.len() == 0 {
        0
    } else {
        sum_counts(s.drop_last()) + s.last().1 as int
    }
}

/// The total of an error vector's entries.
pub open spec fn sum_counts_str(s: Seq<(String, u64)>) -> int
    decreases s.len(),
{
    if s.len() == 0 {
        0
    } else {
        sum_counts_str(s.drop_last()) + s.last().1 as int
    }
}

/// Appending one element adds its contribution to a fold.
proof fn lemma_sum_of_push<A>(s: Seq<A>, f: spec_fn(A) -> int, x: A)
    ensures
        sum_of(s.push(x), f) == sum_of(s, f) + f(x),
{
    assert(s.push(x).drop_last() =~= s);
    assert(s.push(x).last() == x);
}

/// A fold of a non-negative, bounded contribution is itself bounded.
proof fn lemma_sum_of_bounds<A>(s: Seq<A>, f: spec_fn(A) -> int, bound: int)
    requires
        forall|x: A| 0 <= #[trigger] f(x) <= bound,
    ensures
        0 <= sum_of(s, f) <= s.len() * bound,
    decreases s.len(),
{
    if s.len() == 0 {
    } else {
        lemma_sum_of_bounds(s.drop_last(), f, bound);
        assert((s.len() - 1) * bound + bound == s.len() * bound) by (nonlinear_arith);
    }
}

/// An individual entry never exceeds what the vector says for its key.
proof fn lemma_entry_le_dist(s: Seq<(u16, u64)>, i: int)
    requires
        0 <= i < s.len(),
    ensures
        s[i].1 <= dist_count(s, s[i].0),
    decreases s.len(),
{
    lemma_dist_count_nonneg(s.drop_last(), s[i].0);
    if i < s.len() - 1 {
        assert(s.drop_last()[i] == s[i]);
        lemma_entry_le_dist(s.drop_last(), i);
    }
}

proof fn lemma_dist_count_nonneg(s: Seq<(u16, u64)>, k: u16)
    ensures
        dist_count(s, k) >= 0,
    decreases s.len(),
{
    if s.len() > 0 {
        lemma_dist_count_nonneg(s.drop_last(), k);
    }
}

proof fn lemma_entry_le_dist_str(s: Seq<(String, u64)>, i: int)
    requires
        0 <= i < s.len(),
    ensures
        s[i].1 <= dist_count_str(s, s[i].0@),
    decreases s.len(),
{
    lemma_dist_count_str_nonneg(s.drop_last(), s[i].0@);
    if i < s.len() - 1 {
        assert(s.drop_last()[i] == s[i]);
        lemma_entry_le_dist_str(s.drop_last(), i);
    }
}

proof fn lemma_dist_count_str_nonneg(s: Seq<(String, u64)>, k: Seq<char>)
    ensures
        dist_count_str(s, k) >= 0,
    decreases s.len(),
{
    if s.len() > 0 {
        lemma_dist_count_str_nonneg(s.drop_last(), k);
    }
}

/// Raising the count of entry `i` by one raises the vector's answer for that
/// entry's key by one, and nothing else.
proof fn lemma_dist_count_update(s: Seq<(u16, u64)>, i: int)
    requires
        0 <= i < s.len(),
        s[i].1 < u64::MAX,
    ensures
        forall|k: u16| #[trigger] dist_count(s.update(i, (s[i].0, (s[i].1 + 1) as u64)), k)
            == dist_count(s, k) + if k == s[i].0 {
            1int
        } else {
            0int
        },
        sum_counts(s.update(i, (s[i].0, (s[i].1 + 1) as u64))) == sum_counts(s) + 1,
    decreases s.len(),
{
    let e = (s[i].0, (s[i].1 + 1) as u64);
    let t = s.update(i, e);
    if i == s.len() - 1 {
        assert(t.drop_last() =~= s.drop_last());
        assert(t.last() == e);
        assert forall|k: u16| #[trigger] dist_count(t, k) == dist_count(s, k) + (if k == s[i].0 {
            1int
        } else {
            0int
        }) by {
            assert(dist_count(t, k) == dist_count(t.drop_last(), k) + if t.last().0 == k {
                t.last().1 as int
            } else {
                0
            });
            assert(dist_count(s, k) == dist_count(s.drop_last(), k) + if s.last().0 == k {
                s.last().1 as int
            } else {
                0
            });
        }
    } else {
        let sd = s.drop_last();
        assert(sd[i] == s[i]);
        lemma_dist_count_update(sd, i);
        assert(t.drop_last() =~= sd.update(i, e));
        assert(t.last() == s.last());
        assert forall|k: u16| #[trigger] dist_count(t, k) == dist_count(s, k) + (if k == s[i].0 {
            1int
        } else {
            0int
        }) by {
            assert(dist_count(sd.update(i, e), k) == dist_count(sd, k) + (if k == s[i].0 {
                1int
            } else {
                0int
            }));
            assert(dist_count(t, k) == dist_count(t.drop_last(), k) + if t.last().0 == k {
                t.last().1 as int
            } else {
                0
            });
            assert(dist_count(s, k) == dist_count(sd, k) + if s.last().0 == k {
                s.last().1 as int
            } else {
                0
            });
        }
    }
}

/// Same fact for the error vector.
proof fn lemma_dist_count_str_update(s: Seq<(String, u64)>, i: int, e: (String, u64))
    requires
        0 <= i < s.len(),
        s[i].1 < u64::MAX,
        e.0@ == s[i].0@,
        e.1 == s[i].1 + 1,
    ensures
        forall|k: Seq<char>| #[trigger] dist_count_str(s.update(i, e), k) == dist_count_str(s, k)
            + if k == s[i].0@ {
            1int
        } else {
            0int
        },
        sum_counts_str(s.update(i, e)) == sum_counts_str(s) + 1,
    decreases s.len(),
{
    let t = s.update(i, e);
    if i == s.len() - 1 {
        assert(t.drop_last() =~= s.drop_last());
        assert(t.last() == e);
        assert forall|k: Seq<char>| #[trigger] dist_count_str(t, k) == dist_count_str(s, k) + (
        if k == s[i].0@ {
            1int
        } else {
            0int
        }) by {
            assert(dist_count_str(t, k) == dist_count_str(t.drop_last(), k) + if t.last().0@
                == k {
                t.last().1 as int
            } else {
                0
            });
            assert(dist_count_str(s, k) == dist_count_str(s.drop_last(), k) + if s.last().0@
                == k {
                s.last().1 as int
            } else {
                0
            });
        }
    } else {
        let sd = s.drop_last();
        assert(sd[i] == s[i]);
        lemma_dist_count_str_update(sd, i, e);
        assert(t.drop_last() =~= sd.update(i, e));
        assert(t.last() == s.last());
        assert forall|k: Seq<char>| #[trigger] dist_count_str(t, k) == dist_count_str(s, k) + (
        if k == s[i].0@ {
            1int
        } else {
            0int
        }) by {
            assert(dist_count_str(sd.update(i, e), k) == dist_count_str(sd, k) + (if k == s[i].0@ {
                1int
            } else {
                0int
            }));
            assert(dist_count_str(t, k) == dist_count_str(t.drop_last(), k) + if t.last().0@
                == k {
                t.last().1 as int
            } else {
                0
            });
            assert(dist_count_str(s, k) == dist_count_str(sd, k) + if s.last().0@ == k {
                s.last().1 as int
            } else {
                0
            });
        }
    }
}

/// The shared, mutably-owned aggregate of a run: counts per status code,
/// counts per error message, byte and latency totals, and the latency
/// histogram. `recorded` is the ghost history of recorded outcomes; the
/// invariant `wf` makes every concrete field a function of it.
pub struct StatisticsAccumulator {
    /// How many outcomes were recorded.
    pub total_issued: u64,
    /// How many of them were successes (a response was received).
    pub successful: u64,
    /// Total declared bytes over all successes, saturating at u64::MAX.
    pub total_bytes: u64,
    /// Exact sum of success latencies, in nanoseconds.
    pub latency_sum: u128,
    /// Sum of squared success latencies, saturating at u128::MAX.
    pub latency_sq_sum: u128,
    /// Status code -> count, as a small association vector.
    pub status_counts: Vec<(u16, u64)>,
    /// Error message -> count, as a small association vector.
    pub error_counts: Vec<(String, u64)>,
    /// Latencies of all successes.
    pub histogram: LatencyHistogram,
    /// Ghost history of every recorded outcome, in recording order.
    pub recorded: Ghost<Seq<AbsOutcome>>,
}

impl StatisticsAccumulator {
    /// The accumulator's invariant: every aggregate equals the corresponding
    /// function of the recorded history.
    pub open spec fn wf(self) -> bool {
        let s = self.recorded@;
        &&& self.total_issued == s.len()
        &&& self.successful == success_count(s)
        &&& self.total_bytes == if sum_bytes(s) <= u64::MAX as int {
            sum_bytes(s)
        } else {
            u64::MAX as int
        }
        &&& self.latency_sum == sum_latency(s)
        &&& self.latency_sq_sum == if sum_latency_sq(s) <= u128::MAX as int {
            sum_latency_sq(s)
        } else {
            u128::MAX as int
        }
        &&& forall|k: u16| #[trigger] dist_count(self.status_counts@, k) == count_code(s, k)
        &&& forall|k: Seq<char>| #[trigger] dist_count_str(self.error_counts@, k) == count_error(
            s,
            k,
        )
        &&& sum_counts(self.status_counts@) == success_count(s)
        &&& success_count(s) + sum_counts_str(self.error_counts@) == s.len()
        &&& self.histogram.wf()
        &&& self.histogram.recorded@ == success_latencies(s)
    }

    /// A fresh accumulator with nothing recorded, using the default three
    /// significant digits of histogram precision.
    pub fn new() -> (a: Self)
        ensures
            a.wf(),
            a.recorded@ == Seq::<AbsOutcome>::empty(),
            a.total_issued == 0,
    {
        let a = StatisticsAccumulator {
            total_issued: 0,
            successful: 0,
            total_bytes: 0,
            latency_sum: 0,
            latency_sq_sum: 0,
            status_counts: Vec::new(),
            error_counts: Vec::new(),
            histogram: LatencyHistogram::new(3),
            recorded: Ghost(Seq::empty()),
        };
        proof {
            reveal(Seq::filter);
            let s = a.recorded@;
            assert(success_latencies(s) =~= Seq::<u64>::empty());
        }
        a
    }

    /// Find the entry holding `key`, if any.
    fn find_status(v: &Vec<(u16, u64)>, key: u16) -> (r: Option<usize>)
        ensures
            match r {
                Some(i) => i < v@.len() && v@[i as int].0 == key,
                None => forall|j: int| 0 <= j < v@.len() ==> (#[trigger] v@[j]).0 != key,
            },
    {
        let n = v.len();
        let mut i: usize = 0;
        while i < n
            invariant
                0 <= i <= n,
                n == v@.len(),
                forall|j: int| 0 <= j < i ==> (#[trigger] v@[j]).0 != key,
            decreases n - i,
        {
            if v[i].0 == key {
                return Some(i);
            }
            i = i + 1;
        }
        None
    }

    fn find_error(v: &Vec<(String, u64)>, key: &String) -> (r: Option<usize>)
        ensures
            match r {
                Some(i) => i < v@.len() && v@[i as int].0@ == key@,
                None => forall|j: int| 0 <= j < v@.len() ==> (#[trigger] v@[j]).0@ != key@,
            },
    {
        let n = v.len();
        let mut i: usize = 0;
        while i < n
            invariant
                0 <= i <= n,
                n == v@.len(),
                forall|j: int| 0 <= j < i ==> (#[trigger] v@[j]).0@ != key@,
            decreases n - i,
        {
            if v[i].0 == *key {
                return Some(i);
            }
            i = i + 1;
        }
        None
    }

    /// Count one more occurrence of `key` in the status distribution.
    fn bump_status(v: &mut Vec<(u16, u64)>, key: u16)
        requires
            forall|i: int| 0 <= i < old(v)@.len() ==> (#[trigger] old(v)@[i]).1 < u64::MAX,
        ensures
            forall|k: u16| #[trigger] dist_count(final(v)@, k) == dist_count(old(v)@, k) + if k
                == key {
                1int
            } else {
                0int
            },
            sum_counts(final(v)@) == sum_counts(old(v)@) + 1,
    {
        match Self::find_status(v, key) {
            Some(i) => {
                let c = v[i].1;
                v.set(i, (key, c + 1));
                proof {
                    lemma_dist_count_update(old(v)@, i as int);
                }
            },
            None => {
                v.push((key, 1));
                proof {
                    assert(v@.drop_last() =~= old(v)@);
                }
            },
        }
    }

    /// Count one more occurrence of `key` in the error distribution.
    fn bump_error(v: &mut Vec<(String, u64)>, key: String)
        requires
            forall|i: int| 0 <= i < old(v)@.len() ==> (#[trigger] old(v)@[i]).1 < u64::MAX,
        ensures
            forall|k: Seq<char>| #[trigger] dist_count_str(final(v)@, k) == dist_count_str(
                old(v)@,
                k,
            ) + if k == key@ {
                1int
            } else {
                0int
            },
            sum_counts_str(final(v)@) == sum_counts_str(old(v)@) + 1,
    {
        match Self::find_error(v, &key) {
            Some(i) => {
                let c = v[i].1;
                let ghost olde = old(v)@[i as int];
                let k2 = key;
                v.set(i, (k2, c + 1));
                proof {
                    lemma_dist_count_str_update(old(v)@, i as int, v@[i as int]);
                }
            },
            None => {
                v.push((key, 1));
                proof {
                    assert(v@.drop_last() =~= old(v)@);
                }
            },
        }
    }

    /// Record one outcome. Nothing is lost and nothing is counted twice:
    /// the ghost history grows by exactly this outcome, and every aggregate
    /// field is again the corresponding function of the history.
    pub fn record(&mut self, outcome: Outcome)
        requires
            old(self).wf(),
            old(self).total_issued < u64::MAX,
        ensures
            final(self).wf(),
            final(self).recorded@ == old(self).recorded@.push(outcome@),
            final(self).total_issued == old(self).total_issued + 1,
            final(self).histogram.sub_bucket_bits == old(self).histogram.sub_bucket_bits,
    {
        let ghost s = self.recorded@;
        let ghost o = outcome@;
        match outcome {
            Outcome::Success(r) => {
                let t = r.time_cost_ns;
                if self.total_bytes > u64::MAX - r.content_length {
                    self.total_bytes = u64::MAX;
                } else {
                    self.total_bytes = self.total_bytes + r.content_length;
                }
                proof {
                    lemma_sum_of_bounds::<AbsOutcome>(
                        s,
                        |x: AbsOutcome| outcome_latency(x),
                        u64::MAX as int,
                    );
                    assert(s.len() * (u64::MAX as int) + u64::MAX as int <= u128::MAX as int)
                        by (nonlinear_arith)
                        requires
                            s.len() <= u64::MAX as int - 1,
                    ;
                }
                self.latency_sum = self.latency_sum + (t as u128);
                proof {
                    assert((t as int) * (t as int) <= u128::MAX as int) by (nonlinear_arith)
                        requires
                            t <= u64::MAX,
                    ;
                }
                let sq: u128 = (t as u128) * (t as u128);
                if self.latency_sq_sum > u128::MAX - sq {
                    self.latency_sq_sum = u128::MAX;
                } else {
                    self.latency_sq_sum = self.latency_sq_sum + sq;
                }
                proof {
                    broadcast use Seq::lemma_filter_len;

                    assert(self.histogram.recorded@.len() == success_count(s));
                }
                self.histogram.record(t);
                proof {
                    broadcast use Seq::lemma_filter_len;

                    assert forall|i: int|
                        0 <= i < self.status_counts@.len() implies (#[trigger] self.status_counts@[i]).1
                        < u64::MAX by {
                        lemma_entry_le_dist(self.status_counts@, i);
                        assert(dist_count(self.status_counts@, self.status_counts@[i].0)
                            == count_code(s, self.status_counts@[i].0));
                    }
                }
                Self::bump_status(&mut self.status_counts, r.status_code);
                proof {
                    broadcast use Seq::lemma_filter_len;

                }
                self.successful = self.successful + 1;
                self.total_issued = self.total_issued + 1;
            },
            Outcome::Failure { kind: _, message } => {
                proof {
                    broadcast use Seq::lemma_filter_len;

                    assert forall|i: int|
                        0 <= i < self.error_counts@.len() implies (#[trigger] self.error_counts@[i]).1
                        < u64::MAX by {
                        lemma_entry_le_dist_str(self.error_counts@, i);
                        assert(dist_count_str(self.error_counts@, self.error_counts@[i].0@)
                            == count_error(s, self.error_counts@[i].0@));
                    }
                }
                Self::bump_error(&mut self.error_counts, message);
                self.total_issued = self.total_issued + 1;
            },
        }
        proof {
            self.recorded@ = s.push(o);
            broadcast use Seq::lemma_filter_push;
            broadcast use Seq::lemma_filter_len;
            broadcast use Seq::lemma_push_map_commute;
            broadcast use group_seq_properties;

            lemma_sum_of_push(s, |x: AbsOutcome| outcome_bytes(x), o);
            lemma_sum_of_push(s, |x: AbsOutcome| outcome_latency(x), o);
            lemma_sum_of_push(s, |x: AbsOutcome| outcome_latency_sq(x), o);
            assert forall|k: u16| #[trigger] dist_count(self.status_counts@, k) == count_code(
                s.push(o),
                k,
            ) by {
                assert(count_code(s.push(o), k) == count_code(s, k) + if (o
                    matches AbsOutcome::Success { status_code, .. } && status_code == k) {
                    1int
                } else {
                    0int
                });
            }
            assert forall|k: Seq<char>| #[trigger] dist_count_str(self.error_counts@, k)
                == count_error(s.push(o), k) by {
                assert(count_error(s.push(o), k) == count_error(s, k) + if (o
                    matches AbsOutcome::Failure { message, .. } && message == k) {
                    1int
                } else {
                    0int
                });
            }
            assert(success_count(s.push(o)) == success_count(s) + if is_success(o) {
                1int
            } else {
                0int
            });
            assert(success_latencies(s.push(o)) == if is_success(o) {
                success_latencies(s).push(
                    match o {
                        AbsOutcome::Success { time_cost_ns, .. } => time_cost_ns,
                        AbsOutcome::Failure { .. } => 0u64,
                    },
                )
            } else {
                success_latencies(s)
            });
        }
    }

    /// Conservation of outcomes: everything issued is either a success or
    /// sits in the error distribution - `total_issued` equals
    /// `successful` plus the sum of the error counts.
    pub proof fn lemma_conservation(self)
        requires
            self.wf(),
        ensures
            self.total_issued == self.successful + sum_counts_str(self.error_counts@),
            self.total_issued == sum_counts(self.status_counts@) + sum_counts_str(
                self.error_counts@,
            ),
    {
    }

    /// Order independence of recording: two accumulators that recorded the
    /// same outcomes as multisets - the same set of outcomes, in any
    /// permutation - agree on every aggregate: the per-status counts, the
    /// per-error counts, the byte and latency totals, the histogram's
    /// buckets and extremes, and therefore every quantile answer.
    pub proof fn lemma_order_independence(self, other: Self)
        requires
            self.wf(),
            other.wf(),
            self.histogram.sub_bucket_bits == other.histogram.sub_bucket_bits,
            self.recorded@.to_multiset() == other.recorded@.to_multiset(),
        ensures
            self.total_issued == other.total_issued,
            self.successful == other.successful,
            self.total_bytes == other.total_bytes,
            self.latency_sum == other.latency_sum,
            self.latency_sq_sum == other.latency_sq_sum,
            forall|k: u16| #[trigger] dist_count(self.status_counts@, k) == dist_count(
                other.status_counts@,
                k,
            ),
            forall|k: Seq<char>| #[trigger] dist_count_str(self.error_counts@, k)
                == dist_count_str(other.error_counts@, k),
            self.histogram.counts@ == other.histogram.counts@,
            self.histogram.total == other.histogram.total,
            self.histogram.min_value == other.histogram.min_value,
            self.histogram.max_value == other.histogram.max_value,
            forall|q: u64| #[trigger] self.histogram.quantile_spec(q)
                == other.histogram.quantile_spec(q),
    {
        broadcast use vstd::seq_lib::group_to_multiset_ensures;

        let s1 = self.recorded@;
        let s2 = other.recorded@;
        let m = self.histogram.m();
        assert(s1.len() == s1.to_multiset().len());
        assert(s2.len() == s2.to_multiset().len());
        lemma_filter_len_permutation(s1, s2, |o: AbsOutcome| is_success(o));
        lemma_sum_of_permutation(s1, s2, |x: AbsOutcome| outcome_bytes(x));
        lemma_sum_of_permutation(s1, s2, |x: AbsOutcome| outcome_latency(x));
        lemma_sum_of_permutation(s1, s2, |x: AbsOutcome| outcome_latency_sq(x));
        assert forall|k: u16| #[trigger] dist_count(self.status_counts@, k) == dist_count(
            other.status_counts@,
            k,
        ) by {
            lemma_filter_len_permutation(
                s1,
                s2,
                |o: AbsOutcome| o matches AbsOutcome::Success { status_code, .. } && status_code
                    == k,
            );
        }
        assert forall|k: Seq<char>| #[trigger] dist_count_str(self.error_counts@, k)
            == dist_count_str(other.error_counts@, k) by {
            lemma_filter_len_permutation(
                s1,
                s2,
                |o: AbsOutcome| o matches AbsOutcome::Failure { message, .. } && message == k,
            );
        }
        // The two histograms hold permutations of the same latencies.
        lemma_filter_to_multiset(s1, |o: AbsOutcome| is_success(o));
        lemma_filter_to_multiset(s2, |o: AbsOutcome| is_success(o));
        lemma_map_values_permutation(
            s1.filter(|o: AbsOutcome| is_success(o)),
            s2.filter(|o: AbsOutcome| is_success(o)),
            |o: AbsOutcome| match o {
                AbsOutcome::Success { time_cost_ns, .. } => time_cost_ns,
                AbsOutcome::Failure { .. } => 0u64,
            },
        );
        let l1 = self.histogram.recorded@;
        let l2 = other.histogram.recorded@;
        assert(l1.to_multiset() == l2.to_multiset());
        assert(l1.len() == l1.to_multiset().len());
        assert(l2.len() == l2.to_multiset().len());
        // Same per-bucket tallies.
        assert forall|i: int|
            0 <= i < self.histogram.counts@.len() implies #[trigger] self.histogram.counts@[i]
            == other.histogram.counts@[i] by {
            lemma_filter_len_permutation(l1, l2, |v: u64| crate::histogram::bucket_index(
                m,
                v as nat,
            ) == i);
        }
        assert(self.histogram.counts@ =~= other.histogram.counts@);
        // Same extremes: each minimum occurs in the other history too.
        if l1.len() > 0 {
            assert(l1.contains(self.histogram.min_value));
            assert(l1.to_multiset().count(self.histogram.min_value) > 0);
            assert(l2.contains(self.histogram.min_value));
            let j1 = choose|j: int| 0 <= j < l2.len() && l2[j] == self.histogram.min_value;
            assert(other.histogram.min_value <= l2[j1]);
            assert(l2.contains(other.histogram.min_value));
            assert(l2.to_multiset().count(other.histogram.min_value) > 0);
            assert(l1.contains(other.histogram.min_value));
            let j2 = choose|j: int| 0 <= j < l1.len() && l1[j] == other.histogram.min_value;
            assert(self.histogram.min_value <= l1[j2]);
            assert(l1.contains(self.histogram.max_value));
            assert(l1.to_multiset().count(self.histogram.max_value) > 0);
            assert(l2.contains(self.histogram.max_value));
            let j3 = choose|j: int| 0 <= j < l2.len() && l2[j] == self.histogram.max_value;
            assert(other.histogram.max_value >= l2[j3]);
            assert(l2.contains(other.histogram.max_value));
            assert(l2.to_multiset().count(other.histogram.max_value) > 0);
            assert(l1.contains(other.histogram.max_value));
            let j4 = choose|j: int| 0 <= j < l1.len() && l1[j] == other.histogram.max_value;
            assert(self.histogram.max_value >= l1[j4]);
        }
    }
}

/// A sequence's filter, seen as a multiset, is the multiset's filter: the
/// tally a filter produces depends only on which values occur how often.
proof fn lemma_filter_to_multiset<A>(s: Seq<A>, p: spec_fn(A) -> bool)
    ensures
        s.filter(p).to_multiset() =~= s.to_multiset().filter(p),
    decreases s.len(),
{
    broadcast use vstd::seq_lib::group_to_multiset_ensures;
    broadcast use vstd::multiset::group_multiset_axioms;

    reveal(Seq::filter);
    if s.len() == 0 {
        assert forall|v: A| s.filter(p).to_multiset().count(v) == s.to_multiset().filter(
            p,
        ).count(v) by {
            assert(!s.contains(v));
            assert(!s.filter(p).contains(v));
        }
    } else {
        let sd = s.drop_last();
        let x = s.last();
        lemma_filter_to_multiset(sd, p);
        assert(sd.push(x) =~= s);
        assert(sd.push(x).to_multiset() =~= sd.to_multiset().insert(x));
        if p(x) {
            assert(s.filter(p) == sd.filter(p).push(x));
            assert(sd.filter(p).push(x).to_multiset() =~= sd.filter(p).to_multiset().insert(x));
        }
        assert forall|v: A| s.filter(p).to_multiset().count(v) == s.to_multiset().filter(
            p,
        ).count(v) by {
            assert(sd.filter(p).to_multiset().count(v) == sd.to_multiset().filter(p).count(v));
        }
    }
}

/// Permutations leave every filter tally unchanged.
proof fn lemma_filter_len_permutation<A>(s1: Seq<A>, s2: Seq<A>, p: spec_fn(A) -> bool)
    requires
        s1.to_multiset() == s2.to_multiset(),
    ensures
        s1.filter(p).len() == s2.filter(p).len(),
{
    broadcast use vstd::seq_lib::group_to_multiset_ensures;

    lemma_filter_to_multiset(s1, p);
    lemma_filter_to_multiset(s2, p);
    assert(s1.filter(p).len() == s1.filter(p).to_multiset().len());
    assert(s2.filter(p).len() == s2.filter(p).to_multiset().len());
}

/// Removing an element takes its contribution out of a fold.
proof fn lemma_sum_of_remove<A>(s: Seq<A>, i: int, f: spec_fn(A) -> int)
    requires
        0 <= i < s.len(),
    ensures
        sum_of(s, f) == sum_of(s.remove(i), f) + f(s[i]),
    decreases s.len(),
{
    if i == s.len() - 1 {
        assert(s.remove(i) =~= s.drop_last());
    } else {
        assert(s.remove(i).drop_last() =~= s.drop_last().remove(i));
        assert(s.remove(i).last() == s.last());
        assert(s.drop_last()[i] == s[i]);
        lemma_sum_of_remove(s.drop_last(), i, f);
    }
}

/// Permutations leave a fold unchanged: the step only ever adds, so the
/// order of the additions cannot matter.
proof fn lemma_sum_of_permutation<A>(s1: Seq<A>, s2: Seq<A>, f: spec_fn(A) -> int)
    requires
        s1.to_multiset() == s2.to_multiset(),
    ensures
        sum_of(s1, f) == sum_of(s2, f),
    decreases s1.len(),
{
    broadcast use vstd::seq_lib::group_to_multiset_ensures;
    broadcast use vstd::multiset::group_multiset_axioms;

    assert(s1.len() == s1.to_multiset().len());
    assert(s2.len() == s2.to_multiset().len());
    if s1.len() > 0 {
        let x = s1.last();
        let sd = s1.drop_last();
        assert(sd.push(x) =~= s1);
        assert(sd.push(x).to_multiset() =~= sd.to_multiset().insert(x));
        assert(s1.to_multiset().count(x) > 0);
        assert(s2.contains(x));
        let i = choose|i: int| 0 <= i < s2.len() && s2[i] == x;
        assert(s2.remove(i).to_multiset() =~= s2.to_multiset().remove(x));
        assert(sd.to_multiset() =~= s2.remove(i).to_multiset()) by {
            assert forall|v: A|
                sd.to_multiset().count(v) == s2.remove(i).to_multiset().count(v) by {
                assert(sd.to_multiset().insert(x).count(v) == s2.to_multiset().count(v));
            }
        }
        lemma_sum_of_permutation(sd, s2.remove(i), f);
        lemma_sum_of_remove(s2, i, f);
    }
}

/// Mapping commutes with removal.
proof fn lemma_map_values_remove<A, B>(s: Seq<A>, i: int, f: spec_fn(A) -> B)
    requires
        0 <= i < s.len(),
    ensures
        s.remove(i).map_values(f) =~= s.map_values(f).remove(i),
{
}

/// Permutations of the input permute the mapped sequence.
proof fn lemma_map_values_permutation<A, B>(s1: Seq<A>, s2: Seq<A>, f: spec_fn(A) -> B)
    requires
        s1.to_multiset() == s2.to_multiset(),
    ensures
        s1.map_values(f).to_multiset() =~= s2.map_values(f).to_multiset(),
    decreases s1.len(),
{
    broadcast use vstd::seq_lib::group_to_multiset_ensures;
    broadcast use vstd::multiset::group_multiset_axioms;
    broadcast use Seq::lemma_push_map_commute;

    assert(s1.len() == s1.to_multiset().len());
    assert(s2.len() == s2.to_multiset().len());
    if s1.len() == 0 {
        assert forall|v: B|
            s1.map_values(f).to_multiset().count(v) == s2.map_values(f).to_multiset().count(
                v,
            ) by {
            assert(s1.map_values(f).len() == 0);
            assert(s2.map_values(f).len() == 0);
            assert(!s1.map_values(f).contains(v));
            assert(!s2.map_values(f).contains(v));
        }
    } else {
        let x = s1.last();
        let sd = s1.drop_last();
        assert(sd.push(x) =~= s1);
        assert(sd.push(x).to_multiset() =~= sd.to_multiset().insert(x));
        assert(s1.to_multiset().count(x) > 0);
        assert(s2.contains(x));
        let i = choose|i: int| 0 <= i < s2.len() && s2[i] == x;
        assert(s2.remove(i).to_multiset() =~= s2.to_multiset().remove(x));
        assert(sd.to_multiset() =~= s2.remove(i).to_multiset()) by {
            assert forall|v: A|
                sd.to_multiset().count(v) == s2.remove(i).to_multiset().count(v) by {
                assert(sd.to_multiset().insert(x).count(v) == s2.to_multiset().count(v));
            }
        }
        lemma_map_values_permutation(sd, s2.remove(i), f);
        // Image of s1: the image of its front, plus f(x).
        assert(s1.map_values(f) == sd.push(x).map_values(f));
        assert(s1.map_values(f).to_multiset() =~= sd.map_values(f).to_multiset().insert(f(x)));
        // Image of s2: removing index i removes one occurrence of f(x).
        lemma_map_values_remove(s2, i, f);
        assert(s2.map_values(f)[i] == f(x));
        assert(s2.map_values(f).remove(i).to_multiset() =~= s2.map_values(f).to_multiset().remove(
            f(x),
        ));
        assert(s2.map_values(f).to_multiset().count(f(x)) > 0) by {
            assert(s2.map_values(f).contains(f(x)));
        }
        assert forall|v: B|
            s1.map_values(f).to_multiset().count(v) == s2.map_values(f).to_multiset().count(
                v,
            ) by {
            assert(sd.map_values(f).to_multiset().count(v) == s2.map_values(f).remove(
                i,
            ).to_multiset().count(v));
        }
    }
}

} // verus!
