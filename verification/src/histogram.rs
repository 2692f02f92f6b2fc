//! The percentile engine: a log-linear latency histogram.
//!
//! Values in `[0, 2^m)` land in one exact bucket each; above that, every
//! doubling of the value range is split into `2^(m-1)` equal sub-buckets, so
//! memory stays constant whatever the sample count and the relative error of
//! a bucket's representative value is bounded by `2^(1-m)`. With the default
//! three significant decimal digits, `m = 11` (2048 >= 2 * 10^3).
use vstd::arithmetic::power2::{lemma2_to64, lemma_pow2_adds, lemma_pow2_pos, pow2};
use vstd::prelude::*;
use vstd::seq_lib::group_seq_properties;

verus! {

/// `pow2` facts this module leans on throughout: a power of two is positive
/// and doubles with its exponent.
proof fn lemma_pow2_split(m: nat)
    requires
        m >= 1,
    ensures
        pow2(m) == 2 * pow2((m - 1) as nat),
        pow2((m - 1) as nat) >= 1,
        pow2(m) >= 2,
{
    lemma_pow2_adds((m - 1) as nat, 1);
    lemma2_to64();
    lemma_pow2_pos((m - 1) as nat);
}

/// The bucket a value lands in: values under `2^m` map to themselves; any
/// other value is halved, mapped, and shifted up by `2^(m-1)` buckets.
pub open spec fn bucket_index(m: nat, v: nat) -> nat
    decreases v,
        via bucket_index_decreases
{
    if v < pow2(m) {
        v
    } else {
        pow2((m - 1) as nat) + bucket_index(m, v / 2)
    }
}

#[via_fn]
proof fn bucket_index_decreases(m: nat, v: nat) {
    lemma_pow2_pos(m);
    assert(v >= pow2(m) ==> v / 2 < v) by (nonlinear_arith)
        requires
            pow2(m) >= 1,
    ;
}

/// The largest value that lands in bucket `i`: the bucket's representative.
/// Quantile queries answer with this value, clamped to the recorded range.
pub open spec fn bucket_rep(m: nat, i: nat) -> nat
    decreases i,
        via bucket_rep_decreases
{
    if m == 0 || i < pow2(m) {
        i
    } else {
        2 * bucket_rep(m, (i - pow2((m - 1) as nat)) as nat) + 1
    }
}

#[via_fn]
proof fn bucket_rep_decreases(m: nat, i: nat) {
    if m >= 1 {
        lemma_pow2_split(m);
    }
}

/// Buckets enough for every u64 value: the linear region plus one half-region
/// per doubling up to 2^64.
pub open spec fn num_buckets(m: nat) -> nat {
    (pow2(m) + (64 - m) * pow2((m - 1) as nat)) as nat
}

/// How many recorded values fall in bucket `i`.
pub open spec fn count_in_bucket(s: Seq<u64>, m: nat, i: int) -> nat {
    s.filter(|v: u64| bucket_index(m, v as nat) == i).len()
}

/// How many recorded values land in buckets up to and including `i`.
pub open spec fn count_le_bucket(s: Seq<u64>, m: nat, i: int) -> nat {
    s.filter(|v: u64| bucket_index(m, v as nat) <= i).len()
}

/// Sum of the bucket counters up to and including index `i`.
pub open spec fn cum_counts(c: Seq<u64>, i: int) -> nat
    decreases i + 1,
{
    if i < 0 {
        0
    } else {
        (cum_counts(c, i - 1) + c[i]) as nat
    }
}

/// The rank a permille quantile targets: `ceil(total * q / 1000)`.
pub open spec fn rank_spec(total: nat, q: nat) -> nat {
    ((total * q + 999) / 1000) as nat
}

/// A quantile query targets at least one sample.
pub open spec fn target_spec(total: nat, q: nat) -> nat {
    if rank_spec(total, q) == 0 {
        1nat
    } else {
        rank_spec(total, q)
    }
}

/// The first bucket at or after `i` whose cumulative count reaches `target`;
/// the last bucket, if none does.
pub open spec fn stop_index(c: Seq<u64>, target: nat, i: nat) -> nat
    decreases c.len() - i,
{
    if i + 1 >= c.len() || cum_counts(c, i as int) >= target {
        i
    } else {
        stop_index(c, target, i + 1)
    }
}

/// Splitting the tally at bucket `i`: values in buckets up to `i` are those
/// up to `i - 1` plus those exactly in `i`.
proof fn lemma_count_le_split(s: Seq<u64>, m: nat, i: int)
    ensures
        count_le_bucket(s, m, i) == count_le_bucket(s, m, i - 1) + count_in_bucket(s, m, i),
    decreases s.len(),
{
    reveal(Seq::filter);
    if s.len() > 0 {
        lemma_count_le_split(s.drop_last(), m, i);
    }
}

/// A filter by a predicate that holds of every element keeps everything.
proof fn lemma_filter_all(s: Seq<u64>, pred: spec_fn(u64) -> bool)
    requires
        forall|j: int| 0 <= j < s.len() ==> pred(#[trigger] s[j]),
    ensures
        s.filter(pred).len() == s.len(),
    decreases s.len(),
{
    reveal(Seq::filter);
    if s.len() > 0 {
        assert(forall|j: int|
            0 <= j < s.drop_last().len() ==> #[trigger] s.drop_last()[j] == s[j]);
        lemma_filter_all(s.drop_last(), pred);
    }
}

/// If, element by element, `p` implies `q`, then `p` keeps no more than `q`.
proof fn lemma_filter_implies_len(s: Seq<u64>, p: spec_fn(u64) -> bool, q: spec_fn(u64) -> bool)
    requires
        forall|j: int| 0 <= j < s.len() && p(#[trigger] s[j]) ==> q(s[j]),
    ensures
        s.filter(p).len() <= s.filter(q).len(),
    decreases s.len(),
{
    reveal(Seq::filter);
    if s.len() > 0 {
        assert(forall|j: int|
            0 <= j < s.drop_last().len() ==> #[trigger] s.drop_last()[j] == s[j]);
        lemma_filter_implies_len(s.drop_last(), p, q);
    }
}

/// The stop search never runs past the last bucket.
proof fn lemma_stop_index_range(c: Seq<u64>, target: nat, i: nat)
    requires
        i < c.len(),
    ensures
        i <= stop_index(c, target, i) < c.len(),
    decreases c.len() - i,
{
    if !(i + 1 >= c.len() || cum_counts(c, i as int) >= target) {
        lemma_stop_index_range(c, target, i + 1);
    }
}

/// The stop search stops at the first bucket that reaches the target:
/// everything before it falls short.
proof fn lemma_stop_index_first(c: Seq<u64>, target: nat, i: nat)
    requires
        i < c.len(),
    ensures
        forall|j: int| i <= j < stop_index(c, target, i) ==> #[trigger] cum_counts(c, j) < target,
    decreases c.len() - i,
{
    if !(i + 1 >= c.len() || cum_counts(c, i as int) >= target) {
        lemma_stop_index_first(c, target, i + 1);
    }
}

/// If the total reaches the target, so does the stop bucket's cumulative
/// count.
proof fn lemma_stop_index_covers(c: Seq<u64>, target: nat, i: nat)
    requires
        i < c.len(),
        target <= cum_counts(c, c.len() - 1),
    ensures
        cum_counts(c, stop_index(c, target, i) as int) >= target,
    decreases c.len() - i,
{
    if !(i + 1 >= c.len() || cum_counts(c, i as int) >= target) {
        lemma_stop_index_covers(c, target, i + 1);
    }
}

/// A non-empty filter names a witness in the sequence.
proof fn lemma_filter_nonempty_witness(s: Seq<u64>, pred: spec_fn(u64) -> bool) -> (j: int)
    requires
        s.filter(pred).len() > 0,
    ensures
        0 <= j < s.len(),
        pred(s[j]),
{
    if forall|j: int| 0 <= j < s.len() ==> !pred(#[trigger] s[j]) {
        s.lemma_all_neg_filter_empty(pred);
    }
    choose|j: int| 0 <= j < s.len() && pred(s[j])
}

/// A larger target never stops earlier.
proof fn lemma_stop_index_monotone(c: Seq<u64>, t1: nat, t2: nat, i: nat)
    requires
        t1 <= t2,
        i < c.len(),
    ensures
        stop_index(c, t1, i) <= stop_index(c, t2, i),
    decreases c.len() - i,
{
    if i + 1 >= c.len() {
    } else if cum_counts(c, i as int) >= t2 {
    } else if cum_counts(c, i as int) >= t1 {
        lemma_stop_index_range(c, t2, i + 1);
    } else {
        lemma_stop_index_monotone(c, t1, t2, i + 1);
    }
}

/// The target rank never exceeds the sample count.
proof fn lemma_rank_le_total(total: nat, q: nat)
    requires
        q <= 1000,
    ensures
        rank_spec(total, q) <= total,
        total >= 1 ==> 1 <= target_spec(total, q) <= total,
{
    if total == 0 {
        assert(total * q == 0) by (nonlinear_arith)
            requires
                total == 0,
        ;
    } else {
        vstd::arithmetic::mul::lemma_mul_left_inequality(total as int, q as int, 1000);
        vstd::arithmetic::div_mod::lemma_div_is_ordered(
            (total * q + 999) as int,
            (total * 1000 + 999) as int,
            1000,
        );
        vstd::arithmetic::div_mod::lemma_hoist_over_denominator(999, total as int, 1000);
        assert((999 + total * 1000) / 1000 == 999int / 1000 + total);
    }
}

/// Every value below `2^(m+k)` lands below bucket `2^m + k * 2^(m-1)`.
pub proof fn lemma_bucket_index_bound(m: nat, v: nat, k: nat)
    requires
        1 <= m,
        v < pow2(m + k),
    ensures
        bucket_index(m, v) < pow2(m) + k * pow2((m - 1) as nat),
    decreases k,
{
    lemma_pow2_pos((m - 1) as nat);
    if v < pow2(m) {
        assert(k * pow2((m - 1) as nat) >= 0) by (nonlinear_arith)
            requires
                k >= 0,
                pow2((m - 1) as nat) >= 0,
        ;
    } else {
        assert(k > 0) by {
            if k == 0 {
                assert(v < pow2(m));
            }
        }
        lemma_pow2_adds((m + k - 1) as nat, 1);
        lemma2_to64();
        assert(pow2(m + k) == pow2((m + k - 1) as nat) * 2);
        assert(v / 2 < pow2((m + k - 1) as nat)) by (nonlinear_arith)
            requires
                v < pow2((m + k - 1) as nat) * 2,
                pow2((m + k - 1) as nat) > 0,
        ;
        lemma_bucket_index_bound(m, v / 2, (k - 1) as nat);
        assert((k - 1) * pow2((m - 1) as nat) + pow2((m - 1) as nat) == k * pow2((m - 1) as nat))
            by (nonlinear_arith);
    }
}

/// A value at or above `2^(m-1)` never lands below bucket `2^(m-1)`.
proof fn lemma_bucket_index_lower(m: nat, v: nat)
    requires
        1 <= m,
        pow2((m - 1) as nat) <= v,
    ensures
        bucket_index(m, v) >= pow2((m - 1) as nat),
{
}

/// A bucket's representative is at least the bucket's index.
proof fn lemma_rep_ge_index(m: nat, i: nat)
    requires
        1 <= m,
    ensures
        bucket_rep(m, i) >= i,
    decreases i,
{
    lemma_pow2_split(m);
    if i < pow2(m) {
    } else {
        let j = (i - pow2((m - 1) as nat)) as nat;
        lemma_rep_ge_index(m, j);
    }
}

/// Representatives grow with the bucket index.
pub proof fn lemma_rep_monotone(m: nat, i: nat, j: nat)
    requires
        1 <= m,
        i <= j,
    ensures
        bucket_rep(m, i) <= bucket_rep(m, j),
    decreases j,
{
    lemma_pow2_split(m);
    if j < pow2(m) {
    } else if i < pow2(m) {
        lemma_rep_ge_index(m, j);
    } else {
        lemma_rep_monotone(
            m,
            (i - pow2((m - 1) as nat)) as nat,
            (j - pow2((m - 1) as nat)) as nat,
        );
    }
}

/// No value exceeds the representative of its own bucket.
pub proof fn lemma_value_le_rep(m: nat, v: nat)
    requires
        1 <= m,
    ensures
        v <= bucket_rep(m, bucket_index(m, v)),
    decreases v,
{
    lemma_pow2_split(m);
    if v < pow2(m) {
    } else {
        assert(pow2(m) == pow2((m - 1) as nat) * 2);
        assert(v / 2 >= pow2((m - 1) as nat)) by (nonlinear_arith)
            requires
                v >= pow2((m - 1) as nat) * 2,
                pow2((m - 1) as nat) > 0,
        ;
        lemma_bucket_index_lower(m, v / 2);
        let i = bucket_index(m, v);
        assert(i == pow2((m - 1) as nat) + bucket_index(m, v / 2));
        assert(i >= pow2(m));
        assert((i - pow2((m - 1) as nat)) as nat == bucket_index(m, v / 2));
        lemma_value_le_rep(m, v / 2);
        assert(v <= 2 * (v / 2) + 1) by (nonlinear_arith);
    }
}

/// Sharpened form of the precision bound, for values past the first half
/// region: the overshoot stays under the bound with `2^(m-1)` to spare.
proof fn lemma_relative_error_aux(m: nat, v: nat)
    requires
        1 <= m,
        v >= pow2((m - 1) as nat),
    ensures
        bucket_rep(m, bucket_index(m, v)) >= v,
        (bucket_rep(m, bucket_index(m, v)) - v) * pow2((m - 1) as nat) <= v - pow2(
            (m - 1) as nat,
        ),
    decreases v,
{
    lemma_pow2_split(m);
    lemma_value_le_rep(m, v);
    let h = pow2((m - 1) as nat);
    if v < pow2(m) {
        assert(bucket_index(m, v) == v);
        assert(bucket_rep(m, v) == v);
        assert((bucket_rep(m, bucket_index(m, v)) - v) * h == 0) by (nonlinear_arith)
            requires
                bucket_rep(m, bucket_index(m, v)) == v,
        ;
    } else {
        let v2 = v / 2;
        assert(v2 >= h && v >= 2 * v2 && v <= 2 * v2 + 1) by (nonlinear_arith)
            requires
                v >= 2 * h,
                h >= 1,
                v2 == v / 2,
        ;
        lemma_bucket_index_lower(m, v2);
        let i = bucket_index(m, v);
        assert(i == h + bucket_index(m, v2));
        assert(i >= pow2(m));
        assert((i - h) as nat == bucket_index(m, v2));
        let r2 = bucket_rep(m, bucket_index(m, v2));
        assert(bucket_rep(m, i) == 2 * r2 + 1);
        lemma_relative_error_aux(m, v2);
        assert((2 * r2 + 1 - v) * h <= v - h) by (nonlinear_arith)
            requires
                (r2 - v2) * h <= v2 - h,
                r2 >= v2,
                2 * v2 <= v <= 2 * v2 + 1,
                h >= 1,
        ;
    }
}

/// The engine's precision, as promised: the representative a value is
/// reported under never falls below the value, and overshoots it by at most
/// a factor of `2^(1-m)` - under one part in a thousand at the default
/// three significant decimal digits (`m = 11`).
pub proof fn lemma_relative_error(m: nat, v: nat)
    requires
        1 <= m,
    ensures
        bucket_rep(m, bucket_index(m, v)) >= v,
        (bucket_rep(m, bucket_index(m, v)) - v) * pow2((m - 1) as nat) <= v,
{
    lemma_pow2_split(m);
    lemma_value_le_rep(m, v);
    if v >= pow2((m - 1) as nat) {
        lemma_relative_error_aux(m, v);
    } else {
        // Below the half region values map to themselves exactly.
        assert(bucket_index(m, v) == v);
        assert(bucket_rep(m, v) == v);
        assert((bucket_rep(m, bucket_index(m, v)) - v) * pow2((m - 1) as nat) == 0)
            by (nonlinear_arith)
            requires
                bucket_rep(m, bucket_index(m, v)) == v,
        ;
    }
}

/// Representatives of in-range buckets fit in a u64: bucket `i < 2^m + k * 2^(m-1)`
/// represents values below `2^(m+k)`.
proof fn lemma_rep_bound(m: nat, i: nat, k: nat)
    requires
        1 <= m,
        i < pow2(m) + k * pow2((m - 1) as nat),
    ensures
        bucket_rep(m, i) < pow2(m + k),
    decreases k,
{
    lemma_pow2_split(m);
    if i < pow2(m) {
        assert(pow2(m) <= pow2(m + k)) by {
            if k > 0 {
                vstd::arithmetic::power2::lemma_pow2_strictly_increases(m, m + k);
            }
        }
    } else {
        assert(k > 0) by {
            if k == 0 {
                assert(i < pow2(m) + 0 * pow2((m - 1) as nat));
                assert(0 * pow2((m - 1) as nat) == 0) by (nonlinear_arith);
            }
        }
        let j = (i - pow2((m - 1) as nat)) as nat;
        assert(j < pow2(m) + (k - 1) * pow2((m - 1) as nat)) by (nonlinear_arith)
            requires
                i < pow2(m) + k * pow2((m - 1) as nat),
                i >= pow2(m),
                pow2(m) == 2 * pow2((m - 1) as nat),
                j == i - pow2((m - 1) as nat),
                k >= 1,
        ;
        lemma_rep_bound(m, j, (k - 1) as nat);
        assert(pow2(m + k) == pow2((m + k - 1) as nat) * 2) by {
            lemma_pow2_adds((m + k - 1) as nat, 1);
            lemma2_to64();
        }
        lemma_pow2_adds(m, (k - 1) as nat);
    }
}

/// The percentile engine's state: per-bucket counts, the sample count, and
/// the exact extremes of what was recorded. `recorded` is the ghost history
/// of every recorded value; the concrete fields are functions of it.
pub struct LatencyHistogram {
    /// `m`: base-2 log of the linear region's width.
    pub sub_bucket_bits: u32,
    /// `2^m`, kept concrete for the index computation.
    pub sub_bucket_count: u64,
    /// `2^(m-1)`.
    pub half_count: u64,
    /// One counter per bucket.
    pub counts: Vec<u64>,
    /// How many values were recorded.
    pub total: u64,
    /// Smallest recorded value (0 while empty).
    pub min_value: u64,
    /// Largest recorded value (0 while empty).
    pub max_value: u64,
    /// Ghost history of recorded values, in recording order.
    pub recorded: Ghost<Seq<u64>>,
}

impl LatencyHistogram {
    /// Shorthand for the configured `m`.
    pub open spec fn m(self) -> nat {
        self.sub_bucket_bits as nat
    }

    /// The engine's invariant: counters hold exactly the per-bucket tallies of
    /// the recorded history, `total` its length, and `min_value`/`max_value`
    /// its exact extremes.
    pub open spec fn wf(self) -> bool {
        &&& 1 <= self.sub_bucket_bits <= 20
        &&& self.sub_bucket_count == pow2(self.m())
        &&& self.half_count == pow2((self.m() - 1) as nat)
        &&& self.counts.len() == num_buckets(self.m())
        &&& self.total == self.recorded@.len()
        &&& forall|i: int|
            0 <= i < self.counts.len() ==> #[trigger] self.counts[i] == count_in_bucket(
                self.recorded@,
                self.m(),
                i,
            )
        &&& self.total == 0 ==> self.min_value == 0 && self.max_value == 0
        &&& self.total > 0 ==> self.recorded@.contains(self.min_value)
        &&& self.total > 0 ==> self.recorded@.contains(self.max_value)
        &&& forall|j: int|
            0 <= j < self.recorded@.len() ==> self.min_value <= #[trigger] self.recorded@[j]
                <= self.max_value
    }

    /// A fresh, empty histogram with `sigfigs` significant decimal digits of
    /// relative precision (`m = 3 * sigfigs + 2`, so `2^m >= 2 * 10^sigfigs`).
    pub fn new(sigfigs: u32) -> (h: Self)
        requires
            1 <= sigfigs <= 3,
        ensures
            h.wf(),
            h.recorded@ == Seq::<u64>::empty(),
            h.total == 0,
            h.sub_bucket_bits == 3 * sigfigs + 2,
    {
        proof {
            lemma2_to64();
        }
        let sub_bucket_bits = 3 * sigfigs + 2;
        let sub_bucket_count: u64;
        let half_count: u64;
        let n_buckets: usize;
        if sigfigs == 1 {
            sub_bucket_count = 32;
            half_count = 16;
            n_buckets = 976;
            assert(num_buckets(5) == 976);
        } else if sigfigs == 2 {
            sub_bucket_count = 256;
            half_count = 128;
            n_buckets = 7424;
            assert(num_buckets(8) == 7424);
        } else {
            sub_bucket_count = 2048;
            half_count = 1024;
            n_buckets = 56320;
            assert(num_buckets(11) == 56320);
        }
        assert(n_buckets == num_buckets(sub_bucket_bits as nat));
        let mut counts: Vec<u64> = Vec::new();
        let mut k: usize = 0;
        while k < n_buckets
            invariant
                counts.len() == k,
                k <= n_buckets,
                forall|i: int| 0 <= i < k ==> counts[i] == 0,
            decreases n_buckets - k,
        {
            counts.push(0);
            k = k + 1;
        }
        let h = LatencyHistogram {
            sub_bucket_bits,
            sub_bucket_count,
            half_count,
            counts,
            total: 0,
            min_value: 0,
            max_value: 0,
            recorded: Ghost(Seq::empty()),
        };
        proof {
            assert forall|i: int| 0 <= i < h.counts.len() implies #[trigger] h.counts[i]
                == count_in_bucket(h.recorded@, h.m(), i) by {
                reveal(Seq::filter);
            }
        }
        h
    }

    /// The bucket `v` lands in, as a vector index.
    fn index_of(&self, v: u64) -> (i: usize)
        requires
            self.wf(),
        ensures
            i == bucket_index(self.m(), v as nat),
            i < self.counts.len(),
    {
        proof {
            lemma2_to64();
            assert(v < pow2(64));
            assert(self.m() + (64 - self.m()) == 64);
            lemma_bucket_index_bound(self.m(), v as nat, (64 - self.m()) as nat);
        }
        let mut x = v;
        let mut acc: usize = 0;
        while x >= self.sub_bucket_count
            invariant
                self.wf(),
                acc + bucket_index(self.m(), x as nat) == bucket_index(self.m(), v as nat),
                bucket_index(self.m(), v as nat) < self.counts.len(),
            decreases x,
        {
            proof {
                lemma_pow2_pos((self.m() - 1) as nat);
            }
            acc = acc + (self.half_count as usize);
            x = x / 2;
        }
        acc + (x as usize)
    }

    /// Record one latency sample. Every u64 value is accepted; only the
    /// counter of its bucket and the tracked extremes change.
    pub fn record(&mut self, v: u64)
        requires
            old(self).wf(),
            old(self).total < u64::MAX,
        ensures
            final(self).wf(),
            final(self).recorded@ == old(self).recorded@.push(v),
            final(self).total == old(self).total + 1,
            final(self).sub_bucket_bits == old(self).sub_bucket_bits,
            final(self).min_value == if old(self).total == 0 || v < old(self).min_value {
                v
            } else {
                old(self).min_value
            },
            final(self).max_value == if old(self).total == 0 || v > old(self).max_value {
                v
            } else {
                old(self).max_value
            },
    {
        let i = self.index_of(v);
        proof {
            broadcast use Seq::lemma_filter_len;

            assert(count_in_bucket(self.recorded@, self.m(), i as int) <= self.recorded@.len());
        }
        let c = self.counts[i];
        self.counts.set(i, c + 1);
        if self.total == 0 {
            self.min_value = v;
            self.max_value = v;
        } else {
            if v < self.min_value {
                self.min_value = v;
            }
            if v > self.max_value {
                self.max_value = v;
            }
        }
        self.total = self.total + 1;
        proof {
            let ghost old_rec = self.recorded@;
            self.recorded@ = self.recorded@.push(v);
            broadcast use Seq::lemma_filter_push;
            broadcast use group_seq_properties;

            assert forall|j: int| 0 <= j < self.counts.len() implies #[trigger] self.counts[j]
                == count_in_bucket(self.recorded@, self.m(), j) by {
                let pred = |w: u64| bucket_index(self.m(), w as nat) == j;
                assert(old_rec.push(v).filter(pred) == if pred(v) {
                    old_rec.filter(pred).push(v)
                } else {
                    old_rec.filter(pred)
                });
            }
        }
    }

    /// How many samples the histogram holds.
    pub fn count(&self) -> (n: u64)
        ensures
            n == self.total,
    {
        self.total
    }

    /// The representative value of bucket `i`, computed by unwinding the
    /// log-linear layout.
    fn rep_of(&self, i: usize) -> (r: u64)
        requires
            self.wf(),
            i < self.counts.len(),
        ensures
            r == bucket_rep(self.m(), i as nat),
        decreases i,
    {
        proof {
            lemma_pow2_split(self.m());
            lemma_rep_bound(self.m(), i as nat, (64 - self.m()) as nat);
            lemma2_to64();
            assert(self.m() + (64 - self.m()) == 64);
        }
        if (i as u64) < self.sub_bucket_count {
            i as u64
        } else {
            let r2 = self.rep_of(i - (self.half_count as usize));
            proof {
                lemma_rep_bound(
                    self.m(),
                    (i - self.half_count) as nat,
                    (64 - self.m()) as nat,
                );
            }
            2 * r2 + 1
        }
    }

    /// The engine's answer for permille `q` of its samples: the representative
    /// of the first bucket whose cumulative count reaches the target rank
    /// `max(1, ceil(total * q / 1000))`, clamped into the recorded range.
    pub open spec fn quantile_spec(self, q: u64) -> u64 {
        if self.total == 0 {
            0u64
        } else {
            let stop = stop_index(self.counts@, target_spec(self.total as nat, q as nat), 0);
            let rep = bucket_rep(self.m(), stop);
            if rep > self.max_value {
                self.max_value
            } else if rep < self.min_value {
                self.min_value
            } else {
                rep as u64
            }
        }
    }

    /// An approximate value at permille `q` of the recorded samples, within
    /// the engine's precision. After zero samples the answer is zero. At
    /// least `max(1, ceil(total * q / 1000))` of the recorded values lie at
    /// or below the answer.
    pub fn value_at_quantile(&self, q: u64) -> (r: u64)
        requires
            self.wf(),
            q <= 1000,
        ensures
            r == self.quantile_spec(q),
            self.total > 0 ==> self.recorded@.filter(|v: u64| v <= r).len() >= target_spec(
                self.total as nat,
                q as nat,
            ),
    {
        if self.total == 0 {
            return 0;
        }
        assert(self.total as int * q as int <= u64::MAX as int * 1000) by (nonlinear_arith)
            requires
                self.total <= u64::MAX,
                q <= 1000,
        ;
        let prod: u128 = (self.total as u128) * (q as u128);
        let rank128: u128 = (prod + 999) / 1000;
        proof {
            lemma_rank_le_total(self.total as nat, q as nat);
        }
        let rank: u64 = rank128 as u64;
        let target: u64 = if rank == 0 {
            1
        } else {
            rank
        };
        let ghost tgt = target_spec(self.total as nat, q as nat);
        assert(target == tgt);
        proof {
            self.lemma_cum_full();
        }
        let mut i: usize = 0;
        let mut seen: u64 = 0;
        loop
            invariant
                self.wf(),
                self.total > 0,
                q <= 1000,
                tgt == target_spec(self.total as nat, q as nat),
                0 <= i < self.counts.len(),
                1 <= target <= self.total,
                target == tgt,
                cum_counts(self.counts@, self.counts@.len() - 1) == self.total,
                seen == cum_counts(self.counts@, i as int - 1),
                stop_index(self.counts@, tgt, 0) == stop_index(self.counts@, tgt, i as nat),
            ensures
                0 <= i < self.counts.len(),
                cum_counts(self.counts@, i as int) >= tgt,
                i as nat == stop_index(self.counts@, tgt, 0),
            decreases self.counts.len() - i,
        {
            proof {
                self.lemma_cum_le_total(i as int);
            }
            let seen_next = seen + self.counts[i];
            assert(seen_next == cum_counts(self.counts@, i as int));
            if seen_next >= target {
                break ;
            }
            if i + 1 == self.counts.len() {
                proof {
                    assert(cum_counts(self.counts@, i as int) == self.total);
                    assert(false);
                }
                break ;
            }
            seen = seen_next;
            i = i + 1;
        }
        let ghost stop = stop_index(self.counts@, tgt, 0);
        let rep = self.rep_of(i);
        let r = if rep > self.max_value {
            self.max_value
        } else if rep < self.min_value {
            self.min_value
        } else {
            rep
        };
        proof {
            self.lemma_rank_property(stop, tgt as nat, r);
        }
        r
    }

    /// At least `target` recorded values lie at or below the clamped
    /// representative of a stop bucket whose cumulative count reached
    /// `target`.
    proof fn lemma_rank_property(self, stop: nat, target: nat, r: u64)
        requires
            self.wf(),
            self.total > 0,
            cum_counts(self.counts@, stop as int) >= target,
            stop < self.counts.len(),
            r == ({
                let rep = bucket_rep(self.m(), stop);
                if rep > self.max_value {
                    self.max_value
                } else if rep < self.min_value {
                    self.min_value
                } else {
                    rep as u64
                }
            }),
        ensures
            self.recorded@.filter(|v: u64| v <= r).len() >= target,
    {
        let m = self.m();
        let s = self.recorded@;
        self.lemma_cum_eq_count_le(stop as int);
        let le_stop = |v: u64| bucket_index(m, v as nat) <= stop as int;
        let le_r = |v: u64| v <= r;
        assert forall|j: int| 0 <= j < s.len() && le_stop(s[j]) implies le_r(s[j]) by {
            let v = s[j];
            lemma_value_le_rep(m, v as nat);
            lemma_rep_monotone(m, bucket_index(m, v as nat), stop);
            // v <= bucket_rep(m, stop); v <= max_value by wf; and if the
            // representative fell below min_value, no value could sit in or
            // below the stop bucket at all.
            assert(v <= bucket_rep(m, stop));
            assert(self.min_value <= v <= self.max_value);
        }
        lemma_filter_implies_len(s, le_stop, le_r);
    }

    /// Cumulative bucket counts match the tally of recorded values in
    /// buckets up to `i`.
    proof fn lemma_cum_eq_count_le(self, i: int)
        requires
            self.wf(),
            i < self.counts.len(),
        ensures
            cum_counts(self.counts@, i) == count_le_bucket(self.recorded@, self.m(), i),
        decreases i + 1,
    {
        if i < 0 {
            self.recorded@.lemma_all_neg_filter_empty(
                |v: u64| bucket_index(self.m(), v as nat) <= i,
            );
        } else {
            self.lemma_cum_eq_count_le(i - 1);
            lemma_count_le_split(self.recorded@, self.m(), i);
        }
    }

    /// Cumulative counts never exceed the sample count.
    proof fn lemma_cum_le_total(self, i: int)
        requires
            self.wf(),
            i < self.counts.len(),
        ensures
            cum_counts(self.counts@, i) <= self.total,
    {
        self.lemma_cum_eq_count_le(i);
        broadcast use Seq::lemma_filter_len;

    }

    /// Every sample lands in some bucket, so the last cumulative count is the
    /// sample count itself.
    proof fn lemma_cum_full(self)
        requires
            self.wf(),
        ensures
            cum_counts(self.counts@, self.counts@.len() - 1) == self.total,
    {
        let m = self.m();
        let s = self.recorded@;
        let n = self.counts@.len() as int;
        self.lemma_cum_eq_count_le(n - 1);
        let pred = |v: u64| bucket_index(m, v as nat) <= n - 1;
        assert forall|j: int| 0 <= j < s.len() implies pred(#[trigger] s[j]) by {
            lemma2_to64();
            assert(m + (64 - m) == 64);
            lemma_bucket_index_bound(m, s[j] as nat, (64 - m) as nat);
        }
        lemma_filter_all(s, pred);
    }

    /// A non-empty histogram records a coherent range.
    proof fn lemma_min_le_max(self)
        requires
            self.wf(),
            self.total > 0,
        ensures
            self.min_value <= self.max_value,
    {
        let s = self.recorded@;
        assert(s.contains(self.min_value));
        let j = choose|j: int| 0 <= j < s.len() && s[j] == self.min_value;
        assert(self.min_value <= s[j] <= self.max_value);
    }

    /// Quantile answers never decrease as the queried permille grows: for
    /// every histogram, `p50 <= p90 <= p95 <= p99 <= p99.9`.
    pub proof fn lemma_quantile_monotone(self, q1: u64, q2: u64)
        requires
            self.wf(),
            q1 <= q2,
        ensures
            self.quantile_spec(q1) <= self.quantile_spec(q2),
    {
        if self.total > 0 {
            let t = self.total as nat;
            let m = self.m();
            assert(t * q1 <= t * q2) by (nonlinear_arith)
                requires
                    q1 <= q2,
                    t >= 0,
            ;
            vstd::arithmetic::div_mod::lemma_div_is_ordered(
                (t * q1 + 999) as int,
                (t * q2 + 999) as int,
                1000,
            );
            let tg1 = target_spec(t, q1 as nat);
            let tg2 = target_spec(t, q2 as nat);
            assert(tg1 <= tg2);
            lemma_pow2_split(m);
            assert((64 - m) * pow2((m - 1) as nat) >= 0) by (nonlinear_arith)
                requires
                    m <= 20,
                    pow2((m - 1) as nat) >= 0,
            ;
            assert(self.counts@.len() > 0);
            lemma_stop_index_monotone(self.counts@, tg1, tg2, 0);
            let stop1 = stop_index(self.counts@, tg1, 0);
            let stop2 = stop_index(self.counts@, tg2, 0);
            lemma_rep_monotone(m, stop1, stop2);
            self.lemma_min_le_max();
        }
    }

    /// Quantile answers of a non-empty histogram stay inside the recorded
    /// range: `min <= p50` and `p99.9 <= max`, whatever the permille.
    pub proof fn lemma_quantile_bounds(self, q: u64)
        requires
            self.wf(),
            self.total > 0,
        ensures
            self.min_value <= self.quantile_spec(q) <= self.max_value,
    {
        self.lemma_min_le_max();
    }

    /// Every quantile answer of a non-empty histogram is a real sample
    /// rounded up within the engine's precision: some recorded value lies at
    /// or below the answer and within a relative error of `2^(1-m)` of it -
    /// under one part in a thousand at the default three significant digits.
    pub proof fn lemma_quantile_near_sample(self, q: u64) -> (j: int)
        requires
            self.wf(),
            self.total > 0,
            q <= 1000,
        ensures
            0 <= j < self.recorded@.len(),
            self.recorded@[j] <= self.quantile_spec(q),
            (self.quantile_spec(q) - self.recorded@[j]) * pow2((self.m() - 1) as nat)
                <= self.recorded@[j],
    {
        let m = self.m();
        let s = self.recorded@;
        let c = self.counts@;
        let tgt = target_spec(self.total as nat, q as nat);
        lemma_rank_le_total(self.total as nat, q as nat);
        self.lemma_cum_full();
        lemma_stop_index_range(c, tgt, 0);
        lemma_stop_index_first(c, tgt, 0);
        lemma_stop_index_covers(c, tgt, 0);
        let stop = stop_index(c, tgt, 0);
        // The stop bucket itself holds at least one sample: the cumulative
        // count reaches the target exactly there, not before.
        assert(cum_counts(c, stop as int) >= tgt);
        assert(stop > 0 ==> cum_counts(c, stop as int - 1) < tgt);
        assert(cum_counts(c, stop as int) == cum_counts(c, stop as int - 1) + c[stop as int]);
        assert(c[stop as int] > 0);
        assert(count_in_bucket(s, m, stop as int) > 0);
        let j = lemma_filter_nonempty_witness(s, |v: u64| bucket_index(m, v as nat) == stop as int);
        let v = s[j];
        assert(bucket_index(m, v as nat) == stop);
        lemma_relative_error(m, v as nat);
        let rep = bucket_rep(m, stop);
        let h = pow2((m - 1) as nat);
        lemma_pow2_split(m);
        let r = self.quantile_spec(q);
        // The clamp into the recorded range only ever moves the answer
        // closer to the witness sample.
        if rep > self.max_value {
            assert(v <= self.max_value);
            assert((r - v) * h <= (rep - v) * h) by {
                vstd::arithmetic::mul::lemma_mul_inequality(
                    r - v,
                    (rep - v) as int,
                    h as int,
                );
            }
        } else if rep < self.min_value {
            assert(self.min_value <= v);
            assert(false);
        }
        j
    }

    /// The smallest recorded value; zero while no sample was recorded.
    pub fn min(&self) -> (v: u64)
        ensures
            v == self.min_value,
    {
        self.min_value
    }

    /// The largest recorded value; zero while no sample was recorded.
    pub fn max(&self) -> (v: u64)
        ensures
            v == self.max_value,
    {
        self.max_value
    }
}

} // verus!
