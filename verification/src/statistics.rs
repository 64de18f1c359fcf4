//! The figures that describe the latencies of one classifier.
//!
//! Latencies come in as whole microseconds. Every figure that goes out is a
//! whole number of hundredths of a microsecond, so that a mean or a standard
//! deviation keeps two decimal places without any rounding that depends on
//! the machine.

use vstd::arithmetic::div_mod::{
    lemma_div_denominator,
    lemma_div_is_ordered,
    lemma_div_multiples_vanish,
    lemma_fundamental_div_mod,
    lemma_hoist_over_denominator,
};
use vstd::prelude::*;
use vstd::seq_lib::*;
use crate::sorting::{
    ascending,
    lemma_ascending,
    lemma_ascending_permutation,
    sorted_copy,
};

verus! {

/// How many hundredths make one microsecond.
pub const HUNDREDTHS: u64 = 100;

/// The largest latency a sample can hold, in microseconds.
pub const MAX_LATENCY: u32 = 0xFFFF_FFFF;

/// The figures of one classifier. All latencies are in hundredths of a
/// microsecond.
#[derive(Clone, Copy, Debug, PartialEq, Eq, Structural)]
pub struct Statistics {
    /// The classifier: an HTTP status code, or the marker for a request that
    /// got no response.
    pub code: u16,
    /// How many samples the figures are taken from.
    pub requests: u64,
    /// The smallest latency.
    pub min: u64,
    /// The largest latency.
    pub max: u64,
    /// The arithmetic mean, rounded to the nearest hundredth.
    pub mean: u64,
    /// The population standard deviation, rounded to the nearest hundredth.
    pub sd: u64,
    /// The 90th percentile.
    pub p90: u64,
    /// The 99th percentile.
    pub p99: u64,
}

/// `Statistics` as unbounded numbers.
pub struct StatisticsView {
    pub code: u16,
    pub requests: nat,
    pub min: int,
    pub max: int,
    pub mean: int,
    pub sd: int,
    pub p90: int,
    pub p99: int,
}

impl View for Statistics {
    type V = StatisticsView;

    open spec fn view(&self) -> StatisticsView {
        StatisticsView {
            code: self.code,
            requests: self.requests as nat,
            min: self.min as int,
            max: self.max as int,
            mean: self.mean as int,
            sd: self.sd as int,
            p90: self.p90 as int,
            p99: self.p99 as int,
        }
    }
}

/// Adds one latency to a running sum.
pub open spec fn add_latency() -> spec_fn(int, u32) -> int {
    |acc: int, x: u32| acc + x
}

/// The sum of all samples.
pub open spec fn total(s: Seq<u32>) -> int {
    s.fold_left(0int, add_latency())
}

/// Adds the square of `n * x - sum` to a running sum.
pub open spec fn add_deviation(n: int, sum: int) -> spec_fn(int, u32) -> int {
    |acc: int, x: u32| acc + (n * x - sum) * (n * x - sum)
}

/// The sum of the squares of `n * x - sum`, over the samples `x`.
pub open spec fn deviation_squares(s: Seq<u32>, n: int, sum: int) -> int {
    s.fold_left(0int, add_deviation(n, sum))
}

/// The sum of the squared distances between each sample and the mean, times
/// the square of the number of samples: with `n` samples that sum to `S`,
/// the mean is `S / n`, and the distance of a sample `x` from it is
/// `(n * x - S) / n`.
pub open spec fn variance_numerator(s: Seq<u32>) -> int {
    deviation_squares(s, s.len() as int, total(s))
}

/// The position, in the ascending samples, of the given percentile: the
/// smallest whole number that is at least `percent / 100 * n`, less one, and
/// kept inside `0 ..= n - 1`.
pub open spec fn rank(n: int, percent: int) -> int {
    let i = (percent * n + 99) / 100 - 1;
    if i < 0 {
        0
    } else if i > n - 1 {
        n - 1
    } else {
        i
    }
}

/// `r` is the square root of `v`, rounded down.
pub open spec fn is_int_sqrt(r: int, v: int) -> bool {
    0 <= r && r * r <= v < (r + 1) * (r + 1)
}

/// The square root of `v`, rounded down.
pub open spec fn int_sqrt(v: int) -> int {
    choose|r: int| is_int_sqrt(r, v)
}

/// The mean of the samples in hundredths, rounded to the nearest whole
/// number, and up where two are equally near: `100 * total / n + 1 / 2`,
/// rounded down.
pub open spec fn mean_of(s: Seq<u32>) -> int {
    let n = s.len() as int;
    (200 * total(s) + n) / (2 * n)
}

/// Four times the population variance of the samples in squared
/// hundredths, rounded down. The variance is the sum of the squared
/// distances from the mean, over the number of samples, and a squared
/// microsecond is 10000 squared hundredths.
pub open spec fn fourfold_variance(s: Seq<u32>) -> int {
    let n = s.len() as int;
    (40000 * variance_numerator(s)) / (n * n * n)
}

/// `k` is the whole number nearest to the square root of a quarter of
/// `quadruple`, and the upper one where two are equally near: the root lies
/// between `k - 1 / 2` and `k + 1 / 2`.
pub open spec fn is_nearest_root(k: int, quadruple: int) -> bool {
    &&& 0 <= k
    &&& k == 0 || (2 * k - 1) * (2 * k - 1) <= quadruple
    &&& quadruple < (2 * k + 1) * (2 * k + 1)
}

/// The population standard deviation of the samples in hundredths, rounded
/// to the nearest whole number: half of the square root of four times the
/// variance, rounded.
pub open spec fn deviation_of(s: Seq<u32>) -> int {
    (int_sqrt(fourfold_variance(s)) + 1) / 2
}

/// Half of the square root of a number, rounded down and then rounded to
/// the nearest whole number, is the whole number nearest to the square root
/// of a quarter of that number.
pub proof fn lemma_nearest_root(root: int, quadruple: int)
    requires
        is_int_sqrt(root, quadruple),
    ensures
        is_nearest_root((root + 1) / 2, quadruple),
{
    let k = (root + 1) / 2;
    if root == 2 * k {
        assert((2 * k - 1) * (2 * k - 1) <= (2 * k) * (2 * k) || k == 0) by (nonlinear_arith)
            requires
                0 <= k,
        ;
    } else {
        assert(root == 2 * k - 1);
        assert((2 * k) * (2 * k) <= (2 * k + 1) * (2 * k + 1)) by (nonlinear_arith)
            requires
                0 <= k,
        ;
    }
}

/// The samples are all the same.
pub open spec fn all_equal(s: Seq<u32>, x: u32) -> bool {
    forall|i: int| 0 <= i < s.len() ==> #[trigger] s[i] == x
}

/// Samples that are all the same deviate from nothing.
proof fn lemma_no_deviation(s: Seq<u32>, n: int, x: u32)
    requires
        all_equal(s, x),
    ensures
        deviation_squares(s, n, n * x) == 0,
    decreases s.len(),
{
    if s.len() > 0 {
        let t = s.drop_last();
        assert forall|i: int| 0 <= i < t.len() implies #[trigger] t[i] == x by {
            assert(t[i] == s[i]);
        }
        lemma_no_deviation(t, n, x);
        assert(s.last() == x);
        assert((n * x - n * x) * (n * x - n * x) == 0);
    }
}

/// Where every request took equally long, that time is the smallest and
/// the largest latency, the mean and every percentile, and the standard
/// deviation is zero. A single sample is such a case.
pub proof fn lemma_uniform_figures(code: u16, s: Seq<u32>, x: u32)
    requires
        s.len() > 0,
        all_equal(s, x),
    ensures
        statistics_of(code, s) == (StatisticsView {
            code,
            requests: s.len(),
            min: 100 * x,
            max: 100 * x,
            mean: 100 * x,
            sd: 0,
            p90: 100 * x,
            p99: 100 * x,
        }),
{
    broadcast use group_to_multiset_ensures;

    let sorted = ascending(s);
    let n = s.len() as int;
    lemma_ascending(s);
    assert forall|i: int| 0 <= i < sorted.len() implies #[trigger] sorted[i] == x by {
        assert(sorted.contains(sorted[i]));
        assert(s.to_multiset().count(sorted[i]) > 0);
        assert(s.contains(sorted[i]));
    }
    lemma_total_between(s, x as int, x as int);
    assert(200 * (n * x) + n == n + (100 * x) * (2 * n)) by (nonlinear_arith);
    lemma_hoist_over_denominator(n, 100 * x, (2 * n) as nat);
    vstd::arithmetic::div_mod::lemma_basic_div(n, 2 * n);
    lemma_no_deviation(s, n, x);
    assert(n * n * n > 0) by (nonlinear_arith)
        requires
            n > 0,
    ;
    vstd::arithmetic::div_mod::lemma_div_of0(n * n * n);
    assert(is_int_sqrt(0, 0));
    lemma_int_sqrt_is(0, 0);
}

/// The figures of the samples `s` under the classifier `code`.
pub open spec fn statistics_of(code: u16, s: Seq<u32>) -> StatisticsView {
    let sorted = ascending(s);
    let n = s.len() as int;
    StatisticsView {
        code,
        requests: s.len(),
        min: 100 * sorted[0],
        max: 100 * sorted[n - 1],
        mean: mean_of(s),
        sd: deviation_of(s),
        p90: 100 * sorted[rank(n, 90)],
        p99: 100 * sorted[rank(n, 99)],
    }
}

/// Adds the square of `x - q` to a running sum.
pub open spec fn add_centered(q: int) -> spec_fn(int, u32) -> int {
    |acc: int, x: u32| acc + (x - q) * (x - q)
}

/// The sum of the squares of `x - q`, over the samples `x`.
pub open spec fn centered_squares(s: Seq<u32>, q: int) -> int {
    s.fold_left(0int, add_centered(q))
}

/// A number has one square root rounded down, at most.
pub proof fn lemma_int_sqrt_unique(a: int, b: int, v: int)
    requires
        is_int_sqrt(a, v),
        is_int_sqrt(b, v),
    ensures
        a == b,
{
    if a < b {
        assert((a + 1) * (a + 1) <= b * b) by (nonlinear_arith)
            requires
                0 <= a,
                a + 1 <= b,
        ;
    } else if b < a {
        assert((b + 1) * (b + 1) <= a * a) by (nonlinear_arith)
            requires
                0 <= b,
                b + 1 <= a,
        ;
    }
}

/// What satisfies `is_int_sqrt` is `int_sqrt`.
pub proof fn lemma_int_sqrt_is(r: int, v: int)
    requires
        is_int_sqrt(r, v),
    ensures
        int_sqrt(v) == r,
{
    lemma_int_sqrt_unique(int_sqrt(v), r, v);
}

/// Every number that is not negative has a square root rounded down.
pub proof fn lemma_int_sqrt_exists(v: int)
    requires
        0 <= v,
    ensures
        is_int_sqrt(int_sqrt(v), v),
    decreases v,
{
    if v == 0 {
        assert(is_int_sqrt(0, 0));
    } else {
        lemma_int_sqrt_exists(v - 1);
        let r = int_sqrt(v - 1);
        if (r + 1) * (r + 1) <= v {
            assert((r + 2) * (r + 2) > (r + 1) * (r + 1)) by (nonlinear_arith)
                requires
                    0 <= r,
            ;
            assert(is_int_sqrt(r + 1, v));
        } else {
            assert(is_int_sqrt(r, v));
        }
    }
}

/// The variance is not negative.
pub proof fn lemma_variance_nonnegative(s: Seq<u32>)
    requires
        s.len() > 0,
    ensures
        0 <= fourfold_variance(s),
{
    let n = s.len() as int;
    lemma_deviation_squares_nonnegative(s, n, total(s));
    assert(n * n * n > 0) by (nonlinear_arith)
        requires
            n > 0,
    ;
    vstd::arithmetic::div_mod::lemma_div_pos_is_pos(40000 * variance_numerator(s), n * n * n);
}

/// The figures of any non-empty set of samples are consistent: they count
/// every sample, the percentiles lie between the extremes and in order, so
/// does the mean, and the standard deviation is the whole number nearest to
/// the square root of a variance that is not negative.
pub proof fn lemma_figures_consistent(code: u16, s: Seq<u32>)
    requires
        s.len() > 0,
    ensures
        statistics_of(code, s).requests == s.len(),
        0 <= statistics_of(code, s).min <= statistics_of(code, s).p90,
        statistics_of(code, s).p90 <= statistics_of(code, s).p99,
        statistics_of(code, s).p99 <= statistics_of(code, s).max,
        statistics_of(code, s).min <= statistics_of(code, s).mean <= statistics_of(code, s).max,
        0 <= statistics_of(code, s).sd,
        is_nearest_root(statistics_of(code, s).sd, fourfold_variance(s)),
{
    lemma_ascending(s);
    lemma_variance_nonnegative(s);
    lemma_int_sqrt_exists(fourfold_variance(s));
    lemma_nearest_root(int_sqrt(fourfold_variance(s)), fourfold_variance(s));
    lemma_mean_between_extremes(code, s);
}

/// The sum of samples that all lie between `low` and `high` lies between
/// as many times `low` and as many times `high`.
proof fn lemma_total_between(s: Seq<u32>, low: int, high: int)
    requires
        forall|i: int| 0 <= i < s.len() ==> low <= #[trigger] s[i] <= high,
    ensures
        s.len() * low <= total(s) <= s.len() * high,
    decreases s.len(),
{
    if s.len() > 0 {
        let t = s.drop_last();
        assert forall|i: int| 0 <= i < t.len() implies low <= #[trigger] t[i] <= high by {
            assert(t[i] == s[i]);
        }
        lemma_total_between(t, low, high);
        let k = t.len() as int;
        assert((k + 1) * low == k * low + low) by (nonlinear_arith);
        assert((k + 1) * high == k * high + high) by (nonlinear_arith);
    } else {
        assert(0 * low == 0);
        assert(0 * high == 0);
    }
}

/// The mean lies between the smallest and the largest latency.
pub proof fn lemma_mean_between_extremes(code: u16, s: Seq<u32>)
    requires
        s.len() > 0,
    ensures
        statistics_of(code, s).min <= statistics_of(code, s).mean <= statistics_of(code, s).max,
{
    let sorted = ascending(s);
    let n = s.len() as int;
    lemma_ascending(s);
    let low = sorted[0] as int;
    let high = sorted[n - 1] as int;
    lemma_total_between(sorted, low, high);
    lemma_fold_left_permutation(sorted, s, add_latency(), 0int);
    let t = total(s);
    assert(200 * (n * low) + n == n + (100 * low) * (2 * n)) by (nonlinear_arith);
    assert(200 * (n * high) + n == n + (100 * high) * (2 * n)) by (nonlinear_arith);
    lemma_hoist_over_denominator(n, 100 * low, (2 * n) as nat);
    lemma_hoist_over_denominator(n, 100 * high, (2 * n) as nat);
    vstd::arithmetic::div_mod::lemma_basic_div(n, 2 * n);
    lemma_div_is_ordered(200 * (n * low) + n, 200 * t + n, 2 * n);
    lemma_div_is_ordered(200 * t + n, 200 * (n * high) + n, 2 * n);
}

/// The figures do not depend on the order in which the samples come: two
/// sequences that hold the same samples, each as often as the other, have
/// the same figures.
pub proof fn lemma_figures_ignore_order(code: u16, s: Seq<u32>, t: Seq<u32>)
    requires
        s.to_multiset() == t.to_multiset(),
    ensures
        statistics_of(code, s) == statistics_of(code, t),
{
    to_multiset_len(s);
    to_multiset_len(t);
    lemma_ascending_permutation(s, t);
    lemma_fold_left_permutation(s, t, add_latency(), 0int);
    let n = s.len() as int;
    lemma_fold_left_permutation(s, t, add_deviation(n, total(s)), 0int);
}

/// Computed again from the same samples in another order, the figures come
/// out the same to the last bit.
pub proof fn lemma_aggregate_ignores_order(
    first: Statistics,
    second: Statistics,
    code: u16,
    s: Seq<u32>,
    t: Seq<u32>,
)
    requires
        s.to_multiset() == t.to_multiset(),
        first@ == statistics_of(code, s),
        second@ == statistics_of(code, t),
    ensures
        first == second,
{
    lemma_figures_ignore_order(code, s, t);
}

/// A sum of squares is not negative.
proof fn lemma_deviation_squares_nonnegative(s: Seq<u32>, n: int, sum: int)
    ensures
        0 <= deviation_squares(s, n, sum),
    decreases s.len(),
{
    if s.len() > 0 {
        lemma_deviation_squares_nonnegative(s.drop_last(), n, sum);
        let d = n * s.last() - sum;
        assert(d * d >= 0) by (nonlinear_arith);
    }
}

/// Deviations from the mean, written over deviations from any whole number
/// `q`: with `sum == n * q + r`,
/// `(n * x - sum)^2 == n^2 * (x - q)^2 - 2 * n * r * (x - q) + r^2`,
/// summed over the samples.
proof fn lemma_centering(s: Seq<u32>, n: int, q: int, r: int)
    ensures
        deviation_squares(s, n, n * q + r) == n * n * centered_squares(s, q) - 2 * n * r * (total(s)
            - s.len() * q) + s.len() * (r * r),
    decreases s.len(),
{
    if s.len() == 0 {
        assert(n * n * 0 == 0);
        assert(2 * n * r * (0 - 0 * q) == 0) by (nonlinear_arith);
        assert(0 * (r * r) == 0);
    } else {
        let t = s.drop_last();
        let x = s.last() as int;
        lemma_centering(t, n, q, r);
        let cs = centered_squares(t, q);
        let tt = total(t);
        let len = t.len() as int;
        assert(total(s) == tt + x);
        assert(centered_squares(s, q) == cs + (x - q) * (x - q));
        assert(deviation_squares(s, n, n * q + r) == deviation_squares(t, n, n * q + r) + (n * x
            - (n * q + r)) * (n * x - (n * q + r)));
        let a = x - q;
        let k = n * n;
        let m = 2 * n * r;
        let e = r * r;
        let spread = tt - len * q;
        assert((n * x - (n * q + r)) * (n * x - (n * q + r)) == k * (a * a) - m * a + e)
            by (nonlinear_arith)
            requires
                a == x - q,
                k == n * n,
                m == 2 * n * r,
                e == r * r,
        ;
        assert((tt + x) - (len + 1) * q == spread + a) by (nonlinear_arith)
            requires
                a == x - q,
                spread == tt - len * q,
        ;
        assert(k * (cs + a * a) == k * cs + k * (a * a)) by (nonlinear_arith);
        assert(m * (spread + a) == m * spread + m * a) by (nonlinear_arith);
        assert((len + 1) * e == len * e + e) by (nonlinear_arith);
    }
}

/// Four times the variance in squared hundredths, from the sum of squared deviations
/// about the whole part `q` of the mean and the remainder `r` of the mean.
proof fn lemma_variance_centered(s: Seq<u32>, q: int, r: int)
    requires
        s.len() > 0,
        total(s) == s.len() * q + r,
    ensures
        s.len() * centered_squares(s, q) - r * r >= 0,
        fourfold_variance(s) == (40000 * (s.len() * centered_squares(s, q) - r * r)) / ((s.len() as int)
            * (s.len() as int)),
{
    let n = s.len() as int;
    let s2 = centered_squares(s, q);
    let big = n * s2 - r * r;
    lemma_centering(s, n, q, r);
    lemma_deviation_squares_nonnegative(s, n, n * q + r);
    assert(variance_numerator(s) == n * big) by (nonlinear_arith)
        requires
            variance_numerator(s) == n * n * s2 - 2 * n * r * (total(s) - n * q) + n * (r * r),
            total(s) == n * q + r,
            big == n * s2 - r * r,
    ;
    assert(big >= 0) by (nonlinear_arith)
        requires
            n * big >= 0,
            n > 0,
    ;
    let x = 40000 * (n * big);
    assert(x == n * (40000 * big)) by (nonlinear_arith)
        requires
            x == 40000 * (n * big),
    ;
    assert(x >= 0) by (nonlinear_arith)
        requires
            x == 40000 * (n * big),
            n > 0,
            big >= 0,
    ;
    assert(n * n > 0) by (nonlinear_arith)
        requires
            n > 0,
    ;
    lemma_div_denominator(x, n, n * n);
    lemma_div_multiples_vanish(40000 * big, n);
    assert(n * (n * n) == n * n * n) by (nonlinear_arith);
}

/// The steps by which `scaled_variance` divides without leaving 128 bits.
proof fn lemma_variance_steps(
    n: int,
    s2: int,
    rr: int,
    u: int,
    v: int,
    c: int,
    b: int,
    f: int,
    num: int,
)
    requires
        n > 0,
        n * s2 - rr >= 0,
        s2 == u * n + v,
        c * n == rr + b,
        f == (40000 * b) / n,
        num == 40000 * (n + v - c) + f,
    ensures
        (40000 * (n * s2 - rr)) / (n * n) == 40000 * u + num / n - 40000,
{
    let x = 40000 * (n * s2 - rr);
    assert(x >= 0);
    lemma_div_denominator(x, n, n);
    let j = 40000 * s2 - 40000 * c;
    assert(x == 40000 * b + j * n) by (nonlinear_arith)
        requires
            x == 40000 * (n * s2 - rr),
            c * n == rr + b,
            j == 40000 * s2 - 40000 * c,
    ;
    lemma_hoist_over_denominator(40000 * b, j, n as nat);
    assert(x / n == f + j);
    let k = 40000 * u - 40000;
    assert(f + j == num + k * n) by (nonlinear_arith)
        requires
            j == 40000 * s2 - 40000 * c,
            s2 == u * n + v,
            num == 40000 * (n + v - c) + f,
            k == 40000 * u - 40000,
    ;
    lemma_hoist_over_denominator(num, k, n as nat);
}

/// The sum of the samples.
fn sum_latencies(samples: &Vec<u32>) -> (sum: u128)
    ensures
        sum == total(samples@),
        sum <= samples@.len() * 0xFFFF_FFFF,
{
    let mut sum: u128 = 0;
    let mut i: usize = 0;
    while i < samples.len()
        invariant
            i <= samples.len(),
            sum == total(samples@.take(i as int)),
            sum <= i * 0xFFFF_FFFF,
        decreases samples.len() - i,
    {
        proof {
            assert(samples@.take(i + 1).drop_last() =~= samples@.take(i as int));
        }
        sum = sum + samples[i] as u128;
        i += 1;
    }
    proof {
        assert(samples@.take(i as int) =~= samples@);
    }
    sum
}

/// The sum of the squared distances between each sample and `q`.
fn sum_centered_squares(samples: &Vec<u32>, q: u32) -> (s2: u128)
    ensures
        s2 == centered_squares(samples@, q as int),
        s2 <= samples@.len() * 0xFFFF_FFFE_0000_0001,
{
    let mut s2: u128 = 0;
    let mut i: usize = 0;
    while i < samples.len()
        invariant
            i <= samples.len(),
            s2 == centered_squares(samples@.take(i as int), q as int),
            s2 <= i * 0xFFFF_FFFE_0000_0001,
        decreases samples.len() - i,
    {
        let x: u32 = samples[i];
        let d: u64 = if x >= q {
            (x - q) as u64
        } else {
            (q - x) as u64
        };
        proof {
            assert(samples@.take(i + 1).drop_last() =~= samples@.take(i as int));
            assert(d * d <= 0xFFFF_FFFE_0000_0001) by (nonlinear_arith)
                requires
                    d <= 0xFFFF_FFFF,
            ;
            assert(d * d == (x - q) * (x - q)) by (nonlinear_arith)
                requires
                    d == x - q || d == q - x,
            ;
        }
        let square: u64 = d * d;
        s2 = s2 + square as u128;
        i += 1;
    }
    proof {
        assert(samples@.take(i as int) =~= samples@);
    }
    s2
}

/// Four times the variance in squared hundredths, rounded down, of `n` samples whose
/// squared distances from `q` sum to `s2`, where the samples themselves sum
/// to `n * q + r`.
fn scaled_variance(n: u128, s2: u128, r: u128) -> (variance: u128)
    requires
        0 < n <= 0xFFFF_FFFF_FFFF_FFFF,
        r < n,
        s2 <= n * 0xFFFF_FFFE_0000_0001,
        n * s2 - r * r >= 0,
    ensures
        variance == (40000 * (n * s2 - r * r)) / (n * n),
        variance < 0x1_0000_0000_0000_0000_0000,
{
    let u: u128 = s2 / n;
    let v: u128 = s2 % n;
    proof {
        lemma_fundamental_div_mod(s2 as int, n as int);
        lemma_div_is_ordered(s2 as int, n * 0xFFFF_FFFE_0000_0001, n as int);
        lemma_div_multiples_vanish(0xFFFF_FFFE_0000_0001, n as int);
        assert(n * (s2 / n) == (s2 / n) * n) by (nonlinear_arith);
        assert(r * r <= (n - 1) * (n - 1)) by (nonlinear_arith)
            requires
                0 <= r <= n - 1,
        ;
        assert((n - 1) * (n - 1) == n * n - 2 * n + 1) by (nonlinear_arith);
        assert(n * n <= 0xFFFF_FFFF_FFFF_FFFF * 0xFFFF_FFFF_FFFF_FFFF) by (nonlinear_arith)
            requires
                0 < n <= 0xFFFF_FFFF_FFFF_FFFF,
        ;
    }
    let rr: u128 = r * r;
    let c: u128 = (rr + (n - 1)) / n;
    proof {
        lemma_fundamental_div_mod(rr + (n - 1), n as int);
        assert(n * c == c * n) by (nonlinear_arith);
        assert(c < n) by (nonlinear_arith)
            requires
                c * n <= rr + (n - 1),
                rr <= n * n - 2 * n + 1,
                n > 0,
        ;
    }
    let b: u128 = c * n - rr;
    let f: u128 = (40000 * b) / n;
    let num: u128 = 40000 * (n + v - c) + f;
    proof {
        lemma_variance_steps(
            n as int,
            s2 as int,
            rr as int,
            u as int,
            v as int,
            c as int,
            b as int,
            f as int,
            num as int,
        );
        let x = 40000 * (n * s2 - rr);
        assert(n * n > 0) by (nonlinear_arith)
            requires
                n > 0,
        ;
        assert(x / (n * n) >= 0) by {
            vstd::arithmetic::div_mod::lemma_div_pos_is_pos(x, n * n);
        }
        lemma_div_is_ordered(40000 * b, 40000 * n, n as int);
        lemma_div_multiples_vanish(40000, n as int);
        lemma_div_is_ordered(num as int, 120000 * n, n as int);
        lemma_div_multiples_vanish(120000, n as int);
    }
    40000 * u + num / n - 40000
}

/// The square root of `v`, rounded down.
fn isqrt(v: u128) -> (r: u64)
    requires
        v < 0x1_0000_0000_0000_0000_0000,
    ensures
        is_int_sqrt(r as int, v as int),
        r < 0x100_0000_0000,
{
    let mut lo: u128 = 0;
    let mut hi: u128 = 0x100_0000_0000;
    assert(hi * hi == 0x1_0000_0000_0000_0000_0000) by (nonlinear_arith)
        requires
            hi == 0x100_0000_0000,
    ;
    assert(lo * lo == 0) by (nonlinear_arith)
        requires
            lo == 0,
    ;
    while hi - lo > 1
        invariant
            lo < hi <= 0x100_0000_0000,
            lo * lo <= v,
            v < hi * hi,
        decreases hi - lo,
    {
        let mid: u128 = lo + (hi - lo) / 2;
        assert(mid * mid <= 0x100_0000_0000 * 0x100_0000_0000) by (nonlinear_arith)
            requires
                mid <= 0x100_0000_0000,
        ;
        if mid * mid <= v {
            lo = mid;
        } else {
            hi = mid;
        }
    }
    lo as u64
}

/// The position of a percentile among `n` ascending samples.
fn percentile_index(n: usize, percent: u8) -> (i: usize)
    requires
        n > 0,
        1 <= percent <= 100,
    ensures
        i == rank(n as int, percent as int),
        i < n,
{
    assert(n <= percent * n <= 100 * n) by (nonlinear_arith)
        requires
            1 <= percent <= 100,
            n > 0,
    ;
    let scaled: u128 = percent as u128 * n as u128 + 99;
    let i: u128 = scaled / 100 - 1;
    i as usize
}

/// A sample as a figure of the report: in hundredths of a microsecond.
fn in_hundredths(latency: u32) -> (h: u64)
    ensures
        h == 100 * latency,
{
    HUNDREDTHS * latency as u64
}

/// Computes the figures of one classifier from all its samples.
///
/// The samples may come in any order. There has to be at least one: a
/// classifier that was never seen has no figures.
pub fn aggregate(code: u16, samples: &Vec<u32>) -> (stats: Statistics)
    requires
        samples@.len() > 0,
    ensures
        stats@ == statistics_of(code, samples@),
        stats.requests == samples@.len(),
        stats.min <= stats.p90 <= stats.p99 <= stats.max,
        stats.min <= stats.mean <= stats.max,
{
    proof {
        lemma_figures_consistent(code, samples@);
    }
    let count: usize = samples.len();
    let n: u128 = count as u128;
    let sorted = sorted_copy(samples);
    let i90: usize = percentile_index(count, 90);
    let i99: usize = percentile_index(count, 99);

    let sum: u128 = sum_latencies(samples);
    let q: u128 = sum / n;
    let r: u128 = sum % n;
    proof {
        lemma_fundamental_div_mod(sum as int, n as int);
        lemma_div_is_ordered(sum as int, n * 0xFFFF_FFFF, n as int);
        lemma_div_multiples_vanish(0xFFFF_FFFF, n as int);
        assert(n * q == q * n) by (nonlinear_arith);
        assert(n * q == samples@.len() * q);
        lemma_hoist_over_denominator(200 * r + n, 100 * q, (2 * n) as nat);
        assert(200 * r + n + (100 * q) * (2 * n) == 200 * sum + n) by (nonlinear_arith)
            requires
                sum == n * q + r,
        ;
        lemma_div_is_ordered(200 * r + n, 101 * (2 * n), 2 * n);
        lemma_div_multiples_vanish(101, 2 * n);
    }
    let mean: u128 = 100 * q + (200 * r + n) / (2 * n);

    let s2: u128 = sum_centered_squares(samples, q as u32);
    proof {
        lemma_variance_centered(samples@, q as int, r as int);
    }
    let variance: u128 = scaled_variance(n, s2, r);
    let root: u64 = isqrt(variance);
    proof {
        assert(n * n == (samples@.len() as int) * (samples@.len() as int));
        lemma_int_sqrt_is(root as int, fourfold_variance(samples@));
    }
    let sd: u64 = (root + 1) / 2;
    Statistics {
        code,
        requests: count as u64,
        min: in_hundredths(sorted[0]),
        max: in_hundredths(sorted[count - 1]),
        mean: mean as u64,
        sd,
        p90: in_hundredths(sorted[i90]),
        p99: in_hundredths(sorted[i99]),
    }
}

} // verus!
