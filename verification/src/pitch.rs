//! Pitch estimation by normalised autocorrelation.
//!
//! The window is freed of its DC offset, correlated with itself at every lag
//! of the search band, and the lag of the strongest correlation gives the
//! period. A detection is accepted only when that correlation is strong and
//! stands clear of the correlation at every other lag.

use crate::level::{isqrt, lemma_sqrt_floor_exists, lemma_sqrt_floor_is, sqrt_floor};
use vstd::prelude::*;

verus! {

/// Lowest frequency of interest, in hertz.
pub const MIN_FREQUENCY: u32 = 35;

/// Highest frequency of interest, in hertz.
pub const MAX_FREQUENCY: u32 = 400;

/// Shortest window, in samples, on which a pitch is estimated.
pub const MIN_WINDOW: usize = 2048;

/// Longest window, in samples, whose correlation sums fit the accumulators.
pub const MAX_WINDOW: usize = 0x100_0000;

/// A correlation of 1.0 on the fixed-point scale of correlations.
pub const CORRELATION_SCALE: i32 = 1_000_000;

/// The best correlation must exceed this (0.3) for a detection to stand.
pub const MIN_CORRELATION: i32 = 300_000;

/// The best correlation must exceed the second best by more than this (0.1).
pub const MIN_CLARITY: i32 = 100_000;

/// One sample of lag on the fixed-point scale of refined lags.
pub const LAG_SCALE: i64 = 1000;

/// Largest magnitude of a sample after the mean was subtracted.
pub const MAX_CENTERED: i32 = 0xFFFF;

/// The sum of all samples of `xs`.
pub open spec fn sum(xs: Seq<i16>) -> int
    decreases xs.len(),
{
    if xs.len() == 0 {
        0
    } else {
        sum(xs.drop_last()) + xs.last()
    }
}

/// The mean of `xs`, rounded down; 0 for an empty window.
pub open spec fn mean_floor(xs: Seq<i16>) -> int {
    if xs.len() == 0 {
        0
    } else {
        sum(xs) / (xs.len() as int)
    }
}

/// The window with its mean subtracted from every sample.
pub open spec fn centered(xs: Seq<i16>) -> Seq<int> {
    Seq::new(xs.len(), |i: int| xs[i] - mean_floor(xs))
}

/// The values of `s` as mathematical integers.
pub open spec fn ints(s: Seq<i32>) -> Seq<int> {
    Seq::new(s.len(), |i: int| s[i] as int)
}

/// The sum of `cs[a + i] * cs[b + i]` over `0 <= i < n`.
pub open spec fn cross(cs: Seq<int>, a: int, b: int, n: nat) -> int
    decreases n,
{
    if n == 0 {
        0
    } else {
        cross(cs, a, b, (n - 1) as nat) + cs[a + n - 1] * cs[b + n - 1]
    }
}

/// The normalised correlation of `cs` with itself shifted by `lag`, in
/// millionths: the cross sum of the two overlapping stretches over the root
/// of the product of their energies, rounded toward zero; 0 where either
/// stretch has no energy.
pub open spec fn correlation(cs: Seq<int>, lag: int) -> int {
    let m = (cs.len() - lag) as nat;
    let num = cross(cs, 0, lag, m);
    let den = sqrt_floor((cross(cs, 0, 0, m) * cross(cs, lag, lag, m)) as nat);
    if den == 0 {
        0
    } else if num >= 0 {
        num * CORRELATION_SCALE as int / (den as int)
    } else {
        -((-num) * CORRELATION_SCALE as int / (den as int))
    }
}

/// Whether every value of `cs` lies within `MAX_CENTERED` of zero, as every
/// sample does once a mean of samples was subtracted from it.
pub open spec fn is_centered(cs: Seq<int>) -> bool {
    forall|i: int| 0 <= i < cs.len() ==> -(MAX_CENTERED as int) <= #[trigger] cs[i] <= MAX_CENTERED as int
}

proof fn lemma_sum_bounds(xs: Seq<i16>)
    ensures
        -0x8000 * xs.len() <= sum(xs) <= 0x7FFF * xs.len(),
    decreases xs.len(),
{
    if xs.len() > 0 {
        lemma_sum_bounds(xs.drop_last());
    }
}

/// The rounded-down mean of samples is in the range of a sample, so the
/// centered window stays within `MAX_CENTERED`.
pub proof fn lemma_centered_bounds(xs: Seq<i16>)
    ensures
        -0x8000 <= mean_floor(xs) <= 0x7FFF,
        is_centered(centered(xs)),
{
    if xs.len() > 0 {
        lemma_sum_bounds(xs);
        let n = xs.len() as int;
        let s = sum(xs);
        assert(-0x8000 <= s / n <= 0x7FFF) by (nonlinear_arith)
            requires
                n > 0,
                -0x8000 * n <= s <= 0x7FFF * n,
        ;
    }
}

proof fn lemma_cross_bounds(cs: Seq<int>, a: int, b: int, n: nat)
    requires
        is_centered(cs),
        0 <= a,
        0 <= b,
        a + n <= cs.len(),
        b + n <= cs.len(),
    ensures
        -0xFFFE_0001 * n <= cross(cs, a, b, n) <= 0xFFFE_0001 * n,
        a == b ==> cross(cs, a, b, n) >= 0,
    decreases n,
{
    if n > 0 {
        lemma_cross_bounds(cs, a, b, (n - 1) as nat);
        let x = cs[a + n - 1];
        let y = cs[b + n - 1];
        assert(-0xFFFE_0001 <= x * y <= 0xFFFE_0001) by (nonlinear_arith)
            requires
                -0xFFFF <= x <= 0xFFFF,
                -0xFFFF <= y <= 0xFFFF,
        ;
        if a == b {
            assert(x * x >= 0) by (nonlinear_arith);
        }
    }
}

/// The inequality of Cauchy and Schwarz: the square of a cross sum is at
/// most the product of the energies of its two stretches.
pub proof fn lemma_cross_square(cs: Seq<int>, a: int, b: int, n: nat)
    ensures
        cross(cs, a, b, n) * cross(cs, a, b, n) <= cross(cs, a, a, n) * cross(cs, b, b, n),
        cross(cs, a, a, n) >= 0,
        cross(cs, b, b, n) >= 0,
    decreases n,
{
    if n == 0 {
        assert(0int * 0int <= 0int * 0int) by (nonlinear_arith);
    } else {
        let m = (n - 1) as nat;
        lemma_cross_square(cs, a, b, m);
        let s = cross(cs, a, b, m);
        let p = cross(cs, a, a, m);
        let q = cross(cs, b, b, m);
        let x = cs[a + n - 1];
        let y = cs[b + n - 1];
        let u = p * (y * y);
        let v = q * (x * x);
        let w = 2 * s * (x * y);
        assert(x * x >= 0 && y * y >= 0) by (nonlinear_arith);
        assert(u >= 0 && v >= 0) by (nonlinear_arith)
            requires
                p >= 0,
                q >= 0,
                x * x >= 0,
                y * y >= 0,
                u == p * (y * y),
                v == q * (x * x),
        ;
        assert(w * w == 4 * (s * s) * ((x * x) * (y * y))) by (nonlinear_arith)
            requires
                w == 2 * s * (x * y),
        ;
        assert(4 * (u * v) == 4 * (p * q) * ((x * x) * (y * y))) by (nonlinear_arith)
            requires
                u == p * (y * y),
                v == q * (x * x),
        ;
        assert(4 * (s * s) * ((x * x) * (y * y)) <= 4 * (p * q) * ((x * x) * (y * y)))
            by (nonlinear_arith)
            requires
                s * s <= p * q,
                x * x >= 0,
                y * y >= 0,
        ;
        assert((u + v) * (u + v) >= 4 * (u * v)) by (nonlinear_arith);
        assert(w <= u + v) by (nonlinear_arith)
            requires
                w * w <= (u + v) * (u + v),
                u + v >= 0,
        ;
        let t = x * y;
        assert(t * t == (x * x) * (y * y)) by (nonlinear_arith)
            requires
                t == x * y,
        ;
        assert((s + t) * (s + t) == s * s + w + t * t) by (nonlinear_arith)
            requires
                w == 2 * s * t,
        ;
        assert((p + x * x) * (q + y * y) == p * q + u + v + (x * x) * (y * y))
            by (nonlinear_arith)
            requires
                u == p * (y * y),
                v == q * (x * x),
        ;
    }
}

/// No correlation exceeds full scale, either way.
pub proof fn lemma_correlation_bounds(cs: Seq<int>, lag: int)
    ensures
        -(CORRELATION_SCALE as int) <= correlation(cs, lag) <= CORRELATION_SCALE as int,
{
    let m = (cs.len() - lag) as nat;
    let num = cross(cs, 0, lag, m);
    let head = cross(cs, 0, 0, m);
    let tail = cross(cs, lag, lag, m);
    lemma_cross_square(cs, 0, lag, m);
    assert(head * tail >= 0) by (nonlinear_arith)
        requires
            head >= 0,
            tail >= 0,
    ;
    let energy = (head * tail) as nat;
    lemma_sqrt_floor_exists(energy);
    let den = sqrt_floor(energy) as int;
    if den != 0 {
        let size = if num >= 0 {
            num
        } else {
            -num
        };
        assert(size * size == num * num) by (nonlinear_arith)
            requires
                size == num || size == -num,
        ;
        assert(size <= den) by (nonlinear_arith)
            requires
                size * size <= energy,
                energy < (den + 1) * (den + 1),
                size >= 0,
                den >= 0,
        ;
        assert(size * CORRELATION_SCALE as int / den <= CORRELATION_SCALE as int)
            by (nonlinear_arith)
            requires
                0 <= size <= den,
                den > 0,
        ;
        assert(size * CORRELATION_SCALE as int / den >= 0) by (nonlinear_arith)
            requires
                0 <= size,
                den > 0,
        ;
    }
}

/// The window with its rounded-down mean subtracted from every sample.
pub fn remove_dc(buffer: &[i16]) -> (c: Vec<i32>)
    ensures
        ints(c@) == centered(buffer@),
{
    let n = buffer.len();
    let mut c: Vec<i32> = Vec::new();
    if n == 0 {
        assert(ints(c@) =~= centered(buffer@));
        return c;
    }
    let mut total: u128 = 0;
    let mut i: usize = 0;
    while i < n
        invariant
            n == buffer@.len(),
            i <= n,
            total == sum(buffer@.take(i as int)) + 0x8000 * i,
            total <= 0xFFFF * i,
        decreases n - i,
    {
        proof {
            let next = buffer@.take(i + 1);
            assert(next.drop_last() =~= buffer@.take(i as int));
            assert(next.last() == buffer@[i as int]);
        }
        let shifted: i32 = buffer[i] as i32 + 0x8000;
        total = total + shifted as u128;
        i = i + 1;
    }
    let shifted_mean: u128 = total / (n as u128);
    proof {
        assert(buffer@.take(n as int) =~= buffer@);
        let s = sum(buffer@);
        assert((s + 0x8000 * n) / (n as int) == s / (n as int) + 0x8000) by (nonlinear_arith)
            requires
                n > 0,
        ;
        lemma_centered_bounds(buffer@);
    }
    let mean: i32 = shifted_mean as i32 - 0x8000;
    let mut k: usize = 0;
    while k < n
        invariant
            n == buffer@.len(),
            k <= n,
            mean == mean_floor(buffer@),
            -0x8000 <= mean <= 0x7FFF,
            c@.len() == k,
            forall|j: int| 0 <= j < k ==> c@[j] == buffer@[j] - mean,
        decreases n - k,
    {
        c.push(buffer[k] as i32 - mean);
        k = k + 1;
    }
    assert(ints(c@) =~= centered(buffer@));
    c
}

/// The normalised correlation, in millionths, of the centered window `c`
/// with itself shifted by `lag`.
pub fn correlation_at(c: &[i32], lag: usize) -> (r: i32)
    requires
        is_centered(ints(c@)),
        c@.len() <= MAX_WINDOW,
        lag <= c@.len(),
    ensures
        r == correlation(ints(c@), lag as int),
        -CORRELATION_SCALE <= r <= CORRELATION_SCALE,
{
    let ghost cs = ints(c@);
    let m: usize = c.len() - lag;
    let mut num: i64 = 0;
    let mut head: u64 = 0;
    let mut tail: u64 = 0;
    let mut i: usize = 0;
    while i < m
        invariant
            cs == ints(c@),
            is_centered(cs),
            c@.len() <= MAX_WINDOW,
            m == c@.len() - lag,
            i <= m,
            num == cross(cs, 0, lag as int, i as nat),
            head == cross(cs, 0, 0, i as nat),
            tail == cross(cs, lag as int, lag as int, i as nat),
        decreases m - i,
    {
        let x: i64 = c[i] as i64;
        let y: i64 = c[i + lag] as i64;
        proof {
            lemma_cross_bounds(cs, 0, lag as int, (i + 1) as nat);
            lemma_cross_bounds(cs, 0, 0, (i + 1) as nat);
            lemma_cross_bounds(cs, lag as int, lag as int, (i + 1) as nat);
            lemma_cross_bounds(cs, 0, lag as int, i as nat);
            lemma_cross_bounds(cs, 0, 0, i as nat);
            lemma_cross_bounds(cs, lag as int, lag as int, i as nat);
            assert(x == cs[i as int]);
            assert(y == cs[i + lag]);
            assert(-0xFFFE_0001 <= x * y <= 0xFFFE_0001) by (nonlinear_arith)
                requires
                    -0xFFFF <= x <= 0xFFFF,
                    -0xFFFF <= y <= 0xFFFF,
            ;
            assert(0 <= x * x <= 0xFFFE_0001) by (nonlinear_arith)
                requires
                    -0xFFFF <= x <= 0xFFFF,
            ;
            assert(0 <= y * y <= 0xFFFE_0001) by (nonlinear_arith)
                requires
                    -0xFFFF <= y <= 0xFFFF,
            ;
        }
        num = num + x * y;
        head = head + (x * x) as u64;
        tail = tail + (y * y) as u64;
        i = i + 1;
    }
    proof {
        lemma_cross_bounds(cs, 0, lag as int, m as nat);
        lemma_cross_bounds(cs, 0, 0, m as nat);
        lemma_cross_bounds(cs, lag as int, lag as int, m as nat);
        assert(head * tail <= 0x1_0000_0000_0000_0000_0000_0000_0000) by (nonlinear_arith)
            requires
                0 <= head <= 0xFFFE_0001 * 0x100_0000,
                0 <= tail <= 0xFFFE_0001 * 0x100_0000,
        ;
    }
    let energy: u128 = (head as u128) * (tail as u128);
    let den: u64 = isqrt(energy);
    if den == 0 {
        return 0;
    }
    let magnitude: u128 = if num < 0 {
        (-num) as u128
    } else {
        num as u128
    };
    let scaled: u128 = magnitude * (CORRELATION_SCALE as u128);
    let quotient: u128 = scaled / (den as u128);
    proof {
        assert(quotient <= scaled) by (nonlinear_arith)
            requires
                quotient == scaled / (den as u128),
                den >= 1,
        ;
    }
    proof {
        lemma_correlation_bounds(cs, lag as int);
    }
    if num < 0 {
        -(quotient as i32)
    } else {
        quotient as i32
    }
}

/// What a scan over a range of lags found.
pub struct Peak {
    /// The first lag with the best correlation, 0 where no lag correlates
    /// positively.
    pub lag: int,
    /// The best correlation, at least 0.
    pub best: int,
    /// The best correlation among the other lags, at least 0.
    pub second: int,
}

/// The peak among the lags `lo <= lag < hi`.
pub open spec fn scan(cs: Seq<int>, lo: int, hi: int) -> Peak
    decreases hi - lo,
{
    if hi <= lo {
        Peak { lag: 0, best: 0, second: 0 }
    } else {
        let prev = scan(cs, lo, hi - 1);
        let c = correlation(cs, hi - 1);
        if c > prev.best {
            Peak { lag: hi - 1, best: c, second: prev.best }
        } else if c > prev.second {
            Peak { lag: prev.lag, best: prev.best, second: c }
        } else {
            prev
        }
    }
}

/// What `scan` finds, said without recursion: no lag of the range correlates
/// better than `best`, no lag but `lag` better than `second`; a positive
/// `best` is the correlation at `lag`, the first lag to reach it, and a
/// positive `second` is reached at some other lag.
pub proof fn lemma_scan_peak(cs: Seq<int>, lo: int, hi: int)
    requires
        0 <= lo,
    ensures
        0 <= scan(cs, lo, hi).second <= scan(cs, lo, hi).best,
        forall|l: int| lo <= l < hi ==> #[trigger] correlation(cs, l) <= scan(cs, lo, hi).best,
        forall|l: int|
            lo <= l < hi && l != scan(cs, lo, hi).lag ==> #[trigger] correlation(cs, l) <= scan(
                cs,
                lo,
                hi,
            ).second,
        scan(cs, lo, hi).best > 0 ==> {
            &&& lo <= scan(cs, lo, hi).lag < hi
            &&& correlation(cs, scan(cs, lo, hi).lag) == scan(cs, lo, hi).best
            &&& forall|l: int|
                lo <= l < scan(cs, lo, hi).lag ==> #[trigger] correlation(cs, l) < scan(
                    cs,
                    lo,
                    hi,
                ).best
        },
        scan(cs, lo, hi).best == 0 ==> scan(cs, lo, hi).lag == 0,
        scan(cs, lo, hi).second > 0 ==> exists|l: int|
            lo <= l < hi && l != scan(cs, lo, hi).lag && #[trigger] correlation(cs, l) == scan(
                cs,
                lo,
                hi,
            ).second,
    decreases hi - lo,
{
    if hi > lo {
        lemma_scan_peak(cs, lo, hi - 1);
        let prev = scan(cs, lo, hi - 1);
        let p = scan(cs, lo, hi);
        let c = correlation(cs, hi - 1);
        if c > prev.best {
            if p.second > 0 {
                assert(lo <= prev.lag < hi && prev.lag != p.lag && correlation(cs, prev.lag)
                    == p.second);
            }
        } else if c > prev.second {
            assert(lo <= hi - 1 < hi && hi - 1 != p.lag && correlation(cs, hi - 1) == p.second);
        } else {
            if p.second > 0 {
                let l = choose|l: int|
                    lo <= l < hi - 1 && l != prev.lag && #[trigger] correlation(cs, l)
                        == prev.second;
                assert(lo <= l < hi && l != p.lag && correlation(cs, l) == p.second);
            }
        }
    }
}

/// First lag of the search band: the period of `MAX_FREQUENCY`, in samples.
pub open spec fn min_lag(sample_rate: u32) -> int {
    sample_rate as int / MAX_FREQUENCY as int
}

/// End of the search band: the period of `MIN_FREQUENCY`, in samples, or
/// half the window where that is shorter.
pub open spec fn max_lag(sample_rate: u32, len: nat) -> int {
    let period = sample_rate as int / MIN_FREQUENCY as int;
    if period <= len as int / 2 {
        period
    } else {
        len as int / 2
    }
}

/// The quotient of `a` by `b`, rounded toward zero.
pub open spec fn toward_zero(a: int, b: int) -> int {
    if a >= 0 && b > 0 {
        a / b
    } else if a >= 0 {
        -(a / (-b))
    } else if b > 0 {
        -((-a) / b)
    } else {
        (-a) / (-b)
    }
}

/// Where the vertex of the parabola through the correlations at `lag - 1`,
/// `lag` and `lag + 1` lies relative to `lag`, in thousandths of a sample and
/// kept within one sample either way; 0 where the three lie on a line.
pub open spec fn lag_offset(cs: Seq<int>, lag: int) -> int {
    let below = correlation(cs, lag - 1);
    let at = correlation(cs, lag);
    let above = correlation(cs, lag + 1);
    let den = below - 2 * at + above;
    let raw = toward_zero(LAG_SCALE as int * (below - above), 2 * den);
    if den == 0 {
        0
    } else if raw < -(LAG_SCALE as int) {
        -(LAG_SCALE as int)
    } else if raw > LAG_SCALE as int {
        LAG_SCALE as int
    } else {
        raw
    }
}

/// The lag of the peak in thousandths of a sample: refined by `lag_offset`
/// where both neighbours of `lag` lie in the band `lo <= lag < hi`.
pub open spec fn refined_lag(cs: Seq<int>, lo: int, hi: int, lag: int) -> int {
    if lo < lag && lag + 1 < hi {
        lag * LAG_SCALE as int + lag_offset(cs, lag)
    } else {
        lag * LAG_SCALE as int
    }
}

/// The fundamental frequency of the window `xs`, in millihertz, or `None`
/// where none is detected: the window is shorter than `MIN_WINDOW`, the
/// sample rate is below `MAX_FREQUENCY`, the best correlation does not exceed
/// `MIN_CORRELATION`, or it exceeds the second best by no more than
/// `MIN_CLARITY`.
pub open spec fn pitch_of(xs: Seq<i16>, sample_rate: u32) -> Option<int> {
    let lo = min_lag(sample_rate);
    let hi = max_lag(sample_rate, xs.len());
    let cs = centered(xs);
    let p = scan(cs, lo, hi);
    if xs.len() < MIN_WINDOW || lo == 0 || p.best <= MIN_CORRELATION as int || p.best - p.second
        <= MIN_CLARITY as int {
        None
    } else {
        Some(sample_rate as int * 1000 * LAG_SCALE as int / refined_lag(cs, lo, hi, p.lag))
    }
}

/// Whether `s` repeats itself after `period` values.
pub open spec fn has_period<T>(s: Seq<T>, period: int) -> bool {
    forall|i: int| 0 <= i && i + period < s.len() ==> s[i + period] == #[trigger] s[i]
}

/// The best correlation of a scan never exceeds full scale.
pub proof fn lemma_scan_bounds(cs: Seq<int>, lo: int, hi: int)
    requires
        0 <= lo,
    ensures
        0 <= scan(cs, lo, hi).second <= scan(cs, lo, hi).best <= CORRELATION_SCALE as int,
{
    lemma_scan_peak(cs, lo, hi);
    let p = scan(cs, lo, hi);
    if p.best > 0 {
        lemma_correlation_bounds(cs, p.lag);
    }
}

/// A scan over lags that all correlate with 0 finds nothing.
pub proof fn lemma_scan_of_nothing(cs: Seq<int>, lo: int, hi: int)
    requires
        forall|l: int| lo <= l < hi ==> #[trigger] correlation(cs, l) == 0,
    ensures
        scan(cs, lo, hi) == (Peak { lag: 0, best: 0, second: 0 }),
    decreases hi - lo,
{
    if hi > lo {
        lemma_scan_of_nothing(cs, lo, hi - 1);
        assert(correlation(cs, hi - 1) == 0);
    }
}

proof fn lemma_sum_constant(xs: Seq<i16>, a: i16)
    requires
        forall|i: int| 0 <= i < xs.len() ==> xs[i] == a,
    ensures
        sum(xs) == xs.len() * a,
    decreases xs.len(),
{
    if xs.len() > 0 {
        lemma_sum_constant(xs.drop_last(), a);
        assert((xs.len() - 1) * a + a == xs.len() * a) by (nonlinear_arith);
    }
}

proof fn lemma_cross_of_zeros(cs: Seq<int>, a: int, b: int, n: nat)
    requires
        0 <= a,
        a + n <= cs.len(),
        forall|i: int| 0 <= i < cs.len() ==> cs[i] == 0,
    ensures
        cross(cs, a, b, n) == 0,
    decreases n,
{
    if n > 0 {
        lemma_cross_of_zeros(cs, a, b, (n - 1) as nat);
        let x = cs[a + n - 1];
        let y = cs[b + n - 1];
        assert(x * y == 0) by (nonlinear_arith)
            requires
                x == 0,
        ;
    }
}

/// A window that holds one value throughout, silence among them, has no
/// pitch.
pub proof fn lemma_flat_window_has_no_pitch(xs: Seq<i16>, a: i16, sample_rate: u32)
    requires
        forall|i: int| 0 <= i < xs.len() ==> xs[i] == a,
    ensures
        pitch_of(xs, sample_rate) is None,
{
    let n = xs.len();
    let lo = min_lag(sample_rate);
    let hi = max_lag(sample_rate, n);
    let cs = centered(xs);
    if n > 0 {
        lemma_sum_constant(xs, a);
        assert((n * a) / (n as int) == a) by (nonlinear_arith)
            requires
                n > 0,
        ;
        assert forall|l: int| lo <= l < hi implies #[trigger] correlation(cs, l) == 0 by {
            let m = (n - l) as nat;
            lemma_cross_of_zeros(cs, 0, 0, m);
            assert(0int * cross(cs, l, l, m) == 0) by (nonlinear_arith);
            assert(0nat * 0nat <= 0 && 0 < (0nat + 1) * (0nat + 1)) by (nonlinear_arith);
            lemma_sqrt_floor_is(0, 0);
        }
        lemma_scan_of_nothing(cs, lo, hi);
    }
}

proof fn lemma_cross_of_period(cs: Seq<int>, period: int, n: nat)
    requires
        0 <= period,
        period + n <= cs.len(),
        has_period(cs, period),
    ensures
        cross(cs, 0, period, n) == cross(cs, 0, 0, n),
        cross(cs, period, period, n) == cross(cs, 0, 0, n),
    decreases n,
{
    if n > 0 {
        lemma_cross_of_period(cs, period, (n - 1) as nat);
        assert(cs[(n - 1) + period] == cs[n - 1]);
    }
}

/// A window that repeats itself after `period` samples, and is not flat where
/// it overlaps its shifted self, correlates fully at the lag `period`.
pub proof fn lemma_periodic_window_correlates(cs: Seq<int>, period: int)
    requires
        0 <= period <= cs.len(),
        has_period(cs, period),
        cross(cs, 0, 0, (cs.len() - period) as nat) > 0,
    ensures
        correlation(cs, period) == CORRELATION_SCALE as int,
{
    let m = (cs.len() - period) as nat;
    let e = cross(cs, 0, 0, m);
    lemma_cross_of_period(cs, period, m);
    assert(e * e >= 0 && e * e < (e + 1) * (e + 1)) by (nonlinear_arith)
        requires
            e > 0,
    ;
    lemma_sqrt_floor_is((e * e) as nat, e as nat);
    assert(e * CORRELATION_SCALE as int / e == CORRELATION_SCALE as int) by (nonlinear_arith)
        requires
            e > 0,
    ;
}

/// Subtracting the mean keeps the period of a window.
pub proof fn lemma_centered_keeps_period(xs: Seq<i16>, period: int)
    requires
        0 <= period,
        has_period(xs, period),
    ensures
        has_period(centered(xs), period),
{
    let cs = centered(xs);
    assert forall|i: int| 0 <= i && i + period < cs.len() implies cs[i + period] == #[trigger] cs[i] by {
        assert(xs[i + period] == xs[i]);
    }
}

/// In a window that repeats itself after `period` samples, with `period` in
/// the search band and the window not flat where it overlaps its shifted
/// self, the best correlation is full scale.
pub proof fn lemma_periodic_window_peaks(xs: Seq<i16>, sample_rate: u32, period: int)
    requires
        min_lag(sample_rate) <= period < max_lag(sample_rate, xs.len()),
        has_period(xs, period),
        cross(centered(xs), 0, 0, (xs.len() - period) as nat) > 0,
    ensures
        scan(centered(xs), min_lag(sample_rate), max_lag(sample_rate, xs.len())).best
            == CORRELATION_SCALE as int,
{
    let cs = centered(xs);
    let lo = min_lag(sample_rate);
    let hi = max_lag(sample_rate, xs.len());
    lemma_centered_keeps_period(xs, period);
    lemma_periodic_window_correlates(cs, period);
    lemma_scan_peak(cs, lo, hi);
    lemma_scan_bounds(cs, lo, hi);
}

/// At a lag that correlates better than both its neighbours the parabola
/// has its vertex within half a sample of the lag.
pub proof fn lemma_offset_at_peak(cs: Seq<int>, lag: int)
    requires
        correlation(cs, lag - 1) < correlation(cs, lag),
        correlation(cs, lag + 1) < correlation(cs, lag),
    ensures
        -(LAG_SCALE as int) <= 2 * lag_offset(cs, lag) <= LAG_SCALE as int,
{
    let p = correlation(cs, lag) - correlation(cs, lag - 1);
    let q = correlation(cs, lag) - correlation(cs, lag + 1);
    let scale = LAG_SCALE as int;
    let den = 2 * (p + q);
    if q >= p {
        let num = scale * (q - p);
        assert(0 <= 2 * (num / den) <= scale) by (nonlinear_arith)
            requires
                0 < p <= q,
                num == scale * (q - p),
                den == 2 * (p + q),
                scale == 1000,
        ;
    } else {
        let num = scale * (p - q);
        assert(0 <= 2 * (num / den) <= scale) by (nonlinear_arith)
            requires
                0 < q < p,
                num == scale * (p - q),
                den == 2 * (p + q),
                scale == 1000,
        ;
    }
}

fn div_toward_zero(a: i64, b: i64) -> (q: i64)
    requires
        b != 0,
        -0x1_0000_0000_0000 <= a <= 0x1_0000_0000_0000,
        -0x1_0000_0000_0000 <= b <= 0x1_0000_0000_0000,
    ensures
        q == toward_zero(a as int, b as int),
{
    let ua: u64 = if a < 0 {
        (-a) as u64
    } else {
        a as u64
    };
    let ub: u64 = if b < 0 {
        (-b) as u64
    } else {
        b as u64
    };
    let uq: u64 = ua / ub;
    proof {
        assert(uq <= ua) by (nonlinear_arith)
            requires
                uq == ua / ub,
                ub >= 1,
        ;
    }
    if (a >= 0) == (b > 0) {
        uq as i64
    } else {
        -(uq as i64)
    }
}

fn refine(c: &[i32], lag: usize) -> (offset: i64)
    requires
        is_centered(ints(c@)),
        c@.len() <= MAX_WINDOW,
        1 <= lag,
        lag + 1 <= c@.len(),
    ensures
        offset == lag_offset(ints(c@), lag as int),
        -LAG_SCALE <= offset <= LAG_SCALE,
{
    let below = correlation_at(c, lag - 1) as i64;
    let at = correlation_at(c, lag) as i64;
    let above = correlation_at(c, lag + 1) as i64;
    let den = below - 2 * at + above;
    if den == 0 {
        return 0;
    }
    let raw = div_toward_zero(LAG_SCALE * (below - above), 2 * den);
    if raw < -LAG_SCALE {
        -LAG_SCALE
    } else if raw > LAG_SCALE {
        LAG_SCALE
    } else {
        raw
    }
}

/// The fundamental frequency of `buffer`, in millihertz, by normalised
/// autocorrelation over the band from `MIN_FREQUENCY` to `MAX_FREQUENCY`.
pub fn autocorrelation(buffer: &[i16], sample_rate: u32) -> (frequency: Option<u64>)
    requires
        buffer@.len() <= MAX_WINDOW,
    ensures
        match frequency {
            Some(f) => f > 0 && pitch_of(buffer@, sample_rate) == Some(f as int),
            None => pitch_of(buffer@, sample_rate) is None,
        },
{
    let n = buffer.len();
    let lo: usize = (sample_rate / MAX_FREQUENCY) as usize;
    if n < MIN_WINDOW || lo == 0 {
        return None;
    }
    let period: usize = (sample_rate / MIN_FREQUENCY) as usize;
    let hi: usize = if period <= n / 2 {
        period
    } else {
        n / 2
    };
    let c = remove_dc(buffer);
    let ghost cs = centered(buffer@);
    proof {
        lemma_centered_bounds(buffer@);
    }
    let mut lag: usize = lo;
    let mut best_lag: usize = 0;
    let mut best: i32 = 0;
    let mut second: i32 = 0;
    while lag < hi
        invariant
            cs == ints(c@),
            is_centered(cs),
            c@.len() == n,
            n <= MAX_WINDOW,
            hi <= n / 2,
            lo <= lag,
            lag <= hi || lag == lo,
            scan(cs, lo as int, lag as int) == (Peak { lag: best_lag as int, best: best as int, second: second as int }),
            best_lag < hi,
            0 <= second <= best <= CORRELATION_SCALE,
        decreases hi - lag,
    {
        let r = correlation_at(c.as_slice(), lag);
        proof {
            let prev = scan(cs, lo as int, lag as int);
            let after = scan(cs, lo as int, lag + 1);
            assert(after == if r > prev.best {
                Peak { lag: lag as int, best: r as int, second: prev.best }
            } else if r > prev.second {
                Peak { lag: prev.lag, best: prev.best, second: r as int }
            } else {
                prev
            });
        }
        if r > best {
            second = best;
            best = r;
            best_lag = lag;
        } else if r > second {
            second = r;
        }
        lag = lag + 1;
    }
    proof {
        assert(scan(cs, lo as int, hi as int) == scan(cs, lo as int, lag as int));
        lemma_scan_peak(cs, lo as int, hi as int);
    }
    if best <= MIN_CORRELATION || best - second <= MIN_CLARITY {
        return None;
    }
    let offset: i64 = if lo < best_lag && best_lag + 1 < hi {
        refine(c.as_slice(), best_lag)
    } else {
        0
    };
    let refined: i64 = (best_lag as i64) * LAG_SCALE + offset;
    let scaled_rate: u64 = (sample_rate as u64) * 1_000_000;
    proof {
        assert(refined == refined_lag(cs, lo as int, hi as int, best_lag as int));
        assert(1000 <= refined <= scaled_rate);
    }
    let f: u64 = scaled_rate / (refined as u64);
    proof {
        assert(f >= 1) by (nonlinear_arith)
            requires
                f == scaled_rate / (refined as u64),
                1 <= refined <= scaled_rate,
        ;
    }
    Some(f)
}

} // verus!
