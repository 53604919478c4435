//! Loudness of a window of samples: the root of the mean of the squares.

use vstd::prelude::*;

verus! {

/// The square of one sample.
pub open spec fn square(x: i16) -> nat {
    (x as int * x as int) as nat
}

/// The sum of the squares of all samples of `xs`.
pub open spec fn sum_squares(xs: Seq<i16>) -> nat
    decreases xs.len(),
{
    if xs.len() == 0 {
        0
    } else {
        sum_squares(xs.drop_last()) + square(xs.last())
    }
}

/// The square of a sample is the plain product, and at most the square of
/// the most negative sample.
pub proof fn lemma_square(x: i16)
    ensures
        square(x) == x * x,
        square(x) <= 0x4000_0000,
{
    assert(0 <= x * x <= 0x4000_0000) by (nonlinear_arith)
        requires
            -0x8000 <= x <= 0x7FFF,
    ;
}

/// `r` is the square root of `v`, rounded down.
pub open spec fn is_sqrt_floor(v: nat, r: nat) -> bool {
    r * r <= v && v < (r + 1) * (r + 1)
}

/// The square root of `v`, rounded down.
pub open spec fn sqrt_floor(v: nat) -> nat {
    choose|r: nat| is_sqrt_floor(v, r)
}

/// The loudness of `xs`: the root of the mean square, rounded down, and 0 for
/// an empty window.
pub open spec fn rms_of(xs: Seq<i16>) -> nat {
    if xs.len() == 0 {
        0
    } else {
        sqrt_floor(sum_squares(xs) / xs.len())
    }
}

/// At most one number is the rounded-down square root of `v`.
pub proof fn lemma_sqrt_floor_unique(v: nat, r1: nat, r2: nat)
    requires
        is_sqrt_floor(v, r1),
        is_sqrt_floor(v, r2),
    ensures
        r1 == r2,
{
    if r1 < r2 {
        assert((r1 + 1) * (r1 + 1) <= r2 * r2) by (nonlinear_arith)
            requires
                r1 + 1 <= r2,
        ;
    } else if r2 < r1 {
        assert((r2 + 1) * (r2 + 1) <= r1 * r1) by (nonlinear_arith)
            requires
                r2 + 1 <= r1,
        ;
    }
}

/// Whatever number brackets `v` between its square and the next square is
/// the rounded-down square root of `v`.
pub proof fn lemma_sqrt_floor_is(v: nat, r: nat)
    requires
        is_sqrt_floor(v, r),
    ensures
        sqrt_floor(v) == r,
{
    lemma_sqrt_floor_unique(v, r, sqrt_floor(v));
}

/// The square root of `v`, rounded down.
pub fn isqrt(v: u128) -> (r: u64)
    ensures
        is_sqrt_floor(v as nat, r as nat),
        r as nat == sqrt_floor(v as nat),
{
    let mut lo: u128 = 0;
    let mut hi: u128 = 0x1_0000_0000_0000_0000;
    assert(0x1_0000_0000_0000_0000int * 0x1_0000_0000_0000_0000int > u128::MAX) by (nonlinear_arith);
    while hi - lo > 1
        invariant
            lo < hi <= 0x1_0000_0000_0000_0000,
            lo * lo <= v,
            v < hi * hi,
        decreases hi - lo,
    {
        let mid: u128 = lo + (hi - lo) / 2;
        assert(mid * mid <= 0xFFFF_FFFF_FFFF_FFFFint * 0xFFFF_FFFF_FFFF_FFFFint) by (nonlinear_arith)
            requires
                0 <= mid <= 0xFFFF_FFFF_FFFF_FFFFint,
        ;
        assert(0xFFFF_FFFF_FFFF_FFFFint * 0xFFFF_FFFF_FFFF_FFFFint < u128::MAX) by (nonlinear_arith);
        if mid * mid <= v {
            lo = mid;
        } else {
            hi = mid;
        }
    }
    let r: u64 = lo as u64;
    proof {
        assert(hi == lo + 1);
        assert(is_sqrt_floor(v as nat, r as nat));
        lemma_sqrt_floor_is(v as nat, r as nat);
    }
    r
}


/// Every number has a rounded-down square root.
pub proof fn lemma_sqrt_floor_exists(v: nat)
    ensures
        is_sqrt_floor(v, sqrt_floor(v)),
    decreases v,
{
    if v == 0 {
        assert(0nat * 0nat <= 0 && 0 < (0nat + 1) * (0nat + 1)) by (nonlinear_arith);
        assert(is_sqrt_floor(0, 0));
    } else {
        lemma_sqrt_floor_exists((v - 1) as nat);
        let p = sqrt_floor((v - 1) as nat);
        if (p + 1) * (p + 1) <= v {
            assert((p + 1) * (p + 1) == v);
            assert(v < (p + 2) * (p + 2)) by (nonlinear_arith)
                requires
                    (p + 1) * (p + 1) == v,
            ;
            assert(is_sqrt_floor(v, p + 1));
        } else {
            assert(is_sqrt_floor(v, p));
        }
    }
}

/// The loudness brackets the mean square: with `r` the loudness of a window
/// of `n` samples whose squares sum up to `s`, `r * r * n <= s` and
/// `s < (r + 1) * (r + 1) * n`.
pub proof fn lemma_rms_brackets(xs: Seq<i16>)
    requires
        xs.len() > 0,
    ensures
        rms_of(xs) * rms_of(xs) * xs.len() <= sum_squares(xs),
        sum_squares(xs) < (rms_of(xs) + 1) * (rms_of(xs) + 1) * xs.len(),
{
    let n = xs.len();
    let s = sum_squares(xs);
    let m = s / n;
    let r = rms_of(xs);
    lemma_sqrt_floor_exists(m);
    assert(m * n <= s && s < (m + 1) * n) by (nonlinear_arith)
        requires
            m == s / n,
            n > 0,
    ;
    assert(r * r * n <= m * n) by (nonlinear_arith)
        requires
            r * r <= m,
    ;
    assert((m + 1) * n <= (r + 1) * (r + 1) * n) by (nonlinear_arith)
        requires
            m + 1 <= (r + 1) * (r + 1),
    ;
}

/// The squares of a window that holds the value `a` throughout sum up to
/// the length times `a * a`.
pub proof fn lemma_sum_squares_constant(xs: Seq<i16>, a: i16)
    requires
        forall|i: int| 0 <= i < xs.len() ==> xs[i] == a,
    ensures
        sum_squares(xs) == xs.len() * square(a),
    decreases xs.len(),
{
    if xs.len() > 0 {
        lemma_sum_squares_constant(xs.drop_last(), a);
        assert(sum_squares(xs) == (xs.len() - 1) * square(a) + square(a));
        assert((xs.len() - 1) * square(a) + square(a) == xs.len() * square(a))
            by (nonlinear_arith);
    }
}

/// The magnitude of a sample.
pub open spec fn magnitude(a: i16) -> nat {
    if a < 0 {
        (-a) as nat
    } else {
        a as nat
    }
}

/// The loudness of a window that holds the amplitude `a` throughout is the
/// magnitude of `a`.
pub proof fn lemma_rms_of_constant(xs: Seq<i16>, a: i16)
    requires
        xs.len() > 0,
        forall|i: int| 0 <= i < xs.len() ==> xs[i] == a,
    ensures
        rms_of(xs) == magnitude(a),
{
    let n = xs.len();
    let q = square(a);
    let m = magnitude(a);
    lemma_sum_squares_constant(xs, a);
    lemma_square(a);
    assert((n * q) / n == q) by (nonlinear_arith)
        requires
            n > 0,
    ;
    assert(m * m == q) by (nonlinear_arith)
        requires
            m == a || m == -a,
            q == a * a,
    ;
    assert(q < (m + 1) * (m + 1)) by (nonlinear_arith)
        requires
            m * m == q,
    ;
    lemma_sqrt_floor_is(q, m);
}

/// The loudness of silence, a window of zeros of any length, is 0.
pub proof fn lemma_rms_of_silence(xs: Seq<i16>)
    requires
        forall|i: int| 0 <= i < xs.len() ==> xs[i] == 0,
    ensures
        rms_of(xs) == 0,
{
    if xs.len() > 0 {
        lemma_rms_of_constant(xs, 0);
    }
}

/// The squares of `n` samples sum up to at most `n` times the square of the
/// most negative sample.
pub proof fn lemma_sum_squares_bound(xs: Seq<i16>)
    ensures
        sum_squares(xs) <= xs.len() * 0x4000_0000,
    decreases xs.len(),
{
    if xs.len() > 0 {
        lemma_sum_squares_bound(xs.drop_last());
        lemma_square(xs.last());
    }
}

/// The loudness of `samples`: the root of the mean square, rounded down, on
/// the scale of the samples; 0 for an empty window.
pub fn rms(samples: &[i16]) -> (r: u16)
    ensures
        r as nat == rms_of(samples@),
{
    let n = samples.len();
    if n == 0 {
        return 0;
    }
    let mut acc: u128 = 0;
    let mut i: usize = 0;
    while i < n
        invariant
            n == samples@.len(),
            i <= n,
            acc as nat == sum_squares(samples@.take(i as int)),
        decreases n - i,
    {
        let x: i32 = samples[i] as i32;
        proof {
            let next = samples@.take(i + 1);
            assert(next.drop_last() =~= samples@.take(i as int));
            assert(next.last() == samples@[i as int]);
            lemma_sum_squares_bound(next);
            lemma_square(samples@[i as int]);
            assert(x * x == square(samples@[i as int]));
            assert((i + 1) * 0x4000_0000 <= u128::MAX) by (nonlinear_arith)
                requires
                    i + 1 <= usize::MAX,
                    usize::MAX <= 0xFFFF_FFFF_FFFF_FFFF,
            ;
        }
        let sq: i32 = x * x;
        acc = acc + sq as u128;
        i = i + 1;
    }
    proof {
        assert(samples@.take(n as int) =~= samples@);
        lemma_sum_squares_bound(samples@);
    }
    let mean: u128 = acc / (n as u128);
    let r = isqrt(mean);
    proof {
        assert(mean <= 0x4000_0000) by (nonlinear_arith)
            requires
                mean == acc / (n as u128),
                acc <= n * 0x4000_0000,
                n > 0,
        ;
        assert(r <= 0x8000) by (nonlinear_arith)
            requires
                r * r <= mean,
                mean <= 0x4000_0000,
        ;
    }
    r as u16
}

/// The loudness of a full-scale square wave, the loudest window there is
/// short of one that is stuck at the most negative sample.
pub const FULL_SCALE: u16 = 0x7FFF;

/// How many cells of a meter `width` cells wide the loudness `level` fills:
/// the share of `FULL_SCALE` that `level` has, of `width`, rounded down.
pub fn meter(level: u16, width: u32) -> (cells: u64)
    ensures
        cells == (level as int * width as int) / (FULL_SCALE as int),
{
    assert(level * width <= 0xFFFF * 0xFFFF_FFFF) by (nonlinear_arith)
        requires
            level <= 0xFFFF,
            width <= 0xFFFF_FFFF,
    ;
    (level as u64 * width as u64) / (FULL_SCALE as u64)
}

} // verus!
