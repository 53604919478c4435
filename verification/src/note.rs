//! From a frequency to the name of the nearest note of the twelve-tone
//! equal temperament, with A4 at 440 Hz.
//!
//! A frequency `f` lies `24 * log2(f / 440 Hz)` quarter tones above A4. That
//! number is never computed: `f` reaches `k` quarter tones above A4 exactly
//! when `f^24 >= (440 Hz)^24 * 2^k`, which is a statement about integers.

use vstd::arithmetic::power2::{
    lemma2_to64,
    lemma2_to64_rest,
    lemma_pow2_adds,
    lemma_pow2_pos,
    lemma_pow2_unfold,
    pow2,
};
use vstd::prelude::*;
use vstd::string::StringExecFns;

verus! {

/// The frequency of A4, in millihertz.
pub const A4_FREQUENCY: u64 = 440_000;

/// `A4_FREQUENCY` times 2^45: the foot of the octave that a frequency is
/// doubled into before it is held against the thresholds.
pub const OCTAVE_FOOT: u128 = 15_481_123_719_086_080_000;

/// `x` to the power of 24.
#[verifier::inline]
pub open spec fn pow24(x: int) -> int {
    let x2 = x * x;
    let x4 = x2 * x2;
    let x8 = x4 * x4;
    let x16 = x8 * x8;
    x16 * x8
}

/// Whether `freq`, in millihertz, lies at least `k` quarter tones above A4
/// (below, by as many, for a negative `k`): `freq >= A4 * 2^(k / 24)`.
pub open spec fn reaches(freq: int, k: int) -> bool {
    if k >= 0 {
        pow24(freq) >= pow24(A4_FREQUENCY as int) * pow2(k as nat)
    } else {
        pow24(freq) * pow2((-k) as nat) >= pow24(A4_FREQUENCY as int)
    }
}

/// Whether the note `n` semitones above A4 is the nearest to `freq`: `freq`
/// lies less than a quarter tone above it and at most a quarter tone below.
pub open spec fn is_nearest_semitone(freq: int, n: int) -> bool {
    reaches(freq, 2 * n - 1) && !reaches(freq, 2 * n + 1)
}

/// The number of semitones from A4 up to the note nearest to `freq`.
pub open spec fn semitone_of(freq: int) -> int {
    choose|n: int| is_nearest_semitone(freq, n)
}

/// The least integer that lies `2 * j + 1` quarter tones above `OCTAVE_FOOT`.
pub open spec fn threshold(j: int) -> int {
    if j == 0 {
        15_934_755_269_809_917_731
    } else if j == 1 {
        16_882_285_126_010_902_341
    } else if j == 2 {
        17_886_158_039_459_415_573
    } else if j == 3 {
        18_949_724_342_685_058_395
    } else if j == 4 {
        20_076_533_589_356_774_456
    } else if j == 5 {
        21_270_346_400_588_257_182
    } else if j == 6 {
        22_535_147_015_661_333_112
    } else if j == 7 {
        23_875_156_589_054_194_044
    } else if j == 8 {
        25_294_847_278_152_073_658
    } else if j == 9 {
        26_798_957_168_656_793_405
    } else if j == 10 {
        28_392_506_087_507_344_571
    } else {
        30_080_812_356_085_659_013
    }
}

/// The name of the pitch class `index` semitones above C.
pub open spec fn pitch_class_name(index: int) -> Seq<char> {
    if index == 0 {
        "C"@
    } else if index == 1 {
        "C#"@
    } else if index == 2 {
        "D"@
    } else if index == 3 {
        "D#"@
    } else if index == 4 {
        "E"@
    } else if index == 5 {
        "F"@
    } else if index == 6 {
        "F#"@
    } else if index == 7 {
        "G"@
    } else if index == 8 {
        "G#"@
    } else if index == 9 {
        "A"@
    } else if index == 10 {
        "A#"@
    } else {
        "B"@
    }
}

/// The decimal digit `d`.
pub open spec fn digit_text(d: int) -> Seq<char> {
    if d == 0 {
        "0"@
    } else if d == 1 {
        "1"@
    } else if d == 2 {
        "2"@
    } else if d == 3 {
        "3"@
    } else if d == 4 {
        "4"@
    } else if d == 5 {
        "5"@
    } else if d == 6 {
        "6"@
    } else if d == 7 {
        "7"@
    } else if d == 8 {
        "8"@
    } else {
        "9"@
    }
}

/// `n` in decimal digits, without leading zeros.
pub open spec fn decimal(n: nat) -> Seq<char>
    decreases n,
{
    if n < 10 {
        digit_text(n as int)
    } else {
        decimal(n / 10) + digit_text((n % 10) as int)
    }
}

/// `n` in decimal digits, after a minus sign where it is negative.
pub open spec fn signed_decimal(n: int) -> Seq<char> {
    if n < 0 {
        "-"@ + decimal((-n) as nat)
    } else {
        decimal(n as nat)
    }
}

/// The name of the note `semitone` semitones above A4: its pitch class, then
/// the number of its octave. Octaves begin at C, and A4 lies in octave 4.
pub open spec fn note_text(semitone: int) -> Seq<char> {
    pitch_class_name((semitone + 9) % 12) + signed_decimal(4 + (semitone + 9) / 12)
}

/// Whether `t` is the first integer whose 24th power exceeds that of
/// `OCTAVE_FOOT` times `factor`.
#[verifier::inline]
pub open spec fn first_above(t: int, factor: int) -> bool {
    pow24(t - 1) < pow24(OCTAVE_FOOT as int) * factor && pow24(OCTAVE_FOOT as int) * factor
        < pow24(t)
}

/// Whether `threshold(j)` is what its name says: the first integer that
/// lies `2 * j + 1` quarter tones above `OCTAVE_FOOT`.
pub open spec fn brackets(j: int) -> bool {
    first_above(threshold(j), pow2((2 * j + 1) as nat) as int)
}

/// Each of the twelve thresholds is the first integer that lies its odd
/// number of quarter tones above `OCTAVE_FOOT`.
pub proof fn lemma_thresholds()
    ensures
        forall|j: int| 0 <= j < 12 ==> brackets(j),
{
    lemma2_to64();
    assert(first_above(15_934_755_269_809_917_731, 2)) by (nonlinear_arith)
        requires
            OCTAVE_FOOT == 15_481_123_719_086_080_000,
    ;
    assert(first_above(16_882_285_126_010_902_341, 8)) by (nonlinear_arith)
        requires
            OCTAVE_FOOT == 15_481_123_719_086_080_000,
    ;
    assert(first_above(17_886_158_039_459_415_573, 32)) by (nonlinear_arith)
        requires
            OCTAVE_FOOT == 15_481_123_719_086_080_000,
    ;
    assert(first_above(18_949_724_342_685_058_395, 128)) by (nonlinear_arith)
        requires
            OCTAVE_FOOT == 15_481_123_719_086_080_000,
    ;
    assert(first_above(20_076_533_589_356_774_456, 512)) by (nonlinear_arith)
        requires
            OCTAVE_FOOT == 15_481_123_719_086_080_000,
    ;
    assert(first_above(21_270_346_400_588_257_182, 2048)) by (nonlinear_arith)
        requires
            OCTAVE_FOOT == 15_481_123_719_086_080_000,
    ;
    assert(first_above(22_535_147_015_661_333_112, 8192)) by (nonlinear_arith)
        requires
            OCTAVE_FOOT == 15_481_123_719_086_080_000,
    ;
    assert(first_above(23_875_156_589_054_194_044, 32768)) by (nonlinear_arith)
        requires
            OCTAVE_FOOT == 15_481_123_719_086_080_000,
    ;
    assert(first_above(25_294_847_278_152_073_658, 131072)) by (nonlinear_arith)
        requires
            OCTAVE_FOOT == 15_481_123_719_086_080_000,
    ;
    assert(first_above(26_798_957_168_656_793_405, 524288)) by (nonlinear_arith)
        requires
            OCTAVE_FOOT == 15_481_123_719_086_080_000,
    ;
    assert(first_above(28_392_506_087_507_344_571, 2097152)) by (nonlinear_arith)
        requires
            OCTAVE_FOOT == 15_481_123_719_086_080_000,
    ;
    assert(first_above(30_080_812_356_085_659_013, 8388608)) by (nonlinear_arith)
        requires
            OCTAVE_FOOT == 15_481_123_719_086_080_000,
    ;
}

/// The 24th power grows with its base.
pub proof fn lemma_pow24_grows(x: int, y: int)
    requires
        0 <= x <= y,
    ensures
        0 <= pow24(x) <= pow24(y),
{
    let x2 = x * x;
    let y2 = y * y;
    assert(0 <= x2 <= y2) by (nonlinear_arith)
        requires
            0 <= x <= y,
            x2 == x * x,
            y2 == y * y,
    ;
    let x4 = x2 * x2;
    let y4 = y2 * y2;
    assert(0 <= x4 <= y4) by (nonlinear_arith)
        requires
            0 <= x2 <= y2,
            x4 == x2 * x2,
            y4 == y2 * y2,
    ;
    let x8 = x4 * x4;
    let y8 = y4 * y4;
    assert(0 <= x8 <= y8) by (nonlinear_arith)
        requires
            0 <= x4 <= y4,
            x8 == x4 * x4,
            y8 == y4 * y4,
    ;
    let x16 = x8 * x8;
    let y16 = y8 * y8;
    assert(0 <= x16 <= y16) by (nonlinear_arith)
        requires
            0 <= x8 <= y8,
            x16 == x8 * x8,
            y16 == y8 * y8,
    ;
    assert(0 <= x16 * x8 <= y16 * y8) by (nonlinear_arith)
        requires
            0 <= x8 <= y8,
            0 <= x16 <= y16,
    ;
}

/// The 24th power of a product is the product of the 24th powers.
pub proof fn lemma_pow24_product(x: int, y: int)
    ensures
        pow24(x * y) == pow24(x) * pow24(y),
{
    let x2 = x * x;
    let y2 = y * y;
    let z2 = (x * y) * (x * y);
    assert(z2 == x2 * y2) by (nonlinear_arith)
        requires
            x2 == x * x,
            y2 == y * y,
            z2 == (x * y) * (x * y),
    ;
    let x4 = x2 * x2;
    let y4 = y2 * y2;
    let z4 = z2 * z2;
    assert(z4 == x4 * y4) by (nonlinear_arith)
        requires
            z2 == x2 * y2,
            x4 == x2 * x2,
            y4 == y2 * y2,
            z4 == z2 * z2,
    ;
    let x8 = x4 * x4;
    let y8 = y4 * y4;
    let z8 = z4 * z4;
    assert(z8 == x8 * y8) by (nonlinear_arith)
        requires
            z4 == x4 * y4,
            x8 == x4 * x4,
            y8 == y4 * y4,
            z8 == z4 * z4,
    ;
    let x16 = x8 * x8;
    let y16 = y8 * y8;
    let z16 = z8 * z8;
    assert(z16 == x16 * y16) by (nonlinear_arith)
        requires
            z8 == x8 * y8,
            x16 == x8 * x8,
            y16 == y8 * y8,
            z16 == z8 * z8,
    ;
    assert(z16 * z8 == (x16 * x8) * (y16 * y8)) by (nonlinear_arith)
        requires
            z8 == x8 * y8,
            z16 == x16 * y16,
    ;
}

/// The 24th power of a power of two.
pub proof fn lemma_pow24_of_pow2(s: nat)
    ensures
        pow24(pow2(s) as int) == pow2(24 * s),
{
    lemma_pow2_adds(s, s);
    lemma_pow2_adds(2 * s, 2 * s);
    lemma_pow2_adds(4 * s, 4 * s);
    lemma_pow2_adds(8 * s, 8 * s);
    lemma_pow2_adds(16 * s, 8 * s);
}

/// What reaches a quarter tone reaches the one below it.
pub proof fn lemma_reaches_step(freq: int, k: int)
    requires
        freq > 0,
        reaches(freq, k + 1),
    ensures
        reaches(freq, k),
{
    let p = pow24(freq);
    let q = pow24(A4_FREQUENCY as int);
    lemma_pow24_grows(0, freq);
    lemma_pow24_grows(0, A4_FREQUENCY as int);
    if k >= 0 {
        lemma_pow2_unfold((k + 1) as nat);
        lemma_pow2_pos(k as nat);
        let w = pow2(k as nat);
        assert(q * (2 * w) >= q * w) by (nonlinear_arith)
            requires
                q >= 0,
                w > 0,
        ;
    } else if k == -1 {
        lemma2_to64();
        assert(q * 1 == q) by (nonlinear_arith);
        assert(p * 2 >= p) by (nonlinear_arith)
            requires
                p >= 0,
        ;
    } else {
        lemma_pow2_unfold((-k) as nat);
        lemma_pow2_pos((-k - 1) as nat);
        let w = pow2((-k - 1) as nat);
        assert(p * (2 * w) >= p * w) by (nonlinear_arith)
            requires
                p >= 0,
                w > 0,
        ;
    }
}

/// What reaches a quarter tone reaches every one below it.
pub proof fn lemma_reaches_down(freq: int, high: int, low: int)
    requires
        freq > 0,
        low <= high,
        reaches(freq, high),
    ensures
        reaches(freq, low),
    decreases high - low,
{
    if low < high {
        lemma_reaches_step(freq, high - 1);
        lemma_reaches_down(freq, high - 1, low);
    }
}

/// At most one note is the nearest to a frequency.
pub proof fn lemma_nearest_semitone_unique(freq: int, n1: int, n2: int)
    requires
        freq > 0,
        is_nearest_semitone(freq, n1),
        is_nearest_semitone(freq, n2),
    ensures
        n1 == n2,
{
    if n1 < n2 {
        lemma_reaches_down(freq, 2 * n2 - 1, 2 * n1 + 1);
    } else if n2 < n1 {
        lemma_reaches_down(freq, 2 * n1 - 1, 2 * n2 + 1);
    }
}

/// A frequency doubled `s` times, held against `OCTAVE_FOOT` raised by `e`
/// quarter tones, is the frequency itself held against A4 raised by
/// `24 * (45 - s) + e` quarter tones.
pub proof fn lemma_doubled_reaches(freq: int, s: nat, e: nat)
    requires
        freq > 0,
    ensures
        pow24(freq * pow2(s)) >= pow24(OCTAVE_FOOT as int) * pow2(e) <==> reaches(
            freq,
            24 * (45 - s) + e,
        ),
{
    let p = pow24(freq);
    let q = pow24(A4_FREQUENCY as int);
    let k = 24 * (45 - s) + e;
    lemma2_to64_rest();
    assert(OCTAVE_FOOT as int == A4_FREQUENCY as int * pow2(45));
    lemma_pow24_product(freq, pow2(s) as int);
    lemma_pow24_of_pow2(s);
    lemma_pow24_product(A4_FREQUENCY as int, pow2(45) as int);
    lemma_pow24_of_pow2(45);
    let w = pow2(24 * s);
    let v = pow2(1080 + e);
    lemma_pow2_adds(1080, e);
    lemma_pow2_pos(24 * s);
    lemma_pow2_pos(1080 + e);
    assert(pow24(OCTAVE_FOOT as int) * pow2(e) == q * v) by (nonlinear_arith)
        requires
            pow24(OCTAVE_FOOT as int) == q * pow2(1080),
            v == pow2(1080) * pow2(e),
    ;
    assert(pow24(freq * pow2(s)) == p * w);
    if k >= 0 {
        let u = pow2(k as nat);
        lemma_pow2_adds(k as nat, 24 * s);
        assert(v == u * w);
        assert((p * w >= q * (u * w)) <==> (p >= q * u)) by (nonlinear_arith)
            requires
                w > 0,
        ;
    } else {
        let u = pow2((-k) as nat);
        lemma_pow2_adds(1080 + e, (-k) as nat);
        assert(w == v * u);
        assert((p * (v * u) >= q * v) <==> (p * u >= q)) by (nonlinear_arith)
            requires
                v > 0,
        ;
    }
}

fn threshold_at(j: usize) -> (t: u128)
    requires
        j < 12,
    ensures
        t == threshold(j as int),
{
    if j == 0 {
        15_934_755_269_809_917_731
    } else if j == 1 {
        16_882_285_126_010_902_341
    } else if j == 2 {
        17_886_158_039_459_415_573
    } else if j == 3 {
        18_949_724_342_685_058_395
    } else if j == 4 {
        20_076_533_589_356_774_456
    } else if j == 5 {
        21_270_346_400_588_257_182
    } else if j == 6 {
        22_535_147_015_661_333_112
    } else if j == 7 {
        23_875_156_589_054_194_044
    } else if j == 8 {
        25_294_847_278_152_073_658
    } else if j == 9 {
        26_798_957_168_656_793_405
    } else if j == 10 {
        28_392_506_087_507_344_571
    } else {
        30_080_812_356_085_659_013
    }
}

/// The number of semitones from A4 up to the note nearest to `freq`, a
/// frequency in millihertz.
pub fn nearest_semitone(freq: u64) -> (n: i32)
    requires
        freq > 0,
    ensures
        is_nearest_semitone(freq as int, n as int),
        n == semitone_of(freq as int),
        -228 <= n <= 552,
{
    let mut doubled: u128 = freq as u128;
    let mut s: u32 = 0;
    proof {
        lemma2_to64();
        assert(freq * pow2(0) == freq) by (nonlinear_arith)
            requires
                pow2(0) == 1,
        ;
    }
    while doubled < OCTAVE_FOOT
        invariant
            freq > 0,
            doubled == freq * pow2(s as nat),
            1 <= doubled < 2 * OCTAVE_FOOT,
            s <= 64,
        decreases 64 - s,
    {
        proof {
            lemma_pow2_unfold((s + 1) as nat);
            assert(freq * (2 * pow2(s as nat)) == 2 * (freq * pow2(s as nat))) by (nonlinear_arith);
            if s == 64 {
                lemma2_to64();
                assert(freq * pow2(64) >= pow2(64)) by (nonlinear_arith)
                    requires
                        freq >= 1,
                        pow2(64) > 0,
                ;
            }
        }
        doubled = doubled * 2;
        s = s + 1;
    }
    let mut j: usize = 0;
    while j < 12 && doubled >= threshold_at(j)
        invariant
            j <= 12,
            j > 0 ==> doubled >= threshold(j - 1),
        decreases 12 - j,
    {
        j = j + 1;
    }
    let n: i32 = 12 * (45 - s as i32) + j as i32;
    proof {
        let f = freq as int;
        let x = doubled as int;
        let foot = OCTAVE_FOOT as int;
        lemma_thresholds();
        lemma2_to64();
        if j == 0 {
            lemma_pow24_grows(foot, x);
            lemma_doubled_reaches(f, s as nat, 0);
            assert(pow24(foot) * pow2(0) == pow24(foot)) by (nonlinear_arith)
                requires
                    pow2(0) == 1,
            ;
            lemma_reaches_step(f, 2 * n - 1);
        } else {
            assert(brackets(j - 1));
            lemma_pow24_grows(threshold(j - 1), x);
            lemma_doubled_reaches(f, s as nat, (2 * (j - 1) + 1) as nat);
        }
        if j < 12 {
            assert(brackets(j as int));
            lemma_pow24_grows(x, threshold(j as int) - 1);
            lemma_doubled_reaches(f, s as nat, (2 * j + 1) as nat);
        } else {
            lemma_pow24_grows(x, 2 * foot - 1);
            lemma_pow24_product(2, foot);
            lemma_pow24_of_pow2(1);
            lemma_pow2_adds(16, 8);
            assert(pow24(2 * foot - 1) < pow24(2 * foot)) by {
                lemma_pow24_strict(2 * foot - 1);
            }
            assert(pow24(2) * pow24(foot) == pow24(foot) * pow2(24)) by (nonlinear_arith)
                requires
                    pow24(2) == pow2(24),
            ;
            lemma_doubled_reaches(f, s as nat, 24);
            if reaches(f, 2 * n + 1) {
                lemma_reaches_step(f, 2 * n);
            }
        }
        assert(is_nearest_semitone(f, n as int));
        lemma_nearest_semitone_unique(f, n as int, semitone_of(f));
    }
    n
}

/// The 24th power of a positive integer exceeds that of the one before it.
pub proof fn lemma_pow24_strict(x: int)
    requires
        0 <= x,
    ensures
        pow24(x) < pow24(x + 1),
{
    let y = x + 1;
    let x2 = x * x;
    let y2 = y * y;
    assert(0 <= x2 < y2) by (nonlinear_arith)
        requires
            0 <= x < y,
            x2 == x * x,
            y2 == y * y,
    ;
    let x4 = x2 * x2;
    let y4 = y2 * y2;
    assert(0 <= x4 < y4) by (nonlinear_arith)
        requires
            0 <= x2 < y2,
            x4 == x2 * x2,
            y4 == y2 * y2,
    ;
    let x8 = x4 * x4;
    let y8 = y4 * y4;
    assert(0 <= x8 < y8) by (nonlinear_arith)
        requires
            0 <= x4 < y4,
            x8 == x4 * x4,
            y8 == y4 * y4,
    ;
    let x16 = x8 * x8;
    let y16 = y8 * y8;
    assert(0 <= x16 < y16) by (nonlinear_arith)
        requires
            0 <= x8 < y8,
            x16 == x8 * x8,
            y16 == y8 * y8,
    ;
    assert(x16 * x8 < y16 * y8) by (nonlinear_arith)
        requires
            0 <= x8 < y8,
            0 <= x16 < y16,
    ;
}

fn pitch_class(index: u64) -> (name: &'static str)
    requires
        index < 12,
    ensures
        name@ == pitch_class_name(index as int),
{
    if index == 0 {
        "C"
    } else if index == 1 {
        "C#"
    } else if index == 2 {
        "D"
    } else if index == 3 {
        "D#"
    } else if index == 4 {
        "E"
    } else if index == 5 {
        "F"
    } else if index == 6 {
        "F#"
    } else if index == 7 {
        "G"
    } else if index == 8 {
        "G#"
    } else if index == 9 {
        "A"
    } else if index == 10 {
        "A#"
    } else {
        "B"
    }
}

fn digit(d: u64) -> (text: &'static str)
    requires
        d < 10,
    ensures
        text@ == digit_text(d as int),
{
    if d == 0 {
        "0"
    } else if d == 1 {
        "1"
    } else if d == 2 {
        "2"
    } else if d == 3 {
        "3"
    } else if d == 4 {
        "4"
    } else if d == 5 {
        "5"
    } else if d == 6 {
        "6"
    } else if d == 7 {
        "7"
    } else if d == 8 {
        "8"
    } else {
        "9"
    }
}

fn decimal_string(n: u64) -> (text: String)
    ensures
        text@ == decimal(n as nat),
    decreases n,
{
    if n < 10 {
        String::from_str(digit(n))
    } else {
        let mut text = decimal_string(n / 10);
        text.append(digit(n % 10));
        text
    }
}

/// The name of the note `semitone` semitones above A4, such as `A4` for 0,
/// `C4` for -9 and `A#-1` for -59.
pub fn note_name(semitone: i32) -> (name: String)
    ensures
        name@ == note_text(semitone as int),
{
    let shifted: u64 = (semitone as i64 + 2_400_000_009) as u64;
    let index: u64 = shifted % 12;
    let octave: u64 = shifted / 12 + 4;
    proof {
        let from_c = semitone as int + 9;
        assert((from_c + 12 * 200_000_000) % 12 == from_c % 12 && (from_c + 12 * 200_000_000) / 12
            == from_c / 12 + 200_000_000) by (nonlinear_arith);
    }
    let mut name = String::from_str(pitch_class(index));
    let ghost class = name@;
    if octave >= 200_000_000 {
        let digits = decimal_string(octave - 200_000_000);
        name.append(digits.as_str());
    } else {
        let digits = decimal_string(200_000_000 - octave);
        name.append("-");
        name.append(digits.as_str());
        assert(name@ =~= class + ("-"@ + digits@));
    }
    name
}

/// The name of the note nearest to `freq`, a frequency in millihertz.
pub fn freq_to_note(freq: u64) -> (name: String)
    requires
        freq > 0,
    ensures
        name@ == note_text(semitone_of(freq as int)),
{
    note_name(nearest_semitone(freq))
}

} // verus!
