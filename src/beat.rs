//! Rational beat positions and the exact integer arithmetic used to turn
//! them into milliseconds.
use vstd::arithmetic::div_mod::{lemma_fundamental_div_mod, lemma_fundamental_div_mod_converse};
use vstd::prelude::*;

verus! {

/// Largest value a millisecond timestamp of the target format can hold.
pub const TIME_MAX: u32 = 0xffff_ffff;

/// `floor(a / b)` for a positive divisor.
pub open spec fn floor_div(a: int, b: int) -> int
    recommends
        b > 0,
{
    a / b
}

/// `ceil(a / b)` for a positive divisor.
pub open spec fn ceil_div(a: int, b: int) -> int
    recommends
        b > 0,
{
    -((-a) / b)
}

/// Clamps an integer into the range of a `u32` timestamp.
pub open spec fn clamp_time(x: int) -> int {
    if x < 0 {
        0
    } else if x > TIME_MAX as int {
        TIME_MAX as int
    } else {
        x
    }
}

/// Floor division on `i128` for a positive divisor.
pub fn floor_div_i128(a: i128, b: i128) -> (r: i128)
    requires
        b > 0,
    ensures
        r as int == floor_div(a as int, b as int),
{
    if a >= 0 {
        a / b
    } else {
        let n: i128 = -(a + 1);
        let q: i128 = n / b;
        let m: i128 = n % b;
        proof {
            lemma_fundamental_div_mod(n as int, b as int);
            assert(q as int == n as int / b as int);
            assert(m as int == n as int % b as int);
            assert(n as int == q as int * b as int + m as int) by (nonlinear_arith)
                requires
                    n as int == b as int * (n as int / b as int) + n as int % b as int,
                    q as int == n as int / b as int,
                    m as int == n as int % b as int,
            ;
            assert(0 <= m < b);
            assert(a as int == (-q - 1) * b as int + (b - m - 1)) by (nonlinear_arith)
                requires
                    n as int == q as int * b as int + m as int,
                    n == -(a + 1),
            ;
            lemma_fundamental_div_mod_converse(a as int, b as int, -q - 1, b - m - 1);
        }
        -q - 1
    }
}

/// Clamps an `i128` into the range of a `u32` timestamp.
pub fn clamp_time_i128(x: i128) -> (r: u32)
    ensures
        r as int == clamp_time(x as int),
{
    if x < 0 {
        0
    } else if x > TIME_MAX as i128 {
        TIME_MAX
    } else {
        x as u32
    }
}

/// A beat position `whole + numerator / denominator`.
#[derive(Clone, Copy, Debug, PartialEq, Eq)]
pub struct RationalBeat {
    pub whole: u32,
    pub numerator: u32,
    pub denominator: u32,
}

impl RationalBeat {
    /// Numerator of the beat as a single fraction over `denominator`.
    pub open spec fn num(self) -> int {
        self.whole as int * self.denominator as int + self.numerator as int
    }

    pub open spec fn den(self) -> int {
        self.denominator as int
    }

    pub open spec fn wf(self) -> bool {
        self.denominator > 0
    }

    /// Numerator of the beat over `denominator`, computed exactly.
    pub fn fraction_num(&self) -> (r: i128)
        ensures
            r as int == self.num(),
            0 <= r < 0x1_0000_0000_0000_0000,
    {
        proof {
            lemma_beat_num_bound(self.whole as int, self.denominator as int, self.numerator as int);
        }
        self.whole as i128 * self.denominator as i128 + self.numerator as i128
    }
}

pub proof fn lemma_beat_num_bound(w: int, d: int, n: int)
    requires
        0 <= w <= 0xffff_ffff,
        0 <= d <= 0xffff_ffff,
        0 <= n <= 0xffff_ffff,
    ensures
        0 <= w * d + n < 0x1_0000_0000_0000_0000,
{
    assert(0 <= w * d <= 0xffff_ffff * 0xffff_ffff) by (nonlinear_arith)
        requires
            0 <= w <= 0xffff_ffff,
            0 <= d <= 0xffff_ffff,
    ;
}


/// `|a| <= x` and `0 <= b <= y` bound the product by `x * y`.
pub proof fn lemma_mul_abs_le(a: int, b: int, x: int, y: int)
    requires
        -x <= a <= x,
        0 <= b <= y,
    ensures
        -(x * y) <= a * b <= x * y,
{
    assert(-(x * y) <= a * b <= x * y) by (nonlinear_arith)
        requires
            -x <= a <= x,
            0 <= b <= y,
    ;
}

/// Floor division by a positive number never grows the magnitude past a bound.
pub proof fn lemma_floor_div_abs_le(a: int, d: int, x: int)
    requires
        d >= 1,
        -x <= a <= x,
    ensures
        -x <= a / d <= x,
{
    lemma_fundamental_div_mod(a, d);
    let q = a / d;
    let r = a % d;
    assert(0 <= r < d);
    assert(-x <= q <= x) by (nonlinear_arith)
        requires
            a == d * q + r,
            0 <= r < d,
            d >= 1,
            -x <= a <= x,
    ;
}

/// Cross-multiplied order on fractions with positive denominators is transitive.
pub proof fn lemma_frac_le_trans(a: int, b: int, c: int, d: int, e: int, f: int)
    requires
        b > 0,
        d > 0,
        f > 0,
        a * d <= c * b,
        c * f <= e * d,
    ensures
        a * f <= e * b,
{
    assert(a * d * f <= c * b * f) by (nonlinear_arith)
        requires
            a * d <= c * b,
            f > 0,
    ;
    assert(c * f * b <= e * d * b) by (nonlinear_arith)
        requires
            c * f <= e * d,
            b > 0,
    ;
    assert(a * f <= e * b) by (nonlinear_arith)
        requires
            a * d * f <= c * b * f,
            c * f * b <= e * d * b,
            d > 0,
    ;
}

} // verus!
