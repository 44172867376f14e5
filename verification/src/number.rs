//! IEEE 754 numbers held as their bit patterns.
//!
//! A tree ensemble never adds or multiplies while it routes a row: it compares,
//! converts and copies. All of that is exact on the bits, so the library keeps
//! its numbers in this form and leaves arithmetic to whoever reads the result.
use byteorder::ByteOrder;
use vstd::prelude::*;

verus! {

/// A single-precision number, by its bits.
#[derive(Debug, Clone, Copy, PartialEq, Eq, Hash, Structural)]
pub struct F32 {
    pub bits: u32,
}

/// A double-precision number, by its bits.
#[derive(Debug, Clone, Copy, PartialEq, Eq, Hash, Structural)]
pub struct F64 {
    pub bits: u64,
}

/// The bits of the double that is one.
pub const ONE_BITS: u64 = 0x3ff0_0000_0000_0000;

/// The bits of the double that stands for all that are no number.
pub const DOUBLE_NAN_BITS: u64 = 0x7ff8_0000_0000_0000;

/// The bits of the single that stands for all that are no number.
pub const SINGLE_NAN_BITS: u32 = 0x7fc0_0000;

/// A number of things as far as `usize` counts.
pub open spec fn counted(n: int) -> int {
    if n <= usize::MAX {
        n
    } else {
        usize::MAX as int
    }
}

/// How many doublings take a non-zero fraction below 2^23 to at least 2^23.
pub open spec fn doublings(fraction: int) -> nat
    decreases 0x100_0000 - fraction,
{
    if 0 < fraction < 0x80_0000 {
        1 + doublings(2 * fraction)
    } else {
        0
    }
}

/// The quotient `value / divisor` rounded to the nearest integer, ties to even.
pub open spec fn rounded(value: int, divisor: int) -> int {
    let quotient = value / divisor;
    let twice = 2 * (value % divisor);
    if twice > divisor || (twice == divisor && quotient % 2 == 1) {
        quotient + 1
    } else {
        quotient
    }
}

impl F32 {
    pub open spec fn negative(self) -> bool {
        self.bits >= 0x8000_0000
    }

    /// The bits without the sign.
    pub open spec fn unsigned(self) -> int {
        self.bits as int % 0x8000_0000
    }

    pub open spec fn exponent(self) -> int {
        self.unsigned() / 0x80_0000
    }

    pub open spec fn fraction(self) -> int {
        self.bits as int % 0x80_0000
    }

    pub open spec fn nan(self) -> bool {
        self.unsigned() > 0x7f80_0000
    }

    pub open spec fn finite(self) -> bool {
        self.unsigned() < 0x7f80_0000
    }

    /// The absolute value of a finite number, in units of 2^-149.
    pub open spec fn magnitude(self) -> int {
        if self.exponent() == 0 {
            self.fraction()
        } else {
            (0x80_0000 + self.fraction()) * vstd::arithmetic::power2::pow2(
                (self.exponent() - 1) as nat,
            )
        }
    }

    /// The value of a finite number, in units of 2^-149.
    pub open spec fn scaled(self) -> int {
        if self.negative() {
            -self.magnitude()
        } else {
            self.magnitude()
        }
    }

    /// The rank of a number that is not NaN among all others: both zeros rank 0.
    pub open spec fn rank(self) -> int {
        if self.negative() {
            -self.unsigned()
        } else {
            self.unsigned()
        }
    }

    pub open spec fn less(self, other: F32) -> bool {
        !self.nan() && !other.nan() && self.rank() < other.rank()
    }

    pub open spec fn at_most(self, other: F32) -> bool {
        !self.nan() && !other.nan() && self.rank() <= other.rank()
    }

    /// Numeric equality: NaN equals nothing, the two zeros are equal.
    pub open spec fn same(self, other: F32) -> bool {
        !self.nan() && !other.nan() && self.rank() == other.rank()
    }

    /// The number truncated toward zero and clamped to `i32`; NaN gives 0.
    pub open spec fn truncated(self) -> int {
        let whole = self.magnitude() / vstd::arithmetic::power2::pow2(149) as int;
        if self.nan() {
            0
        } else if self.negative() {
            if !self.finite() || whole > 0x8000_0000 {
                -0x8000_0000
            } else {
                -whole
            }
        } else {
            if !self.finite() || whole > 0x7fff_ffff {
                0x7fff_ffff
            } else {
                whole
            }
        }
    }

    /// The double with the same value; NaN gives the quiet NaN of its sign.
    pub open spec fn widened(self) -> F64 {
        let sign: int = if self.negative() {
            0x8000_0000_0000_0000
        } else {
            0
        };
        let magnitude: int = if self.nan() {
            0x7ff8_0000_0000_0000
        } else if !self.finite() {
            0x7ff0_0000_0000_0000
        } else if self.exponent() > 0 {
            (self.exponent() + 896) * 0x10_0000_0000_0000 + self.fraction() * 0x2000_0000
        } else if self.fraction() > 0 {
            let steps = doublings(self.fraction());
            let shifted = self.fraction() * vstd::arithmetic::power2::pow2(steps) as int;
            (897 - steps) * 0x10_0000_0000_0000 + (shifted - 0x80_0000) * 0x2000_0000
        } else {
            0
        };
        F64 { bits: (sign + magnitude) as u64 }
    }
}

impl F64 {
    pub open spec fn negative(self) -> bool {
        self.bits >= 0x8000_0000_0000_0000
    }

    /// The bits without the sign.
    pub open spec fn unsigned(self) -> int {
        self.bits as int % 0x8000_0000_0000_0000
    }

    pub open spec fn exponent(self) -> int {
        self.unsigned() / 0x10_0000_0000_0000
    }

    pub open spec fn fraction(self) -> int {
        self.bits as int % 0x10_0000_0000_0000
    }

    pub open spec fn nan(self) -> bool {
        self.unsigned() > 0x7ff0_0000_0000_0000
    }

    pub open spec fn finite(self) -> bool {
        self.unsigned() < 0x7ff0_0000_0000_0000
    }

    /// The absolute value of a finite number, in units of 2^-1074.
    pub open spec fn magnitude(self) -> int {
        if self.exponent() == 0 {
            self.fraction()
        } else {
            (0x10_0000_0000_0000 + self.fraction()) * vstd::arithmetic::power2::pow2(
                (self.exponent() - 1) as nat,
            )
        }
    }

    /// The rank of a number that is not NaN among all others: both zeros rank 0.
    pub open spec fn rank(self) -> int {
        if self.negative() {
            -self.unsigned()
        } else {
            self.unsigned()
        }
    }

    pub open spec fn less(self, other: F64) -> bool {
        !self.nan() && !other.nan() && self.rank() < other.rank()
    }

    pub open spec fn at_most(self, other: F64) -> bool {
        !self.nan() && !other.nan() && self.rank() <= other.rank()
    }

    /// The nearest single-precision number, ties to the even fraction; what is too
    /// large gives infinity, NaN the quiet NaN.
    pub open spec fn narrowed(self) -> F32 {
        let sign: int = if self.negative() {
            0x8000_0000
        } else {
            0
        };
        let significand = 0x10_0000_0000_0000 + self.fraction();
        let magnitude: int = if self.nan() {
            0x7fc0_0000
        } else if !self.finite() {
            0x7f80_0000
        } else if self.exponent() >= 897 {
            let exact = (self.exponent() - 897) * 0x80_0000 + rounded(significand, 0x2000_0000);
            if exact < 0x7f80_0000 {
                exact
            } else {
                0x7f80_0000
            }
        } else if self.exponent() >= 872 {
            rounded(
                significand,
                vstd::arithmetic::power2::pow2((926 - self.exponent()) as nat) as int,
            )
        } else {
            0
        };
        F32 { bits: (sign + magnitude) as u32 }
    }
}

impl F32 {
    pub fn is_nan(self) -> (r: bool)
        ensures
            r == self.nan(),
    {
        self.bits % 0x8000_0000 > 0x7f80_0000
    }

    pub fn is_finite(self) -> (r: bool)
        ensures
            r == self.finite(),
    {
        self.bits % 0x8000_0000 < 0x7f80_0000
    }

    fn rank_of(self) -> (r: i64)
        ensures
            r == self.rank(),
    {
        let unsigned: i64 = (self.bits % 0x8000_0000) as i64;
        if self.bits >= 0x8000_0000 {
            -unsigned
        } else {
            unsigned
        }
    }

    /// `self < other`.
    pub fn lt(self, other: F32) -> (r: bool)
        ensures
            r == self.less(other),
    {
        !self.is_nan() && !other.is_nan() && self.rank_of() < other.rank_of()
    }

    /// `self <= other`.
    pub fn le(self, other: F32) -> (r: bool)
        ensures
            r == self.at_most(other),
    {
        !self.is_nan() && !other.is_nan() && self.rank_of() <= other.rank_of()
    }

    /// `self == other` as numbers.
    pub fn equals(self, other: F32) -> (r: bool)
        ensures
            r == self.same(other),
    {
        !self.is_nan() && !other.is_nan() && self.rank_of() == other.rank_of()
    }

    /// `self as i32`.
    pub fn to_i32(self) -> (r: i32)
        ensures
            r == self.truncated(),
    {
        let unsigned: u32 = self.bits % 0x8000_0000;
        let negative: bool = self.bits >= 0x8000_0000;
        let exponent: u32 = unsigned / 0x80_0000;
        if unsigned > 0x7f80_0000 {
            return 0;
        }
        let significand: u64 = 0x80_0000 + (self.bits % 0x80_0000) as u64;
        proof {
            if self.finite() {
                lemma_whole_part(self);
            }
        }
        if exponent < 127 {
            return 0;
        }
        if exponent >= 158 {
            return if negative {
                i32::MIN
            } else {
                i32::MAX
            };
        }
        let whole: u64 = if exponent >= 150 {
            let shift: u64 = (exponent - 150) as u64;
            proof {
                vstd::bits::lemma_u64_shl_is_mul(significand, shift);
            }
            significand << shift
        } else {
            let shift: u64 = (150 - exponent) as u64;
            proof {
                vstd::bits::lemma_u64_shr_is_div(significand, shift);
            }
            significand >> shift
        };
        if negative {
            -(whole as i64) as i32
        } else {
            whole as i32
        }
    }
}

/// What the whole part of a finite number is, by its exponent.
proof fn lemma_whole_part(x: F32)
    requires
        x.finite(),
    ensures
        ({
            let whole = x.magnitude() / vstd::arithmetic::power2::pow2(149) as int;
            let significand = 0x80_0000 + x.fraction();
            let e = x.exponent();
            &&& e < 127 ==> whole == 0
            &&& 127 <= e < 150 ==> whole == significand / (vstd::arithmetic::power2::pow2(
                (150 - e) as nat,
            ) as int) && whole < 0x100_0000
            &&& 150 <= e < 158 ==> whole == significand * vstd::arithmetic::power2::pow2(
                (e - 150) as nat,
            ) && whole < 0x8000_0000
            &&& 158 <= e ==> whole >= 0x8000_0000
        }),
{
    let unit = vstd::arithmetic::power2::pow2(149) as int;
    let significand = 0x80_0000 + x.fraction();
    let e = x.exponent();
    vstd::arithmetic::power2::lemma_pow2_pos(149);
    vstd::arithmetic::power2::lemma2_to64();
    if e == 0 {
        vstd::arithmetic::power2::lemma_pow2_strictly_increases(23, 149);
        vstd::arithmetic::div_mod::lemma_basic_div(x.magnitude(), unit);
    } else {
        let scale = vstd::arithmetic::power2::pow2((e - 1) as nat) as int;
        vstd::arithmetic::power2::lemma_pow2_pos((e - 1) as nat);
        if e < 127 {
            vstd::arithmetic::power2::lemma_pow2_adds(24, (e - 1) as nat);
            if e < 126 {
                vstd::arithmetic::power2::lemma_pow2_strictly_increases((e + 23) as nat, 149);
            }
            assert(significand * scale < 0x100_0000 * scale) by (nonlinear_arith)
                requires
                    significand < 0x100_0000,
                    scale > 0,
            ;
            assert(0 <= significand * scale) by (nonlinear_arith)
                requires
                    significand >= 0,
                    scale > 0,
            ;
            vstd::arithmetic::div_mod::lemma_basic_div(x.magnitude(), unit);
        } else if e < 150 {
            let divisor = vstd::arithmetic::power2::pow2((150 - e) as nat) as int;
            vstd::arithmetic::power2::lemma_pow2_pos((150 - e) as nat);
            vstd::arithmetic::power2::lemma_pow2_adds((e - 1) as nat, (150 - e) as nat);
            vstd::arithmetic::div_mod::lemma_div_multiples_vanish_quotient(
                scale,
                significand,
                divisor,
            );
            vstd::arithmetic::mul::lemma_mul_is_commutative(significand, scale);
            assert(significand / divisor <= significand) by {
                vstd::arithmetic::div_mod::lemma_div_nonincreasing(significand, divisor);
            }
        } else {
            let factor = vstd::arithmetic::power2::pow2((e - 150) as nat) as int;
            vstd::arithmetic::power2::lemma_pow2_pos((e - 150) as nat);
            vstd::arithmetic::power2::lemma_pow2_adds((e - 150) as nat, 149);
            assert(significand * scale == (significand * factor) * unit) by (nonlinear_arith)
                requires
                    scale == factor * unit,
            ;
            vstd::arithmetic::div_mod::lemma_div_multiples_vanish(significand * factor, unit);
            vstd::arithmetic::mul::lemma_mul_is_commutative(significand * factor, unit);
            if e < 158 {
                if e < 157 {
                    vstd::arithmetic::power2::lemma_pow2_strictly_increases((e - 150) as nat, 7);
                }
                assert(significand * factor < 0x100_0000 * 128) by (nonlinear_arith)
                    requires
                        0 <= significand < 0x100_0000,
                        0 < factor <= 128,
                ;
            } else {
                if e > 158 {
                    vstd::arithmetic::power2::lemma_pow2_strictly_increases(8, (e - 150) as nat);
                }
                assert(significand * factor >= 0x80_0000 * 256) by (nonlinear_arith)
                    requires
                        significand >= 0x80_0000,
                        factor >= 256,
                ;
            }
        }
    }
}

impl F32 {
    /// `self as f64`.
    pub fn widen(self) -> (r: F64)
        ensures
            r == self.widened(),
    {
        let unsigned: u64 = (self.bits % 0x8000_0000) as u64;
        let exponent: u64 = unsigned / 0x80_0000;
        let fraction: u64 = (self.bits % 0x80_0000) as u64;
        let sign: u64 = if self.bits >= 0x8000_0000 {
            0x8000_0000_0000_0000
        } else {
            0
        };
        let magnitude: u64 = if unsigned > 0x7f80_0000 {
            0x7ff8_0000_0000_0000
        } else if unsigned == 0x7f80_0000 {
            0x7ff0_0000_0000_0000
        } else if exponent > 0 {
            (exponent + 896) * 0x10_0000_0000_0000 + fraction * 0x2000_0000
        } else if fraction > 0 {
            let mut shifted: u64 = fraction;
            let mut steps: u64 = 0;
            proof {
                lemma_doublings(fraction as int);
                vstd::arithmetic::power2::lemma2_to64();
            }
            while shifted < 0x80_0000
                invariant
                    0 < shifted < 0x100_0000,
                    steps <= doublings(fraction as int) <= 23,
                    doublings(fraction as int) == steps + doublings(shifted as int),
                    shifted == fraction * vstd::arithmetic::power2::pow2(steps as nat),
                decreases 0x100_0000 - shifted,
            {
                proof {
                    vstd::arithmetic::power2::lemma_pow2_unfold((steps + 1) as nat);
                    let power = vstd::arithmetic::power2::pow2(steps as nat) as int;
                    assert(fraction * (2 * power) == 2 * (fraction * power)) by (nonlinear_arith);
                }
                shifted = shifted * 2;
                steps = steps + 1;
            }
            (897 - steps) * 0x10_0000_0000_0000 + (shifted - 0x80_0000) * 0x2000_0000
        } else {
            0
        };
        F64 { bits: sign + magnitude }
    }
}

impl F64 {
    pub fn is_nan(self) -> (r: bool)
        ensures
            r == self.nan(),
    {
        self.bits % 0x8000_0000_0000_0000 > 0x7ff0_0000_0000_0000
    }

    pub fn is_finite(self) -> (r: bool)
        ensures
            r == self.finite(),
    {
        self.bits % 0x8000_0000_0000_0000 < 0x7ff0_0000_0000_0000
    }

    fn rank_of(self) -> (r: i64)
        ensures
            r == self.rank(),
    {
        let unsigned: i64 = (self.bits % 0x8000_0000_0000_0000) as i64;
        if self.bits >= 0x8000_0000_0000_0000 {
            -unsigned
        } else {
            unsigned
        }
    }

    /// `self < other`.
    pub fn lt(self, other: F64) -> (r: bool)
        ensures
            r == self.less(other),
    {
        !self.is_nan() && !other.is_nan() && self.rank_of() < other.rank_of()
    }

    /// `self <= other`.
    pub fn le(self, other: F64) -> (r: bool)
        ensures
            r == self.at_most(other),
    {
        !self.is_nan() && !other.is_nan() && self.rank_of() <= other.rank_of()
    }

    /// `self as f32`.
    pub fn narrow(self) -> (r: F32)
        ensures
            r == self.narrowed(),
    {
        let unsigned: u64 = self.bits % 0x8000_0000_0000_0000;
        let exponent: u64 = unsigned / 0x10_0000_0000_0000;
        let significand: u64 = 0x10_0000_0000_0000 + self.bits % 0x10_0000_0000_0000;
        let sign: u32 = if self.bits >= 0x8000_0000_0000_0000 {
            0x8000_0000
        } else {
            0
        };
        let magnitude: u32 = if unsigned > 0x7ff0_0000_0000_0000 {
            0x7fc0_0000
        } else if unsigned == 0x7ff0_0000_0000_0000 {
            0x7f80_0000
        } else if exponent >= 897 {
            let exact: u64 = (exponent - 897) * 0x80_0000 + round(significand, 0x2000_0000);
            if exact < 0x7f80_0000 {
                exact as u32
            } else {
                0x7f80_0000
            }
        } else if exponent >= 872 {
            let shift: u64 = 926 - exponent;
            proof {
                vstd::arithmetic::power2::lemma2_to64();
                vstd::arithmetic::power2::lemma2_to64_rest();
                vstd::arithmetic::power2::lemma_pow2_pos(shift as nat);
                if shift < 54 {
                    vstd::arithmetic::power2::lemma_pow2_strictly_increases(shift as nat, 54);
                }
                if shift > 30 {
                    vstd::arithmetic::power2::lemma_pow2_strictly_increases(30, shift as nat);
                }
                vstd::bits::lemma_u64_shl_is_mul(1, shift);
            }
            round(significand, 1u64 << shift) as u32
        } else {
            0
        };
        F32 { bits: sign + magnitude }
    }
}

/// `value / divisor` to the nearest integer, ties to even.
fn round(value: u64, divisor: u64) -> (r: u64)
    requires
        0x2000_0000 <= divisor < 0x8000_0000_0000_0000,
        value < 0x20_0000_0000_0000,
    ensures
        r == rounded(value as int, divisor as int),
        r <= 0x100_0000,
{
    let quotient: u64 = value / divisor;
    let twice: u64 = 2 * (value % divisor);
    proof {
        vstd::arithmetic::div_mod::lemma_div_is_ordered_by_denominator(
            value as int,
            0x2000_0000,
            divisor as int,
        );
    }
    if twice > divisor || (twice == divisor && quotient % 2 == 1) {
        quotient + 1
    } else {
        quotient
    }
}

/// Doubling a fraction below 2^23 takes at most 23 steps to 2^23 and stays below 2^24.
proof fn lemma_doublings(fraction: int)
    requires
        0 < fraction < 0x100_0000,
    ensures
        doublings(fraction) <= 23,
        0x80_0000 <= fraction * vstd::arithmetic::power2::pow2(doublings(fraction)) < 0x100_0000,
    decreases 0x100_0000 - fraction,
{
    vstd::arithmetic::power2::lemma2_to64();
    if fraction < 0x80_0000 {
        lemma_doublings(2 * fraction);
        let steps = doublings(2 * fraction);
        let power = vstd::arithmetic::power2::pow2(steps) as int;
        vstd::arithmetic::power2::lemma_pow2_unfold(steps + 1);
        assert(fraction * (2 * power) == (2 * fraction) * power) by (nonlinear_arith);
        vstd::arithmetic::power2::lemma_pow2_pos(steps + 1);
        if steps + 1 > 23 {
            if steps + 1 > 24 {
                vstd::arithmetic::power2::lemma_pow2_strictly_increases(24, steps + 1);
            }
            assert(fraction * vstd::arithmetic::power2::pow2(steps + 1) >= 0x100_0000)
                by (nonlinear_arith)
                requires
                    fraction >= 1,
                    vstd::arithmetic::power2::pow2(steps + 1) >= 0x100_0000,
            ;
        }
    } else {
        assert(fraction * 1 == fraction);
    }
}

/// Widening changes neither the sign nor the value of a number.
pub proof fn widening_is_exact(x: F32)
    requires
        x.finite(),
    ensures
        x.widened().finite(),
        x.widened().negative() == x.negative(),
        x.widened().magnitude() == x.magnitude() * vstd::arithmetic::power2::pow2(925),
{
    let e = x.exponent();
    let f = x.fraction();
    let w = x.widened();
    vstd::arithmetic::power2::lemma2_to64();
    if e > 0 {
        assert(w.exponent() == e + 896);
        assert(w.fraction() == f * 0x2000_0000);
        vstd::arithmetic::power2::lemma_pow2_adds(29, (e + 895) as nat);
        vstd::arithmetic::power2::lemma_pow2_adds((e - 1) as nat, 925);
        let high = vstd::arithmetic::power2::pow2((e + 895) as nat) as int;
        let low = vstd::arithmetic::power2::pow2((e - 1) as nat) as int;
        let unit = vstd::arithmetic::power2::pow2(925) as int;
        assert((0x10_0000_0000_0000 + f * 0x2000_0000) * high == ((0x80_0000 + f) * low) * unit)
            by (nonlinear_arith)
            requires
                0x2000_0000 * high == low * unit,
        ;
    } else if f > 0 {
        lemma_doublings(f);
        let steps = doublings(f);
        let power = vstd::arithmetic::power2::pow2(steps) as int;
        let shifted = f * power;
        assert(w.exponent() == 897 - steps);
        assert(w.fraction() == (shifted - 0x80_0000) * 0x2000_0000);
        vstd::arithmetic::power2::lemma_pow2_adds(29, (896 - steps) as nat);
        vstd::arithmetic::power2::lemma_pow2_adds(steps, (925 - steps) as nat);
        let high = vstd::arithmetic::power2::pow2((896 - steps) as nat) as int;
        let unit = vstd::arithmetic::power2::pow2(925) as int;
        let middle = vstd::arithmetic::power2::pow2((925 - steps) as nat) as int;
        assert((0x10_0000_0000_0000 + (shifted - 0x80_0000) * 0x2000_0000) * high == f * unit)
            by (nonlinear_arith)
            requires
                0x2000_0000 * high == middle,
                power * middle == unit,
                shifted == f * power,
        ;
    } else {
        assert(0 * vstd::arithmetic::power2::pow2(925) == 0);
    }
}

#[verifier::spinoff_prover]
proof fn lemma_normal_is_narrowed_back(x: F32)
    requires
        x.finite(),
        x.exponent() > 0,
    ensures
        x.widened().narrowed() == x,
{
    let e = x.exponent();
    let f = x.fraction();
    let w = x.widened();
    assert(w.exponent() == e + 896);
    assert(w.fraction() == f * 0x2000_0000);
    assert(w.negative() == x.negative());
    assert(rounded(0x10_0000_0000_0000 + f * 0x2000_0000, 0x2000_0000) == 0x80_0000 + f);
}

#[verifier::spinoff_prover]
proof fn lemma_subnormal_is_narrowed_back(x: F32)
    requires
        x.exponent() == 0,
        x.fraction() > 0,
    ensures
        x.widened().narrowed() == x,
{
    let f = x.fraction();
    let w = x.widened();
    vstd::arithmetic::power2::lemma2_to64();
    lemma_doublings(f);
    let steps = doublings(f);
    let power = vstd::arithmetic::power2::pow2(steps) as int;
    let shifted = f * power;
    assert(w.exponent() == 897 - steps);
    assert(w.fraction() == (shifted - 0x80_0000) * 0x2000_0000);
    assert(w.negative() == x.negative());
    if steps == 0 {
        assert(false);
    }
    let divisor = vstd::arithmetic::power2::pow2(29 + steps) as int;
    vstd::arithmetic::power2::lemma_pow2_adds(29, steps);
    vstd::arithmetic::power2::lemma_pow2_pos(29 + steps);
    let significand = 0x10_0000_0000_0000 + w.fraction();
    assert(significand == divisor * f) by (nonlinear_arith)
        requires
            significand == shifted * 0x2000_0000,
            shifted == f * power,
            divisor == 0x2000_0000 * power,
    ;
    vstd::arithmetic::div_mod::lemma_div_multiples_vanish(f, divisor);
    vstd::arithmetic::div_mod::lemma_mod_multiples_basic(f, divisor);
    vstd::arithmetic::mul::lemma_mul_is_commutative(f, divisor);
    assert(rounded(significand, divisor) == f);
}

/// Narrowing gives back every number that widening made.
pub proof fn narrowing_undoes_widening(x: F32)
    requires
        !x.nan(),
    ensures
        x.widened().narrowed() == x,
{
    if x.finite() && x.exponent() > 0 {
        lemma_normal_is_narrowed_back(x);
    } else if x.finite() && x.fraction() > 0 {
        lemma_subnormal_is_narrowed_back(x);
    }
}

/// A larger bit pattern without sign is a larger magnitude.
proof fn lemma_magnitude_grows(x: F32, y: F32)
    requires
        x.unsigned() < y.unsigned(),
        y.finite(),
    ensures
        0 <= x.magnitude() < y.magnitude(),
{
    vstd::arithmetic::power2::lemma2_to64();
    let low = vstd::arithmetic::power2::pow2((x.exponent() - 1) as nat) as int;
    let high = vstd::arithmetic::power2::pow2((y.exponent() - 1) as nat) as int;
    vstd::arithmetic::power2::lemma_pow2_pos((x.exponent() - 1) as nat);
    vstd::arithmetic::power2::lemma_pow2_pos((y.exponent() - 1) as nat);
    let m = 0x80_0000 + x.fraction();
    let n = 0x80_0000 + y.fraction();
    if x.exponent() == y.exponent() {
        assert(x.fraction() < y.fraction());
        assert(0 <= m * low < n * low) by (nonlinear_arith)
            requires
                0 <= m < n,
                low > 0,
        ;
    } else if x.exponent() == 0 {
        assert(n * high >= 0x80_0000) by (nonlinear_arith)
            requires
                n >= 0x80_0000,
                high >= 1,
        ;
    } else {
        vstd::arithmetic::power2::lemma_pow2_unfold(x.exponent() as nat);
        if x.exponent() < y.exponent() - 1 {
            vstd::arithmetic::power2::lemma_pow2_strictly_increases(
                x.exponent() as nat,
                (y.exponent() - 1) as nat,
            );
        }
        assert(0 <= m * low < n * high) by (nonlinear_arith)
            requires
                0 <= m < 0x100_0000,
                n >= 0x80_0000,
                high >= 2 * low,
                low > 0,
        ;
    }
}

/// Comparing ranks compares values: `less` holds of two finite numbers exactly when
/// the value of the one is below that of the other.
pub proof fn order_is_by_value(x: F32, y: F32)
    requires
        x.finite(),
        y.finite(),
    ensures
        x.less(y) <==> x.scaled() < y.scaled(),
        x.same(y) <==> x.scaled() == y.scaled(),
{
    let zero = F32 { bits: 0 };
    if x.unsigned() < y.unsigned() {
        lemma_magnitude_grows(x, y);
    } else if y.unsigned() < x.unsigned() {
        lemma_magnitude_grows(y, x);
    }
    if 0 < x.unsigned() {
        lemma_magnitude_grows(zero, x);
    }
    if 0 < y.unsigned() {
        lemma_magnitude_grows(zero, y);
    }
    if x.unsigned() == y.unsigned() {
        assert(x.fraction() == y.fraction());
    }
}

/// Rounding gives a nearest multiple of the divisor, and of two that are as near the even one.
pub proof fn rounding_is_to_the_nearest(value: int, divisor: int)
    requires
        value >= 0,
        divisor > 0,
        divisor % 2 == 0,
    ensures
        2 * (rounded(value, divisor) * divisor - value) <= divisor,
        2 * (value - rounded(value, divisor) * divisor) <= divisor,
        2 * (rounded(value, divisor) * divisor - value) == divisor || 2 * (value - rounded(
            value,
            divisor,
        ) * divisor) == divisor ==> rounded(value, divisor) % 2 == 0,
{
    let whole = value / divisor;
    let rest = value % divisor;
    vstd::arithmetic::div_mod::lemma_fundamental_div_mod(value, divisor);
    assert(0 <= rest < divisor);
    assert(divisor * whole == whole * divisor) by (nonlinear_arith);
    assert((whole + 1) * divisor == whole * divisor + divisor) by (nonlinear_arith);
}

/// Truncation keeps the whole part of a number that fits, and its sign.
pub proof fn truncation_keeps_the_whole_part(x: F32)
    requires
        x.finite(),
    ensures
        ({
            let one = vstd::arithmetic::power2::pow2(149) as int;
            let t = x.truncated();
            &&& x.negative() ==> t <= 0
            &&& !x.negative() ==> t >= 0
            &&& -0x8000_0000 < t < 0 ==> -t * one <= x.magnitude() < (1 - t) * one
            &&& 0 <= t < 0x7fff_ffff ==> (!x.negative() ==> t * one <= x.magnitude() < (t + 1)
                * one)
            &&& t == 0 ==> x.magnitude() < one
        }),
{
    let one = vstd::arithmetic::power2::pow2(149) as int;
    vstd::arithmetic::power2::lemma_pow2_pos(149);
    let whole = x.magnitude() / one;
    assert(x.magnitude() >= 0) by {
        if x.exponent() != 0 {
            vstd::arithmetic::power2::lemma_pow2_pos((x.exponent() - 1) as nat);
            assert((0x80_0000 + x.fraction()) * vstd::arithmetic::power2::pow2(
                (x.exponent() - 1) as nat,
            ) >= 0) by (nonlinear_arith)
                requires
                    x.fraction() >= 0,
            ;
        }
    }
    vstd::arithmetic::div_mod::lemma_fundamental_div_mod(x.magnitude(), one);
    assert(whole * one <= x.magnitude() < (whole + 1) * one) by (nonlinear_arith)
        requires
            x.magnitude() == one * whole + x.magnitude() % one,
            0 <= x.magnitude() % one < one,
    ;
    assert(whole >= 0) by (nonlinear_arith)
        requires
            whole == x.magnitude() / one,
            x.magnitude() >= 0,
            one > 0,
    ;
}

/// The bits of a double, with one pattern for all that are no number.
pub open spec fn settled_double(bits: u64) -> u64 {
    if (F64 { bits }).nan() {
        DOUBLE_NAN_BITS
    } else {
        bits
    }
}

/// The bits of a single, with one pattern for all that are no number.
pub open spec fn settled_single(bits: u32) -> u32 {
    if (F32 { bits }).nan() {
        SINGLE_NAN_BITS
    } else {
        bits
    }
}

/// The double that `str::parse` reads in a text, by its settled bits, or what it says of a text
/// that it rejects.
pub uninterp spec fn double_of_text(text: Seq<char>) -> Result<u64, Seq<char>>;

/// The single that `str::parse` reads in a text, by its settled bits, or what it says of a text
/// that it rejects.
pub uninterp spec fn single_of_text(text: Seq<char>) -> Result<u32, Seq<char>>;

/// Reads a double with `str::parse`. Whether a text is read, as which number, and what is said
/// of it otherwise, is a function of the text; the rest is left to the standard library, and so
/// are the bits of what is no number.
#[verifier::external_body]
fn read_double(text: &str) -> (r: Result<u64, String>)
    ensures
        double_of_text(text@) == (match r {
            Ok(bits) => Ok::<u64, Seq<char>>(settled_double(bits)),
            Err(fault) => Err(fault@),
        }),
{
    let mut bytes = [0u8; 8];
    match text.parse() {
        Ok(value) => {
            byteorder::LittleEndian::write_f64(&mut bytes, value);
            Ok(u64::from_le_bytes(bytes))
        },
        Err(fault) => Err(std::num::ParseFloatError::to_string(&fault)),
    }
}

/// Reads a single with `str::parse`. Whether a text is read, as which number, and what is said
/// of it otherwise, is a function of the text; the rest is left to the standard library, and so
/// are the bits of what is no number.
#[verifier::external_body]
fn read_single(text: &str) -> (r: Result<u32, String>)
    ensures
        single_of_text(text@) == (match r {
            Ok(bits) => Ok::<u32, Seq<char>>(settled_single(bits)),
            Err(fault) => Err(fault@),
        }),
{
    let mut bytes = [0u8; 4];
    match text.parse() {
        Ok(value) => {
            byteorder::LittleEndian::write_f32(&mut bytes, value);
            Ok(u32::from_le_bytes(bytes))
        },
        Err(fault) => Err(std::num::ParseFloatError::to_string(&fault)),
    }
}

/// Reads a double.
pub fn parse_double(text: &str) -> (r: Result<u64, String>)
    ensures
        double_of_text(text@) == (match r {
            Ok(bits) => Ok::<u64, Seq<char>>(bits),
            Err(fault) => Err(fault@),
        }),
{
    match read_double(text) {
        Ok(bits) => if (F64 { bits }).is_nan() {
            Ok(DOUBLE_NAN_BITS)
        } else {
            Ok(bits)
        },
        Err(fault) => Err(fault),
    }
}

/// Reads a single.
pub fn parse_single(text: &str) -> (r: Result<u32, String>)
    ensures
        single_of_text(text@) == (match r {
            Ok(bits) => Ok::<u32, Seq<char>>(bits),
            Err(fault) => Err(fault@),
        }),
{
    match read_single(text) {
        Ok(bits) => if (F32 { bits }).is_nan() {
            Ok(SINGLE_NAN_BITS)
        } else {
            Ok(bits)
        },
        Err(fault) => Err(fault),
    }
}

} // verus!
