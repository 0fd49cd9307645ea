//! Double-precision numbers, held as the bits that encode them.
//!
//! The sources pass numeric values through untouched and decide only what
//! ordering and finiteness decide: whether a range is usable, where a step has
//! to stop, which state a checkbox is in. Those decisions need no arithmetic,
//! so a number is its IEEE 754 binary64 encoding here and an exact integer in
//! the contracts.

use vstd::arithmetic::power2::lemma_pow2_adds;
use vstd::arithmetic::power2::lemma_pow2_pos;
use vstd::arithmetic::power2::lemma_pow2_strictly_increases;
use vstd::arithmetic::power2::lemma_pow2_unfold;
use vstd::arithmetic::power2::pow2;
use vstd::prelude::*;

verus! {

/// The binary64 encoding of a number, as `f64::to_bits` gives it.
#[derive(Debug, Clone, Copy, PartialEq, Eq, Structural)]
pub struct Float64(pub u64);

/// The sign bit of an encoding.
pub const SIGN_BIT: u64 = 0x8000_0000_0000_0000;

/// The weight of the exponent field's lowest bit, and of the implicit leading
/// digit.
pub const HIDDEN_BIT: u64 = 0x0010_0000_0000_0000;

/// The encoding of infinity, which every finite magnitude is below.
pub const INFINITE: u64 = 0x7ff0_0000_0000_0000;

impl Float64 {
    /// The encoding without its sign bit.
    pub open spec fn magnitude(self) -> int {
        if self.0 >= SIGN_BIT {
            self.0 - SIGN_BIT
        } else {
            self.0 as int
        }
    }

    pub open spec fn is_negative(self) -> bool {
        self.0 >= SIGN_BIT
    }

    pub open spec fn nan(self) -> bool {
        self.magnitude() > INFINITE
    }

    pub open spec fn finite(self) -> bool {
        self.magnitude() < INFINITE
    }

    /// The encoding with zero written one way: negative zero is zero.
    pub open spec fn normal(self) -> Float64 {
        if self.magnitude() == 0 {
            Float64(0)
        } else {
            self
        }
    }

    /// The number this encodes, exactly, in units of the smallest positive
    /// double. An infinity counts as the power of two just beyond the largest
    /// finite number.
    pub open spec fn value(self) -> int {
        if self.is_negative() {
            -scaled(self.magnitude())
        } else {
            scaled(self.magnitude())
        }
    }
}

/// How many of the smallest positive double a magnitude stands for.
pub open spec fn scaled(magnitude: int) -> int {
    let exponent = magnitude / HIDDEN_BIT as int;
    let fraction = magnitude % HIDDEN_BIT as int;
    if exponent <= 0 {
        fraction
    } else {
        (HIDDEN_BIT + fraction) * pow2((exponent - 1) as nat) as int
    }
}

/// The number one, in units of the smallest positive double.
pub open spec fn unit() -> int {
    pow2(1074) as int
}

/// A larger magnitude stands for a larger number.
pub proof fn lemma_scaled_increases(a: int, b: int)
    requires
        0 <= a < b,
    ensures
        0 <= scaled(a) < scaled(b),
{
    let h = HIDDEN_BIT as int;
    let (ea, fa) = (a / h, a % h);
    let (eb, fb) = (b / h, b % h);
    assert(a == h * ea + fa && b == h * eb + fb && 0 <= fa < h && 0 <= fb < h && 0 <= ea && 0 <= eb)
        by (nonlinear_arith)
        requires
            h == 0x0010_0000_0000_0000,
            ea == a / h,
            fa == a % h,
            eb == b / h,
            fb == b % h,
            0 <= a,
            0 <= b,
    ;
    assert(ea <= eb) by (nonlinear_arith)
        requires
            a < b,
            a == h * ea + fa,
            b == h * eb + fb,
            0 <= fa < h,
            0 <= fb < h,
    ;
    if ea >= 1 {
        lemma_pow2_pos((ea - 1) as nat);
    }
    if eb >= 1 {
        lemma_pow2_pos((eb - 1) as nat);
    }
    if ea == eb {
        assert(fa < fb);
        if ea >= 1 {
            let p = pow2((ea - 1) as nat) as int;
            assert(0 <= (h + fa) * p < (h + fb) * p) by (nonlinear_arith)
                requires
                    0 <= fa < fb,
                    0 < h,
                    0 < p,
            ;
        }
    } else {
        let q = pow2((eb - 1) as nat) as int;
        assert(h * q <= (h + fb) * q && h <= h * q) by (nonlinear_arith)
            requires
                0 <= fb,
                0 < h,
                1 <= q,
        ;
        if ea >= 1 {
            let p = pow2((ea - 1) as nat) as int;
            if ea < eb - 1 {
                lemma_pow2_strictly_increases(ea as nat, (eb - 1) as nat);
            }
            lemma_pow2_unfold(ea as nat);
            assert(0 <= (h + fa) * p < h * q) by (nonlinear_arith)
                requires
                    0 <= fa < h,
                    0 < p,
                    2 * p <= q,
            ;
        }
    }
}

/// With zero written one way, two numbers have the same encoding exactly if they are
/// the same number.
pub proof fn law_normal_encodings_are_values(a: Float64, b: Float64)
    ensures
        a.normal() == b.normal() <==> a.value() == b.value(),
{
    let (m, n) = (a.magnitude(), b.magnitude());
    if m < n {
        lemma_scaled_increases(m, n);
    }
    if n < m {
        lemma_scaled_increases(n, m);
    }
    if m > 0 {
        lemma_scaled_increases(0, m);
    }
}

impl Float64 {
    /// Whether the number is neither infinite nor NaN.
    pub fn is_finite(self) -> (finite: bool)
        ensures
            finite == self.finite(),
    {
        self.unsigned() < INFINITE
    }

    pub fn is_nan(self) -> (nan: bool)
        ensures
            nan == self.nan(),
    {
        self.unsigned() > INFINITE
    }

    fn unsigned(self) -> (magnitude: u64)
        ensures
            magnitude == self.magnitude(),
            0 <= self.magnitude() < SIGN_BIT,
    {
        if self.0 >= SIGN_BIT {
            self.0 - SIGN_BIT
        } else {
            self.0
        }
    }

    /// The encoding with zero written one way.
    pub fn to_normal(self) -> (normal: Float64)
        ensures
            normal == self.normal(),
    {
        if self.unsigned() == 0 {
            Float64(0)
        } else {
            self
        }
    }

    /// Whether this number is less than `other`. A NaN is less than nothing
    /// and nothing is less than it.
    pub fn less(self, other: Float64) -> (less: bool)
        ensures
            less == (!self.nan() && !other.nan() && self.value() < other.value()),
    {
        let a: u64 = self.unsigned();
        let b: u64 = other.unsigned();
        if a > INFINITE || b > INFINITE {
            return false;
        }
        proof {
            if a < b {
                lemma_scaled_increases(a as int, b as int);
            }
            if b < a {
                lemma_scaled_increases(b as int, a as int);
            }
            if a > 0 {
                lemma_scaled_increases(0, a as int);
            }
            if b > 0 {
                lemma_scaled_increases(0, b as int);
            }
            assert(scaled(0) == 0);
        }
        if self.0 >= SIGN_BIT {
            if other.0 >= SIGN_BIT {
                b < a
            } else {
                a > 0 || b > 0
            }
        } else {
            if other.0 >= SIGN_BIT {
                false
            } else {
                a < b
            }
        }
    }

    /// Whether this number is greater than zero.
    pub fn is_positive(self) -> (positive: bool)
        ensures
            positive == (!self.nan() && self.value() > 0),
    {
        assert(Float64(0).value() == 0);
        Float64(0).less(self)
    }

    /// This number, brought into `low..=high`.
    pub fn clamp_to(self, low: Float64, high: Float64) -> (bounded: Float64)
        ensures
            bounded == clamped(self, low, high),
    {
        if self.less(low) {
            low
        } else if high.less(self) {
            high
        } else {
            self
        }
    }

    /// The whole number that remains when the fraction is dropped, told apart
    /// as far as a three-state control needs.
    pub fn whole_part(self) -> (part: WholePart)
        ensures
            part == whole_part_of(self),
    {
        proof {
            lemma_small_numbers();
        }
        if !self.is_finite() {
            // An infinity is far from both numbers told apart; a NaN has no
            // whole part and counts as zero.
            return if self.unsigned() > INFINITE {
                WholePart::Zero
            } else {
                proof {
                    lemma_scaled_increases(THREE as int, INFINITE as int);
                }
                WholePart::Other
            };
        }
        if Float64(MINUS_ONE).less(self) && self.less(Float64(ONE)) {
            WholePart::Zero
        } else if !self.less(Float64(TWO)) && self.less(Float64(THREE)) {
            WholePart::Two
        } else {
            WholePart::Other
        }
    }
}

/// The encodings of the small whole numbers that a three-state control reports.
pub const ONE: u64 = 0x3ff0_0000_0000_0000;

pub const MINUS_ONE: u64 = 0xbff0_0000_0000_0000;

pub const TWO: u64 = 0x4000_0000_0000_0000;

pub const THREE: u64 = 0x4008_0000_0000_0000;

#[derive(Debug, Clone, Copy, PartialEq, Eq, Structural)]
pub enum WholePart {
    Zero,
    Two,
    Other,
}

/// Which whole number is left of `number` when its fraction is dropped.
pub open spec fn whole_part_of(number: Float64) -> WholePart {
    if number.nan() || -unit() < number.value() < unit() {
        WholePart::Zero
    } else if 2 * unit() <= number.value() < 3 * unit() {
        WholePart::Two
    } else {
        WholePart::Other
    }
}

/// `number` brought into `low..=high`.
pub open spec fn clamped(number: Float64, low: Float64, high: Float64) -> Float64 {
    if !number.nan() && !low.nan() && number.value() < low.value() {
        low
    } else if !number.nan() && !high.nan() && high.value() < number.value() {
        high
    } else {
        number
    }
}

/// The named encodings stand for the numbers they are named after.
pub proof fn lemma_small_numbers()
    ensures
        Float64(ONE).value() == unit(),
        Float64(MINUS_ONE).value() == -unit(),
        Float64(TWO).value() == 2 * unit(),
        Float64(THREE).value() == 3 * unit(),
{
    let h = HIDDEN_BIT as int;
    assert(pow2(52) == h) by {
        vstd::arithmetic::power2::lemma2_to64_rest();
    }
    assert(pow2(51) * 2 == h) by {
        vstd::arithmetic::power2::lemma2_to64_rest();
    }
    lemma_pow2_adds(52, 1022);
    lemma_pow2_adds(51, 1023);
    lemma_pow2_unfold(1075);
    lemma_pow2_unfold(1023);
    let p = pow2(1022) as int;
    let q = pow2(1023) as int;
    assert(h * q == 2 * (h * p)) by (nonlinear_arith)
        requires
            q == 2 * p,
    ;
    assert((h + h / 2) * q == 3 * (h * p)) by (nonlinear_arith)
        requires
            q == 2 * p,
            h == 0x0010_0000_0000_0000,
    ;
}

/// A clamped number lies in the range it was clamped to.
pub proof fn law_clamped_lies_in_range(number: Float64, low: Float64, high: Float64)
    requires
        !number.nan(),
        low.finite(),
        high.finite(),
        low.value() <= high.value(),
    ensures
        low.value() <= clamped(number, low, high).value() <= high.value(),
{
}

/// Clamping leaves a number that lies in the range alone, and brings any other to the
/// end of the range that it lies beyond.
pub proof fn law_clamping_moves_only_what_is_outside(
    number: Float64,
    low: Float64,
    high: Float64,
)
    requires
        !number.nan(),
        !low.nan(),
        !high.nan(),
        low.value() <= high.value(),
    ensures
        low.value() <= number.value() <= high.value() ==> clamped(number, low, high) == number,
        number.value() < low.value() ==> clamped(number, low, high) == low,
        high.value() < number.value() ==> clamped(number, low, high) == high,
{
}

} // verus!
