//! Stat values as plain numbers.
//!
//! A stat value is a single-precision number, held here as its 32-bit
//! pattern: one sign bit (the highest), then the magnitude. Patterns with
//! one sign order their numbers by magnitude, and the magnitudes above that
//! of infinity are the not-a-number patterns, so comparing, negating and
//! selecting are exact integer computations and are done here.
//!
//! Rounding arithmetic is not: it is asked of an [`Arithmetic`], which the
//! embedding program supplies.

use vstd::prelude::*;

verus! {

/// The 32-bit pattern of a single-precision number.
pub type Scalar = u32;

/// Zero.
pub const ZERO: Scalar = 0;

/// One.
pub const ONE: Scalar = 0x3F80_0000;

/// Positive infinity.
pub const INFINITY: Scalar = 0x7F80_0000;

/// Negative infinity.
pub const NEG_INFINITY: Scalar = 0xFF80_0000;

/// The sign bit; also the pattern of negative zero.
pub const SIGN: Scalar = 0x8000_0000;

/// One millionth: `==` and `!=` compare within this distance.
pub const EQ_EPSILON: Scalar = 0x3586_37BD;

/// One billionth: divisors smaller than this in magnitude count as zero.
pub const DIV_EPSILON: Scalar = 0x3089_705F;

/// The pattern with its sign bit cleared.
pub open spec fn magnitude(v: Scalar) -> int {
    if v >= SIGN {
        v - SIGN
    } else {
        v as int
    }
}

/// Whether the pattern is not a number.
pub open spec fn nan(v: Scalar) -> bool {
    magnitude(v) > INFINITY
}

/// Whether the pattern is a number other than an infinity.
pub open spec fn finite(v: Scalar) -> bool {
    magnitude(v) < INFINITY
}

/// The position of a number among all numbers: numbers compare as these
/// integers do. The two zeros share a position.
pub open spec fn order(v: Scalar) -> int {
    if v >= SIGN {
        -magnitude(v)
    } else {
        magnitude(v)
    }
}

/// `a == b` as numbers.
pub open spec fn equals(a: Scalar, b: Scalar) -> bool {
    !nan(a) && !nan(b) && order(a) == order(b)
}

/// `a < b` as numbers.
pub open spec fn below(a: Scalar, b: Scalar) -> bool {
    !nan(a) && !nan(b) && order(a) < order(b)
}

/// `a <= b` as numbers.
pub open spec fn at_most(a: Scalar, b: Scalar) -> bool {
    !nan(a) && !nan(b) && order(a) <= order(b)
}

/// `v` with the opposite sign.
pub open spec fn negated(v: Scalar) -> Scalar {
    if v >= SIGN {
        (v - SIGN) as Scalar
    } else {
        (v + SIGN) as Scalar
    }
}

/// `v` without its sign.
pub open spec fn absolute(v: Scalar) -> Scalar {
    magnitude(v) as Scalar
}

/// The smaller of two numbers; a not-a-number side gives way to the other.
pub open spec fn lesser(a: Scalar, b: Scalar) -> Scalar {
    if nan(a) || below(b, a) {
        b
    } else {
        a
    }
}

/// The larger of two numbers; a not-a-number side gives way to the other.
pub open spec fn greater(a: Scalar, b: Scalar) -> Scalar {
    if nan(a) || below(a, b) {
        b
    } else {
        a
    }
}

/// `v` held between `lo` and `hi`, and `lo` where the bounds are not in order.
pub open spec fn clamped(v: Scalar, lo: Scalar, hi: Scalar) -> Scalar {
    if !at_most(lo, hi) || below(v, lo) {
        lo
    } else if below(hi, v) {
        hi
    } else {
        v
    }
}

/// One for `true`, zero for `false`.
pub open spec fn truth(b: bool) -> Scalar {
    if b {
        ONE
    } else {
        ZERO
    }
}

/// Whether `v` is a number other than an infinity.
pub fn is_finite(v: Scalar) -> (r: bool)
    ensures
        r == finite(v),
{
    if v >= SIGN {
        v - SIGN < INFINITY
    } else {
        v < INFINITY
    }
}

/// Whether `v` is not a number.
pub fn is_nan(v: Scalar) -> (r: bool)
    ensures
        r == nan(v),
{
    if v >= SIGN {
        v - SIGN > INFINITY
    } else {
        v > INFINITY
    }
}

/// Whether `a < b`.
pub fn is_below(a: Scalar, b: Scalar) -> (r: bool)
    ensures
        r == below(a, b),
{
    if is_nan(a) || is_nan(b) {
        false
    } else if a >= SIGN {
        if b >= SIGN {
            b < a
        } else {
            a > SIGN || b > 0
        }
    } else {
        b < SIGN && a < b
    }
}

/// Whether `a <= b`.
pub fn is_at_most(a: Scalar, b: Scalar) -> (r: bool)
    ensures
        r == at_most(a, b),
{
    !is_nan(a) && !is_nan(b) && !is_below(b, a)
}

/// Whether `a == b` as numbers.
pub fn is_equal(a: Scalar, b: Scalar) -> (r: bool)
    ensures
        r == equals(a, b),
{
    is_at_most(a, b) && is_at_most(b, a)
}

/// `v` with the opposite sign.
pub fn negate(v: Scalar) -> (r: Scalar)
    ensures
        r == negated(v),
{
    if v >= SIGN {
        v - SIGN
    } else {
        v + SIGN
    }
}

/// `v` without its sign.
pub fn abs(v: Scalar) -> (r: Scalar)
    ensures
        r == absolute(v),
{
    if v >= SIGN {
        v - SIGN
    } else {
        v
    }
}

/// The smaller of two numbers.
pub fn min(a: Scalar, b: Scalar) -> (r: Scalar)
    ensures
        r == lesser(a, b),
{
    if is_nan(a) || is_below(b, a) {
        b
    } else {
        a
    }
}

/// The larger of two numbers.
pub fn max(a: Scalar, b: Scalar) -> (r: Scalar)
    ensures
        r == greater(a, b),
{
    if is_nan(a) || is_below(a, b) {
        b
    } else {
        a
    }
}

/// `v` held between `lo` and `hi`.
pub fn clamp(v: Scalar, lo: Scalar, hi: Scalar) -> (r: Scalar)
    ensures
        r == clamped(v, lo, hi),
{
    if !is_at_most(lo, hi) || is_below(v, lo) {
        lo
    } else if is_below(hi, v) {
        hi
    } else {
        v
    }
}

/// One for `true`, zero for `false`.
pub fn bool_val(b: bool) -> (r: Scalar)
    ensures
        r == truth(b),
{
    if b {
        ONE
    } else {
        ZERO
    }
}

/// The rounding operations on single-precision numbers, and what else the
/// embedding program brings: the reductions that it adds to the built-in ones,
/// and what it does about a cycle.
///
/// Nothing is assumed of an implementation: what the library promises of a
/// value is which of these operations were applied to what, in which order.
pub trait Arithmetic {
    /// The number that a decimal literal such as `10` or `2.5` denotes.
    fn literal(&self, text: &str) -> Scalar;

    /// The sum `a + b`.
    fn plus(&self, a: Scalar, b: Scalar) -> Scalar;

    /// The difference `a - b`.
    fn minus(&self, a: Scalar, b: Scalar) -> Scalar;

    /// The product `a * b`.
    fn times(&self, a: Scalar, b: Scalar) -> Scalar;

    /// The quotient `a / b`.
    fn over(&self, a: Scalar, b: Scalar) -> Scalar;

    /// The remainder `a % b`.
    fn modulo(&self, a: Scalar, b: Scalar) -> Scalar;

    /// `a` to the power `b`.
    fn power(&self, a: Scalar, b: Scalar) -> Scalar;

    /// The largest whole number not above `a`.
    fn floor(&self, a: Scalar) -> Scalar;

    /// The smallest whole number not below `a`.
    fn ceil(&self, a: Scalar) -> Scalar;

    /// The nearest whole number, halves away from zero.
    fn round(&self, a: Scalar) -> Scalar;

    /// The square root.
    fn sqrt(&self, a: Scalar) -> Scalar;

    /// The reduction that the program knows as `key`, over `values`.
    fn custom(&self, key: u64, values: &Vec<Scalar>) -> Scalar;

    /// Called where `stat` turns out to depend on itself, and so counts as
    /// zero.
    fn cycle(&self, stat: &str);
}

/// `r` is a result of `host.literal` on a text of these characters.
pub open spec fn literal_value<A: Arithmetic>(host: A, text: Seq<char>, r: Scalar) -> bool {
    exists|t: &str| t@ == text && #[trigger] call_ensures(A::literal, (&host, t), r)
}

/// `r` is a result of `host.plus(a, b)`.
pub open spec fn plus_value<A: Arithmetic>(host: A, a: Scalar, b: Scalar, r: Scalar) -> bool {
    call_ensures(A::plus, (&host, a, b), r)
}

/// `r` is a result of `host.minus(a, b)`.
pub open spec fn minus_value<A: Arithmetic>(host: A, a: Scalar, b: Scalar, r: Scalar) -> bool {
    call_ensures(A::minus, (&host, a, b), r)
}

/// `r` is a result of `host.times(a, b)`.
pub open spec fn times_value<A: Arithmetic>(host: A, a: Scalar, b: Scalar, r: Scalar) -> bool {
    call_ensures(A::times, (&host, a, b), r)
}

/// `r` is a result of `host.over(a, b)`.
pub open spec fn over_value<A: Arithmetic>(host: A, a: Scalar, b: Scalar, r: Scalar) -> bool {
    call_ensures(A::over, (&host, a, b), r)
}

/// `r` is a result of `host.modulo(a, b)`.
pub open spec fn modulo_value<A: Arithmetic>(host: A, a: Scalar, b: Scalar, r: Scalar) -> bool {
    call_ensures(A::modulo, (&host, a, b), r)
}

/// `r` is a result of `host.power(a, b)`.
pub open spec fn power_value<A: Arithmetic>(host: A, a: Scalar, b: Scalar, r: Scalar) -> bool {
    call_ensures(A::power, (&host, a, b), r)
}

/// `r` is a result of `host.floor(a)`.
pub open spec fn floor_value<A: Arithmetic>(host: A, a: Scalar, r: Scalar) -> bool {
    call_ensures(A::floor, (&host, a), r)
}

/// `r` is a result of `host.ceil(a)`.
pub open spec fn ceil_value<A: Arithmetic>(host: A, a: Scalar, r: Scalar) -> bool {
    call_ensures(A::ceil, (&host, a), r)
}

/// `r` is a result of `host.round(a)`.
pub open spec fn round_value<A: Arithmetic>(host: A, a: Scalar, r: Scalar) -> bool {
    call_ensures(A::round, (&host, a), r)
}

/// `r` is a result of `host.sqrt(a)`.
pub open spec fn sqrt_value<A: Arithmetic>(host: A, a: Scalar, r: Scalar) -> bool {
    call_ensures(A::sqrt, (&host, a), r)
}

/// `r` is a result of `host.custom` on `key` and a list of these values.
pub open spec fn custom_value<A: Arithmetic>(host: A, key: u64, values: Seq<Scalar>, r: Scalar) -> bool {
    exists|list: Vec<Scalar>| list@ == values && #[trigger] call_ensures(A::custom, (&host, key, &list), r)
}

} // verus!
