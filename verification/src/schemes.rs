//! Linear interpolation between two points `(x0, f0)` and `(x1, f1)`, from
//! index to value and from value back to index.
//!
//! Indices are `u64`. Integer values are interpolated with 128-bit
//! intermediates, so that no product or sum overflows. Signed values are
//! shifted onto the unsigned range first, where subtracting the smallest
//! value from the largest cannot overflow. Floating-point values are
//! interpolated in extended precision, which holds every index exactly.

use vstd::prelude::*;
use vstd::arithmetic::div_mod::lemma_fundamental_div_mod;
use vstd::arithmetic::div_mod::lemma_fundamental_div_mod_converse;
use vstd::arithmetic::div_mod::lemma_div_is_ordered;
use crate::divop::{ceil_div, divide, floor_div, nearest_div, DivOp, Method};
use crate::extended::F80;

verus! {

/// A type whose values lie on the integer number line.
///
/// `key` gives the position of a value; two values compare as their keys do.
pub trait Ordered: Copy {
    /// The position of `self` on the number line.
    spec fn key(self) -> int;

    /// Whether `self` lies strictly before `other`.
    fn less(&self, other: &Self) -> (b: bool)
        ensures
            b == (self.key() < other.key()),
    ;
}

impl Ordered for u64 {
    open spec fn key(self) -> int {
        self as int
    }

    fn less(&self, other: &u64) -> (b: bool) {
        *self < *other
    }
}

impl Ordered for i64 {
    open spec fn key(self) -> int {
        self as int
    }

    fn less(&self, other: &i64) -> (b: bool) {
        *self < *other
    }
}

/// The weighted sum whose quotient by `t1 - t0` is the point of the line
/// through `(t0, v0)` and `(t1, v1)` at `t`.
pub open spec fn weighted_sum(t: int, t0: int, t1: int, v0: int, v1: int) -> int {
    v0 * (t1 - t) + v1 * (t - t0)
}

/// The point at `t` of the line through `(t0, v0)` and `(t1, v1)`, resolved
/// to an integer under `method`.
pub open spec fn solve(t: int, t0: int, t1: int, v0: int, v1: int, method: Method) -> Option<int>
    recommends
        t0 < t1,
        t0 <= t <= t1,
{
    divide(weighted_sum(t, t0, t1, v0, v1), t1 - t0, method)
}

/// The point at `t` of the line through `(t0, v0)` and `(t1, v1)`, rounded
/// to the nearest integer, ties to even.
pub open spec fn interpolate(t: int, t0: int, t1: int, v0: int, v1: int) -> int
    recommends
        t0 < t1,
        t0 <= t <= t1,
{
    nearest_div(weighted_sum(t, t0, t1, v0, v1), t1 - t0)
}

/// The smaller of two integers.
pub open spec fn lower(a: int, b: int) -> int {
    if a <= b {
        a
    } else {
        b
    }
}

/// The larger of two integers.
pub open spec fn upper(a: int, b: int) -> int {
    if a <= b {
        b
    } else {
        a
    }
}

/// A dividend between two multiples of the divisor has every rounded
/// quotient between the two factors.
pub proof fn lemma_divide_between(n: int, d: int, lo: int, hi: int)
    requires
        d > 0,
        lo * d <= n <= hi * d,
    ensures
        lo <= floor_div(n, d) <= nearest_div(n, d) <= ceil_div(n, d) <= hi,
{
    lemma_fundamental_div_mod(n, d);
    let q = n / d;
    let r = n % d;
    assert(lo <= q) by (nonlinear_arith)
        requires
            lo * d <= d * q + r,
            0 <= r < d,
    ;
    assert(q <= hi && (r > 0 ==> q < hi)) by (nonlinear_arith)
        requires
            d * q + r <= hi * d,
            0 <= r < d,
    ;
}

/// Between the two end points the weighted sum stays between the end
/// values scaled by the width, so the interpolated value, however it is
/// rounded, stays between the end values.
pub proof fn lemma_interpolation_between(t: int, t0: int, t1: int, v0: int, v1: int)
    requires
        t0 < t1,
        t0 <= t <= t1,
    ensures
        lower(v0, v1) * (t1 - t0) <= weighted_sum(t, t0, t1, v0, v1) <= upper(v0, v1) * (t1 - t0),
        lower(v0, v1) <= floor_div(weighted_sum(t, t0, t1, v0, v1), t1 - t0),
        floor_div(weighted_sum(t, t0, t1, v0, v1), t1 - t0) <= interpolate(t, t0, t1, v0, v1),
        interpolate(t, t0, t1, v0, v1) <= ceil_div(weighted_sum(t, t0, t1, v0, v1), t1 - t0),
        ceil_div(weighted_sum(t, t0, t1, v0, v1), t1 - t0) <= upper(v0, v1),
{
    let lo = lower(v0, v1);
    let hi = upper(v0, v1);
    let a = t1 - t;
    let b = t - t0;
    assert(lo * (a + b) <= v0 * a + v1 * b <= hi * (a + b)) by (nonlinear_arith)
        requires
            a >= 0,
            b >= 0,
            lo <= v0 <= hi,
            lo <= v1 <= hi,
    ;
    lemma_divide_between(weighted_sum(t, t0, t1, v0, v1), t1 - t0, lo, hi);
}

/// At an end point the line takes the end value exactly, under every
/// rounding rule.
pub proof fn lemma_solve_at_ends(t0: int, t1: int, v0: int, v1: int, method: Method)
    requires
        t0 < t1,
    ensures
        solve(t0, t0, t1, v0, v1, method) == Some(v0),
        solve(t1, t0, t1, v0, v1, method) == Some(v1),
        interpolate(t0, t0, t1, v0, v1) == v0,
        interpolate(t1, t0, t1, v0, v1) == v1,
{
    let d = t1 - t0;
    assert(weighted_sum(t0, t0, t1, v0, v1) == v0 * d + 0) by (nonlinear_arith)
        requires
            d == t1 - t0,
    ;
    assert(weighted_sum(t1, t0, t1, v0, v1) == v1 * d + 0) by (nonlinear_arith)
        requires
            d == t1 - t0,
    ;
    lemma_fundamental_div_mod_converse(v0 * d, d, v0, 0);
    lemma_fundamental_div_mod_converse(v1 * d, d, v1, 0);
}

/// Rounding to nearest never reverses the order of two dividends.
pub proof fn lemma_nearest_div_monotone(n1: int, n2: int, d: int)
    requires
        d > 0,
        n1 <= n2,
    ensures
        nearest_div(n1, d) <= nearest_div(n2, d),
{
    lemma_fundamental_div_mod(n1, d);
    lemma_fundamental_div_mod(n2, d);
    lemma_div_is_ordered(n1, n2, d);
    if n1 / d == n2 / d {
        assert(n1 % d <= n2 % d) by (nonlinear_arith)
            requires
                n1 == d * (n1 / d) + n1 % d,
                n2 == d * (n2 / d) + n2 % d,
                n1 / d == n2 / d,
                n1 <= n2,
        ;
    }
}

/// On a line that does not descend, the interpolated value does not
/// descend either.
pub proof fn lemma_interpolate_monotone(ta: int, tb: int, t0: int, t1: int, v0: int, v1: int)
    requires
        t0 < t1,
        t0 <= ta <= tb <= t1,
        v0 <= v1,
    ensures
        interpolate(ta, t0, t1, v0, v1) <= interpolate(tb, t0, t1, v0, v1),
{
    assert(weighted_sum(ta, t0, t1, v0, v1) <= weighted_sum(tb, t0, t1, v0, v1))
        by (nonlinear_arith)
        requires
            ta <= tb,
            v0 <= v1,
    ;
    lemma_nearest_div_monotone(
        weighted_sum(ta, t0, t1, v0, v1),
        weighted_sum(tb, t0, t1, v0, v1),
        t1 - t0,
    );
}

/// Adding an even multiple of the divisor to the dividend adds that
/// multiple's factor to the quotient rounded to nearest.
pub proof fn lemma_nearest_div_shift(n: int, d: int, k: int)
    requires
        d > 0,
        k % 2 == 0,
    ensures
        nearest_div(n + k * d, d) == nearest_div(n, d) + k,
{
    lemma_fundamental_div_mod(n, d);
    let q = n / d;
    let r = n % d;
    assert(n + k * d == (q + k) * d + r) by (nonlinear_arith)
        requires
            n == d * q + r,
    ;
    lemma_fundamental_div_mod_converse(n + k * d, d, q + k, r);
}

/// Interpolation from index to value.
pub trait Forward<F>: Ordered {
    /// The value at `self` on the line through `(x0, f0)` and `(x1, f1)`.
    spec fn forward_spec(self, x0: Self, x1: Self, f0: F, f1: F) -> F;

    /// Estimates the value at index `self` between the two points
    /// `(x0, f0)` and `(x1, f1)`.
    fn forward(self, x0: Self, x1: Self, f0: F, f1: F) -> (f: F)
        requires
            x0.key() < x1.key(),
            x0.key() <= self.key() <= x1.key(),
        ensures
            f == self.forward_spec(x0, x1, f0, f1),
    ;
}

/// Interpolation from value to index.
pub trait Inverse<X>: Ordered {
    /// The index at which the line through `(x0, f0)` and `(x1, f1)` takes
    /// the value `self`, resolved under `method`.
    spec fn inverse_spec(self, x0: X, x1: X, f0: Self, f1: Self, method: Method) -> Option<X>;

    /// Estimates the index of value `self` between the two points
    /// `(x0, f0)` and `(x1, f1)`.
    fn inverse(self, x0: X, x1: X, f0: Self, f1: Self, method: Method) -> (x: Option<X>)
        requires
            f0.key() < f1.key(),
            f0.key() <= self.key() <= f1.key(),
        ensures
            x == self.inverse_spec(x0, x1, f0, f1, method),
    ;
}

/// The shift of a signed value onto the unsigned range.
pub trait ToUnsigned<U> {
    /// The unsigned image of `self`.
    spec fn to_unsigned_spec(self) -> U;

    /// Subtracts the smallest signed value, which leaves no negative
    /// result.
    fn to_unsigned(self) -> (u: U)
        ensures
            u == self.to_unsigned_spec(),
    ;
}

/// The shift of an unsigned value back onto the signed range.
pub trait ToSigned<S> {
    /// The signed image of `self`.
    spec fn to_signed_spec(self) -> S;

    /// Adds the smallest signed value.
    fn to_signed(self) -> (s: S)
        ensures
            s == self.to_signed_spec(),
    ;
}

impl ToUnsigned<u64> for i64 {
    open spec fn to_unsigned_spec(self) -> u64 {
        (self - i64::MIN) as u64
    }

    fn to_unsigned(self) -> (u: u64) {
        if self >= 0 {
            self as u64 + 0x8000_0000_0000_0000u64
        } else {
            (self - i64::MIN) as u64
        }
    }
}

impl ToSigned<i64> for u64 {
    open spec fn to_signed_spec(self) -> i64 {
        (self + i64::MIN) as i64
    }

    fn to_signed(self) -> (s: i64) {
        if self >= 0x8000_0000_0000_0000u64 {
            (self - 0x8000_0000_0000_0000u64) as i64
        } else {
            self as i64 + i64::MIN
        }
    }
}

impl Forward<u64> for u64 {
    open spec fn forward_spec(self, x0: u64, x1: u64, f0: u64, f1: u64) -> u64 {
        interpolate(self as int, x0 as int, x1 as int, f0 as int, f1 as int) as u64
    }

    fn forward(self, x0: u64, x1: u64, f0: u64, f1: u64) -> (f: u64) {
        proof {
            lemma_interpolation_between(self as int, x0 as int, x1 as int, f0 as int, f1 as int);
            lemma_weighted_sum_fits(self as int, x0 as int, x1 as int, f0 as int, f1 as int);
        }
        let num: u128 = (f0 as u128) * ((x1 - self) as u128) + (f1 as u128) * ((self - x0) as u128);
        let den: u128 = (x1 - x0) as u128;
        num.div(den, Method::Nearest).unwrap() as u64
    }
}

/// With 64-bit operands the weighted sum and its two products fit in 128
/// bits.
proof fn lemma_weighted_sum_fits(t: int, t0: int, t1: int, v0: int, v1: int)
    requires
        0 <= t0 < t1 <= u64::MAX,
        t0 <= t <= t1,
        0 <= v0 <= u64::MAX,
        0 <= v1 <= u64::MAX,
    ensures
        0 <= v0 * (t1 - t) <= u128::MAX,
        0 <= v1 * (t - t0) <= u128::MAX,
        0 <= weighted_sum(t, t0, t1, v0, v1) <= u128::MAX,
{
    let a = t1 - t;
    let b = t - t0;
    assert(0 <= v0 * a && 0 <= v1 * b && v0 * a + v1 * b <= 0xffff_ffff_ffff_ffff
        * 0xffff_ffff_ffff_ffff) by (nonlinear_arith)
        requires
            0 <= a,
            0 <= b,
            a + b <= 0xffff_ffff_ffff_ffff,
            0 <= v0 <= 0xffff_ffff_ffff_ffff,
            0 <= v1 <= 0xffff_ffff_ffff_ffff,
    ;
}

impl Forward<i64> for u64 {
    open spec fn forward_spec(self, x0: u64, x1: u64, f0: i64, f1: i64) -> i64 {
        interpolate(self as int, x0 as int, x1 as int, f0 as int, f1 as int) as i64
    }

    fn forward(self, x0: u64, x1: u64, f0: i64, f1: i64) -> (f: i64) {
        proof {
            let bias = -(i64::MIN as int);
            let width = x1 - x0;
            lemma_interpolation_between(self as int, x0 as int, x1 as int, f0 as int, f1 as int);
            lemma_interpolation_between(
                self as int,
                x0 as int,
                x1 as int,
                f0 + bias,
                f1 + bias,
            );
            assert(weighted_sum(self as int, x0 as int, x1 as int, f0 + bias, f1 + bias)
                == weighted_sum(self as int, x0 as int, x1 as int, f0 as int, f1 as int) + bias
                * width) by (nonlinear_arith)
                requires
                    width == x1 - x0,
            ;
            lemma_nearest_div_shift(
                weighted_sum(self as int, x0 as int, x1 as int, f0 as int, f1 as int),
                width,
                bias,
            );
        }
        let shifted: u64 = self.forward(x0, x1, f0.to_unsigned(), f1.to_unsigned());
        shifted.to_signed()
    }
}

impl Inverse<u64> for u64 {
    open spec fn inverse_spec(self, x0: u64, x1: u64, f0: u64, f1: u64, method: Method) -> Option<
        u64,
    > {
        match solve(self as int, f0 as int, f1 as int, x0 as int, x1 as int, method) {
            Some(x) => Some(x as u64),
            None => None,
        }
    }

    fn inverse(self, x0: u64, x1: u64, f0: u64, f1: u64, method: Method) -> (x: Option<u64>) {
        proof {
            lemma_interpolation_between(self as int, f0 as int, f1 as int, x0 as int, x1 as int);
            lemma_weighted_sum_fits(self as int, f0 as int, f1 as int, x0 as int, x1 as int);
        }
        let num: u128 = (x0 as u128) * ((f1 - self) as u128) + (x1 as u128) * ((self - f0) as u128);
        let den: u128 = (f1 - f0) as u128;
        match num.div(den, method) {
            Some(x) => Some(x as u64),
            None => None,
        }
    }
}

impl Inverse<u64> for i64 {
    open spec fn inverse_spec(self, x0: u64, x1: u64, f0: i64, f1: i64, method: Method) -> Option<
        u64,
    > {
        match solve(self as int, f0 as int, f1 as int, x0 as int, x1 as int, method) {
            Some(x) => Some(x as u64),
            None => None,
        }
    }

    fn inverse(self, x0: u64, x1: u64, f0: i64, f1: i64, method: Method) -> (x: Option<u64>) {
        proof {
            let bias = -(i64::MIN as int);
            assert(weighted_sum(self + bias, f0 + bias, f1 + bias, x0 as int, x1 as int)
                == weighted_sum(self as int, f0 as int, f1 as int, x0 as int, x1 as int));
        }
        self.to_unsigned().inverse(x0, x1, f0.to_unsigned(), f1.to_unsigned(), method)
    }
}

/// Forward schemes that keep the order of the values: what they compute
/// lies between the two end values and does not descend along a line that
/// does not descend.
pub trait Monotone<F: Ordered>: Forward<F> {
    /// The interpolated value lies between the two end values.
    proof fn lemma_forward_between(x: Self, x0: Self, x1: Self, f0: F, f1: F)
        requires
            x0.key() < x1.key(),
            x0.key() <= x.key() <= x1.key(),
        ensures
            lower(f0.key(), f1.key()) <= x.forward_spec(x0, x1, f0, f1).key() <= upper(
                f0.key(),
                f1.key(),
            ),
    ;

    /// Of two indices on a line that does not descend, the later one has no
    /// smaller value.
    proof fn lemma_forward_monotone(xa: Self, xb: Self, x0: Self, x1: Self, f0: F, f1: F)
        requires
            x0.key() < x1.key(),
            x0.key() <= xa.key() <= xb.key() <= x1.key(),
            f0.key() <= f1.key(),
        ensures
            xa.forward_spec(x0, x1, f0, f1).key() <= xb.forward_spec(x0, x1, f0, f1).key(),
    ;
}

impl Monotone<u64> for u64 {
    proof fn lemma_forward_between(x: u64, x0: u64, x1: u64, f0: u64, f1: u64) {
        lemma_interpolation_between(x as int, x0 as int, x1 as int, f0 as int, f1 as int);
    }

    proof fn lemma_forward_monotone(xa: u64, xb: u64, x0: u64, x1: u64, f0: u64, f1: u64) {
        lemma_interpolation_between(xa as int, x0 as int, x1 as int, f0 as int, f1 as int);
        lemma_interpolation_between(xb as int, x0 as int, x1 as int, f0 as int, f1 as int);
        lemma_interpolate_monotone(
            xa as int,
            xb as int,
            x0 as int,
            x1 as int,
            f0 as int,
            f1 as int,
        );
    }
}

impl Monotone<i64> for u64 {
    proof fn lemma_forward_between(x: u64, x0: u64, x1: u64, f0: i64, f1: i64) {
        lemma_interpolation_between(x as int, x0 as int, x1 as int, f0 as int, f1 as int);
    }

    proof fn lemma_forward_monotone(xa: u64, xb: u64, x0: u64, x1: u64, f0: i64, f1: i64) {
        lemma_interpolation_between(xa as int, x0 as int, x1 as int, f0 as int, f1 as int);
        lemma_interpolation_between(xb as int, x0 as int, x1 as int, f0 as int, f1 as int);
        lemma_interpolate_monotone(
            xa as int,
            xb as int,
            x0 as int,
            x1 as int,
            f0 as int,
            f1 as int,
        );
    }
}

/// A type with a zero element.
pub trait Zero: Ordered {
    /// The element at position zero.
    fn zero() -> (z: Self)
        ensures
            z.key() == 0,
    ;
}

impl Zero for u64 {
    fn zero() -> (z: u64) {
        0
    }
}

impl Zero for i64 {
    fn zero() -> (z: i64) {
        0
    }
}

/// A value domain with an absolute distance between two of its values.
///
/// Distances have a type of their own, since the distance of two signed
/// values may exceed the largest signed value. A distance and a value are
/// compared by their positions on the number line.
pub trait Distance: Ordered {
    /// The type of a distance.
    type Dist: Zero;

    /// The distance between `self` and `other`.
    spec fn distance_spec(self, other: Self) -> Self::Dist;

    /// Computes the distance between `self` and `other`.
    fn distance(self, other: Self) -> (d: Self::Dist)
        ensures
            d == self.distance_spec(other),
    ;

    /// Whether the distance `d` is greater than the tolerance `eps`.
    fn exceeds(d: &Self::Dist, eps: &Self) -> (b: bool)
        ensures
            b == (d.key() > eps.key()),
    ;
}

impl Distance for u64 {
    type Dist = u64;

    open spec fn distance_spec(self, other: u64) -> u64 {
        if self >= other {
            (self - other) as u64
        } else {
            (other - self) as u64
        }
    }

    fn distance(self, other: u64) -> (d: u64) {
        if self >= other {
            self - other
        } else {
            other - self
        }
    }

    fn exceeds(d: &u64, eps: &u64) -> (b: bool) {
        *d > *eps
    }
}

impl Distance for i64 {
    type Dist = u64;

    open spec fn distance_spec(self, other: i64) -> u64 {
        if self >= other {
            (self - other) as u64
        } else {
            (other - self) as u64
        }
    }

    fn distance(self, other: i64) -> (d: u64) {
        self.to_unsigned().distance(other.to_unsigned())
    }

    fn exceeds(d: &u64, eps: &i64) -> (b: bool) {
        *eps < 0 || *d > *eps as u64
    }
}

/// The point at `t` of the line through `(t0, v0)` and `(t1, v1)` in
/// extended precision: the weighted sum of the end values divided by the
/// width, each step rounded as the arithmetic rounds it.
pub open spec fn float_solve(t: F80, t0: F80, t1: F80, v0: F80, v1: F80) -> F80 {
    v0.mul_spec(t1.sub_spec(t)).add_spec(v1.mul_spec(t.sub_spec(t0))).div_spec(t1.sub_spec(t0))
}

/// The index that the solved value `x` resolves to under `method`, if
/// there is one: the rounded value has to be a finite number, and under
/// the exact rule `x` has to be an integer already.
pub open spec fn float_index(x: F80, method: Method) -> Option<u64> {
    let rounded = match method {
        Method::Exact => x.floor_spec(),
        Method::Nearest => x.round_spec(),
        Method::ForwardFill => x.floor_spec(),
        Method::BackwardFill => x.ceil_spec(),
    };
    match rounded@ {
        Some(p) => if method == Method::Exact && rounded != x {
            None
        } else {
            Some(crate::extended::integer_part(p))
        },
        None => None,
    }
}

impl Forward<F80> for u64 {
    open spec fn forward_spec(self, x0: u64, x1: u64, f0: F80, f1: F80) -> F80 {
        float_solve(F80::of_u64(self), F80::of_u64(x0), F80::of_u64(x1), f0, f1)
    }

    fn forward(self, x0: u64, x1: u64, f0: F80, f1: F80) -> (f: F80) {
        let x = F80::from(self);
        let x0 = F80::from(x0);
        let x1 = F80::from(x1);
        f0.mul(&x1.sub(&x)).add(&f1.mul(&x.sub(&x0))).div(&x1.sub(&x0))
    }
}

impl Inverse<u64> for F80 {
    open spec fn inverse_spec(self, x0: u64, x1: u64, f0: F80, f1: F80, method: Method) -> Option<
        u64,
    > {
        float_index(float_solve(self, f0, f1, F80::of_u64(x0), F80::of_u64(x1)), method)
    }

    fn inverse(self, x0: u64, x1: u64, f0: F80, f1: F80, method: Method) -> (x: Option<u64>) {
        let f = self;
        let x0 = F80::from(x0);
        let x1 = F80::from(x1);
        let x = x0.mul(&f1.sub(&f)).add(&x1.mul(&f.sub(&f0))).div(&f1.sub(&f0));
        let rounded = match method {
            Method::Exact => x.floor(),
            Method::Nearest => x.round(),
            Method::ForwardFill => x.floor(),
            Method::BackwardFill => x.ceil(),
        };
        if !rounded.is_finite() {
            None
        } else {
            match method {
                Method::Exact => {
                    if rounded == x {
                        Some(rounded.to_u64())
                    } else {
                        None
                    }
                },
                _ => Some(rounded.to_u64()),
            }
        }
    }
}

} // verus!
