//! Integer division under four rounding rules.
//!
//! The rules are stated over mathematical integers; the executable
//! implementations on `u128` and `i128` are proved to follow them without
//! overflow for every positive divisor.

use vstd::prelude::*;
use vstd::arithmetic::div_mod::lemma_fundamental_div_mod;
use vstd::arithmetic::div_mod::lemma_fundamental_div_mod_converse;

verus! {

/// Rounding rule applied when a quotient is not an integer.
#[derive(Clone, Copy, Debug, PartialEq, Eq, Structural)]
pub enum Method {
    /// Only exact quotients are accepted.
    Exact,
    /// Round to the closest integer, ties to the even one.
    Nearest,
    /// Round towards negative infinity.
    ForwardFill,
    /// Round towards positive infinity.
    BackwardFill,
}

/// The quotient of `n` by `d` rounded down.
pub open spec fn floor_div(n: int, d: int) -> int
    recommends
        d > 0,
{
    n / d
}

/// The quotient of `n` by `d` rounded up.
pub open spec fn ceil_div(n: int, d: int) -> int
    recommends
        d > 0,
{
    if n % d == 0 {
        n / d
    } else {
        n / d + 1
    }
}

/// The quotient of `n` by `d` rounded to the closest integer; a quotient
/// halfway between two integers goes to the even one.
pub open spec fn nearest_div(n: int, d: int) -> int
    recommends
        d > 0,
{
    let q = n / d;
    let r = n % d;
    if 2 * r < d {
        q
    } else if 2 * r > d {
        q + 1
    } else if q % 2 == 0 {
        q
    } else {
        q + 1
    }
}

/// The quotient of `n` by `d` under `method`, or `None` where the rule
/// accepts exact quotients only and `d` does not divide `n`.
pub open spec fn divide(n: int, d: int, method: Method) -> Option<int>
    recommends
        d > 0,
{
    match method {
        Method::Exact => if n % d == 0 {
            Some(n / d)
        } else {
            None
        },
        Method::Nearest => Some(nearest_div(n, d)),
        Method::ForwardFill => Some(floor_div(n, d)),
        Method::BackwardFill => Some(ceil_div(n, d)),
    }
}

/// Division with a selectable rounding rule.
pub trait DivOp: Sized {
    /// The integer that `self` stands for.
    spec fn value(self) -> int;

    /// Divides `self` by `rhs` under `method`.
    ///
    /// Returns `None` exactly when `method` is `Method::Exact` and the
    /// division leaves a remainder.
    fn div(self, rhs: Self, method: Method) -> (q: Option<Self>)
        requires
            rhs.value() > 0,
        ensures
            q is Some <==> divide(self.value(), rhs.value(), method) is Some,
            q matches Some(v) ==> divide(self.value(), rhs.value(), method) == Some(v.value()),
    ;
}

/// Every rounded quotient of a value by a positive divisor lies between the
/// value and zero, so it fits wherever the value fits.
pub proof fn lemma_quotient_bounds(n: int, d: int)
    requires
        d > 0,
    ensures
        n >= 0 ==> 0 <= floor_div(n, d) <= nearest_div(n, d) <= ceil_div(n, d) <= n,
        n < 0 ==> n <= floor_div(n, d) <= nearest_div(n, d) <= ceil_div(n, d) <= 0,
        n % d != 0 ==> d >= 2,
{
    lemma_fundamental_div_mod(n, d);
    let q = n / d;
    let r = n % d;
    assert(n == d * q + r);
    assert(0 <= r < d);
    if n >= 0 {
        assert(q >= 0) by (nonlinear_arith)
            requires
                n == d * q + r,
                0 <= r < d,
                n >= 0,
        ;
        assert(d * q >= q) by (nonlinear_arith)
            requires
                q >= 0,
                d >= 1,
        ;
        if r != 0 && q + 1 > n {
            assert(d * q >= 2 * q) by (nonlinear_arith)
                requires
                    q >= 0,
                    d >= 2,
            ;
        }
    } else {
        assert(q < 0) by (nonlinear_arith)
            requires
                n == d * q + r,
                0 <= r < d,
                n < 0,
                d > 0,
        ;
        assert(d * q + (d - 1) <= q) by (nonlinear_arith)
            requires
                q <= -1,
                d >= 1,
        ;
    }
}

/// Rounding to nearest is symmetric about zero: negating the dividend
/// negates the quotient, ties included.
pub proof fn lemma_nearest_div_negate(n: int, d: int)
    requires
        d > 0,
    ensures
        nearest_div(-n, d) == -nearest_div(n, d),
{
    lemma_fundamental_div_mod(n, d);
    let q = n / d;
    let r = n % d;
    if r == 0 {
        assert(-n == (-q) * d + 0) by (nonlinear_arith)
            requires
                n == d * q + r,
                r == 0,
        ;
        lemma_fundamental_div_mod_converse(-n, d, -q, 0);
    } else {
        assert(-n == (-q - 1) * d + (d - r)) by (nonlinear_arith)
            requires
                n == d * q + r,
        ;
        lemma_fundamental_div_mod_converse(-n, d, -q - 1, d - r);
    }
}

/// The four rules are ordered: rounding down is at most rounding to
/// nearest, which is at most rounding up, which exceeds rounding down by at
/// most one. The exact rule answers precisely when the dividend is a
/// multiple `q * d` of the divisor, and then all four rules give `q`.
pub proof fn lemma_policy_ordering(n: int, d: int)
    requires
        d > 0,
    ensures
        floor_div(n, d) <= nearest_div(n, d) <= ceil_div(n, d) <= floor_div(n, d) + 1,
        divide(n, d, Method::Exact) is Some <==> n == (n / d) * d,
        forall|q: int|
            n == #[trigger] (q * d) ==> {
                &&& divide(n, d, Method::Exact) == Some(q)
                &&& floor_div(n, d) == q
                &&& nearest_div(n, d) == q
                &&& ceil_div(n, d) == q
            },
{
    lemma_fundamental_div_mod(n, d);
    assert(n % d == 0 <==> n == (n / d) * d) by (nonlinear_arith)
        requires
            n == d * (n / d) + n % d,
    ;
    assert forall|q: int| n == #[trigger] (q * d) implies {
        &&& divide(n, d, Method::Exact) == Some(q)
        &&& floor_div(n, d) == q
        &&& nearest_div(n, d) == q
        &&& ceil_div(n, d) == q
    } by {
        lemma_fundamental_div_mod_converse(n, d, q, 0);
    }
}

/// A quotient that lies exactly halfway between two integers is rounded to
/// the even one of them.
pub proof fn lemma_ties_to_even(n: int, d: int)
    requires
        d > 0,
        2 * (n % d) == d,
    ensures
        nearest_div(n, d) % 2 == 0,
        nearest_div(n, d) == floor_div(n, d) || nearest_div(n, d) == ceil_div(n, d),
{
}

impl DivOp for u128 {
    open spec fn value(self) -> int {
        self as int
    }

    fn div(self, rhs: u128, method: Method) -> (q: Option<u128>) {
        let div: u128 = self / rhs;
        let rem: u128 = self % rhs;
        proof {
            lemma_quotient_bounds(self as int, rhs as int);
        }
        match method {
            Method::Exact => {
                if rem == 0 {
                    Some(div)
                } else {
                    None
                }
            },
            Method::Nearest => {
                // `rem < rhs - rem` compares twice the remainder with the
                // divisor without doubling it.
                if rem < rhs - rem {
                    Some(div)
                } else if rem > rhs - rem {
                    Some(div + 1)
                } else if div % 2 == 0 {
                    Some(div)
                } else {
                    Some(div + 1)
                }
            },
            Method::ForwardFill => Some(div),
            Method::BackwardFill => {
                if rem == 0 {
                    Some(div)
                } else {
                    Some(div + 1)
                }
            },
        }
    }
}

/// The absolute value of `x`, which always fits in the unsigned type.
fn magnitude(x: i128) -> (m: u128)
    ensures
        x >= 0 ==> m == x,
        x < 0 ==> m == -x,
{
    if x >= 0 {
        x as u128
    } else {
        (-(x + 1)) as u128 + 1
    }
}

/// The signed value with magnitude `m` and the sign of `sign`.
fn with_sign_of(m: u128, sign: i128) -> (v: i128)
    requires
        sign >= 0 ==> m <= i128::MAX,
        sign < 0 ==> m <= -(i128::MIN as int),
    ensures
        sign >= 0 ==> v == m,
        sign < 0 ==> v == -(m as int),
{
    if sign >= 0 {
        m as i128
    } else if m == 0 {
        0
    } else {
        -((m - 1) as i128) - 1
    }
}

impl DivOp for i128 {
    open spec fn value(self) -> int {
        self as int
    }

    fn div(self, rhs: i128, method: Method) -> (q: Option<i128>) {
        proof {
            lemma_quotient_bounds(self as int, rhs as int);
        }
        match method {
            Method::Nearest => {
                // The magnitude is rounded by the unsigned rule and the
                // sign of the dividend is put back afterwards.
                proof {
                    lemma_quotient_bounds(-(self as int), rhs as int);
                    lemma_nearest_div_negate(self as int, rhs as int);
                }
                let m: u128 = magnitude(self).div(rhs as u128, Method::Nearest).unwrap();
                Some(with_sign_of(m, self))
            },
            Method::Exact | Method::ForwardFill | Method::BackwardFill => {
                let div: i128 = self.checked_div_euclid(rhs).unwrap();
                let rem: i128 = self.checked_rem_euclid(rhs).unwrap();
                if rem == 0 {
                    Some(div)
                } else {
                    match method {
                        Method::Exact => None,
                        Method::ForwardFill => Some(div),
                        _ => Some(div + 1),
                    }
                }
            },
        }
    }
}

} // verus!
