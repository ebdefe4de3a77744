//! Extended-precision floating point with a mantissa of 64 bits, which
//! holds every 64-bit integer exactly.
//!
//! An [`F80`] is a finite number `±mantissa × 2^(exponent − 64)`, or the one
//! value that is not a finite number. The arithmetic is done by
//! `astro_float`; what comes back from it is named here and not described,
//! and everything around it is verified for whatever comes back.

use vstd::prelude::*;
use vstd::std_specs::bits::{axiom_u64_leading_zeros, u64_leading_zeros};
use vstd::std_specs::convert::FromSpecImpl;
use vstd::arithmetic::power2::{
    lemma2_to64, lemma_pow2_adds, lemma_pow2_pos, lemma_pow2_strictly_increases, pow2,
};
use astro_float::{BigFloat, RoundingMode, Sign};
use crate::schemes::{Distance, Ordered, Zero};

verus! {

/// The sign, the exponent and the mantissa of a finite number, which is
/// `±mantissa × 2^(exponent − 64)`.
#[derive(Clone, Copy, Debug, PartialEq, Eq, Structural)]
pub struct Parts {
    /// Whether the number is below zero.
    pub negative: bool,
    /// The power of two that the mantissa, read as a fraction, is scaled
    /// by.
    pub exponent: i32,
    /// The 64 most significant bits of the number.
    pub mantissa: u64,
}

/// The parts of zero.
pub open spec fn zero_parts() -> Parts {
    Parts { negative: false, exponent: 0, mantissa: 0 }
}

/// The largest power of two that is a mantissa: the value of its highest
/// bit.
pub open spec fn high_bit() -> int {
    0x8000_0000_0000_0000
}

/// The form in which a result is kept. Zero has one form only, a number
/// whose mantissa has its highest bit set is kept as it is, and anything
/// else is not kept as a finite number.
pub open spec fn canonical(raw: Option<Parts>) -> Option<Parts> {
    match raw {
        Some(p) => if p.mantissa == 0 {
            Some(zero_parts())
        } else if p.mantissa >= high_bit() {
            Some(p)
        } else {
            None
        },
        None => None,
    }
}

/// Whether the parts `p` are in the form in which a number is kept.
pub open spec fn is_kept(p: Parts) -> bool {
    canonical(Some(p)) == Some(p)
}

/// The position on the number line of the number with the given parts.
///
/// Zero stands at zero. A number above zero stands at its exponent, counted
/// from the smallest exponent there is, times `2^64`, plus its mantissa:
/// among numbers in the kept form a larger exponent is a larger number, and
/// with equal exponents the larger mantissa is. A number below zero stands
/// at the negative of that. What is not a finite number stands at `2^96`,
/// beyond every finite number.
pub open spec fn position(v: Option<Parts>) -> int {
    match v {
        None => 0x1_0000_0000_0000_0000_0000_0000,
        Some(p) => if p.mantissa == 0 {
            0
        } else if p.negative {
            -((p.exponent + 0x8000_0000) * 0x1_0000_0000_0000_0000 + p.mantissa)
        } else {
            (p.exponent + 0x8000_0000) * 0x1_0000_0000_0000_0000 + p.mantissa
        },
    }
}

/// What `BigFloat::add` gives for the numbers with the parts `a` and `b`,
/// at a precision of 64 bits and rounding half to even: the sign, the
/// exponent and the most significant word of the mantissa of the result, or
/// `None` for a result that is not a finite number.
pub uninterp spec fn float_sum(a: Parts, b: Parts) -> Option<Parts>;

/// What `BigFloat::sub` gives for the numbers with the parts `a` and `b`,
/// at a precision of 64 bits and rounding half to even, in the same terms.
pub uninterp spec fn float_difference(a: Parts, b: Parts) -> Option<Parts>;

/// What `BigFloat::mul` gives for the numbers with the parts `a` and `b`,
/// at a precision of 64 bits and rounding half to even, in the same terms.
pub uninterp spec fn float_product(a: Parts, b: Parts) -> Option<Parts>;

/// What `BigFloat::div` gives for the numbers with the parts `a` and `b`,
/// at a precision of 64 bits and rounding half to even, in the same terms.
pub uninterp spec fn float_quotient(a: Parts, b: Parts) -> Option<Parts>;

/// What `BigFloat::rem` gives for the numbers with the parts `a` and `b`,
/// in the same terms.
pub uninterp spec fn float_remainder(a: Parts, b: Parts) -> Option<Parts>;

/// What `BigFloat::floor` gives for the number with the parts `a`, in the
/// same terms.
pub uninterp spec fn float_floor(a: Parts) -> Option<Parts>;

/// What `BigFloat::ceil` gives for the number with the parts `a`, in the
/// same terms.
pub uninterp spec fn float_ceil(a: Parts) -> Option<Parts>;

/// The parts of the integer `v`: the mantissa holds the bits of `v` moved
/// up until the highest bit is set, and the exponent is the number of bits
/// that `v` takes.
pub open spec fn integer_parts(v: u64) -> Parts {
    if v == 0 {
        zero_parts()
    } else {
        Parts {
            negative: false,
            exponent: (64 - u64_leading_zeros(v)) as i32,
            mantissa: v << (u64_leading_zeros(v) as u64),
        }
    }
}

/// Calls `BigFloat::from_u64` with a precision of 64 bits and takes the
/// result apart into its sign, its exponent and the word of its mantissa.
/// The claim is that the result is the integer itself: it is not below
/// zero, its bits start at the top of the mantissa, and the exponent counts
/// them.
#[verifier::external_body]
fn parts_of_u64(v: u64) -> (r: Option<Parts>)
    ensures
        r == Some(integer_parts(v)),
{
    match BigFloat::from_u64(v, 64).as_raw_parts() {
        Some((m, _, s, e, _)) => Some(
            Parts { negative: s.is_negative(), exponent: e, mantissa: m.last().copied().unwrap_or(0) },
        ),
        None => None,
    }
}

/// Builds the two numbers with `BigFloat::from_words`, calls
/// `BigFloat::add` on them with a precision of 64 bits and rounding half to
/// even, and takes the result apart with `BigFloat::as_raw_parts`. The
/// claim is only that the result depends on nothing but the two numbers;
/// `None` stands for a result that is not a finite number.
#[verifier::external_body]
fn sum(a: Parts, b: Parts) -> (r: Option<Parts>)
    requires
        is_kept(a),
        is_kept(b),
    ensures
        r == float_sum(a, b),
{
    let x = BigFloat::from_words(&[a.mantissa], if a.negative { Sign::Neg } else { Sign::Pos }, a.exponent);
    let y = BigFloat::from_words(&[b.mantissa], if b.negative { Sign::Neg } else { Sign::Pos }, b.exponent);
    match x.add(&y, 64, RoundingMode::ToEven).as_raw_parts() {
        Some((m, _, s, e, _)) => Some(
            Parts { negative: s.is_negative(), exponent: e, mantissa: m.last().copied().unwrap_or(0) },
        ),
        None => None,
    }
}

/// Does for `BigFloat::sub` what `sum` does for `BigFloat::add`. The claim is
/// only that the result depends on nothing but the two numbers; `None`
/// stands for a result that is not a finite number.
#[verifier::external_body]
fn difference(a: Parts, b: Parts) -> (r: Option<Parts>)
    requires
        is_kept(a),
        is_kept(b),
    ensures
        r == float_difference(a, b),
{
    let x = BigFloat::from_words(&[a.mantissa], if a.negative { Sign::Neg } else { Sign::Pos }, a.exponent);
    let y = BigFloat::from_words(&[b.mantissa], if b.negative { Sign::Neg } else { Sign::Pos }, b.exponent);
    match x.sub(&y, 64, RoundingMode::ToEven).as_raw_parts() {
        Some((m, _, s, e, _)) => Some(
            Parts { negative: s.is_negative(), exponent: e, mantissa: m.last().copied().unwrap_or(0) },
        ),
        None => None,
    }
}

/// Does for `BigFloat::mul` what `sum` does for `BigFloat::add`. The claim is
/// only that the result depends on nothing but the two numbers; `None`
/// stands for a result that is not a finite number.
#[verifier::external_body]
fn product(a: Parts, b: Parts) -> (r: Option<Parts>)
    requires
        is_kept(a),
        is_kept(b),
    ensures
        r == float_product(a, b),
{
    let x = BigFloat::from_words(&[a.mantissa], if a.negative { Sign::Neg } else { Sign::Pos }, a.exponent);
    let y = BigFloat::from_words(&[b.mantissa], if b.negative { Sign::Neg } else { Sign::Pos }, b.exponent);
    match x.mul(&y, 64, RoundingMode::ToEven).as_raw_parts() {
        Some((m, _, s, e, _)) => Some(
            Parts { negative: s.is_negative(), exponent: e, mantissa: m.last().copied().unwrap_or(0) },
        ),
        None => None,
    }
}

/// Does for `BigFloat::div` what `sum` does for `BigFloat::add`. The claim is
/// only that the result depends on nothing but the two numbers; `None`
/// stands for a result that is not a finite number, as that of a division
/// by zero.
#[verifier::external_body]
fn quotient(a: Parts, b: Parts) -> (r: Option<Parts>)
    requires
        is_kept(a),
        is_kept(b),
    ensures
        r == float_quotient(a, b),
{
    let x = BigFloat::from_words(&[a.mantissa], if a.negative { Sign::Neg } else { Sign::Pos }, a.exponent);
    let y = BigFloat::from_words(&[b.mantissa], if b.negative { Sign::Neg } else { Sign::Pos }, b.exponent);
    match x.div(&y, 64, RoundingMode::ToEven).as_raw_parts() {
        Some((m, _, s, e, _)) => Some(
            Parts { negative: s.is_negative(), exponent: e, mantissa: m.last().copied().unwrap_or(0) },
        ),
        None => None,
    }
}

/// Does for `BigFloat::rem`, which takes no precision, what `sum` does for
/// `BigFloat::add`. The claim is only that the result depends on nothing
/// but the two numbers; `None` stands for a result that is not a finite
/// number, as that of a division by zero.
#[verifier::external_body]
fn remainder(a: Parts, b: Parts) -> (r: Option<Parts>)
    requires
        is_kept(a),
        is_kept(b),
    ensures
        r == float_remainder(a, b),
{
    let x = BigFloat::from_words(&[a.mantissa], if a.negative { Sign::Neg } else { Sign::Pos }, a.exponent);
    let y = BigFloat::from_words(&[b.mantissa], if b.negative { Sign::Neg } else { Sign::Pos }, b.exponent);
    match x.rem(&y).as_raw_parts() {
        Some((m, _, s, e, _)) => Some(
            Parts { negative: s.is_negative(), exponent: e, mantissa: m.last().copied().unwrap_or(0) },
        ),
        None => None,
    }
}

/// Builds the number with `BigFloat::from_words`, calls `BigFloat::floor`
/// on it and takes the result apart with `BigFloat::as_raw_parts`. The
/// claim is only that the result depends on nothing but the number.
#[verifier::external_body]
fn floor_of(a: Parts) -> (r: Option<Parts>)
    requires
        is_kept(a),
    ensures
        r == float_floor(a),
{
    let x = BigFloat::from_words(&[a.mantissa], if a.negative { Sign::Neg } else { Sign::Pos }, a.exponent);
    match x.floor().as_raw_parts() {
        Some((m, _, s, e, _)) => Some(
            Parts { negative: s.is_negative(), exponent: e, mantissa: m.last().copied().unwrap_or(0) },
        ),
        None => None,
    }
}

/// Does for `BigFloat::ceil` what `floor_of` does for `BigFloat::floor`.
/// The claim is only that the result depends on nothing but the number.
#[verifier::external_body]
fn ceil_of(a: Parts) -> (r: Option<Parts>)
    requires
        is_kept(a),
    ensures
        r == float_ceil(a),
{
    let x = BigFloat::from_words(&[a.mantissa], if a.negative { Sign::Neg } else { Sign::Pos }, a.exponent);
    match x.ceil().as_raw_parts() {
        Some((m, _, s, e, _)) => Some(
            Parts { negative: s.is_negative(), exponent: e, mantissa: m.last().copied().unwrap_or(0) },
        ),
        None => None,
    }
}

/// A floating-point number with a mantissa of 64 bits, or the one value
/// that stands for everything that is not a finite number.
///
/// Values are ordered by their positions on the number line, with what is
/// not a finite number after all finite numbers. Equal numbers are equal
/// values: each number has one form only.
#[derive(Clone, Copy, Debug, PartialEq, Eq, Structural)]
pub struct F80 {
    finite: bool,
    negative: bool,
    exponent: i32,
    mantissa: u64,
}

impl View for F80 {
    type V = Option<Parts>;

    closed spec fn view(&self) -> Option<Parts> {
        if self.finite {
            Some(Parts { negative: self.negative, exponent: self.exponent, mantissa: self.mantissa })
        } else {
            None
        }
    }
}

impl F80 {
    #[verifier::type_invariant]
    spec fn kept_canonical(self) -> bool {
        &&& !self.finite ==> !self.negative && self.exponent == 0 && self.mantissa == 0
        &&& self.finite && self.mantissa == 0 ==> !self.negative && self.exponent == 0
        &&& self.finite && self.mantissa != 0 ==> self.mantissa >= high_bit()
    }

    /// The value that is kept for the result `raw`.
    pub closed spec fn of(raw: Option<Parts>) -> F80 {
        match canonical(raw) {
            Some(p) => F80 {
                finite: true,
                negative: p.negative,
                exponent: p.exponent,
                mantissa: p.mantissa,
            },
            None => F80 { finite: false, negative: false, exponent: 0, mantissa: 0 },
        }
    }

    /// The value that is kept for a result is that result in its one form.
    pub proof fn lemma_of(raw: Option<Parts>)
        ensures
            F80::of(raw)@ == canonical(raw),
    {
    }

    /// Keeps the result `raw` in its one form.
    fn keep(raw: Option<Parts>) -> (r: F80)
        ensures
            r == F80::of(raw),
    {
        match raw {
            Some(p) => {
                if p.mantissa == 0 {
                    F80 { finite: true, negative: false, exponent: 0, mantissa: 0 }
                } else if p.mantissa >= 0x8000_0000_0000_0000u64 {
                    F80 {
                        finite: true,
                        negative: p.negative,
                        exponent: p.exponent,
                        mantissa: p.mantissa,
                    }
                } else {
                    F80 { finite: false, negative: false, exponent: 0, mantissa: 0 }
                }
            },
            None => F80 { finite: false, negative: false, exponent: 0, mantissa: 0 },
        }
    }

    /// The number `±mantissa × 2^(exponent − 64)`.
    ///
    /// A mantissa of zero gives zero, whatever the sign and the exponent. A
    /// mantissa that does not reach the highest bit gives no finite number.
    pub fn from_parts(negative: bool, exponent: i32, mantissa: u64) -> (r: F80)
        ensures
            r == F80::of(Some(Parts { negative, exponent, mantissa })),
    {
        F80::keep(Some(Parts { negative, exponent, mantissa }))
    }

    /// The sign, the exponent and the mantissa of a finite number.
    pub fn parts(&self) -> (r: Option<Parts>)
        ensures
            r == self@,
            r matches Some(p) ==> is_kept(p),
    {
        proof {
            use_type_invariant(self);
        }
        if self.finite {
            Some(Parts { negative: self.negative, exponent: self.exponent, mantissa: self.mantissa })
        } else {
            None
        }
    }

    /// Whether `self` is a finite number.
    pub fn is_finite(&self) -> (b: bool)
        ensures
            b == (self@ is Some),
    {
        self.finite
    }
}

/// The bits of the double-precision number that a finite number is cut
/// down to.
///
/// With an exponent from -1022 to 1023 these are the sign, the exponent
/// plus 1022 in eleven bits, and the 52 bits of the mantissa that follow
/// its highest bit; what follows them is dropped. A larger exponent gives
/// the infinity of the sign. A smaller exponent gives the sign and the
/// mantissa, moved down by twelve bits and by one more for each step of
/// the exponent below -1023, until nothing is left of it and the result
/// is zero.
pub open spec fn double_bits(p: Parts) -> u64 {
    let biased = p.exponent + 1023;
    let sign: u64 = if p.negative {
        0x8000_0000_0000_0000
    } else {
        0
    };
    if p.mantissa == 0 {
        0
    } else if biased >= 2047 {
        sign | 0x7ff0_0000_0000_0000
    } else if biased > 0 {
        sign | (((biased - 1) as u64) << 52) | ((p.mantissa << 1) >> 12)
    } else if biased > -52 {
        sign | (p.mantissa >> ((12 - biased) as u64))
    } else {
        0
    }
}

/// The integer part of a finite number, held within the range of `u64`:
/// zero for every number below one, and the largest `u64` for every number
/// that exceeds it.
pub open spec fn integer_part(p: Parts) -> u64 {
    if p.mantissa == 0 || p.negative || p.exponent <= 0 {
        0
    } else if p.exponent <= 64 {
        p.mantissa >> ((64 - p.exponent) as u64)
    } else {
        u64::MAX
    }
}

impl F80 {
    /// The value of the integer `v`.
    pub open spec fn of_u64(v: u64) -> F80 {
        F80::of(Some(integer_parts(v)))
    }

    /// The value that a call with two operands gives: what is not a finite
    /// number gives nothing finite.
    pub open spec fn of_both(
        a: Option<Parts>,
        b: Option<Parts>,
        call: spec_fn(Parts, Parts) -> Option<Parts>,
    ) -> F80 {
        match (a, b) {
            (Some(a), Some(b)) => F80::of(call(a, b)),
            _ => F80::of(None),
        }
    }

    /// The sum of `self` and `rhs`.
    pub open spec fn add_spec(self, rhs: F80) -> F80 {
        F80::of_both(self@, rhs@, |a: Parts, b: Parts| float_sum(a, b))
    }

    /// The difference of `self` and `rhs`.
    pub open spec fn sub_spec(self, rhs: F80) -> F80 {
        F80::of_both(self@, rhs@, |a: Parts, b: Parts| float_difference(a, b))
    }

    /// The product of `self` and `rhs`.
    pub open spec fn mul_spec(self, rhs: F80) -> F80 {
        F80::of_both(self@, rhs@, |a: Parts, b: Parts| float_product(a, b))
    }

    /// The quotient of `self` by `rhs`.
    pub open spec fn div_spec(self, rhs: F80) -> F80 {
        F80::of_both(self@, rhs@, |a: Parts, b: Parts| float_quotient(a, b))
    }

    /// The remainder of `self` divided by `rhs`.
    pub open spec fn rem_spec(self, rhs: F80) -> F80 {
        F80::of_both(self@, rhs@, |a: Parts, b: Parts| float_remainder(a, b))
    }

    /// The largest integer that is not above `self`.
    pub open spec fn floor_spec(self) -> F80 {
        match self@ {
            Some(a) => F80::of(float_floor(a)),
            None => F80::of(None),
        }
    }

    /// The smallest integer that is not below `self`.
    pub open spec fn ceil_spec(self) -> F80 {
        match self@ {
            Some(a) => F80::of(float_ceil(a)),
            None => F80::of(None),
        }
    }

    /// The magnitude of `self`.
    pub open spec fn abs_spec(self) -> F80 {
        match self@ {
            Some(a) => F80::of(
                Some(Parts { negative: false, exponent: a.exponent, mantissa: a.mantissa }),
            ),
            None => F80::of(None),
        }
    }

    /// The integer next to `self`: the floor where `self` lies below the
    /// middle of floor and ceiling, the ceiling where it lies above, and in
    /// the middle the floor if that is even, else the ceiling.
    pub open spec fn round_spec(self) -> F80 {
        let floor = self.floor_spec();
        let ceil = self.ceil_spec();
        let two = F80::of_u64(2);
        let mid = floor.add_spec(ceil).div_spec(two);
        if self.key() < mid.key() {
            floor
        } else if self.key() > mid.key() {
            ceil
        } else if floor.rem_spec(two) == F80::of_u64(0) {
            floor
        } else {
            ceil
        }
    }

    /// Adds `rhs` to `self`.
    pub fn add(&self, rhs: &F80) -> (r: F80)
        ensures
            r == self.add_spec(*rhs),
    {
        match (self.parts(), rhs.parts()) {
            (Some(a), Some(b)) => F80::keep(sum(a, b)),
            _ => F80::keep(None),
        }
    }

    /// Subtracts `rhs` from `self`.
    pub fn sub(&self, rhs: &F80) -> (r: F80)
        ensures
            r == self.sub_spec(*rhs),
    {
        match (self.parts(), rhs.parts()) {
            (Some(a), Some(b)) => F80::keep(difference(a, b)),
            _ => F80::keep(None),
        }
    }

    /// Multiplies `self` by `rhs`.
    pub fn mul(&self, rhs: &F80) -> (r: F80)
        ensures
            r == self.mul_spec(*rhs),
    {
        match (self.parts(), rhs.parts()) {
            (Some(a), Some(b)) => F80::keep(product(a, b)),
            _ => F80::keep(None),
        }
    }

    /// Divides `self` by `rhs`.
    pub fn div(&self, rhs: &F80) -> (r: F80)
        ensures
            r == self.div_spec(*rhs),
    {
        match (self.parts(), rhs.parts()) {
            (Some(a), Some(b)) => F80::keep(quotient(a, b)),
            _ => F80::keep(None),
        }
    }

    /// Computes the remainder of the division of `self` by `rhs`.
    pub fn rem(&self, rhs: &F80) -> (r: F80)
        ensures
            r == self.rem_spec(*rhs),
    {
        match (self.parts(), rhs.parts()) {
            (Some(a), Some(b)) => F80::keep(remainder(a, b)),
            _ => F80::keep(None),
        }
    }

    /// Rounds `self` down to an integer.
    pub fn floor(&self) -> (r: F80)
        ensures
            r == self.floor_spec(),
    {
        match self.parts() {
            Some(a) => F80::keep(floor_of(a)),
            None => F80::keep(None),
        }
    }

    /// Rounds `self` up to an integer.
    pub fn ceil(&self) -> (r: F80)
        ensures
            r == self.ceil_spec(),
    {
        match self.parts() {
            Some(a) => F80::keep(ceil_of(a)),
            None => F80::keep(None),
        }
    }

    /// Drops the sign of `self`.
    pub fn abs(&self) -> (r: F80)
        ensures
            r == self.abs_spec(),
    {
        match self.parts() {
            Some(a) => F80::keep(
                Some(Parts { negative: false, exponent: a.exponent, mantissa: a.mantissa }),
            ),
            None => F80::keep(None),
        }
    }

    /// Rounds `self` to the nearest integer, a number halfway between two
    /// integers to the even one.
    pub fn round(&self) -> (r: F80)
        ensures
            r == self.round_spec(),
    {
        let floor = self.floor();
        let ceil = self.ceil();
        let two = F80::from(2u64);
        let mid = floor.add(&ceil).div(&two);
        if self.less(&mid) {
            floor
        } else if mid.less(self) {
            ceil
        } else if floor.rem(&two) == F80::from(0u64) {
            floor
        } else {
            ceil
        }
    }

    /// The position of `self` as a number that can be compared.
    fn rank(&self) -> (k: i128)
        ensures
            k == position(self@),
    {
        if !self.finite {
            0x1_0000_0000_0000_0000_0000_0000i128
        } else if self.mantissa == 0 {
            0
        } else {
            let k: i128 = (self.exponent as i128 + 0x8000_0000i128) * 0x1_0000_0000_0000_0000i128
                + self.mantissa as i128;
            if self.negative {
                -k
            } else {
                k
            }
        }
    }

    /// The integer part of a finite number, held within the range of
    /// `u64`.
    pub fn to_u64(&self) -> (r: u64)
        requires
            self@ is Some,
        ensures
            r == integer_part(self@->0),
    {
        if self.mantissa == 0 || self.negative || self.exponent <= 0 {
            0
        } else if self.exponent <= 64 {
            self.mantissa >> ((64 - self.exponent) as u64)
        } else {
            u64::MAX
        }
    }

    /// The bits of the double-precision number that a finite number is cut
    /// down to.
    pub fn to_f64_bits(&self) -> (bits: u64)
        requires
            self@ is Some,
        ensures
            bits == double_bits(self@->0),
    {
        let biased: i64 = self.exponent as i64 + 1023;
        let sign: u64 = if self.negative {
            0x8000_0000_0000_0000
        } else {
            0
        };
        if self.mantissa == 0 {
            0
        } else if biased >= 2047 {
            sign | 0x7ff0_0000_0000_0000
        } else if biased > 0 {
            sign | (((biased - 1) as u64) << 52) | ((self.mantissa << 1) >> 12)
        } else if biased > -52 {
            sign | (self.mantissa >> ((12 - biased) as u64))
        } else {
            0
        }
    }
}

/// The magnitude of the number with the parts `p`, counted in units of
/// `2^(base − 64)`, for a base that is not above its exponent.
pub open spec fn magnitude(p: Parts, base: int) -> int
    recommends
        base <= p.exponent,
{
    p.mantissa * pow2((p.exponent - base) as nat)
}

/// The number with the parts `p`, counted in units of `2^(base − 64)`, for
/// a base that is not above its exponent.
pub open spec fn scaled(p: Parts, base: int) -> int
    recommends
        base <= p.exponent,
{
    if p.negative {
        -magnitude(p, base)
    } else {
        magnitude(p, base)
    }
}

/// Of two numbers above zero in the kept form, the one with the larger
/// exponent or, with equal exponents, with the larger mantissa is the
/// larger.
proof fn lemma_magnitude_orders(p: Parts, q: Parts, base: int)
    requires
        p.mantissa >= high_bit(),
        q.mantissa >= high_bit(),
        base <= p.exponent,
        base <= q.exponent,
    ensures
        magnitude(p, base) > 0,
        (p.exponent < q.exponent || (p.exponent == q.exponent && p.mantissa < q.mantissa)) == (
        magnitude(p, base) < magnitude(q, base)),
{
    let kp = pow2((p.exponent - base) as nat) as int;
    let kq = pow2((q.exponent - base) as nat) as int;
    let mp = p.mantissa as int;
    let mq = q.mantissa as int;
    lemma_pow2_pos((p.exponent - base) as nat);
    lemma_pow2_pos((q.exponent - base) as nat);
    assert(mp * kp > 0) by (nonlinear_arith)
        requires
            mp > 0,
            kp > 0,
    ;
    if p.exponent == q.exponent {
        assert((mp < mq) == (mp * kp < mq * kp)) by (nonlinear_arith)
            requires
                kp > 0,
        ;
    } else if p.exponent < q.exponent {
        let step = pow2((q.exponent - p.exponent) as nat) as int;
        lemma_pow2_adds((p.exponent - base) as nat, (q.exponent - p.exponent) as nat);
        lemma_pow2_strictly_increases(0, (q.exponent - p.exponent) as nat);
        assert(pow2(0) == 1) by {
            lemma2_to64();
        }
        assert(mp * kp < mq * (kp * step)) by (nonlinear_arith)
            requires
                0 < mp < 0x1_0000_0000_0000_0000,
                mq >= 0x8000_0000_0000_0000,
                kp > 0,
                step >= 2,
        ;
    } else {
        let step = pow2((p.exponent - q.exponent) as nat) as int;
        lemma_pow2_adds((q.exponent - base) as nat, (p.exponent - q.exponent) as nat);
        lemma_pow2_strictly_increases(0, (p.exponent - q.exponent) as nat);
        assert(pow2(0) == 1) by {
            lemma2_to64();
        }
        assert(mq * kq < mp * (kq * step)) by (nonlinear_arith)
            requires
                0 < mq < 0x1_0000_0000_0000_0000,
                mp >= 0x8000_0000_0000_0000,
                kq > 0,
                step >= 2,
        ;
    }
}

/// Positions order the numbers of the kept form as their values do, and
/// different numbers have different positions.
pub proof fn lemma_position_orders(p: Parts, q: Parts, base: int)
    requires
        is_kept(p),
        is_kept(q),
        base <= p.exponent,
        base <= q.exponent,
    ensures
        (position(Some(p)) < position(Some(q))) == (scaled(p, base) < scaled(q, base)),
        (position(Some(p)) == position(Some(q))) == (p == q),
        position(Some(p)) < position(None),
{
    let rank_p = (p.exponent + 0x8000_0000) * 0x1_0000_0000_0000_0000 + p.mantissa;
    let rank_q = (q.exponent + 0x8000_0000) * 0x1_0000_0000_0000_0000 + q.mantissa;
    if p.mantissa != 0 && q.mantissa != 0 {
        lemma_magnitude_orders(p, q, base);
        lemma_magnitude_orders(q, p, base);
        assert((rank_p < rank_q) == (p.exponent < q.exponent || (p.exponent == q.exponent
            && p.mantissa < q.mantissa)));
        assert((rank_q < rank_p) == (q.exponent < p.exponent || (p.exponent == q.exponent
            && q.mantissa < p.mantissa)));
        assert(rank_p > 0 && rank_q > 0);
    } else if p.mantissa != 0 {
        lemma_magnitude_orders(p, p, base);
        assert(rank_p > 0);
        assert(magnitude(q, base) == 0) by (nonlinear_arith)
            requires
                q.mantissa == 0,
        ;
    } else if q.mantissa != 0 {
        lemma_magnitude_orders(q, q, base);
        assert(rank_q > 0);
        assert(magnitude(p, base) == 0) by (nonlinear_arith)
            requires
                p.mantissa == 0,
        ;
    }
}

/// Every 64-bit integer is held exactly: its parts have the one form that
/// is kept, so that its value is a finite number, and the integer part of
/// that number is the integer again.
pub proof fn lemma_integer_held_exactly(v: u64)
    ensures
        F80::of_u64(v)@ == Some(integer_parts(v)),
        integer_part(integer_parts(v)) == v,
{
    axiom_u64_leading_zeros(v);
    if v != 0 {
        let lz = u64_leading_zeros(v) as u64;
        let up = (63 - lz) as u64;
        let over = (64 - lz) as u64;
        assert((v << lz) >= 0x8000_0000_0000_0000u64 && (v << lz) >> lz == v) by (bit_vector)
            requires
                lz < 64,
                up == 63 - lz,
                over == 64 - lz,
                (v >> up) & 1u64 != 0u64,
                v >> over == 0,
        ;
        assert(integer_parts(v).exponent == 64 - lz);
        assert(((64 - integer_parts(v).exponent) as u64) == lz);
    }
}

/// Rounding to the nearest integer gives the floor or the ceiling.
pub proof fn lemma_round_is_floor_or_ceil(x: F80)
    ensures
        x.round_spec() == x.floor_spec() || x.round_spec() == x.ceil_spec(),
{
}

impl From<u64> for F80 {
    /// The value of the integer `value`.
    fn from(value: u64) -> (r: F80) {
        F80::keep(parts_of_u64(value))
    }
}

impl FromSpecImpl<u64> for F80 {
    open spec fn obeys_from_spec() -> bool {
        true
    }

    open spec fn from_spec(v: u64) -> F80 {
        F80::of_u64(v)
    }
}

impl Ordered for F80 {
    open spec fn key(self) -> int {
        position(self@)
    }

    fn less(&self, other: &F80) -> (b: bool) {
        self.rank() < other.rank()
    }
}

impl Zero for F80 {
    fn zero() -> (z: F80) {
        F80::keep(Some(Parts { negative: false, exponent: 0, mantissa: 0 }))
    }
}

impl Distance for F80 {
    type Dist = F80;

    open spec fn distance_spec(self, other: F80) -> F80 {
        self.sub_spec(other).abs_spec()
    }

    fn distance(self, other: F80) -> (d: F80) {
        self.sub(&other).abs()
    }

    fn exceeds(d: &F80, eps: &F80) -> (b: bool) {
        eps.less(d)
    }
}

} // verus!
