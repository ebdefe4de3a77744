//! Forward and inverse interpolation on piecewise-linear functions.
//!
//! An [`Interp`] holds the knots of a function as two parallel sequences,
//! the indices `xp` and the values `fp`. Forward interpolation estimates the
//! value at an index, inverse interpolation the index of a value. Each
//! direction needs its own sequence to be strictly increasing, and only
//! that one.

use vstd::prelude::*;
use crate::divop::Method;
use crate::schemes::{lower, upper, Forward, Inverse, Monotone, Ordered};

verus! {

/// Why a query has no answer.
#[derive(Clone, Copy, Debug, PartialEq, Eq, Structural)]
pub enum InterpError {
    /// The argument lies outside the range that the knots cover.
    OutOfBounds,
    /// No index gives exactly the requested value.
    NotFound,
    /// The sequence that the query searches is not strictly increasing.
    NotStrictlyIncreasing,
}

/// The positions of the values of `s` on the number line.
pub open spec fn keys<T: Ordered>(s: Seq<T>) -> Seq<int> {
    Seq::new(s.len(), |i: int| s[i].key())
}

/// Whether each element of `ks` is greater than all elements before it.
pub open spec fn strictly_increasing(ks: Seq<int>) -> bool {
    forall|i: int, j: int| 0 <= i < j < ks.len() ==> ks[i] < ks[j]
}

/// Whether no element of `ks` is smaller than an element before it.
pub open spec fn nondecreasing(ks: Seq<int>) -> bool {
    forall|i: int, j: int| 0 <= i < j < ks.len() ==> ks[i] <= ks[j]
}

/// The number of elements of `ks` that are smaller than `k`. In a strictly
/// increasing sequence this is the place of `k`: the index at which it
/// stands, or at which it would have to be inserted.
pub open spec fn count_below(ks: Seq<int>, k: int) -> int
    decreases ks.len(),
{
    if ks.len() == 0 {
        0
    } else {
        count_below(ks.drop_last(), k) + if ks.last() < k {
            1int
        } else {
            0int
        }
    }
}

/// An index that has only smaller elements before it, and none from it on,
/// is the count of smaller elements.
pub proof fn lemma_count_below_is(ks: Seq<int>, k: int, i: int)
    requires
        0 <= i <= ks.len(),
        forall|j: int| 0 <= j < i ==> ks[j] < k,
        forall|j: int| i <= j < ks.len() ==> ks[j] >= k,
    ensures
        count_below(ks, k) == i,
    decreases ks.len(),
{
    if ks.len() > 0 {
        let front = ks.drop_last();
        if i == ks.len() {
            lemma_count_below_is(front, k, i - 1);
        } else {
            lemma_count_below_is(front, k, i);
        }
    }
}

/// In a nondecreasing sequence the elements smaller than `k` are exactly
/// those before the count of smaller elements.
pub proof fn lemma_count_below_splits(ks: Seq<int>, k: int)
    requires
        nondecreasing(ks),
    ensures
        0 <= count_below(ks, k) <= ks.len(),
        forall|j: int| 0 <= j < count_below(ks, k) ==> ks[j] < k,
        forall|j: int| count_below(ks, k) <= j < ks.len() ==> ks[j] >= k,
    decreases ks.len(),
{
    if ks.len() > 0 {
        let front = ks.drop_last();
        assert forall|i: int, j: int| 0 <= i < j < front.len() implies front[i] <= front[j] by {
            assert(ks[i] <= ks[j]);
        }
        lemma_count_below_splits(front, k);
        let c = count_below(front, k);
        if ks.last() < k {
            if c < front.len() {
                assert(front[c] >= k);
                assert(ks[c] <= ks[ks.len() - 1]);
            }
        }
        assert forall|j: int| 0 <= j < count_below(ks, k) implies ks[j] < k by {
            if j < c {
                assert(front[j] < k);
            }
        }
        assert forall|j: int| count_below(ks, k) <= j < ks.len() implies ks[j] >= k by {
            if j < front.len() {
                assert(front[j] >= k);
            }
        }
    }
}

/// Searches a strictly increasing vector for the position of `target`.
///
/// Returns `Ok` with the index of the element at that position, or `Err`
/// with the index at which an element of that position would be inserted.
fn search<T: Ordered>(v: &Vec<T>, target: &T) -> (r: Result<usize, usize>)
    requires
        strictly_increasing(keys(v@)),
    ensures
        match r {
            Ok(i) => i == count_below(keys(v@), target.key()) && i < v.len() && v[i as int].key()
                == target.key(),
            Err(i) => i == count_below(keys(v@), target.key()) && (i < v.len() ==> v[i as int].key()
                != target.key()),
        },
{
    let mut lo: usize = 0;
    let mut hi: usize = v.len();
    while lo < hi
        invariant
            0 <= lo <= hi <= v.len(),
            forall|j: int| 0 <= j < lo ==> keys(v@)[j] < target.key(),
            forall|j: int| hi <= j < v.len() ==> keys(v@)[j] >= target.key(),
            strictly_increasing(keys(v@)),
        decreases hi - lo,
    {
        let mid: usize = lo + (hi - lo) / 2;
        if v[mid].less(target) {
            assert forall|j: int| 0 <= j < mid + 1 implies keys(v@)[j] < target.key() by {
                assert(keys(v@)[mid as int] == v[mid as int].key());
                if j < mid {
                    assert(keys(v@)[j] < keys(v@)[mid as int]);
                }
            }
            lo = mid + 1;
        } else {
            assert forall|j: int| mid <= j < v.len() implies keys(v@)[j] >= target.key() by {
                assert(keys(v@)[mid as int] == v[mid as int].key());
                if mid < j {
                    assert(keys(v@)[mid as int] < keys(v@)[j]);
                }
            }
            hi = mid;
        }
    }
    proof {
        lemma_count_below_is(keys(v@), target.key(), lo as int);
    }
    if lo < v.len() {
        assert(keys(v@)[lo as int] == v[lo as int].key());
        if target.less(&v[lo]) {
            Err(lo)
        } else {
            Ok(lo)
        }
    } else {
        Err(lo)
    }
}

/// Whether each element of `v` is greater than the one before it.
fn is_strictly_increasing<T: Ordered>(v: &Vec<T>) -> (b: bool)
    ensures
        b == strictly_increasing(keys(v@)),
{
    let n: usize = v.len();
    let mut i: usize = 1;
    while i < n
        invariant
            1 <= i,
            n == v.len(),
            forall|a: int, b: int| 0 <= a < b < i && b < n ==> keys(v@)[a] < keys(v@)[b],
        decreases n - i,
    {
        if !v[i - 1].less(&v[i]) {
            assert(keys(v@)[i - 1] == v[i - 1].key());
            assert(keys(v@)[i as int] == v[i as int].key());
            return false;
        }
        assert forall|a: int, b: int| 0 <= a < b < i + 1 && b < n implies keys(v@)[a] < keys(
            v@,
        )[b] by {
            assert(keys(v@)[i - 1] == v[i - 1].key());
            assert(keys(v@)[i as int] == v[i as int].key());
            if b == i && a < i - 1 {
                assert(keys(v@)[a] < keys(v@)[i - 1]);
            }
        }
        i = i + 1;
    }
    true
}

/// A piecewise-linear function given by its knots.
pub struct Interp<X: Forward<F>, F: Inverse<X>> {
    xp: Vec<X>,
    fp: Vec<F>,
    forwardable: bool,
    inversable: bool,
}

impl<X: Forward<F>, F: Inverse<X>> Interp<X, F> {
    #[verifier::type_invariant]
    spec fn consistent(self) -> bool {
        &&& self.xp@.len() == self.fp@.len()
        &&& self.forwardable == strictly_increasing(keys(self.xp@))
        &&& self.inversable == strictly_increasing(keys(self.fp@))
    }

    /// The indices of the knots.
    pub closed spec fn xs(&self) -> Seq<X> {
        self.xp@
    }

    /// The values of the knots.
    pub closed spec fn fs(&self) -> Seq<F> {
        self.fp@
    }

    /// Whether there are as many indices as values. Every engine that
    /// exists at run time is paired.
    pub open spec fn paired(&self) -> bool {
        self.xs().len() == self.fs().len()
    }

    /// The answer to a forward query at `x`.
    ///
    /// An index that is a knot has the value of that knot. An index
    /// between two neighbouring knots is interpolated between them. Any
    /// other index is out of bounds.
    pub open spec fn forward_spec(&self, x: X) -> Result<F, InterpError> {
        let ks = keys(self.xs());
        let i = count_below(ks, x.key());
        if !strictly_increasing(ks) {
            Err(InterpError::NotStrictlyIncreasing)
        } else if i < ks.len() && ks[i] == x.key() {
            Ok(self.fs()[i])
        } else if i == 0 || i == ks.len() {
            Err(InterpError::OutOfBounds)
        } else {
            Ok(x.forward_spec(self.xs()[i - 1], self.xs()[i], self.fs()[i - 1], self.fs()[i]))
        }
    }

    /// The answer to an inverse query for the value `f` under `method`.
    ///
    /// A value that is a knot has the index of that knot. A value between
    /// two neighbouring knots is solved for between them, which fails where
    /// `method` wants an exact index and there is none. A value below the
    /// first knot takes the first index under the rules that round to
    /// nearest or up, a value above the last knot takes the last index under
    /// the rules that round to nearest or down, and otherwise such a value
    /// is out of bounds. Where there is no knot, every value is out of
    /// bounds.
    pub open spec fn inverse_spec(&self, f: F, method: Method) -> Result<X, InterpError> {
        let ks = keys(self.fs());
        let i = count_below(ks, f.key());
        if !strictly_increasing(ks) {
            Err(InterpError::NotStrictlyIncreasing)
        } else if i < ks.len() && ks[i] == f.key() {
            Ok(self.xs()[i])
        } else if ks.len() == 0 {
            Err(InterpError::OutOfBounds)
        } else if i == 0 {
            match method {
                Method::Exact | Method::ForwardFill => Err(InterpError::OutOfBounds),
                Method::Nearest | Method::BackwardFill => Ok(self.xs()[0]),
            }
        } else if i == ks.len() {
            match method {
                Method::Exact | Method::BackwardFill => Err(InterpError::OutOfBounds),
                Method::Nearest | Method::ForwardFill => Ok(self.xs()[ks.len() - 1]),
            }
        } else {
            match f.inverse_spec(
                self.xs()[i - 1],
                self.xs()[i],
                self.fs()[i - 1],
                self.fs()[i],
                method,
            ) {
                Some(x) => Ok(x),
                None => Err(InterpError::NotFound),
            }
        }
    }

    /// Builds the function with the knots `(xp[i], fp[i])`.
    pub fn new(xp: Vec<X>, fp: Vec<F>) -> (r: Self)
        requires
            xp.len() == fp.len(),
        ensures
            r.xs() == xp@,
            r.fs() == fp@,
    {
        let forwardable = is_strictly_increasing(&xp);
        let inversable = is_strictly_increasing(&fp);
        Interp { xp, fp, forwardable, inversable }
    }

    /// The indices of the knots.
    pub fn xp(&self) -> (r: &Vec<X>)
        ensures
            r@ == self.xs(),
            self.paired(),
    {
        proof {
            use_type_invariant(self);
        }
        &self.xp
    }

    /// The values of the knots.
    pub fn fp(&self) -> (r: &Vec<F>)
        ensures
            r@ == self.fs(),
            self.paired(),
    {
        proof {
            use_type_invariant(self);
        }
        &self.fp
    }

    /// Whether the indices are strictly increasing, as forward queries
    /// need them.
    pub fn forwardable(&self) -> (b: bool)
        ensures
            b == strictly_increasing(keys(self.xs())),
    {
        proof {
            use_type_invariant(self);
        }
        self.forwardable
    }

    /// Whether the values are strictly increasing, as inverse queries need
    /// them.
    pub fn inversable(&self) -> (b: bool)
        ensures
            b == strictly_increasing(keys(self.fs())),
    {
        proof {
            use_type_invariant(self);
        }
        self.inversable
    }

    /// Estimates the value at index `rhs`.
    pub fn forward(&self, rhs: X) -> (r: Result<F, InterpError>)
        ensures
            r == self.forward_spec(rhs),
    {
        proof {
            use_type_invariant(self);
        }
        if self.forwardable {
            match search(&self.xp, &rhs) {
                Ok(index) => {
                    assert(keys(self.xp@)[index as int] == self.xp@[index as int].key());
                    Ok(self.fp[index])
                },
                Err(index) => {
                    if index < self.xp.len() {
                        assert(keys(self.xp@)[index as int] == self.xp@[index as int].key());
                    }
                    if index == 0 || index == self.xp.len() {
                        Err(InterpError::OutOfBounds)
                    } else {
                        proof {
                            lemma_count_below_splits(keys(self.xp@), rhs.key());
                            assert(keys(self.xp@)[index - 1] == self.xp@[index - 1].key());
                            assert(keys(self.xp@)[index - 1] < keys(self.xp@)[index as int]);
                        }
                        Ok(
                            rhs.forward(
                                self.xp[index - 1],
                                self.xp[index],
                                self.fp[index - 1],
                                self.fp[index],
                            ),
                        )
                    }
                },
            }
        } else {
            Err(InterpError::NotStrictlyIncreasing)
        }
    }

    /// Estimates the index at which the function takes the value `rhs`,
    /// resolving an inexact index by `method`.
    pub fn inverse(&self, rhs: F, method: Method) -> (r: Result<X, InterpError>)
        ensures
            r == self.inverse_spec(rhs, method),
    {
        proof {
            use_type_invariant(self);
        }
        if self.inversable {
            match search(&self.fp, &rhs) {
                Ok(index) => {
                    assert(keys(self.fp@)[index as int] == self.fp@[index as int].key());
                    Ok(self.xp[index])
                },
                Err(index) => {
                    let len = self.xp.len();
                    if index < len {
                        assert(keys(self.fp@)[index as int] == self.fp@[index as int].key());
                    }
                    if len == 0 {
                        Err(InterpError::OutOfBounds)
                    } else if index == 0 {
                        match method {
                            Method::Exact | Method::ForwardFill => Err(InterpError::OutOfBounds),
                            Method::Nearest | Method::BackwardFill => Ok(self.xp[0]),
                        }
                    } else if index == len {
                        match method {
                            Method::Exact | Method::BackwardFill => Err(InterpError::OutOfBounds),
                            Method::Nearest | Method::ForwardFill => Ok(self.xp[len - 1]),
                        }
                    } else {
                        proof {
                            lemma_count_below_splits(keys(self.fp@), rhs.key());
                            assert(keys(self.fp@)[index - 1] == self.fp@[index - 1].key());
                            assert(keys(self.fp@)[index - 1] < keys(self.fp@)[index as int]);
                        }
                        match rhs.inverse(
                            self.xp[index - 1],
                            self.xp[index],
                            self.fp[index - 1],
                            self.fp[index],
                            method,
                        ) {
                            Some(x) => Ok(x),
                            None => Err(InterpError::NotFound),
                        }
                    }
                },
            }
        } else {
            Err(InterpError::NotStrictlyIncreasing)
        }
    }

    /// Estimates the index of the value `rhs`, accepting exact indices
    /// only.
    pub fn inverse_exact(&self, rhs: F) -> (r: Result<X, InterpError>)
        ensures
            r == self.inverse_spec(rhs, Method::Exact),
    {
        self.inverse(rhs, Method::Exact)
    }

    /// Estimates the index of the value `rhs`, rounded to the nearest
    /// index.
    pub fn inverse_round(&self, rhs: F) -> (r: Result<X, InterpError>)
        ensures
            r == self.inverse_spec(rhs, Method::Nearest),
    {
        self.inverse(rhs, Method::Nearest)
    }

    /// Estimates the index of the value `rhs`, rounded down.
    pub fn inverse_ffill(&self, rhs: F) -> (r: Result<X, InterpError>)
        ensures
            r == self.inverse_spec(rhs, Method::ForwardFill),
    {
        self.inverse(rhs, Method::ForwardFill)
    }

    /// Estimates the index of the value `rhs`, rounded up.
    pub fn inverse_bfill(&self, rhs: F) -> (r: Result<X, InterpError>)
        ensures
            r == self.inverse_spec(rhs, Method::BackwardFill),
    {
        self.inverse(rhs, Method::BackwardFill)
    }
}

/// In a strictly increasing sequence each element stands at the count of
/// the elements smaller than it.
pub proof fn lemma_count_below_knot(ks: Seq<int>, i: int)
    requires
        strictly_increasing(ks),
        0 <= i < ks.len(),
    ensures
        count_below(ks, ks[i]) == i,
{
    lemma_count_below_is(ks, ks[i], i);
}

/// A forward query at the index of a knot gives the value of that knot,
/// and an inverse query for the value of a knot gives its index, whatever
/// the rounding rule.
pub proof fn lemma_round_trip<X: Forward<F>, F: Inverse<X>>(
    interp: Interp<X, F>,
    i: int,
    method: Method,
)
    requires
        interp.paired(),
        0 <= i < interp.xs().len(),
    ensures
        strictly_increasing(keys(interp.xs())) ==> interp.forward_spec(interp.xs()[i]) == Ok::<
            F,
            InterpError,
        >(interp.fs()[i]),
        strictly_increasing(keys(interp.fs())) ==> interp.inverse_spec(interp.fs()[i], method)
            == Ok::<X, InterpError>(interp.xs()[i]),
{
    if strictly_increasing(keys(interp.xs())) {
        lemma_count_below_knot(keys(interp.xs()), i);
    }
    if strictly_increasing(keys(interp.fs())) {
        lemma_count_below_knot(keys(interp.fs()), i);
    }
}

/// A query exactly at the first or at the last knot gives what is paired
/// with it, with no rounding.
pub proof fn lemma_boundary_exact<X: Forward<F>, F: Inverse<X>>(
    interp: Interp<X, F>,
    method: Method,
)
    requires
        interp.paired(),
        interp.xs().len() >= 1,
    ensures
        strictly_increasing(keys(interp.xs())) ==> {
            &&& interp.forward_spec(interp.xs().first()) == Ok::<F, InterpError>(
                interp.fs().first(),
            )
            &&& interp.forward_spec(interp.xs().last()) == Ok::<F, InterpError>(interp.fs().last())
        },
        strictly_increasing(keys(interp.fs())) ==> {
            &&& interp.inverse_spec(interp.fs().first(), method) == Ok::<X, InterpError>(
                interp.xs().first(),
            )
            &&& interp.inverse_spec(interp.fs().last(), method) == Ok::<X, InterpError>(
                interp.xs().last(),
            )
        },
{
    lemma_round_trip(interp, 0, method);
    lemma_round_trip(interp, interp.xs().len() - 1, method);
}

/// What a successful forward query at `x` tells: `x` stands at a knot and
/// the answer is that knot's value, or `x` lies between two neighbouring
/// knots and the answer lies between their values.
proof fn lemma_forward_located<X: Monotone<F>, F: Inverse<X>>(interp: Interp<X, F>, x: X)
    requires
        interp.paired(),
        nondecreasing(keys(interp.fs())),
        interp.forward_spec(x) is Ok,
    ensures
        ({
            let ks = keys(interp.xs());
            let vs = keys(interp.fs());
            let i = count_below(ks, x.key());
            let f = interp.forward_spec(x)->Ok_0;
            &&& strictly_increasing(ks)
            &&& 0 <= i < ks.len()
            &&& forall|j: int| 0 <= j < i ==> ks[j] < x.key()
            &&& forall|j: int| i <= j < ks.len() ==> ks[j] >= x.key()
            &&& ks[i] == x.key() ==> f.key() == vs[i]
            &&& ks[i] != x.key() ==> i > 0 && vs[i - 1] <= f.key() <= vs[i]
        }),
{
    let ks = keys(interp.xs());
    let vs = keys(interp.fs());
    let i = count_below(ks, x.key());
    lemma_count_below_splits(ks, x.key());
    if ks[i] != x.key() {
        assert(ks[i - 1] < x.key());
        assert(vs[i - 1] <= vs[i]);
        X::lemma_forward_between(
            x,
            interp.xs()[i - 1],
            interp.xs()[i],
            interp.fs()[i - 1],
            interp.fs()[i],
        );
    }
}

/// Where the values of the knots do not descend, of two indices that both
/// have an answer the later one has no smaller answer.
pub proof fn lemma_forward_monotone<X: Monotone<F>, F: Inverse<X>>(
    interp: Interp<X, F>,
    xa: X,
    xb: X,
)
    requires
        interp.paired(),
        nondecreasing(keys(interp.fs())),
        xa.key() < xb.key(),
        interp.forward_spec(xa) is Ok,
        interp.forward_spec(xb) is Ok,
    ensures
        interp.forward_spec(xa)->Ok_0.key() <= interp.forward_spec(xb)->Ok_0.key(),
{
    let ks = keys(interp.xs());
    let vs = keys(interp.fs());
    let ia = count_below(ks, xa.key());
    let ib = count_below(ks, xb.key());
    lemma_forward_located(interp, xa);
    lemma_forward_located(interp, xb);
    if ia > ib {
        assert(ks[ib] < xa.key());
    }
    if ia == ib {
        assert(ks[ia] != xa.key());
        if ks[ib] != xb.key() {
            assert(ks[ia - 1] < ks[ia]);
            assert(vs[ia - 1] <= vs[ia]);
            X::lemma_forward_monotone(
                xa,
                xb,
                interp.xs()[ia - 1],
                interp.xs()[ia],
                interp.fs()[ia - 1],
                interp.fs()[ia],
            );
        }
    } else {
        if ks[ib] != xb.key() {
            assert(vs[ia] <= vs[ib - 1] || ia == ib - 1);
        } else {
            assert(vs[ia] <= vs[ib]);
        }
    }
}

} // verus!
