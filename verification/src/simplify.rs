//! Reduction of the knots of a piecewise-linear function.
//!
//! A range of knots is replaced by the straight line between its two ends
//! where no knot inside the range lies farther from that line than a given
//! tolerance. Otherwise the knot that lies farthest is kept and the two
//! ranges on either side of it are treated in the same way.

use vstd::prelude::*;
use std::collections::VecDeque;
use crate::piecewise::{keys, strictly_increasing, Interp};
use crate::schemes::{Distance, Forward, Inverse, Ordered, Zero};

verus! {

/// The elements of `s` whose indices are in `keep`, in their order.
pub open spec fn pick<T>(s: Seq<T>, keep: Set<int>) -> Seq<T>
    decreases s.len(),
{
    if s.len() == 0 {
        Seq::empty()
    } else if keep.contains(s.len() - 1) {
        pick(s.drop_last(), keep).push(s.last())
    } else {
        pick(s.drop_last(), keep)
    }
}

/// Each element that is picked stands in `s` at an index of `keep`, and
/// each element of `s` at an index of `keep` is picked.
pub proof fn lemma_pick_members<T>(s: Seq<T>, keep: Set<int>)
    ensures
        forall|j: int|
            0 <= j < pick(s, keep).len() ==> exists|i: int|
                0 <= i < s.len() && keep.contains(i) && s[i] == #[trigger] pick(s, keep)[j],
        forall|i: int| 0 <= i < s.len() && keep.contains(i) ==> pick(s, keep).contains(#[trigger] s[i]),
    decreases s.len(),
{
    if s.len() > 0 {
        let front = s.drop_last();
        let last = s.len() - 1;
        lemma_pick_members(front, keep);
        assert forall|j: int| 0 <= j < pick(s, keep).len() implies exists|i: int|
            0 <= i < s.len() && keep.contains(i) && s[i] == #[trigger] pick(s, keep)[j] by {
            if j < pick(front, keep).len() {
                assert(pick(s, keep)[j] == pick(front, keep)[j]);
                let i = choose|i: int|
                    0 <= i < front.len() && keep.contains(i) && front[i] == pick(front, keep)[j];
                assert(s[i] == front[i]);
            } else {
                assert(s[last] == pick(s, keep)[j]);
            }
        }
        assert forall|i: int| 0 <= i < s.len() && keep.contains(i) implies pick(s, keep).contains(
            #[trigger] s[i],
        ) by {
            if i < last {
                assert(front[i] == s[i]);
                let j = choose|j: int|
                    0 <= j < pick(front, keep).len() && pick(front, keep)[j] == front[i];
                assert(pick(s, keep)[j] == s[i]);
            } else {
                assert(pick(s, keep)[pick(s, keep).len() - 1] == s[i]);
            }
        }
    }
}

/// What is picked from a strictly increasing sequence is strictly
/// increasing.
pub proof fn lemma_pick_increasing<T: Ordered>(s: Seq<T>, keep: Set<int>)
    requires
        strictly_increasing(keys(s)),
    ensures
        strictly_increasing(keys(pick(s, keep))),
    decreases s.len(),
{
    if s.len() > 0 {
        let front = s.drop_last();
        let last = s.len() - 1;
        assert forall|a: int, b: int| 0 <= a < b < keys(front).len() implies keys(front)[a] < keys(
            front,
        )[b] by {
            assert(keys(s)[a] < keys(s)[b]);
        }
        lemma_pick_increasing(front, keep);
        lemma_pick_members(front, keep);
        let picked = pick(s, keep);
        let before = pick(front, keep);
        assert forall|a: int, b: int| 0 <= a < b < keys(picked).len() implies keys(picked)[a]
            < keys(picked)[b] by {
            if b < before.len() {
                assert(keys(before)[a] < keys(before)[b]);
            } else {
                let i = choose|i: int|
                    0 <= i < front.len() && keep.contains(i) && front[i] == before[a];
                assert(keys(s)[i] < keys(s)[last]);
            }
        }
    }
}

/// The indices at which `marks` holds `true`.
pub open spec fn marked(marks: Seq<bool>) -> Set<int> {
    Set::new(|i: int| 0 <= i < marks.len() && marks[i])
}

/// A vector of `n` copies of `value`.
fn filled(n: usize, value: bool) -> (v: Vec<bool>)
    ensures
        v.len() == n,
        forall|i: int| 0 <= i < n ==> v[i] == value,
{
    let mut v: Vec<bool> = Vec::new();
    while v.len() < n
        invariant
            v.len() <= n,
            forall|i: int| 0 <= i < v.len() ==> v[i] == value,
        decreases n - v.len(),
    {
        v.push(value);
    }
    v
}

impl<X: Forward<F>, F: Inverse<X> + Distance> Interp<X, F> {
    /// How far knot `i` lies from the line through the knots `start` and
    /// `end`: the position of the distance between the value of that line
    /// at the index of the knot and the value of the knot.
    pub open spec fn deviation(&self, start: int, end: int, i: int) -> int {
        self.xs()[i].forward_spec(
            self.xs()[start],
            self.xs()[end],
            self.fs()[start],
            self.fs()[end],
        ).distance_spec(self.fs()[i]).key()
    }

    /// The first of the knots after `start` and before `upto` that lie
    /// farthest from the line through the knots `start` and `end`, or
    /// `start` where none of them lies off that line.
    pub open spec fn peak(&self, start: int, end: int, upto: int) -> int
        decreases upto - start,
    {
        if upto <= start + 1 {
            start
        } else {
            let before = self.peak(start, end, upto - 1);
            let top = if before == start {
                0
            } else {
                self.deviation(start, end, before)
            };
            if self.deviation(start, end, upto - 1) > top {
                upto - 1
            } else {
                before
            }
        }
    }

    /// The knots strictly between `start` and `end` that are kept under the
    /// tolerance `eps`: none where no knot lies farther than `eps` from
    /// the line through the two ends, else the farthest knot and what is
    /// kept on either side of it.
    pub open spec fn kept(&self, start: int, end: int, eps: F) -> Set<int>
        decreases end - start,
    {
        let top = self.peak(start, end, end);
        if start < top < end && self.deviation(start, end, top) > eps.key() {
            self.kept(start, top, eps).union(self.kept(top, end, eps)).insert(top)
        } else {
            Set::empty()
        }
    }

    /// The knots that remain under the tolerance `eps`: the first, the last
    /// and those kept between them.
    pub open spec fn retained(&self, eps: F) -> Set<int> {
        Set::new(
            |i: int|
                0 <= i < self.xs().len() && (i == 0 || i == self.xs().len() - 1 || self.kept(
                    0,
                    self.xs().len() - 1,
                    eps,
                ).contains(i)),
        )
    }

    /// The knots that the ranges of `ranges` still have to give.
    pub open spec fn pending(&self, ranges: Seq<(usize, usize)>, eps: F) -> Set<int>
        decreases ranges.len(),
    {
        if ranges.len() == 0 {
            Set::empty()
        } else {
            self.pending(ranges.drop_last(), eps).union(
                self.kept(ranges.last().0 as int, ranges.last().1 as int, eps),
            )
        }
    }

    /// The farthest knot is searched among the knots of the range only.
    pub proof fn lemma_peak_range(&self, start: int, end: int, upto: int)
        ensures
            self.peak(start, end, upto) == start || start < self.peak(start, end, upto) < upto,
        decreases upto - start,
    {
        if upto > start + 1 {
            self.lemma_peak_range(start, end, upto - 1);
        }
    }

    /// The farthest knot lies off the line, farther than every knot before
    /// it and no nearer than any knot after it. Where there is none, every
    /// knot of the range lies on the line.
    pub proof fn lemma_peak_is_first_maximum(&self, start: int, end: int, upto: int)
        ensures
            ({
                let top = self.peak(start, end, upto);
                &&& top == start ==> forall|j: int|
                    start < j < upto ==> self.deviation(start, end, j) <= 0
                &&& top != start ==> {
                    &&& self.deviation(start, end, top) > 0
                    &&& forall|j: int|
                        start < j < top ==> self.deviation(start, end, j) < self.deviation(
                            start,
                            end,
                            top,
                        )
                    &&& forall|j: int|
                        start < j < upto ==> self.deviation(start, end, j) <= self.deviation(
                            start,
                            end,
                            top,
                        )
                }
            }),
        decreases upto - start,
    {
        if upto > start + 1 {
            self.lemma_peak_range(start, end, upto - 1);
            self.lemma_peak_is_first_maximum(start, end, upto - 1);
        }
    }

    /// What is kept in a range lies strictly inside it.
    pub proof fn lemma_kept_inside(&self, start: int, end: int, eps: F)
        ensures
            forall|i: int| self.kept(start, end, eps).contains(i) ==> start < i < end,
        decreases end - start,
    {
        let top = self.peak(start, end, end);
        if start < top < end && self.deviation(start, end, top) > eps.key() {
            self.lemma_kept_inside(start, top, eps);
            self.lemma_kept_inside(top, end, eps);
            assert forall|i: int| self.kept(start, end, eps).contains(i) implies start < i
                < end by {
                if self.kept(start, top, eps).contains(i) {
                } else if self.kept(top, end, eps).contains(i) {
                } else {
                    assert(i == top);
                }
            }
        }
    }

    /// A wider tolerance keeps no knot of a range that a tighter one
    /// drops.
    pub proof fn lemma_kept_shrinks(&self, start: int, end: int, tight: F, loose: F)
        requires
            tight.key() <= loose.key(),
        ensures
            self.kept(start, end, loose).subset_of(self.kept(start, end, tight)),
        decreases end - start,
    {
        let top = self.peak(start, end, end);
        if start < top < end && self.deviation(start, end, top) > loose.key() {
            self.lemma_kept_shrinks(start, top, tight, loose);
            self.lemma_kept_shrinks(top, end, tight, loose);
        }
    }

    /// Simplification is monotonic in the tolerance: the knots that remain
    /// under a tolerance include those that remain under any wider one.
    pub proof fn lemma_simplify_monotone(&self, tight: F, loose: F)
        requires
            tight.key() <= loose.key(),
        ensures
            self.retained(loose).subset_of(self.retained(tight)),
    {
        self.lemma_kept_shrinks(0, self.xs().len() - 1, tight, loose);
    }

    /// Where no knot lies farther than the tolerance from the line through
    /// the first and the last knot, only these two remain. Knots that all
    /// lie on one line are such under every tolerance from zero on.
    pub proof fn lemma_simplify_collinear(&self, eps: F, last: int)
        requires
            last == self.xs().len() - 1,
            forall|i: int| 0 < i < last ==> #[trigger] self.deviation(0, last, i) <= eps.key(),
        ensures
            self.retained(eps) =~= Set::new(|i: int| 0 <= i <= last && (i == 0 || i == last)),
    {
        self.lemma_peak_range(0, last, last);
    }

    /// Reduces the knots under the tolerance `epsilon`.
    ///
    /// The first and the last knot always remain. The result is a function
    /// of its own, built from the knots that remain. With more than two
    /// knots the indices have to be strictly increasing, as distances from
    /// a line are taken by forward interpolation.
    #[verifier::loop_isolation(false)]
    pub fn simplify(&self, epsilon: F) -> (r: Interp<X, F>)
        requires
            self.xs().len() > 2 ==> strictly_increasing(keys(self.xs())),
        ensures
            r.xs() == pick(self.xs(), self.retained(epsilon)),
            r.fs() == pick(self.fs(), self.retained(epsilon)),
            strictly_increasing(keys(self.xs())) ==> strictly_increasing(keys(r.xs())),
            strictly_increasing(keys(self.fs())) ==> strictly_increasing(keys(r.fs())),
    {
        let xp = self.xp();
        let fp = self.fp();
        let n: usize = xp.len();
        let mut keep: Vec<bool> = filled(n, n <= 2);
        if n > 2 {
            keep.set(0, true);
            keep.set(n - 1, true);
            let mut stack: VecDeque<(usize, usize)> = VecDeque::new();
            stack.push_back((0, n - 1));
            proof {
                self.lemma_kept_inside(0, n - 1, epsilon);
                assert(stack@.drop_last() =~= Seq::empty());
                assert(self.pending(stack@.drop_last(), epsilon) =~= Set::empty());
                assert(marked(keep@).union(self.pending(stack@, epsilon)) =~= self.retained(
                    epsilon,
                ));
            }
            while stack.len() > 0
                invariant
                    keep.len() == n,
                    forall|k: int|
                        0 <= k < stack@.len() ==> (#[trigger] stack@[k]).0 < stack@[k].1 < n,
                    marked(keep@).union(self.pending(stack@, epsilon)) == self.retained(epsilon),
                decreases work(stack@),
            {
                let ghost before = stack@;
                let (start, end) = stack.pop_back().unwrap();
                assert(stack@ =~= before.drop_last());
                proof {
                    lemma_work_bounded(stack@);
                }
                assert(before.last() == (start, end));
                let mut max_dist = <F as Distance>::Dist::zero();
                let mut index: usize = start;
                let mut i: usize = start + 1;
                while i < end
                    invariant
                        start < i <= end,
                        start <= index < i,
                        index as int == self.peak(start as int, end as int, i as int),
                        max_dist.key() == (if index == start {
                            0
                        } else {
                            self.deviation(start as int, end as int, index as int)
                        }),
                    decreases end - i,
                {
                    proof {
                        let ks = keys(self.xs());
                        assert(ks[start as int] < ks[i as int] < ks[end as int]);
                    }
                    let line = xp[i].forward(xp[start], xp[end], fp[start], fp[end]);
                    let dist = line.distance(fp[i]);
                    if max_dist.less(&dist) {
                        max_dist = dist;
                        index = i;
                    }
                    i = i + 1;
                }
                if index != start && F::exceeds(&max_dist, &epsilon) {
                    let ghost marks = keep@;
                    keep.set(index, true);
                    stack.push_back((start, index));
                    let ghost middle = stack@;
                    stack.push_back((index, end));
                    proof {
                        let rest = before.drop_last();
                        assert(middle.drop_last() =~= rest);
                        assert(stack@.drop_last() =~= middle);
                        assert(self.pending(middle, epsilon) == self.pending(rest, epsilon).union(
                            self.kept(start as int, index as int, epsilon),
                        ));
                        assert(self.pending(stack@, epsilon) == self.pending(
                            middle,
                            epsilon,
                        ).union(self.kept(index as int, end as int, epsilon)));
                        assert(self.pending(before, epsilon) == self.pending(rest, epsilon).union(
                            self.kept(start as int, end as int, epsilon),
                        ));
                        assert(self.kept(start as int, end as int, epsilon) == self.kept(
                            start as int,
                            index as int,
                            epsilon,
                        ).union(self.kept(index as int, end as int, epsilon)).insert(
                            index as int,
                        ));
                        assert(work(middle) == work(rest) + 2 * (index - start) - 1);
                        assert(work(stack@) == work(middle) + 2 * (end - index) - 1);
                        assert(work(before) == work(rest) + 2 * (end - start) - 1);
                        assert(marked(keep@) =~= marked(marks).insert(index as int));
                        assert(marked(keep@).union(self.pending(stack@, epsilon)) =~= marked(
                            marks,
                        ).union(self.pending(before, epsilon)));
                        assert(work(stack@) < work(before));
                    }
                } else {
                    proof {
                        let rest = before.drop_last();
                        assert(self.kept(start as int, end as int, epsilon) =~= Set::empty());
                        assert(self.pending(before, epsilon) == self.pending(rest, epsilon).union(
                            self.kept(start as int, end as int, epsilon),
                        ));
                        assert(work(before) == work(rest) + 2 * (end - start) - 1);
                        assert(marked(keep@).union(self.pending(stack@, epsilon)) =~= marked(
                            keep@,
                        ).union(self.pending(before, epsilon)));
                    }
                }
            }
            assert(marked(keep@) =~= self.retained(epsilon));
        } else {
            assert(marked(keep@) =~= self.retained(epsilon));
        }
        let mut xs: Vec<X> = Vec::new();
        let mut fs: Vec<F> = Vec::new();
        let mut i: usize = 0;
        while i < n
            invariant
                i <= n,
                xs@ == pick(xp@.take(i as int), marked(keep@)),
                fs@ == pick(fp@.take(i as int), marked(keep@)),
                xs.len() == fs.len(),
            decreases n - i,
        {
            proof {
                assert(xp@.take(i + 1).drop_last() =~= xp@.take(i as int));
                assert(fp@.take(i + 1).drop_last() =~= fp@.take(i as int));
            }
            if keep[i] {
                xs.push(xp[i]);
                fs.push(fp[i]);
            }
            i = i + 1;
        }
        proof {
            assert(xp@.take(n as int) =~= xp@);
            assert(fp@.take(n as int) =~= fp@);
            if strictly_increasing(keys(xp@)) {
                lemma_pick_increasing(xp@, self.retained(epsilon));
            }
            if strictly_increasing(keys(fp@)) {
                lemma_pick_increasing(fp@, self.retained(epsilon));
            }
        }
        Interp::new(xs, fs)
    }
}

/// A bound on the splits that the ranges of `ranges` can still make: each
/// range counts twice its width less one.
pub open spec fn work(ranges: Seq<(usize, usize)>) -> int
    decreases ranges.len(),
{
    if ranges.len() == 0 {
        0
    } else {
        work(ranges.drop_last()) + 2 * (ranges.last().1 - ranges.last().0) - 1
    }
}

/// Ranges that are not empty have no negative bound.
proof fn lemma_work_bounded(ranges: Seq<(usize, usize)>)
    requires
        forall|k: int| 0 <= k < ranges.len() ==> (#[trigger] ranges[k]).0 < ranges[k].1,
    ensures
        work(ranges) >= 0,
    decreases ranges.len(),
{
    if ranges.len() > 0 {
        let rest = ranges.drop_last();
        assert forall|k: int| 0 <= k < rest.len() implies (#[trigger] rest[k]).0 < rest[k].1 by {
            assert(rest[k] == ranges[k]);
        }
        lemma_work_bounded(rest);
        assert(ranges.last() == ranges[ranges.len() - 1]);
    }
}

} // verus!
