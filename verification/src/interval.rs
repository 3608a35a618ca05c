use vstd::prelude::*;

verus! {

/// Order key of positive infinity.
///
/// A bound of an [`Interval`] is held by its order key: an integer image of the
/// real bound that orders bounds exactly as the real line orders them.
/// Every non-NaN bound has a key between `NEG_INFINITY_KEY` and
/// `POS_INFINITY_KEY`.
pub const POS_INFINITY_KEY: i64 = 0x7ff0_0000_0000_0000i64;

/// Order key of negative infinity.
pub const NEG_INFINITY_KEY: i64 = -0x7ff0_0000_0000_0000i64;

/// A closed interval `[min, max]` of the real line, its bounds held by their
/// order keys. An interval whose `min` exceeds its `max` is empty.
#[derive(Clone, Copy, Debug, PartialEq, Eq, Structural)]
pub struct Interval {
    pub min: i64,
    pub max: i64,
}

/// The key lies in the range of the keys of non-NaN bounds.
pub open spec fn key_wf(k: i64) -> bool {
    NEG_INFINITY_KEY <= k <= POS_INFINITY_KEY
}

pub open spec fn spec_min(a: i64, b: i64) -> i64 {
    if a <= b { a } else { b }
}

pub open spec fn spec_max(a: i64, b: i64) -> i64 {
    if a >= b { a } else { b }
}

impl Interval {
    /// Both bounds are keys of non-NaN bounds.
    pub open spec fn wf(self) -> bool {
        key_wf(self.min) && key_wf(self.max)
    }

    pub open spec fn new_spec(min: i64, max: i64) -> Interval {
        Interval { min, max }
    }

    /// The empty interval `[+inf, -inf]`, which is the default interval.
    pub open spec fn spec_empty() -> Interval {
        Interval { min: POS_INFINITY_KEY, max: NEG_INFINITY_KEY }
    }

    /// The smallest interval holding both intervals.
    pub open spec fn spec_combine(self, other: Interval) -> Interval {
        Interval { min: spec_min(self.min, other.min), max: spec_max(self.max, other.max) }
    }

    /// `self` lies within `outer`.
    pub open spec fn within(self, outer: Interval) -> bool {
        outer.min <= self.min && self.max <= outer.max
    }

    pub fn new(min: i64, max: i64) -> (r: Interval)
        ensures
            r.min == min,
            r.max == max,
    {
        Interval { min, max }
    }

    /// Combines two intervals into the smallest interval holding both.
    pub fn combine(&self, other: &Interval) -> (r: Interval)
        ensures
            r == self.spec_combine(*other),
    {
        let min = if self.min <= other.min { self.min } else { other.min };
        let max = if self.max >= other.max { self.max } else { other.max };
        Interval { min, max }
    }

    /// Whether this is the default (empty) interval.
    pub fn is_default(&self) -> (r: bool)
        ensures
            r == (*self == Interval::spec_empty()),
    {
        self.min == POS_INFINITY_KEY && self.max == NEG_INFINITY_KEY
    }

    /// `x` lies in the closed interval.
    pub fn contains(&self, x: i64) -> (r: bool)
        ensures
            r == (self.min <= x && x <= self.max),
    {
        self.min <= x && x <= self.max
    }

    /// `x` lies strictly inside the interval.
    pub fn surrounds(&self, x: i64) -> (r: bool)
        ensures
            r == (self.min < x && x < self.max),
    {
        self.min < x && x < self.max
    }

    /// Clamps `x` into the interval.
    pub fn clamp(&self, x: i64) -> (r: i64)
        ensures
            r == (if x < self.min { self.min } else if x > self.max { self.max } else { x }),
    {
        if x < self.min {
            self.min
        } else if x > self.max {
            self.max
        } else {
            x
        }
    }
}

impl Default for Interval {
    /// The empty interval.
    fn default() -> (r: Interval)
        ensures
            r == Interval::spec_empty(),
    {
        Interval { min: POS_INFINITY_KEY, max: NEG_INFINITY_KEY }
    }
}

/// Combining intervals is commutative.
pub proof fn lemma_combine_commutative(a: Interval, b: Interval)
    ensures
        a.spec_combine(b) == b.spec_combine(a),
{
}

/// Combining intervals is associative.
pub proof fn lemma_combine_associative(a: Interval, b: Interval, c: Interval)
    ensures
        a.spec_combine(b).spec_combine(c) == a.spec_combine(b.spec_combine(c)),
{
}

/// Combining an interval with itself gives it back.
pub proof fn lemma_combine_idempotent(a: Interval)
    ensures
        a.spec_combine(a) == a,
{
}

/// The empty interval is neutral for combining, on either side.
pub proof fn lemma_combine_empty(a: Interval)
    requires
        a.wf(),
    ensures
        Interval::spec_empty().spec_combine(a) == a,
        a.spec_combine(Interval::spec_empty()) == a,
{
}

/// The combination holds both operands.
pub proof fn lemma_combine_holds_both(a: Interval, b: Interval)
    ensures
        a.within(a.spec_combine(b)),
        b.within(a.spec_combine(b)),
{
}

/// The combination of two intervals lying within a third lies within it too.
pub proof fn lemma_combine_least(a: Interval, b: Interval, c: Interval)
    requires
        a.within(c),
        b.within(c),
    ensures
        a.spec_combine(b).within(c),
{
}

} // verus!
