use vstd::prelude::*;
use crate::interval::{Interval, spec_min, spec_max};

verus! {

/// An axis-aligned bounding box: one interval per axis.
#[derive(Clone, Copy, Debug, PartialEq, Eq, Structural)]
pub struct AABB {
    pub x: Interval,
    pub y: Interval,
    pub z: Interval,
}

impl AABB {
    /// All three intervals hold keys of non-NaN bounds.
    pub open spec fn wf(self) -> bool {
        self.x.wf() && self.y.wf() && self.z.wf()
    }

    /// The default box: empty on every axis.
    pub open spec fn spec_default() -> AABB {
        AABB { x: Interval::spec_empty(), y: Interval::spec_empty(), z: Interval::spec_empty() }
    }

    /// The smallest box holding both boxes.
    pub open spec fn spec_combine(self, other: AABB) -> AABB {
        AABB {
            x: self.x.spec_combine(other.x),
            y: self.y.spec_combine(other.y),
            z: self.z.spec_combine(other.z),
        }
    }

    /// The interval of axis `n`: 1 is y, 2 is z, any other value is x.
    pub open spec fn spec_axis(self, n: int) -> Interval {
        if n == 1 {
            self.y
        } else if n == 2 {
            self.z
        } else {
            self.x
        }
    }

    /// `self` lies within `outer` on every axis.
    pub open spec fn within(self, outer: AABB) -> bool {
        self.x.within(outer.x) && self.y.within(outer.y) && self.z.within(outer.z)
    }

    pub fn new(x: Interval, y: Interval, z: Interval) -> (r: AABB)
        ensures
            r == (AABB { x, y, z }),
    {
        Self { x, y, z }
    }

    /// The box spanned by two extreme corners, each given by the order keys
    /// of its three coordinates.
    pub fn new_ab(a: [i64; 3], b: [i64; 3]) -> (r: AABB)
        ensures
            r.x == Interval::new_spec(spec_min(a[0], b[0]), spec_max(a[0], b[0])),
            r.y == Interval::new_spec(spec_min(a[1], b[1]), spec_max(a[1], b[1])),
            r.z == Interval::new_spec(spec_min(a[2], b[2]), spec_max(a[2], b[2])),
    {
        Self {
            x: if a[0] < b[0] { Interval::new(a[0], b[0]) } else { Interval::new(b[0], a[0]) },
            y: if a[1] < b[1] { Interval::new(a[1], b[1]) } else { Interval::new(b[1], a[1]) },
            z: if a[2] < b[2] { Interval::new(a[2], b[2]) } else { Interval::new(b[2], a[2]) },
        }
    }

    /// Combines two boxes into the smallest box holding both.
    pub fn combine(&self, other: &AABB) -> (r: AABB)
        ensures
            r == self.spec_combine(*other),
    {
        let x = self.x.combine(&other.x);
        let y = self.y.combine(&other.y);
        let z = self.z.combine(&other.z);
        AABB { x, y, z }
    }

    /// The interval of axis `n`: 1 gives y, 2 gives z, any other value gives x.
    pub fn axis_interval(&self, n: i32) -> (r: Interval)
        ensures
            r == self.spec_axis(n as int),
    {
        if n == 1 {
            return self.y;
        } else if n == 2 {
            return self.z;
        }
        self.x
    }

    /// Whether every axis holds the default (empty) interval.
    pub fn is_default(&self) -> (r: bool)
        ensures
            r == (*self == AABB::spec_default()),
    {
        self.x.is_default() && self.y.is_default() && self.z.is_default()
    }
}

impl Default for AABB {
    /// The box that is empty on every axis.
    fn default() -> (r: AABB)
        ensures
            r == AABB::spec_default(),
    {
        AABB { x: Interval::default(), y: Interval::default(), z: Interval::default() }
    }
}

/// Combining boxes is commutative.
pub proof fn lemma_box_combine_commutative(a: AABB, b: AABB)
    ensures
        a.spec_combine(b) == b.spec_combine(a),
{
}

/// Combining boxes is associative.
pub proof fn lemma_box_combine_associative(a: AABB, b: AABB, c: AABB)
    ensures
        a.spec_combine(b).spec_combine(c) == a.spec_combine(b.spec_combine(c)),
{
}

/// Combining a box with itself gives it back.
pub proof fn lemma_box_combine_idempotent(a: AABB)
    ensures
        a.spec_combine(a) == a,
{
}

/// The default box is neutral for combining, on either side.
pub proof fn lemma_box_combine_default(a: AABB)
    requires
        a.wf(),
    ensures
        AABB::spec_default().spec_combine(a) == a,
        a.spec_combine(AABB::spec_default()) == a,
{
}

/// The combination of two boxes holds both of them.
pub proof fn lemma_box_combine_holds_both(a: AABB, b: AABB)
    ensures
        a.within(a.spec_combine(b)),
        b.within(a.spec_combine(b)),
{
}

/// The combination of two boxes lying within a third lies within it too.
pub proof fn lemma_box_combine_least(a: AABB, b: AABB, c: AABB)
    requires
        a.within(c),
        b.within(c),
    ensures
        a.spec_combine(b).within(c),
{
}

/// `within` is transitive.
pub proof fn lemma_box_within_transitive(a: AABB, b: AABB, c: AABB)
    requires
        a.within(b),
        b.within(c),
    ensures
        a.within(c),
{
}

} // verus!
