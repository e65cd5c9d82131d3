use vstd::prelude::*;

verus! {

/// A range of ray parameters, given by its two bounds.
///
/// Parameters are carried as `i64` ordinals: any strictly increasing encoding
/// of the host's distances along a ray. Only their order matters here.
#[derive(Clone, Copy, Debug, PartialEq, Eq, Structural)]
pub struct Interval {
    pub min: i64,
    pub max: i64,
}

impl Interval {
    /// `min <= x <= max`.
    pub open spec fn holds(self, x: int) -> bool {
        self.min <= x && x <= self.max
    }

    /// `min < x < max`.
    pub open spec fn encloses(self, x: int) -> bool {
        self.min < x && x < self.max
    }

    /// The value of the range nearest to `x`, for a range whose bounds are in
    /// order; the lower bound wins where they are not.
    pub open spec fn nearest(self, x: int) -> int {
        if x < self.min {
            self.min as int
        } else if x > self.max {
            self.max as int
        } else {
            x
        }
    }

    pub fn new(min: i64, max: i64) -> (r: Interval)
        ensures
            r.min == min,
            r.max == max,
    {
        Interval { min, max }
    }

    /// The range that holds no parameter at all: its bounds are crossed, so it
    /// is the neutral starting point when ranges are narrowed step by step.
    pub fn empty() -> (r: Interval)
        ensures
            r.min == i64::MAX,
            r.max == i64::MIN,
            forall|x: int| !r.holds(x),
    {
        Interval { min: i64::MAX, max: i64::MIN }
    }

    /// The range that holds every parameter.
    pub fn universe() -> (r: Interval)
        ensures
            r.min == i64::MIN,
            r.max == i64::MAX,
            forall|x: i64| r.holds(x as int),
    {
        Interval { min: i64::MIN, max: i64::MAX }
    }

    /// Inclusive membership.
    pub fn contains(&self, x: i64) -> (r: bool)
        ensures
            r == self.holds(x as int),
    {
        self.min <= x && x <= self.max
    }

    /// Exclusive membership.
    pub fn surrounds(&self, x: i64) -> (r: bool)
        ensures
            r == self.encloses(x as int),
    {
        self.min < x && x < self.max
    }

    /// Saturates `x` at the bounds.
    pub fn clamp(&self, x: i64) -> (r: i64)
        ensures
            r == self.nearest(x as int),
    {
        if x < self.min {
            return self.min;
        }
        if x > self.max {
            return self.max;
        }
        x
    }
}

impl Default for Interval {
    fn default() -> (r: Interval)
        ensures
            r.min == i64::MAX,
            r.max == i64::MIN,
    {
        Interval { min: i64::MAX, max: i64::MIN }
    }
}

/// A clamped value lies in the range whenever the range's bounds are in
/// order, and a value already in the range is left as it is.
pub proof fn lemma_clamp_in_range(range: Interval, x: int)
    requires
        range.min <= range.max,
    ensures
        range.holds(range.nearest(x)),
        range.holds(x) ==> range.nearest(x) == x,
{
}

/// Whatever a range encloses it also holds, and the empty range holds
/// nothing.
pub proof fn lemma_encloses_implies_holds(range: Interval, x: int)
    ensures
        range.encloses(x) ==> range.holds(x),
        range.min > range.max ==> !range.holds(x),
{
}

} // verus!
