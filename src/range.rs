use vstd::prelude::*;

verus! {

/// The mathematical form of a range: its two inclusive endpoints.
pub type RangeV = (u64, u64);

/// A range is well formed when its lower end does not pass its upper end.
pub open spec fn range_wf(r: RangeV) -> bool {
    r.0 <= r.1
}

/// Number of keys in the inclusive range.
pub open spec fn range_len(r: RangeV) -> int {
    r.1 - r.0 + 1
}

/// Two ranges share at least one key.
pub open spec fn ranges_intersect(a: RangeV, b: RangeV) -> bool {
    a.0 <= b.1 && b.0 <= a.1
}

/// Two ranges share a key or sit next to each other with no key between them.
pub open spec fn ranges_touch(a: RangeV, b: RangeV) -> bool {
    a.0 <= b.1 + 1 && b.0 <= a.1 + 1
}

/// The range holds the key.
pub open spec fn range_contains(r: RangeV, k: int) -> bool {
    r.0 <= k <= r.1
}

/// Ranges in the order of the index: by lower end, then by upper end.
pub open spec fn range_lt(a: RangeV, b: RangeV) -> bool {
    a.0 < b.0 || (a.0 == b.0 && a.1 < b.1)
}

pub open spec fn range_le(a: RangeV, b: RangeV) -> bool {
    range_lt(a, b) || a == b
}

/// The keys two ranges share, when they share any.
pub open spec fn range_meet(a: RangeV, b: RangeV) -> RangeV {
    (max_u64(a.0, b.0), min_u64(a.1, b.1))
}

pub open spec fn min_u64(a: u64, b: u64) -> u64 {
    if a <= b { a } else { b }
}

pub open spec fn max_u64(a: u64, b: u64) -> u64 {
    if a >= b { a } else { b }
}

/// An inclusive range of `u64` keys, `[min, max]`.
#[derive(Clone, Copy, PartialEq, Eq, Debug, Structural)]
pub struct Range {
    pub min: u64,
    pub max: u64,
}

impl View for Range {
    type V = RangeV;

    open spec fn view(&self) -> RangeV {
        (self.min, self.max)
    }
}

impl Range {
    pub open spec fn wf(&self) -> bool {
        self.min <= self.max
    }

    /// The range `[min, max]`; `min` must not exceed `max`.
    pub fn new(min: u64, max: u64) -> (r: Range)
        requires
            min <= max,
        ensures
            r.min == min,
            r.max == max,
    {
        Range { min, max }
    }

    /// Number of keys in the range, `max - min + 1`; the full key space does not fit.
    pub fn len(&self) -> (n: u64)
        requires
            self.wf(),
            range_len(self@) <= u64::MAX,
        ensures
            n == range_len(self@),
    {
        self.max - self.min + 1
    }

    /// Whether the two ranges share a key.
    pub fn intersect(&self, other: &Range) -> (b: bool)
        ensures
            b == ranges_intersect(self@, other@),
    {
        self.min <= other.max && other.min <= self.max
    }

    /// The keys the two ranges share; they must share at least one.
    pub fn intersection(&self, other: &Range) -> (r: Range)
        requires
            self.wf(),
            other.wf(),
            ranges_intersect(self@, other@),
        ensures
            r@ == range_meet(self@, other@),
            r.wf(),
    {
        let lo = if self.min >= other.min { self.min } else { other.min };
        let hi = if self.max <= other.max { self.max } else { other.max };
        Range { min: lo, max: hi }
    }

    /// The smallest range covering both, gap included.
    pub fn union(&self, other: &Range) -> (r: Range)
        ensures
            r.min == min_u64(self.min, other.min),
            r.max == max_u64(self.max, other.max),
    {
        let lo = if self.min <= other.min { self.min } else { other.min };
        let hi = if self.max >= other.max { self.max } else { other.max };
        Range { min: lo, max: hi }
    }

    /// The range widened by one key on each side, clamped to the key space.
    pub fn extended(&self) -> (r: Range)
        ensures
            r.min == (if self.min > 0 { (self.min - 1) as u64 } else { 0 }),
            r.max == (if self.max < u64::MAX { (self.max + 1) as u64 } else { u64::MAX }),
    {
        let lo = if self.min > 0 { self.min - 1 } else { 0 };
        let hi = if self.max < u64::MAX { self.max + 1 } else { u64::MAX };
        Range { min: lo, max: hi }
    }

    /// What is left of `self` once `hole` is taken out: the part below the hole and the
    /// part above it, each present only when not empty.
    pub fn difference(&self, hole: &Range) -> (parts: (Option<Range>, Option<Range>))
        requires
            self.wf(),
            hole.wf(),
        ensures
            parts.0 is Some <==> self.min < hole.min,
            parts.0 matches Some(l) ==> l.min == self.min && l.max == hole.min - 1,
            parts.1 is Some <==> hole.max < self.max,
            parts.1 matches Some(u) ==> u.min == hole.max + 1 && u.max == self.max,
    {
        let lower = if self.min < hole.min {
            Some(Range { min: self.min, max: hole.min - 1 })
        } else {
            None
        };
        let upper = if hole.max < self.max {
            Some(Range { min: hole.max + 1, max: self.max })
        } else {
            None
        };
        (lower, upper)
    }
}

} // verus!
