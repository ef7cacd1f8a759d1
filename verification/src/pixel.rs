//! Positions, pixels and regions of the canvas, and the order of positions.

use vstd::prelude::*;
use crate::color::Rgba;

verus! {

/// A place on the canvas. Positions are ordered row by row: first by `y`,
/// then by `x`.
#[derive(Debug, Clone, Copy, PartialEq, Eq, Structural, Hash, Default, PartialOrd, Ord)]
pub struct PixelPosition {
    pub y: i16,
    pub x: i16,
}

/// Whether `a` comes strictly before `b` in row-major order.
pub open spec fn position_lt(a: PixelPosition, b: PixelPosition) -> bool {
    a.y < b.y || (a.y == b.y && a.x < b.x)
}

/// Whether `a` comes before `b` in row-major order, or is `b`.
pub open spec fn position_le(a: PixelPosition, b: PixelPosition) -> bool {
    a.y < b.y || (a.y == b.y && a.x <= b.x)
}

impl PixelPosition {
    pub fn from_xy(x: i16, y: i16) -> (p: PixelPosition)
        ensures
            p.x == x,
            p.y == y,
    {
        PixelPosition { y, x }
    }

    /// Both coordinates are at least zero.
    pub open spec fn non_negative(self) -> bool {
        self.x >= 0 && self.y >= 0
    }

    pub fn is_non_negative(self) -> (b: bool)
        ensures
            b == self.non_negative(),
    {
        self.x >= 0 && self.y >= 0
    }

    /// Strictly before `other` in row-major order.
    pub fn precedes(self, other: PixelPosition) -> (b: bool)
        ensures
            b == position_lt(self, other),
    {
        self.y < other.y || (self.y == other.y && self.x < other.x)
    }
}

/// A color at a position.
#[derive(Debug, Clone, Copy, PartialEq, Eq, Structural, Hash, Default)]
pub struct Pixel {
    pub position: PixelPosition,
    pub color: Rgba,
}

impl Pixel {
    pub fn new(position: PixelPosition, color: Rgba) -> (pixel: Pixel)
        ensures
            pixel == (Pixel { position, color }),
    {
        Pixel { position, color }
    }
}

/// Width and height of a tile of the canvas, in pixels.
#[derive(Debug, Clone, Copy, PartialEq, Eq, Structural, Hash, Default)]
pub struct PixelSize {
    pub width: u16,
    pub height: u16,
}

impl PixelSize {
    pub fn from_wh(width: u16, height: u16) -> (size: PixelSize)
        ensures
            size == (PixelSize { width, height }),
    {
        PixelSize { width, height }
    }
}

/// A rectangle of positions given by its two corners, both inclusive.
///
/// A region whose `start` lies beyond its `end` on either axis holds no
/// position; `PixelRegion::empty()` is the canonical one.
#[derive(Debug, Clone, Copy, PartialEq, Eq, Structural, Hash)]
pub struct PixelRegion {
    pub start: PixelPosition,
    pub end: PixelPosition,
}

impl PixelRegion {
    /// The region without positions that a bounding box starts from.
    pub open spec fn spec_empty() -> PixelRegion {
        PixelRegion {
            start: PixelPosition { y: i16::MAX, x: i16::MAX },
            end: PixelPosition { y: i16::MIN, x: i16::MIN },
        }
    }

    pub open spec fn contains(self, p: PixelPosition) -> bool {
        self.start.x <= p.x <= self.end.x && self.start.y <= p.y <= self.end.y
    }

    /// `self` is the smallest region that contains every position of `s`.
    pub open spec fn bounds(self, s: Set<PixelPosition>) -> bool {
        if s =~= Set::<PixelPosition>::empty() {
            self == Self::spec_empty()
        } else {
            &&& forall|p: PixelPosition| s.contains(p) ==> self.contains(p)
            &&& exists|p: PixelPosition| s.contains(p) && p.x == self.start.x
            &&& exists|p: PixelPosition| s.contains(p) && p.x == self.end.x
            &&& exists|p: PixelPosition| s.contains(p) && p.y == self.start.y
            &&& exists|p: PixelPosition| s.contains(p) && p.y == self.end.y
        }
    }

    pub fn empty() -> (region: PixelRegion)
        ensures
            region == Self::spec_empty(),
    {
        PixelRegion {
            start: PixelPosition { y: i16::MAX, x: i16::MAX },
            end: PixelPosition { y: i16::MIN, x: i16::MIN },
        }
    }

    pub fn is_empty(&self) -> (b: bool)
        ensures
            b == (forall|p: PixelPosition| !self.contains(p)),
    {
        let b = self.start.x > self.end.x || self.start.y > self.end.y;
        proof {
            if !b {
                assert(self.contains(self.start));
            }
        }
        b
    }

    /// The smallest region that holds every one of `positions`.
    pub fn from_positions(positions: &Vec<PixelPosition>) -> (region: PixelRegion)
        ensures
            region.bounds(positions@.to_set()),
    {
        let mut region = PixelRegion::empty();
        let mut i: usize = 0;
        while i < positions.len()
            invariant
                i <= positions.len(),
                region.bounds(positions@.take(i as int).to_set()),
            decreases positions.len() - i,
        {
            let p = positions[i];
            let ghost before = positions@.take(i as int).to_set();
            let ghost after = positions@.take(i + 1).to_set();
            let ghost old_region = region;
            proof {
                assert(positions@.take(i + 1) =~= positions@.take(i as int).push(p));
                assert(after =~= before.insert(p)) by {
                    assert forall|q: PixelPosition| after.contains(q) == before.insert(p).contains(
                        q,
                    ) by {
                        if positions@.take(i as int).push(p).contains(q) {
                            let k = choose|k: int|
                                0 <= k < i + 1 && positions@.take(i as int).push(p)[k] == q;
                            if k < i {
                                assert(positions@.take(i as int)[k] == q);
                            }
                        }
                        if before.contains(q) {
                            let k = choose|k: int|
                                0 <= k < i && positions@.take(i as int)[k] == q;
                            assert(positions@.take(i as int).push(p)[k] == q);
                        }
                        if q == p {
                            assert(positions@.take(i as int).push(p)[i as int] == q);
                        }
                    }
                }
                assert(after.contains(p));
                assert(!(after =~= Set::<PixelPosition>::empty()));
            }
            if p.x < region.start.x {
                region.start.x = p.x;
            }
            if p.y < region.start.y {
                region.start.y = p.y;
            }
            if p.x > region.end.x {
                region.end.x = p.x;
            }
            if p.y > region.end.y {
                region.end.y = p.y;
            }
            proof {
                if before =~= Set::<PixelPosition>::empty() {
                    assert(region.start == p && region.end == p);
                    assert forall|q: PixelPosition| after.contains(q) implies region.contains(
                        q,
                    ) by {
                        assert(before.insert(p).contains(q));
                        assert(!before.contains(q));
                    }
                } else {
                    let x0 = choose|q: PixelPosition| before.contains(q) && q.x == old_region.start.x;
                    let x1 = choose|q: PixelPosition| before.contains(q) && q.x == old_region.end.x;
                    let y0 = choose|q: PixelPosition| before.contains(q) && q.y == old_region.start.y;
                    let y1 = choose|q: PixelPosition| before.contains(q) && q.y == old_region.end.y;
                    assert(after.contains(x0) && after.contains(x1) && after.contains(y0)
                        && after.contains(y1));
                    assert forall|q: PixelPosition| after.contains(q) implies region.contains(
                        q,
                    ) by {
                        assert(before.insert(p).contains(q));
                        if q != p {
                            assert(old_region.contains(q));
                        }
                    }
                }
            }
            i += 1;
        }
        proof {
            assert(positions@.take(positions.len() as int) =~= positions@);
        }
        region
    }
}

} // verus!
