//! The sparse pixel store: a map from positions to visible colors, with the
//! occupancy of the non-negative quadrant kept beside it.

use vstd::prelude::*;
use vstd::set_lib::lemma_len_subset;
use vstd::std_specs::iter::IteratorSpec;
use std::collections::BTreeMap;
use crate::color::Rgba;
use crate::error::CanvasError;
use crate::pixel::{position_lt, Pixel, PixelPosition};
use crate::sorting::{
    has_position, insert_by_position, lemma_insert_sorted, lemma_sort_sorted, lemma_sort_strict,
    lemma_strictly_sorted_unique, sort_by_position, sort_pixels, strictly_sorted,
};

verus! {

broadcast use {vstd::laws_cmp::group_laws_cmp, vstd::std_specs::btree::group_btree_axioms};

/// What the store holds: a color for some positions.
pub type PixelMap = Map<PixelPosition, Rgba>;

/// A map that a store can hold: finitely many pixels, none transparent.
pub open spec fn store_wf(m: PixelMap) -> bool {
    &&& m.dom().finite()
    &&& forall|p: PixelPosition| m.contains_key(p) ==> #[trigger] m[p].a != 0
}

/// Whether `m` holds exactly the pixel `px`.
pub open spec fn holds(m: PixelMap, px: Pixel) -> bool {
    m.contains_key(px.position) && m[px.position] == px.color
}

/// Erasing `px`: it must be there with exactly its color.
pub open spec fn erase_step(m: PixelMap, px: Pixel) -> Option<PixelMap> {
    if holds(m, px) {
        Some(m.remove(px.position))
    } else {
        None
    }
}

/// Drawing `px`: its position must be free; a transparent pixel leaves
/// no entry.
pub open spec fn draw_step(m: PixelMap, px: Pixel) -> Option<PixelMap> {
    if m.contains_key(px.position) {
        None
    } else if px.color.a == 0 {
        Some(m)
    } else {
        Some(m.insert(px.position, px.color))
    }
}

/// Taking back the drawing of `px`: a visible pixel must be there with
/// exactly its color and goes; a transparent one left no entry, so its
/// position must be free and nothing changes.
pub open spec fn undraw_step(m: PixelMap, px: Pixel) -> Option<PixelMap> {
    if px.color.a != 0 {
        erase_step(m, px)
    } else if m.contains_key(px.position) {
        None
    } else {
        Some(m)
    }
}

/// `c` is the non-negative bounding corner of `m`: on each axis the
/// greatest coordinate among the pixels with both coordinates at least
/// zero, and zero where there is no such pixel.
pub open spec fn is_non_neg_corner(m: PixelMap, c: PixelPosition) -> bool {
    &&& c.x >= 0
    &&& c.y >= 0
    &&& forall|p: PixelPosition|
        m.contains_key(p) && p.non_negative() ==> p.x <= c.x && p.y <= c.y
    &&& c.x > 0 ==> exists|p: PixelPosition|
        m.contains_key(p) && p.non_negative() && p.x == c.x
    &&& c.y > 0 ==> exists|p: PixelPosition|
        m.contains_key(p) && p.non_negative() && p.y == c.y
}

/// `s` lists the pixels of `m`, each once, in row-major order.
pub open spec fn is_entries_of(m: PixelMap, s: Seq<Pixel>) -> bool {
    &&& strictly_sorted(s)
    &&& forall|px: Pixel| s.contains(px) <==> holds(m, px)
}

type Tree = Map<(i16, i16), Rgba>;

spec fn coordinate(k: (i16, i16), by_x: bool) -> i16 {
    if by_x {
        k.1
    } else {
        k.0
    }
}

/// The non-negative keys of `t` on the line `v` of one axis.
spec fn line(t: Tree, by_x: bool, v: i16) -> Set<(i16, i16)> {
    Set::new(|k: (i16, i16)| t.contains_key(k) && k.0 >= 0 && k.1 >= 0 && coordinate(k, by_x) == v)
}

spec fn occupied(t: Tree, by_x: bool, v: i16) -> bool {
    exists|k: (i16, i16)| line(t, by_x, v).contains(k)
}

/// `counts` holds, for each occupied line of one axis, how many pixels
/// lie on it, and nothing for the others.
spec fn counts_ok(t: Tree, counts: Map<i16, usize>, by_x: bool) -> bool {
    &&& forall|v: i16| #[trigger] counts.contains_key(v) <==> occupied(t, by_x, v)
    &&& forall|v: i16| #[trigger] counts.contains_key(v) ==> counts[v] == line(t, by_x, v).len()
}

/// `c` is the greatest counted line, or zero where none is counted.
spec fn corner_ok(counts: Map<i16, usize>, c: i16) -> bool {
    &&& c >= 0
    &&& forall|v: i16| counts.contains_key(v) ==> v <= c
    &&& c > 0 ==> counts.contains_key(c)
}

proof fn lemma_line_finite(t: Tree, by_x: bool, v: i16)
    requires
        t.dom().finite(),
    ensures
        line(t, by_x, v).finite(),
        line(t, by_x, v).len() <= t.dom().len(),
        occupied(t, by_x, v) <==> line(t, by_x, v).len() > 0,
{
    lemma_len_subset(line(t, by_x, v), t.dom());
    if line(t, by_x, v).len() > 0 {
        assert(line(t, by_x, v).contains(line(t, by_x, v).choose()));
    }
    if occupied(t, by_x, v) {
        let k = choose|k: (i16, i16)| line(t, by_x, v).contains(k);
        assert(line(t, by_x, v).remove(k).len() + 1 == line(t, by_x, v).len());
    }
}

proof fn lemma_line_insert(t: Tree, k: (i16, i16), c: Rgba, by_x: bool, v: i16)
    requires
        t.dom().finite(),
        !t.contains_key(k),
    ensures
        line(t.insert(k, c), by_x, v) == if k.0 >= 0 && k.1 >= 0 && coordinate(k, by_x) == v {
            line(t, by_x, v).insert(k)
        } else {
            line(t, by_x, v)
        },
        line(t.insert(k, c), by_x, v).len() == if k.0 >= 0 && k.1 >= 0 && coordinate(k, by_x)
            == v {
            line(t, by_x, v).len() + 1
        } else {
            line(t, by_x, v).len()
        },
{
    lemma_line_finite(t, by_x, v);
    if k.0 >= 0 && k.1 >= 0 && coordinate(k, by_x) == v {
        assert(line(t.insert(k, c), by_x, v) =~= line(t, by_x, v).insert(k));
    } else {
        assert(line(t.insert(k, c), by_x, v) =~= line(t, by_x, v));
    }
}

proof fn lemma_line_remove(t: Tree, k: (i16, i16), by_x: bool, v: i16)
    requires
        t.dom().finite(),
        t.contains_key(k),
    ensures
        line(t.remove(k), by_x, v) == if k.0 >= 0 && k.1 >= 0 && coordinate(k, by_x) == v {
            line(t, by_x, v).remove(k)
        } else {
            line(t, by_x, v)
        },
        line(t, by_x, v).len() == if k.0 >= 0 && k.1 >= 0 && coordinate(k, by_x) == v {
            line(t.remove(k), by_x, v).len() + 1
        } else {
            line(t.remove(k), by_x, v).len()
        },
{
    lemma_line_finite(t, by_x, v);
    if k.0 >= 0 && k.1 >= 0 && coordinate(k, by_x) == v {
        assert(line(t, by_x, v).contains(k));
        assert(line(t.remove(k), by_x, v) =~= line(t, by_x, v).remove(k));
    } else {
        assert(line(t.remove(k), by_x, v) =~= line(t, by_x, v));
    }
}

/// A key off the non-negative quadrant is on no line.
proof fn lemma_counts_frame(t: Tree, u: Tree, counts: Map<i16, usize>, by_x: bool)
    requires
        counts_ok(t, counts, by_x),
        forall|k: (i16, i16)| k.0 >= 0 && k.1 >= 0 ==> (t.contains_key(k) <==> u.contains_key(k)),
    ensures
        counts_ok(u, counts, by_x),
{
    assert forall|v: i16| line(t, by_x, v) == line(u, by_x, v) by {
        assert(line(t, by_x, v) =~= line(u, by_x, v));
    }
    assert forall|v: i16| occupied(t, by_x, v) == occupied(u, by_x, v) by {
        assert(line(t, by_x, v) == line(u, by_x, v));
    }
    assert forall|v: i16| #[trigger] counts.contains_key(v) implies counts[v] == line(
        u,
        by_x,
        v,
    ).len() by {
        assert(line(t, by_x, v) == line(u, by_x, v));
    }
}

/// Counts one more pixel on the line `v`, and moves the corner out to it.
fn line_drawn(
    counts: &mut BTreeMap<i16, usize>,
    corner: i16,
    v: i16,
    Ghost(t): Ghost<Tree>,
    Ghost(k): Ghost<(i16, i16)>,
    Ghost(c): Ghost<Rgba>,
    Ghost(by_x): Ghost<bool>,
) -> (out: i16)
    requires
        counts_ok(t, old(counts)@, by_x),
        corner_ok(old(counts)@, corner),
        t.dom().finite(),
        !t.contains_key(k),
        k.0 >= 0 && k.1 >= 0 && coordinate(k, by_x) == v,
        t.insert(k, c).dom().len() <= usize::MAX,
    ensures
        counts_ok(t.insert(k, c), final(counts)@, by_x),
        corner_ok(final(counts)@, out),
{
    let ghost u = t.insert(k, c);
    proof {
        lemma_line_insert(t, k, c, by_x, v);
        lemma_line_finite(u, by_x, v);
        lemma_line_finite(t, by_x, v);
    }
    let n: usize = match counts.get(&v) {
        Some(n) => *n + 1,
        None => 1,
    };
    counts.insert(v, n);
    proof {
        assert(line(u, by_x, v).contains(k));
        assert forall|w: i16| #[trigger] counts@.contains_key(w) <==> occupied(u, by_x, w) by {
            lemma_line_insert(t, k, c, by_x, w);
            if w != v {
                assert(line(u, by_x, w) == line(t, by_x, w));
                assert(old(counts)@.contains_key(w) <==> occupied(t, by_x, w));
            }
        }
        assert forall|w: i16| #[trigger] counts@.contains_key(w) implies counts@[w] == line(
            u,
            by_x,
            w,
        ).len() by {
            lemma_line_insert(t, k, c, by_x, w);
            if w != v {
                assert(old(counts)@.contains_key(w));
            }
        }
    }
    if v > corner {
        v
    } else {
        corner
    }
}

/// Calls `BTreeMap::last_key_value`, which returns the entry with the
/// greatest key of the map, and nothing for an empty map; the key is
/// handed on.
#[verifier::external_body]
fn last_key(counts: &BTreeMap<i16, usize>) -> (out: Option<i16>)
    ensures
        match out {
            Some(top) => counts@.contains_key(top) && forall|v: i16|
                counts@.contains_key(v) ==> v <= top,
            None => forall|v: i16| !counts@.contains_key(v),
        },
{
    match counts.last_key_value() {
        Some(entry) => Some(*entry.0),
        None => None,
    }
}

/// Counts one pixel less on the line `v`; where it was the last, the
/// corner falls back to the greatest line still occupied.
fn line_erased(
    counts: &mut BTreeMap<i16, usize>,
    corner: i16,
    v: i16,
    Ghost(t): Ghost<Tree>,
    Ghost(k): Ghost<(i16, i16)>,
    Ghost(by_x): Ghost<bool>,
) -> (out: i16)
    requires
        counts_ok(t, old(counts)@, by_x),
        corner_ok(old(counts)@, corner),
        t.dom().finite(),
        t.contains_key(k),
        k.0 >= 0 && k.1 >= 0 && coordinate(k, by_x) == v,
    ensures
        counts_ok(t.remove(k), final(counts)@, by_x),
        corner_ok(final(counts)@, out),
{
    let ghost u = t.remove(k);
    proof {
        lemma_line_remove(t, k, by_x, v);
        lemma_line_finite(u, by_x, v);
        lemma_line_finite(t, by_x, v);
        assert(line(t, by_x, v).contains(k));
        assert(old(counts)@.contains_key(v));
    }
    let n: usize = match counts.get(&v) {
        Some(n) => *n,
        None => 1,
    };
    let mut out = corner;
    if n <= 1 {
        counts.remove(&v);
        out = match last_key(counts) {
            Some(top) => top,
            None => 0,
        };
        proof {
            if counts@.contains_key(out) {
                assert(occupied(t, by_x, out));
                let w = choose|w: (i16, i16)| line(t, by_x, out).contains(w);
                assert(w.0 >= 0 && w.1 >= 0);
            }
        }
    } else {
        counts.insert(v, n - 1);
    }
    proof {
        assert forall|w: i16| #[trigger] counts@.contains_key(w) <==> occupied(u, by_x, w) by {
            lemma_line_remove(t, k, by_x, w);
            if w != v {
                assert(line(u, by_x, w) == line(t, by_x, w));
                assert(old(counts)@.contains_key(w) <==> occupied(t, by_x, w));
            }
        }
        assert forall|w: i16| #[trigger] counts@.contains_key(w) implies counts@[w] == line(
            u,
            by_x,
            w,
        ).len() by {
            lemma_line_remove(t, k, by_x, w);
            if w != v {
                assert(old(counts)@.contains_key(w));
            }
        }
    }
    out
}

/// The pixels of the canvas.
#[derive(Debug)]
pub struct Pixels {
    pixels: BTreeMap<(i16, i16), Rgba>,
    non_neg_right_bottom: PixelPosition,
    non_neg_ys: BTreeMap<i16, usize>,
    non_neg_xs: BTreeMap<i16, usize>,
}

impl View for Pixels {
    type V = PixelMap;

    closed spec fn view(&self) -> PixelMap {
        Map::new(
            |p: PixelPosition| self.pixels@.contains_key((p.y, p.x)),
            |p: PixelPosition| self.pixels@[(p.y, p.x)],
        )
    }
}

impl Pixels {
    /// The store is as its operations leave it: no transparent entry, and
    /// the occupancy counts and the bounding corner agree with the entries.
    pub closed spec fn wf(&self) -> bool {
        &&& forall|k: (i16, i16)| self.pixels@.contains_key(k) ==> #[trigger] self.pixels@[k].a != 0
        &&& counts_ok(self.pixels@, self.non_neg_xs@, true)
        &&& counts_ok(self.pixels@, self.non_neg_ys@, false)
        &&& corner_ok(self.non_neg_xs@, self.non_neg_right_bottom.x)
        &&& corner_ok(self.non_neg_ys@, self.non_neg_right_bottom.y)
    }

    /// The corner that the store keeps.
    pub closed spec fn corner(&self) -> PixelPosition {
        self.non_neg_right_bottom
    }

    /// The store holds as many pixels as its tree has keys, finitely many.
    proof fn lemma_len(&self)
        ensures
            self@.dom().finite(),
            self@.dom().len() == self.pixels@.dom().len(),
    {
        let t = self.pixels@;
        let f = |k: (i16, i16)| PixelPosition { y: k.0, x: k.1 };
        assert(self@.dom() =~= t.dom().map(f)) by {
            assert forall|p: PixelPosition| self@.dom().contains(p) == t.dom().map(f).contains(
                p,
            ) by {
                if self@.dom().contains(p) {
                    assert(t.dom().contains((p.y, p.x)) && f((p.y, p.x)) == p);
                }
            }
        }
        assert(vstd::relations::injective(f)) by {
            assert forall|a: (i16, i16), b: (i16, i16)| #[trigger] f(a) == #[trigger] f(b) implies a == b by {
                assert(f(a).y == a.0 && f(a).x == a.1);
                assert(f(b).y == b.0 && f(b).x == b.1);
            }
        }
        vstd::set_lib::lemma_map_size(t.dom(), self@.dom(), f);
    }

    /// What a well-formed store holds is a well-formed map, and the corner
    /// it keeps is the non-negative bounding corner of that map.
    pub proof fn lemma_wf(&self)
        requires
            self.wf(),
        ensures
            store_wf(self@),
            is_non_neg_corner(self@, self.corner()),
    {
        let t = self.pixels@;
        self.lemma_len();
        let c = self.non_neg_right_bottom;
        assert forall|p: PixelPosition| self@.contains_key(p) && p.non_negative() implies p.x
            <= c.x && p.y <= c.y by {
            assert(line(t, true, p.x).contains((p.y, p.x)));
            assert(occupied(t, true, p.x));
            assert(self.non_neg_xs@.contains_key(p.x));
            assert(line(t, false, p.y).contains((p.y, p.x)));
            assert(occupied(t, false, p.y));
            assert(self.non_neg_ys@.contains_key(p.y));
        }
        if c.x > 0 {
            assert(occupied(t, true, c.x));
            let k = choose|k: (i16, i16)| line(t, true, c.x).contains(k);
            let p = PixelPosition { y: k.0, x: k.1 };
            assert(self@.contains_key(p) && p.non_negative() && p.x == c.x);
        }
        if c.y > 0 {
            assert(occupied(t, false, c.y));
            let k = choose|k: (i16, i16)| line(t, false, c.y).contains(k);
            let p = PixelPosition { y: k.0, x: k.1 };
            assert(self@.contains_key(p) && p.non_negative() && p.y == c.y);
        }
    }

    /// A store without pixels.
    pub fn new() -> (store: Pixels)
        ensures
            store.wf(),
            store@ == PixelMap::empty(),
    {
        let store = Pixels {
            pixels: BTreeMap::new(),
            non_neg_right_bottom: PixelPosition { y: 0, x: 0 },
            non_neg_ys: BTreeMap::new(),
            non_neg_xs: BTreeMap::new(),
        };
        proof {
            assert(store@ =~= PixelMap::empty());
            assert forall|v: i16, by_x: bool| !occupied(store.pixels@, by_x, v) by {
                if occupied(store.pixels@, by_x, v) {
                    let k = choose|k: (i16, i16)| line(store.pixels@, by_x, v).contains(k);
                    assert(store.pixels@.contains_key(k));
                }
            }
        }
        store
    }

    /// The color at `position`, where there is one.
    pub fn get_pixel(&self, position: PixelPosition) -> (color: Option<Rgba>)
        ensures
            color == if self@.contains_key(position) {
                Some(self@[position])
            } else {
                None::<Rgba>
            },
    {
        match self.pixels.get(&(position.y, position.x)) {
            Some(color) => Some(*color),
            None => None,
        }
    }

    /// The number of pixels in the store.
    pub fn len(&self) -> (n: usize)
        requires
            self.wf(),
        ensures
            n == self@.dom().len(),
    {
        proof {
            self.lemma_len();
        }
        self.pixels.len()
    }

    /// The non-negative bounding corner.
    pub fn non_neg_right_bottom(&self) -> (c: PixelPosition)
        requires
            self.wf(),
        ensures
            c == self.corner(),
            is_non_neg_corner(self@, c),
    {
        proof {
            self.lemma_wf();
        }
        self.non_neg_right_bottom
    }

    /// Draws `pixel` at a free position. A transparent pixel leaves no
    /// entry. Drawing at a taken position is refused.
    pub fn draw_pixel(&mut self, pixel: Pixel) -> (r: Result<(), CanvasError>)
        requires
            old(self).wf(),
        ensures
            final(self).wf(),
            match draw_step(old(self)@, pixel) {
                Some(m) => r is Ok && final(self)@ == m,
                None => r == Err::<(), CanvasError>(CanvasError::ConsistencyViolation)
                    && final(self)@ == old(self)@,
            },
    {
        let key = (pixel.position.y, pixel.position.x);
        if self.pixels.get(&key).is_some() {
            return Err(CanvasError::ConsistencyViolation);
        }
        if pixel.color.a == 0 {
            return Ok(());
        }
        let ghost before = self.pixels@;
        self.pixels.insert(key, pixel.color);
        proof {
            assert(self@ =~= old(self)@.insert(pixel.position, pixel.color));
            assert(self.pixels@.dom().len() == self.pixels.len());
        }
        if pixel.position.is_non_negative() {
            self.on_non_neg_pixel_drawn(pixel.position, Ghost(before), Ghost(pixel.color));
        } else {
            proof {
                lemma_counts_frame(before, self.pixels@, self.non_neg_xs@, true);
                lemma_counts_frame(before, self.pixels@, self.non_neg_ys@, false);
            }
        }
        Ok(())
    }

    /// Erases `pixel`, which must be in the store with exactly its color;
    /// anything else is refused.
    pub fn erase_pixel(&mut self, pixel: Pixel) -> (r: Result<(), CanvasError>)
        requires
            old(self).wf(),
        ensures
            final(self).wf(),
            match erase_step(old(self)@, pixel) {
                Some(m) => r is Ok && final(self)@ == m,
                None => r == Err::<(), CanvasError>(CanvasError::ConsistencyViolation)
                    && final(self)@ == old(self)@,
            },
    {
        let key = (pixel.position.y, pixel.position.x);
        let found = match self.pixels.get(&key) {
            Some(color) => *color == pixel.color,
            None => false,
        };
        if !found {
            return Err(CanvasError::ConsistencyViolation);
        }
        let ghost before = self.pixels@;
        self.pixels.remove(&key);
        proof {
            assert(self@ =~= old(self)@.remove(pixel.position));
        }
        if pixel.position.is_non_negative() {
            self.on_non_neg_pixel_erased(pixel.position, Ghost(before));
        } else {
            proof {
                lemma_counts_frame(before, self.pixels@, self.non_neg_xs@, true);
                lemma_counts_frame(before, self.pixels@, self.non_neg_ys@, false);
            }
        }
        Ok(())
    }

    /// Takes back the drawing of `pixel`: a visible pixel is erased, a
    /// transparent one only wants its position free.
    pub fn undraw_pixel(&mut self, pixel: Pixel) -> (r: Result<(), CanvasError>)
        requires
            old(self).wf(),
        ensures
            final(self).wf(),
            match undraw_step(old(self)@, pixel) {
                Some(m) => r is Ok && final(self)@ == m,
                None => r == Err::<(), CanvasError>(CanvasError::ConsistencyViolation)
                    && final(self)@ == old(self)@,
            },
    {
        if pixel.color.a != 0 {
            self.erase_pixel(pixel)
        } else if self.get_pixel(pixel.position).is_some() {
            Err(CanvasError::ConsistencyViolation)
        } else {
            Ok(())
        }
    }

    /// Takes the pixel just removed at `position` out of the occupancy of
    /// its column and of its row.
    fn on_non_neg_pixel_erased(&mut self, position: PixelPosition, Ghost(before): Ghost<Tree>)
        requires
            position.non_negative(),
            before.contains_key((position.y, position.x)),
            old(self).pixels@ == before.remove((position.y, position.x)),
            before.dom().finite(),
            counts_ok(before, old(self).non_neg_xs@, true),
            counts_ok(before, old(self).non_neg_ys@, false),
            corner_ok(old(self).non_neg_xs@, old(self).non_neg_right_bottom.x),
            corner_ok(old(self).non_neg_ys@, old(self).non_neg_right_bottom.y),
        ensures
            final(self).pixels@ == old(self).pixels@,
            counts_ok(final(self).pixels@, final(self).non_neg_xs@, true),
            counts_ok(final(self).pixels@, final(self).non_neg_ys@, false),
            corner_ok(final(self).non_neg_xs@, final(self).non_neg_right_bottom.x),
            corner_ok(final(self).non_neg_ys@, final(self).non_neg_right_bottom.y),
    {
        let ghost k = (position.y, position.x);
        let x = line_erased(
            &mut self.non_neg_xs,
            self.non_neg_right_bottom.x,
            position.x,
            Ghost(before),
            Ghost(k),
            Ghost(true),
        );
        self.non_neg_right_bottom.x = x;
        let y = line_erased(
            &mut self.non_neg_ys,
            self.non_neg_right_bottom.y,
            position.y,
            Ghost(before),
            Ghost(k),
            Ghost(false),
        );
        self.non_neg_right_bottom.y = y;
    }

    /// Takes the pixel just inserted at `position` into the occupancy of
    /// its column and of its row.
    fn on_non_neg_pixel_drawn(
        &mut self,
        position: PixelPosition,
        Ghost(before): Ghost<Tree>,
        Ghost(color): Ghost<Rgba>,
    )
        requires
            position.non_negative(),
            !before.contains_key((position.y, position.x)),
            old(self).pixels@ == before.insert((position.y, position.x), color),
            old(self).pixels@.dom().len() <= usize::MAX,
            before.dom().finite(),
            counts_ok(before, old(self).non_neg_xs@, true),
            counts_ok(before, old(self).non_neg_ys@, false),
            corner_ok(old(self).non_neg_xs@, old(self).non_neg_right_bottom.x),
            corner_ok(old(self).non_neg_ys@, old(self).non_neg_right_bottom.y),
        ensures
            final(self).pixels@ == old(self).pixels@,
            counts_ok(final(self).pixels@, final(self).non_neg_xs@, true),
            counts_ok(final(self).pixels@, final(self).non_neg_ys@, false),
            corner_ok(final(self).non_neg_xs@, final(self).non_neg_right_bottom.x),
            corner_ok(final(self).non_neg_ys@, final(self).non_neg_right_bottom.y),
    {
        let ghost k = (position.y, position.x);
        let x = line_drawn(
            &mut self.non_neg_xs,
            self.non_neg_right_bottom.x,
            position.x,
            Ghost(before),
            Ghost(k),
            Ghost(color),
            Ghost(true),
        );
        self.non_neg_right_bottom.x = x;
        let y = line_drawn(
            &mut self.non_neg_ys,
            self.non_neg_right_bottom.y,
            position.y,
            Ghost(before),
            Ghost(k),
            Ghost(color),
            Ghost(false),
        );
        self.non_neg_right_bottom.y = y;
    }
}

/// The pixels of `m`, each once, in row-major order.
pub closed spec fn entries_of(m: PixelMap) -> Seq<Pixel> {
    choose|s: Seq<Pixel>| is_entries_of(m, s)
}

/// There is one list only of the pixels of a map in row-major order.
pub proof fn lemma_entries_unique(m: PixelMap, s: Seq<Pixel>)
    requires
        is_entries_of(m, s),
    ensures
        entries_of(m) == s,
{
    lemma_strictly_sorted_unique(entries_of(m), s);
}

/// Every finite map has its list of pixels in row-major order.
pub proof fn lemma_entries_exist(m: PixelMap)
    requires
        m.dom().finite(),
    ensures
        is_entries_of(m, entries_of(m)),
    decreases m.dom().len(),
{
    if m.dom().len() == 0 {
        let s = Seq::<Pixel>::empty();
        assert forall|px: Pixel| s.contains(px) <==> holds(m, px) by {
            if holds(m, px) {
                assert(m.dom().contains(px.position));
            }
        }
        assert(is_entries_of(m, s));
    } else {
        let p = m.dom().choose();
        let px = Pixel { position: p, color: m[p] };
        let rest = m.remove(p);
        lemma_entries_exist(rest);
        let t = entries_of(rest);
        if has_position(t, p) {
            let i = choose|i: int| 0 <= i < t.len() && t[i].position == p;
            assert(t.contains(t[i]));
            assert(holds(rest, t[i]));
        }
        lemma_insert_sorted(t, px);
        let s = insert_by_position(t, px);
        assert forall|q: Pixel| s.contains(q) <==> holds(m, q) by {
            assert(t.contains(q) <==> holds(rest, q));
        }
        assert(is_entries_of(m, s));
    }
}

impl Pixels {
    /// The pixels of the store, in row-major order.
    pub fn entries(&self) -> (out: Vec<Pixel>)
        ensures
            is_entries_of(self@, out@),
            out@ == entries_of(self@),
    {
        let mut found: Vec<Pixel> = Vec::new();
        for k in it: self.pixels.keys()
            invariant
                it.seq() == self.pixels.keys().remaining(),
                found@.len() == it.index(),
                forall|i: int|
                    0 <= i < found.len() ==> (#[trigger] found@[i]).position == (PixelPosition {
                        y: it.seq()[i].0,
                        x: it.seq()[i].1,
                    }) && holds(self@, found@[i]),
        {
            let ghost i = it.index();
            proof {
                let keys = self.pixels.keys().remaining().unref();
                assert(keys.to_set().contains(keys[i]));
                assert(self.pixels@.contains_key(*k));
            }
            let color = match self.pixels.get(k) {
                Some(color) => *color,
                None => Rgba { r: 0, g: 0, b: 0, a: 0 },
            };
            found.push(Pixel { position: PixelPosition { y: k.0, x: k.1 }, color });
        }
        let out = sort_pixels(&found);
        proof {
            let keys = self.pixels.keys().remaining().unref();
            assert forall|i: int, j: int| 0 <= i < j < found@.len() implies found@[i].position
                != found@[j].position by {
                assert(keys[i] != keys[j]);
            }
            lemma_sort_strict(found@);
            lemma_sort_sorted(found@);
            assert forall|px: Pixel| out@.contains(px) <==> holds(self@, px) by {
                assert(out@.contains(px) == sort_by_position(found@).contains(px));
                if out@.contains(px) {
                    assert(found@.contains(px));
                    let i = choose|i: int| 0 <= i < found@.len() && found@[i] == px;
                    assert(holds(self@, found@[i]));
                }
                if holds(self@, px) {
                    let key = (px.position.y, px.position.x);
                    assert(keys.to_set().contains(key));
                    let i = choose|i: int| 0 <= i < keys.len() && keys[i] == key;
                    assert(found@[i].position == px.position);
                    assert(holds(self@, found@[i]));
                    assert(found@[i] == px);
                    assert(found@.contains(px));
                }
            }
            lemma_entries_unique(self@, out@);
        }
        out
    }
}

/// `m` with `px` put at its position in place of whatever was there; a
/// transparent pixel leaves the position free.
pub open spec fn put(m: PixelMap, px: Pixel) -> PixelMap {
    if px.color.a == 0 {
        m.remove(px.position)
    } else {
        m.insert(px.position, px.color)
    }
}

/// The map that putting the pixels of `s`, one after the other, on an
/// empty map leaves.
pub open spec fn store_from(s: Seq<Pixel>) -> PixelMap
    decreases s.len(),
{
    if s.len() == 0 {
        PixelMap::empty()
    } else {
        put(store_from(s.drop_last()), s.last())
    }
}

/// Putting the visible pixels of a strictly sorted list on an empty map
/// leaves exactly those pixels.
pub proof fn lemma_store_from_sorted(s: Seq<Pixel>)
    requires
        strictly_sorted(s),
        forall|i: int| 0 <= i < s.len() ==> (#[trigger] s[i]).color.a != 0,
    ensures
        forall|px: Pixel|
            #![trigger holds(store_from(s), px)]
            #![trigger s.contains(px)]
            holds(store_from(s), px) <==> s.contains(px),
    decreases s.len(),
{
    if s.len() > 0 {
        let init = s.drop_last();
        let z = s.last();
        assert(s[s.len() - 1].color.a != 0);
        assert forall|i: int| 0 <= i < init.len() implies (#[trigger] init[i]).color.a != 0 by {
            assert(init[i] == s[i]);
        }
        lemma_store_from_sorted(init);
        assert forall|px: Pixel|
            #![trigger holds(store_from(s), px)]
            #![trigger s.contains(px)]
            holds(store_from(s), px) <==> s.contains(px) by {
            assert(holds(store_from(init), px) <==> init.contains(px));
            if s.contains(px) {
                let i = choose|i: int| 0 <= i < s.len() && s[i] == px;
                if i < s.len() - 1 {
                    assert(init[i] == px);
                    assert(init.contains(px));
                    assert(position_lt(s[i].position, s[s.len() - 1].position));
                }
            }
            if holds(store_from(s), px) {
                if px.position == z.position {
                    assert(s[s.len() - 1] == px);
                } else {
                    assert(holds(store_from(init), px));
                    let i = choose|i: int| 0 <= i < init.len() && init[i] == px;
                    assert(s[i] == px);
                }
            }
        }
    } else {
        assert forall|px: Pixel|
            #![trigger holds(store_from(s), px)]
            #![trigger s.contains(px)]
            holds(store_from(s), px) <==> s.contains(px) by {}
    }
}

/// Putting the pixels of a map, listed in row-major order, on an empty
/// map gives the map again.
pub proof fn lemma_store_from_entries(m: PixelMap)
    requires
        store_wf(m),
    ensures
        store_from(entries_of(m)) == m,
{
    lemma_entries_exist(m);
    let s = entries_of(m);
    assert forall|i: int| 0 <= i < s.len() implies (#[trigger] s[i]).color.a != 0 by {
        assert(s.contains(s[i]));
        assert(holds(m, s[i]));
    }
    lemma_store_from_sorted(s);
    let built = store_from(s);
    assert forall|p: PixelPosition|
        #![trigger built.contains_key(p)]
        #![trigger m.contains_key(p)]
        #![trigger built.dom().contains(p)]
        #![trigger m.dom().contains(p)]
        built.contains_key(p) == m.contains_key(p) && (m.contains_key(p) ==> built[p] == m[p]) by {
        if built.contains_key(p) {
            let px = Pixel { position: p, color: built[p] };
            assert(holds(built, px));
            assert(s.contains(px));
            assert(holds(m, px));
        }
        if m.contains_key(p) {
            let px = Pixel { position: p, color: m[p] };
            assert(holds(m, px));
            assert(s.contains(px));
            assert(holds(built, px));
        }
    }
    assert(built.dom() =~= m.dom());
    assert(built =~= m);
}

impl Pixels {
    /// Puts `pixel` at its position in place of whatever is there; a
    /// transparent pixel leaves the position free.
    pub fn put_pixel(&mut self, pixel: Pixel)
        requires
            old(self).wf(),
        ensures
            final(self).wf(),
            final(self)@ == put(old(self)@, pixel),
    {
        match self.get_pixel(pixel.position) {
            Some(color) => {
                let _ = self.erase_pixel(Pixel::new(pixel.position, color));
            },
            None => {},
        }
        let _ = self.draw_pixel(pixel);
        proof {
            assert(self@ =~= put(old(self)@, pixel));
        }
    }

    /// The store that putting the pixels of `list`, one after the other,
    /// on an empty store leaves.
    pub fn from_pixels(list: &Vec<Pixel>) -> (store: Pixels)
        ensures
            store.wf(),
            store@ == store_from(list@),
    {
        let mut store = Pixels::new();
        let mut i: usize = 0;
        while i < list.len()
            invariant
                i <= list.len(),
                store.wf(),
                store@ == store_from(list@.take(i as int)),
            decreases list.len() - i,
        {
            proof {
                assert(list@.take(i + 1).drop_last() =~= list@.take(i as int));
            }
            store.put_pixel(list[i]);
            i += 1;
        }
        proof {
            assert(list@.take(i as int) =~= list@);
        }
        store
    }
}

} // verus!
