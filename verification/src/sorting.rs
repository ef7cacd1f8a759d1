//! Stable ordering of pixel lists by position.

use vstd::prelude::*;
use crate::color::Rgba;
use crate::pixel::{position_le, position_lt, Pixel, PixelPosition};

verus! {

/// No pixel of `s` comes before an earlier one in row-major order.
pub open spec fn sorted_by_position(s: Seq<Pixel>) -> bool {
    forall|i: int, j: int| 0 <= i < j < s.len() ==> position_le(s[i].position, s[j].position)
}

/// Each pixel of `s` comes strictly after the ones before it, so no
/// position occurs twice.
pub open spec fn strictly_sorted(s: Seq<Pixel>) -> bool {
    forall|i: int, j: int| 0 <= i < j < s.len() ==> position_lt(s[i].position, s[j].position)
}

/// Whether some pixel of `s` lies at `p`.
pub open spec fn has_position(s: Seq<Pixel>, p: PixelPosition) -> bool {
    exists|i: int| 0 <= i < s.len() && s[i].position == p
}

/// `s` with `px` put behind the last pixel that does not come after it.
pub open spec fn insert_by_position(s: Seq<Pixel>, px: Pixel) -> Seq<Pixel>
    decreases s.len(),
{
    if s.len() == 0 {
        seq![px]
    } else if position_lt(px.position, s.last().position) {
        insert_by_position(s.drop_last(), px).push(s.last())
    } else {
        s.push(px)
    }
}

/// The pixels of `s` in row-major order of their positions; pixels at one
/// position keep the order they had in `s`.
pub open spec fn sort_by_position(s: Seq<Pixel>) -> Seq<Pixel>
    decreases s.len(),
{
    if s.len() == 0 {
        Seq::<Pixel>::empty()
    } else {
        insert_by_position(sort_by_position(s.drop_last()), s.last())
    }
}

/// `s` without the pixels that repeat the pixel just before them.
pub open spec fn dedup(s: Seq<Pixel>) -> Seq<Pixel>
    decreases s.len(),
{
    if s.len() == 0 {
        Seq::<Pixel>::empty()
    } else if s.len() >= 2 && s[s.len() - 2] == s.last() {
        dedup(s.drop_last())
    } else {
        dedup(s.drop_last()).push(s.last())
    }
}

/// Inserting by position is inserting at the index behind which every
/// pixel comes strictly after the new one.
pub proof fn lemma_insert_at(s: Seq<Pixel>, px: Pixel, j: int)
    requires
        0 <= j <= s.len(),
        forall|k: int| j <= k < s.len() ==> position_lt(px.position, s[k].position),
        j > 0 ==> !position_lt(px.position, s[j - 1].position),
    ensures
        insert_by_position(s, px) == s.insert(j, px),
    decreases s.len(),
{
    if s.len() == 0 {
        assert(s.insert(j, px) =~= seq![px]);
    } else if j == s.len() {
        assert(s.insert(j, px) =~= s.push(px));
    } else {
        lemma_insert_at(s.drop_last(), px, j);
        assert(s.insert(j, px) =~= s.drop_last().insert(j, px).push(s.last()));
    }
}

/// The index at which `insert_by_position` puts the new pixel.
pub proof fn lemma_insert_index(s: Seq<Pixel>, px: Pixel) -> (j: int)
    ensures
        0 <= j <= s.len(),
        forall|k: int| j <= k < s.len() ==> position_lt(px.position, s[k].position),
        j > 0 ==> !position_lt(px.position, s[j - 1].position),
        insert_by_position(s, px) == s.insert(j, px),
    decreases s.len(),
{
    if s.len() == 0 {
        lemma_insert_at(s, px, 0);
        0
    } else if position_lt(px.position, s.last().position) {
        let j = lemma_insert_index(s.drop_last(), px);
        assert forall|k: int| j <= k < s.len() implies position_lt(px.position, s[k].position) by {
            if k < s.len() - 1 {
                assert(s.drop_last()[k] == s[k]);
            }
        }
        if j > 0 {
            assert(s.drop_last()[j - 1] == s[j - 1]);
        }
        lemma_insert_at(s, px, j);
        j
    } else {
        lemma_insert_at(s, px, s.len() as int);
        s.len() as int
    }
}

/// Inserting by position keeps a sorted list sorted, and adds just the new
/// pixel.
pub proof fn lemma_insert_sorted(s: Seq<Pixel>, px: Pixel)
    ensures
        insert_by_position(s, px).len() == s.len() + 1,
        forall|q: Pixel| insert_by_position(s, px).contains(q) <==> (s.contains(q) || q == px),
        sorted_by_position(s) ==> sorted_by_position(insert_by_position(s, px)),
        strictly_sorted(s) && !has_position(s, px.position) ==> strictly_sorted(
            insert_by_position(s, px),
        ),
{
    let j = lemma_insert_index(s, px);
    let t = s.insert(j, px);
    assert(t.len() == s.len() + 1);
    assert forall|q: Pixel| t.contains(q) <==> (s.contains(q) || q == px) by {
        if t.contains(q) {
            let k = choose|k: int| 0 <= k < t.len() && t[k] == q;
            if k < j {
                assert(s[k] == q);
            } else if k > j {
                assert(s[k - 1] == q);
            }
        }
        if s.contains(q) {
            let k = choose|k: int| 0 <= k < s.len() && s[k] == q;
            if k < j {
                assert(t[k] == q);
            } else {
                assert(t[k + 1] == q);
            }
        }
        if q == px {
            assert(t[j] == q);
        }
    }
    if sorted_by_position(s) {
        assert forall|a: int, b: int| 0 <= a < b < t.len() implies position_le(
            t[a].position,
            t[b].position,
        ) by {
            if b < j {
                assert(t[a] == s[a] && t[b] == s[b]);
            } else if b == j {
                assert(t[a] == s[a]);
                if a < j - 1 {
                    assert(position_le(s[a].position, s[j - 1].position));
                }
            } else if a < j {
                assert(t[a] == s[a] && t[b] == s[b - 1]);
            } else if a == j {
                assert(t[b] == s[b - 1]);
            } else {
                assert(t[a] == s[a - 1] && t[b] == s[b - 1]);
            }
        }
    }
    if strictly_sorted(s) && !has_position(s, px.position) {
        assert forall|a: int, b: int| 0 <= a < b < t.len() implies position_lt(
            t[a].position,
            t[b].position,
        ) by {
            if b < j {
                assert(t[a] == s[a] && t[b] == s[b]);
            } else if b == j {
                assert(t[a] == s[a]);
                assert(s[j - 1].position != px.position);
                if a < j - 1 {
                    assert(position_lt(s[a].position, s[j - 1].position));
                }
            } else if a < j {
                assert(t[a] == s[a] && t[b] == s[b - 1]);
            } else if a == j {
                assert(t[b] == s[b - 1]);
            } else {
                assert(t[a] == s[a - 1] && t[b] == s[b - 1]);
            }
        }
    }
}

/// Sorting gives a sorted list of the same pixels.
pub proof fn lemma_sort_sorted(s: Seq<Pixel>)
    ensures
        sort_by_position(s).len() == s.len(),
        sorted_by_position(sort_by_position(s)),
        forall|q: Pixel| sort_by_position(s).contains(q) <==> s.contains(q),
    decreases s.len(),
{
    if s.len() > 0 {
        let init = s.drop_last();
        lemma_sort_sorted(init);
        lemma_insert_sorted(sort_by_position(init), s.last());
        assert forall|q: Pixel| sort_by_position(s).contains(q) <==> s.contains(q) by {
            if s.contains(q) {
                let k = choose|k: int| 0 <= k < s.len() && s[k] == q;
                if k < s.len() - 1 {
                    assert(init[k] == q);
                }
            }
            if init.contains(q) {
                let k = choose|k: int| 0 <= k < init.len() && init[k] == q;
                assert(s[k] == q);
            }
            if q == s.last() {
                assert(s[s.len() - 1] == q);
            }
        }
    }
}

/// Sorting pixels at pairwise different positions gives a strictly sorted
/// list.
pub proof fn lemma_sort_strict(s: Seq<Pixel>)
    requires
        forall|i: int, j: int| 0 <= i < j < s.len() ==> s[i].position != s[j].position,
    ensures
        strictly_sorted(sort_by_position(s)),
    decreases s.len(),
{
    if s.len() > 0 {
        let init = s.drop_last();
        lemma_sort_strict(init);
        lemma_sort_sorted(init);
        let t = sort_by_position(init);
        if has_position(t, s.last().position) {
            let k = choose|k: int| 0 <= k < t.len() && t[k].position == s.last().position;
            assert(t.contains(t[k]));
            assert(init.contains(t[k]));
            let m = choose|m: int| 0 <= m < init.len() && init[m] == t[k];
            assert(s[m].position != s[s.len() - 1].position);
        }
        lemma_insert_sorted(t, s.last());
    }
}

/// Two strictly sorted lists of the same pixels are one list.
pub proof fn lemma_strictly_sorted_unique(a: Seq<Pixel>, b: Seq<Pixel>)
    requires
        strictly_sorted(a),
        strictly_sorted(b),
        forall|q: Pixel| a.contains(q) <==> b.contains(q),
    ensures
        a == b,
    decreases a.len(),
{
    if a.len() == 0 {
        if b.len() > 0 {
            assert(b.contains(b[0]));
        }
        assert(a =~= b);
    } else {
        assert(a.contains(a.last()));
        assert(b.contains(a.last()));
        assert(b.len() > 0);
        assert(b.contains(b.last()));
        assert(a.contains(b.last()));
        let i = choose|i: int| 0 <= i < b.len() && b[i] == a.last();
        let j = choose|j: int| 0 <= j < a.len() && a[j] == b.last();
        // Each last pixel is the greatest of its list, so the two are equal.
        assert(a.last() == b.last()) by {
            if i < b.len() - 1 {
                assert(position_lt(b[i].position, b.last().position));
                if j < a.len() - 1 {
                    assert(position_lt(a[j].position, a.last().position));
                }
            }
        }
        let a0 = a.drop_last();
        let b0 = b.drop_last();
        assert forall|q: Pixel| a0.contains(q) <==> b0.contains(q) by {
            if a0.contains(q) {
                let k = choose|k: int| 0 <= k < a0.len() && a0[k] == q;
                assert(a[k] == q);
                assert(position_lt(a[k].position, a.last().position));
                assert(b.contains(q));
                let m = choose|m: int| 0 <= m < b.len() && b[m] == q;
                assert(m < b.len() - 1);
                assert(b0[m] == q);
            }
            if b0.contains(q) {
                let k = choose|k: int| 0 <= k < b0.len() && b0[k] == q;
                assert(b[k] == q);
                assert(position_lt(b[k].position, b.last().position));
                assert(a.contains(q));
                let m = choose|m: int| 0 <= m < a.len() && a[m] == q;
                assert(m < a.len() - 1);
                assert(a0[m] == q);
            }
        }
        lemma_strictly_sorted_unique(a0, b0);
        assert(a =~= a0.push(a.last()));
        assert(b =~= b0.push(b.last()));
    }
}

/// Puts `px` into `v` behind the last pixel that does not come after it.
pub fn insert_pixel(v: &mut Vec<Pixel>, px: Pixel)
    ensures
        final(v)@ == insert_by_position(old(v)@, px),
{
    let mut j: usize = v.len();
    while j > 0 && px.position.precedes(v[j - 1].position)
        invariant
            j <= v.len(),
            v@ == old(v)@,
            forall|k: int| j <= k < v.len() ==> position_lt(px.position, v[k].position),
        decreases j,
    {
        j -= 1;
    }
    proof {
        lemma_insert_at(v@, px, j as int);
    }
    v.insert(j, px);
}

/// The pixels of `v` in row-major order; pixels at one position keep
/// their order.
pub fn sort_pixels(v: &Vec<Pixel>) -> (out: Vec<Pixel>)
    ensures
        out@ == sort_by_position(v@),
{
    let mut out: Vec<Pixel> = Vec::new();
    let mut i: usize = 0;
    while i < v.len()
        invariant
            i <= v.len(),
            out@ == sort_by_position(v@.take(i as int)),
        decreases v.len() - i,
    {
        proof {
            assert(v@.take(i + 1).drop_last() =~= v@.take(i as int));
        }
        insert_pixel(&mut out, v[i]);
        i += 1;
    }
    proof {
        assert(v@.take(v.len() as int) =~= v@);
    }
    out
}

/// `v` without the pixels that repeat the pixel just before them.
pub fn dedup_pixels(v: &Vec<Pixel>) -> (out: Vec<Pixel>)
    ensures
        out@ == dedup(v@),
{
    let mut out: Vec<Pixel> = Vec::new();
    let mut i: usize = 0;
    while i < v.len()
        invariant
            i <= v.len(),
            out@ == dedup(v@.take(i as int)),
        decreases v.len() - i,
    {
        proof {
            assert(v@.take(i + 1).drop_last() =~= v@.take(i as int));
        }
        let same = i > 0 && v[i - 1] == v[i];
        if !same {
            out.push(v[i]);
        }
        i += 1;
    }
    proof {
        assert(v@.take(v.len() as int) =~= v@);
    }
    out
}

/// Whether a pixel of the sorted list `v` lies at `p`, by binary search.
pub fn contains_position(v: &Vec<Pixel>, p: PixelPosition) -> (found: bool)
    requires
        sorted_by_position(v@),
    ensures
        found == has_position(v@, p),
{
    let mut lo: usize = 0;
    let mut hi: usize = v.len();
    while lo < hi
        invariant
            lo <= hi <= v.len(),
            sorted_by_position(v@),
            forall|k: int| 0 <= k < lo ==> position_lt(v[k].position, p),
            forall|k: int| hi <= k < v.len() ==> position_lt(p, v[k].position),
        decreases hi - lo,
    {
        let mid = lo + (hi - lo) / 2;
        let q = v[mid].position;
        if q.precedes(p) {
            proof {
                assert forall|k: int| 0 <= k < mid + 1 implies position_lt(v[k].position, p) by {
                    if k < mid {
                        assert(position_le(v[k].position, v[mid as int].position));
                    }
                }
            }
            lo = mid + 1;
        } else if p.precedes(q) {
            proof {
                assert forall|k: int| mid <= k < v.len() implies position_lt(p, v[k].position) by {
                    if k > mid {
                        assert(position_le(v[mid as int].position, v[k].position));
                    }
                }
            }
            hi = mid;
        } else {
            assert(v[mid as int].position == p);
            return true;
        }
    }
    proof {
        if has_position(v@, p) {
            let k = choose|k: int| 0 <= k < v.len() && v[k].position == p;
            assert(k < lo || k >= hi);
        }
    }
    false
}

/// Each position of `s` comes strictly after the ones before it.
pub open spec fn ascending(s: Seq<PixelPosition>) -> bool {
    forall|i: int, j: int| 0 <= i < j < s.len() ==> position_lt(s[i], s[j])
}

/// The positions of `v`, none of which occurs twice, in row-major order.
pub fn sort_positions(v: &Vec<PixelPosition>) -> (out: Vec<PixelPosition>)
    requires
        v@.no_duplicates(),
    ensures
        ascending(out@),
        out@.to_set() == v@.to_set(),
{
    let mut pixels: Vec<Pixel> = Vec::new();
    let mut i: usize = 0;
    while i < v.len()
        invariant
            i <= v.len(),
            pixels@.len() == i,
            forall|k: int|
                0 <= k < i ==> (#[trigger] pixels@[k]).position == v@[k] && pixels@[k].color == (
                Rgba { r: 0, g: 0, b: 0, a: 0 }),
        decreases v.len() - i,
    {
        pixels.push(Pixel::new(v[i], Rgba::new(0, 0, 0, 0)));
        i += 1;
    }
    let sorted = sort_pixels(&pixels);
    proof {
        assert forall|a: int, b: int| 0 <= a < b < pixels@.len() implies pixels@[a].position
            != pixels@[b].position by {
            assert(v@[a] != v@[b]);
        }
        lemma_sort_strict(pixels@);
        lemma_sort_sorted(pixels@);
    }
    let mut out: Vec<PixelPosition> = Vec::new();
    let mut j: usize = 0;
    while j < sorted.len()
        invariant
            j <= sorted.len(),
            out@.len() == j,
            forall|k: int| 0 <= k < j ==> out@[k] == (#[trigger] sorted@[k]).position,
        decreases sorted.len() - j,
    {
        out.push(sorted[j].position);
        j += 1;
    }
    proof {
        assert forall|a: int, b: int| 0 <= a < b < out@.len() implies position_lt(
            out@[a],
            out@[b],
        ) by {
            assert(position_lt(sorted@[a].position, sorted@[b].position));
        }
        assert forall|p: PixelPosition| out@.to_set().contains(p) == v@.to_set().contains(p) by {
            let px = Pixel { position: p, color: Rgba { r: 0, g: 0, b: 0, a: 0 } };
            if out@.contains(p) {
                let k = choose|k: int| 0 <= k < out@.len() && out@[k] == p;
                assert(sorted@.contains(sorted@[k]));
                assert(pixels@.contains(sorted@[k]));
                let n = choose|n: int| 0 <= n < pixels@.len() && pixels@[n] == sorted@[k];
                assert(v@[n] == p);
            }
            if v@.contains(p) {
                let n = choose|n: int| 0 <= n < v@.len() && v@[n] == p;
                assert(pixels@[n] == px);
                assert(pixels@.contains(px));
                assert(sorted@.contains(px));
                let k = choose|k: int| 0 <= k < sorted@.len() && sorted@[k] == px;
                assert(out@[k] == p);
            }
        }
        assert(out@.to_set() =~= v@.to_set());
    }
    out
}

} // verus!
