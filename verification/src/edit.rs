//! The commands that the edit operations of the canvas make from what the
//! pixel store holds.

use vstd::prelude::*;
use crate::color::{blend, lemma_blend_visible, Rgba};
use crate::history::{
    backward, draw_all, erase_all, forward, lemma_backward_after_forward, CommandView,
};
use crate::model::pixel_canvas::PixelCanvasCommand;
use crate::pixel::{Pixel, PixelPosition};
use crate::sorting::{
    contains_position, dedup, dedup_pixels, has_position, lemma_sort_sorted, sort_by_position,
    sort_pixels, sorted_by_position,
};
use crate::store::{entries_of, holds, store_wf, PixelMap, Pixels};

verus! {

/// `px` as it lands on `m`: composited over the color at its position,
/// where there is one.
pub open spec fn blended(m: PixelMap, px: Pixel) -> Pixel {
    if m.contains_key(px.position) {
        Pixel { position: px.position, color: blend(px.color, m[px.position]) }
    } else {
        px
    }
}

/// The positions of the pixels of `s`.
pub open spec fn positions_of(s: Seq<Pixel>) -> Seq<PixelPosition> {
    s.map_values(|px: Pixel| px.position)
}

/// The pixels that `m` holds at `positions`, in the order of `positions`;
/// a position without a pixel is passed over.
pub open spec fn existing(m: PixelMap, positions: Seq<PixelPosition>) -> Seq<Pixel>
    decreases positions.len(),
{
    if positions.len() == 0 {
        Seq::<Pixel>::empty()
    } else if m.contains_key(positions.last()) {
        existing(m, positions.drop_last()).push(
            Pixel { position: positions.last(), color: m[positions.last()] },
        )
    } else {
        existing(m, positions.drop_last())
    }
}

/// The command that draws `pixels` on `m`: each pixel is composited over
/// the color already at its position, and that color is erased.
pub open spec fn draw_command(m: PixelMap, pixels: Seq<Pixel>) -> CommandView {
    let sorted = sort_by_position(pixels);
    CommandView {
        erase: existing(m, positions_of(sorted)),
        draw: sorted.map_values(|px: Pixel| blended(m, px)),
    }
}

/// The command that erases what `m` holds at `positions`.
pub open spec fn erase_command(m: PixelMap, positions: Seq<PixelPosition>) -> CommandView {
    CommandView { erase: sort_by_position(existing(m, positions)), draw: Seq::<Pixel>::empty() }
}

/// `px` as it lands on `m` once the pixels of `erased` are gone: as it is
/// where the old color is erased, composited over the old color elsewhere.
pub open spec fn repainted(m: PixelMap, erased: Seq<Pixel>, px: Pixel) -> Pixel {
    if has_position(erased, px.position) {
        px
    } else {
        blended(m, px)
    }
}

/// The pixels of `m` that `pixels` land on and that `erased` does not
/// take away, in the order of `pixels`.
pub open spec fn overwritten(m: PixelMap, erased: Seq<Pixel>, pixels: Seq<Pixel>) -> Seq<Pixel>
    decreases pixels.len(),
{
    if pixels.len() == 0 {
        Seq::<Pixel>::empty()
    } else {
        let p = pixels.last().position;
        if !has_position(erased, p) && m.contains_key(p) {
            overwritten(m, erased, pixels.drop_last()).push(Pixel { position: p, color: m[p] })
        } else {
            overwritten(m, erased, pixels.drop_last())
        }
    }
}

/// The command that erases what `m` holds at `erase_positions` and draws
/// `pixels`: a pixel drawn where the old color is erased keeps its color,
/// one drawn elsewhere is composited over the old color, which is erased
/// too.
pub open spec fn erase_and_draw_command(
    m: PixelMap,
    erase_positions: Seq<PixelPosition>,
    pixels: Seq<Pixel>,
) -> CommandView {
    let erased = sort_by_position(existing(m, erase_positions));
    CommandView {
        erase: dedup(sort_by_position(erased + overwritten(m, erased, pixels))),
        draw: sort_by_position(pixels.map_values(|px: Pixel| repainted(m, erased, px))),
    }
}

/// The positions of the pixels of `entries` that have the color `color`.
pub open spec fn matching(entries: Seq<Pixel>, color: Rgba) -> Seq<PixelPosition>
    decreases entries.len(),
{
    if entries.len() == 0 {
        Seq::<PixelPosition>::empty()
    } else if entries.last().color == color {
        matching(entries.drop_last(), color).push(entries.last().position)
    } else {
        matching(entries.drop_last(), color)
    }
}

/// The command that gives every pixel of `m` of the color `prev` the color
/// `next`.
pub open spec fn replace_color_command(m: PixelMap, prev: Rgba, next: Rgba) -> CommandView {
    let at = matching(entries_of(m), prev);
    CommandView {
        erase: at.map_values(|p: PixelPosition| Pixel { position: p, color: prev }),
        draw: at.map_values(|p: PixelPosition| Pixel { position: p, color: next }),
    }
}

/// Where no pixel has the color, nothing matches.
pub proof fn lemma_matching_none(entries: Seq<Pixel>, color: Rgba)
    requires
        forall|i: int| 0 <= i < entries.len() ==> entries[i].color != color,
    ensures
        matching(entries, color).len() == 0,
    decreases entries.len(),
{
    if entries.len() > 0 {
        assert forall|i: int| 0 <= i < entries.drop_last().len() implies entries.drop_last()[i].color
            != color by {
            assert(entries.drop_last()[i] == entries[i]);
        }
        lemma_matching_none(entries.drop_last(), color);
    }
}

/// Drawing the color `c2` on a pixel of the color `c1` leaves exactly the
/// composite of `c2` over `c1` there, and taking the command back leaves
/// exactly `c1` again.
pub proof fn law_draw_blends_and_undo_restores(m: PixelMap, p: PixelPosition, c1: Rgba, c2: Rgba)
    requires
        store_wf(m),
        holds(m, Pixel { position: p, color: c1 }),
    ensures
        draw_command(m, seq![Pixel { position: p, color: c2 }]) == (CommandView {
            erase: seq![Pixel { position: p, color: c1 }],
            draw: seq![Pixel { position: p, color: blend(c2, c1) }],
        }),
        forward(m, draw_command(m, seq![Pixel { position: p, color: c2 }])) == Some(
            m.insert(p, blend(c2, c1)),
        ),
        backward(m.insert(p, blend(c2, c1)), draw_command(m, seq![Pixel { position: p, color: c2 }]))
            == Some(m),
{
    let px = Pixel { position: p, color: c2 };
    let pixels = seq![px];
    let c = draw_command(m, pixels);
    assert(pixels.drop_last() =~= Seq::<Pixel>::empty());
    assert(sort_by_position(pixels.drop_last()) =~= Seq::<Pixel>::empty());
    assert(sort_by_position(pixels) =~= pixels);
    let sorted = sort_by_position(pixels);
    assert(positions_of(sorted) =~= seq![p]);
    assert(seq![p].drop_last() =~= Seq::<PixelPosition>::empty());
    assert(existing(m, seq![p].drop_last()) =~= Seq::<Pixel>::empty());
    assert(c.erase =~= seq![Pixel { position: p, color: c1 }]);
    assert(c.draw =~= seq![Pixel { position: p, color: blend(c2, c1) }]);
    lemma_blend_visible(c2, c1);
    // One erasure, then one drawing.
    assert(c.erase.drop_last() =~= Seq::<Pixel>::empty());
    assert(c.draw.drop_last() =~= Seq::<Pixel>::empty());
    assert(m.remove(p).insert(p, blend(c2, c1)) =~= m.insert(p, blend(c2, c1)));
    assert(erase_all(m, c.erase.drop_last()) == Some(m));
    assert(erase_all(m, c.erase) == Some(m.remove(p)));
    assert(draw_all(m.remove(p), c.draw.drop_last()) == Some(m.remove(p)));
    assert(draw_all(m.remove(p), c.draw) == Some(m.insert(p, blend(c2, c1))));
    assert(forward(m, c) == Some(m.insert(p, blend(c2, c1))));
    lemma_backward_after_forward(m, c);
}

/// Builds the command that draws `pixels` on the store.
pub fn make_draw_command(store: &Pixels, pixels: &Vec<Pixel>) -> (command: PixelCanvasCommand)
    ensures
        command@ == draw_command(store@, pixels@),
{
    let sorted = sort_pixels(pixels);
    let mut command = PixelCanvasCommand::new();
    let mut i: usize = 0;
    while i < sorted.len()
        invariant
            i <= sorted.len(),
            sorted@ == sort_by_position(pixels@),
            command.erase@ == existing(store@, positions_of(sorted@).take(i as int)),
            command.draw@ == sorted@.take(i as int).map_values(|px: Pixel| blended(store@, px)),
        decreases sorted.len() - i,
    {
        let px = sorted[i];
        proof {
            let all = positions_of(sorted@);
            assert(all.take(i + 1).drop_last() =~= all.take(i as int));
            assert(all.take(i + 1).last() == px.position);
            assert(sorted@.take(i + 1).map_values(|px: Pixel| blended(store@, px)) =~= sorted@.take(
                i as int,
            ).map_values(|px: Pixel| blended(store@, px)).push(blended(store@, px)));
        }
        match store.get_pixel(px.position) {
            Some(color) => {
                command.erase.push(Pixel::new(px.position, color));
                command.draw.push(Pixel::new(px.position, px.color.alpha_blend(color)));
            },
            None => {
                command.draw.push(px);
            },
        }
        i += 1;
    }
    proof {
        assert(positions_of(sorted@).take(i as int) =~= positions_of(sorted@));
        assert(sorted@.take(i as int) =~= sorted@);
    }
    command
}

/// The pixels that the store holds at `positions`, in their order.
pub fn existing_pixels(store: &Pixels, positions: &Vec<PixelPosition>) -> (out: Vec<Pixel>)
    ensures
        out@ == existing(store@, positions@),
{
    let mut out: Vec<Pixel> = Vec::new();
    let mut i: usize = 0;
    while i < positions.len()
        invariant
            i <= positions.len(),
            out@ == existing(store@, positions@.take(i as int)),
        decreases positions.len() - i,
    {
        proof {
            assert(positions@.take(i + 1).drop_last() =~= positions@.take(i as int));
        }
        match store.get_pixel(positions[i]) {
            Some(color) => {
                out.push(Pixel::new(positions[i], color));
            },
            None => {},
        }
        i += 1;
    }
    proof {
        assert(positions@.take(i as int) =~= positions@);
    }
    out
}

/// Builds the command that erases what the store holds at `positions`.
pub fn make_erase_command(store: &Pixels, positions: &Vec<PixelPosition>) -> (command:
    PixelCanvasCommand)
    ensures
        command@ == erase_command(store@, positions@),
{
    let found = existing_pixels(store, positions);
    PixelCanvasCommand { erase: sort_pixels(&found), draw: Vec::new() }
}

/// Builds the command that erases what the store holds at
/// `erase_positions` and draws `pixels`.
pub fn make_erase_and_draw_command(
    store: &Pixels,
    erase_positions: &Vec<PixelPosition>,
    pixels: &Vec<Pixel>,
) -> (command: PixelCanvasCommand)
    ensures
        command@ == erase_and_draw_command(store@, erase_positions@, pixels@),
{
    let found = existing_pixels(store, erase_positions);
    let mut erased = sort_pixels(&found);
    proof {
        lemma_sort_sorted(found@);
    }
    let ghost gone = erased@;
    let mut over: Vec<Pixel> = Vec::new();
    let mut draw: Vec<Pixel> = Vec::new();
    let mut i: usize = 0;
    while i < pixels.len()
        invariant
            i <= pixels.len(),
            erased@ == gone,
            sorted_by_position(gone),
            over@ == overwritten(store@, gone, pixels@.take(i as int)),
            draw@ == pixels@.take(i as int).map_values(|px: Pixel| repainted(store@, gone, px)),
        decreases pixels.len() - i,
    {
        let px = pixels[i];
        proof {
            assert(pixels@.take(i + 1).drop_last() =~= pixels@.take(i as int));
            assert(pixels@.take(i + 1).map_values(|px: Pixel| repainted(store@, gone, px))
                =~= pixels@.take(i as int).map_values(|px: Pixel| repainted(store@, gone, px)).push(
                repainted(store@, gone, px),
            ));
        }
        let color = if contains_position(&erased, px.position) {
            px.color
        } else {
            match store.get_pixel(px.position) {
                Some(prev) => {
                    over.push(Pixel::new(px.position, prev));
                    px.color.alpha_blend(prev)
                },
                None => px.color,
            }
        };
        draw.push(Pixel::new(px.position, color));
        i += 1;
    }
    proof {
        assert(pixels@.take(i as int) =~= pixels@);
    }
    erased.append(&mut over);
    let sorted = sort_pixels(&erased);
    PixelCanvasCommand { erase: dedup_pixels(&sorted), draw: sort_pixels(&draw) }
}

/// Builds the command that gives every pixel of the color `prev` the
/// color `next`.
pub fn make_replace_color_command(store: &Pixels, prev: Rgba, next: Rgba) -> (command:
    PixelCanvasCommand)
    ensures
        command@ == replace_color_command(store@, prev, next),
{
    let entries = store.entries();
    let mut command = PixelCanvasCommand::new();
    let mut i: usize = 0;
    while i < entries.len()
        invariant
            i <= entries.len(),
            command.erase@ == matching(entries@.take(i as int), prev).map_values(
                |p: PixelPosition| Pixel { position: p, color: prev },
            ),
            command.draw@ == matching(entries@.take(i as int), prev).map_values(
                |p: PixelPosition| Pixel { position: p, color: next },
            ),
        decreases entries.len() - i,
    {
        let px = entries[i];
        proof {
            assert(entries@.take(i + 1).drop_last() =~= entries@.take(i as int));
            let short = matching(entries@.take(i as int), prev);
            assert(short.push(px.position).map_values(
                |p: PixelPosition| Pixel { position: p, color: prev },
            ) =~= short.map_values(|p: PixelPosition| Pixel { position: p, color: prev }).push(
                Pixel { position: px.position, color: prev },
            ));
            assert(short.push(px.position).map_values(
                |p: PixelPosition| Pixel { position: p, color: next },
            ) =~= short.map_values(|p: PixelPosition| Pixel { position: p, color: next }).push(
                Pixel { position: px.position, color: next },
            ));
        }
        if px.color == prev {
            command.erase.push(Pixel::new(px.position, prev));
            command.draw.push(Pixel::new(px.position, next));
        }
        i += 1;
    }
    proof {
        assert(entries@.take(i as int) =~= entries@);
    }
    command
}

} // verus!
