//! What commands do to a pixel map, forward and backward, and the history
//! that an undo cursor walks.

use vstd::prelude::*;
use crate::error::CanvasError;
use crate::pixel::{Pixel, PixelPosition};
use crate::store::{draw_step, erase_step, holds, store_wf, undraw_step, PixelMap, Pixels};

verus! {

/// One undoable edit: the pixels it takes away and the pixels it puts down.
pub struct CommandView {
    pub erase: Seq<Pixel>,
    pub draw: Seq<Pixel>,
}

/// No pixel of `s` is transparent.
pub open spec fn visible(s: Seq<Pixel>) -> bool {
    forall|i: int| 0 <= i < s.len() ==> (#[trigger] s[i]).color.a != 0
}

/// Erases the pixels of `s` one after the other; nothing if one of them
/// cannot be erased.
pub open spec fn erase_all(m: PixelMap, s: Seq<Pixel>) -> Option<PixelMap>
    decreases s.len(),
{
    if s.len() == 0 {
        Some(m)
    } else {
        match erase_all(m, s.drop_last()) {
            Some(mid) => erase_step(mid, s.last()),
            None => None,
        }
    }
}

/// Draws the pixels of `s` one after the other; nothing if one of them
/// cannot be drawn.
pub open spec fn draw_all(m: PixelMap, s: Seq<Pixel>) -> Option<PixelMap>
    decreases s.len(),
{
    if s.len() == 0 {
        Some(m)
    } else {
        match draw_all(m, s.drop_last()) {
            Some(mid) => draw_step(mid, s.last()),
            None => None,
        }
    }
}

/// Erases `erase`, then draws `draw`.
pub open spec fn replace_all(m: PixelMap, erase: Seq<Pixel>, draw: Seq<Pixel>) -> Option<PixelMap> {
    match erase_all(m, erase) {
        Some(mid) => draw_all(mid, draw),
        None => None,
    }
}

/// Applying a command: its erase list goes first, then its draw list.
pub open spec fn forward(m: PixelMap, c: CommandView) -> Option<PixelMap> {
    replace_all(m, c.erase, c.draw)
}

/// Takes back the drawing of the pixels of `s`, from the last one to the
/// first; nothing if one of them cannot be taken back.
pub open spec fn undraw_all(m: PixelMap, s: Seq<Pixel>) -> Option<PixelMap>
    decreases s.len(),
{
    if s.len() == 0 {
        Some(m)
    } else {
        match undraw_step(m, s.last()) {
            Some(mid) => undraw_all(mid, s.drop_last()),
            None => None,
        }
    }
}

/// Takes back the drawing of `drawn`, then draws `erased` again.
pub open spec fn restore_all(m: PixelMap, drawn: Seq<Pixel>, erased: Seq<Pixel>) -> Option<
    PixelMap,
> {
    match undraw_all(m, drawn) {
        Some(mid) => draw_all(mid, erased),
        None => None,
    }
}

/// Taking a command back: what it drew is taken back first, from its last
/// pixel to its first, then what it erased is drawn again.
pub open spec fn backward(m: PixelMap, c: CommandView) -> Option<PixelMap> {
    restore_all(m, c.draw, c.erase)
}

/// Erasing only takes entries away, and leaves a well-formed map
/// well-formed.
pub proof fn lemma_erase_all_shrinks(m: PixelMap, s: Seq<Pixel>)
    requires
        erase_all(m, s) is Some,
    ensures
        forall|p: PixelPosition| #[trigger]
            erase_all(m, s).unwrap().contains_key(p) ==> m.contains_key(p) && erase_all(
                m,
                s,
            ).unwrap()[p] == m[p],
        store_wf(m) ==> store_wf(erase_all(m, s).unwrap()),
    decreases s.len(),
{
    if s.len() > 0 {
        lemma_erase_all_shrinks(m, s.drop_last());
    }
}

/// Drawing only adds entries, and leaves a well-formed map well-formed.
pub proof fn lemma_draw_all_grows(m: PixelMap, s: Seq<Pixel>)
    requires
        draw_all(m, s) is Some,
    ensures
        forall|p: PixelPosition| #[trigger]
            m.contains_key(p) ==> draw_all(m, s).unwrap().contains_key(p) && draw_all(
                m,
                s,
            ).unwrap()[p] == m[p],
        store_wf(m) ==> store_wf(draw_all(m, s).unwrap()),
    decreases s.len(),
{
    if s.len() > 0 {
        lemma_draw_all_grows(m, s.drop_last());
    }
}

/// If a whole list can be erased, so can each of its beginnings.
pub proof fn lemma_erase_all_prefix(m: PixelMap, s: Seq<Pixel>, n: int)
    requires
        0 <= n <= s.len(),
        erase_all(m, s) is Some,
    ensures
        erase_all(m, s.take(n)) is Some,
    decreases s.len(),
{
    if n == s.len() {
        assert(s.take(n) =~= s);
    } else {
        lemma_erase_all_prefix(m, s.drop_last(), n);
        assert(s.drop_last().take(n) =~= s.take(n));
    }
}

/// If a whole list can be drawn, so can each of its beginnings.
pub proof fn lemma_draw_all_prefix(m: PixelMap, s: Seq<Pixel>, n: int)
    requires
        0 <= n <= s.len(),
        draw_all(m, s) is Some,
    ensures
        draw_all(m, s.take(n)) is Some,
    decreases s.len(),
{
    if n == s.len() {
        assert(s.take(n) =~= s);
    } else {
        lemma_draw_all_prefix(m, s.drop_last(), n);
        assert(s.drop_last().take(n) =~= s.take(n));
    }
}

/// Drawing a list does not notice an entry that it never touches: with
/// that entry taken away beforehand, the same draws give the same map
/// without it.
proof fn lemma_draw_all_without(a: PixelMap, t: Seq<Pixel>, k: PixelPosition)
    requires
        draw_all(a, t) is Some,
        a.contains_key(k),
    ensures
        draw_all(a.remove(k), t) == Some(draw_all(a, t).unwrap().remove(k)),
    decreases t.len(),
{
    if t.len() > 0 {
        let init = t.drop_last();
        let z = t.last();
        lemma_draw_all_without(a, init, k);
        lemma_draw_all_grows(a, init);
        let mid = draw_all(a, init).unwrap();
        assert(mid.contains_key(k));
        if z.color.a != 0 {
            assert(mid.remove(k).insert(z.position, z.color) =~= mid.insert(
                z.position,
                z.color,
            ).remove(k));
        }
    }
}

/// Erasing a list does not notice an entry beside it: with one more entry
/// at a free position, the same erasures give the same map with it.
proof fn lemma_erase_all_with(a: PixelMap, t: Seq<Pixel>, px: Pixel)
    requires
        erase_all(a, t) is Some,
        !a.contains_key(px.position),
    ensures
        erase_all(a.insert(px.position, px.color), t) == Some(
            erase_all(a, t).unwrap().insert(px.position, px.color),
        ),
    decreases t.len(),
{
    if t.len() > 0 {
        let init = t.drop_last();
        let z = t.last();
        lemma_erase_all_with(a, init, px);
        lemma_erase_all_shrinks(a, init);
        let mid = erase_all(a, init).unwrap();
        assert(holds(mid, z));
        assert(z.position != px.position);
        assert(mid.insert(px.position, px.color).remove(z.position) =~= mid.remove(
            z.position,
        ).insert(px.position, px.color));
    }
}

/// Drawing again what was erased from a well-formed map gives the map
/// back.
pub proof fn lemma_draw_restores_erased(m: PixelMap, s: Seq<Pixel>)
    requires
        store_wf(m),
        erase_all(m, s) is Some,
    ensures
        draw_all(erase_all(m, s).unwrap(), s) == Some(m),
    decreases s.len(),
{
    if s.len() > 0 {
        let init = s.drop_last();
        let z = s.last();
        let mid = erase_all(m, init).unwrap();
        lemma_draw_restores_erased(m, init);
        lemma_erase_all_shrinks(m, init);
        assert(holds(mid, z));
        lemma_draw_all_without(mid, init, z.position);
        assert(m.remove(z.position).insert(z.position, z.color) =~= m);
    }
}

/// Erasing again the visible pixels that were drawn gives the map back.
pub proof fn lemma_erase_restores_drawn(m: PixelMap, s: Seq<Pixel>)
    requires
        draw_all(m, s) is Some,
        visible(s),
    ensures
        erase_all(draw_all(m, s).unwrap(), s) == Some(m),
    decreases s.len(),
{
    if s.len() > 0 {
        let init = s.drop_last();
        let z = s.last();
        let mid = draw_all(m, init).unwrap();
        assert(visible(init)) by {
            assert forall|i: int| 0 <= i < init.len() implies (#[trigger] init[i]).color.a
                != 0 by {
                assert(init[i] == s[i]);
            }
        }
        lemma_erase_restores_drawn(m, init);
        lemma_draw_all_grows(m, init);
        assert(!mid.contains_key(z.position));
        assert(z.color.a != 0) by {
            assert(s[s.len() - 1].color.a != 0);
        }
        lemma_erase_all_with(mid, init, z);
        assert(m.insert(z.position, z.color).remove(z.position) =~= m);
    }
}

/// Taking back what was drawn leaves a well-formed map well-formed.
pub proof fn lemma_undraw_all_wf(m: PixelMap, s: Seq<Pixel>)
    requires
        store_wf(m),
        undraw_all(m, s) is Some,
    ensures
        store_wf(undraw_all(m, s).unwrap()),
    decreases s.len(),
{
    if s.len() > 0 {
        lemma_undraw_all_wf(undraw_step(m, s.last()).unwrap(), s.drop_last());
    }
}

/// Taking back what was just drawn gives the map back.
pub proof fn lemma_undraw_after_draw(m: PixelMap, s: Seq<Pixel>)
    requires
        draw_all(m, s) is Some,
    ensures
        undraw_all(draw_all(m, s).unwrap(), s) == Some(m),
    decreases s.len(),
{
    if s.len() > 0 {
        let z = s.last();
        let mid = draw_all(m, s.drop_last()).unwrap();
        lemma_undraw_after_draw(m, s.drop_last());
        if z.color.a != 0 {
            assert(mid.insert(z.position, z.color).remove(z.position) =~= mid);
        }
    }
}

/// Drawing again what was just taken back gives the map back.
pub proof fn lemma_draw_after_undraw(m: PixelMap, s: Seq<Pixel>)
    requires
        undraw_all(m, s) is Some,
    ensures
        draw_all(undraw_all(m, s).unwrap(), s) == Some(m),
    decreases s.len(),
{
    if s.len() > 0 {
        let z = s.last();
        let mid = undraw_step(m, z).unwrap();
        lemma_draw_after_undraw(mid, s.drop_last());
        if z.color.a != 0 {
            assert(m.remove(z.position).insert(z.position, z.color) =~= m);
        }
    }
}

/// Drawing a list is drawing its first pixel and then the rest.
pub proof fn lemma_draw_all_front(m: PixelMap, z: Pixel, rest: Seq<Pixel>)
    ensures
        draw_all(m, seq![z] + rest) == match draw_step(m, z) {
            Some(mid) => draw_all(mid, rest),
            None => None,
        },
    decreases rest.len(),
{
    let s = seq![z] + rest;
    if rest.len() == 0 {
        assert(s.drop_last() =~= Seq::<Pixel>::empty());
        assert(s.last() == z);
        assert(draw_all(m, s.drop_last()) == Some(m));
    } else {
        lemma_draw_all_front(m, z, rest.drop_last());
        assert(s.drop_last() =~= seq![z] + rest.drop_last());
        assert(s.last() == rest.last());
    }
}

/// Taking a command back after applying it gives the map back.
pub proof fn lemma_backward_after_forward(m: PixelMap, c: CommandView)
    requires
        store_wf(m),
        forward(m, c) is Some,
    ensures
        backward(forward(m, c).unwrap(), c) == Some(m),
{
    let mid = erase_all(m, c.erase).unwrap();
    lemma_undraw_after_draw(mid, c.draw);
    lemma_draw_restores_erased(m, c.erase);
}

/// Applying a command after taking it back gives the map back, if what
/// the command erases is visible.
pub proof fn lemma_forward_after_backward(m: PixelMap, c: CommandView)
    requires
        backward(m, c) is Some,
        visible(c.erase),
    ensures
        forward(backward(m, c).unwrap(), c) == Some(m),
{
    let mid = undraw_all(m, c.draw).unwrap();
    lemma_erase_restores_drawn(mid, c.erase);
    lemma_draw_after_undraw(m, c.draw);
}

/// Whatever replaces pixels in a well-formed map leaves it well-formed.
pub proof fn lemma_replace_all_wf(m: PixelMap, erase: Seq<Pixel>, draw: Seq<Pixel>)
    requires
        store_wf(m),
        replace_all(m, erase, draw) is Some,
    ensures
        store_wf(replace_all(m, erase, draw).unwrap()),
{
    lemma_erase_all_shrinks(m, erase);
    lemma_draw_all_grows(erase_all(m, erase).unwrap(), draw);
}

/// Whatever is restored in a well-formed map leaves it well-formed.
pub proof fn lemma_restore_all_wf(m: PixelMap, drawn: Seq<Pixel>, erased: Seq<Pixel>)
    requires
        store_wf(m),
        restore_all(m, drawn, erased) is Some,
    ensures
        store_wf(restore_all(m, drawn, erased).unwrap()),
{
    lemma_undraw_all_wf(m, drawn);
    lemma_draw_all_grows(undraw_all(m, drawn).unwrap(), erased);
}

/// The undoable state of a canvas: its pixels, the commands applied or
/// waiting to be applied again, the cursor between the two, and the count
/// of edits made.
pub struct History {
    pub store: PixelMap,
    pub log: Seq<CommandView>,
    pub tail: nat,
    pub version: int,
}

impl CommandView {
    /// The command changes nothing.
    pub open spec fn is_empty(self) -> bool {
        self.erase.len() == 0 && self.draw.len() == 0
    }

    /// The positions the command touches: those it erases at, then those
    /// it draws at.
    pub open spec fn touched(self) -> Seq<PixelPosition> {
        self.erase.map_values(|px: Pixel| px.position) + self.draw.map_values(
            |px: Pixel| px.position,
        )
    }
}

impl History {
    /// The cursor lies within the log, and the pixels form a well-formed
    /// map.
    pub open spec fn wf(self) -> bool {
        &&& store_wf(self.store)
        &&& self.tail <= self.log.len()
    }

    /// Whether a command waits at the cursor to be applied again.
    pub open spec fn has_redo(self) -> bool {
        self.tail < self.log.len()
    }

    /// Takes back the command before the cursor. With the cursor at the
    /// start only the count of edits goes down.
    pub open spec fn undo(self) -> Option<History> {
        if self.tail > 0 {
            match backward(self.store, self.log[self.tail - 1]) {
                Some(m) => Some(
                    History {
                        store: m,
                        log: self.log,
                        tail: (self.tail - 1) as nat,
                        version: self.version - 1,
                    },
                ),
                None => None,
            }
        } else {
            Some(History { version: self.version - 1, ..self })
        }
    }

    /// Applies the command at the cursor again. With the cursor at the end
    /// there is none, and nothing changes.
    pub open spec fn redo(self) -> Option<History> {
        if self.tail < self.log.len() {
            match forward(self.store, self.log[self.tail as int]) {
                Some(m) => Some(
                    History {
                        store: m,
                        log: self.log,
                        tail: self.tail + 1,
                        version: self.version + 1,
                    },
                ),
                None => None,
            }
        } else {
            Some(self)
        }
    }

    /// Makes a new edit: the commands behind the cursor are given up, the
    /// command is appended and applied. An empty command changes nothing.
    pub open spec fn apply(self, c: CommandView) -> Option<History> {
        if c.is_empty() {
            Some(self)
        } else {
            match forward(self.store, c) {
                Some(m) => Some(
                    History {
                        store: m,
                        log: self.log.take(self.tail as int).push(c),
                        tail: self.tail + 1,
                        version: self.version + 1,
                    },
                ),
                None => None,
            }
        }
    }

    /// Forgets the oldest applied commands until no more than `keep` are
    /// left before the cursor.
    pub open spec fn trimmed(self, keep: nat) -> History {
        if self.tail > keep {
            History {
                log: self.log.skip(self.tail - keep),
                tail: keep,
                ..self
            }
        } else {
            self
        }
    }

    /// Forgets the oldest applied command, if there is one.
    pub open spec fn forget_oldest(self) -> History {
        if self.tail > 0 {
            History { log: self.log.drop_first(), tail: (self.tail - 1) as nat, ..self }
        } else {
            self
        }
    }
}

/// Undo followed by redo gives the state back: if the cursor is not at the
/// start, the undo succeeds and what the command erased is visible.
pub proof fn law_redo_after_undo(h: History)
    requires
        h.wf(),
        h.tail > 0,
        h.undo() is Some,
        visible(h.log[h.tail - 1].erase),
    ensures
        h.undo().unwrap().redo() == Some(h),
{
    lemma_forward_after_backward(h.store, h.log[h.tail - 1]);
}

/// Redo followed by undo gives the state back: if the cursor is not at the
/// end and the redo succeeds, the undo succeeds too.
pub proof fn law_undo_after_redo(h: History)
    requires
        h.wf(),
        h.tail < h.log.len(),
        h.redo() is Some,
    ensures
        h.redo().unwrap().undo() == Some(h),
{
    lemma_backward_after_forward(h.store, h.log[h.tail as int]);
}

/// A new edit can always be undone, and the undo gives back the pixels
/// and the cursor of before the edit; the commands that the edit gave up
/// stay given up.
pub proof fn law_undo_after_edit(h: History, c: CommandView)
    requires
        h.wf(),
        !c.is_empty(),
        h.apply(c) is Some,
    ensures
        h.apply(c).unwrap().undo() == Some(
            History { log: h.log.take(h.tail as int).push(c), ..h },
        ),
{
    lemma_backward_after_forward(h.store, c);
    assert(h.apply(c).unwrap().log[h.tail as int] == c);
}

/// A new edit made with the cursor at `tail` cuts the log to its first
/// `tail` commands before the new one is appended.
pub proof fn law_edit_discards_redo(h: History, c: CommandView)
    requires
        h.wf(),
        !c.is_empty(),
        h.apply(c) is Some,
    ensures
        h.apply(c).unwrap().log == h.log.take(h.tail as int).push(c),
        h.apply(c).unwrap().log.len() == h.tail + 1,
        h.apply(c).unwrap().tail == h.tail + 1,
        h.apply(c).unwrap().version == h.version + 1,
        h.apply(c).unwrap().wf(),
{
    lemma_replace_all_wf(h.store, c.erase, c.draw);
}

/// Undo, redo and edits keep a well-formed history well-formed.
pub proof fn lemma_steps_wf(h: History, c: CommandView)
    requires
        h.wf(),
    ensures
        h.undo() is Some ==> h.undo().unwrap().wf(),
        h.redo() is Some ==> h.redo().unwrap().wf(),
        h.apply(c) is Some ==> h.apply(c).unwrap().wf(),
        h.forget_oldest().wf(),
{
    if h.tail > 0 && h.undo() is Some {
        let k = h.log[h.tail - 1];
        lemma_restore_all_wf(h.store, k.draw, k.erase);
    }
    if h.tail < h.log.len() && h.redo() is Some {
        let k = h.log[h.tail as int];
        lemma_replace_all_wf(h.store, k.erase, k.draw);
    }
    if !c.is_empty() && h.apply(c) is Some {
        lemma_replace_all_wf(h.store, c.erase, c.draw);
    }
}

/// A move in the history of a canvas.
pub enum Edit {
    /// A new edit with this command.
    Apply(CommandView),
    Undo,
    Redo,
}

impl History {
    /// What one move makes of the history; nothing if it is refused.
    pub open spec fn step(self, e: Edit) -> Option<History> {
        match e {
            Edit::Apply(c) => self.apply(c),
            Edit::Undo => self.undo(),
            Edit::Redo => self.redo(),
        }
    }

    /// What the moves `edits`, made in order, make of the history; nothing
    /// if one of them is refused.
    pub open spec fn run(self, edits: Seq<Edit>) -> Option<History>
        decreases edits.len(),
    {
        if edits.len() == 0 {
            Some(self)
        } else {
            match self.run(edits.drop_last()) {
                Some(mid) => mid.step(edits.last()),
                None => None,
            }
        }
    }

    /// While the moves `edits` are made, the cursor never comes to lie
    /// before `floor`.
    pub open spec fn stays_from(self, edits: Seq<Edit>, floor: nat) -> bool
        decreases edits.len(),
    {
        &&& self.run(edits) matches Some(h) ==> h.tail >= floor
        &&& edits.len() > 0 ==> self.stays_from(edits.drop_last(), floor)
    }
}

/// The pixels after undoing from the cursor `tail` back to the cursor
/// `to`; nothing if an undo on the way is refused.
pub open spec fn rewind(m: PixelMap, log: Seq<CommandView>, tail: nat, to: nat) -> Option<PixelMap>
    decreases tail,
{
    if tail <= to {
        Some(m)
    } else {
        match backward(m, log[tail - 1]) {
            Some(before) => rewind(before, log, (tail - 1) as nat, to),
            None => None,
        }
    }
}

/// Undoing back to a cursor does not look at the commands behind the
/// cursor it starts from.
proof fn lemma_rewind_same(
    m: PixelMap,
    log1: Seq<CommandView>,
    log2: Seq<CommandView>,
    tail: nat,
    to: nat,
)
    requires
        tail <= log1.len(),
        tail <= log2.len(),
        forall|i: int| 0 <= i < tail ==> log1[i] == log2[i],
    ensures
        rewind(m, log1, tail, to) == rewind(m, log2, tail, to),
    decreases tail,
{
    if tail > to {
        match backward(m, log1[tail - 1]) {
            Some(before) => {
                lemma_rewind_same(before, log1, log2, (tail - 1) as nat, to);
            },
            None => {},
        }
    }
}

/// What holds of a history all the while: the way back from where the
/// cursor is to the cursor `floor` leads to the pixels `start`.
spec fn leads_back(h: History, floor: nat, start: PixelMap) -> bool {
    &&& h.wf()
    &&& h.tail >= floor
    &&& rewind(h.store, h.log, h.tail, floor) == Some(start)
}

proof fn lemma_step_leads_back(h: History, e: Edit, floor: nat, start: PixelMap)
    requires
        leads_back(h, floor, start),
        h.step(e) matches Some(g) && g.tail >= floor,
    ensures
        leads_back(h.step(e).unwrap(), floor, start),
{
    let g = h.step(e).unwrap();
    match e {
        Edit::Apply(c) => {
            lemma_steps_wf(h, c);
            if !c.is_empty() {
                lemma_backward_after_forward(h.store, c);
                assert(g.log[h.tail as int] == c);
                lemma_rewind_same(h.store, h.log, g.log, h.tail, floor);
                assert(backward(g.store, g.log[g.tail - 1]) == Some(h.store));
            }
        },
        Edit::Undo => {
            lemma_steps_wf(h, CommandView { erase: Seq::empty(), draw: Seq::empty() });
        },
        Edit::Redo => {
            lemma_steps_wf(h, CommandView { erase: Seq::empty(), draw: Seq::empty() });
            if h.tail < h.log.len() {
                lemma_backward_after_forward(h.store, h.log[h.tail as int]);
                assert(backward(g.store, g.log[g.tail - 1]) == Some(h.store));
            }
        },
    }
}

/// However edits, undos and redos follow one another, undoing back to
/// the cursor at which they began succeeds and gives exactly the pixels
/// of the beginning: if every move succeeded and the cursor never came
/// to lie before the one of the beginning.
pub proof fn law_undo_to_start(h: History, edits: Seq<Edit>)
    requires
        h.wf(),
        h.run(edits) is Some,
        h.stays_from(edits, h.tail),
    ensures
        rewind(
            h.run(edits).unwrap().store,
            h.run(edits).unwrap().log,
            h.run(edits).unwrap().tail,
            h.tail,
        ) == Some(h.store),
        h.run(edits).unwrap().wf(),
    decreases edits.len(),
{
    if edits.len() > 0 {
        law_undo_to_start(h, edits.drop_last());
        let mid = h.run(edits.drop_last()).unwrap();
        lemma_step_leads_back(mid, edits.last(), h.tail, h.store);
    }
}

impl Pixels {
    /// Erases the pixels of `list` in order. If one of them is not in the
    /// store with its color, nothing is erased.
    pub fn erase_list(&mut self, list: &Vec<Pixel>) -> (r: Result<(), CanvasError>)
        requires
            old(self).wf(),
        ensures
            final(self).wf(),
            match erase_all(old(self)@, list@) {
                Some(m) => r is Ok && final(self)@ == m,
                None => r == Err::<(), CanvasError>(CanvasError::ConsistencyViolation)
                    && final(self)@ == old(self)@,
            },
    {
        let mut i: usize = 0;
        let mut failed = false;
        while i < list.len() && !failed
            invariant
                i <= list.len(),
                self.wf(),
                erase_all(old(self)@, list@.take(i as int)) == Some(self@),
                failed ==> i < list.len() && erase_step(self@, list[i as int]) is None,
            decreases list.len() - i + if failed { 0int } else { 1int },
        {
            proof {
                assert(list@.take(i + 1).drop_last() =~= list@.take(i as int));
            }
            match self.erase_pixel(list[i]) {
                Ok(()) => {
                    i += 1;
                },
                Err(_) => {
                    failed = true;
                },
            }
        }
        if !failed {
            proof {
                assert(list@.take(i as int) =~= list@);
            }
            return Ok(());
        }
        proof {
            assert(list@.take(i + 1).drop_last() =~= list@.take(i as int));
            if erase_all(old(self)@, list@) is Some {
                lemma_erase_all_prefix(old(self)@, list@, i + 1);
            }
        }
        while i > 0
            invariant
                i <= list.len(),
                self.wf(),
                old(self).wf(),
                erase_all(old(self)@, list@.take(i as int)) == Some(self@),
            decreases i,
        {
            proof {
                old(self).lemma_wf();
                assert(list@.take(i as int).drop_last() =~= list@.take(i - 1));
                let prev = erase_all(old(self)@, list@.take(i - 1)).unwrap();
                lemma_erase_all_shrinks(old(self)@, list@.take(i - 1));
                assert(holds(prev, list[i - 1]));
                assert(prev.remove(list[i - 1].position).insert(
                    list[i - 1].position,
                    list[i - 1].color,
                ) =~= prev);
            }
            let _ = self.draw_pixel(list[i - 1]);
            i -= 1;
        }
        proof {
            assert(list@.take(0) =~= Seq::<Pixel>::empty());
        }
        Err(CanvasError::ConsistencyViolation)
    }

    /// Draws the pixels of `list` in order. If one of them falls on a
    /// taken position, nothing is drawn.
    pub fn draw_list(&mut self, list: &Vec<Pixel>) -> (r: Result<(), CanvasError>)
        requires
            old(self).wf(),
        ensures
            final(self).wf(),
            match draw_all(old(self)@, list@) {
                Some(m) => r is Ok && final(self)@ == m,
                None => r == Err::<(), CanvasError>(CanvasError::ConsistencyViolation)
                    && final(self)@ == old(self)@,
            },
    {
        let mut i: usize = 0;
        let mut failed = false;
        while i < list.len() && !failed
            invariant
                i <= list.len(),
                self.wf(),
                draw_all(old(self)@, list@.take(i as int)) == Some(self@),
                failed ==> i < list.len() && draw_step(self@, list[i as int]) is None,
            decreases list.len() - i + if failed { 0int } else { 1int },
        {
            proof {
                assert(list@.take(i + 1).drop_last() =~= list@.take(i as int));
            }
            match self.draw_pixel(list[i]) {
                Ok(()) => {
                    i += 1;
                },
                Err(_) => {
                    failed = true;
                },
            }
        }
        if !failed {
            proof {
                assert(list@.take(i as int) =~= list@);
            }
            return Ok(());
        }
        proof {
            assert(list@.take(i + 1).drop_last() =~= list@.take(i as int));
            if draw_all(old(self)@, list@) is Some {
                lemma_draw_all_prefix(old(self)@, list@, i + 1);
            }
        }
        while i > 0
            invariant
                i <= list.len(),
                self.wf(),
                draw_all(old(self)@, list@.take(i as int)) == Some(self@),
            decreases i,
        {
            proof {
                assert(list@.take(i as int).drop_last() =~= list@.take(i - 1));
                let prev = draw_all(old(self)@, list@.take(i - 1)).unwrap();
                assert(!prev.contains_key(list[i - 1].position));
                assert(prev.insert(list[i - 1].position, list[i - 1].color).remove(
                    list[i - 1].position,
                ) =~= prev);
            }
            if list[i - 1].color.a != 0 {
                let _ = self.erase_pixel(list[i - 1]);
            }
            i -= 1;
        }
        proof {
            assert(list@.take(0) =~= Seq::<Pixel>::empty());
        }
        Err(CanvasError::ConsistencyViolation)
    }

    /// Erases `erase`, then draws `draw`. If either cannot be done in
    /// full, the store stays as it was.
    pub fn replace_lists(&mut self, erase: &Vec<Pixel>, draw: &Vec<Pixel>) -> (r: Result<
        (),
        CanvasError,
    >)
        requires
            old(self).wf(),
        ensures
            final(self).wf(),
            match replace_all(old(self)@, erase@, draw@) {
                Some(m) => r is Ok && final(self)@ == m,
                None => r == Err::<(), CanvasError>(CanvasError::ConsistencyViolation)
                    && final(self)@ == old(self)@,
            },
    {
        match self.erase_list(erase) {
            Ok(()) => {},
            Err(e) => {
                return Err(e);
            },
        }
        match self.draw_list(draw) {
            Ok(()) => Ok(()),
            Err(e) => {
                proof {
                    old(self).lemma_wf();
                    lemma_draw_restores_erased(old(self)@, erase@);
                }
                let _ = self.draw_list(erase);
                Err(e)
            },
        }
    }

    /// Takes back the drawing of the pixels of `list`, from the last one
    /// to the first. If one of them cannot be taken back, nothing is.
    pub fn undraw_list(&mut self, list: &Vec<Pixel>) -> (r: Result<(), CanvasError>)
        requires
            old(self).wf(),
        ensures
            final(self).wf(),
            match undraw_all(old(self)@, list@) {
                Some(m) => r is Ok && final(self)@ == m,
                None => r == Err::<(), CanvasError>(CanvasError::ConsistencyViolation)
                    && final(self)@ == old(self)@,
            },
    {
        let n = list.len();
        let mut i: usize = n;
        let mut failed = false;
        proof {
            assert(list@.take(n as int) =~= list@);
            assert(list@.subrange(n as int, n as int) =~= Seq::<Pixel>::empty());
        }
        while i > 0 && !failed
            invariant
                i <= n,
                n == list.len(),
                self.wf(),
                undraw_all(old(self)@, list@) == undraw_all(self@, list@.take(i as int)),
                draw_all(self@, list@.subrange(i as int, n as int)) == Some(old(self)@),
                failed ==> i > 0 && undraw_step(self@, list[i - 1]) is None,
            decreases i + if failed { 0int } else { 1int },
        {
            let ghost before = self@;
            proof {
                assert(list@.take(i as int).drop_last() =~= list@.take(i - 1));
                assert(list@.take(i as int).last() == list[i - 1]);
            }
            match self.undraw_pixel(list[i - 1]) {
                Ok(()) => {
                    proof {
                        let z = list[i - 1];
                        if z.color.a != 0 {
                            assert(before.remove(z.position).insert(z.position, z.color)
                                =~= before);
                        }
                        assert(list@.subrange(i - 1, n as int) =~= seq![z] + list@.subrange(
                            i as int,
                            n as int,
                        ));
                        lemma_draw_all_front(self@, z, list@.subrange(i as int, n as int));
                    }
                    i -= 1;
                },
                Err(_) => {
                    failed = true;
                },
            }
        }
        if !failed {
            return Ok(());
        }
        proof {
            assert(list@.take(i as int).last() == list[i - 1]);
        }
        while i < n
            invariant
                i <= n,
                n == list.len(),
                self.wf(),
                draw_all(self@, list@.subrange(i as int, n as int)) == Some(old(self)@),
            decreases n - i,
        {
            proof {
                assert(list@.subrange(i as int, n as int) =~= seq![list[i as int]] + list@.subrange(
                    i + 1,
                    n as int,
                ));
                lemma_draw_all_front(self@, list[i as int], list@.subrange(i + 1, n as int));
            }
            let _ = self.draw_pixel(list[i]);
            i += 1;
        }
        Err(CanvasError::ConsistencyViolation)
    }

    /// Takes back the drawing of `drawn`, then draws `erased` again. If
    /// either cannot be done in full, the store stays as it was.
    pub fn restore_lists(&mut self, drawn: &Vec<Pixel>, erased: &Vec<Pixel>) -> (r: Result<
        (),
        CanvasError,
    >)
        requires
            old(self).wf(),
        ensures
            final(self).wf(),
            match restore_all(old(self)@, drawn@, erased@) {
                Some(m) => r is Ok && final(self)@ == m,
                None => r == Err::<(), CanvasError>(CanvasError::ConsistencyViolation)
                    && final(self)@ == old(self)@,
            },
    {
        match self.undraw_list(drawn) {
            Ok(()) => {},
            Err(e) => {
                return Err(e);
            },
        }
        match self.draw_list(erased) {
            Ok(()) => Ok(()),
            Err(e) => {
                proof {
                    lemma_draw_after_undraw(old(self)@, drawn@);
                }
                let _ = self.draw_list(drawn);
                Err(e)
            },
        }
    }
}

} // verus!
