//! The canvas model: the pixel store behind a log of undoable commands.

use vstd::prelude::*;
use vstd::std_specs::iter::IteratorSpec;
use std::collections::BTreeSet;
use std::collections::HashSet;
use std::collections::VecDeque;
use crate::codec::{
    canvas_bytes, decode_canvas, encode_canvas, lemma_canvas_round_trip, read_canvas, Decoded,
};
use crate::color::Rgba;
use crate::deflate::{compress, decompress, deflated, inflated};
use crate::error::CanvasError;
use crate::history::{CommandView, History};
use crate::compositor::{composite, with_alpha};
use crate::edit::{
    draw_command, erase_and_draw_command, erase_command, lemma_matching_none,
    make_draw_command, make_erase_and_draw_command, make_erase_command,
    make_replace_color_command, replace_color_command,
};
use crate::pixel::{Pixel, PixelPosition, PixelRegion, PixelSize};
use crate::pixel::position_lt;
use crate::sorting::{ascending, has_position, sort_positions, strictly_sorted};
use crate::store::{
    entries_of, is_entries_of, is_non_neg_corner, lemma_entries_exist, lemma_store_from_entries,
    store_from, store_wf, PixelMap, Pixels,
};

verus! {

broadcast use {
    vstd::laws_cmp::group_laws_cmp,
    vstd::std_specs::btree::group_btree_axioms,
    vstd::std_specs::hash::group_hash_axioms,
};

/// One undoable edit: the pixels it erases and the pixels it draws, each
/// list in row-major order.
#[derive(Debug)]
pub struct PixelCanvasCommand {
    pub erase: Vec<Pixel>,
    pub draw: Vec<Pixel>,
}

impl View for PixelCanvasCommand {
    type V = CommandView;

    open spec fn view(&self) -> CommandView {
        CommandView { erase: self.erase@, draw: self.draw@ }
    }
}

impl PixelCanvasCommand {
    /// A command that changes nothing.
    pub fn new() -> (command: PixelCanvasCommand)
        ensures
            command@.erase == Seq::<Pixel>::empty(),
            command@.draw == Seq::<Pixel>::empty(),
            command@.is_empty(),
    {
        PixelCanvasCommand { erase: Vec::new(), draw: Vec::new() }
    }

    pub fn is_empty(&self) -> (b: bool)
        ensures
            b == self@.is_empty(),
    {
        self.erase.len() == 0 && self.draw.len() == 0
    }
}

impl Default for PixelCanvasCommand {
    fn default() -> (command: PixelCanvasCommand)
        ensures
            command@.is_empty(),
    {
        PixelCanvasCommand::new()
    }
}

/// The positions that the lists `outs` name.
pub open spec fn named(outs: Seq<Vec<PixelPosition>>) -> Set<PixelPosition> {
    Set::new(|q: PixelPosition| exists|i: int| 0 <= i < outs.len() && (#[trigger] outs[i])@.contains(q))
}

/// `after` is `before` and, for each position of `touched`, the
/// positions that one call of `upper` on it gave.
pub open spec fn marks<F: Fn(PixelPosition) -> Vec<PixelPosition>>(
    before: Set<PixelPosition>,
    after: Set<PixelPosition>,
    upper: F,
    touched: Seq<PixelPosition>,
) -> bool {
    exists|outs: Seq<Vec<PixelPosition>>|
        {
            &&& outs.len() == touched.len()
            &&& forall|i: int|
                0 <= i < touched.len() ==> call_ensures(upper, (touched[i],), #[trigger] outs[i])
            &&& after == before.union(named(outs))
        }
}

spec fn keys_to_positions(keys: Set<(i16, i16)>) -> Set<PixelPosition> {
    Set::new(|p: PixelPosition| keys.contains((p.y, p.x)))
}

/// Puts into `dirty` what `upper` gives for the position of each pixel of
/// `list`, and hands back what the calls returned.
fn mark_list<F: Fn(PixelPosition) -> Vec<PixelPosition>>(
    dirty: &mut BTreeSet<(i16, i16)>,
    upper: &F,
    list: &Vec<Pixel>,
) -> (outs: Ghost<Seq<Vec<PixelPosition>>>)
    requires
        forall|p: PixelPosition| call_requires(*upper, (p,)),
    ensures
        outs@.len() == list.len(),
        forall|i: int|
            0 <= i < list.len() ==> call_ensures(*upper, (list[i].position,), #[trigger] outs@[i]),
        keys_to_positions(final(dirty)@) == keys_to_positions(old(dirty)@).union(named(outs@)),
{
    let ghost mut outs: Seq<Vec<PixelPosition>> = Seq::empty();
    let mut i: usize = 0;
    proof {
        assert(keys_to_positions(dirty@) =~= keys_to_positions(old(dirty)@).union(named(outs)));
    }
    while i < list.len()
        invariant
            i <= list.len(),
            forall|p: PixelPosition| call_requires(*upper, (p,)),
            outs.len() == i,
            forall|k: int| 0 <= k < i ==> call_ensures(*upper, (list[k].position,), #[trigger] outs[k]),
            keys_to_positions(dirty@) == keys_to_positions(old(dirty)@).union(named(outs)),
        decreases list.len() - i,
    {
        let found = upper(list[i].position);
        let ghost before = dirty@;
        let mut j: usize = 0;
        while j < found.len()
            invariant
                j <= found.len(),
                forall|q: PixelPosition|
                    #![trigger found@.take(j as int).contains(q)]
                    #![trigger dirty@.contains((q.y, q.x))]
                    dirty@.contains((q.y, q.x)) <==> (before.contains((q.y, q.x))
                        || found@.take(j as int).contains(q)),
            decreases found.len() - j,
        {
            let q = found[j];
            let ghost was = dirty@;
            dirty.insert((q.y, q.x));
            proof {
                let short = found@.take(j as int);
                let long = found@.take(j + 1);
                assert(long =~= short.push(q));
                assert forall|r: PixelPosition|
                    #![trigger long.contains(r)]
                    #![trigger dirty@.contains((r.y, r.x))]
                    dirty@.contains((r.y, r.x)) <==> (before.contains((r.y, r.x)) || long.contains(
                        r,
                    )) by {
                    assert(was.contains((r.y, r.x)) <==> (before.contains((r.y, r.x))
                        || short.contains(r)));
                    assert(dirty@ == was.insert((q.y, q.x)));
                    if long.contains(r) {
                        let n = choose|n: int| 0 <= n < long.len() && long[n] == r;
                        if n < j {
                            assert(short[n] == r);
                        }
                    }
                    if short.contains(r) {
                        let n = choose|n: int| 0 <= n < short.len() && short[n] == r;
                        assert(long[n] == r);
                    }
                    if r == q {
                        assert(long[j as int] == r);
                    }
                }
            }
            j += 1;
        }
        proof {
            assert(found@.take(found.len() as int) =~= found@);
            let grown = outs.push(found);
            assert forall|q: PixelPosition|
                keys_to_positions(dirty@).contains(q) == keys_to_positions(old(dirty)@).union(
                    named(grown),
                ).contains(q) by {
                assert(keys_to_positions(before).contains(q) == before.contains((q.y, q.x)));
                assert(keys_to_positions(before).contains(q) == (keys_to_positions(
                    old(dirty)@,
                ).contains(q) || named(outs).contains(q)));
                if named(outs).contains(q) {
                    let n = choose|n: int| 0 <= n < outs.len() && (#[trigger] outs[n])@.contains(q);
                    assert(grown[n]@.contains(q));
                }
                if found@.contains(q) {
                    assert(grown[i as int]@.contains(q));
                }
                if named(grown).contains(q) {
                    let n = choose|n: int|
                        0 <= n < grown.len() && (#[trigger] grown[n])@.contains(q);
                    if n < i {
                        assert(outs[n]@.contains(q));
                    }
                }
            }
            assert(keys_to_positions(dirty@) =~= keys_to_positions(old(dirty)@).union(
                named(grown),
            ));
            outs = grown;
        }
        i += 1;
    }
    Ghost(outs)
}

/// The positions that the keys of `dirty` stand for.
fn dirty_list(dirty: &BTreeSet<(i16, i16)>) -> (out: Vec<PixelPosition>)
    ensures
        ascending(out@),
        out@.to_set() == keys_to_positions(dirty@),
{
    let mut found: Vec<PixelPosition> = Vec::new();
    for k in it: dirty.iter()
        invariant
            it.seq() == dirty.iter().remaining(),
            found@.len() == it.index(),
            forall|i: int|
                0 <= i < found.len() ==> (#[trigger] found@[i]).y == it.seq()[i].0 && found@[i].x
                    == it.seq()[i].1,
    {
        found.push(PixelPosition { y: k.0, x: k.1 });
    }
    proof {
        let keys = dirty.iter().remaining().unref();
        assert forall|a: int, b: int| 0 <= a < b < found@.len() implies found@[a] != found@[b] by {
            assert(keys[a] != keys[b]);
        }
        assert forall|p: PixelPosition| found@.to_set().contains(p) == keys_to_positions(
            dirty@,
        ).contains(p) by {
            if found@.contains(p) {
                let i = choose|i: int| 0 <= i < found@.len() && found@[i] == p;
                assert(keys.to_set().contains(keys[i]));
            }
            if dirty@.contains((p.y, p.x)) {
                assert(keys.to_set().contains((p.y, p.x)));
                let i = choose|i: int| 0 <= i < keys.len() && keys[i] == (p.y, p.x);
                assert(found@[i] == p);
            }
        }
        assert(found@.to_set() =~= keys_to_positions(dirty@));
    }
    sort_positions(&found)
}

/// The canvas: its pixels, the log of the commands that made them, the
/// cursor that undo and redo move, the positions waiting to be painted
/// again, and the count of edits.
#[derive(Debug)]
pub struct PixelCanvasModel {
    command_log: VecDeque<PixelCanvasCommand>,
    command_log_tail: usize,
    pixels: Pixels,
    dirty_positions: BTreeSet<(i16, i16)>,
    state_version: i64,
}

/// What the commands of a log stand for.
pub open spec fn log_view(log: Seq<PixelCanvasCommand>) -> Seq<CommandView> {
    log.map_values(|c: PixelCanvasCommand| c@)
}

/// How `redo_command` and `undo_command` leave the canvas: `step` is
/// what the history says of the move, `touched` the positions of the
/// command that moved.
pub open spec fn moved<F: Fn(PixelPosition) -> Vec<PixelPosition>>(
    before: History,
    dirty_before: Set<PixelPosition>,
    step: Option<History>,
    touched: Seq<PixelPosition>,
    after: History,
    dirty_after: Set<PixelPosition>,
    r: Result<(), CanvasError>,
    upper: F,
) -> bool {
    match step {
        Some(h) => {
            &&& r is Ok
            &&& after == h
            &&& marks(dirty_before, dirty_after, upper, touched)
        },
        None => {
            &&& r == Err::<(), CanvasError>(CanvasError::ConsistencyViolation)
            &&& after == before
            &&& dirty_after == dirty_before
        },
    }
}

/// One call of `lower` on `p` gives positions whose pixels composite to
/// `color`.
pub open spec fn sees<F: Fn(PixelPosition) -> Vec<PixelPosition>>(
    m: PixelMap,
    lower: F,
    p: PixelPosition,
    color: Option<Rgba>,
) -> bool {
    exists|v: Vec<PixelPosition>| call_ensures(lower, (p,), v) && composite(m, v@) == color
}

/// The compressed block of the pixels `m`: nothing where they are more
/// than a 32-bit count can tell, else what the encoder makes of their
/// plain bytes.
pub open spec fn compressed_canvas(m: PixelMap) -> Option<Seq<u8>> {
    if entries_of(m).len() > u32::MAX {
        None
    } else {
        deflated(canvas_bytes(entries_of(m)))
    }
}

/// The canvas that the decoded parts `d` make: its pixels put on an empty
/// store in their order, its log and cursor, no edit counted, nothing
/// dirty.
pub open spec fn restored(d: Decoded) -> History {
    History { store: store_from(d.pixels), log: d.log, tail: d.tail, version: 0 }
}

/// The colors of the pixels `s`, each once, in the order in which they
/// first occur.
pub open spec fn first_colors(s: Seq<Pixel>) -> Seq<Rgba>
    decreases s.len(),
{
    if s.len() == 0 {
        Seq::<Rgba>::empty()
    } else if first_colors(s.drop_last()).contains(s.last().color) {
        first_colors(s.drop_last())
    } else {
        first_colors(s.drop_last()).push(s.last().color)
    }
}

proof fn lemma_marks_nothing<F: Fn(PixelPosition) -> Vec<PixelPosition>>(
    dirty: Set<PixelPosition>,
    upper: F,
)
    ensures
        marks(dirty, dirty, upper, Seq::<PixelPosition>::empty()),
{
    let outs = Seq::<Vec<PixelPosition>>::empty();
    assert(dirty =~= dirty.union(named(outs)));
}

proof fn lemma_marks_lists<F: Fn(PixelPosition) -> Vec<PixelPosition>>(
    before: Set<PixelPosition>,
    after: Set<PixelPosition>,
    upper: F,
    c: CommandView,
    erased: Seq<Vec<PixelPosition>>,
    drawn: Seq<Vec<PixelPosition>>,
)
    requires
        erased.len() == c.erase.len(),
        drawn.len() == c.draw.len(),
        forall|i: int|
            0 <= i < c.erase.len() ==> call_ensures(upper, (c.erase[i].position,), #[trigger] erased[i]),
        forall|i: int|
            0 <= i < c.draw.len() ==> call_ensures(upper, (c.draw[i].position,), #[trigger] drawn[i]),
        after == before.union(named(erased)).union(named(drawn)),
    ensures
        marks(before, after, upper, c.touched()),
{
    let outs = erased + drawn;
    let touched = c.touched();
    assert(outs.len() == touched.len());
    assert forall|i: int| 0 <= i < touched.len() implies call_ensures(
        upper,
        (touched[i],),
        #[trigger] outs[i],
    ) by {
        if i < c.erase.len() {
            assert(outs[i] == erased[i]);
            assert(touched[i] == c.erase[i].position);
        } else {
            assert(outs[i] == drawn[i - c.erase.len()]);
            assert(touched[i] == c.draw[i - c.erase.len()].position);
        }
    }
    assert(after =~= before.union(named(outs))) by {
        assert forall|q: PixelPosition| after.contains(q) == before.union(named(outs)).contains(
            q,
        ) by {
            if named(erased).contains(q) {
                let n = choose|n: int| 0 <= n < erased.len() && (#[trigger] erased[n])@.contains(q);
                assert(outs[n]@.contains(q));
            }
            if named(drawn).contains(q) {
                let n = choose|n: int| 0 <= n < drawn.len() && (#[trigger] drawn[n])@.contains(q);
                assert(outs[n + erased.len()]@.contains(q));
            }
            if named(outs).contains(q) {
                let n = choose|n: int| 0 <= n < outs.len() && (#[trigger] outs[n])@.contains(q);
                if n < erased.len() {
                    assert(erased[n]@.contains(q));
                } else {
                    assert(drawn[n - erased.len()]@.contains(q));
                }
            }
        }
    }
}

/// The four channels of `color` as one number; two colors have one number
/// only if they are one color.
spec fn packed(color: Rgba) -> u32 {
    (color.r * 0x100_0000 + color.g * 0x1_0000 + color.b * 0x100 + color.a) as u32
}

fn pack(color: Rgba) -> (n: u32)
    ensures
        n == packed(color),
        forall|other: Rgba| packed(other) == n ==> other == color,
{
    (color.r as u32) * 0x100_0000 + (color.g as u32) * 0x1_0000 + (color.b as u32) * 0x100 + (
    color.a as u32)
}

impl PixelCanvasModel {
    /// The undoable state of the canvas.
    pub closed spec fn history(&self) -> History {
        History {
            store: self.pixels@,
            log: log_view(self.command_log@),
            tail: self.command_log_tail as nat,
            version: self.state_version as int,
        }
    }

    /// The positions waiting to be painted again.
    pub closed spec fn dirty(&self) -> Set<PixelPosition> {
        keys_to_positions(self.dirty_positions@)
    }

    /// The canvas is as its operations leave it.
    pub closed spec fn wf(&self) -> bool {
        &&& self.pixels.wf()
        &&& self.command_log_tail <= self.command_log@.len()
    }

    /// The history of a well-formed canvas is well-formed, and the count
    /// of edits is a 64-bit number.
    pub proof fn lemma_wf(&self)
        requires
            self.wf(),
        ensures
            self.history().wf(),
            i64::MIN <= self.history().version <= i64::MAX,
            self.history().tail <= usize::MAX,
    {
        self.pixels.lemma_wf();
    }

    /// An empty canvas without history.
    pub fn new() -> (model: PixelCanvasModel)
        ensures
            model.wf(),
            model.history() == (History {
                store: PixelMap::empty(),
                log: Seq::<CommandView>::empty(),
                tail: 0,
                version: 0,
            }),
            model.dirty() == Set::<PixelPosition>::empty(),
    {
        let model = PixelCanvasModel {
            command_log: VecDeque::new(),
            command_log_tail: 0,
            pixels: Pixels::new(),
            dirty_positions: BTreeSet::new(),
            state_version: 0,
        };
        proof {
            assert(log_view(model.command_log@) =~= Seq::<CommandView>::empty());
            assert(model.dirty() =~= Set::<PixelPosition>::empty());
        }
        model
    }
}

impl Default for PixelCanvasModel {
    fn default() -> (model: PixelCanvasModel)
        ensures
            model.wf(),
            model.history() == (History {
                store: PixelMap::empty(),
                log: Seq::<CommandView>::empty(),
                tail: 0,
                version: 0,
            }),
            model.dirty() == Set::<PixelPosition>::empty(),
    {
        PixelCanvasModel::new()
    }
}

impl PixelCanvasModel {
    /// The count of edits: up by one with each edit and redo, down by one
    /// with each undo.
    pub fn state_version(&self) -> (version: i64)
        ensures
            version == self.history().version,
    {
        self.state_version
    }

    /// The cursor: how many commands of the log are applied.
    pub fn command_log_tail(&self) -> (tail: usize)
        ensures
            tail == self.history().tail,
    {
        self.command_log_tail
    }

    /// The commands, applied ones first.
    pub fn command_log(&self) -> (log: &VecDeque<PixelCanvasCommand>)
        ensures
            log_view(log@) == self.history().log,
    {
        &self.command_log
    }

    /// How many commands can be undone.
    pub fn undo_count(&self) -> (n: usize)
        ensures
            n == self.history().tail,
    {
        self.command_log_tail
    }

    /// How many commands can be redone.
    pub fn redo_count(&self) -> (n: usize)
        requires
            self.wf(),
        ensures
            n == self.history().log.len() - self.history().tail,
    {
        self.command_log.len() - self.command_log_tail
    }

    /// The positions waiting to be painted again, in row-major order.
    pub fn dirty_positions(&self) -> (out: Vec<PixelPosition>)
        ensures
            ascending(out@),
            out@.to_set() == self.dirty(),
    {
        dirty_list(&self.dirty_positions)
    }

    /// Hands over the positions waiting to be painted again, in row-major
    /// order, and forgets them.
    pub fn take_dirty_positions(&mut self) -> (out: Vec<PixelPosition>)
        ensures
            ascending(out@),
            out@.to_set() == old(self).dirty(),
            final(self).dirty() == Set::<PixelPosition>::empty(),
            final(self).history() == old(self).history(),
            old(self).wf() ==> final(self).wf(),
    {
        let out = dirty_list(&self.dirty_positions);
        self.dirty_positions.clear();
        proof {
            assert(self.dirty() =~= Set::<PixelPosition>::empty());
        }
        out
    }
}

impl PixelCanvasModel {
    /// Applies the command at the cursor again and moves the cursor past
    /// it; the count of edits goes up by one, and what lies above each
    /// touched position becomes dirty. With the cursor at the end there is
    /// no command, and nothing changes. A command that does not fit the
    /// pixels is refused and nothing changes.
    pub fn redo_command<F: Fn(PixelPosition) -> Vec<PixelPosition>>(&mut self, upper: &F) -> (r:
        Result<(), CanvasError>)
        requires
            old(self).wf(),
            old(self).history().has_redo() ==> old(self).history().version < i64::MAX,
            forall|p: PixelPosition| call_requires(*upper, (p,)),
        ensures
            final(self).wf(),
            moved(
                old(self).history(),
                old(self).dirty(),
                old(self).history().redo(),
                if old(self).history().tail < old(self).history().log.len() {
                    old(self).history().log[old(self).history().tail as int].touched()
                } else {
                    Seq::<PixelPosition>::empty()
                },
                final(self).history(),
                final(self).dirty(),
                r,
                *upper,
            ),
            !old(self).history().has_redo() ==> {
                &&& r is Ok
                &&& final(self).history() == old(self).history()
                &&& final(self).dirty() == old(self).dirty()
            },
    {
        if self.command_log_tail < self.command_log.len() {
            let command = &self.command_log[self.command_log_tail];
            match self.pixels.replace_lists(&command.erase, &command.draw) {
                Ok(()) => {},
                Err(e) => {
                    return Err(e);
                },
            }
            let erased = mark_list(&mut self.dirty_positions, upper, &command.erase);
            let drawn = mark_list(&mut self.dirty_positions, upper, &command.draw);
            proof {
                lemma_marks_lists(
                    old(self).dirty(),
                    self.dirty(),
                    *upper,
                    command@,
                    erased@,
                    drawn@,
                );
            }
            self.command_log_tail += 1;
            self.state_version += 1;
        } else {
            proof {
                lemma_marks_nothing(self.dirty(), *upper);
            }
        }
        Ok(())
    }

    /// Takes back the command before the cursor and moves the cursor in
    /// front of it; what lies above each touched position becomes dirty.
    /// With the cursor at the start only the count of edits goes down. A
    /// command that an edit or a redo applied can always be taken back;
    /// one that does not fit the pixels is refused and nothing changes.
    pub fn undo_command<F: Fn(PixelPosition) -> Vec<PixelPosition>>(&mut self, upper: &F) -> (r:
        Result<(), CanvasError>)
        requires
            old(self).wf(),
            old(self).history().version > i64::MIN,
            forall|p: PixelPosition| call_requires(*upper, (p,)),
        ensures
            final(self).wf(),
            moved(
                old(self).history(),
                old(self).dirty(),
                old(self).history().undo(),
                if old(self).history().tail > 0 {
                    old(self).history().log[old(self).history().tail - 1].touched()
                } else {
                    Seq::<PixelPosition>::empty()
                },
                final(self).history(),
                final(self).dirty(),
                r,
                *upper,
            ),
            old(self).history().tail == 0 ==> r is Ok && final(self).dirty() == old(self).dirty(),
    {
        if self.command_log_tail > 0 {
            let i = self.command_log_tail - 1;
            let command = &self.command_log[i];
            match self.pixels.restore_lists(&command.draw, &command.erase) {
                Ok(()) => {},
                Err(e) => {
                    return Err(e);
                },
            }
            let drawn = mark_list(&mut self.dirty_positions, upper, &command.draw);
            let erased = mark_list(&mut self.dirty_positions, upper, &command.erase);
            proof {
                assert(old(self).dirty().union(named(drawn@)).union(named(erased@)) =~= old(
                    self,
                ).dirty().union(named(erased@)).union(named(drawn@)));
                lemma_marks_lists(
                    old(self).dirty(),
                    self.dirty(),
                    *upper,
                    command@,
                    erased@,
                    drawn@,
                );
            }
            self.command_log_tail = i;
        } else {
            proof {
                lemma_marks_nothing(self.dirty(), *upper);
            }
        }
        self.state_version -= 1;
        Ok(())
    }

    /// Makes `command` the newest edit: the commands behind the cursor are
    /// given up, the command is appended and applied, and what lies above
    /// each touched position becomes dirty. An empty command changes
    /// nothing. A command that does not fit the pixels is refused and
    /// nothing changes.
    pub fn apply_command<F: Fn(PixelPosition) -> Vec<PixelPosition>>(
        &mut self,
        upper: &F,
        command: PixelCanvasCommand,
    ) -> (r: Result<(), CanvasError>)
        requires
            old(self).wf(),
            old(self).history().version < i64::MAX,
            forall|p: PixelPosition| call_requires(*upper, (p,)),
        ensures
            final(self).wf(),
            moved(
                old(self).history(),
                old(self).dirty(),
                old(self).history().apply(command@),
                if command@.is_empty() {
                    Seq::<PixelPosition>::empty()
                } else {
                    command@.touched()
                },
                final(self).history(),
                final(self).dirty(),
                r,
                *upper,
            ),
    {
        if command.is_empty() {
            proof {
                lemma_marks_nothing(self.dirty(), *upper);
            }
            return Ok(());
        }
        match self.pixels.replace_lists(&command.erase, &command.draw) {
            Ok(()) => {},
            Err(e) => {
                return Err(e);
            },
        }
        let erased = mark_list(&mut self.dirty_positions, upper, &command.erase);
        let drawn = mark_list(&mut self.dirty_positions, upper, &command.draw);
        proof {
            lemma_marks_lists(old(self).dirty(), self.dirty(), *upper, command@, erased@, drawn@);
        }
        let ghost view = command@;
        self.command_log.truncate(self.command_log_tail);
        self.command_log.push_back(command);
        let n = self.command_log.len();
        proof {
            assert(log_view(self.command_log@) =~= old(self).history().log.take(
                old(self).history().tail as int,
            ).push(view));
        }
        self.command_log_tail = n;
        self.state_version += 1;
        Ok(())
    }

    /// Forgets the oldest applied command, if there is one. Commands that
    /// wait to be applied again are never forgotten.
    pub fn forget_oldest_command(&mut self)
        requires
            old(self).wf(),
        ensures
            final(self).wf(),
            final(self).history() == old(self).history().forget_oldest(),
            final(self).dirty() == old(self).dirty(),
    {
        if self.command_log_tail > 0 {
            self.command_log.pop_front();
            self.command_log_tail -= 1;
            proof {
                assert(log_view(self.command_log@) =~= old(self).history().log.drop_first());
            }
        }
    }

    /// Forgets the oldest applied commands until no more than `max_undo`
    /// can be undone. Commands that wait to be applied again stay.
    pub fn forget_commands_beyond(&mut self, max_undo: usize)
        requires
            old(self).wf(),
        ensures
            final(self).wf(),
            final(self).history() == old(self).history().trimmed(max_undo as nat),
            final(self).dirty() == old(self).dirty(),
    {
        let ghost start = self.history();
        proof {
            self.lemma_wf();
            assert(start.log.skip(0) =~= start.log);
        }
        while self.command_log_tail > max_undo
            invariant
                self.wf(),
                self.dirty() == old(self).dirty(),
                start == old(self).history(),
                start.tail <= start.log.len(),
                self.history().tail <= start.tail,
                self.history().tail >= max_undo || self.history() == start,
                self.history() == (History {
                    log: start.log.skip(start.tail - self.history().tail),
                    tail: self.history().tail,
                    ..start
                }),
            decreases self.command_log_tail,
        {
            let ghost before = self.history();
            proof {
                self.lemma_wf();
            }
            self.forget_oldest_command();
            proof {
                let k = start.tail - before.tail;
                assert(before.log == start.log.skip(k));
                assert(start.log.skip(k).drop_first() =~= start.log.skip(k + 1));
            }
        }
    }
}

impl PixelCanvasModel {
    /// Draws `pixels`: each is composited over the color already at its
    /// position. The edit becomes the newest command of the log.
    pub fn draw_pixels<F: Fn(PixelPosition) -> Vec<PixelPosition>>(
        &mut self,
        upper: &F,
        pixels: Vec<Pixel>,
    ) -> (r: Result<(), CanvasError>)
        requires
            old(self).wf(),
            old(self).history().version < i64::MAX,
            forall|p: PixelPosition| call_requires(*upper, (p,)),
        ensures
            final(self).wf(),
            moved(
                old(self).history(),
                old(self).dirty(),
                old(self).history().apply(draw_command(old(self).history().store, pixels@)),
                if draw_command(old(self).history().store, pixels@).is_empty() {
                    Seq::<PixelPosition>::empty()
                } else {
                    draw_command(old(self).history().store, pixels@).touched()
                },
                final(self).history(),
                final(self).dirty(),
                r,
                *upper,
            ),
    {
        let command = make_draw_command(&self.pixels, &pixels);
        self.apply_command(upper, command)
    }

    /// Erases the pixels at `positions`; a position without a pixel is
    /// passed over. The edit becomes the newest command of the log.
    pub fn erase_pixels<F: Fn(PixelPosition) -> Vec<PixelPosition>>(
        &mut self,
        upper: &F,
        positions: Vec<PixelPosition>,
    ) -> (r: Result<(), CanvasError>)
        requires
            old(self).wf(),
            old(self).history().version < i64::MAX,
            forall|p: PixelPosition| call_requires(*upper, (p,)),
        ensures
            final(self).wf(),
            moved(
                old(self).history(),
                old(self).dirty(),
                old(self).history().apply(erase_command(old(self).history().store, positions@)),
                if erase_command(old(self).history().store, positions@).is_empty() {
                    Seq::<PixelPosition>::empty()
                } else {
                    erase_command(old(self).history().store, positions@).touched()
                },
                final(self).history(),
                final(self).dirty(),
                r,
                *upper,
            ),
    {
        let command = make_erase_command(&self.pixels, &positions);
        self.apply_command(upper, command)
    }

    /// Erases the pixels at `erase_positions` and draws `pixels` as one
    /// edit, which becomes the newest command of the log.
    pub fn erase_and_draw_pixels<F: Fn(PixelPosition) -> Vec<PixelPosition>>(
        &mut self,
        upper: &F,
        erase_positions: Vec<PixelPosition>,
        pixels: Vec<Pixel>,
    ) -> (r: Result<(), CanvasError>)
        requires
            old(self).wf(),
            old(self).history().version < i64::MAX,
            forall|p: PixelPosition| call_requires(*upper, (p,)),
        ensures
            final(self).wf(),
            moved(
                old(self).history(),
                old(self).dirty(),
                old(self).history().apply(
                    erase_and_draw_command(old(self).history().store, erase_positions@, pixels@),
                ),
                if erase_and_draw_command(
                    old(self).history().store,
                    erase_positions@,
                    pixels@,
                ).is_empty() {
                    Seq::<PixelPosition>::empty()
                } else {
                    erase_and_draw_command(
                        old(self).history().store,
                        erase_positions@,
                        pixels@,
                    ).touched()
                },
                final(self).history(),
                final(self).dirty(),
                r,
                *upper,
            ),
    {
        let command = make_erase_and_draw_command(&self.pixels, &erase_positions, &pixels);
        self.apply_command(upper, command)
    }

    /// Gives every pixel of the color `prev` the color `next`, as one
    /// edit. Where no pixel has the color `prev` nothing changes: no
    /// command is appended and the count of edits stays.
    pub fn replace_color<F: Fn(PixelPosition) -> Vec<PixelPosition>>(
        &mut self,
        upper: &F,
        prev: Rgba,
        next: Rgba,
    ) -> (r: Result<(), CanvasError>)
        requires
            old(self).wf(),
            old(self).history().version < i64::MAX,
            forall|p: PixelPosition| call_requires(*upper, (p,)),
        ensures
            final(self).wf(),
            moved(
                old(self).history(),
                old(self).dirty(),
                old(self).history().apply(
                    replace_color_command(old(self).history().store, prev, next),
                ),
                if replace_color_command(old(self).history().store, prev, next).is_empty() {
                    Seq::<PixelPosition>::empty()
                } else {
                    replace_color_command(old(self).history().store, prev, next).touched()
                },
                final(self).history(),
                final(self).dirty(),
                r,
                *upper,
            ),
            (forall|p: PixelPosition|
                old(self).history().store.contains_key(p) ==> old(self).history().store[p] != prev)
                ==> r is Ok && final(self).history() == old(self).history() && final(self).dirty()
                == old(self).dirty(),
    {
        let command = make_replace_color_command(&self.pixels, prev, next);
        proof {
            let m = self.pixels@;
            if forall|p: PixelPosition| m.contains_key(p) ==> m[p] != prev {
                self.pixels.lemma_wf();
                lemma_entries_exist(m);
                let entries = entries_of(m);
                assert forall|i: int| 0 <= i < entries.len() implies entries[i].color != prev by {
                    assert(entries.contains(entries[i]));
                }
                lemma_matching_none(entries, prev);
                assert(command@.is_empty());
            }
        }
        let r = self.apply_command(upper, command);
        proof {
            if command@.is_empty() {
                assert(self.dirty() == old(self).dirty()) by {
                    let outs = choose|outs: Seq<Vec<PixelPosition>>|
                        outs.len() == 0 && self.dirty() == old(self).dirty().union(named(outs));
                    assert(old(self).dirty().union(named(outs)) =~= old(self).dirty());
                }
            }
        }
        r
    }
}

impl PixelCanvasModel {
    /// The color stored at `position` itself, where there is one.
    pub fn get_direct_pixel(&self, position: PixelPosition) -> (color: Option<Rgba>)
        ensures
            color == if self.history().store.contains_key(position) {
                Some(self.history().store[position])
            } else {
                None::<Rgba>
            },
    {
        self.pixels.get_pixel(position)
    }

    /// The pixels of the canvas, in row-major order.
    pub fn raw_pixels(&self) -> (out: Vec<Pixel>)
        ensures
            is_entries_of(self.history().store, out@),
            out@ == entries_of(self.history().store),
    {
        self.pixels.entries()
    }

    /// The smallest region that holds every pixel of the canvas.
    pub fn region(&self) -> (region: PixelRegion)
        ensures
            region.bounds(self.history().store.dom()),
    {
        let entries = self.pixels.entries();
        let mut positions: Vec<PixelPosition> = Vec::new();
        let mut i: usize = 0;
        while i < entries.len()
            invariant
                i <= entries.len(),
                positions@.len() == i,
                forall|k: int| 0 <= k < i ==> positions@[k] == entries@[k].position,
            decreases entries.len() - i,
        {
            positions.push(entries[i].position);
            i += 1;
        }
        proof {
            let m = self.history().store;
            assert(positions@.to_set() =~= m.dom()) by {
                assert forall|p: PixelPosition| positions@.to_set().contains(p) == m.dom().contains(
                    p,
                ) by {
                    if positions@.contains(p) {
                        let k = choose|k: int| 0 <= k < positions@.len() && positions@[k] == p;
                        assert(entries@.contains(entries@[k]));
                    }
                    if m.contains_key(p) {
                        let px = Pixel { position: p, color: m[p] };
                        assert(entries@.contains(px));
                        let k = choose|k: int| 0 <= k < entries@.len() && entries@[k] == px;
                        assert(positions@[k] == p);
                    }
                }
            }
        }
        PixelRegion::from_positions(&positions)
    }

    /// The non-negative bounding corner of the canvas.
    pub fn non_neg_right_bottom(&self) -> (c: PixelPosition)
        requires
            self.wf(),
        ensures
            is_non_neg_corner(self.history().store, c),
    {
        self.pixels.non_neg_right_bottom()
    }

    /// How many layers of the height of `frame` the canvas spans: the row
    /// of tiles that the non-negative bounding corner lies in, counted
    /// from one.
    pub fn get_layers(&self, frame: PixelSize) -> (layers: u16)
        requires
            self.wf(),
            frame.height > 0,
        ensures
            forall|c: PixelPosition|
                is_non_neg_corner(self.history().store, c) ==> layers == (c.y as int) / (
                frame.height as int) + 1,
    {
        let corner = self.pixels.non_neg_right_bottom();
        proof {
            lemma_corner_unique(self.history().store, corner);
        }
        let bottom = corner.y as u16;
        (bottom / frame.height) + 1
    }

    /// How many frames of the width of `frame` the canvas spans: the
    /// column of tiles that the non-negative bounding corner lies in,
    /// counted from one.
    pub fn get_frames(&self, frame: PixelSize) -> (frames: u16)
        requires
            self.wf(),
            frame.width > 0,
        ensures
            forall|c: PixelPosition|
                is_non_neg_corner(self.history().store, c) ==> frames == (c.x as int) / (
                frame.width as int) + 1,
    {
        let corner = self.pixels.non_neg_right_bottom();
        proof {
            lemma_corner_unique(self.history().store, corner);
        }
        let right = corner.x as u16;
        (right / frame.width) + 1
    }

    /// The pixels at `positions`, composited from the first up.
    pub fn get_layered_pixel(&self, positions: &Vec<PixelPosition>) -> (color: Option<Rgba>)
        ensures
            color == composite(self.history().store, positions@),
    {
        self.pixels.composite(positions)
    }

    /// The visible color at `position`: the pixels at the positions that
    /// `lower` gives for it, composited from the first up.
    pub fn get_pixel<F: Fn(PixelPosition) -> Vec<PixelPosition>>(
        &self,
        lower: &F,
        position: PixelPosition,
    ) -> (color: Option<Rgba>)
        requires
            call_requires(*lower, (position,)),
        ensures
            sees(self.history().store, *lower, position, color),
    {
        let positions = lower(position);
        self.pixels.composite(&positions)
    }

    /// The color at `position` with its own pixel shown at the alpha
    /// `alpha`: the pixels at the positions that `lower_but_last` gives
    /// for it, composited from the first up, and over them the pixel at
    /// `position` itself with `alpha` in place of its alpha, unless
    /// `alpha` is zero. The canvas stays as it is.
    pub fn get_pixel_with_alpha<F: Fn(PixelPosition) -> Vec<PixelPosition>>(
        &self,
        lower_but_last: &F,
        position: PixelPosition,
        alpha: u8,
    ) -> (color: Option<Rgba>)
        requires
            call_requires(*lower_but_last, (position,)),
        ensures
            exists|below: Option<Rgba>|
                sees(self.history().store, *lower_but_last, position, below) && color
                    == with_alpha(self.history().store, below, position, alpha),
    {
        let positions = lower_but_last(position);
        let below = self.pixels.composite(&positions);
        let color = self.pixels.composite_with_alpha(below, position, alpha);
        proof {
            assert(sees(self.history().store, *lower_but_last, position, below));
        }
        color
    }

    /// The visible pixels of `region`, in row-major order: for each of its
    /// positions the color that `get_pixel` sees there, where it sees
    /// one.
    pub fn get_pixels<F: Fn(PixelPosition) -> Vec<PixelPosition>>(
        &self,
        lower: &F,
        region: PixelRegion,
    ) -> (out: Vec<Pixel>)
        requires
            forall|p: PixelPosition| call_requires(*lower, (p,)),
        ensures
            strictly_sorted(out@),
            forall|i: int|
                0 <= i < out@.len() ==> region.contains((#[trigger] out@[i]).position) && sees(
                    self.history().store,
                    *lower,
                    out@[i].position,
                    Some(out@[i].color),
                ),
            forall|p: PixelPosition|
                region.contains(p) && !has_position(out@, p) ==> sees(
                    self.history().store,
                    *lower,
                    p,
                    None,
                ),
    {
        let mut out: Vec<Pixel> = Vec::new();
        let ghost m = self.history().store;
        let mut y: i32 = region.start.y as i32;
        while y <= region.end.y as i32
            invariant
                region.start.y <= y,
                y <= region.end.y + 1 || out@.len() == 0,
                m == self.history().store,
                forall|p: PixelPosition| call_requires(*lower, (p,)),
                strictly_sorted(out@),
                forall|i: int|
                    0 <= i < out@.len() ==> (#[trigger] out@[i]).position.y < y && region.contains(
                        out@[i].position,
                    ) && sees(m, *lower, out@[i].position, Some(out@[i].color)),
                forall|p: PixelPosition|
                    region.contains(p) && p.y < y && !has_position(out@, p) ==> sees(
                        m,
                        *lower,
                        p,
                        None,
                    ),
            decreases region.end.y + 1 - y,
        {
            let mut x: i32 = region.start.x as i32;
            while x <= region.end.x as i32
                invariant
                    region.start.y <= y <= region.end.y,
                    region.start.x <= x,
                    m == self.history().store,
                    forall|p: PixelPosition| call_requires(*lower, (p,)),
                    strictly_sorted(out@),
                    forall|i: int|
                        0 <= i < out@.len() ==> ((#[trigger] out@[i]).position.y < y || (
                        out@[i].position.y == y && out@[i].position.x < x)) && region.contains(
                            out@[i].position,
                        ) && sees(m, *lower, out@[i].position, Some(out@[i].color)),
                    forall|p: PixelPosition|
                        region.contains(p) && (p.y < y || (p.y == y && p.x < x)) && !has_position(
                            out@,
                            p,
                        ) ==> sees(m, *lower, p, None),
                decreases region.end.x + 1 - x,
            {
                let p = PixelPosition::from_xy(x as i16, y as i16);
                let ghost was = out@;
                match self.get_pixel(lower, p) {
                    Some(color) => {
                        out.push(Pixel::new(p, color));
                        proof {
                            assert forall|a: int, b: int| 0 <= a < b < out@.len() implies position_lt(
                                out@[a].position,
                                out@[b].position,
                            ) by {
                                assert(out@[a] == was[a]);
                                if b < was.len() {
                                    assert(out@[b] == was[b]);
                                }
                            }
                            assert forall|q: PixelPosition|
                                region.contains(q) && (q.y < y || (q.y == y && q.x < x + 1))
                                    && !has_position(out@, q) implies sees(m, *lower, q, None) by {
                                if q == p {
                                    assert(out@[was.len() as int].position == p);
                                } else if has_position(was, q) {
                                    let i = choose|i: int| 0 <= i < was.len() && was[i].position == q;
                                    assert(out@[i].position == q);
                                }
                            }
                        }
                    },
                    None => {
                        proof {
                            assert(sees(m, *lower, p, None));
                        }
                    },
                }
                x += 1;
            }
            y += 1;
        }
        proof {
            assert forall|p: PixelPosition| region.contains(p) && !has_position(out@, p) implies sees(
                m,
                *lower,
                p,
                None,
            ) by {
                assert(p.y < y);
            }
        }
        out
    }

    /// The colors on the canvas, each once, in the order in which the
    /// pixels in row-major order first show them.
    pub fn get_colors(&self) -> (colors: Vec<Rgba>)
        ensures
            colors@ == first_colors(entries_of(self.history().store)),
    {
        let entries = self.pixels.entries();
        let mut colors: Vec<Rgba> = Vec::new();
        let mut seen: HashSet<u32> = HashSet::new();
        let mut i: usize = 0;
        while i < entries.len()
            invariant
                i <= entries.len(),
                colors@ == first_colors(entries@.take(i as int)),
                forall|c: Rgba| seen@.contains(packed(c)) <==> colors@.contains(c),
            decreases entries.len() - i,
        {
            let color = entries[i].color;
            let key = pack(color);
            proof {
                assert(entries@.take(i + 1).drop_last() =~= entries@.take(i as int));
            }
            if !seen.contains(&key) {
                let ghost was = colors@;
                seen.insert(key);
                colors.push(color);
                proof {
                    assert forall|c: Rgba| seen@.contains(packed(c)) <==> colors@.contains(c) by {
                        if was.contains(c) {
                            let k = choose|k: int| 0 <= k < was.len() && was[k] == c;
                            assert(colors@[k] == c);
                        }
                        if c == color {
                            assert(colors@[was.len() as int] == c);
                        }
                        if colors@.contains(c) {
                            let k = choose|k: int| 0 <= k < colors@.len() && colors@[k] == c;
                            if k < was.len() {
                                assert(was[k] == c);
                            }
                        }
                    }
                }
            }
            i += 1;
        }
        proof {
            assert(entries@.take(i as int) =~= entries@);
        }
        colors
    }
}

impl PixelCanvasModel {
    /// The pixels of the canvas as plain bytes. The log and the count of
    /// edits are not written. Refused where the pixels are more than a
    /// 32-bit count can tell.
    pub fn encode(&self) -> (r: Result<Vec<u8>, CanvasError>)
        ensures
            match r {
                Ok(bytes) => entries_of(self.history().store).len() <= u32::MAX && bytes@
                    == canvas_bytes(entries_of(self.history().store)),
                Err(e) => entries_of(self.history().store).len() > u32::MAX && e
                    == CanvasError::EncodeFailure,
            },
    {
        let entries = self.pixels.entries();
        encode_canvas(&entries)
    }

    /// The canvas that the plain bytes `raw` hold. Bytes that are not a
    /// whole canvas are refused.
    pub fn decode(raw: &Vec<u8>) -> (r: Result<PixelCanvasModel, CanvasError>)
        ensures
            match read_canvas(raw@) {
                Some(d) => r matches Ok(model) && model.wf() && model.history() == restored(d)
                    && model.dirty() == Set::<PixelPosition>::empty(),
                None => r matches Err(e) && e == CanvasError::DecodeFailure,
            },
    {
        match decode_canvas(raw) {
            Some((log, tail, pixels)) => {
                let model = PixelCanvasModel {
                    command_log: log,
                    command_log_tail: tail,
                    pixels: Pixels::from_pixels(&pixels),
                    dirty_positions: BTreeSet::new(),
                    state_version: 0,
                };
                proof {
                    assert(model.dirty() =~= Set::<PixelPosition>::empty());
                }
                Ok(model)
            },
            None => Err(CanvasError::DecodeFailure),
        }
    }

    /// The pixels of the canvas as one compressed block: the stream that
    /// the encoder makes of the plain bytes of the canvas, which
    /// decompresses to them. More pixels than a 32-bit count can tell are
    /// refused, and so is what the encoder reports an error on.
    pub fn serialize(&self) -> (r: Result<Vec<u8>, CanvasError>)
        ensures
            match compressed_canvas(self.history().store) {
                Some(data) => r matches Ok(out) && out@ == data && inflated(out@) == Some(
                    canvas_bytes(entries_of(self.history().store)),
                ),
                None => r matches Err(e) && e == CanvasError::EncodeFailure,
            },
    {
        match self.encode() {
            Ok(raw) => compress(&raw),
            Err(e) => Err(e),
        }
    }

    /// The canvas that the compressed block `data` holds. A block that
    /// does not decompress, or does not decompress to a whole canvas, is
    /// refused.
    pub fn deserialize(data: &Vec<u8>) -> (r: Result<PixelCanvasModel, CanvasError>)
        ensures
            match inflated(data@) {
                Some(raw) => match read_canvas(raw) {
                    Some(d) => r matches Ok(model) && model.wf() && model.history() == restored(d)
                        && model.dirty() == Set::<PixelPosition>::empty(),
                    None => r matches Err(e) && e == CanvasError::DecodeFailure,
                },
                None => r matches Err(e) && e == CanvasError::DecodeFailure,
            },
    {
        match decompress(data) {
            Ok(raw) => PixelCanvasModel::decode(&raw),
            Err(e) => Err(e),
        }
    }
}

/// A map has one non-negative bounding corner only.
pub proof fn lemma_corner_unique(m: PixelMap, c: PixelPosition)
    requires
        is_non_neg_corner(m, c),
    ensures
        forall|d: PixelPosition| is_non_neg_corner(m, d) ==> d == c,
{
    assert forall|d: PixelPosition| is_non_neg_corner(m, d) implies d == c by {
        if d.x > 0 {
            let p = choose|p: PixelPosition| m.contains_key(p) && p.non_negative() && p.x == d.x;
            assert(p.x <= c.x);
        }
        if c.x > 0 {
            let p = choose|p: PixelPosition| m.contains_key(p) && p.non_negative() && p.x == c.x;
            assert(p.x <= d.x);
        }
        if d.y > 0 {
            let p = choose|p: PixelPosition| m.contains_key(p) && p.non_negative() && p.y == d.y;
            assert(p.y <= c.y);
        }
        if c.y > 0 {
            let p = choose|p: PixelPosition| m.contains_key(p) && p.non_negative() && p.y == c.y;
            assert(p.y <= d.y);
        }
    }
}

/// The bytes of the pixels of a well-formed store are read back as the
/// same store: every position has the color it had, and so the
/// non-negative bounding corner is the one it was.
pub proof fn law_decode_encode(m: PixelMap)
    requires
        store_wf(m),
        entries_of(m).len() <= u32::MAX,
    ensures
        read_canvas(canvas_bytes(entries_of(m))) matches Some(d) && restored(d) == (History {
            store: m,
            log: Seq::<CommandView>::empty(),
            tail: 0,
            version: 0,
        }),
        forall|c: PixelPosition|
            is_non_neg_corner(m, c) <==> is_non_neg_corner(
                restored(read_canvas(canvas_bytes(entries_of(m))).unwrap()).store,
                c,
            ),
{
    lemma_canvas_round_trip(entries_of(m));
    lemma_store_from_entries(m);
}

/// A block that decompresses to the bytes of the pixels of a well-formed
/// store is read back as the same store.
pub proof fn law_deserialize_serialize(m: PixelMap, data: Seq<u8>)
    requires
        store_wf(m),
        entries_of(m).len() <= u32::MAX,
        inflated(data) == Some(canvas_bytes(entries_of(m))),
    ensures
        inflated(data) matches Some(raw) && read_canvas(raw) matches Some(d) && restored(d).store
            == m,
{
    law_decode_encode(m);
}

} // verus!
