//! Pointer events as the host reports them, and the gestures that the
//! touches among them make.

use vstd::prelude::*;
use vstd::std_specs::iter::IteratorSpec;
use std::collections::HashMap;

verus! {

broadcast use vstd::std_specs::hash::group_hash_axioms;

/// What happened to a pointer.
#[derive(Debug, Clone, Copy, PartialEq, Eq, Structural)]
pub enum EventType {
    Pointerdown,
    Pointermove,
    Pointerup,
    Pointercancel,
    Pointerout,
    Pointerleave,
}

/// The device behind a pointer.
#[derive(Debug, Clone, Copy, PartialEq, Eq, Structural)]
pub enum PointerType {
    Mouse,
    Pen,
    Touch,
    Other,
}

/// A place on the screen, or the way between two places.
#[derive(Debug, Clone, Copy, PartialEq, Eq, Structural, Default)]
pub struct Point {
    pub x: i32,
    pub y: i32,
}

/// One event of one pointer, at a place on the screen.
#[derive(Debug, Clone, Copy, PartialEq, Eq, Structural)]
pub struct PointerEvent {
    pub event_type: EventType,
    pub x: i32,
    pub y: i32,
    pub pointer_id: i32,
    pub pointer_type: PointerType,
    pub is_primary: bool,
}

/// What a pointer event means to a mouse: a press, a move, or a release.
#[derive(Debug, Clone, Copy, PartialEq, Eq, Structural)]
pub enum MouseAction {
    Down,
    Move,
    Up,
}

impl PointerEvent {
    /// The place of the event.
    pub open spec fn place(self) -> Point {
        Point { x: self.x, y: self.y }
    }

    /// The place of the event.
    pub fn position(&self) -> (at: Point)
        ensures
            at == self.place(),
    {
        Point { x: self.x, y: self.y }
    }

    /// Moves the event to the place `at`.
    pub fn set_position(&mut self, at: Point)
        ensures
            *final(self) == (PointerEvent { x: at.x, y: at.y, ..*old(self) }),
    {
        self.x = at.x;
        self.y = at.y;
    }

    /// The event as a mouse sees it: a pointer going down is a press, a
    /// moving pointer a move, and every other event a release.
    pub fn to_mouse_event(self) -> (action: (MouseAction, Point))
        ensures
            action.1 == self.place(),
            action.0 == match self.event_type {
                EventType::Pointerdown => MouseAction::Down,
                EventType::Pointermove => MouseAction::Move,
                _ => MouseAction::Up,
            },
    {
        let at = self.position();
        match self.event_type {
            EventType::Pointerdown => (MouseAction::Down, at),
            EventType::Pointermove => (MouseAction::Move, at),
            _ => (MouseAction::Up, at),
        }
    }
}

/// What the touches on the screen mean.
#[derive(Debug, Clone, Copy, PartialEq, Eq, Structural)]
pub enum GestureEvent {
    /// One finger went down and up without moving.
    Tap,
    /// Two fingers went down and up without moving.
    TwoFingerTap,
    /// One finger moved by `delta`.
    Swipe { delta: Point },
    /// Two fingers moved the same way; `delta` is the way of one of them.
    TwoFingerSwipe { delta: Point },
    /// Two fingers moved apart or together; `delta` is how much the
    /// distance between them grew on each axis.
    Pinch { delta: Point },
}

/// How far a finger has to move before the move counts.
pub const INITIAL_MOVE_THRESHOLD: i32 = 10;

/// One finger on the screen.
#[derive(Debug, Clone, Copy, PartialEq, Eq, Structural)]
pub struct Touch {
    pub position: Point,
    pub last_position: Point,
    pub is_primary: bool,
    pub moved: bool,
    pub move_threshold: i32,
}

/// `v` held within the 32-bit range.
pub open spec fn held(v: int) -> i32 {
    if v > i32::MAX {
        i32::MAX
    } else if v < i32::MIN {
        i32::MIN
    } else {
        v as i32
    }
}

/// The distance between `a` and `b` on a line.
pub open spec fn distance(a: int, b: int) -> int {
    if a >= b {
        a - b
    } else {
        b - a
    }
}

/// The way from `from` to `to`, each axis held within the 32-bit range.
pub open spec fn way(from: Point, to: Point) -> Point {
    Point { x: held(to.x - from.x), y: held(to.y - from.y) }
}

/// The distance between `a` and `b` on each axis, held within the 32-bit
/// range.
pub open spec fn spread(a: Point, b: Point) -> Point {
    Point { x: held(distance(a.x as int, b.x as int)), y: held(distance(a.y as int, b.y as int)) }
}

/// A finger that has just gone down.
pub open spec fn new_touch(event: PointerEvent) -> Touch {
    Touch {
        position: event.place(),
        last_position: event.place(),
        is_primary: event.is_primary,
        moved: false,
        move_threshold: INITIAL_MOVE_THRESHOLD,
    }
}

/// Whether going to `to` is a move of the finger: on one axis at least it
/// is as far as the threshold of the finger.
pub open spec fn counts_as_move(t: Touch, to: Point) -> bool {
    distance(to.x as int, t.position.x as int) >= t.move_threshold || distance(
        to.y as int,
        t.position.y as int,
    ) >= t.move_threshold
}

/// The finger after a move to `to`.
pub open spec fn moved_to(t: Touch, to: Point) -> Touch {
    Touch { position: to, last_position: t.position, moved: true, ..t }
}

/// What the recognizer knows: the fingers on the screen by their pointer;
/// the most fingers there were at a time since the screen was free; and
/// the gesture under way.
pub struct GestureState {
    pub touches: Map<i32, Touch>,
    pub max_touches: nat,
    pub recognized: Option<GestureEvent>,
}

/// Whether two ways point the same way on one axis at least.
pub open spec fn same_direction(a: Point, b: Point) -> bool {
    (a.x > 0 && b.x > 0) || (a.x < 0 && b.x < 0) || (a.y > 0 && b.y > 0) || (a.y < 0 && b.y < 0)
}

impl GestureState {
    /// Where two fingers are on the screen, `first` and `second` are
    /// their pointers, in one order or the other.
    pub open spec fn walks(self, first: i32, second: i32) -> bool {
        self.touches.len() == 2 ==> first != second && self.touches.contains_key(first)
            && self.touches.contains_key(second)
    }

    /// A finger goes down: it is taken among the fingers, in place of an
    /// older one of its pointer if there is one.
    pub open spec fn down(self, event: PointerEvent) -> GestureState {
        let touches = self.touches.insert(event.pointer_id, new_touch(event));
        GestureState {
            touches,
            max_touches: if touches.len() > self.max_touches {
                touches.len()
            } else {
                self.max_touches
            },
            recognized: self.recognized,
        }
    }

    /// What two fingers that have both moved mean, with the finger
    /// `first` looked at before the finger `second`: a swipe if they go
    /// the same way and no gesture is under way, else a pinch if none but
    /// a pinch is under way. The swipe goes the way of the first finger if
    /// that is the primary one, else the way of the second. A pinch makes
    /// both fingers slower to move.
    pub open spec fn two_fingers(self, first: i32, second: i32) -> (
        GestureState,
        Option<GestureEvent>,
    ) {
        let t0 = self.touches[first];
        let t1 = self.touches[second];
        let d0 = way(t0.last_position, t0.position);
        let d1 = way(t1.last_position, t1.position);
        if !(t0.moved && t1.moved) {
            (self, None)
        } else if same_direction(d0, d1) {
            if self.recognized is Some {
                (self, None)
            } else {
                let gesture = GestureEvent::TwoFingerSwipe {
                    delta: if t0.is_primary {
                        d0
                    } else {
                        d1
                    },
                };
                (GestureState { recognized: Some(gesture), ..self }, Some(gesture))
            }
        } else if !(self.recognized is None || self.recognized->0 is Pinch) {
            (self, None)
        } else {
            let before = spread(t0.last_position, t1.last_position);
            let after = spread(t0.position, t1.position);
            let gesture = GestureEvent::Pinch {
                delta: Point { x: (after.x - before.x) as i32, y: (after.y - before.y) as i32 },
            };
            let slow = 2 * INITIAL_MOVE_THRESHOLD;
            (
                GestureState {
                    touches: self.touches.insert(
                        first,
                        Touch { move_threshold: slow as i32, ..t0 },
                    ).insert(second, Touch { move_threshold: slow as i32, ..t1 }),
                    recognized: Some(gesture),
                    ..self
                },
                Some(gesture),
            )
        }
    }

    /// A finger moves. A move that is too short, or of an unknown
    /// pointer, means nothing. One finger alone swipes, unless another
    /// gesture is under way, and from then on every move of it counts.
    /// Two fingers swipe or pinch. More fingers mean nothing.
    pub open spec fn moves(self, event: PointerEvent, first: i32, second: i32) -> (
        GestureState,
        Option<GestureEvent>,
    ) {
        if !self.touches.contains_key(event.pointer_id) {
            (self, None)
        } else {
            let t = self.touches[event.pointer_id];
            if !counts_as_move(t, event.place()) {
                (self, None)
            } else {
                let t = moved_to(t, event.place());
                let state = GestureState {
                    touches: self.touches.insert(event.pointer_id, t),
                    ..self
                };
                if self.touches.len() == 1 {
                    if !(self.recognized is None || self.recognized->0 is Swipe) {
                        (state, None)
                    } else {
                        let gesture = GestureEvent::Swipe { delta: way(t.last_position, t.position) };
                        (
                            GestureState {
                                touches: self.touches.insert(
                                    event.pointer_id,
                                    Touch { move_threshold: 0, ..t },
                                ),
                                recognized: Some(gesture),
                                ..self
                            },
                            Some(gesture),
                        )
                    }
                } else if self.touches.len() == 2 {
                    state.two_fingers(first, second)
                } else {
                    (state, None)
                }
            }
        }
    }

    /// A finger goes up. When it was the last one, the gesture under way
    /// ends; if there was none, the fingers tapped: one finger, or two.
    pub open spec fn up(self, event: PointerEvent) -> (GestureState, Option<GestureEvent>) {
        if !self.touches.contains_key(event.pointer_id) {
            (self, None)
        } else {
            let touches = self.touches.remove(event.pointer_id);
            if touches.len() > 0 {
                (GestureState { touches, ..self }, None)
            } else {
                (
                    GestureState { touches, max_touches: 0, recognized: None },
                    if self.recognized is Some {
                        None
                    } else if self.max_touches == 1 {
                        Some(GestureEvent::Tap)
                    } else if self.max_touches == 2 {
                        Some(GestureEvent::TwoFingerTap)
                    } else {
                        None
                    },
                )
            }
        }
    }

    /// What an event makes of the state, and the gesture it completes,
    /// where two fingers are looked at as `first` and `second`. Only
    /// touches are looked at.
    pub open spec fn step(self, event: PointerEvent, first: i32, second: i32) -> (
        GestureState,
        Option<GestureEvent>,
    ) {
        if event.pointer_type != PointerType::Touch {
            (self, None)
        } else {
            match event.event_type {
                EventType::Pointerdown => (self.down(event), None),
                EventType::Pointermove => self.moves(event, first, second),
                _ => self.up(event),
            }
        }
    }
}

fn held_difference(to: i32, from: i32) -> (d: i32)
    ensures
        d == held(to - from),
{
    let v = to as i64 - from as i64;
    if v > i32::MAX as i64 {
        i32::MAX
    } else if v < i32::MIN as i64 {
        i32::MIN
    } else {
        v as i32
    }
}

fn held_distance(a: i32, b: i32) -> (d: i32)
    ensures
        d == held(distance(a as int, b as int)),
        d >= 0,
{
    let v = if a >= b {
        a as i64 - b as i64
    } else {
        b as i64 - a as i64
    };
    if v > i32::MAX as i64 {
        i32::MAX
    } else {
        v as i32
    }
}

fn way_between(from: Point, to: Point) -> (d: Point)
    ensures
        d == way(from, to),
{
    Point { x: held_difference(to.x, from.x), y: held_difference(to.y, from.y) }
}

fn spread_between(a: Point, b: Point) -> (d: Point)
    ensures
        d == spread(a, b),
        d.x >= 0,
        d.y >= 0,
{
    Point { x: held_distance(a.x, b.x), y: held_distance(a.y, b.y) }
}

impl Touch {
    /// A finger that has just gone down.
    pub fn new(event: PointerEvent) -> (touch: Touch)
        ensures
            touch == new_touch(event),
    {
        Touch {
            position: event.position(),
            last_position: event.position(),
            is_primary: event.is_primary,
            moved: false,
            move_threshold: INITIAL_MOVE_THRESHOLD,
        }
    }

    /// Moves the finger to `position` if that is far enough, and says
    /// whether it moved.
    pub fn set_position(&mut self, position: Point) -> (moved: bool)
        ensures
            moved == counts_as_move(*old(self), position),
            *final(self) == if moved {
                moved_to(*old(self), position)
            } else {
                *old(self)
            },
    {
        let dx = if position.x >= self.position.x {
            position.x as i64 - self.position.x as i64
        } else {
            self.position.x as i64 - position.x as i64
        };
        let dy = if position.y >= self.position.y {
            position.y as i64 - self.position.y as i64
        } else {
            self.position.y as i64 - position.y as i64
        };
        if dx < self.move_threshold as i64 && dy < self.move_threshold as i64 {
            return false;
        }
        self.last_position = self.position;
        self.position = position;
        self.moved = true;
        true
    }
}

/// Makes gestures out of the touches of the pointer events.
#[derive(Debug)]
pub struct GestureRecognizer {
    touches: HashMap<i32, Touch>,
    max_touches: usize,
    recognized_gesture: Option<GestureEvent>,
}

impl View for GestureRecognizer {
    type V = GestureState;

    closed spec fn view(&self) -> GestureState {
        GestureState {
            touches: self.touches@,
            max_touches: self.max_touches as nat,
            recognized: self.recognized_gesture,
        }
    }
}

impl GestureRecognizer {
    /// A recognizer with no finger on the screen.
    pub fn new() -> (recognizer: GestureRecognizer)
        ensures
            recognizer@ == (GestureState {
                touches: Map::<i32, Touch>::empty(),
                max_touches: 0,
                recognized: None,
            }),
    {
        GestureRecognizer { touches: HashMap::new(), max_touches: 0, recognized_gesture: None }
    }

    /// Takes one pointer event. Says which gesture the event completes, if
    /// any, and whether the event was a touch and is used up. Where two
    /// fingers are on the screen, either may be the one looked at first.
    pub fn handle_event(&mut self, event: PointerEvent) -> (r: (Option<GestureEvent>, bool))
        ensures
            exists|first: i32, second: i32|
                {
                    &&& old(self)@.walks(first, second)
                    &&& final(self)@ == (#[trigger] old(self)@.step(event, first, second)).0
                    &&& r.0 == old(self)@.step(event, first, second).1
                },
            r.1 == (event.pointer_type == PointerType::Touch),
    {
        let ghost mut walk = (0i32, 0i32);
        proof {
            walk = self.lemma_walk();
        }
        let r = match event.pointer_type {
            PointerType::Touch => {
                match event.event_type {
                    EventType::Pointerdown => {
                        self.handle_pointer_down(event);
                        (None, true)
                    },
                    EventType::Pointermove => {
                        let (gesture, Ghost(found)) = self.handle_pointer_move(event);
                        proof {
                            walk = found;
                        }
                        (gesture, true)
                    },
                    _ => (self.handle_pointer_up(event), true),
                }
            },
            _ => (None, false),
        };
        proof {
            assert(old(self)@.walks(walk.0, walk.1));
            assert(self@ == old(self)@.step(event, walk.0, walk.1).0);
            assert(r.0 == old(self)@.step(event, walk.0, walk.1).1);
        }
        r
    }

    /// The fingers on the screen can be looked at in some order.
    proof fn lemma_walk(&self) -> (w: (i32, i32))
        ensures
            self@.walks(w.0, w.1),
    {
        let m = self.touches@;
        if m.len() == 2 {
            let a = m.dom().choose();
            assert(m.dom().remove(a).len() == 1);
            let b = m.dom().remove(a).choose();
            assert(m.dom().remove(a).contains(b));
            (a, b)
        } else {
            (0, 0)
        }
    }

    fn handle_pointer_down(&mut self, pointer: PointerEvent)
        ensures
            final(self)@ == old(self)@.down(pointer),
    {
        self.touches.insert(pointer.pointer_id, Touch::new(pointer));
        if self.touches.len() > self.max_touches {
            self.max_touches = self.touches.len();
        }
    }

    fn handle_pointer_move(&mut self, pointer: PointerEvent) -> (r: (
        Option<GestureEvent>,
        Ghost<(i32, i32)>,
    ))
        ensures
            old(self)@.walks(r.1@.0, r.1@.1),
            final(self)@ == old(self)@.moves(pointer, r.1@.0, r.1@.1).0,
            r.0 == old(self)@.moves(pointer, r.1@.0, r.1@.1).1,
    {
        let n = self.touches.len();
        let ghost mut any = (0i32, 0i32);
        proof {
            any = self.lemma_walk();
        }
        let mut touch = match self.touches.get(&pointer.pointer_id) {
            Some(touch) => *touch,
            None => {
                return (None, Ghost(any));
            },
        };
        if !touch.set_position(pointer.position()) {
            return (None, Ghost(any));
        }
        self.touches.insert(pointer.pointer_id, touch);
        proof {
            assert(self.touches@.dom() =~= old(self).touches@.dom());
        }
        if n == 1 {
            match self.recognized_gesture {
                None | Some(GestureEvent::Swipe { .. }) => {},
                _ => {
                    return (None, Ghost(any));
                },
            }
            let delta = way_between(touch.last_position, touch.position);
            touch.move_threshold = 0;
            self.touches.insert(pointer.pointer_id, touch);
            self.recognized_gesture = Some(GestureEvent::Swipe { delta });
            proof {
                assert(self.touches@ =~= old(self).touches@.insert(pointer.pointer_id, touch));
            }
            return (self.recognized_gesture, Ghost(any));
        } else if n != 2 {
            return (None, Ghost(any));
        }
        self.decide_two_finger_gesture()
    }

    fn handle_pointer_up(&mut self, pointer: PointerEvent) -> (gesture: Option<GestureEvent>)
        ensures
            final(self)@ == old(self)@.up(pointer).0,
            gesture == old(self)@.up(pointer).1,
    {
        if self.touches.remove(&pointer.pointer_id).is_none() {
            proof {
                assert(self.touches@ =~= old(self).touches@);
            }
            return None;
        }
        if self.touches.len() > 0 {
            return None;
        }
        let gesture = self.recognized_gesture;
        self.recognized_gesture = None;
        let max_touches = self.max_touches;
        self.max_touches = 0;
        if gesture.is_some() {
            return None;
        }
        if max_touches == 1 {
            Some(GestureEvent::Tap)
        } else if max_touches == 2 {
            Some(GestureEvent::TwoFingerTap)
        } else {
            None
        }
    }

    /// The pointers of the fingers on the screen, in the order in which
    /// the map hands them out.
    fn pointers(&self) -> (out: Vec<i32>)
        ensures
            out@.to_set() == self.touches@.dom(),
            out@.no_duplicates(),
            out@.len() == self.touches@.len(),
    {
        let mut out: Vec<i32> = Vec::new();
        for k in it: self.touches.keys()
            invariant
                it.seq() == self.touches.keys().remaining(),
                out@.len() == it.index(),
                forall|i: int| 0 <= i < out.len() ==> out@[i] == *it.seq()[i],
        {
            out.push(*k);
        }
        proof {
            assert(out@ =~= self.touches.keys().remaining().unref());
            out@.unique_seq_to_set();
        }
        out
    }

    fn decide_two_finger_gesture(&mut self) -> (r: (Option<GestureEvent>, Ghost<(i32, i32)>))
        requires
            old(self).touches@.len() == 2,
        ensures
            old(self)@.walks(r.1@.0, r.1@.1),
            final(self)@ == old(self)@.two_fingers(r.1@.0, r.1@.1).0,
            r.0 == old(self)@.two_fingers(r.1@.0, r.1@.1).1,
    {
        let ids = self.pointers();
        let id0 = ids[0];
        let id1 = ids[1];
        proof {
            assert(ids@.to_set().contains(ids@[0]));
            assert(ids@.to_set().contains(ids@[1]));
            assert(ids@[0] != ids@[1]);
        }
        let walk = Ghost((id0, id1));
        let mut t0 = match self.touches.get(&id0) {
            Some(touch) => *touch,
            None => {
                return (None, walk);
            },
        };
        let mut t1 = match self.touches.get(&id1) {
            Some(touch) => *touch,
            None => {
                return (None, walk);
            },
        };
        if !(t0.moved && t1.moved) {
            return (None, walk);
        }
        let d0 = way_between(t0.last_position, t0.position);
        let d1 = way_between(t1.last_position, t1.position);
        if (d0.x > 0 && d1.x > 0) || (d0.x < 0 && d1.x < 0) || (d0.y > 0 && d1.y > 0) || (d0.y < 0
            && d1.y < 0) {
            if self.recognized_gesture.is_some() {
                return (None, walk);
            }
            let delta = if t0.is_primary {
                d0
            } else {
                d1
            };
            self.recognized_gesture = Some(GestureEvent::TwoFingerSwipe { delta });
        } else {
            match self.recognized_gesture {
                None | Some(GestureEvent::Pinch { .. }) => {},
                _ => {
                    return (None, walk);
                },
            }
            let before = spread_between(t0.last_position, t1.last_position);
            let after = spread_between(t0.position, t1.position);
            t0.move_threshold = INITIAL_MOVE_THRESHOLD * 2;
            t1.move_threshold = INITIAL_MOVE_THRESHOLD * 2;
            self.touches.insert(id0, t0);
            self.touches.insert(id1, t1);
            let delta = Point { x: after.x - before.x, y: after.y - before.y };
            self.recognized_gesture = Some(GestureEvent::Pinch { delta });
        }
        (self.recognized_gesture, walk)
    }
}

} // verus!
