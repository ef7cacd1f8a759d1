use pixcil::gesture::{
    EventType, GestureEvent, GestureRecognizer, Point, PointerEvent, PointerType, Touch,
    INITIAL_MOVE_THRESHOLD,
};

fn touch(event_type: EventType, id: i32, x: i32, y: i32, is_primary: bool) -> PointerEvent {
    PointerEvent { event_type, x, y, pointer_id: id, pointer_type: PointerType::Touch, is_primary }
}

fn down(id: i32, x: i32, y: i32) -> PointerEvent {
    touch(EventType::Pointerdown, id, x, y, id == 1)
}

fn moved(id: i32, x: i32, y: i32) -> PointerEvent {
    touch(EventType::Pointermove, id, x, y, id == 1)
}

fn up(id: i32, x: i32, y: i32) -> PointerEvent {
    touch(EventType::Pointerup, id, x, y, id == 1)
}

#[test]
fn touch_moves_only_past_its_threshold() {
    let mut finger = Touch::new(down(1, 100, 100));
    assert_eq!(finger.move_threshold, INITIAL_MOVE_THRESHOLD);
    assert_eq!(finger.move_threshold, 10);
    assert!(!finger.moved);
    assert!(finger.is_primary);
    assert!(!finger.set_position(Point { x: 109, y: 91 }));
    assert_eq!(finger.position, Point { x: 100, y: 100 });
    assert!(!finger.moved);
    assert!(finger.set_position(Point { x: 100, y: 90 }));
    assert_eq!(finger.position, Point { x: 100, y: 90 });
    assert_eq!(finger.last_position, Point { x: 100, y: 100 });
    assert!(finger.moved);
    assert!(finger.set_position(Point { x: i32::MIN, y: 90 }));
    assert_eq!(finger.last_position, Point { x: 100, y: 90 });
}

#[test]
fn mouse_events_are_not_gestures() {
    let mut recognizer = GestureRecognizer::new();
    let mut event = down(1, 0, 0);
    event.pointer_type = PointerType::Mouse;
    assert_eq!(recognizer.handle_event(event), (None, false));
    event.pointer_type = PointerType::Pen;
    event.event_type = EventType::Pointerup;
    assert_eq!(recognizer.handle_event(event), (None, false));
    // No finger went down, so no tap comes of a finger going up.
    assert_eq!(recognizer.handle_event(up(1, 0, 0)), (None, true));
}

#[test]
fn one_finger_tap() {
    let mut recognizer = GestureRecognizer::new();
    assert_eq!(recognizer.handle_event(down(1, 5, 5)), (None, true));
    assert_eq!(recognizer.handle_event(moved(1, 8, 9)), (None, true));
    assert_eq!(recognizer.handle_event(up(1, 8, 9)), (Some(GestureEvent::Tap), true));
    // The next tap starts afresh.
    assert_eq!(recognizer.handle_event(down(1, 5, 5)), (None, true));
    assert_eq!(recognizer.handle_event(up(2, 5, 5)), (None, true));
    let mut cancel = up(1, 5, 5);
    cancel.event_type = EventType::Pointercancel;
    assert_eq!(recognizer.handle_event(cancel), (Some(GestureEvent::Tap), true));
}

#[test]
fn two_finger_tap() {
    let mut recognizer = GestureRecognizer::new();
    recognizer.handle_event(down(1, 5, 5));
    recognizer.handle_event(down(2, 50, 5));
    assert_eq!(recognizer.handle_event(up(1, 5, 5)), (None, true));
    assert_eq!(recognizer.handle_event(up(2, 50, 5)), (Some(GestureEvent::TwoFingerTap), true));
}

#[test]
fn three_fingers_mean_nothing() {
    let mut recognizer = GestureRecognizer::new();
    recognizer.handle_event(down(1, 0, 0));
    recognizer.handle_event(down(2, 50, 0));
    recognizer.handle_event(down(3, 90, 0));
    assert_eq!(recognizer.handle_event(moved(3, 190, 0)), (None, true));
    recognizer.handle_event(up(1, 0, 0));
    recognizer.handle_event(up(2, 50, 0));
    assert_eq!(recognizer.handle_event(up(3, 190, 0)), (None, true));
}

#[test]
fn one_finger_swipe() {
    let mut recognizer = GestureRecognizer::new();
    recognizer.handle_event(down(1, 100, 100));
    assert_eq!(recognizer.handle_event(moved(1, 105, 100)), (None, true));
    assert_eq!(
        recognizer.handle_event(moved(1, 112, 97)),
        (Some(GestureEvent::Swipe { delta: Point { x: 12, y: -3 } }), true)
    );
    // Once the swipe is under way every move counts.
    assert_eq!(
        recognizer.handle_event(moved(1, 113, 97)),
        (Some(GestureEvent::Swipe { delta: Point { x: 1, y: 0 } }), true)
    );
    assert_eq!(
        recognizer.handle_event(moved(1, 113, 97)),
        (Some(GestureEvent::Swipe { delta: Point { x: 0, y: 0 } }), true)
    );
    // A swipe is no tap.
    assert_eq!(recognizer.handle_event(up(1, 113, 97)), (None, true));
    recognizer.handle_event(down(1, 0, 0));
    assert_eq!(recognizer.handle_event(up(1, 0, 0)), (Some(GestureEvent::Tap), true));
}

#[test]
fn swipe_is_held_within_range() {
    let mut recognizer = GestureRecognizer::new();
    recognizer.handle_event(down(1, i32::MIN, i32::MAX));
    assert_eq!(
        recognizer.handle_event(moved(1, i32::MAX, i32::MIN)),
        (Some(GestureEvent::Swipe { delta: Point { x: i32::MAX, y: i32::MIN } }), true)
    );
}

#[test]
fn two_finger_swipe_follows_the_primary_finger() {
    let mut recognizer = GestureRecognizer::new();
    recognizer.handle_event(down(2, 200, 100));
    recognizer.handle_event(down(1, 100, 100));
    // One finger alone has moved: nothing yet.
    assert_eq!(recognizer.handle_event(moved(2, 200, 120)), (None, true));
    assert_eq!(
        recognizer.handle_event(moved(1, 100, 130)),
        (Some(GestureEvent::TwoFingerSwipe { delta: Point { x: 0, y: 30 } }), true)
    );
    // Only the first swipe of the two fingers is told.
    assert_eq!(recognizer.handle_event(moved(2, 200, 140)), (None, true));
    recognizer.handle_event(up(1, 100, 130));
    assert_eq!(recognizer.handle_event(up(2, 200, 140)), (None, true));
}

#[test]
fn pinch_tells_how_the_distance_grew() {
    let mut recognizer = GestureRecognizer::new();
    recognizer.handle_event(down(1, 100, 100));
    recognizer.handle_event(down(2, 200, 100));
    assert_eq!(recognizer.handle_event(moved(1, 80, 100)), (None, true));
    // The places the fingers moved from are 100 apart, the places they
    // are at now 140.
    assert_eq!(
        recognizer.handle_event(moved(2, 220, 100)),
        (Some(GestureEvent::Pinch { delta: Point { x: 40, y: 0 } }), true)
    );
    // A pinch makes the fingers slower: 15 is not a move any more.
    assert_eq!(recognizer.handle_event(moved(1, 65, 100)), (None, true));
    assert_eq!(
        recognizer.handle_event(moved(1, 60, 100)),
        (Some(GestureEvent::Pinch { delta: Point { x: 40, y: 0 } }), true)
    );
    // Moving the same way is no pinch, and no swipe once a pinch is
    // under way.
    assert_eq!(recognizer.handle_event(moved(2, 190, 100)), (None, true));
    recognizer.handle_event(up(2, 190, 100));
    assert_eq!(recognizer.handle_event(up(1, 60, 100)), (None, true));
}

#[test]
fn finger_going_down_twice_starts_over() {
    let mut recognizer = GestureRecognizer::new();
    recognizer.handle_event(down(1, 0, 0));
    recognizer.handle_event(down(1, 500, 500));
    assert_eq!(recognizer.handle_event(moved(1, 505, 505)), (None, true));
    assert_eq!(recognizer.handle_event(up(1, 505, 505)), (Some(GestureEvent::Tap), true));
}
