use markview::gestures::{Contact, Gesture, Recognizer, TouchPhase};

fn contact(id: u64) -> Contact {
    Contact { device: 0, finger: id }
}

// `moved` stands for what the caller measured: `None` while the finger stays
// inside the slop circle, `Some(true)` once it left it mostly sideways and
// `Some(false)` once it left it mostly up or down.
const STILL: Option<bool> = None;
const ACROSS: Option<bool> = Some(true);
const DOWN: Option<bool> = Some(false);

#[test]
fn a_tap_tolerates_jitter_but_a_drag_never_activates_on_release() {
    let mut input = Recognizer::new();
    input.begin(contact(1), "link");
    assert_eq!(input.update(contact(1), TouchPhase::Moved, STILL), None);
    assert_eq!(input.update(contact(1), TouchPhase::Ended, STILL), Some(Gesture::Tap("link")));
    input.begin(contact(2), "link");
    assert_eq!(input.update(contact(2), TouchPhase::Moved, DOWN), Some(Gesture::Pan("link", false)));
    // The axis is kept whatever the finger does next.
    assert_eq!(input.update(contact(2), TouchPhase::Moved, ACROSS), Some(Gesture::Pan("link", false)));
    assert_eq!(input.update(contact(2), TouchPhase::Ended, STILL), Some(Gesture::Pan("link", false)));
}

#[test]
fn cancellation_and_additional_fingers_cannot_turn_into_taps() {
    let mut input = Recognizer::new();
    input.begin(contact(1), "close tab");
    assert_eq!(input.update(contact(1), TouchPhase::Cancelled, STILL), None);
    assert_eq!(input.update(contact(1), TouchPhase::Ended, STILL), None);
    input.begin(contact(1), "close tab");
    input.begin(contact(2), "link");
    assert_eq!(input.update(contact(2), TouchPhase::Ended, STILL), None);
    assert_eq!(input.update(contact(1), TouchPhase::Ended, STILL), None);
    input.begin(contact(3), "new tap");
    assert_eq!(input.update(contact(99), TouchPhase::Cancelled, STILL), None);
    assert_eq!(input.update(contact(3), TouchPhase::Ended, STILL), Some(Gesture::Tap("new tap")));
}

#[test]
fn horizontal_drag_keeps_its_captured_surface_and_includes_release_motion() {
    let mut input = Recognizer::new();
    input.begin(contact(1), "wide table");
    assert_eq!(input.update(contact(1), TouchPhase::Moved, ACROSS), Some(Gesture::Pan("wide table", true)));
    assert_eq!(input.update(contact(1), TouchPhase::Ended, DOWN), Some(Gesture::Pan("wide table", true)));
    assert!(input.contacts.is_empty());
    assert!(input.drag.is_none());
}

#[test]
fn additional_contacts_cancel_the_tap_and_drag() {
    let mut input = Recognizer::new();
    input.begin(contact(1), "first");
    input.begin(contact(2), "second");
    assert_eq!(input.update(contact(2), TouchPhase::Moved, DOWN), None);
    assert_eq!(input.update(contact(2), TouchPhase::Ended, DOWN), None);
    assert_eq!(input.update(contact(1), TouchPhase::Moved, DOWN), None);
    assert_eq!(input.update(contact(1), TouchPhase::Ended, DOWN), None);
    assert!(input.contacts.is_empty());
}
