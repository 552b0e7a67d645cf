use korome::{events_after_close, InputEvent, InputState};

#[test]
fn press_then_release_tracks_key() {
    let mut state = InputState::new();
    let u = state.update(&vec![InputEvent::KeyPressed(17)]).unwrap();
    assert!(u.is_down(&17));
    assert!(!u.is_down(&18));
    assert_eq!(u.keyevents, vec![(true, 17)]);
    let u = state.update(&vec![InputEvent::KeyReleased(17)]).unwrap();
    assert!(!u.is_down(&17));
    assert_eq!(u.keyevents, vec![(false, 17)]);
}

#[test]
fn key_events_keep_their_order() {
    let mut state = InputState::new();
    let events = vec![
        InputEvent::KeyPressed(5),
        InputEvent::MouseMoved(1, 2),
        InputEvent::Other,
        InputEvent::KeyReleased(5),
        InputEvent::KeyPressed(7),
    ];
    let u = state.update(&events).unwrap();
    assert_eq!(u.keyevents, vec![(true, 5), (false, 5), (true, 7)]);
    assert_eq!(u.mousepos, (1, 2));
    assert!(u.is_down(&7));
    assert!(!u.is_down(&5));
}

#[test]
fn latest_mouse_move_wins() {
    let mut state = InputState::new();
    assert_eq!(state.mousepos(), (0, 0));
    let u = state
        .update(&vec![InputEvent::MouseMoved(3, 4), InputEvent::MouseMoved(-10, 20)])
        .unwrap();
    assert_eq!(u.mousepos, (-10, 20));
    let u = state.update(&vec![InputEvent::KeyPressed(1)]).unwrap();
    assert_eq!(u.mousepos, (-10, 20));
}

#[test]
fn closed_stops_the_frame() {
    let mut state = InputState::new();
    let events = vec![
        InputEvent::KeyPressed(5),
        InputEvent::Closed,
        InputEvent::KeyPressed(7),
    ];
    assert!(state.update(&events).is_none());
    assert!(state.is_down(5));
    assert!(!state.is_down(7));
}

#[test]
fn empty_frame_changes_nothing() {
    let mut state = InputState::new();
    state.update(&vec![InputEvent::KeyPressed(9), InputEvent::MouseMoved(2, 2)]);
    let u = state.update(&Vec::new()).unwrap();
    assert!(u.keyevents.is_empty());
    assert!(u.is_down(&9));
    assert_eq!(u.mousepos, (2, 2));
}

#[test]
fn repeated_press_keeps_key_down_once_released() {
    let mut state = InputState::new();
    let u = state
        .update(&vec![InputEvent::KeyPressed(3), InputEvent::KeyPressed(3), InputEvent::KeyReleased(3)])
        .unwrap();
    assert!(!u.is_down(&3));
    assert_eq!(u.keyevents, vec![(true, 3), (true, 3), (false, 3)]);
}

#[test]
fn release_without_press_is_recorded() {
    let mut state = InputState::new();
    let u = state.update(&vec![InputEvent::KeyReleased(42)]).unwrap();
    assert_eq!(u.keyevents, vec![(false, 42)]);
    assert!(!u.is_down(&42));
}

#[test]
fn split_batches_match_one_batch() {
    let a = vec![InputEvent::KeyPressed(1), InputEvent::MouseMoved(5, 6)];
    let b = vec![InputEvent::KeyPressed(2), InputEvent::KeyReleased(1)];
    let mut split = InputState::new();
    let mut keys = split.update(&a).unwrap().keyevents;
    keys.extend(split.update(&b).unwrap().keyevents);
    let mut whole = InputState::new();
    let mut all = a.clone();
    all.extend(b.clone());
    let u = whole.update(&all).unwrap();
    assert_eq!(u.keyevents, keys);
    assert_eq!(u.mousepos, split.mousepos());
    for k in 0..4u32 {
        assert_eq!(u.is_down(&k), split.is_down(k));
    }
}

#[test]
fn handle_event_applies_one_event() {
    let mut state = InputState::new();
    state.handle_event(InputEvent::KeyPressed(11));
    assert!(state.is_down(11));
    state.handle_event(InputEvent::Closed);
    assert!(state.is_down(11));
    state.handle_event(InputEvent::KeyReleased(11));
    assert!(!state.is_down(11));
    state.handle_event(InputEvent::MouseMoved(7, -7));
    assert_eq!(state.mousepos(), (7, -7));
}

#[test]
fn update_getters_match_fields() {
    let mut state = InputState::new();
    let u = state
        .update(&vec![InputEvent::KeyPressed(4), InputEvent::MouseMoved(8, 9)])
        .unwrap();
    assert_eq!(u.keyevents(), &vec![(true, 4)]);
    assert_eq!(u.mousepos(), (8, 9));
    assert_eq!(u.keyevents(), &u.keyevents);
    assert_eq!(u.mousepos(), u.mousepos);
}

#[test]
fn other_events_change_nothing() {
    let plain = vec![
        InputEvent::KeyPressed(1),
        InputEvent::MouseMoved(3, 3),
        InputEvent::KeyReleased(1),
        InputEvent::KeyPressed(2),
    ];
    let padded = vec![
        InputEvent::Other,
        InputEvent::KeyPressed(1),
        InputEvent::Other,
        InputEvent::Other,
        InputEvent::MouseMoved(3, 3),
        InputEvent::KeyReleased(1),
        InputEvent::Other,
        InputEvent::KeyPressed(2),
        InputEvent::Other,
    ];
    let mut a = InputState::new();
    let mut b = InputState::new();
    let ua = a.update(&plain).unwrap();
    let ub = b.update(&padded).unwrap();
    assert_eq!(ua.keyevents, ub.keyevents);
    assert_eq!(ua.mousepos, ub.mousepos);
    for k in 0..4u32 {
        assert_eq!(ua.is_down(&k), ub.is_down(&k));
    }
}

#[test]
fn other_events_before_close_change_nothing() {
    let mut a = InputState::new();
    let mut b = InputState::new();
    let plain = vec![InputEvent::KeyPressed(6), InputEvent::Closed, InputEvent::KeyPressed(7)];
    let padded = vec![
        InputEvent::KeyPressed(6),
        InputEvent::Other,
        InputEvent::Closed,
        InputEvent::Other,
        InputEvent::KeyPressed(7),
    ];
    assert!(a.update(&plain).is_none());
    assert!(b.update(&padded).is_none());
    for k in 5..8u32 {
        assert_eq!(a.is_down(k), b.is_down(k));
    }
    assert_eq!(a.mousepos(), b.mousepos());
}

#[test]
fn events_after_close_are_left_queued() {
    let events = vec![
        InputEvent::KeyPressed(1),
        InputEvent::Closed,
        InputEvent::KeyPressed(2),
        InputEvent::Closed,
        InputEvent::MouseMoved(1, 1),
    ];
    assert_eq!(
        events_after_close(&events),
        vec![InputEvent::KeyPressed(2), InputEvent::Closed, InputEvent::MouseMoved(1, 1)]
    );
    assert!(events_after_close(&vec![InputEvent::KeyPressed(1)]).is_empty());
    assert!(events_after_close(&vec![InputEvent::Closed]).is_empty());
}
