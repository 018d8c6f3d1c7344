use worldrenderer::input::{key_index, wheel_scale, Input, KeyAction, MoveAction, Press, PressAction};

fn press(button: i16, shift: bool) -> Press {
    Press { button, shift, ctrl: false }
}

#[test]
fn keys_have_places() {
    assert_eq!(key_index("KeyW"), Some(0));
    assert_eq!(key_index("ArrowRight"), Some(3));
    assert_eq!(key_index("ShiftRight"), Some(9));
    assert_eq!(key_index("keyw"), None);
}

#[test]
fn the_globe_is_dragged_or_rotated() {
    let mut i = Input::new();
    assert!(i.moved(false, false) == MoveAction::Nothing);
    assert!(i.press(press(0, false), false, false) == PressAction::Grab);
    assert!(i.moved(false, false) == MoveAction::Drag);
    i.release();
    assert!(i.press(press(0, true), false, false) == PressAction::Nothing);
    assert!(i.moved(false, false) == MoveAction::Rotate);
    i.release();
    assert!(i.press(press(2, false), false, false) == PressAction::Nothing);
    assert!(i.moved(false, false) == MoveAction::Rotate);
}

#[test]
fn free_flight_locks_the_pointer() {
    let mut i = Input::new();
    assert!(i.press(press(0, false), true, false) == PressAction::LockPointer);
    assert!(i.moved(true, false) == MoveAction::Look);
    assert!(i.press(press(2, false), true, true) == PressAction::Nothing);
    assert!(i.moved(true, true) == MoveAction::LookLocked);
    assert!(i.moved(true, false) == MoveAction::Nothing);
}

#[test]
fn keys_move_the_camera() {
    let mut i = Input::new();
    assert!(i.apply_keys(true) == KeyAction::Fly { forward: 0, right: 0, up: 0 });
    i.key(0, true);
    i.key(2, true);
    i.key(9, true);
    i.key(5, true);
    assert!(i.apply_keys(true) == KeyAction::Fly { forward: 1, right: -1, up: -1 });
    assert!(i.apply_keys(false) == KeyAction::Walk { forward: 1, right: -1, turn: 1, tilt: 0 });
    i.key(1, true);
    assert!(i.apply_keys(true) == KeyAction::Fly { forward: 0, right: -1, up: -1 });
    i.set_fps();
    assert!(i.apply_keys(true) == KeyAction::Fly { forward: 0, right: 0, up: 0 });
}

#[test]
fn wheels_turn_by_lines_or_pixels() {
    assert_eq!((wheel_scale(0), wheel_scale(1), wheel_scale(2)), (1, 16, 1));
}
