use auto_claw::ability::AbilityClass;
use auto_claw::buffer::DoubleBuffer;
use auto_claw::direction::Direction;
use auto_claw::input::{detect_input, key_action, KeyAction, PressedKeys};

#[test]
fn new_holds_nothing() {
    let keys = PressedKeys::new();
    assert!(!keys.holds(65));
    assert_eq!(keys.actions(), vec![KeyAction::Nothing; 16]);
}

#[test]
fn press_takes_first_free_slot() {
    let mut keys = PressedKeys::new();
    keys.press(65);
    keys.press(83);
    let a = keys.actions();
    assert_eq!(a[0], KeyAction::Move(Direction::West));
    assert_eq!(a[1], KeyAction::Move(Direction::South));
    assert_eq!(a[2], KeyAction::Nothing);
}

#[test]
fn pressing_twice_holds_once() {
    let mut keys = PressedKeys::new();
    keys.press(68);
    keys.press(68);
    let a = keys.actions();
    assert_eq!(a[0], KeyAction::Move(Direction::East));
    assert_eq!(a[1], KeyAction::Nothing);
}

#[test]
fn release_frees_the_slot() {
    let mut keys = PressedKeys::new();
    keys.press(65);
    keys.press(87);
    keys.release(65);
    assert!(!keys.holds(65));
    assert!(keys.holds(87));
    let a = keys.actions();
    assert_eq!(a[0], KeyAction::Nothing);
    assert_eq!(a[1], KeyAction::Move(Direction::North));
    keys.press(69);
    assert_eq!(keys.actions()[0], KeyAction::Activate(AbilityClass::Normal));
}

#[test]
fn press_then_release_restores() {
    let mut keys = PressedKeys::new();
    keys.press(10);
    let before = keys.actions();
    keys.press(65);
    keys.release(65);
    assert_eq!(keys.actions(), before);
}

#[test]
fn full_slots_drop_new_keys() {
    let mut keys = PressedKeys::new();
    for k in 1..=16u8 {
        keys.press(k);
    }
    keys.press(65);
    assert!(!keys.holds(65));
    assert!(keys.holds(16));
}

#[test]
fn pointer_events_change_no_key() {
    let mut keys = PressedKeys::new();
    keys.handle_event(0, 65);
    for kind in [1u8, 2, 3, 4, 9] {
        keys.handle_event(kind, 65);
    }
    assert!(keys.holds(65));
    keys.handle_event(5, 65);
    assert!(!keys.holds(65));
}

#[test]
fn key_bindings() {
    assert_eq!(key_action(0), KeyAction::Nothing);
    assert_eq!(key_action(65), KeyAction::Move(Direction::West));
    assert_eq!(key_action(83), KeyAction::Move(Direction::South));
    assert_eq!(key_action(68), KeyAction::Move(Direction::East));
    assert_eq!(key_action(87), KeyAction::Move(Direction::North));
    assert_eq!(key_action(69), KeyAction::Activate(AbilityClass::Normal));
    assert_eq!(key_action(70), KeyAction::Unbound(70));
}

#[test]
fn input_turn_applies_queued_events() {
    let mut events = DoubleBuffer::new();
    let mut keys = PressedKeys::new();
    events.push((0u8, 65u8));
    events.push((0u8, 83u8));
    events.push((5u8, 65u8));
    let actions = detect_input(&mut events, &mut keys);
    assert!(!events.has_pending());
    assert_eq!(actions[0], KeyAction::Nothing);
    assert_eq!(actions[1], KeyAction::Move(Direction::South));
    let again = detect_input(&mut events, &mut keys);
    assert_eq!(again, actions);
}
