use pocket_knife::gamepad::{Button, Gamepad, State};
use pocket_knife::interact::{apply_interact_values, interact_changed, interact_read, Interact};

#[test]
fn gamepad_edge_detection() {
    let mut pad = Gamepad::default();
    assert_eq!(pad.state(Button::A), State::Idle);

    // A is bit 4
    pad.update(1 << 4);
    assert_eq!(pad.state(Button::A), State::Pressed);
    assert_eq!(pad.state(Button::B), State::Idle);

    pad.update(1 << 4);
    assert_eq!(pad.state(Button::A), State::Held);

    pad.update(0);
    assert_eq!(pad.state(Button::A), State::Released);

    pad.update(0);
    assert_eq!(pad.state(Button::A), State::Idle);
}

#[test]
fn gamepad_bit_order() {
    let mut pad = Gamepad::default();
    pad.update(0b0000_0000_0000_0001);
    assert_eq!(pad.state(Button::Up), State::Pressed);
    assert_eq!(pad.state(Button::Start), State::Idle);

    pad.update(0b1000_0000_0000_0000);
    assert_eq!(pad.state(Button::Up), State::Released);
    assert_eq!(pad.state(Button::Start), State::Pressed);
    assert_eq!(pad.state(Button::Select), State::Idle);
}

#[test]
fn interact_change_reported_once() {
    let mut bank = vec![
        Interact { value: 3, changed: true },
        Interact { value: 7, changed: false },
    ];
    assert_eq!(interact_read(&bank, 0), 3);
    assert_eq!(interact_read(&bank, 1), 7);

    assert!(interact_changed(&mut bank, 0));
    // the mark clears on report
    assert!(!interact_changed(&mut bank, 0));
    assert!(!interact_changed(&mut bank, 1));
    // values are untouched by reporting
    assert_eq!(interact_read(&bank, 0), 3);
}

#[test]
fn interact_apply_marks_changes() {
    let mut bank = vec![
        Interact { value: 1, changed: false },
        Interact { value: 2, changed: false },
        Interact { value: 3, changed: true },
    ];
    let fresh = vec![1, 20, 3];
    apply_interact_values(&mut bank, &fresh);

    assert_eq!(bank[0], Interact { value: 1, changed: false });
    assert_eq!(bank[1], Interact { value: 20, changed: true });
    // an unchanged value keeps its existing mark
    assert_eq!(bank[2], Interact { value: 3, changed: true });
}
