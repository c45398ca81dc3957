//! Controller edge detection.
//!
//! The host polls a 16-bit button word each frame, one bit per button.
//! [`Gamepad`] keeps the two most recent samples and classifies each
//! button as idle, freshly pressed, freshly released, or held, so the
//! caller can turn raw polling into key events.

use vstd::prelude::*;

verus! {

/// One physical button of the handheld controller, in the bit order of
/// the controller's button word.
#[derive(Debug, Clone, Copy, PartialEq, Eq, Structural)]
pub enum Button {
    Up,
    Down,
    Left,
    Right,
    A,
    B,
    X,
    Y,
    L1,
    R1,
    L2,
    R2,
    L3,
    R3,
    Select,
    Start,
}

/// What a button did between the two most recent polls.
#[derive(Debug, Clone, Copy, PartialEq, Eq, Structural)]
pub enum State {
    Idle,
    Pressed,
    Released,
    Held,
}

/// The button's bit position in the controller's button word.
pub open spec fn button_bit(b: Button) -> u16 {
    match b {
        Button::Up => 0,
        Button::Down => 1,
        Button::Left => 2,
        Button::Right => 3,
        Button::A => 4,
        Button::B => 5,
        Button::X => 6,
        Button::Y => 7,
        Button::L1 => 8,
        Button::R1 => 9,
        Button::L2 => 10,
        Button::R2 => 11,
        Button::L3 => 12,
        Button::R3 => 13,
        Button::Select => 14,
        Button::Start => 15,
    }
}

/// Whether the button word marks this button as down.
pub open spec fn spec_down(bits: u16, b: Button) -> bool {
    (bits >> button_bit(b)) & 1 == 1
}

/// The state a button is in after samples `last` and `current`.
pub open spec fn spec_state(last: u16, current: u16, b: Button) -> State {
    if !spec_down(last, b) && !spec_down(current, b) {
        State::Idle
    } else if !spec_down(last, b) && spec_down(current, b) {
        State::Pressed
    } else if spec_down(last, b) && !spec_down(current, b) {
        State::Released
    } else {
        State::Held
    }
}

/// Test one button's bit in a button word.
fn is_down(bits: u16, b: Button) -> (r: bool)
    ensures
        r == spec_down(bits, b),
{
    let bit: u16 = match b {
        Button::Up => 0,
        Button::Down => 1,
        Button::Left => 2,
        Button::Right => 3,
        Button::A => 4,
        Button::B => 5,
        Button::X => 6,
        Button::Y => 7,
        Button::L1 => 8,
        Button::R1 => 9,
        Button::L2 => 10,
        Button::R2 => 11,
        Button::L3 => 12,
        Button::R3 => 13,
        Button::Select => 14,
        Button::Start => 15,
    };
    (bits >> bit) & 1 == 1
}

/// The two most recent samples of the controller's button word.
#[derive(Debug, Clone, Copy, PartialEq, Eq, Structural)]
pub struct Gamepad {
    last: u16,
    current: u16,
}

impl Gamepad {
    /// The older of the two samples.
    pub closed spec fn spec_last(&self) -> u16 {
        self.last
    }

    /// The newer of the two samples.
    pub closed spec fn spec_current(&self) -> u16 {
        self.current
    }

    /// Take a fresh sample of the button word; the sample before it is
    /// kept for edge detection.
    pub fn update(&mut self, bits: u16)
        ensures
            final(self).spec_last() == old(self).spec_current(),
            final(self).spec_current() == bits,
    {
        self.last = self.current;
        self.current = bits;
    }

    /// Classify one button over the two most recent samples.
    pub fn state(&self, button: Button) -> (s: State)
        ensures
            s == spec_state(self.spec_last(), self.spec_current(), button),
    {
        match (is_down(self.last, button), is_down(self.current, button)) {
            (false, false) => State::Idle,
            (false, true) => State::Pressed,
            (true, false) => State::Released,
            (true, true) => State::Held,
        }
    }
}

impl Default for Gamepad {
    /// A gamepad that has seen no buttons down.
    fn default() -> (g: Gamepad)
        ensures
            g.spec_last() == 0,
            g.spec_current() == 0,
    {
        Gamepad { last: 0, current: 0 }
    }
}

} // verus!
