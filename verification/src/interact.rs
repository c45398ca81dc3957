//! Tunable runtime parameters ("interacts").
//!
//! The host exposes a small bank of numeric parameters that can change
//! while the application runs.  Each parameter carries a changed mark
//! that is raised when a new value arrives and cleared when the change is
//! reported, so the application reacts to each change exactly once.

use vstd::prelude::*;

verus! {

/// One tunable parameter: its current value, and whether it changed
/// since the change was last reported.
#[derive(Debug, Clone, Copy, PartialEq, Eq, Structural)]
pub struct Interact {
    pub value: u32,
    pub changed: bool,
}

/// Read one parameter's value without touching its changed mark.
pub fn interact_read(bank: &Vec<Interact>, interact_id: usize) -> (v: u32)
    requires
        interact_id < bank@.len(),
    ensures
        v == bank@[interact_id as int].value,
{
    bank[interact_id].value
}

/// Report whether the parameter changed since the last report, and clear
/// the mark, so the next report sees only a fresh change.
pub fn interact_changed(bank: &mut Vec<Interact>, interact_id: usize) -> (r: bool)
    requires
        interact_id < old(bank)@.len(),
    ensures
        r == old(bank)@[interact_id as int].changed,
        final(bank)@ == old(bank)@.update(
            interact_id as int,
            Interact { value: old(bank)@[interact_id as int].value, changed: false },
        ),
{
    let r = bank[interact_id].changed;
    let value = bank[interact_id].value;
    bank.set(interact_id, Interact { value, changed: false });
    r
}

/// Merge freshly loaded values into the bank: a parameter whose value
/// differs takes the new value and is marked changed; an unchanged one
/// keeps its value and its mark.
#[verifier::loop_isolation(false)]
pub fn apply_interact_values(bank: &mut Vec<Interact>, new_values: &Vec<u32>)
    requires
        old(bank)@.len() == new_values@.len(),
    ensures
        final(bank)@.len() == old(bank)@.len(),
        forall|k: int|
            0 <= k < final(bank)@.len() ==> final(bank)@[k] == (if old(bank)@[k].value
                == new_values@[k] {
                old(bank)@[k]
            } else {
                Interact { value: new_values@[k], changed: true }
            }),
{
    let ghost start = bank@;
    let mut i: usize = 0;
    while i < bank.len()
        invariant
            i <= start.len(),
            bank@.len() == start.len(),
            forall|k: int| i <= k < start.len() ==> #[trigger] bank@[k] == start[k],
            forall|k: int|
                0 <= k < i ==> #[trigger] bank@[k] == (if start[k].value == new_values@[k] {
                    start[k]
                } else {
                    Interact { value: new_values@[k], changed: true }
                }),
        decreases start.len() - i,
    {
        if bank[i].value != new_values[i] {
            bank.set(i, Interact { value: new_values[i], changed: true });
        }
        i = i + 1;
    }
}

} // verus!
