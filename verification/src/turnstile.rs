//! A two-state turnstile: a coin unlocks it, a push locks it again.

use vstd::prelude::*;

verus! {

#[derive(Debug, Clone, Copy, PartialEq, Eq, Structural)]
pub enum State {
    Locked,
    Unlocked,
}

#[derive(Debug, Clone, Copy, PartialEq, Eq, Structural)]
pub enum Event {
    Coin,
    Push,
}

/// The transition table, one row per state: for either state a coin leads to
/// `Unlocked` and a push to `Locked`.
pub open spec fn spec_next_state(state: State, event: Event) -> State {
    match event {
        Event::Coin => State::Unlocked,
        Event::Push => State::Locked,
    }
}

/// The name of a state.
pub fn state_to_str(state: &State) -> (r: &'static str)
    ensures
        r@ == match state {
            State::Locked => "Locked"@,
            State::Unlocked => "Unlocked"@,
        },
{
    match state {
        State::Locked => "Locked",
        State::Unlocked => "Unlocked",
    }
}

/// The state with the given row number in the transition table.
fn usize_to_state(state: usize) -> (r: State)
    requires
        state < 2,
    ensures
        r == if state == 0 {
            State::Locked
        } else {
            State::Unlocked
        },
{
    match state {
        0 => State::Locked,
        _ => State::Unlocked,
    }
}

/// Step the turnstile by one event.
pub fn next_state(state: State, event: Event) -> (r: State)
    ensures
        r == spec_next_state(state, event),
{
    let row: usize = match event {
        Event::Coin => 1,
        Event::Push => 0,
    };
    usize_to_state(row)
}

} // verus!
