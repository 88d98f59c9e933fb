//! A guess for the number-guessing game, guaranteed to lie in 1..=100.

use vstd::prelude::*;

verus! {

/// A validated guess.
pub struct Guess {
    value: i32,
}

impl Guess {
    /// The number guessed.
    pub closed spec fn spec_value(&self) -> int {
        self.value as int
    }

    #[verifier::type_invariant]
    closed spec fn in_range(self) -> bool {
        1 <= self.value <= 100
    }

    /// Wrap a guess; only values from 1 to 100 are meaningful.
    pub fn new(value: i32) -> (r: Self)
        requires
            1 <= value <= 100,
        ensures
            r.spec_value() == value,
    {
        Self { value }
    }

    /// Read the guess back.
    pub fn value(&self) -> (r: i32)
        ensures
            r == self.spec_value(),
            1 <= r <= 100,
    {
        proof {
            use_type_invariant(self);
        }
        self.value
    }
}

} // verus!
