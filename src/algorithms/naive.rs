//! The baseline strategy: the same word every turn.
use vstd::prelude::*;

use crate::game::{Guess, Guesser};
use crate::Word;

verus! {

/// The word the baseline strategy always submits.
pub const WHICH: Word = [119u8, 104u8, 105u8, 99u8, 104u8];

/// A guesser that always submits `WHICH`.
pub struct Naive;

impl Guesser for Naive {
    open spec fn may_guess(&self, past: Seq<Guess>, w: Word) -> bool {
        w == WHICH
    }

    open spec fn accepts(&self, past: Seq<Guess>) -> bool {
        true
    }

    open spec fn synced(&self, past: Seq<Guess>) -> bool {
        true
    }

    fn guess(&mut self, past_guesses: &[Guess]) -> (r: Word) {
        WHICH
    }
}

} // verus!
