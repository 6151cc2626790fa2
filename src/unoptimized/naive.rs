//! A first cut of the information-maximising guesser that only ever
//! submits one fixed word.
use vstd::prelude::*;

use crate::algorithms::naive::WHICH;
use crate::algorithms::unoptimized::FrequencyTable;
use crate::game::{Dictionary, Guess, Guesser};
use crate::Word;

verus! {

/// Holds the legal words and the weighted candidates, and submits `WHICH`.
pub struct Unoptimized<'l> {
    dictionary: &'l Dictionary,
    remaining: FrequencyTable,
}

impl<'l> Unoptimized<'l> {
    /// A guesser over the given dictionary and weighted candidates.
    pub fn new(dictionary: &'l Dictionary, remaining: FrequencyTable) -> (r: Self)
        ensures
            r.dictionary() == dictionary@,
            r.remaining() == remaining@,
    {
        Unoptimized { dictionary, remaining }
    }

    pub closed spec fn dictionary(&self) -> Set<Word> {
        self.dictionary@
    }

    pub closed spec fn remaining(&self) -> Seq<(Word, u64)> {
        self.remaining@
    }
}

impl<'l> Guesser for Unoptimized<'l> {
    open spec fn may_guess(&self, past: Seq<Guess>, w: Word) -> bool {
        w == WHICH
    }

    open spec fn accepts(&self, past: Seq<Guess>) -> bool {
        true
    }

    open spec fn synced(&self, past: Seq<Guess>) -> bool {
        true
    }

    fn guess(&mut self, past_guesses: &[Guess]) -> (r: Word) {
        WHICH
    }
}

} // verus!
