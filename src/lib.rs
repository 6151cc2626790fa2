//! A Wordle simulator with a verified scoring engine, game loop and
//! information-maximising guesser.
use vstd::prelude::*;

pub mod algorithms;
pub mod game;
pub mod scoring;
pub mod unoptimized;

pub use algorithms::naive::Naive;
pub use algorithms::unoptimized::{FrequencyTable, InformationMeasure, Unoptimized};
pub use game::{Dictionary, Guess, Guesser, RepresentableAsWord, Wordle};
pub use scoring::{Correctness, Mask};

verus! {

/// Number of letters in every word.
pub const WORD_SIZE: usize = 5;

/// A word is a fixed-length sequence of bytes.
pub type Word = [u8; WORD_SIZE];

/// Wordle allows six guesses; a game here allows more, so that the full
/// spread of a weak strategy's scores can be observed.
pub const TRIES_BEFORE_LOSS: usize = 32;

} // verus!
