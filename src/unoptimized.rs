//! An early stand-in for the information-maximising guesser.
pub mod naive;
