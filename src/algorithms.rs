//! Guessing strategies.
pub mod naive;
pub mod unoptimized;
