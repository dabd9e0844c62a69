//! Generates Japanese lyric lines with a first-order Markov chain.
//!
//! A training sequence of tokens (surface text plus two phonetic readings)
//! is turned into a transition model; the model is then walked at random
//! until the accumulated phonetic length of the walked tokens hits a target
//! exactly, or a retry budget runs out.

pub mod chars;
pub mod json;
pub mod lyric;
pub mod markov;
pub mod model;
pub mod morphological_analysis;
mod random;
pub mod walkers_alias_method;
