//! An n-gram Markov model of word sequences: a table of weighted transitions,
//! the normalisation of training text, training, and sentence generation.

pub mod chain;
pub mod draw;
pub mod laws;
pub mod model;
pub mod text;
