//! Reconstructs a synthetic word that sits closest, by edit distance, to a set
//! of cognate words, by enumerating every letter-frequency-bounded candidate.

pub mod text;
pub mod edit;
pub mod generate;
pub mod search;
pub mod record;
