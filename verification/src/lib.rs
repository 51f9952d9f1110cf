//! Distribution shuffling: partition named piles of items into equal-sized
//! packs, spreading each pile as evenly as possible while letting a
//! per-pile fraction of its items be redistributed uniformly at random.

pub mod distribution_shuffle;
pub mod laws;
pub mod output;
pub mod request;
pub mod rng;
pub mod seeding;
pub mod seq_sums;
