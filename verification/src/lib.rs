//! A guess-the-kanji puzzle engine.
//!
//! Given a corpus of characters and two-character compound words, the engine
//! selects a target character and a set of hint words so that the target is
//! the unique character consistent with all guaranteed hints.

pub mod data;
pub mod score;
pub mod search;
pub mod rng;
pub mod sample;
pub mod generate;
pub mod config;
pub mod api;
