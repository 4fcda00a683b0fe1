//! A solver for five-letter word puzzles: word codes, the feedback engine,
//! a lookup cache of consistent triples, and the guess scorer.

pub mod cache;
pub mod guess;
pub mod response;
pub mod solver;
pub mod word;
