//! A verified core for playing and analysing the Wordle word-guessing puzzle.
//!
//! The library computes the per-position feedback a guess earns against a
//! secret word (with Wordle's exact duplicate-letter policy), partitions a
//! candidate set by that feedback, selects the guess with the minimal
//! worst-case surviving-candidate count, drives a solving loop to
//! convergence, and builds the exhaustive decision tree mapping every
//! possible secret to the guess sequence that finds it.

pub mod word;

pub mod feedback;

pub mod seq_facts;

pub mod partition;

pub mod selector;

pub mod game;

pub mod tree;

pub mod parse;
