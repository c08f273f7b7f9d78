//! A solver for fixed-length word-guessing puzzles.
//!
//! The solver tracks, for each letter position, the set of letters still
//! admissible there, plus a set of letters known to occur somewhere in the
//! secret word. It filters a candidate vocabulary against those constraints
//! and ranks guesses by a letter-frequency heuristic. A separate feedback
//! oracle scores a guess against a secret with the standard two-pass
//! duplicate-letter rule.

pub mod laws;
pub mod letters;
pub mod oracle;
pub mod scoring;
pub mod solver;
