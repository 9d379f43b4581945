//! A verified engine for ranking Wordle guesses.
//!
//! Given a dictionary of candidate words and the running feedback from past
//! guesses, the engine ranks the remaining words by how informative they
//! would be as the next guess and narrows the candidate set as feedback
//! accumulates. The interactive prompt loop, dictionary loading and argument
//! parsing live outside this crate; the library contains the scoring,
//! constraint and filtering logic, each function with a proved contract.

pub mod constraints;
pub mod filter;
pub mod letters;
pub mod scoring;
pub mod session;
