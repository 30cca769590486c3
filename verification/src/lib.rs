//! An "evil" hangman game: the computer never commits to a secret word, and
//! after every guess keeps the largest family of words that stays consistent
//! with what it has revealed so far.

pub mod game;
pub mod session;
