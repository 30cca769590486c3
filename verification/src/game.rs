pub mod evil_hangman_game;
pub mod families;
pub mod letters;
pub mod text;
