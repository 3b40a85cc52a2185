//! What the game is doing, read off its console log.
pub mod hero_data;
pub mod log_parser;
pub mod patterns;
pub mod phases;
pub mod signals;
pub mod state;
