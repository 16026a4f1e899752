//! Keystroke-driven English word completion: word buffer, weighted trie,
//! fuzzy matching and next-word prediction.

pub mod text;
pub mod split;
pub mod number;
pub mod rank;
pub mod order;
pub mod distance;
pub mod trie;
pub mod dictionary;
pub mod next_word;
pub mod config;
pub mod hook;
pub mod state;
pub mod buffer;
pub mod predictor;
pub mod overlay;
pub mod simulate;
pub mod caret;
pub mod tray;
pub mod logger;
pub mod settings;
pub mod candidates;
pub mod control;
