//! A small terminal-quiz library: delimited-record parsing with per-line
//! error isolation, a topic catalog, a quiz-session engine with randomized
//! non-repeating question selection, and a persistent leaderboard store.

pub mod choice;
pub mod quiz;
pub(crate) mod rng;
pub mod errors;
pub mod leaderboards;
pub mod loaders;
pub mod num;
pub mod parse;
pub mod text;
pub mod topics;
