//! Game rules, sound assembly and score-server logic of Neon Invaders.

pub mod account;
pub mod audio;
pub mod auth;
pub mod board;
pub mod clock;
pub mod error;
pub mod formation;
pub mod laws;
pub mod order;
pub mod profiles;
pub mod rules;
pub mod shots;
pub mod scores;
pub mod sorting;
pub mod store;
pub mod text;
pub mod tokens;
