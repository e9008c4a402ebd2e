//! A Magic: The Gathering bot-against-bot simulation engine.

pub mod call_laws;
pub mod card_laws;
pub mod cards;
pub mod combat;
pub mod combat_laws;
pub mod config;
pub mod deck_laws;
pub mod decks;
pub mod game_laws;
pub mod games;
pub mod laws;
pub mod model_laws;
pub mod play_laws;
pub mod players;
pub mod ranking;
pub mod report;
pub mod seen;
pub mod spells;
pub mod text;
pub mod text_laws;
pub mod turns;
pub mod yard;
pub mod yard_laws;
