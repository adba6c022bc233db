//! The Twilight Imperium 4 rules engine: the verified core.

pub mod text;
pub mod choice;
pub mod state;
pub mod tokens;
pub mod rng;
pub mod dice;
pub mod transit;
pub mod transactions;
pub mod synergy;
pub mod seating;
pub mod timing;
pub mod emission;
pub mod supply;
pub mod technology;
pub mod tech_windows;
pub mod status;
pub mod thunders_edge;
pub mod strategy_cards;
pub mod research;
pub mod sucaban;
pub mod secrets;
pub mod strategy;
pub mod tactical;
pub mod space_stations;
pub mod rules;
pub mod setup;
