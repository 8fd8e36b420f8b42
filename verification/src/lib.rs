//! Battlegrounds companion: game state, Power.log parsing, the card pool
//! and its tier browser, combat telemetry documents and the overlay's text,
//! each with its contract and proof.

pub mod seq_facts;
pub mod text;
pub mod state;
pub mod logs;
pub mod catalog;
pub mod utc;
pub mod telemetry;
pub mod overlay;
pub mod session;
