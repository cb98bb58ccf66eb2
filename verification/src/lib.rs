//! Rules engine for multi-player Texas Hold'em: hand evaluation, the betting
//! round state machine and the side-pot ledger, with machine-checked contracts.

pub mod game;
pub mod message_utils;
pub mod messages;
pub mod types;
pub mod utils;
