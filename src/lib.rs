//! Rules engine for a suit-keyed Canasta variant: cards, melds, players,
//! the per-turn state machine and the pack-claim protocol.
pub mod card;
pub mod errors;
pub mod meld;
pub mod player;
pub mod deck;
pub mod game;
pub mod messages;
pub mod session;
pub mod setup;
