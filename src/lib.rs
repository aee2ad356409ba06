//! Poker hand ranking: parse textual hands, classify them and pick the winners.

pub mod card;
pub mod category;
pub mod classify;
pub mod winner;

pub use card::{Card, PokerError};
pub use category::HandCategory;
pub use classify::classify;
pub use winner::{winning_hands, Hand};
