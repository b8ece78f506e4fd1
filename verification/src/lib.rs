//! A verified model of a standard deck of playing cards: card values with
//! cyclic rank arithmetic, suits, card lifecycle zones, a 52-card deck,
//! a table of players, and a dealing operation that moves randomly drawn
//! cards from the deck to the players in rotation.

/// Card values, suits, lifecycle zones, cards, and the 52-card deck.
pub mod cards;
/// Players, tables, and the dealing operation.
pub mod player;
