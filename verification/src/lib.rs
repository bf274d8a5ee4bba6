//! Rule engine for a card-matching game family played over an 81-card deck.
//!
//! Every card is a vector of four features with three values each, so the
//! deck is isomorphic to a four-dimensional vector space over the field with
//! three elements. The engine encodes cards compactly, decides whether a
//! group of cards is a valid match, enumerates matches within a subset of
//! the deck, and repairs a stuck deal by doctoring the stock.

pub mod card;
pub mod config;
pub mod deck;
pub mod find;
pub mod pair_iter;
pub mod rules;
pub mod shuffle;
pub mod table;
pub mod utils;

