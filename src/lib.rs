//! Turns a plain-text deck list into the object graph of a card-deck save.

pub mod line;
pub mod deck;
pub mod card;
pub mod save;
