//! A verified flashcard library: a deck of question/answer cards with
//! per-card review statistics, a canonical textual persistence format
//! with a proved load/save round trip, and the decision logic of an
//! interactive quiz session.

pub mod deck;
pub mod codec;
pub mod quiz;
