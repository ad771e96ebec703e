//! A King Albert solitaire engine: a board model that enforces move
//! legality and detects victory, plus a randomized search for shuffles
//! that are winnable at all.

pub mod board;
pub mod card;
pub mod deck;
pub mod location;
pub mod solver;
pub mod victory_state;
