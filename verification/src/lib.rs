//! A solver for Pyramid Solitaire.
//!
//! A deal is a 28-card triangle (seven rows, apex on top) plus a 24-card draw
//! pile. Two cards may be removed together when their ranks sum to thirteen; a
//! King is removed alone. A triangle cell becomes playable (a "leaf") once the
//! cells below it are gone. The library models the board state, enumerates the
//! legal moves in a fixed deterministic order, and searches for a sequence of
//! moves that clears the triangle (or, in clear-all mode, the whole deck).

use vstd::prelude::*;

pub mod blocks;
pub mod board;
pub mod gen;
pub mod moves;
pub mod solver;
pub mod utils;
pub mod validators;

pub use board::Board;
pub use moves::{move_sort, Move};
pub use solver::simulate_games;
pub use utils::{parse_board, parse_verbosity, Verbosity};
pub use validators::validate_board;


verus! {

/// A physical card. The value is in `0..52`: the rank is `value % 13 + 1`
/// (1 is an Ace, 13 a King), and `value / 13` distinguishes the four copies
/// of one rank.
#[derive(Debug, PartialEq, Eq, Hash, Clone, Copy, PartialOrd, Ord, Structural)]
pub struct RawCard(pub u8);

/// A card rank alone: 1 (Ace) up to 13 (King).
#[derive(Debug, PartialEq, Eq, Hash, Clone, Copy, PartialOrd, Ord, Structural)]
pub struct Card(pub u8);

/// Where the cards of a move come from: both from the triangle, one from the
/// triangle and one from the pile, or both from the pile. The declaration
/// order is the priority order used when sorting moves.
#[derive(Debug, PartialEq, Eq, Hash, Copy, Clone, PartialOrd, Ord, Structural)]
pub enum MatchType {
    Board,
    BoardStack,
    Stack,
}

impl From<RawCard> for Card {
    fn from(raw_card: RawCard) -> (r: Self) {
        Card(crate::utils::card_from_raw(raw_card.0))
    }
}

impl vstd::std_specs::convert::FromSpecImpl<RawCard> for Card {
    open spec fn obeys_from_spec() -> bool {
        true
    }

    open spec fn from_spec(raw_card: RawCard) -> Self {
        Card(crate::utils::spec_rank(raw_card.0))
    }
}

} // verus!
