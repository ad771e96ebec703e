//! The card model: suits, colors, and ranked cards.

use vstd::prelude::*;

verus! {

/// The four suits of a standard deck, in their fixed enumeration order.
#[derive(Clone, Copy, PartialEq, Eq, Structural, Debug)]
pub enum Suit {
    Spades,
    Hearts,
    Diamonds,
    Clubs,
}

/// A card is either black (spades, clubs) or red (hearts, diamonds).
#[derive(Clone, Copy, PartialEq, Eq, Structural, Debug)]
pub enum Color {
    Black,
    Red,
}

/// Ranks run from 1 (ace) to 13 (king).
pub type Rank = u8;

pub const MAX_RANK: Rank = 13;

/// An immutable playing card: a suit and a rank.
#[derive(Clone, Copy, PartialEq, Eq, Structural, Debug)]
pub struct Card {
    pub rank: Rank,
    pub suit: Suit,
}

/// All four suits, in the fixed enumeration order.
pub open spec fn all_suits() -> Seq<Suit> {
    seq![Suit::Spades, Suit::Hearts, Suit::Diamonds, Suit::Clubs]
}

impl Suit {
    pub open spec fn color_spec(self) -> Color {
        match self {
            Suit::Spades | Suit::Clubs => Color::Black,
            Suit::Hearts | Suit::Diamonds => Color::Red,
        }
    }

    pub fn color(self) -> (c: Color)
        ensures
            c == self.color_spec(),
    {
        match self {
            Suit::Spades | Suit::Clubs => Color::Black,
            Suit::Hearts | Suit::Diamonds => Color::Red,
        }
    }

    /// The four suits in their fixed enumeration order.
    pub fn iterator() -> (suits: Vec<Suit>)
        ensures
            suits@ == all_suits(),
    {
        let suits = vec![Suit::Spades, Suit::Hearts, Suit::Diamonds, Suit::Clubs];
        proof {
            assert(suits@ =~= all_suits());
        }
        suits
    }
}

impl Card {
    /// A card is valid when its rank lies between ace and king.
    pub open spec fn valid(self) -> bool {
        1 <= self.rank <= MAX_RANK
    }

    pub open spec fn color_of(self) -> Color {
        self.suit.color_spec()
    }

    pub fn new(suit: Suit, rank: Rank) -> (c: Card)
        requires
            1 <= rank <= MAX_RANK,
        ensures
            c == (Card { rank, suit }),
            c.valid(),
    {
        Card { rank, suit }
    }

    pub fn suit(&self) -> (s: Suit)
        ensures
            s == self.suit,
    {
        self.suit
    }

    pub fn rank(&self) -> (r: Rank)
        ensures
            r == self.rank,
    {
        self.rank
    }

    pub fn color(&self) -> (c: Color)
        ensures
            c == self.color_of(),
    {
        self.suit.color()
    }
}

} // verus!
