//! The three location variants and their capability rules: foundations
//! build ascending runs of one suit, columns build descending runs of
//! alternating color, and hand spots only surrender their single card.

use vstd::prelude::*;

use crate::card::{Card, Rank, Suit, MAX_RANK};

verus! {

/// A per-suit pile built strictly ascending from the ace; only the top
/// rank is stored, since the cards below it are determined.
#[derive(Clone)]
pub struct Foundation {
    pub suit: Suit,
    pub top_rank: Option<Rank>,
}

impl Foundation {
    pub open spec fn wf(self) -> bool {
        match self.top_rank {
            Option::Some(r) => 1 <= r <= MAX_RANK,
            Option::None => true,
        }
    }

    /// The only rank this foundation will take next.
    pub open spec fn next_rank_spec(self) -> int {
        match self.top_rank {
            Option::Some(r) => r + 1,
            Option::None => 1,
        }
    }

    pub open spec fn can_receive_spec(self, card: Card) -> bool {
        card.suit == self.suit && card.rank == self.next_rank_spec()
    }

    pub open spec fn can_give_spec(self) -> bool {
        false
    }

    pub open spec fn active_card_spec(self) -> Option<Card> {
        match self.top_rank {
            Option::Some(r) => Option::Some(Card { rank: r, suit: self.suit }),
            Option::None => Option::None,
        }
    }

    pub fn new(suit: Suit) -> (f: Foundation)
        ensures
            f == (Foundation { suit, top_rank: Option::<Rank>::None }),
    {
        Foundation { suit, top_rank: None }
    }

    pub fn next_rank(&self) -> (r: Rank)
        requires
            self.wf(),
        ensures
            r == self.next_rank_spec(),
    {
        match self.top_rank {
            Some(r) => r + 1,
            None => 1,
        }
    }

    pub fn can_receive(&self, card: &Card) -> (b: bool)
        requires
            self.wf(),
        ensures
            b == self.can_receive_spec(*card),
    {
        card.suit() == self.suit && card.rank() == self.next_rank()
    }

    /// Put the next ascending card of this suit on top.
    pub fn receive(&mut self, card: Card)
        requires
            old(self).wf(),
            card.valid(),
            old(self).can_receive_spec(card),
        ensures
            *final(self) == (Foundation {
                suit: old(self).suit,
                top_rank: Option::Some(card.rank),
            }),
            final(self).wf(),
    {
        self.top_rank = Some(card.rank());
    }

    pub fn can_give_card(&self) -> (b: bool)
        ensures
            b == self.can_give_spec(),
    {
        false
    }

    /// Take the top card back off the pile. The capability exists for
    /// symmetry with the other variants, but `can_give_card` is always
    /// false, so no permitted movement ever reaches it.
    pub fn give_card(&mut self) -> (c: Card)
        requires
            old(self).wf(),
            old(self).top_rank is Some,
        ensures
            Option::Some(c) == old(self).active_card_spec(),
            final(self).suit == old(self).suit,
            final(self).top_rank == if c.rank == 1 {
                Option::<Rank>::None
            } else {
                Option::Some((c.rank - 1) as Rank)
            },
            final(self).wf(),
            c.valid(),
    {
        let rank = match self.top_rank {
            Some(r) => r,
            None => 1,
        };
        self.top_rank = if rank == 1 {
            None
        } else {
            Some(rank - 1)
        };
        Card::new(self.suit, rank)
    }

    pub fn active_card(&self) -> (c: Option<Card>)
        ensures
            c == self.active_card_spec(),
    {
        match self.top_rank {
            Some(r) => Some(Card { rank: r, suit: self.suit }),
            None => None,
        }
    }
}

/// Foundation rule: an empty foundation of suit S accepts exactly the
/// ace of S; one with top rank r accepts exactly (S, r + 1); it never
/// accepts a card of another suit or any other rank.
pub proof fn lemma_foundation_rule(f: Foundation, c: Card)
    requires
        f.wf(),
        c.valid(),
    ensures
        f.can_receive_spec(c) <==> (c.suit == f.suit && (match f.top_rank {
            Option::None => c.rank == 1,
            Option::Some(r) => c.rank == r + 1,
        })),
{
}

/// The active (topmost) card of a column's card run.
pub open spec fn column_active(cards: Seq<Card>) -> Option<Card> {
    if cards.len() == 0 {
        Option::None
    } else {
        Option::Some(cards.last())
    }
}

/// The column building rule: an empty column accepts anything; a
/// non-empty one only the opposite color, one rank down.
pub open spec fn column_can_receive(cards: Seq<Card>, card: Card) -> bool {
    match column_active(cards) {
        Option::Some(top) => top.color_of() != card.color_of() && top.rank == card.rank + 1,
        Option::None => true,
    }
}

pub open spec fn column_wf(cards: Seq<Card>) -> bool {
    forall|i: int| 0 <= i < cards.len() ==> (#[trigger] cards[i]).valid()
}

/// A tableau pile, held bottom to top; only the top card is active.
#[derive(Clone)]
pub struct Column {
    pub cards: Vec<Card>,
}

impl Column {
    pub open spec fn wf(self) -> bool {
        column_wf(self.cards@)
    }

    pub open spec fn active_card_spec(self) -> Option<Card> {
        column_active(self.cards@)
    }

    pub open spec fn can_receive_spec(self, card: Card) -> bool {
        column_can_receive(self.cards@, card)
    }

    pub open spec fn can_give_spec(self) -> bool {
        self.cards@.len() > 0
    }

    pub fn new() -> (col: Column)
        ensures
            col.cards@ == Seq::<Card>::empty(),
            col.wf(),
    {
        Column { cards: Vec::new() }
    }

    pub fn can_give_card(&self) -> (b: bool)
        ensures
            b == self.can_give_spec(),
    {
        self.cards.len() > 0
    }

    /// Pop the top card.
    pub fn give_card(&mut self) -> (c: Card)
        requires
            old(self).wf(),
            old(self).can_give_spec(),
        ensures
            Option::Some(c) == old(self).active_card_spec(),
            final(self).cards@ == old(self).cards@.drop_last(),
            final(self).wf(),
            c.valid(),
    {
        let c = self.cards.pop().unwrap();
        proof {
            assert(old(self).cards@[old(self).cards@.len() - 1].valid());
        }
        c
    }

    pub fn can_receive(&self, card: &Card) -> (b: bool)
        requires
            self.wf(),
            card.valid(),
        ensures
            b == self.can_receive_spec(*card),
    {
        match self.active_card() {
            Some(top) => {
                proof {
                    assert(self.cards@.last().valid());
                }
                top.color() != card.color() && top.rank() == card.rank() + 1
            },
            None => true,
        }
    }

    /// Push a card on top.
    pub fn receive(&mut self, card: Card)
        requires
            old(self).wf(),
            card.valid(),
            old(self).can_receive_spec(card),
        ensures
            final(self).cards@ == old(self).cards@.push(card),
            final(self).wf(),
    {
        self.cards.push(card);
    }

    pub fn active_card(&self) -> (c: Option<Card>)
        ensures
            c == self.active_card_spec(),
    {
        if self.cards.len() == 0 {
            None
        } else {
            Some(self.cards[self.cards.len() - 1])
        }
    }

    /// How many cards the column holds.
    pub fn depth(&self) -> (n: usize)
        ensures
            n == self.cards@.len(),
    {
        self.cards.len()
    }

    /// The card at a depth, bottom first, if the column is that deep.
    pub fn card_at(&self, i: usize) -> (c: Option<Card>)
        ensures
            c == if i < self.cards@.len() {
                Option::Some(self.cards@[i as int])
            } else {
                Option::<Card>::None
            },
    {
        if i < self.cards.len() {
            Some(self.cards[i])
        } else {
            None
        }
    }
}

/// Column rule: an empty column accepts any card; a column whose top
/// card has some suit and rank accepts exactly the cards of the
/// opposite color and of rank one less.
pub proof fn lemma_column_rule(col: Column, c: Card)
    requires
        col.wf(),
        c.valid(),
    ensures
        col.cards@.len() == 0 ==> col.can_receive_spec(c),
        col.cards@.len() > 0 ==> (col.can_receive_spec(c) <==> (col.cards@.last().color_of()
            != c.color_of() && col.cards@.last().rank == c.rank + 1)),
{
}

/// A one-card holding cell, fed only by the initial deal.
#[derive(Clone)]
pub struct SpotInHand {
    pub card: Option<Card>,
}

impl SpotInHand {
    pub open spec fn wf(self) -> bool {
        match self.card {
            Option::Some(c) => c.valid(),
            Option::None => true,
        }
    }

    pub open spec fn can_receive_spec(self, card: Card) -> bool {
        false
    }

    pub open spec fn can_give_spec(self) -> bool {
        self.card is Some
    }

    pub open spec fn active_card_spec(self) -> Option<Card> {
        self.card
    }

    pub fn new(card: Card) -> (s: SpotInHand)
        requires
            card.valid(),
        ensures
            s == (SpotInHand { card: Option::Some(card) }),
            s.wf(),
    {
        SpotInHand { card: Some(card) }
    }

    pub fn can_give_card(&self) -> (b: bool)
        ensures
            b == self.can_give_spec(),
    {
        self.card.is_some()
    }

    /// Surrender the held card, leaving the spot empty.
    pub fn give_card(&mut self) -> (c: Card)
        requires
            old(self).wf(),
            old(self).can_give_spec(),
        ensures
            Option::Some(c) == old(self).active_card_spec(),
            final(self).card == Option::<Card>::None,
            final(self).wf(),
            c.valid(),
    {
        let c = match self.card {
            Some(c) => c,
            None => unreached(),
        };
        self.card = None;
        c
    }

    pub fn can_receive(&self, card: &Card) -> (b: bool)
        ensures
            b == self.can_receive_spec(*card),
    {
        false
    }

    /// Overwrite the held card. A hand spot never accepts a card
    /// through play (`can_receive` is always false); this effect exists
    /// only for symmetry with the other variants.
    pub fn receive(&mut self, card: Card)
        requires
            card.valid(),
        ensures
            final(self).card == Option::Some(card),
            final(self).wf(),
    {
        self.card = Some(card);
    }

    pub fn active_card(&self) -> (c: Option<Card>)
        ensures
            c == self.active_card_spec(),
    {
        self.card
    }
}

/// Hand spot rule: a spot never accepts any card, and it gives its
/// card exactly when it is occupied.
pub proof fn lemma_hand_spot_rule(s: SpotInHand, c: Card)
    ensures
        !s.can_receive_spec(c),
        s.can_give_spec() <==> s.card is Some,
{
}

} // verus!
