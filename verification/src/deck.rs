//! The deck: an ordered run of the 52 distinct cards, with shuffling
//! and positional dealing.

use vstd::prelude::*;
use vstd::multiset::Multiset;
use vstd::seq_lib::group_to_multiset_ensures;
use vstd::seq_lib::lemma_multiset_commutative;
use rand::seq::SliceRandom;

use crate::card::{all_suits, Card, Suit, MAX_RANK};

verus! {

/// An ordered sequence of cards; once made by `new` it holds each of
/// the 52 distinct cards exactly once, in whatever order shuffling
/// left them.
#[derive(Clone)]
pub struct Deck {
    pub cards: Vec<Card>,
}

/// The cards of one rank, over the first `k` suits of the fixed suit order.
pub open spec fn suits_row(rank: int, k: int) -> Seq<Card>
    decreases k,
{
    if k <= 0 {
        Seq::empty()
    } else {
        suits_row(rank, k - 1).push(Card { rank: rank as u8, suit: all_suits()[k - 1] })
    }
}

/// The full rows of ranks 1 up to `rank`, rank-major.
pub open spec fn ranks_upto(rank: int) -> Seq<Card>
    decreases rank,
{
    if rank <= 0 {
        Seq::empty()
    } else {
        ranks_upto(rank - 1) + suits_row(rank, 4)
    }
}

/// The 52 cards in the order a fresh deck holds them: rank-major,
/// aces first, suits in the fixed enumeration order within each rank.
pub open spec fn standard_deck() -> Seq<Card> {
    ranks_upto(MAX_RANK as int)
}

/// The position of a suit in the fixed suit order.
pub open spec fn suit_pos(s: Suit) -> int {
    match s {
        Suit::Spades => 0,
        Suit::Hearts => 1,
        Suit::Diamonds => 2,
        Suit::Clubs => 3,
    }
}

proof fn lemma_suits_row_count(rank: int, k: int, c: Card)
    requires
        1 <= rank <= MAX_RANK,
        0 <= k <= 4,
    ensures
        suits_row(rank, k).to_multiset().count(c) == if c.rank == rank && suit_pos(c.suit) < k {
            1nat
        } else {
            0nat
        },
    decreases k,
{
    broadcast use group_to_multiset_ensures;
    broadcast use vstd::multiset::group_multiset_axioms;

    if k <= 0 {
        assert(suits_row(rank, 0).to_multiset() =~= Multiset::empty());
    } else {
        lemma_suits_row_count(rank, k - 1, c);
        let pushed = Card { rank: rank as u8, suit: all_suits()[k - 1] };
        assert(suit_pos(pushed.suit) == k - 1);
        assert(pushed == c <==> (c.rank == rank && suit_pos(c.suit) == k - 1));
    }
}

proof fn lemma_ranks_upto_count(rank: int, c: Card)
    requires
        0 <= rank <= MAX_RANK,
    ensures
        ranks_upto(rank).to_multiset().count(c) == if 1 <= c.rank <= rank {
            1nat
        } else {
            0nat
        },
    decreases rank,
{
    broadcast use group_to_multiset_ensures;
    broadcast use vstd::multiset::group_multiset_axioms;

    if rank <= 0 {
        assert(ranks_upto(0).to_multiset() =~= Multiset::empty());
    } else {
        lemma_ranks_upto_count(rank - 1, c);
        lemma_suits_row_count(rank, 4, c);
        lemma_multiset_commutative(ranks_upto(rank - 1), suits_row(rank, 4));
        assert(suit_pos(c.suit) < 4);
    }
}

/// The standard deck holds each valid card exactly once, and nothing else.
pub proof fn lemma_standard_deck_count(c: Card)
    ensures
        standard_deck().to_multiset().count(c) == if c.valid() {
            1nat
        } else {
            0nat
        },
{
    lemma_ranks_upto_count(MAX_RANK as int, c);
}

proof fn lemma_suits_row_len(rank: int, k: int)
    requires
        0 <= k <= 4,
    ensures
        suits_row(rank, k).len() == k,
        forall|i: int|
            0 <= i < k ==> (#[trigger] suits_row(rank, k)[i]) == (Card {
                rank: rank as u8,
                suit: all_suits()[i],
            }),
    decreases k,
{
    if k > 0 {
        lemma_suits_row_len(rank, k - 1);
    }
}

proof fn lemma_ranks_upto_len(rank: int)
    requires
        0 <= rank,
    ensures
        ranks_upto(rank).len() == 4 * rank,
    decreases rank,
{
    if rank > 0 {
        lemma_ranks_upto_len(rank - 1);
        lemma_suits_row_len(rank, 4);
    }
}

/// Every card of the standard deck is valid.
pub proof fn lemma_standard_deck_wf()
    ensures
        standard_deck().len() == 52,
        forall|i: int| 0 <= i < 52 ==> (#[trigger] standard_deck()[i]).valid(),
{
    broadcast use group_to_multiset_ensures;

    lemma_ranks_upto_len(MAX_RANK as int);
    assert forall|i: int| 0 <= i < 52 implies (#[trigger] standard_deck()[i]).valid() by {
        let c = standard_deck()[i];
        assert(standard_deck().contains(c));
        lemma_standard_deck_count(c);
    }
}

impl View for Deck {
    type V = Seq<Card>;

    open spec fn view(&self) -> Seq<Card> {
        self.cards@
    }
}

impl Deck {
    /// A deck is well formed when it holds exactly the 52 distinct
    /// cards, in some order.
    pub open spec fn wf(self) -> bool {
        self@.to_multiset() == standard_deck().to_multiset()
    }

    /// Every well-formed deck has 52 slots, each holding a valid card.
    pub proof fn lemma_wf_cards(self)
        requires
            self.wf(),
        ensures
            self@.len() == 52,
            forall|i: int| 0 <= i < 52 ==> (#[trigger] self@[i]).valid(),
    {
        broadcast use group_to_multiset_ensures;

        lemma_standard_deck_wf();
        assert(self@.to_multiset().len() == standard_deck().to_multiset().len());
        assert forall|i: int| 0 <= i < 52 implies (#[trigger] self@[i]).valid() by {
            let c = self@[i];
            assert(self@.contains(c));
            lemma_standard_deck_count(c);
        }
    }

    /// The fresh deck, in the standard order.
    pub fn new() -> (d: Deck)
        ensures
            d@ == standard_deck(),
            d.wf(),
    {
        let mut cards: Vec<Card> = Vec::new();
        let suits = Suit::iterator();
        proof {
            assert(cards@ =~= ranks_upto(0));
        }
        let mut rank: u8 = 1;
        while rank <= MAX_RANK
            invariant
                1 <= rank <= MAX_RANK + 1,
                suits@ == all_suits(),
                cards@ == ranks_upto(rank - 1),
            decreases MAX_RANK + 1 - rank,
        {
            proof {
                assert(cards@ =~= ranks_upto(rank - 1) + suits_row(rank as int, 0));
            }
            let mut s: usize = 0;
            while s < 4
                invariant
                    1 <= rank <= MAX_RANK,
                    0 <= s <= 4,
                    suits@ == all_suits(),
                    cards@ == ranks_upto(rank - 1) + suits_row(rank as int, s as int),
                decreases 4 - s,
            {
                cards.push(Card::new(suits[s], rank));
                proof {
                    assert(cards@ =~= ranks_upto(rank - 1) + suits_row(
                        rank as int,
                        s + 1,
                    ));
                }
                s += 1;
            }
            proof {
                assert(cards@ =~= ranks_upto(rank as int));
            }
            rank += 1;
        }
        Deck { cards }
    }

    /// Rearrange the deck into a fresh permutation of the same cards.
    pub fn shuffle(&mut self)
        requires
            old(self).wf(),
        ensures
            final(self).wf(),
            final(self)@.to_multiset() == old(self)@.to_multiset(),
    {
        shuffle_cards(&mut self.cards);
    }

    /// The card at a position, without consuming it.
    pub fn deal(&self, index: usize) -> (c: Card)
        requires
            self.wf(),
            index < 52,
        ensures
            c == self@[index as int],
            c.valid(),
    {
        proof {
            self.lemma_wf_cards();
        }
        self.cards[index]
    }
}

/// Relies on rand::seq::SliceRandom::shuffle, a Fisher-Yates shuffle
/// that only swaps elements in place, so the result is a permutation
/// of the input; rand::thread_rng supplies the entropy.
#[verifier::external_body]
fn shuffle_cards(cards: &mut Vec<Card>)
    ensures
        final(cards)@.to_multiset() == old(cards)@.to_multiset(),
{
    cards.shuffle(&mut rand::thread_rng());
}

} // verus!
