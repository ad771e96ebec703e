//! The board: twenty labelled locations, movement legality, execution
//! of single-card movements, and victory detection.

use vstd::prelude::*;
use vstd::multiset::Multiset;
use vstd::seq_lib::group_to_multiset_ensures;

use crate::card::{all_suits, Card, Rank, Suit, MAX_RANK};
use crate::deck::Deck;
use crate::location::{column_active, column_can_receive, column_wf, Column, Foundation, SpotInHand};
use crate::victory_state::VictoryState;

verus! {

/// A proposed single-card transfer between two labelled locations.
#[derive(Clone, Copy, PartialEq, Eq, Structural, Debug)]
pub struct Movement {
    pub origin: char,
    pub destination: char,
}

/// Labels run over a fixed alphabet: foundations a-d, columns e-m,
/// hand spots n-t.
pub open spec fn valid_label(l: char) -> bool {
    'a' <= l && l <= 't'
}

pub open spec fn is_foundation_label(l: char) -> bool {
    'a' <= l && l <= 'd'
}

pub open spec fn is_column_label(l: char) -> bool {
    'e' <= l && l <= 'm'
}

pub open spec fn fidx(l: char) -> int {
    l as int - 'a' as int
}

pub open spec fn cidx(l: char) -> int {
    l as int - 'e' as int
}

pub open spec fn hidx(l: char) -> int {
    l as int - 'n' as int
}

impl Movement {
    pub open spec fn wf(self) -> bool {
        valid_label(self.origin) && valid_label(self.destination)
    }

    /// Do both labels lie in the board's alphabet?
    pub fn is_valid(&self) -> (b: bool)
        ensures
            b == self.wf(),
    {
        'a' <= self.origin && self.origin <= 't' && 'a' <= self.destination && self.destination
            <= 't'
    }
}

/// What a foundation holds, as cards: the ascending run of its suit up
/// to rank `r`.
pub open spec fn rank_run(suit: Suit, r: int) -> Multiset<Card>
    decreases r,
{
    if r <= 0 {
        Multiset::empty()
    } else {
        rank_run(suit, r - 1).insert(Card { rank: r as Rank, suit })
    }
}

pub open spec fn foundation_cards(f: Foundation) -> Multiset<Card> {
    match f.top_rank {
        Option::Some(r) => rank_run(f.suit, r as int),
        Option::None => Multiset::empty(),
    }
}

pub open spec fn spot_cards(s: Option<Card>) -> Multiset<Card> {
    match s {
        Option::Some(c) => Multiset::empty().insert(c),
        Option::None => Multiset::empty(),
    }
}

/// The mathematical view of a board: four foundations, nine columns of
/// cards bottom to top, seven hand spots.
pub struct BoardV {
    pub foundations: Seq<Foundation>,
    pub columns: Seq<Seq<Card>>,
    pub hand: Seq<Option<Card>>,
}

impl BoardV {
    pub open spec fn wf(self) -> bool {
        &&& self.foundations.len() == 4
        &&& (forall|i: int| 0 <= i < 4 ==> (#[trigger] self.foundations[i]).wf())
        &&& (forall|i: int| 0 <= i < 4 ==> (#[trigger] self.foundations[i]).suit == all_suits()[i])
        &&& self.columns.len() == 9
        &&& (forall|i: int| 0 <= i < 9 ==> column_wf(#[trigger] self.columns[i]))
        &&& self.hand.len() == 7
        &&& (forall|i: int|
            0 <= i < 7 ==> ((#[trigger] self.hand[i]) is Some ==> self.hand[i]->Some_0.valid()))
    }

    /// The topmost (or only) card at a location, if any.
    pub open spec fn active_at(self, l: char) -> Option<Card> {
        if is_foundation_label(l) {
            self.foundations[fidx(l)].active_card_spec()
        } else if is_column_label(l) {
            column_active(self.columns[cidx(l)])
        } else {
            self.hand[hidx(l)]
        }
    }

    pub open spec fn can_give_at(self, l: char) -> bool {
        if is_foundation_label(l) {
            self.foundations[fidx(l)].can_give_spec()
        } else if is_column_label(l) {
            self.columns[cidx(l)].len() > 0
        } else {
            self.hand[hidx(l)] is Some
        }
    }

    pub open spec fn can_receive_at(self, l: char, c: Card) -> bool {
        if is_foundation_label(l) {
            self.foundations[fidx(l)].can_receive_spec(c)
        } else if is_column_label(l) {
            column_can_receive(self.columns[cidx(l)], c)
        } else {
            false
        }
    }

    /// A movement is permitted when the origin holds an active card,
    /// may give it, and the destination accepts it.
    pub open spec fn permits(self, m: Movement) -> bool {
        m.wf() && match self.active_at(m.origin) {
            Option::Some(c) => self.can_give_at(m.origin) && self.can_receive_at(
                m.destination,
                c,
            ),
            Option::None => false,
        }
    }

    /// The board after the origin location surrenders its active card.
    pub open spec fn give_at(self, l: char) -> BoardV {
        if is_foundation_label(l) {
            let f = self.foundations[fidx(l)];
            BoardV {
                foundations: self.foundations.update(
                    fidx(l),
                    Foundation {
                        suit: f.suit,
                        top_rank: match f.top_rank {
                            Option::Some(r) => if r == 1 {
                                Option::None
                            } else {
                                Option::Some((r - 1) as Rank)
                            },
                            Option::None => Option::None,
                        },
                    },
                ),
                columns: self.columns,
                hand: self.hand,
            }
        } else if is_column_label(l) {
            BoardV {
                foundations: self.foundations,
                columns: self.columns.update(cidx(l), self.columns[cidx(l)].drop_last()),
                hand: self.hand,
            }
        } else {
            BoardV {
                foundations: self.foundations,
                columns: self.columns,
                hand: self.hand.update(hidx(l), Option::None),
            }
        }
    }

    /// The board after the destination location takes the card.
    pub open spec fn receive_at(self, l: char, c: Card) -> BoardV {
        if is_foundation_label(l) {
            BoardV {
                foundations: self.foundations.update(
                    fidx(l),
                    Foundation {
                        suit: self.foundations[fidx(l)].suit,
                        top_rank: Option::Some(c.rank),
                    },
                ),
                columns: self.columns,
                hand: self.hand,
            }
        } else if is_column_label(l) {
            BoardV {
                foundations: self.foundations,
                columns: self.columns.update(cidx(l), self.columns[cidx(l)].push(c)),
                hand: self.hand,
            }
        } else {
            BoardV {
                foundations: self.foundations,
                columns: self.columns,
                hand: self.hand.update(hidx(l), Option::Some(c)),
            }
        }
    }

    /// The board after a movement: the origin's active card moves to
    /// the destination.
    pub open spec fn execute(self, m: Movement) -> BoardV {
        match self.active_at(m.origin) {
            Option::Some(c) => self.give_at(m.origin).receive_at(m.destination, c),
            Option::None => self,
        }
    }

    /// Won exactly when every foundation has been built up to the king.
    pub open spec fn is_won(self) -> bool {
        forall|i: int|
            0 <= i < 4 ==> (#[trigger] self.foundations[i]).top_rank == Option::Some(MAX_RANK)
    }

    /// Stuck: no movement at all is permitted.
    pub open spec fn stuck(self) -> bool {
        forall|m: Movement| !(#[trigger] self.permits(m))
    }

    /// The multiset of cards across all twenty locations.
    pub open spec fn all_cards(self) -> Multiset<Card> {
        foundation_cards(self.foundations[0]).add(foundation_cards(self.foundations[1])).add(
            foundation_cards(self.foundations[2]),
        ).add(foundation_cards(self.foundations[3])).add(self.columns[0].to_multiset()).add(
            self.columns[1].to_multiset(),
        ).add(self.columns[2].to_multiset()).add(self.columns[3].to_multiset()).add(
            self.columns[4].to_multiset(),
        ).add(self.columns[5].to_multiset()).add(self.columns[6].to_multiset()).add(
            self.columns[7].to_multiset(),
        ).add(self.columns[8].to_multiset()).add(spot_cards(self.hand[0])).add(
            spot_cards(self.hand[1]),
        ).add(spot_cards(self.hand[2])).add(spot_cards(self.hand[3])).add(
            spot_cards(self.hand[4]),
        ).add(spot_cards(self.hand[5])).add(spot_cards(self.hand[6]))
    }
}

/// An active card on a well-formed board is always a valid card.
pub proof fn lemma_wf_active(b: BoardV, l: char)
    requires
        b.wf(),
        valid_label(l),
    ensures
        match b.active_at(l) {
            Option::Some(c) => c.valid(),
            Option::None => true,
        },
{
}

/// No permitted movement returns a card to the location it came from.
pub proof fn lemma_permits_distinct(b: BoardV, m: Movement)
    requires
        b.wf(),
        b.permits(m),
    ensures
        m.origin != m.destination,
{
}

/// Surrendering the active card removes exactly that card from the
/// board, keeps it well formed, and touches no other location.
#[verifier::rlimit(50)]
pub proof fn lemma_give_conserves(b: BoardV, l: char, c: Card)
    requires
        b.wf(),
        valid_label(l),
        b.can_give_at(l),
        b.active_at(l) == Option::Some(c),
    ensures
        b.give_at(l).wf(),
        b.give_at(l).all_cards().insert(c) == b.all_cards(),
        forall|l2: char, cc: Card|
            valid_label(l2) && l2 != l ==> #[trigger] b.give_at(l).can_receive_at(l2, cc)
                == b.can_receive_at(l2, cc),
{
    broadcast use group_to_multiset_ensures;
    broadcast use vstd::multiset::group_multiset_axioms;

    let given = b.give_at(l);
    if is_foundation_label(l) {
        // A foundation never gives.
        assert(false);
    } else if is_column_label(l) {
        let j = cidx(l);
        let col = b.columns[j];
        assert(col.drop_last() =~= col.remove(col.len() - 1));
        assert(col.drop_last().to_multiset() == col.to_multiset().remove(c));
        assert(given.all_cards().insert(c) =~= b.all_cards());
        assert forall|i: int| 0 <= i < 9 implies column_wf(#[trigger] given.columns[i]) by {
            assert(column_wf(b.columns[i]));
        }
    } else {
        assert(given.all_cards().insert(c) =~= b.all_cards());
    }
}

/// Taking a card adds exactly that card to the board and keeps it
/// well formed.
#[verifier::rlimit(50)]
pub proof fn lemma_receive_conserves(b: BoardV, l: char, c: Card)
    requires
        b.wf(),
        valid_label(l),
        b.can_receive_at(l, c),
        c.valid(),
    ensures
        b.receive_at(l, c).wf(),
        b.receive_at(l, c).all_cards() == b.all_cards().insert(c),
{
    broadcast use group_to_multiset_ensures;
    broadcast use vstd::multiset::group_multiset_axioms;

    let taken = b.receive_at(l, c);
    if is_foundation_label(l) {
        let j = fidx(l);
        let f = b.foundations[j];
        let newf = taken.foundations[j];
        assert(newf.top_rank == Option::Some(c.rank));
        match f.top_rank {
            Option::Some(r) => {
                assert(c.rank == r + 1);
                assert(rank_run(f.suit, c.rank as int) == rank_run(f.suit, r as int).insert(
                    Card { rank: c.rank, suit: f.suit },
                ));
            },
            Option::None => {
                assert(c.rank == 1);
                assert(rank_run(f.suit, 1) == rank_run(f.suit, 0).insert(
                    Card { rank: 1 as Rank, suit: f.suit },
                ));
                assert(rank_run(f.suit, 0) =~= Multiset::<Card>::empty());
            },
        }
        assert(foundation_cards(newf) =~= foundation_cards(f).insert(c));
        assert(taken.all_cards() =~= b.all_cards().insert(c));
    } else if is_column_label(l) {
        let j = cidx(l);
        assert(taken.columns[j] == b.columns[j].push(c));
        assert(taken.all_cards() =~= b.all_cards().insert(c));
        assert forall|i: int| 0 <= i < 9 implies column_wf(#[trigger] taken.columns[i]) by {
            assert(column_wf(b.columns[i]));
        }
    } else {
        // A hand spot never receives.
        assert(false);
    }
}

/// Conservation, against the full deck: a board that carries the
/// cards of a well-formed deck holds each of the 52 distinct cards
/// exactly once, no duplicates and no losses. `Board::new` establishes
/// `all_cards` as the deck's multiset and `execute` preserves it, so
/// this holds of every reachable board.
pub proof fn lemma_board_card_count(b: BoardV, c: Card)
    requires
        b.all_cards() == crate::deck::standard_deck().to_multiset(),
    ensures
        b.all_cards().count(c) == if c.valid() {
            1nat
        } else {
            0nat
        },
{
    crate::deck::lemma_standard_deck_count(c);
}

/// Card conservation: a permitted movement neither creates nor
/// destroys a card, and keeps the board well formed.
pub proof fn lemma_execute_conserves(b: BoardV, m: Movement)
    requires
        b.wf(),
        b.permits(m),
    ensures
        b.execute(m).wf(),
        b.execute(m).all_cards() == b.all_cards(),
{
    let c = b.active_at(m.origin)->Some_0;
    lemma_wf_active(b, m.origin);
    lemma_permits_distinct(b, m);
    lemma_give_conserves(b, m.origin, c);
    lemma_receive_conserves(b.give_at(m.origin), m.destination, c);
    broadcast use vstd::multiset::group_multiset_axioms;

    assert(b.execute(m).all_cards() =~= b.all_cards());
}

/// The label alphabet, in enumeration order: foundations, columns,
/// hand spots.
pub open spec fn all_labels() -> Seq<char> {
    seq![
        'a', 'b', 'c', 'd', 'e', 'f', 'g', 'h', 'i', 'j', 'k', 'l', 'm', 'n', 'o', 'p', 'q', 'r',
        's', 't',
    ]
}

/// Each label of the alphabet is valid and sits at its own position.
pub proof fn lemma_all_labels()
    ensures
        all_labels().len() == 20,
        forall|i: int| 0 <= i < 20 ==> (#[trigger] all_labels()[i]) as int == 'a' as int + i,
        forall|i: int| 0 <= i < 20 ==> valid_label(#[trigger] all_labels()[i]),
        forall|l: char| valid_label(l) ==> all_labels()[l as int - 'a' as int] == l,
{
    assert forall|i: int| 0 <= i < 20 implies (#[trigger] all_labels()[i]) as int == 'a' as int
        + i by {
        assert((all_labels()[i]) as int == 'a' as int + i) by {
            assert(0 <= i < 20);
        }
    }
    assert forall|l: char| valid_label(l) implies all_labels()[l as int - 'a' as int] == l by {
        let i = l as int - 'a' as int;
        assert(0 <= i < 20);
        assert(all_labels()[i] as int == 'a' as int + i);
    }
}

/// The movement from position `o` of the alphabet to position `d`.
pub open spec fn mv(o: int, d: int) -> Movement {
    Movement { origin: all_labels()[o], destination: all_labels()[d] }
}

/// The permitted movements with origin `o`, over destinations before `d`.
pub open spec fn permitted_in_row(b: BoardV, o: int, d: int) -> Seq<Movement>
    decreases d,
{
    if d <= 0 {
        Seq::empty()
    } else {
        permitted_in_row(b, o, d - 1) + if b.permits(mv(o, d - 1)) {
            seq![mv(o, d - 1)]
        } else {
            Seq::empty()
        }
    }
}

/// The permitted movements with origin before `o`, in enumeration order.
pub open spec fn permitted_upto(b: BoardV, o: int) -> Seq<Movement>
    decreases o,
{
    if o <= 0 {
        Seq::empty()
    } else {
        permitted_upto(b, o - 1) + permitted_in_row(b, o - 1, 20)
    }
}

impl BoardV {
    /// Exactly the movements the board permits, in the deterministic
    /// origin-major order of the label enumeration.
    pub open spec fn permitted_moves_spec(self) -> Seq<Movement> {
        permitted_upto(self, 20)
    }
}

proof fn lemma_row_sound(b: BoardV, o: int, d: int)
    requires
        0 <= d <= 20,
    ensures
        forall|j: int|
            0 <= j < permitted_in_row(b, o, d).len() ==> b.permits(
                #[trigger] permitted_in_row(b, o, d)[j],
            ),
    decreases d,
{
    if d > 0 {
        lemma_row_sound(b, o, d - 1);
        let prev = permitted_in_row(b, o, d - 1);
        let row = permitted_in_row(b, o, d);
        assert forall|j: int| 0 <= j < row.len() implies b.permits(#[trigger] row[j]) by {
            if j < prev.len() {
                assert(row[j] == prev[j]);
            } else {
                assert(b.permits(mv(o, d - 1)));
                assert(row[j] == mv(o, d - 1));
            }
        }
    }
}

proof fn lemma_upto_sound(b: BoardV, o: int)
    requires
        0 <= o <= 20,
    ensures
        forall|j: int|
            0 <= j < permitted_upto(b, o).len() ==> b.permits(#[trigger] permitted_upto(b, o)[j]),
    decreases o,
{
    if o > 0 {
        lemma_upto_sound(b, o - 1);
        lemma_row_sound(b, o - 1, 20);
        let prev = permitted_upto(b, o - 1);
        let row = permitted_in_row(b, o - 1, 20);
        let whole = permitted_upto(b, o);
        assert forall|j: int| 0 <= j < whole.len() implies b.permits(#[trigger] whole[j]) by {
            if j < prev.len() {
                assert(whole[j] == prev[j]);
            } else {
                assert(whole[j] == row[j - prev.len()]);
            }
        }
    }
}

/// Soundness: every enumerated movement is permitted.
pub proof fn lemma_permitted_moves_sound(b: BoardV)
    ensures
        forall|j: int|
            0 <= j < b.permitted_moves_spec().len() ==> b.permits(
                #[trigger] b.permitted_moves_spec()[j],
            ),
{
    lemma_upto_sound(b, 20);
}

proof fn lemma_row_complete(b: BoardV, o: int, d: int, dd: int)
    requires
        0 <= dd < d <= 20,
        b.permits(mv(o, dd)),
    ensures
        permitted_in_row(b, o, d).contains(mv(o, dd)),
    decreases d,
{
    if dd == d - 1 {
        let row = permitted_in_row(b, o, d);
        assert(row.last() == mv(o, dd));
        assert(row.contains(mv(o, dd)));
    } else {
        lemma_row_complete(b, o, d - 1, dd);
        let prev = permitted_in_row(b, o, d - 1);
        let j = choose|j: int| 0 <= j < prev.len() && prev[j] == mv(o, dd);
        assert(permitted_in_row(b, o, d)[j] == mv(o, dd));
    }
}

proof fn lemma_upto_complete(b: BoardV, o: int, oo: int, dd: int)
    requires
        0 <= oo < o <= 20,
        0 <= dd < 20,
        b.permits(mv(oo, dd)),
    ensures
        permitted_upto(b, o).contains(mv(oo, dd)),
    decreases o,
{
    let m = mv(oo, dd);
    if oo == o - 1 {
        lemma_row_complete(b, o - 1, 20, dd);
        let row = permitted_in_row(b, o - 1, 20);
        let j = choose|j: int| 0 <= j < row.len() && row[j] == m;
        assert(permitted_upto(b, o)[permitted_upto(b, o - 1).len() + j] == m);
    } else {
        lemma_upto_complete(b, o - 1, oo, dd);
        let prev = permitted_upto(b, o - 1);
        let j = choose|j: int| 0 <= j < prev.len() && prev[j] == m;
        assert(permitted_upto(b, o)[j] == m);
    }
}

/// Completeness: every permitted movement is enumerated. In
/// particular, an empty enumeration means the board is stuck.
pub proof fn lemma_permitted_moves_complete(b: BoardV, m: Movement)
    requires
        b.permits(m),
    ensures
        b.permitted_moves_spec().contains(m),
{
    lemma_all_labels();
    let oo = m.origin as int - 'a' as int;
    let dd = m.destination as int - 'a' as int;
    assert(mv(oo, dd) == m);
    lemma_upto_complete(b, 20, oo, dd);
}

proof fn lemma_row_len(b: BoardV, o: int, d: int)
    requires
        0 <= d,
    ensures
        permitted_in_row(b, o, d).len() <= d,
    decreases d,
{
    if d > 0 {
        lemma_row_len(b, o, d - 1);
    }
}

proof fn lemma_upto_len(b: BoardV, o: int)
    requires
        0 <= o,
    ensures
        permitted_upto(b, o).len() <= 20 * o,
    decreases o,
{
    if o > 0 {
        lemma_upto_len(b, o - 1);
        lemma_row_len(b, o - 1, 20);
    }
}

/// A board permits at most 400 movements: one per ordered label pair.
pub proof fn lemma_permitted_moves_bound(b: BoardV)
    ensures
        b.permitted_moves_spec().len() <= 400,
{
    lemma_upto_len(b, 20);
}

/// A board whose enumeration is empty is stuck: it permits no
/// movement at all.
pub proof fn lemma_empty_enumeration_is_stuck(b: BoardV)
    requires
        b.permitted_moves_spec().len() == 0,
    ensures
        b.stuck(),
{
    assert forall|m: Movement| !(#[trigger] b.permits(m)) by {
        if b.permits(m) {
            lemma_permitted_moves_complete(b, m);
        }
    }
}

/// Where column `i`'s run of cards starts in the deck: the hand takes
/// the first seven, then the columns take 1..9 cards in turn.
pub open spec fn col_start(i: int) -> int
    decreases i,
{
    if i <= 0 {
        7
    } else {
        col_start(i - 1) + i
    }
}

proof fn lemma_col_start_bound(i: int)
    requires
        0 <= i <= 8,
    ensures
        7 <= col_start(i),
        col_start(i) + i + 1 <= 52,
{
    reveal_with_fuel(col_start, 11);
    if i == 0 {
    } else if i == 1 {
    } else if i == 2 {
    } else if i == 3 {
    } else if i == 4 {
    } else if i == 5 {
    } else if i == 6 {
    } else if i == 7 {
    } else {
        assert(i == 8);
    }
}

/// The freshly dealt board: empty foundations, the first seven cards
/// to the hand spots, then 1..9 cards to the columns in turn.
pub open spec fn dealt(cards: Seq<Card>) -> BoardV {
    BoardV {
        foundations: seq![
            Foundation { suit: Suit::Spades, top_rank: Option::None },
            Foundation { suit: Suit::Hearts, top_rank: Option::None },
            Foundation { suit: Suit::Diamonds, top_rank: Option::None },
            Foundation { suit: Suit::Clubs, top_rank: Option::None },
        ],
        columns: Seq::new(9, |i: int| cards.subrange(col_start(i), col_start(i) + i + 1)),
        hand: Seq::new(7, |i: int| Option::Some(cards[i])),
    }
}

/// A fresh deal is well formed and lays out exactly the deck's cards.
#[verifier::rlimit(100)]
pub proof fn lemma_dealt(cards: Seq<Card>)
    requires
        cards.len() == 52,
        forall|i: int| 0 <= i < 52 ==> (#[trigger] cards[i]).valid(),
    ensures
        dealt(cards).wf(),
        dealt(cards).all_cards() == cards.to_multiset(),
{
    broadcast use group_to_multiset_ensures;
    broadcast use vstd::multiset::group_multiset_axioms;

    reveal_with_fuel(col_start, 11);
    let b = dealt(cards);
    assert forall|i: int| 0 <= i < 9 implies column_wf(#[trigger] b.columns[i]) by {
        lemma_col_start_bound(i);
    }
    assert(b.wf());

    // The hand holds the first seven cards.
    assert(cards.subrange(0, 0) =~= Seq::<Card>::empty());
    assert(cards.subrange(0, 0).to_multiset() =~= Multiset::<Card>::empty());
    assert(cards.subrange(0, 1).to_multiset() == cards.subrange(0, 0).to_multiset().insert(
        cards[0],
    )) by {
        assert(cards.subrange(0, 1) =~= cards.subrange(0, 0).push(cards[0]));
        broadcast use group_to_multiset_ensures;
    }
    assert(cards.subrange(0, 2).to_multiset() == cards.subrange(0, 1).to_multiset().insert(
        cards[1],
    )) by {
        assert(cards.subrange(0, 2) =~= cards.subrange(0, 1).push(cards[1]));
        broadcast use group_to_multiset_ensures;
    }
    assert(cards.subrange(0, 3).to_multiset() == cards.subrange(0, 2).to_multiset().insert(
        cards[2],
    )) by {
        assert(cards.subrange(0, 3) =~= cards.subrange(0, 2).push(cards[2]));
        broadcast use group_to_multiset_ensures;
    }
    assert(cards.subrange(0, 4).to_multiset() == cards.subrange(0, 3).to_multiset().insert(
        cards[3],
    )) by {
        assert(cards.subrange(0, 4) =~= cards.subrange(0, 3).push(cards[3]));
        broadcast use group_to_multiset_ensures;
    }
    assert(cards.subrange(0, 5).to_multiset() == cards.subrange(0, 4).to_multiset().insert(
        cards[4],
    )) by {
        assert(cards.subrange(0, 5) =~= cards.subrange(0, 4).push(cards[4]));
        broadcast use group_to_multiset_ensures;
    }
    assert(cards.subrange(0, 6).to_multiset() == cards.subrange(0, 5).to_multiset().insert(
        cards[5],
    )) by {
        assert(cards.subrange(0, 6) =~= cards.subrange(0, 5).push(cards[5]));
        broadcast use group_to_multiset_ensures;
    }
    assert(cards.subrange(0, 7).to_multiset() == cards.subrange(0, 6).to_multiset().insert(
        cards[6],
    )) by {
        assert(cards.subrange(0, 7) =~= cards.subrange(0, 6).push(cards[6]));
        broadcast use group_to_multiset_ensures;
    }

    // Each column takes the next consecutive run.
    assert forall|i: int, e: int| 0 <= i && i + 1 <= e <= 52 implies cards.subrange(
        0,
        e,
    ).to_multiset() == cards.subrange(0, i).to_multiset().add(
        (#[trigger] cards.subrange(i, e)).to_multiset(),
    ) by {
        assert(cards.subrange(0, e) =~= cards.subrange(0, i) + cards.subrange(i, e));
        vstd::seq_lib::lemma_multiset_commutative(cards.subrange(0, i), cards.subrange(i, e));
    }
    assert(b.columns[0] == cards.subrange(7, 8));
    assert(b.columns[1] == cards.subrange(8, 10));
    assert(b.columns[2] == cards.subrange(10, 13));
    assert(b.columns[3] == cards.subrange(13, 17));
    assert(b.columns[4] == cards.subrange(17, 22));
    assert(b.columns[5] == cards.subrange(22, 28));
    assert(b.columns[6] == cards.subrange(28, 35));
    assert(b.columns[7] == cards.subrange(35, 43));
    assert(b.columns[8] == cards.subrange(43, 52));
    assert(cards.subrange(0, 8).to_multiset() == cards.subrange(0, 7).to_multiset().add(
        cards.subrange(7, 8).to_multiset(),
    ));
    assert(cards.subrange(0, 10).to_multiset() == cards.subrange(0, 8).to_multiset().add(
        cards.subrange(8, 10).to_multiset(),
    ));
    assert(cards.subrange(0, 13).to_multiset() == cards.subrange(0, 10).to_multiset().add(
        cards.subrange(10, 13).to_multiset(),
    ));
    assert(cards.subrange(0, 17).to_multiset() == cards.subrange(0, 13).to_multiset().add(
        cards.subrange(13, 17).to_multiset(),
    ));
    assert(cards.subrange(0, 22).to_multiset() == cards.subrange(0, 17).to_multiset().add(
        cards.subrange(17, 22).to_multiset(),
    ));
    assert(cards.subrange(0, 28).to_multiset() == cards.subrange(0, 22).to_multiset().add(
        cards.subrange(22, 28).to_multiset(),
    ));
    assert(cards.subrange(0, 35).to_multiset() == cards.subrange(0, 28).to_multiset().add(
        cards.subrange(28, 35).to_multiset(),
    ));
    assert(cards.subrange(0, 43).to_multiset() == cards.subrange(0, 35).to_multiset().add(
        cards.subrange(35, 43).to_multiset(),
    ));
    assert(cards.subrange(0, 52).to_multiset() == cards.subrange(0, 43).to_multiset().add(
        cards.subrange(43, 52).to_multiset(),
    ));
    assert(cards.subrange(0, 52) =~= cards);
    assert(b.all_cards() =~= cards.to_multiset());
}

/// The board itself: four foundations, nine columns, seven hand spots,
/// addressed by a single label.
#[derive(Clone)]
pub struct Board {
    pub foundations: Vec<Foundation>,
    pub columns: Vec<Column>,
    pub hand: Vec<SpotInHand>,
}

impl View for Board {
    type V = BoardV;

    open spec fn view(&self) -> BoardV {
        BoardV {
            foundations: self.foundations@,
            columns: self.columns@.map_values(|col: Column| col.cards@),
            hand: self.hand@.map_values(|s: SpotInHand| s.card),
        }
    }
}

impl Board {
    /// Deal a board from a deck: 7 cards to the hand spots, then 1..9
    /// cards to the columns in turn, foundations empty.
    pub fn new(deck: &Deck) -> (b: Board)
        requires
            deck.wf(),
        ensures
            b@ == dealt(deck@),
            b@.wf(),
            b@.all_cards() == deck@.to_multiset(),
    {
        proof {
            deck.lemma_wf_cards();
            reveal_with_fuel(col_start, 11);
        }
        let suits = Suit::iterator();
        let mut foundations: Vec<Foundation> = Vec::new();
        let mut f: usize = 0;
        while f < 4
            invariant
                suits@ == all_suits(),
                foundations@.len() == f,
                0 <= f <= 4,
                forall|j: int|
                    0 <= j < f ==> (#[trigger] foundations@[j]) == (Foundation {
                        suit: all_suits()[j],
                        top_rank: Option::<Rank>::None,
                    }),
            decreases 4 - f,
        {
            foundations.push(Foundation::new(suits[f]));
            f += 1;
        }

        let mut hand: Vec<SpotInHand> = Vec::new();
        let mut k: usize = 0;
        while k < 7
            invariant
                deck.wf(),
                deck@.len() == 52,
                hand@.len() == k,
                0 <= k <= 7,
                forall|j: int|
                    0 <= j < k ==> (#[trigger] hand@[j]) == (SpotInHand {
                        card: Option::Some(deck@[j]),
                    }),
            decreases 7 - k,
        {
            hand.push(SpotInHand::new(deck.deal(k)));
            k += 1;
        }

        let mut columns: Vec<Column> = Vec::new();
        let mut p: usize = 7;
        let mut i: usize = 0;
        while i < 9
            invariant
                deck.wf(),
                deck@.len() == 52,
                columns@.len() == i,
                0 <= i <= 9,
                p == col_start(i as int),
                7 <= p <= 52,
                forall|j: int|
                    0 <= j < i ==> (#[trigger] columns@[j]).cards@ == deck@.subrange(
                        col_start(j),
                        col_start(j) + j + 1,
                    ),
            decreases 9 - i,
        {
            proof {
                lemma_col_start_bound(i as int);
            }
            let count = i + 1;
            let mut cs: Vec<Card> = Vec::new();
            proof {
                assert(cs@ =~= deck@.subrange(p as int, p as int));
            }
            let start = p;
            let mut j: usize = 0;
            while j < count
                invariant
                    deck.wf(),
                    deck@.len() == 52,
                    0 <= j <= count,
                    count == i + 1 <= 9,
                    start == col_start(i as int),
                    start + count <= 52,
                    p == start + j,
                    cs@ == deck@.subrange(start as int, p as int),
                decreases count - j,
            {
                cs.push(deck.deal(p));
                proof {
                    assert(cs@ =~= deck@.subrange(start as int, p + 1));
                }
                p += 1;
                j += 1;
            }
            columns.push(Column { cards: cs });
            i += 1;
        }

        let b = Board { foundations, columns, hand };
        proof {
            deck.lemma_wf_cards();
            assert(b@.foundations =~= dealt(deck@).foundations);
            assert forall|j: int| 0 <= j < 9 implies b@.columns[j] == dealt(deck@).columns[j] by {
                assert(b@.columns[j] == columns@[j].cards@);
            }
            assert(b@.columns =~= dealt(deck@).columns);
            assert forall|j: int| 0 <= j < 7 implies b@.hand[j] == dealt(deck@).hand[j] by {
                assert(b@.hand[j] == hand@[j].card);
            }
            assert(b@.hand =~= dealt(deck@).hand);
            assert(b@ == dealt(deck@));
            lemma_dealt(deck@);
        }
        b
    }

    /// The topmost (or only) card at the labelled location.
    fn active_card_at(&self, label: char) -> (c: Option<Card>)
        requires
            self@.wf(),
            valid_label(label),
        ensures
            c == self@.active_at(label),
    {
        match label {
            'a'..='d' => self.foundations[(label as usize) - ('a' as usize)].active_card(),
            'e'..='m' => self.columns[(label as usize) - ('e' as usize)].active_card(),
            'n'..='t' => self.hand[(label as usize) - ('n' as usize)].active_card(),
            _ => unreached(),
        }
    }

    fn can_give_at(&self, label: char) -> (b: bool)
        requires
            self@.wf(),
            valid_label(label),
        ensures
            b == self@.can_give_at(label),
    {
        match label {
            'a'..='d' => self.foundations[(label as usize) - ('a' as usize)].can_give_card(),
            'e'..='m' => self.columns[(label as usize) - ('e' as usize)].can_give_card(),
            'n'..='t' => self.hand[(label as usize) - ('n' as usize)].can_give_card(),
            _ => unreached(),
        }
    }

    fn can_receive_at(&self, label: char, card: &Card) -> (b: bool)
        requires
            self@.wf(),
            valid_label(label),
            card.valid(),
        ensures
            b == self@.can_receive_at(label, *card),
    {
        match label {
            'a'..='d' => self.foundations[(label as usize) - ('a' as usize)].can_receive(card),
            'e'..='m' => {
                let idx = (label as usize) - ('e' as usize);
                proof {
                    assert(self@.columns[cidx(label)] == self.columns@[idx as int].cards@);
                }
                self.columns[idx].can_receive(card)
            },
            'n'..='t' => self.hand[(label as usize) - ('n' as usize)].can_receive(card),
            _ => unreached(),
        }
    }

    /// Remove and return the active card at the labelled location.
    fn give_card_at(&mut self, label: char) -> (c: Card)
        requires
            old(self)@.wf(),
            valid_label(label),
            old(self)@.can_give_at(label),
        ensures
            Option::Some(c) == old(self)@.active_at(label),
            final(self)@ == old(self)@.give_at(label),
            c.valid(),
    {
        match label {
            'e'..='m' => {
                let idx = (label as usize) - ('e' as usize);
                proof {
                    assert(self@.columns[cidx(label)] == self.columns@[idx as int].cards@);
                }
                let mut col = self.columns.remove(idx);
                let card = col.give_card();
                self.columns.insert(idx, col);
                proof {
                    assert(self.columns@ =~= old(self).columns@.update(idx as int, col));
                    assert(self@.columns =~= old(self)@.columns.update(
                        cidx(label),
                        old(self)@.columns[cidx(label)].drop_last(),
                    ));
                    assert(self@ == old(self)@.give_at(label));
                }
                card
            },
            'n'..='t' => {
                let idx = (label as usize) - ('n' as usize);
                proof {
                    assert(self@.hand[hidx(label)] == self.hand@[idx as int].card);
                }
                let mut spot = self.hand.remove(idx);
                let card = spot.give_card();
                self.hand.insert(idx, spot);
                proof {
                    assert(self.hand@ =~= old(self).hand@.update(idx as int, spot));
                    assert(self@.hand =~= old(self)@.hand.update(hidx(label), Option::<Card>::None));
                    assert(self@ == old(self)@.give_at(label));
                }
                card
            },
            _ => unreached(),
        }
    }

    /// Hand the card to the labelled location.
    fn receive_at(&mut self, label: char, card: Card)
        requires
            old(self)@.wf(),
            valid_label(label),
            card.valid(),
            old(self)@.can_receive_at(label, card),
        ensures
            final(self)@ == old(self)@.receive_at(label, card),
    {
        match label {
            'a'..='d' => {
                let idx = (label as usize) - ('a' as usize);
                let mut f = self.foundations.remove(idx);
                f.receive(card);
                self.foundations.insert(idx, f);
                proof {
                    assert(self.foundations@ =~= old(self).foundations@.update(idx as int, f));
                    assert(self@.columns =~= old(self)@.columns);
                    assert(self@.hand =~= old(self)@.hand);
                    assert(self@ == old(self)@.receive_at(label, card));
                }
            },
            'e'..='m' => {
                let idx = (label as usize) - ('e' as usize);
                proof {
                    assert(self@.columns[cidx(label)] == self.columns@[idx as int].cards@);
                }
                let mut col = self.columns.remove(idx);
                col.receive(card);
                self.columns.insert(idx, col);
                proof {
                    assert(self.columns@ =~= old(self).columns@.update(idx as int, col));
                    assert(self@.columns =~= old(self)@.columns.update(
                        cidx(label),
                        old(self)@.columns[cidx(label)].push(card),
                    ));
                    assert(self@ == old(self)@.receive_at(label, card));
                }
            },
            _ => unreached(),
        }
    }

    /// Is this movement legal on the current board? Pure: no mutation.
    pub fn permits(&self, movement: Movement) -> (b: bool)
        requires
            self@.wf(),
            movement.wf(),
        ensures
            b == self@.permits(movement),
    {
        match self.active_card_at(movement.origin) {
            Some(card) => {
                proof {
                    lemma_wf_active(self@, movement.origin);
                }
                self.can_give_at(movement.origin) && self.can_receive_at(
                    movement.destination,
                    &card,
                )
            },
            None => false,
        }
    }

    /// Carry out a permitted movement: the single mutator of board
    /// state. Calling it demands that `permits` held on this same
    /// state; the card count and well-formedness are preserved.
    pub fn execute(&mut self, movement: Movement)
        requires
            old(self)@.wf(),
            old(self)@.permits(movement),
        ensures
            final(self)@ == old(self)@.execute(movement),
            final(self)@.wf(),
            final(self)@.all_cards() == old(self)@.all_cards(),
    {
        proof {
            lemma_permits_distinct(old(self)@, movement);
            lemma_wf_active(old(self)@, movement.origin);
            lemma_execute_conserves(old(self)@, movement);
        }
        let card = self.give_card_at(movement.origin);
        proof {
            lemma_give_conserves(old(self)@, movement.origin, card);
            assert(self@.can_receive_at(movement.destination, card));
        }
        self.receive_at(movement.destination, card);
        proof {
            assert(self@ == old(self)@.execute(movement));
        }
    }

    /// Won exactly when all four foundations carry their king.
    pub fn victory_state(&self) -> (v: VictoryState)
        requires
            self@.wf(),
        ensures
            v == if self@.is_won() {
                VictoryState::Won
            } else {
                VictoryState::Ongoing
            },
    {
        let mut i: usize = 0;
        while i < 4
            invariant
                self@.wf(),
                0 <= i <= 4,
                forall|j: int|
                    0 <= j < i ==> (#[trigger] self@.foundations[j]).top_rank == Option::Some(
                        MAX_RANK,
                    ),
            decreases 4 - i,
        {
            let done = match self.foundations[i].top_rank {
                Some(r) => r == MAX_RANK,
                None => false,
            };
            if !done {
                return VictoryState::Ongoing;
            }
            i += 1;
        }
        VictoryState::Won
    }

    /// Every movement the board currently permits, by scanning all
    /// label pairs in their fixed enumeration order; the deterministic
    /// base for random selection.
    pub fn permitted_moves(&self) -> (moves: Vec<Movement>)
        requires
            self@.wf(),
        ensures
            moves@ == self@.permitted_moves_spec(),
    {
        proof {
            lemma_all_labels();
        }
        let labels: Vec<char> = vec![
            'a', 'b', 'c', 'd', 'e', 'f', 'g', 'h', 'i', 'j', 'k', 'l', 'm', 'n', 'o', 'p', 'q',
            'r', 's', 't',
        ];
        proof {
            assert(labels@ =~= all_labels());
        }
        let mut moves: Vec<Movement> = Vec::new();
        let mut o: usize = 0;
        while o < 20
            invariant
                self@.wf(),
                labels@ == all_labels(),
                0 <= o <= 20,
                moves@ == permitted_upto(self@, o as int),
            decreases 20 - o,
        {
            let mut d: usize = 0;
            proof {
                assert(moves@ =~= permitted_upto(self@, o as int) + permitted_in_row(
                    self@,
                    o as int,
                    0,
                ));
            }
            while d < 20
                invariant
                    self@.wf(),
                    labels@ == all_labels(),
                    0 <= o < 20,
                    0 <= d <= 20,
                    moves@ == permitted_upto(self@, o as int) + permitted_in_row(
                        self@,
                        o as int,
                        d as int,
                    ),
                decreases 20 - d,
            {
                let movement = Movement { origin: labels[o], destination: labels[d] };
                proof {
                    lemma_all_labels();
                    assert(movement == mv(o as int, d as int));
                }
                if self.permits(movement) {
                    moves.push(movement);
                }
                proof {
                    assert(moves@ =~= permitted_upto(self@, o as int) + permitted_in_row(
                        self@,
                        o as int,
                        d + 1,
                    ));
                }
                d += 1;
            }
            proof {
                assert(moves@ =~= permitted_upto(self@, o + 1));
            }
            o += 1;
        }
        moves
    }
}

} // verus!
