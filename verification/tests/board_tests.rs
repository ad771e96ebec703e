use king_albert::board::{Board, Movement};
use king_albert::card::{Card, Suit};
use king_albert::deck::Deck;
use king_albert::location::{Column, Foundation, SpotInHand};
use king_albert::victory_state::VictoryState;

fn key(c: &Card) -> u32 {
    let s = match c.suit() {
        Suit::Spades => 0u32,
        Suit::Hearts => 1,
        Suit::Diamonds => 2,
        Suit::Clubs => 3,
    };
    s * 100 + c.rank() as u32
}

fn standard_board() -> Board {
    Board::new(&Deck::new())
}

/// A board with every foundation built to the king and nothing else.
fn won_board() -> Board {
    let suits = Suit::iterator();
    let mut foundations = Vec::new();
    for s in suits.iter() {
        foundations.push(Foundation { suit: *s, top_rank: Some(13) });
    }
    let mut columns = Vec::new();
    for _ in 0..9 {
        columns.push(Column::new());
    }
    let mut hand = Vec::new();
    for _ in 0..7 {
        hand.push(SpotInHand { card: None });
    }
    Board { foundations, columns, hand }
}

#[test]
fn deal_lays_out_hand_then_columns() {
    let deck = Deck::new();
    let board = Board::new(&deck);
    // Hand spots n..t take the first seven cards.
    for k in 0..7usize {
        let spot = &board.hand[k];
        let held = spot.active_card().expect("hand spot should be dealt a card");
        assert_eq!(key(&held), key(&deck.deal(k)));
    }
    // Columns e..m take 1..9 cards in turn.
    let mut p = 7usize;
    for i in 0..9usize {
        let col = &board.columns[i];
        assert_eq!(col.depth(), i + 1);
        for j in 0..=i {
            let c = col.card_at(j).expect("column should be this deep");
            assert_eq!(key(&c), key(&deck.deal(p)));
            p += 1;
        }
        assert!(col.card_at(i + 1).is_none());
    }
    assert_eq!(p, 52);
    // Foundations start empty.
    for f in board.foundations.iter() {
        assert!(f.active_card().is_none());
    }
    assert_eq!(board.victory_state(), VictoryState::Ongoing);
}

#[test]
fn ace_from_hand_to_its_foundation_is_permitted() {
    let mut board = standard_board();
    // Spot n holds the ace of spades; foundation a is the spades pile.
    let m = Movement { origin: 'n', destination: 'a' };
    assert!(board.permits(m));
    board.execute(m);
    let top = board.foundations[0].active_card().expect("foundation should hold the ace");
    assert_eq!(top.rank(), 1);
    assert!(matches!(top.suit(), Suit::Spades));
    assert!(board.hand[0].active_card().is_none());
}

#[test]
fn wrong_suit_ace_is_rejected_by_a_foundation() {
    let board = standard_board();
    // Spot o holds the ace of hearts; foundation a is the spades pile.
    assert!(!board.permits(Movement { origin: 'o', destination: 'a' }));
    // And a two cannot start a foundation.
    assert!(!board.permits(Movement { origin: 'r', destination: 'a' }));
}

#[test]
fn a_foundation_never_gives_a_card() {
    let mut board = standard_board();
    board.execute(Movement { origin: 'n', destination: 'a' });
    // Foundation a now holds the ace of spades, but no movement out of
    // a foundation is ever permitted, wherever it would go.
    for dest in 'a'..='t' {
        assert!(!board.permits(Movement { origin: 'a', destination: dest }));
    }
}

#[test]
fn execute_refuses_what_permits_refuses() {
    // `execute` demands that `permits` held on the same state; a
    // driver must confirm first, as this test does, and skip the rest.
    let mut board = standard_board();
    let illegal = Movement { origin: 'o', destination: 'a' };
    assert!(!board.permits(illegal));
    let before: Vec<Option<u32>> =
        board.hand.iter().map(|s| s.active_card().as_ref().map(key)).collect();
    if board.permits(illegal) {
        board.execute(illegal);
    }
    let after: Vec<Option<u32>> =
        board.hand.iter().map(|s| s.active_card().as_ref().map(key)).collect();
    assert_eq!(before, after);
}

#[test]
fn empty_spades_foundation_accepts_only_the_spades_ace() {
    let f = Foundation::new(Suit::Spades);
    assert!(f.can_receive(&Card::new(Suit::Spades, 1)));
    assert!(!f.can_receive(&Card::new(Suit::Hearts, 1)));
    assert!(!f.can_receive(&Card::new(Suit::Clubs, 1)));
    assert!(!f.can_receive(&Card::new(Suit::Spades, 2)));
    assert!(!f.can_receive(&Card::new(Suit::Spades, 13)));
}

#[test]
fn full_foundation_accepts_nothing_more() {
    let mut f = Foundation::new(Suit::Diamonds);
    for r in 1..=13u8 {
        let c = Card::new(Suit::Diamonds, r);
        assert!(f.can_receive(&c));
        f.receive(c);
    }
    for r in 1..=13u8 {
        assert!(!f.can_receive(&Card::new(Suit::Diamonds, r)));
        assert!(!f.can_receive(&Card::new(Suit::Spades, r)));
    }
    assert!(!f.can_give_card());
}

#[test]
fn hearts_foundation_at_five_accepts_exactly_the_six_of_hearts() {
    let mut f = Foundation::new(Suit::Hearts);
    for r in 1..=5u8 {
        f.receive(Card::new(Suit::Hearts, r));
    }
    assert!(f.can_receive(&Card::new(Suit::Hearts, 6)));
    assert!(!f.can_receive(&Card::new(Suit::Spades, 6)));
    assert!(!f.can_receive(&Card::new(Suit::Diamonds, 6)));
    assert!(!f.can_receive(&Card::new(Suit::Clubs, 6)));
    assert!(!f.can_receive(&Card::new(Suit::Hearts, 7)));
    assert!(!f.can_receive(&Card::new(Suit::Hearts, 5)));
}

#[test]
fn column_with_two_of_spades_takes_only_a_red_ace() {
    let mut col = Column::new();
    assert!(col.can_receive(&Card::new(Suit::Spades, 2)));
    col.receive(Card::new(Suit::Spades, 2));
    assert!(col.can_receive(&Card::new(Suit::Hearts, 1)));
    assert!(col.can_receive(&Card::new(Suit::Diamonds, 1)));
    assert!(!col.can_receive(&Card::new(Suit::Clubs, 1)));
    assert!(!col.can_receive(&Card::new(Suit::Spades, 1)));
    assert!(!col.can_receive(&Card::new(Suit::Spades, 3)));
    assert!(!col.can_receive(&Card::new(Suit::Hearts, 3)));
    assert!(!col.can_receive(&Card::new(Suit::Diamonds, 3)));
    assert!(!col.can_receive(&Card::new(Suit::Clubs, 3)));
}

#[test]
fn empty_column_accepts_any_card() {
    let col = Column::new();
    assert!(col.can_receive(&Card::new(Suit::Spades, 13)));
    assert!(col.can_receive(&Card::new(Suit::Hearts, 7)));
    assert!(col.can_receive(&Card::new(Suit::Clubs, 1)));
    assert!(!col.can_give_card());
}

#[test]
fn column_gives_its_top_card_back() {
    let mut col = Column::new();
    col.receive(Card::new(Suit::Spades, 9));
    col.receive(Card::new(Suit::Hearts, 8));
    assert!(col.can_give_card());
    let top = col.give_card();
    assert_eq!(key(&top), key(&Card::new(Suit::Hearts, 8)));
    let next = col.give_card();
    assert_eq!(key(&next), key(&Card::new(Suit::Spades, 9)));
    assert!(!col.can_give_card());
}

#[test]
fn hand_spot_never_accepts_and_gives_iff_occupied() {
    let mut spot = SpotInHand::new(Card::new(Suit::Diamonds, 7));
    assert!(!spot.can_receive(&Card::new(Suit::Spades, 1)));
    assert!(!spot.can_receive(&Card::new(Suit::Diamonds, 8)));
    assert!(spot.can_give_card());
    let c = spot.give_card();
    assert_eq!(key(&c), key(&Card::new(Suit::Diamonds, 7)));
    assert!(!spot.can_give_card());
    assert!(spot.active_card().is_none());
    // Still refuses cards when empty.
    assert!(!spot.can_receive(&Card::new(Suit::Spades, 1)));
}

#[test]
fn victory_means_all_four_kings_are_up() {
    let mut board = won_board();
    assert_eq!(board.victory_state(), VictoryState::Won);
    // One foundation short of the king: not won.
    board.foundations[2] = Foundation { suit: Suit::Diamonds, top_rank: Some(12) };
    assert_eq!(board.victory_state(), VictoryState::Ongoing);
    // An empty foundation: not won either.
    board.foundations[2] = Foundation { suit: Suit::Diamonds, top_rank: None };
    assert_eq!(board.victory_state(), VictoryState::Ongoing);
}

#[test]
fn permitted_moves_match_permits_exactly_in_label_order() {
    let board = standard_board();
    let moves = board.permitted_moves();
    // The enumeration agrees with a brute-force scan over all pairs,
    // in origin-major label order.
    let mut expected = Vec::new();
    for origin in 'a'..='t' {
        for destination in 'a'..='t' {
            let m = Movement { origin, destination };
            if board.permits(m) {
                expected.push(m);
            }
        }
    }
    assert_eq!(moves.len(), expected.len());
    for (a, b) in moves.iter().zip(expected.iter()) {
        assert_eq!(a.origin, b.origin);
        assert_eq!(a.destination, b.destination);
    }
    assert!(moves.iter().any(|m| m.origin == 'n' && m.destination == 'a'));
    assert!(!moves.iter().any(|m| m.origin == 'o' && m.destination == 'a'));
}

#[test]
fn a_won_board_has_no_permitted_moves() {
    let board = won_board();
    assert!(board.permitted_moves().is_empty());
}

#[test]
fn execution_conserves_the_card_count() {
    let mut board = standard_board();
    let count_cards = |b: &Board| -> usize {
        let foundation_total: usize =
            b.foundations.iter().map(|f| f.active_card().map_or(0, |c| c.rank() as usize)).sum();
        let column_total: usize = b.columns.iter().map(|c| c.depth()).sum();
        let hand_total: usize =
            b.hand.iter().filter(|s| s.active_card().is_some()).count();
        foundation_total + column_total + hand_total
    };
    assert_eq!(count_cards(&board), 52);
    for _ in 0..30 {
        let moves = board.permitted_moves();
        if moves.is_empty() {
            break;
        }
        board.execute(moves[0]);
        assert_eq!(count_cards(&board), 52);
    }
}
