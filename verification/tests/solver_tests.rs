use king_albert::board::{Board, Movement};
use king_albert::card::{Card, Suit};
use king_albert::deck::Deck;
use king_albert::solver::{can_find_win, find_winnable_deck, make_random_move, replay, run_trial, TrialOutcome};
use king_albert::victory_state::VictoryState;

/// A deal that can be played straight onto the foundations: the hand
/// takes the aces and three twos, and every column is stacked with
/// high ranks at the bottom, so each card is on top exactly when the
/// foundations are ready for it.
fn winnable_deck() -> Deck {
    let mut cards = Vec::new();
    cards.push(Card::new(Suit::Spades, 1));
    cards.push(Card::new(Suit::Hearts, 1));
    cards.push(Card::new(Suit::Diamonds, 1));
    cards.push(Card::new(Suit::Clubs, 1));
    cards.push(Card::new(Suit::Spades, 2));
    cards.push(Card::new(Suit::Hearts, 2));
    cards.push(Card::new(Suit::Diamonds, 2));
    for g in 0..11u8 {
        let rank = 13 - g;
        cards.push(Card::new(Suit::Clubs, rank));
        cards.push(Card::new(Suit::Diamonds, rank));
        cards.push(Card::new(Suit::Hearts, rank));
        cards.push(Card::new(Suit::Spades, rank));
    }
    cards.push(Card::new(Suit::Clubs, 2));
    assert_eq!(cards.len(), 52);
    Deck { cards }
}

/// The winning sequence for `winnable_deck`: empty the hand onto the
/// foundations, then peel every column top in ascending rank order.
fn winning_moves() -> Vec<Movement> {
    let mut moves = Vec::new();
    for (origin, destination) in
        [('n', 'a'), ('o', 'b'), ('p', 'c'), ('q', 'd'), ('r', 'a'), ('s', 'b'), ('t', 'c')]
    {
        moves.push(Movement { origin, destination });
    }
    let starts = [0usize, 1, 3, 6, 10, 15, 21, 28, 36];
    for k in (0..45usize).rev() {
        let suit = if k == 44 {
            Suit::Clubs
        } else {
            match k % 4 {
                0 => Suit::Clubs,
                1 => Suit::Diamonds,
                2 => Suit::Hearts,
                _ => Suit::Spades,
            }
        };
        let destination = match suit {
            Suit::Spades => 'a',
            Suit::Hearts => 'b',
            Suit::Diamonds => 'c',
            Suit::Clubs => 'd',
        };
        let mut column = 0usize;
        for (i, s) in starts.iter().enumerate() {
            if k >= *s {
                column = i;
            }
        }
        let origin = (b'e' + column as u8) as char;
        moves.push(Movement { origin, destination });
    }
    assert_eq!(moves.len(), 52);
    moves
}

#[test]
fn replaying_the_recorded_sequence_wins_deterministically() {
    let deck = winnable_deck();
    let moves = winning_moves();
    let mut board = Board::new(&deck);
    assert!(replay(&mut board, &moves));
    assert_eq!(board.victory_state(), VictoryState::Won);
    // Deterministic: a second fresh replay reaches the same outcome.
    let mut board2 = Board::new(&deck);
    assert!(replay(&mut board2, &moves));
    assert_eq!(board2.victory_state(), VictoryState::Won);
}

#[test]
fn each_recorded_movement_is_permitted_when_its_turn_comes() {
    let deck = winnable_deck();
    let mut board = Board::new(&deck);
    for m in winning_moves() {
        assert!(board.permits(m));
        board.execute(m);
    }
    assert_eq!(board.victory_state(), VictoryState::Won);
}

#[test]
fn replay_rejects_a_sequence_that_starts_illegally() {
    let deck = winnable_deck();
    let mut moves = winning_moves();
    // The ace of spades cannot start the hearts foundation.
    moves[0] = Movement { origin: 'n', destination: 'b' };
    let mut board = Board::new(&deck);
    assert!(!replay(&mut board, &moves));
}

#[test]
fn replay_rejects_labels_outside_the_alphabet() {
    let deck = winnable_deck();
    let moves = vec![Movement { origin: 'x', destination: 'a' }];
    let mut board = Board::new(&deck);
    assert!(!replay(&mut board, &moves));
}

#[test]
fn replay_of_an_empty_sequence_reports_the_board_as_it_stands() {
    let deck = winnable_deck();
    let mut board = Board::new(&deck);
    let no_moves: Vec<Movement> = Vec::new();
    assert!(!replay(&mut board, &no_moves));
}

#[test]
fn random_move_is_always_one_the_board_permitted() {
    for offset in 0..5usize {
        let mut board = Board::new(&Deck::new());
        let snapshot = board.clone();
        let chosen = make_random_move(&mut board, offset).expect("the fresh deal has moves");
        assert!(snapshot.permits(chosen));
    }
}

#[test]
fn random_move_varies_its_choice() {
    // If the random index were not drawn from within the permitted
    // range, every call would land on the same movement; across many
    // fresh deals of the same deck the choices must differ.
    let mut seen = Vec::new();
    for _ in 0..60 {
        let mut board = Board::new(&Deck::new());
        if let Some(m) = make_random_move(&mut board, 0) {
            let pair = (m.origin, m.destination);
            if !seen.contains(&pair) {
                seen.push(pair);
            }
        }
    }
    assert!(seen.len() >= 2);
}

#[test]
fn a_stuck_board_yields_no_random_move() {
    // On a won board no movement is permitted at all.
    let deck = winnable_deck();
    let mut board = Board::new(&deck);
    assert!(replay(&mut board, &winning_moves()));
    assert!(make_random_move(&mut board, 0).is_none());
}

#[test]
fn a_winning_trial_hands_back_a_replayable_certificate() {
    let deck = winnable_deck();
    let mut won = 0;
    for offset in 0..40usize {
        if let TrialOutcome::Won(moves) = run_trial(&deck, offset) {
            assert!(moves.len() <= 700);
            let mut board = Board::new(&deck);
            assert!(replay(&mut board, &moves));
            assert_eq!(board.victory_state(), VictoryState::Won);
            won += 1;
            if won >= 2 {
                break;
            }
        }
    }
}

#[test]
fn the_solver_eventually_wins_an_easy_deal() {
    // Statistical liveness, bounded for the test bench: the stacked
    // deal leaves random play plenty of winning lines.
    let deck = winnable_deck();
    match can_find_win(&deck, 300) {
        Some(moves) => {
            let mut board = Board::new(&deck);
            assert!(replay(&mut board, &moves));
            assert_eq!(board.victory_state(), VictoryState::Won);
        },
        None => panic!("no winning trial within the budget"),
    }
}

#[test]
fn found_decks_come_with_their_winning_sequence() {
    // A bounded smoke run of the full search: whatever deck it finds,
    // the movement sequence it returns must win on a fresh board.
    if let Some((deck, moves)) = find_winnable_deck(40, 3) {
        let mut board = Board::new(&deck);
        assert!(replay(&mut board, &moves));
        assert_eq!(board.victory_state(), VictoryState::Won);
    }
}

/// A deck with chosen cards at chosen positions; every other position
/// takes the remaining cards in rank-major order.
fn positioned_deck(assign: &[(usize, Card)]) -> Deck {
    let key = |c: &Card| -> u32 {
        let s = match c.suit() {
            Suit::Spades => 0u32,
            Suit::Hearts => 1,
            Suit::Diamonds => 2,
            Suit::Clubs => 3,
        };
        s * 100 + c.rank() as u32
    };
    let standard = Deck::new();
    let mut rest: Vec<Card> =
        standard.cards.iter().filter(|c| !assign.iter().any(|(_, a)| key(a) == key(c))).cloned().collect();
    let mut cards = Vec::new();
    for p in 0..52usize {
        match assign.iter().find(|(pos, _)| *pos == p) {
            Some((_, c)) => cards.push(*c),
            None => cards.push(rest.remove(0)),
        }
    }
    assert_eq!(cards.len(), 52);
    Deck { cards }
}

/// The deck positions that end up on top of the nine columns.
const COLUMN_TOPS: [usize; 9] = [7, 9, 12, 16, 21, 27, 34, 42, 51];

/// Every visible card black and none of them an ace or in sequence:
/// the deal permits no movement at all.
fn stuck_deck() -> Deck {
    let hand = [
        Card::new(Suit::Spades, 13),
        Card::new(Suit::Spades, 12),
        Card::new(Suit::Spades, 11),
        Card::new(Suit::Spades, 10),
        Card::new(Suit::Spades, 9),
        Card::new(Suit::Spades, 8),
        Card::new(Suit::Spades, 7),
    ];
    let tops = [
        Card::new(Suit::Clubs, 13),
        Card::new(Suit::Clubs, 12),
        Card::new(Suit::Clubs, 11),
        Card::new(Suit::Clubs, 10),
        Card::new(Suit::Clubs, 9),
        Card::new(Suit::Clubs, 8),
        Card::new(Suit::Clubs, 7),
        Card::new(Suit::Clubs, 6),
        Card::new(Suit::Spades, 6),
    ];
    let mut assign = Vec::new();
    for (i, c) in hand.iter().enumerate() {
        assign.push((i, *c));
    }
    for (i, c) in tops.iter().enumerate() {
        assign.push((COLUMN_TOPS[i], *c));
    }
    positioned_deck(&assign)
}

/// Only the queen of diamonds can ever move, shuttling between the
/// two black kings: the game neither wins nor gets stuck.
fn cycling_deck() -> Deck {
    let hand = [
        Card::new(Suit::Diamonds, 12),
        Card::new(Suit::Spades, 9),
        Card::new(Suit::Clubs, 9),
        Card::new(Suit::Spades, 7),
        Card::new(Suit::Clubs, 7),
        Card::new(Suit::Spades, 5),
        Card::new(Suit::Clubs, 5),
    ];
    let tops = [
        Card::new(Suit::Spades, 13),
        Card::new(Suit::Clubs, 13),
        Card::new(Suit::Spades, 10),
        Card::new(Suit::Clubs, 10),
        Card::new(Suit::Spades, 8),
        Card::new(Suit::Clubs, 8),
        Card::new(Suit::Spades, 6),
        Card::new(Suit::Clubs, 6),
        Card::new(Suit::Spades, 4),
    ];
    let mut assign = Vec::new();
    for (i, c) in hand.iter().enumerate() {
        assign.push((i, *c));
    }
    for (i, c) in tops.iter().enumerate() {
        assign.push((COLUMN_TOPS[i], *c));
    }
    positioned_deck(&assign)
}

#[test]
fn a_dead_deal_is_reported_as_lost() {
    let deck = stuck_deck();
    let board = Board::new(&deck);
    assert!(board.permitted_moves().is_empty());
    assert!(matches!(run_trial(&deck, 0), TrialOutcome::Lost));
}

#[test]
fn a_deal_that_only_cycles_exhausts_the_move_budget() {
    let deck = cycling_deck();
    assert!(matches!(run_trial(&deck, 0), TrialOutcome::MaxMovesReached));
}

#[test]
fn the_only_permitted_move_is_the_one_chosen() {
    let mut board = Board::new(&cycling_deck());
    // Put the queen of diamonds on the king of spades; from then on
    // the board permits exactly one movement at a time.
    let first = Movement { origin: 'n', destination: 'e' };
    assert!(board.permits(first));
    board.execute(first);
    let moves = board.permitted_moves();
    assert_eq!(moves.len(), 1);
    assert_eq!(moves[0].origin, 'e');
    assert_eq!(moves[0].destination, 'f');
    // Whatever index the random source draws, the single permitted
    // movement is the one executed.
    for offset in 0..4usize {
        let m = make_random_move(&mut board, offset).expect("one movement is permitted");
        let back = make_random_move(&mut board, offset).expect("and one back again");
        assert!((m.origin, m.destination) == ('e', 'f') || (m.origin, m.destination) == ('f', 'e'));
        assert!((back.origin, back.destination) == ('e', 'f') || (back.origin, back.destination) == ('f', 'e'));
        assert_ne!(m.origin, back.origin);
    }
}
