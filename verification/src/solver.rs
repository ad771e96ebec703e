//! Randomized playout trials against a fixed deck, and the search for
//! a deck that some trial can win.

use vstd::prelude::*;
use rand::seq::IteratorRandom;

use crate::board::{dealt, lemma_empty_enumeration_is_stuck, lemma_permitted_moves_bound,
    lemma_permitted_moves_sound, Board, BoardV, Movement};
use crate::deck::Deck;
use crate::victory_state::VictoryState;

verus! {

/// The move budget of a single playout trial.
pub const MAX_MOVES: usize = 700;

/// How one playout trial ended: a win with its recorded movements, a
/// dead end with no permitted movement left, or an exhausted move
/// budget. The solver treats the latter two alike, as a failed trial.
#[derive(Debug)]
pub enum TrialOutcome {
    Won(Vec<Movement>),
    Lost,
    MaxMovesReached,
}

/// Replaying `ms` from `b`: every movement is permitted in turn on the
/// board the previous ones produced, and the final board is won.
pub open spec fn winning_replay(b: BoardV, ms: Seq<Movement>) -> bool
    decreases ms.len(),
{
    if ms.len() == 0 {
        b.is_won()
    } else {
        b.permits(ms[0]) && winning_replay(b.execute(ms[0]), ms.drop_first())
    }
}

/// Every movement of `ms` is permitted in turn from `b`.
pub open spec fn replay_all_permitted(b: BoardV, ms: Seq<Movement>) -> bool
    decreases ms.len(),
{
    if ms.len() == 0 {
        true
    } else {
        b.permits(ms[0]) && replay_all_permitted(b.execute(ms[0]), ms.drop_first())
    }
}

/// The board that replaying `ms` from `b` produces.
pub open spec fn replay_board(b: BoardV, ms: Seq<Movement>) -> BoardV
    decreases ms.len(),
{
    if ms.len() == 0 {
        b
    } else {
        replay_board(b.execute(ms[0]), ms.drop_first())
    }
}

/// Extending a replay by one movement plays it on the final board.
proof fn lemma_replay_push(b: BoardV, ms: Seq<Movement>, m: Movement)
    ensures
        replay_all_permitted(b, ms.push(m)) == (replay_all_permitted(b, ms) && replay_board(
            b,
            ms,
        ).permits(m)),
        replay_board(b, ms.push(m)) == replay_board(b, ms).execute(m),
    decreases ms.len(),
{
    if ms.len() == 0 {
        assert(ms.push(m)[0] == m);
        assert(ms.push(m).drop_first() =~= Seq::<Movement>::empty());
        assert(replay_all_permitted(b, ms.push(m)) == (b.permits(m) && replay_all_permitted(
            b.execute(m),
            ms.push(m).drop_first(),
        )));
        assert(replay_all_permitted(b.execute(m), ms.push(m).drop_first()));
        assert(replay_board(b, ms.push(m)) == replay_board(b.execute(m), ms.push(m).drop_first()));
        assert(replay_board(b.execute(m), ms.push(m).drop_first()) == b.execute(m));
    } else {
        assert(ms.push(m)[0] == ms[0]);
        assert(ms.push(m).drop_first() =~= ms.drop_first().push(m));
        lemma_replay_push(b.execute(ms[0]), ms.drop_first(), m);
        assert(replay_all_permitted(b, ms.push(m)) == (b.permits(ms[0]) && replay_all_permitted(
            b.execute(ms[0]),
            ms.push(m).drop_first(),
        )));
        assert(replay_all_permitted(b, ms) == (b.permits(ms[0]) && replay_all_permitted(
            b.execute(ms[0]),
            ms.drop_first(),
        )));
        assert(replay_board(b, ms.push(m)) == replay_board(
            b.execute(ms[0]),
            ms.push(m).drop_first(),
        ));
        assert(replay_board(b, ms) == replay_board(b.execute(ms[0]), ms.drop_first()));
    }
}

/// A replay is winning exactly when each movement is permitted in turn
/// and the board it ends on is won.
pub proof fn lemma_winning_replay(b: BoardV, ms: Seq<Movement>)
    ensures
        winning_replay(b, ms) == (replay_all_permitted(b, ms) && replay_board(b, ms).is_won()),
    decreases ms.len(),
{
    if ms.len() > 0 {
        lemma_winning_replay(b.execute(ms[0]), ms.drop_first());
    }
}

/// Round trip: a winning replay, played back deterministically, ends
/// on a won board.
pub proof fn lemma_winning_replay_reaches_won(b: BoardV, ms: Seq<Movement>)
    requires
        winning_replay(b, ms),
    ensures
        replay_board(b, ms).is_won(),
{
    lemma_winning_replay(b, ms);
}

/// Relies on rand::seq::IteratorRandom::choose over an exact-size
/// range: a nonempty range yields Some position drawn from within it,
/// so the unwrap cannot fail; rand::thread_rng supplies the entropy.
#[verifier::external_body]
fn choose_index(n: usize) -> (i: usize)
    requires
        n >= 1,
    ensures
        i < n,
{
    (0..n).into_iter().choose(&mut rand::thread_rng()).unwrap()
}

/// Choose one of the currently permitted movements at random and
/// execute it; `None` exactly when the board is stuck. The offset
/// only rotates which equally likely movement is taken.
pub fn make_random_move(board: &mut Board, offset: usize) -> (chosen: Option<Movement>)
    requires
        old(board)@.wf(),
    ensures
        match chosen {
            Option::Some(m) => old(board)@.permits(m) && final(board)@ == old(board)@.execute(m)
                && final(board)@.wf() && final(board)@.all_cards() == old(board)@.all_cards(),
            Option::None => final(board)@ == old(board)@ && old(board)@.stuck(),
        },
{
    let permitted_moves = board.permitted_moves();
    if permitted_moves.len() == 0 {
        proof {
            lemma_empty_enumeration_is_stuck(board@);
        }
        None
    } else {
        proof {
            lemma_permitted_moves_bound(board@);
        }
        let chosen_index = choose_index(permitted_moves.len());
        let index = (chosen_index + offset % permitted_moves.len()) % permitted_moves.len();
        let movement = permitted_moves[index];
        proof {
            lemma_permitted_moves_sound(board@);
        }
        board.execute(movement);
        Some(movement)
    }
}

/// One randomized playout against a private board dealt from the
/// deck: random permitted movements until victory, a dead end, or the
/// move budget runs out. `Won(moves)` is a certificate: replaying
/// `moves` on a fresh board from this deck is a winning replay. The
/// other outcomes carry their evidence in the contract: `Lost` says a
/// permitted line from the deal ends on a stuck board, and
/// `MaxMovesReached` that a permitted line ran the whole budget.
pub fn run_trial(deck: &Deck, offset: usize) -> (outcome: TrialOutcome)
    requires
        deck.wf(),
        offset <= usize::MAX - MAX_MOVES,
    ensures
        match outcome {
            TrialOutcome::Won(moves) => winning_replay(dealt(deck@), moves@) && moves@.len()
                <= MAX_MOVES,
            TrialOutcome::Lost => exists|ms: Seq<Movement>|
                #[trigger] replay_all_permitted(dealt(deck@), ms) && replay_board(
                    dealt(deck@),
                    ms,
                ).stuck(),
            TrialOutcome::MaxMovesReached => exists|ms: Seq<Movement>|
                #[trigger] replay_all_permitted(dealt(deck@), ms) && ms.len() == MAX_MOVES,
        },
{
    let mut board = Board::new(deck);
    let mut moves: Vec<Movement> = Vec::new();
    let mut j: usize = 0;
    while j < MAX_MOVES
        invariant
            deck.wf(),
            0 <= j <= MAX_MOVES,
            offset <= usize::MAX - MAX_MOVES,
            moves@.len() == j,
            board@.wf(),
            replay_all_permitted(dealt(deck@), moves@),
            replay_board(dealt(deck@), moves@) == board@,
        decreases MAX_MOVES - j,
    {
        let ghost before = moves@;
        match make_random_move(&mut board, offset + j) {
            Some(movement) => {
                moves.push(movement);
                proof {
                    lemma_replay_push(dealt(deck@), before, movement);
                }
                match board.victory_state() {
                    VictoryState::Won => {
                        proof {
                            lemma_winning_replay(dealt(deck@), moves@);
                        }
                        return TrialOutcome::Won(moves);
                    },
                    VictoryState::Ongoing => {},
                }
            },
            None => {
                proof {
                    assert(replay_all_permitted(dealt(deck@), moves@) && replay_board(
                        dealt(deck@),
                        moves@,
                    ).stuck());
                }
                return TrialOutcome::Lost;
            },
        }
        j += 1;
    }
    proof {
        assert(replay_all_permitted(dealt(deck@), moves@) && moves@.len() == MAX_MOVES);
    }
    TrialOutcome::MaxMovesReached
}

/// Hunt for a winning playout against one fixed deck: up to
/// `attempts` independent trials, each against its own fresh board.
/// `Some` carries the winning trial's certificate.
pub fn can_find_win(deck: &Deck, attempts: usize) -> (outcome: Option<Vec<Movement>>)
    requires
        deck.wf(),
        attempts <= usize::MAX - MAX_MOVES,
    ensures
        match outcome {
            Option::Some(moves) => winning_replay(dealt(deck@), moves@),
            Option::None => true,
        },
{
    let mut t: usize = 0;
    while t < attempts
        invariant
            deck.wf(),
            0 <= t <= attempts,
            attempts <= usize::MAX - MAX_MOVES,
        decreases attempts - t,
    {
        if let TrialOutcome::Won(moves) = run_trial(deck, t) {
            return Some(moves);
        }
        t += 1;
    }
    None
}

/// Search for a winnable deal: reshuffle up to `max_reshuffles` times
/// and hunt for a win against each candidate; on success, return the
/// deck together with the winning movement sequence. A caller that
/// wants the search to run until it succeeds keeps calling until
/// `Some` comes back.
pub fn find_winnable_deck(attempts_per_deck: usize, max_reshuffles: usize) -> (found: Option<
    (Deck, Vec<Movement>),
>)
    requires
        attempts_per_deck <= usize::MAX - MAX_MOVES,
    ensures
        match found {
            Option::Some(won) => won.0.wf() && winning_replay(dealt(won.0@), won.1@),
            Option::None => true,
        },
{
    let mut deck = Deck::new();
    let mut r: usize = 0;
    while r < max_reshuffles
        invariant
            deck.wf(),
            0 <= r <= max_reshuffles,
            attempts_per_deck <= usize::MAX - MAX_MOVES,
        decreases max_reshuffles - r,
    {
        deck.shuffle();
        if let Some(moves) = can_find_win(&deck, attempts_per_deck) {
            return Some((deck, moves));
        }
        r += 1;
    }
    None
}

/// Replay a recorded movement sequence against a board, one movement
/// at a time, stopping at the first one the board does not permit.
/// Deterministic: no randomness is involved. True exactly when the
/// whole sequence was permitted and ended on a won board.
pub fn replay(board: &mut Board, moves: &Vec<Movement>) -> (won: bool)
    requires
        old(board)@.wf(),
    ensures
        won == winning_replay(old(board)@, moves@),
        final(board)@.wf(),
        final(board)@.all_cards() == old(board)@.all_cards(),
{
    let ghost b0 = old(board)@;
    proof {
        assert(moves@.subrange(0, moves@.len() as int) =~= moves@);
    }
    let mut i: usize = 0;
    while i < moves.len()
        invariant
            0 <= i <= moves@.len(),
            board@.wf(),
            board@.all_cards() == old(board)@.all_cards(),
            winning_replay(b0, moves@) == winning_replay(board@, moves@.subrange(
                i as int,
                moves@.len() as int,
            )),
            b0 == old(board)@,
        decreases moves@.len() - i,
    {
        let ghost suffix = moves@.subrange(i as int, moves@.len() as int);
        let movement = moves[i];
        proof {
            assert(suffix[0] == movement);
        }
        if !movement.is_valid() {
            proof {
                assert(!winning_replay(board@, suffix));
            }
            return false;
        }
        if !board.permits(movement) {
            proof {
                assert(!winning_replay(board@, suffix));
            }
            return false;
        }
        board.execute(movement);
        proof {
            assert(suffix.drop_first() =~= moves@.subrange(i + 1, moves@.len() as int));
        }
        i += 1;
    }
    proof {
        assert(moves@.subrange(moves@.len() as int, moves@.len() as int).len() == 0);
    }
    let state = board.victory_state();
    state == VictoryState::Won
}

} // verus!
