use vstd::prelude::*;
use crate::bitboard::Bitboard;
use crate::luts::EngineLUTs;
use crate::moves::Move;
use crate::state::{GameState, Player, allies_of, spec_is_lost, spec_make_move};

verus! {

// ============================================================================
// SELF-PLAY GAMES
// ============================================================================
// A self-play game runs turn by turn: the environment decides whether the game goes on
// (a side without moves has lost, a move limit ends it, and a side that repeats one of its
// last four arrangements stands in a stand-off), the agent picks a move, and the environment
// plays it.

/// Runs self-play games on a move limit.
pub struct SimulationEnvironment<'a> {
    pub luts: &'a EngineLUTs,
    pub max_moves: usize,
}

/// A game in progress: the position, the moves played, and the last four arrangements of
/// each side's pieces (a ring indexed by the move number halved).
#[derive(Clone, Copy, Debug)]
pub struct GameProgress {
    pub current_state: GameState,
    pub move_counter: usize,
    pub p1_history: [Bitboard; 4],
    pub p2_history: [Bitboard; 4],
    pub game_is_drawn: bool,
}

/// What the environment decides before a turn.
#[derive(Clone, Copy, PartialEq, Eq, Structural, Debug)]
pub enum TurnDecision {
    /// The side to move picks a move.
    Play,
    /// The side to move repeated an earlier arrangement: the game is stopped.
    Drawn,
    /// The side to move has lost, or the move limit is reached.
    Over,
}

/// The history ring of the side to move.
pub open spec fn mover_history(g: GameProgress) -> Seq<Bitboard> {
    match g.current_state.active_player {
        Player::P1 => g.p1_history@,
        Player::P2 => g.p2_history@,
    }
}

/// The nonempty arrangement `pieces` is one of the recorded ones.
pub open spec fn repeats(history: Seq<Bitboard>, pieces: u64) -> bool {
    exists|i: int| 0 <= i < history.len() && #[trigger] history[i].0 == pieces && pieces != 0
}

/// The ring slot a move number records into.
pub open spec fn history_slot(move_counter: usize) -> int {
    ((move_counter / 2) % 4) as int
}

impl<'a> SimulationEnvironment<'a> {
    /// An environment that stops games after `max_moves` moves.
    pub fn new(luts: &'a EngineLUTs, max_moves: usize) -> (r: Self)
        ensures
            r.luts == luts,
            r.max_moves == max_moves,
    {
        SimulationEnvironment { luts, max_moves }
    }

    /// A game at `initial_state` with no move played and empty histories.
    pub fn start_game(&self, initial_state: GameState) -> (r: GameProgress)
        ensures
            r.current_state == initial_state,
            r.move_counter == 0,
            forall|i: int| 0 <= i < 4 ==> (#[trigger] r.p1_history@[i]).0 == 0 && r.p2_history@[i].0 == 0,
            !r.game_is_drawn,
    {
        GameProgress {
            current_state: initial_state,
            move_counter: 0,
            p1_history: [Bitboard(0), Bitboard(0), Bitboard(0), Bitboard(0)],
            p2_history: [Bitboard(0), Bitboard(0), Bitboard(0), Bitboard(0)],
            game_is_drawn: false,
        }
    }

    /// Decides the next turn: over when the side to move has lost or the limit is reached;
    /// drawn when its pieces stand as in one of its recorded arrangements; else its
    /// arrangement is recorded and it plays.
    pub fn begin_turn(&self, game: &mut GameProgress) -> (r: TurnDecision)
        ensures
            (spec_is_lost(old(game).current_state) || old(game).move_counter >= self.max_moves) ==> r
                == TurnDecision::Over && *final(game) == *old(game),
            !(spec_is_lost(old(game).current_state) || old(game).move_counter >= self.max_moves) ==> {
                let pieces = allies_of(old(game).current_state);
                if repeats(mover_history(*old(game)), pieces) {
                    &&& r == TurnDecision::Drawn
                    &&& *final(game) == GameProgress { game_is_drawn: true, ..*old(game) }
                } else {
                    &&& r == TurnDecision::Play
                    &&& final(game).current_state == old(game).current_state
                    &&& final(game).move_counter == old(game).move_counter
                    &&& final(game).game_is_drawn == old(game).game_is_drawn
                    &&& mover_history(*final(game)) == mover_history(*old(game)).update(
                        history_slot(old(game).move_counter),
                        Bitboard(pieces),
                    )
                    &&& old(game).current_state.active_player == Player::P1 ==> final(game).p2_history
                        == old(game).p2_history
                    &&& old(game).current_state.active_player == Player::P2 ==> final(game).p1_history
                        == old(game).p1_history
                }
            },
    {
        if game.current_state.is_lost() || game.move_counter >= self.max_moves {
            return TurnDecision::Over;
        }
        let current_pieces = game.current_state.get_player_pieces(game.current_state.active_player);
        let history = match game.current_state.active_player {
            Player::P1 => game.p1_history,
            Player::P2 => game.p2_history,
        };
        let mut k: usize = 0;
        while k < 4
            invariant
                k <= 4,
                *game == *old(game),
                !(spec_is_lost(game.current_state) || game.move_counter >= self.max_moves),
                history@ == mover_history(*game),
                current_pieces.0 == allies_of(game.current_state),
                forall|i: int| 0 <= i < k ==> !(#[trigger] history@[i].0 == current_pieces.0 && current_pieces.0 != 0),
            decreases 4 - k,
        {
            if history[k].0 == current_pieces.0 && !history[k].is_empty() {
                proof {
                    assert(history@[k as int].0 == current_pieces.0);
                    assert(repeats(mover_history(*game), allies_of(game.current_state)));
                }
                game.game_is_drawn = true;
                return TurnDecision::Drawn;
            }
            k = k + 1;
        }
        proof {
            if repeats(mover_history(*game), allies_of(game.current_state)) {
                let i = choose|i: int| 0 <= i < history@.len() && #[trigger] history@[i].0 == current_pieces.0
                    && current_pieces.0 != 0;
                assert(!(history@[i].0 == current_pieces.0 && current_pieces.0 != 0));
            }
        }
        let history_index = (game.move_counter / 2) % 4;
        match game.current_state.active_player {
            Player::P1 => {
                game.p1_history[history_index] = current_pieces;
            },
            Player::P2 => {
                game.p2_history[history_index] = current_pieces;
            },
        }
        proof {
            assert(mover_history(*game) =~= history@.update(history_index as int, current_pieces));
        }
        TurnDecision::Play
    }

    /// Plays the chosen move and counts it.
    pub fn play(&self, game: &mut GameProgress, chosen_move: Move)
        requires
            old(game).move_counter < self.max_moves,
        ensures
            *final(game) == (GameProgress {
                current_state: spec_make_move(old(game).current_state, chosen_move),
                move_counter: (old(game).move_counter + 1) as usize,
                ..*old(game)
            }),
    {
        game.current_state.make_move(chosen_move);
        game.move_counter = game.move_counter + 1;
    }

    /// Whether the finished game ends in a loss worth a terminal sample: it was neither
    /// stopped as a stand-off nor cut by the move limit, and the side to move has lost.
    pub fn append_terminal_conditions(&self, game: &GameProgress) -> (r: bool)
        ensures
            r == (!(game.game_is_drawn || game.move_counter >= self.max_moves) && spec_is_lost(
                game.current_state,
            )),
    {
        if game.game_is_drawn || game.move_counter >= self.max_moves {
            false
        } else {
            game.current_state.is_lost()
        }
    }
}

} // verus!
