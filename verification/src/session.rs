use vstd::prelude::*;
use crate::bitboard::{Bitboard, bit_set, group_bits};
use crate::movegen::{generate_piece_moves, move_mask, piece_target, lemma_move_mask, is_move_mask};
use crate::moves::{Move, flag_for};
use crate::evaluators::PositionEvaluator;
use crate::heuristics::{FeatureMatrix, evaluate_position, matrix_matches};
use crate::luts::EngineLUTs;
use crate::score::EvaluationScore;
use crate::state::{
    GameState, Player, allies_of, enemies_of, is_legal_move, spec_is_lost, spec_make_move,
};

verus! {

// ============================================================================
// INTERACTIVE SESSION
// ============================================================================
// The state of an interactive game at the board: the position, the rule mode, who controls
// each side, the cursor and the selection, and the last notice shown to the player. Keys come
// in as `KeyInput` values; the session answers with its new state.

/// Strict rules, or a sandbox where pieces can be moved and placed freely.
#[derive(Clone, Copy, PartialEq, Eq, Structural, Debug)]
pub enum GameMode {
    Strict,
    Freeform,
}

/// Whether a piece is held, and where it may go.
#[derive(Clone, Copy, PartialEq, Eq, Structural, Debug)]
pub enum SelectionState {
    Idle,
    PieceSelected { index: u8, valid_moves: Bitboard },
}

/// Who plays a side.
#[derive(Clone, Copy, PartialEq, Eq, Structural, Debug)]
pub enum ControllerAgent {
    Human,
    AI,
}

/// The information panel on display.
#[derive(Clone, Copy, PartialEq, Eq, Structural, Debug)]
pub enum ActivePanelTab {
    ControlMap,
    GameState,
    HeuristicsTable,
    AIMoveAnalysis,
}

/// The position of a tab in the panel bar.
pub open spec fn tab_index(tab: ActivePanelTab) -> usize {
    match tab {
        ActivePanelTab::ControlMap => 0,
        ActivePanelTab::GameState => 1,
        ActivePanelTab::HeuristicsTable => 2,
        ActivePanelTab::AIMoveAnalysis => 3,
    }
}

/// The tab at a position of the panel bar; positions past the bar give the first tab.
pub open spec fn tab_at(index: usize) -> ActivePanelTab {
    if index == 1 {
        ActivePanelTab::GameState
    } else if index == 2 {
        ActivePanelTab::HeuristicsTable
    } else if index == 3 {
        ActivePanelTab::AIMoveAnalysis
    } else {
        ActivePanelTab::ControlMap
    }
}

impl ActivePanelTab {
    /// The tab at a position of the panel bar (the first tab past the end).
    pub fn from_index(index: usize) -> (r: Self)
        ensures
            r == tab_at(index),
    {
        match index {
            1 => ActivePanelTab::GameState,
            2 => ActivePanelTab::HeuristicsTable,
            3 => ActivePanelTab::AIMoveAnalysis,
            _ => ActivePanelTab::ControlMap,
        }
    }

    /// The position of the tab in the panel bar.
    pub fn index(&self) -> (r: usize)
        ensures
            r == tab_index(*self),
    {
        match self {
            ActivePanelTab::ControlMap => 0,
            ActivePanelTab::GameState => 1,
            ActivePanelTab::HeuristicsTable => 2,
            ActivePanelTab::AIMoveAnalysis => 3,
        }
    }
}

/// The notices the session shows the player.
#[derive(Clone, Copy, PartialEq, Eq, Structural, Debug)]
pub enum Notice {
    GameReset,
    FreeformActive,
    StrictActive,
    P1ToAi,
    P1ToHuman,
    P2ToAi,
    P2ToHuman,
    SelectionFlushed,
    NoMobility,
    PieceLocked,
    InvalidTarget,
    SelectionDropped,
    SelectionReassigned,
    GameOver,
    MoveValidated,
    IllegalTarget,
    SandboxAnchor,
    SandboxEmpty,
    SandboxDropped,
    SandboxMoved,
    InjectedP1,
    InjectedP2,
    ClearedCell,
    TurnToggled,
}

/// The text of a notice.
pub open spec fn notice_text(x: Notice) -> Seq<char> {
    match x {
        Notice::GameReset => "Game state reset to initial competitive configuration."@,
        Notice::FreeformActive => "Mode shifted: Freeform Sandbox Active."@,
        Notice::StrictActive => "Mode shifted: Strict Rules Enforcement Active."@,
        Notice::P1ToAi => "Player 1 assigned to AI."@,
        Notice::P1ToHuman => "Player 1 assigned to Human."@,
        Notice::P2ToAi => "Player 2 assigned to AI."@,
        Notice::P2ToHuman => "Player 2 assigned to Human."@,
        Notice::SelectionFlushed => "Active coordinates selection flushed."@,
        Notice::NoMobility => "Selected target possesses zero outbound mobility options."@,
        Notice::PieceLocked => "Piece locked. Confirm destination index."@,
        Notice::InvalidTarget => "Invalid item target. Must select an allied component."@,
        Notice::SelectionDropped => "Piece selection dropped."@,
        Notice::SelectionReassigned => "Active piece selection reassigned."@,
        Notice::GameOver => "Terminal node state detected. Game Over."@,
        Notice::MoveValidated => "Movement validated. Perspective turn swapped."@,
        Notice::IllegalTarget => "Target cell breaks legal geometric constraints."@,
        Notice::SandboxAnchor => "Sandbox anchor hoisted. Place anywhere on the grid layout."@,
        Notice::SandboxEmpty => "No valid structural entity exists at the specified grid coordinate."@,
        Notice::SandboxDropped => "Sandbox target dropped."@,
        Notice::SandboxMoved => "Sandbox entity repositioned."@,
        Notice::InjectedP1 => "Injected Player 1 piece."@,
        Notice::InjectedP2 => "Injected Player 2 piece."@,
        Notice::ClearedCell => "Cleared contents of cell."@,
        Notice::TurnToggled => "Manually toggled active player ownership."@,
    }
}

impl Notice {
    /// The text of the notice.
    pub fn text(&self) -> (r: &'static str)
        ensures
            r@ == notice_text(*self),
    {
        match self {
            Notice::GameReset => "Game state reset to initial competitive configuration.",
            Notice::FreeformActive => "Mode shifted: Freeform Sandbox Active.",
            Notice::StrictActive => "Mode shifted: Strict Rules Enforcement Active.",
            Notice::P1ToAi => "Player 1 assigned to AI.",
            Notice::P1ToHuman => "Player 1 assigned to Human.",
            Notice::P2ToAi => "Player 2 assigned to AI.",
            Notice::P2ToHuman => "Player 2 assigned to Human.",
            Notice::SelectionFlushed => "Active coordinates selection flushed.",
            Notice::NoMobility => "Selected target possesses zero outbound mobility options.",
            Notice::PieceLocked => "Piece locked. Confirm destination index.",
            Notice::InvalidTarget => "Invalid item target. Must select an allied component.",
            Notice::SelectionDropped => "Piece selection dropped.",
            Notice::SelectionReassigned => "Active piece selection reassigned.",
            Notice::GameOver => "Terminal node state detected. Game Over.",
            Notice::MoveValidated => "Movement validated. Perspective turn swapped.",
            Notice::IllegalTarget => "Target cell breaks legal geometric constraints.",
            Notice::SandboxAnchor => "Sandbox anchor hoisted. Place anywhere on the grid layout.",
            Notice::SandboxEmpty => "No valid structural entity exists at the specified grid coordinate.",
            Notice::SandboxDropped => "Sandbox target dropped.",
            Notice::SandboxMoved => "Sandbox entity repositioned.",
            Notice::InjectedP1 => "Injected Player 1 piece.",
            Notice::InjectedP2 => "Injected Player 2 piece.",
            Notice::ClearedCell => "Cleared contents of cell.",
            Notice::TurnToggled => "Manually toggled active player ownership.",
        }
    }
}

/// A key press, as the session reads it.
#[derive(Clone, Copy, PartialEq, Eq, Structural, Debug)]
pub enum KeyInput {
    Char(char),
    Tab,
    Esc,
    Up,
    Down,
    Left,
    Right,
    Enter,
    Other,
}

/// The pieces of player 1 at the start of a game.
pub const P1_START: u64 = 0x0000_0000_0000_ffff;

/// The pieces of player 2 at the start of a game.
pub const P2_START: u64 = 0xffff_0000_0000_0000;

/// The state of a game at the board.
#[derive(Clone, Copy, PartialEq, Eq, Structural, Debug)]
pub struct Session {
    pub game_state: GameState,
    pub mode: GameMode,
    pub p1_agent: ControllerAgent,
    pub p2_agent: ControllerAgent,
    pub cursor_x: u8,
    pub cursor_y: u8,
    pub selection: SelectionState,
    pub active_tab: ActivePanelTab,
    pub message_log: Notice,
    pub running: bool,
}

/// Whose piece a square holds.
#[derive(Clone, Copy, PartialEq, Eq, Structural, Debug)]
pub enum Occupant {
    First,
    Second,
    Empty,
}

/// How a square is highlighted on the board.
#[derive(Clone, Copy, PartialEq, Eq, Structural, Debug)]
pub enum Highlight {
    /// The square under the cursor.
    Cursor,
    /// The square of the selected piece.
    SelectedPiece,
    /// A square the selected piece may move to.
    Destination,
    /// A square whose rank and file add up to an even number.
    DarkSquare,
    /// A square whose rank and file add up to an odd number.
    LightSquare,
}

/// What a square of the board shows.
#[derive(Clone, Copy, PartialEq, Eq, Structural, Debug)]
pub struct CellView {
    pub occupant: Occupant,
    pub highlight: Highlight,
}

/// How square `idx` is shown in the session `s`.
pub open spec fn spec_cell_view(s: Session, idx: u8) -> CellView {
    let rank = idx / 8;
    let file = idx % 8;
    let shade = if (rank + file) % 2 == 0 { Highlight::DarkSquare } else { Highlight::LightSquare };
    CellView {
        occupant: if bit_set(s.game_state.p1_pieces.0, idx as u64) {
            Occupant::First
        } else if bit_set(s.game_state.p2_pieces.0, idx as u64) {
            Occupant::Second
        } else {
            Occupant::Empty
        },
        highlight: if s.cursor_x == file && s.cursor_y == rank {
            Highlight::Cursor
        } else {
            match s.selection {
                SelectionState::PieceSelected { index, valid_moves } => {
                    if index == idx {
                        Highlight::SelectedPiece
                    } else if bit_set(valid_moves.0, idx as u64) {
                        Highlight::Destination
                    } else {
                        shade
                    }
                },
                SelectionState::Idle => shade,
            }
        },
    }
}

/// The position at the start of a game.
pub open spec fn starting_position() -> GameState {
    GameState { p1_pieces: Bitboard(P1_START), p2_pieces: Bitboard(P2_START), active_player: Player::P1 }
}

impl Session {
    /// The cursor is on the board; a selection is on the board and, under strict rules, holds
    /// an allied piece with its current move mask, while the sandbox lets it go anywhere.
    pub open spec fn wf(&self) -> bool {
        &&& self.cursor_x < 8
        &&& self.cursor_y < 8
        &&& match self.selection {
            SelectionState::Idle => true,
            SelectionState::PieceSelected { index, valid_moves } => {
                &&& index < 64
                &&& self.mode == GameMode::Strict ==> {
                    &&& bit_set(allies_of(self.game_state), index as u64)
                    &&& valid_moves.0 == move_mask(
                        allies_of(self.game_state),
                        enemies_of(self.game_state),
                        index as int,
                        false,
                    )
                }
                &&& self.mode == GameMode::Freeform ==> valid_moves.0 == u64::MAX
            },
        }
    }

    /// The square under the cursor.
    pub open spec fn spec_cursor_index(&self) -> u8 {
        (self.cursor_y * 8 + self.cursor_x) as u8
    }

    /// The side to move is played by the engine.
    pub open spec fn spec_active_player_ai(&self) -> bool {
        match self.game_state.active_player {
            Player::P1 => self.p1_agent == ControllerAgent::AI,
            Player::P2 => self.p2_agent == ControllerAgent::AI,
        }
    }

    /// A fresh session at the starting position: strict rules, both sides human, the cursor
    /// near the middle, nothing selected, the first tab, running.
    pub fn new() -> (r: Self)
        ensures
            r.wf(),
            r.game_state == starting_position(),
            r.mode == GameMode::Strict,
            r.p1_agent == ControllerAgent::Human,
            r.p2_agent == ControllerAgent::Human,
            r.cursor_x == 3,
            r.cursor_y == 3,
            r.selection == SelectionState::Idle,
            r.active_tab == ActivePanelTab::ControlMap,
            r.message_log == Notice::GameReset,
            r.running,
    {
        let mut s = Session {
            game_state: GameState::new(0, 0, Player::P1),
            mode: GameMode::Strict,
            p1_agent: ControllerAgent::Human,
            p2_agent: ControllerAgent::Human,
            cursor_x: 3,
            cursor_y: 3,
            selection: SelectionState::Idle,
            active_tab: ActivePanelTab::ControlMap,
            message_log: Notice::GameReset,
            running: true,
        };
        s.reset_to_starting_position();
        s
    }

    /// Sets the starting position again and drops the selection.
    pub fn reset_to_starting_position(&mut self)
        ensures
            *final(self) == (Session {
                game_state: starting_position(),
                selection: SelectionState::Idle,
                message_log: Notice::GameReset,
                ..*old(self)
            }),
    {
        self.game_state = GameState::new(P1_START, P2_START, Player::P1);
        self.selection = SelectionState::Idle;
        self.log(Notice::GameReset);
    }

    /// Whether the side to move is played by the engine.
    pub fn is_active_player_ai(&self) -> (r: bool)
        ensures
            r == self.spec_active_player_ai(),
    {
        match self.game_state.active_player {
            Player::P1 => self.p1_agent == ControllerAgent::AI,
            Player::P2 => self.p2_agent == ControllerAgent::AI,
        }
    }

    /// The square under the cursor, counted rank by rank from the bottom left.
    pub fn cursor_index(&self) -> (r: u8)
        requires
            self.cursor_x < 8,
            self.cursor_y < 8,
        ensures
            r == self.spec_cursor_index(),
            r < 64,
    {
        self.cursor_y * 8 + self.cursor_x
    }

    /// How the square `idx` is shown: whose piece stands on it, and its highlight — the
    /// cursor first, then the selected piece, then the selected piece's destinations, else
    /// the checkerboard shade.
    pub fn cell_view(&self, idx: u8) -> (r: CellView)
        requires
            idx < 64,
        ensures
            r == spec_cell_view(*self, idx),
    {
        let occupant = if self.game_state.p1_pieces.has_bit(idx) {
            Occupant::First
        } else if self.game_state.p2_pieces.has_bit(idx) {
            Occupant::Second
        } else {
            Occupant::Empty
        };
        let rank = idx / 8;
        let file = idx % 8;
        let highlight = if self.cursor_x == file && self.cursor_y == rank {
            Highlight::Cursor
        } else {
            match self.selection {
                SelectionState::PieceSelected { index, valid_moves } => {
                    if index == idx {
                        Highlight::SelectedPiece
                    } else if valid_moves.has_bit(idx) {
                        Highlight::Destination
                    } else if (rank + file) % 2 == 0 {
                        Highlight::DarkSquare
                    } else {
                        Highlight::LightSquare
                    }
                },
                SelectionState::Idle => {
                    if (rank + file) % 2 == 0 {
                        Highlight::DarkSquare
                    } else {
                        Highlight::LightSquare
                    }
                },
            }
        };
        CellView { occupant, highlight }
    }

    /// The feature matrix of the position, from the side to move.
    pub fn get_current_heuristics(&self, luts: &EngineLUTs) -> (r: FeatureMatrix)
        requires
            luts.wf(),
        ensures
            matrix_matches(r, allies_of(self.game_state), enemies_of(self.game_state)),
    {
        let (allied, enemy) = self.game_state.get_player_pieces_relative();
        evaluate_position(allied, enemy, luts)
    }

    /// The evaluator's value of the position for the side to move, a forced result shown as
    /// the extreme value.
    pub fn get_position_score<E: PositionEvaluator>(&self, evaluator: &E) -> (r: i32)
        requires
            evaluator.ready(),
        ensures
            r == match evaluator.spec_evaluate(self.game_state) {
                EvaluationScore::Value(v) => v,
                EvaluationScore::Mating(_) => i32::MAX,
                EvaluationScore::Mated(_) => i32::MIN,
            },
    {
        match evaluator.evaluate(&self.game_state) {
            EvaluationScore::Value(v) => v,
            EvaluationScore::Mating(_) => i32::MAX,
            EvaluationScore::Mated(_) => i32::MIN,
        }
    }

    /// Shows a notice.
    pub fn log(&mut self, msg: Notice)
        ensures
            *final(self) == (Session { message_log: msg, ..*old(self) }),
    {
        self.message_log = msg;
    }
}

// ============================================================================
// BOARD CLICKS AND KEYS
// ============================================================================

/// A click under strict rules. With nothing held: an allied piece with moves is picked up
/// with its move mask. Holding a piece: clicking it again drops it, clicking another allied
/// piece picks that one up instead, clicking a square of the mask plays the move (and drops
/// the piece); anything else is refused with a notice.
pub open spec fn spec_strict_click(s: Session, idx: u8) -> Session {
    let allies = allies_of(s.game_state);
    let enemies = enemies_of(s.game_state);
    match s.selection {
        SelectionState::Idle => if bit_set(allies, idx as u64) {
            let vm = move_mask(allies, enemies, idx as int, false);
            if vm == 0 {
                Session { message_log: Notice::NoMobility, ..s }
            } else {
                Session {
                    selection: SelectionState::PieceSelected { index: idx, valid_moves: Bitboard(vm) },
                    message_log: Notice::PieceLocked,
                    ..s
                }
            }
        } else {
            Session { message_log: Notice::InvalidTarget, ..s }
        },
        SelectionState::PieceSelected { index: src, valid_moves } => if src == idx {
            Session { selection: SelectionState::Idle, message_log: Notice::SelectionDropped, ..s }
        } else if bit_set(allies, idx as u64) {
            Session {
                selection: SelectionState::PieceSelected {
                    index: idx,
                    valid_moves: Bitboard(move_mask(allies, enemies, idx as int, false)),
                },
                message_log: Notice::SelectionReassigned,
                ..s
            }
        } else if bit_set(valid_moves.0, idx as u64) {
            let next = spec_make_move(s.game_state, Move::spec_new(src, idx, 0));
            Session {
                game_state: next,
                selection: SelectionState::Idle,
                message_log: if spec_is_lost(next) {
                    Notice::GameOver
                } else {
                    Notice::MoveValidated
                },
                ..s
            }
        } else {
            Session { message_log: Notice::IllegalTarget, ..s }
        },
    }
}

/// The position with the piece on `src` moved to `dst` (a player 2 piece when player 1 has
/// none on `src`), removing whatever stood on `dst`.
pub open spec fn relocate(gs: GameState, src: u8, dst: u8) -> GameState {
    let keep = !(1u64 << src);
    let put = 1u64 << dst;
    if bit_set(gs.p1_pieces.0, src as u64) {
        GameState {
            p1_pieces: Bitboard((gs.p1_pieces.0 & keep) | put),
            p2_pieces: Bitboard(gs.p2_pieces.0 & !put),
            ..gs
        }
    } else {
        GameState {
            p1_pieces: Bitboard(gs.p1_pieces.0 & !put),
            p2_pieces: Bitboard((gs.p2_pieces.0 & keep) | put),
            ..gs
        }
    }
}

/// A click in the sandbox: any piece can be picked up and put down on any square.
pub open spec fn spec_freeform_click(s: Session, idx: u8) -> Session {
    match s.selection {
        SelectionState::Idle => if bit_set(s.game_state.p1_pieces.0, idx as u64) || bit_set(
            s.game_state.p2_pieces.0,
            idx as u64,
        ) {
            Session {
                selection: SelectionState::PieceSelected { index: idx, valid_moves: Bitboard(u64::MAX) },
                message_log: Notice::SandboxAnchor,
                ..s
            }
        } else {
            Session { message_log: Notice::SandboxEmpty, ..s }
        },
        SelectionState::PieceSelected { index: src, .. } => if src == idx {
            Session { selection: SelectionState::Idle, message_log: Notice::SandboxDropped, ..s }
        } else {
            Session {
                game_state: relocate(s.game_state, src, idx),
                selection: SelectionState::Idle,
                message_log: Notice::SandboxMoved,
                ..s
            }
        },
    }
}

/// The sandbox paint keys on the cursor square: '1' puts a player 1 piece, '2' a player 2
/// piece, '3' clears it, 't' passes the turn; other keys do nothing.
pub open spec fn spec_paint(s: Session, key: KeyInput) -> Session {
    let mask = 1u64 << s.spec_cursor_index();
    let gs = s.game_state;
    match key {
        KeyInput::Char(c) => if c == '1' {
            Session {
                game_state: GameState {
                    p1_pieces: Bitboard(gs.p1_pieces.0 | mask),
                    p2_pieces: Bitboard(gs.p2_pieces.0 & !mask),
                    ..gs
                },
                message_log: Notice::InjectedP1,
                ..s
            }
        } else if c == '2' {
            Session {
                game_state: GameState {
                    p1_pieces: Bitboard(gs.p1_pieces.0 & !mask),
                    p2_pieces: Bitboard(gs.p2_pieces.0 | mask),
                    ..gs
                },
                message_log: Notice::InjectedP2,
                ..s
            }
        } else if c == '3' {
            Session {
                game_state: GameState {
                    p1_pieces: Bitboard(gs.p1_pieces.0 & !mask),
                    p2_pieces: Bitboard(gs.p2_pieces.0 & !mask),
                    ..gs
                },
                message_log: Notice::ClearedCell,
                ..s
            }
        } else if c == 't' || c == 'T' {
            Session {
                game_state: GameState { active_player: gs.active_player.spec_opponent(), ..gs },
                message_log: Notice::TurnToggled,
                ..s
            }
        } else {
            s
        },
        _ => s,
    }
}

/// Plays a move under strict rules or moves a piece in the sandbox, by the selection state.
pub fn handle_strict_click(idx: u8, session: &mut Session)
    requires
        old(session).wf(),
        idx < 64,
    ensures
        *final(session) == spec_strict_click(*old(session), idx),
        old(session).mode == GameMode::Strict ==> final(session).wf(),
{
    let (allied_pieces, enemy_pieces) = session.game_state.get_player_pieces_relative();
    match session.selection {
        SelectionState::Idle => {
            if allied_pieces.has_bit(idx) {
                let valid_moves = generate_piece_moves(idx, allied_pieces, enemy_pieces, false);
                if valid_moves.is_empty() {
                    session.log(Notice::NoMobility);
                } else {
                    session.selection = SelectionState::PieceSelected { index: idx, valid_moves };
                    session.log(Notice::PieceLocked);
                }
            } else {
                session.log(Notice::InvalidTarget);
            }
        },
        SelectionState::PieceSelected { index: src_idx, valid_moves } => {
            if src_idx == idx {
                session.selection = SelectionState::Idle;
                session.log(Notice::SelectionDropped);
                return;
            }
            if allied_pieces.has_bit(idx) {
                let new_moves = generate_piece_moves(idx, allied_pieces, enemy_pieces, false);
                session.selection = SelectionState::PieceSelected { index: idx, valid_moves: new_moves };
                session.log(Notice::SelectionReassigned);
                return;
            }
            if valid_moves.has_bit(idx) {
                let verified_move = Move::new(src_idx, idx, 0);
                session.game_state.make_move(verified_move);
                session.selection = SelectionState::Idle;
                if session.game_state.is_lost() {
                    session.log(Notice::GameOver);
                } else {
                    session.log(Notice::MoveValidated);
                }
            } else {
                session.log(Notice::IllegalTarget);
            }
        },
    }
}

/// Picks up or puts down a piece in the sandbox.
pub fn handle_freeform_click(idx: u8, session: &mut Session)
    requires
        old(session).wf(),
        idx < 64,
    ensures
        *final(session) == spec_freeform_click(*old(session), idx),
        old(session).mode == GameMode::Freeform ==> final(session).wf(),
{
    match session.selection {
        SelectionState::Idle => {
            if session.game_state.p1_pieces.has_bit(idx) || session.game_state.p2_pieces.has_bit(idx) {
                session.selection = SelectionState::PieceSelected { index: idx, valid_moves: Bitboard(u64::MAX) };
                session.log(Notice::SandboxAnchor);
            } else {
                session.log(Notice::SandboxEmpty);
            }
        },
        SelectionState::PieceSelected { index: src_idx, .. } => {
            if src_idx == idx {
                session.selection = SelectionState::Idle;
                session.log(Notice::SandboxDropped);
                return;
            }
            execute_board_movement(src_idx, idx, session);
            session.selection = SelectionState::Idle;
            session.log(Notice::SandboxMoved);
        },
    }
}

/// Moves the piece on `src` to `dst`, whichever side it belongs to (player 2 when player 1
/// has no piece there), removing what stood on `dst`.
pub fn execute_board_movement(src: u8, dst: u8, session: &mut Session)
    requires
        src < 64,
        dst < 64,
    ensures
        *final(session) == (Session { game_state: relocate(old(session).game_state, src, dst), ..*old(session) }),
{
    let src_mask = Bitboard::from_square(src);
    let dst_mask = Bitboard::from_square(dst);
    if session.game_state.p1_pieces.has_bit(src) {
        session.game_state.p1_pieces = Bitboard((session.game_state.p1_pieces.0 & !src_mask.0) | dst_mask.0);
        session.game_state.p2_pieces = Bitboard(session.game_state.p2_pieces.0 & !dst_mask.0);
    } else {
        session.game_state.p2_pieces = Bitboard((session.game_state.p2_pieces.0 & !src_mask.0) | dst_mask.0);
        session.game_state.p1_pieces = Bitboard(session.game_state.p1_pieces.0 & !dst_mask.0);
    }
}

/// The sandbox paint keys, on the square under the cursor.
pub fn handle_sandbox_paint_tools(key: KeyInput, session: &mut Session)
    requires
        old(session).wf(),
    ensures
        *final(session) == spec_paint(*old(session), key),
        old(session).mode == GameMode::Freeform ==> final(session).wf(),
{
    let mask = Bitboard::from_square(session.cursor_index());
    match key {
        KeyInput::Char(c) => {
            if c == '1' {
                session.game_state.p1_pieces = Bitboard(session.game_state.p1_pieces.0 | mask.0);
                session.game_state.p2_pieces = Bitboard(session.game_state.p2_pieces.0 & !mask.0);
                session.log(Notice::InjectedP1);
            } else if c == '2' {
                session.game_state.p2_pieces = Bitboard(session.game_state.p2_pieces.0 | mask.0);
                session.game_state.p1_pieces = Bitboard(session.game_state.p1_pieces.0 & !mask.0);
                session.log(Notice::InjectedP2);
            } else if c == '3' {
                session.game_state.p1_pieces = Bitboard(session.game_state.p1_pieces.0 & !mask.0);
                session.game_state.p2_pieces = Bitboard(session.game_state.p2_pieces.0 & !mask.0);
                session.log(Notice::ClearedCell);
            } else if c == 't' || c == 'T' {
                session.game_state.switch_turn();
                session.log(Notice::TurnToggled);
            }
        },
        _ => {},
    }
}

/// A click on the cursor square under the current rules.
pub open spec fn spec_click(s: Session) -> Session {
    match s.mode {
        GameMode::Strict => spec_strict_click(s, s.spec_cursor_index()),
        GameMode::Freeform => spec_freeform_click(s, s.spec_cursor_index()),
    }
}

/// The other controller.
pub open spec fn toggled(a: ControllerAgent) -> ControllerAgent {
    match a {
        ControllerAgent::Human => ControllerAgent::AI,
        ControllerAgent::AI => ControllerAgent::Human,
    }
}

/// What a key does: 'q' quits, 'r' resets the game, Tab switches the rules (dropping the
/// selection), ']' and '[' cycle the panel tabs, '4' and '5' hand player 1 or 2 to the other
/// controller, Esc drops the selection, the arrows move the cursor within the board, space and
/// Enter click the cursor square, and other keys are sandbox paint keys in the sandbox.
pub open spec fn spec_handle_key(s: Session, key: KeyInput) -> Session {
    match key {
        KeyInput::Char(c) => if c == 'q' || c == 'Q' {
            Session { running: false, ..s }
        } else if c == 'r' || c == 'R' {
            Session {
                game_state: starting_position(),
                selection: SelectionState::Idle,
                message_log: Notice::GameReset,
                ..s
            }
        } else if c == ']' {
            Session { active_tab: tab_at(((tab_index(s.active_tab) + 1) % 4) as usize), ..s }
        } else if c == '[' {
            Session {
                active_tab: tab_at(
                    if tab_index(s.active_tab) == 0 {
                        3
                    } else {
                        (tab_index(s.active_tab) - 1) as usize
                    },
                ),
                ..s
            }
        } else if c == '4' {
            Session {
                p1_agent: toggled(s.p1_agent),
                message_log: if s.p1_agent == ControllerAgent::Human {
                    Notice::P1ToAi
                } else {
                    Notice::P1ToHuman
                },
                ..s
            }
        } else if c == '5' {
            Session {
                p2_agent: toggled(s.p2_agent),
                message_log: if s.p2_agent == ControllerAgent::Human {
                    Notice::P2ToAi
                } else {
                    Notice::P2ToHuman
                },
                ..s
            }
        } else if c == ' ' {
            spec_click(s)
        } else if s.mode == GameMode::Freeform {
            spec_paint(s, key)
        } else {
            s
        },
        KeyInput::Tab => match s.mode {
            GameMode::Strict => Session {
                selection: SelectionState::Idle,
                mode: GameMode::Freeform,
                message_log: Notice::FreeformActive,
                ..s
            },
            GameMode::Freeform => Session {
                selection: SelectionState::Idle,
                mode: GameMode::Strict,
                message_log: Notice::StrictActive,
                ..s
            },
        },
        KeyInput::Esc => Session { selection: SelectionState::Idle, message_log: Notice::SelectionFlushed, ..s },
        KeyInput::Up => if s.cursor_y < 7 {
            Session { cursor_y: (s.cursor_y + 1) as u8, ..s }
        } else {
            s
        },
        KeyInput::Down => if s.cursor_y > 0 {
            Session { cursor_y: (s.cursor_y - 1) as u8, ..s }
        } else {
            s
        },
        KeyInput::Left => if s.cursor_x > 0 {
            Session { cursor_x: (s.cursor_x - 1) as u8, ..s }
        } else {
            s
        },
        KeyInput::Right => if s.cursor_x < 7 {
            Session { cursor_x: (s.cursor_x + 1) as u8, ..s }
        } else {
            s
        },
        KeyInput::Enter => spec_click(s),
        KeyInput::Other => s,
    }
}

/// The key resets the game.
pub open spec fn is_reset_key(key: KeyInput) -> bool {
    key == KeyInput::Char('r') || key == KeyInput::Char('R')
}

/// Under strict rules, with the engine to move in a game that goes on, the engine is asked
/// for a move.
pub open spec fn engine_turn(s: Session) -> bool {
    s.mode == GameMode::Strict && s.spec_active_player_ai() && !spec_is_lost(s.game_state)
}

/// Applies a key to the session. Returns whether the key reset the game (any search for the
/// old position is stale) and whether the engine is now to move.
#[verifier::spinoff_prover]
#[verifier::rlimit(40)]
pub fn handle_key_events(key: KeyInput, session: &mut Session) -> (r: (bool, bool))
    requires
        old(session).wf(),
    ensures
        *final(session) == spec_handle_key(*old(session), key),
        final(session).wf(),
        r.0 == is_reset_key(key),
        r.1 == engine_turn(*final(session)),
{
    let mut was_reset = false;
    match key {
        KeyInput::Char(c) => {
            if c == 'q' || c == 'Q' {
                session.running = false;
            } else if c == 'r' || c == 'R' {
                session.reset_to_starting_position();
                was_reset = true;
            } else if c == ']' {
                let next_idx = (session.active_tab.index() + 1) % 4;
                session.active_tab = ActivePanelTab::from_index(next_idx);
            } else if c == '[' {
                let current = session.active_tab.index();
                let prev_idx = if current == 0 {
                    3
                } else {
                    current - 1
                };
                session.active_tab = ActivePanelTab::from_index(prev_idx);
            } else if c == '4' {
                session.p1_agent = match session.p1_agent {
                    ControllerAgent::Human => {
                        session.log(Notice::P1ToAi);
                        ControllerAgent::AI
                    },
                    ControllerAgent::AI => {
                        session.log(Notice::P1ToHuman);
                        ControllerAgent::Human
                    },
                };
            } else if c == '5' {
                session.p2_agent = match session.p2_agent {
                    ControllerAgent::Human => {
                        session.log(Notice::P2ToAi);
                        ControllerAgent::AI
                    },
                    ControllerAgent::AI => {
                        session.log(Notice::P2ToHuman);
                        ControllerAgent::Human
                    },
                };
            } else if c == ' ' {
                click_cursor(session);
            } else if session.mode == GameMode::Freeform {
                handle_sandbox_paint_tools(key, session);
            }
        },
        KeyInput::Tab => {
            session.selection = SelectionState::Idle;
            session.mode = match session.mode {
                GameMode::Strict => {
                    session.log(Notice::FreeformActive);
                    GameMode::Freeform
                },
                GameMode::Freeform => {
                    session.log(Notice::StrictActive);
                    GameMode::Strict
                },
            };
        },
        KeyInput::Esc => {
            session.selection = SelectionState::Idle;
            session.log(Notice::SelectionFlushed);
        },
        KeyInput::Up => {
            if session.cursor_y < 7 {
                session.cursor_y = session.cursor_y + 1;
            }
        },
        KeyInput::Down => {
            if session.cursor_y > 0 {
                session.cursor_y = session.cursor_y - 1;
            }
        },
        KeyInput::Left => {
            if session.cursor_x > 0 {
                session.cursor_x = session.cursor_x - 1;
            }
        },
        KeyInput::Right => {
            if session.cursor_x < 7 {
                session.cursor_x = session.cursor_x + 1;
            }
        },
        KeyInput::Enter => {
            click_cursor(session);
        },
        KeyInput::Other => {},
    }
    let engine_to_move = session.mode == GameMode::Strict && session.is_active_player_ai()
        && !session.game_state.is_lost();
    (was_reset, engine_to_move)
}

/// Clicks the square under the cursor under the current rules.
fn click_cursor(session: &mut Session)
    requires
        old(session).wf(),
    ensures
        *final(session) == spec_click(*old(session)),
        final(session).wf(),
{
    let current_idx = session.cursor_index();
    match session.mode {
        GameMode::Strict => handle_strict_click(current_idx, session),
        GameMode::Freeform => handle_freeform_click(current_idx, session),
    }
}

// ============================================================================
// LAWS
// ============================================================================

/// Under strict rules a click either leaves the position as it is or plays a legal move.
#[verifier::spinoff_prover]
#[verifier::rlimit(40)]
pub proof fn lemma_strict_click_plays_legal_moves(s: Session, idx: u8)
    requires
        s.wf(),
        s.mode == GameMode::Strict,
        idx < 64,
    ensures
        spec_strict_click(s, idx).game_state == s.game_state || exists|m: Move|
            is_legal_move(s.game_state, m) && spec_strict_click(s, idx).game_state == #[trigger] spec_make_move(
                s.game_state,
                m,
            ),
{
    broadcast use Move::lemma_spec_new_fields;

    match s.selection {
        SelectionState::Idle => {},
        SelectionState::PieceSelected { index: src, valid_moves } => {
            let allies = allies_of(s.game_state);
            let enemies = enemies_of(s.game_state);
            if src != idx && !bit_set(allies, idx as u64) && bit_set(valid_moves.0, idx as u64) {
                let m = Move::spec_new(src, idx, flag_for(enemies, idx as u64));
                lemma_move_mask(allies, enemies, src as int, false);
                assert(piece_target(allies, enemies, src as int, idx as int, false));
                assert(Move::CAPTURE_FLAG % 16 == Move::CAPTURE_FLAG);
                assert(is_legal_move(s.game_state, m));
                assert(spec_make_move(s.game_state, m) == spec_make_move(s.game_state, Move::spec_new(src, idx, 0)));
            }
        },
    }
}

} // verus!
