use core_engine::analysis::rate_legal_moves;
use core_engine::text::square_name;
use core_engine::bitboard::Bitboard;
use core_engine::evaluators::{default_evaluator_weights, PositionEvaluator, StaticDotProductEvaluator};
use core_engine::luts::EngineLUTs;
use core_engine::score::EvaluationScore;
use core_engine::session::{
    execute_board_movement, handle_freeform_click, handle_key_events, handle_sandbox_paint_tools, handle_strict_click,
    ActivePanelTab, ControllerAgent, GameMode, Highlight, KeyInput, Notice, Occupant, SelectionState, Session, P1_START,
    P2_START,
};
use core_engine::state::{GameState, Player};

fn press(s: &mut Session, key: KeyInput) -> (bool, bool) {
    handle_key_events(key, s)
}

#[test]
fn a_new_session_starts_a_strict_game() {
    let s = Session::new();
    assert_eq!(s.game_state, GameState::new(P1_START, P2_START, Player::P1));
    assert_eq!((s.cursor_x, s.cursor_y), (3, 3));
    assert_eq!(s.mode, GameMode::Strict);
    assert_eq!(s.selection, SelectionState::Idle);
    assert_eq!(s.active_tab, ActivePanelTab::ControlMap);
    assert_eq!(s.message_log, Notice::GameReset);
    assert_eq!(s.message_log.text(), "Game state reset to initial competitive configuration.");
    assert!(s.running);
    assert_eq!(s.cursor_index(), 27);
}

#[test]
fn the_cursor_stays_on_the_board() {
    let mut s = Session::new();
    for _ in 0..10 {
        press(&mut s, KeyInput::Up);
    }
    assert_eq!(s.cursor_y, 7);
    for _ in 0..10 {
        press(&mut s, KeyInput::Left);
    }
    assert_eq!(s.cursor_x, 0);
    for _ in 0..10 {
        press(&mut s, KeyInput::Down);
        press(&mut s, KeyInput::Right);
    }
    assert_eq!((s.cursor_x, s.cursor_y), (7, 0));
    assert_eq!(s.cursor_index(), 7);
}

#[test]
fn tabs_cycle_both_ways() {
    let mut s = Session::new();
    press(&mut s, KeyInput::Char(']'));
    assert_eq!(s.active_tab, ActivePanelTab::GameState);
    press(&mut s, KeyInput::Char('['));
    press(&mut s, KeyInput::Char('['));
    assert_eq!(s.active_tab, ActivePanelTab::AIMoveAnalysis);
    press(&mut s, KeyInput::Char(']'));
    assert_eq!(s.active_tab, ActivePanelTab::ControlMap);
    assert_eq!(ActivePanelTab::from_index(2), ActivePanelTab::HeuristicsTable);
    assert_eq!(ActivePanelTab::from_index(17), ActivePanelTab::ControlMap);
    assert_eq!(ActivePanelTab::AIMoveAnalysis.index(), 3);
}

#[test]
fn mode_agents_quit_and_reset_keys() {
    let mut s = Session::new();
    press(&mut s, KeyInput::Tab);
    assert_eq!((s.mode, s.message_log), (GameMode::Freeform, Notice::FreeformActive));
    press(&mut s, KeyInput::Tab);
    assert_eq!((s.mode, s.message_log), (GameMode::Strict, Notice::StrictActive));
    press(&mut s, KeyInput::Char('5'));
    assert_eq!((s.p2_agent, s.message_log), (ControllerAgent::AI, Notice::P2ToAi));
    assert!(!s.is_active_player_ai());
    // Handing the side to move to the engine asks it for a move.
    assert_eq!(press(&mut s, KeyInput::Char('4')), (false, true));
    assert_eq!((s.p1_agent, s.message_log), (ControllerAgent::AI, Notice::P1ToAi));
    assert_eq!(press(&mut s, KeyInput::Char('4')), (false, false));
    assert_eq!(s.message_log, Notice::P1ToHuman);
    assert_eq!(press(&mut s, KeyInput::Char('R')), (true, false));
    assert_eq!(s.message_log, Notice::GameReset);
    press(&mut s, KeyInput::Char('q'));
    assert!(!s.running);
}

#[test]
fn strict_clicks_select_refuse_and_move() {
    let mut s = Session::new();
    // An empty square cannot be picked up.
    press(&mut s, KeyInput::Enter);
    assert_eq!(s.message_log, Notice::InvalidTarget);
    // d2 has two rotations: to c3 around c2 and to e3 around e2.
    press(&mut s, KeyInput::Down);
    press(&mut s, KeyInput::Down);
    press(&mut s, KeyInput::Char(' '));
    assert_eq!(s.message_log, Notice::PieceLocked);
    assert_eq!(s.selection, SelectionState::PieceSelected { index: 11, valid_moves: Bitboard::new((1 << 18) | (1 << 20)) });
    // d3 is not among them.
    press(&mut s, KeyInput::Up);
    press(&mut s, KeyInput::Enter);
    assert_eq!(s.message_log, Notice::IllegalTarget);
    // e3 is.
    press(&mut s, KeyInput::Right);
    press(&mut s, KeyInput::Enter);
    assert_eq!(s.message_log, Notice::MoveValidated);
    assert_eq!(s.selection, SelectionState::Idle);
    assert_eq!(s.game_state.p1_pieces.0, (P1_START & !(1 << 11)) | (1 << 20));
    assert_eq!(s.game_state.active_player, Player::P2);
}

#[test]
fn strict_selection_can_be_dropped_or_reassigned() {
    let mut s = Session::new();
    handle_strict_click(11, &mut s);
    handle_strict_click(11, &mut s);
    assert_eq!((s.selection, s.message_log), (SelectionState::Idle, Notice::SelectionDropped));
    handle_strict_click(11, &mut s);
    handle_strict_click(12, &mut s);
    assert_eq!(s.message_log, Notice::SelectionReassigned);
    match s.selection {
        SelectionState::PieceSelected { index, .. } => assert_eq!(index, 12),
        SelectionState::Idle => panic!("expected a selection"),
    }
    press(&mut s, KeyInput::Esc);
    assert_eq!((s.selection, s.message_log), (SelectionState::Idle, Notice::SelectionFlushed));
    // A piece without allies nearby has nowhere to go.
    let mut t = Session::new();
    t.game_state = GameState::new(1, 1 << 63, Player::P1);
    handle_strict_click(0, &mut t);
    assert_eq!(t.message_log, Notice::NoMobility);
}

#[test]
fn the_sandbox_moves_and_paints_freely() {
    let mut s = Session::new();
    press(&mut s, KeyInput::Tab);
    handle_freeform_click(27, &mut s);
    assert_eq!(s.message_log, Notice::SandboxEmpty);
    handle_freeform_click(0, &mut s);
    assert_eq!(s.selection, SelectionState::PieceSelected { index: 0, valid_moves: Bitboard::new(u64::MAX) });
    handle_freeform_click(63, &mut s);
    assert_eq!(s.message_log, Notice::SandboxMoved);
    assert_eq!(s.game_state.p1_pieces.0, (P1_START & !1) | (1 << 63));
    assert_eq!(s.game_state.p2_pieces.0, P2_START & !(1 << 63));
    // Paint keys act on the cursor square.
    press(&mut s, KeyInput::Char('2'));
    assert_eq!(s.message_log, Notice::InjectedP2);
    assert!(s.game_state.p2_pieces.has_bit(27));
    press(&mut s, KeyInput::Char('1'));
    assert!(s.game_state.p1_pieces.has_bit(27) && !s.game_state.p2_pieces.has_bit(27));
    press(&mut s, KeyInput::Char('3'));
    assert!(!s.game_state.p1_pieces.has_bit(27) && !s.game_state.p2_pieces.has_bit(27));
    press(&mut s, KeyInput::Char('t'));
    assert_eq!((s.game_state.active_player, s.message_log), (Player::P2, Notice::TurnToggled));
    // Paint keys do nothing under strict rules.
    press(&mut s, KeyInput::Tab);
    let before = s.game_state;
    press(&mut s, KeyInput::Char('1'));
    assert_eq!(s.game_state, before);
    handle_sandbox_paint_tools(KeyInput::Other, &mut s);
    assert_eq!(s.game_state, before);
}

#[test]
fn board_movement_moves_either_side() {
    let mut s = Session::new();
    execute_board_movement(48, 40, &mut s);
    assert!(s.game_state.p2_pieces.has_bit(40) && !s.game_state.p2_pieces.has_bit(48));
    execute_board_movement(8, 40, &mut s);
    assert!(s.game_state.p1_pieces.has_bit(40) && !s.game_state.p2_pieces.has_bit(40));
}

#[test]
fn session_reads_the_position() {
    let luts = EngineLUTs::get_engine_luts();
    let s = Session::new();
    let evaluator = StaticDotProductEvaluator::new(default_evaluator_weights());
    let expected = match evaluator.evaluate(&s.game_state) {
        EvaluationScore::Value(v) => v,
        EvaluationScore::Mating(_) => i32::MAX,
        EvaluationScore::Mated(_) => i32::MIN,
    };
    assert_eq!(s.get_position_score(&evaluator), expected);
    let m = s.get_current_heuristics(&luts);
    let total: u32 = m.values.iter().flatten().flatten().flatten().map(|&c| c as u32).sum();
    assert!(total > 0);
}

#[test]
fn board_cells_show_pieces_and_highlights() {
    let mut s = Session::new();
    // Put the cursor on a1 (index 0).
    s.cursor_x = 0;
    s.cursor_y = 0;
    let v = s.cell_view(0);
    assert_eq!(v.occupant, Occupant::First);
    assert_eq!(v.highlight, Highlight::Cursor);
    let v63 = s.cell_view(63);
    assert_eq!(v63.occupant, Occupant::Second);
    assert_eq!(v63.highlight, Highlight::DarkSquare);
    assert_eq!(s.cell_view(1).highlight, Highlight::LightSquare);
    assert_eq!(s.cell_view(27).occupant, Occupant::Empty);
    s.selection = SelectionState::PieceSelected { index: 9, valid_moves: Bitboard::new(1 << 27) };
    assert_eq!(s.cell_view(9).highlight, Highlight::SelectedPiece);
    assert_eq!(s.cell_view(27).highlight, Highlight::Destination);
    s.cursor_x = 3;
    s.cursor_y = 3;
    assert_eq!(s.cell_view(27).highlight, Highlight::Cursor);
}

#[test]
fn one_ply_ratings_come_best_first() {
    let evaluator = StaticDotProductEvaluator::new(default_evaluator_weights());
    let s = GameState::new(P1_START, P2_START, Player::P1);
    let rated = rate_legal_moves(&s, &evaluator);
    let legal = s.generate_legal_moves().as_slice().to_vec();
    assert_eq!(rated.len(), legal.len());
    for w in rated.windows(2) {
        assert!(w[0].score >= w[1].score);
    }
    for r in &rated {
        let mut next = s;
        next.make_move(r.action);
        let expected = match evaluator.evaluate(&next) {
            EvaluationScore::Value(v) => -v,
            EvaluationScore::Mating(_) => i32::MAX,
            EvaluationScore::Mated(_) => i32::MIN,
        };
        assert_eq!(r.score, expected);
        assert!(legal.contains(&r.action));
    }
    // Moves rated alike keep generation order.
    for i in 0..rated.len() {
        for j in i + 1..rated.len() {
            if rated[i].score == rated[j].score {
                let pi = legal.iter().position(|m| *m == rated[i].action).unwrap();
                let pj = legal.iter().position(|m| *m == rated[j].action).unwrap();
                assert!(pi < pj);
            }
        }
    }
}

#[test]
fn squares_are_named_by_file_and_rank() {
    assert_eq!(square_name(0), "A1");
    assert_eq!(square_name(28), "E4");
    assert_eq!(square_name(63), "H8");
}
