use vstd::prelude::*;
use vstd::string::StringExecFns;
use crate::bitboard::Bitboard;
use crate::controllers::SearchProgress;
use crate::evaluators::PositionEvaluator;
use crate::moves::{Move, capped};
use crate::score::{EvaluationScore, ScoredMove, extract_score_value, score_value_defined, spec_score_value};
use crate::state::{GameState, Player, legal_moves, spec_make_move, player_name};
use crate::bitboard::popcount;
use crate::text::{decimal, signed_decimal, push_decimal};

verus! {

// ============================================================================
// SCORE LABELS
// ============================================================================

/// The label of a score: its variant's name and its number in brackets, as `Value(-12)` or
/// `Mating(3)`.
pub open spec fn spec_score_label(score: EvaluationScore) -> Seq<char> {
    match score {
        EvaluationScore::Mated(n) => "Mated("@ + decimal(n as nat) + ")"@,
        EvaluationScore::Value(v) => "Value("@ + signed_decimal(v as int) + ")"@,
        EvaluationScore::Mating(n) => "Mating("@ + decimal(n as nat) + ")"@,
    }
}

/// The label of a score, as the front end shows it next to a move.
pub fn score_label(score: EvaluationScore) -> (r: String)
    ensures
        r@ == spec_score_label(score),
{
    match score {
        EvaluationScore::Mated(n) => {
            let mut text = String::from_str("Mated(");
            push_decimal(&mut text, n);
            text.append(")");
            text
        },
        EvaluationScore::Value(v) => {
            let mut text = String::from_str("Value(");
            let magnitude: u32 = if v < 0 {
                text.append("-");
                (0i64 - v as i64) as u32
            } else {
                v as u32
            };
            push_decimal(&mut text, magnitude);
            text.append(")");
            proof {
                reveal_strlit("-");
                assert(text@ =~= "Value("@ + signed_decimal(v as int) + ")"@);
            }
            text
        },
        EvaluationScore::Mating(n) => {
            let mut text = String::from_str("Mating(");
            push_decimal(&mut text, n);
            text.append(")");
            text
        },
    }
}

// ============================================================================
// VALUES EXCHANGED WITH THE WEB FRONT END
// ============================================================================

/// A position as the front end sends and receives it: the two piece words and the side to
/// move, named `"P1"` or `"P2"`.
pub struct WasmGameState {
    pub p1_pieces: u64,
    pub p2_pieces: u64,
    pub active_player: String,
}

/// A move as the front end sends and receives it.
#[derive(Clone, Copy, PartialEq, Eq, Structural, Debug)]
pub struct WasmMove {
    pub from_square: u8,
    pub to_square: u8,
    pub is_capture: bool,
}

/// A scored root move: the move, the integer its score compares by, and the score's label.
pub struct WasmScoredMove {
    pub current_move: WasmMove,
    pub score_value: i32,
    pub score_label: String,
}

/// A search report for the front end: the scored root moves, the depth reached, the nodes
/// visited and the principal line.
pub struct WasmSearchProgress {
    pub candidates: Vec<WasmScoredMove>,
    pub depth_reached: usize,
    pub nodes_explored: usize,
    pub pv: Vec<WasmMove>,
}

/// Why a request of the front end was refused.
#[derive(Clone, Copy, PartialEq, Eq, Structural, Debug)]
pub enum BindingError {
    /// The side to move is named neither `"P1"` nor `"P2"`.
    InvalidPlayer,
}

/// The message of a refused request.
pub open spec fn binding_error_text(x: BindingError) -> Seq<char> {
    match x {
        BindingError::InvalidPlayer => "Invalid player configuration identifier"@,
    }
}

impl BindingError {
    /// The message sent back to the front end.
    pub fn text(&self) -> (r: &'static str)
        ensures
            r@ == binding_error_text(*self),
    {
        match self {
            BindingError::InvalidPlayer => "Invalid player configuration identifier",
        }
    }
}

/// The position a front-end position stands for, if it names its side to move correctly.
pub open spec fn spec_parse_state(raw: WasmGameState) -> Option<GameState> {
    if raw.active_player@ == "P1"@ {
        Some(GameState { p1_pieces: Bitboard(raw.p1_pieces), p2_pieces: Bitboard(raw.p2_pieces), active_player: Player::P1 })
    } else if raw.active_player@ == "P2"@ {
        Some(GameState { p1_pieces: Bitboard(raw.p1_pieces), p2_pieces: Bitboard(raw.p2_pieces), active_player: Player::P2 })
    } else {
        None
    }
}

/// The front-end form of a move.
pub open spec fn spec_wasm_move(m: Move) -> WasmMove {
    WasmMove { from_square: m.from_sq(), to_square: m.to_sq(), is_capture: m.spec_is_capture() }
}

/// The move a front-end move stands for: the capture flag is set exactly when it says so.
pub open spec fn spec_parse_move(raw: WasmMove) -> Move {
    Move::spec_new(raw.from_square, raw.to_square, if raw.is_capture { 1u8 } else { 0u8 })
}

/// Whether `w` is the front-end form of the position `s`.
pub open spec fn describes(w: WasmGameState, s: GameState) -> bool {
    &&& w.p1_pieces == s.p1_pieces.0
    &&& w.p2_pieces == s.p2_pieces.0
    &&& w.active_player@ == player_name(s.active_player)
}

/// Reads a front-end position; a side to move named otherwise than `"P1"` or `"P2"` is
/// refused.
pub fn parse_game_state(raw: &WasmGameState) -> (r: Result<GameState, BindingError>)
    ensures
        match spec_parse_state(*raw) {
            Some(s) => r == Ok::<GameState, BindingError>(s),
            None => r == Err::<GameState, BindingError>(BindingError::InvalidPlayer),
        },
{
    let p1_name = String::from_str("P1");
    let p2_name = String::from_str("P2");
    let active_player = if raw.active_player == p1_name {
        Player::P1
    } else if raw.active_player == p2_name {
        Player::P2
    } else {
        return Err(BindingError::InvalidPlayer);
    };
    Ok(GameState::new(raw.p1_pieces, raw.p2_pieces, active_player))
}

/// Reads a front-end move.
pub fn parse_move_primitive(raw: &WasmMove) -> (r: Move)
    ensures
        r == spec_parse_move(*raw),
{
    Move::new(raw.from_square, raw.to_square, if raw.is_capture { 1 } else { 0 })
}

/// The front-end form of a move.
pub fn wasm_move(m: Move) -> (r: WasmMove)
    ensures
        r == spec_wasm_move(m),
{
    WasmMove { from_square: m.from_square(), to_square: m.to_square(), is_capture: m.is_capture() }
}

/// The front-end form of a position.
pub fn wasm_game_state(s: &GameState) -> (r: WasmGameState)
    ensures
        describes(r, *s),
{
    let active_player = match s.active_player {
        Player::P1 => String::from_str("P1"),
        Player::P2 => String::from_str("P2"),
    };
    WasmGameState { p1_pieces: s.p1_pieces.0, p2_pieces: s.p2_pieces.0, active_player }
}

// ============================================================================
// REQUESTS OF THE FRONT END
// ============================================================================

/// The requests the web front end makes of the engine.
pub struct WasmEngine;

impl WasmEngine {
    /// The legal moves of a front-end position, in generation order (at most
    /// `MAX_MOVE_COUNT` of them); a badly named side to move is refused.
    pub fn generate_legal_moves(js_state: &WasmGameState) -> (r: Result<Vec<WasmMove>, BindingError>)
        ensures
            match spec_parse_state(*js_state) {
                Some(s) => r matches Ok(v) && v@ == capped(legal_moves(s)).map_values(
                    |m: Move| spec_wasm_move(m),
                ),
                None => r == Err::<Vec<WasmMove>, BindingError>(BindingError::InvalidPlayer),
            },
    {
        let state = match parse_game_state(js_state) {
            Ok(s) => s,
            Err(e) => return Err(e),
        };
        let legal = state.generate_legal_moves();
        let ghost listed = legal@;
        let mut response: Vec<WasmMove> = Vec::new();
        let mut it = legal.into_iter();
        loop
            invariant
                it.list@ == listed,
                it.index <= listed.len(),
                response@ == listed.take(it.index as int).map_values(|m: Move| spec_wasm_move(m)),
            ensures
                response@ == listed.map_values(|m: Move| spec_wasm_move(m)),
            decreases listed.len() - it.index,
        {
            let ghost before = it.index;
            match it.next() {
                Some(m) => {
                    response.push(wasm_move(m));
                    assert(listed.take(it.index as int) =~= listed.take(before as int).push(m));
                    assert(response@ =~= listed.take(it.index as int).map_values(|m: Move| spec_wasm_move(m)));
                },
                None => {
                    assert(listed.take(it.index as int) =~= listed);
                    break;
                },
            }
        }
        Ok(response)
    }

    /// Plays a front-end move in a front-end position and returns the position reached; a
    /// badly named side to move is refused.
    pub fn make_move(js_state: &WasmGameState, js_move: &WasmMove) -> (r: Result<WasmGameState, BindingError>)
        ensures
            match spec_parse_state(*js_state) {
                Some(s) => r matches Ok(w) && describes(w, spec_make_move(s, spec_parse_move(*js_move))),
                None => r is Err && r->Err_0 == BindingError::InvalidPlayer,
            },
    {
        let mut state = match parse_game_state(js_state) {
            Ok(s) => s,
            Err(e) => return Err(e),
        };
        let m = parse_move_primitive(js_move);
        state.make_move(m);
        Ok(wasm_game_state(&state))
    }
}

/// Every candidate's score has an integer to compare by.
pub open spec fn report_defined(candidates: Seq<ScoredMove>) -> bool {
    forall|i: int| 0 <= i < candidates.len() ==> score_value_defined(#[trigger] candidates[i].score)
}

/// Whether `w` reports the scored move `c`.
pub open spec fn reports(w: WasmScoredMove, c: ScoredMove) -> bool {
    &&& w.current_move == spec_wasm_move(c.current_move)
    &&& w.score_value == spec_score_value(c.score)
    &&& w.score_label@ == spec_score_label(c.score)
}

/// The front-end report of a search's progress: each candidate with its move, the integer its
/// score compares by and the score's label, in the same order; the depth and node count as
/// they are; each move of the principal line in the front end's form, in the same order.
pub fn evaluation_report(progress: &SearchProgress) -> (r: WasmSearchProgress)
    requires
        report_defined(progress.candidates@),
    ensures
        r.candidates@.len() == progress.candidates@.len(),
        forall|i: int| 0 <= i < r.candidates@.len() ==> reports(#[trigger] r.candidates@[i], progress.candidates@[i]),
        r.depth_reached == progress.depth_reached,
        r.nodes_explored == progress.nodes_explored,
        r.pv@.len() == progress.pv@.len(),
        forall|i: int| 0 <= i < r.pv@.len() ==> #[trigger] r.pv@[i] == spec_wasm_move(progress.pv@[i]),
{
    let mut candidates: Vec<WasmScoredMove> = Vec::new();
    let mut i: usize = 0;
    while i < progress.candidates.len()
        invariant
            i <= progress.candidates@.len(),
            report_defined(progress.candidates@),
            candidates@.len() == i,
            forall|k: int| 0 <= k < i ==> reports(#[trigger] candidates@[k], progress.candidates@[k]),
        decreases progress.candidates@.len() - i,
    {
        let c = &progress.candidates[i];
        let entry = WasmScoredMove {
            current_move: wasm_move(c.current_move),
            score_value: extract_score_value(c.score),
            score_label: score_label(c.score),
        };
        candidates.push(entry);
        i = i + 1;
    }
    let mut pv: Vec<WasmMove> = Vec::new();
    let mut k: usize = 0;
    while k < progress.pv.len()
        invariant
            k <= progress.pv@.len(),
            pv@.len() == k,
            forall|j: int| 0 <= j < k ==> #[trigger] pv@[j] == spec_wasm_move(progress.pv@[j]),
        decreases progress.pv@.len() - k,
    {
        pv.push(wasm_move(progress.pv[k]));
        k = k + 1;
    }
    WasmSearchProgress { candidates, depth_reached: progress.depth_reached, nodes_explored: progress.nodes_explored, pv }
}

// ============================================================================
// MATERIAL EVALUATOR
// ============================================================================

/// The material balance of the side to move: a hundred per piece more than the other side.
pub open spec fn material_score(state: GameState) -> EvaluationScore {
    let p1 = popcount(state.p1_pieces.0) as int;
    let p2 = popcount(state.p2_pieces.0) as int;
    EvaluationScore::Value(
        (match state.active_player {
            Player::P1 => (p1 - p2) * 100,
            Player::P2 => (p2 - p1) * 100,
        }) as i32,
    )
}

/// The evaluator the front-end searches use: material balance alone.
pub struct DefaultPositionEvaluator;

impl DefaultPositionEvaluator {
    /// The evaluator.
    pub fn new() -> (r: Self) {
        DefaultPositionEvaluator
    }
}

impl PositionEvaluator for DefaultPositionEvaluator {
    open spec fn spec_evaluate(&self, state: GameState) -> EvaluationScore {
        material_score(state)
    }

    open spec fn ready(&self) -> bool {
        true
    }

    fn evaluate(&self, state: &GameState) -> (r: EvaluationScore) {
        proof {
            crate::bitboard::lemma_popcount_le(state.p1_pieces.0);
            crate::bitboard::lemma_popcount_le(state.p2_pieces.0);
        }
        let p1_count = state.p1_pieces.count_ones() as i32;
        let p2_count = state.p2_pieces.count_ones() as i32;
        let score_diff = match state.active_player {
            Player::P1 => p1_count - p2_count,
            Player::P2 => p2_count - p1_count,
        };
        EvaluationScore::Value(score_diff * 100)
    }
}


/// The material evaluator counts a hundred per piece for the side to move against a hundred
/// per piece of the other side: one more allied piece, everything else the same, scores
/// exactly a hundred more; and seen from the other side a position scores the negation.
pub proof fn lemma_material_law(s1: GameState, s2: GameState, sq: u64)
    requires
        sq < 64,
    ensures
        material_score(s1) is Value,
        !crate::bitboard::bit_set(crate::state::allies_of(s1), sq) && crate::state::allies_of(s2)
            == crate::state::allies_of(s1) | (1u64 << sq) && crate::state::enemies_of(s2)
            == crate::state::enemies_of(s1) ==> material_score(s2).rank() == material_score(s1).rank() + 100,
        crate::state::allies_of(s2) == crate::state::enemies_of(s1) && crate::state::enemies_of(s2)
            == crate::state::allies_of(s1) ==> material_score(s2).rank() == -material_score(s1).rank(),
{
    crate::bitboard::lemma_popcount_le(s1.p1_pieces.0);
    crate::bitboard::lemma_popcount_le(s1.p2_pieces.0);
    crate::bitboard::lemma_popcount_le(s2.p1_pieces.0);
    crate::bitboard::lemma_popcount_le(s2.p2_pieces.0);
    let a = crate::state::allies_of(s1);
    if !crate::bitboard::bit_set(a, sq) {
        crate::bitboard::lemma_popcount_insert(a, sq);
    }
}

} // verus!
