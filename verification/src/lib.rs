use vstd::prelude::*;

pub mod bitboard;
pub mod moves;
pub mod movegen;
pub mod move_utils;
pub mod state;
pub mod luts;
pub mod heuristics;
pub mod score;
pub mod score_order;
pub mod evaluators;
pub mod tt;
pub mod search;
pub mod telemetry;
pub mod progress;
pub mod negamax;
pub mod controllers;
pub mod session;
pub mod agents;
pub mod simulation;
pub mod weights_file;
pub mod analysis;
pub mod text;
pub mod bindings;
