use vstd::prelude::*;

verus! {

/// One engine taking part in a tournament.
#[derive(Clone, Debug)]
pub struct EngineConfig {
    pub id: Option<String>,
    pub name: String,
    pub path: String,
    pub options: Vec<(String, String)>,
    pub country_code: Option<String>,
    pub args: Option<Vec<String>>,
    pub working_directory: Option<String>,
    /// "uci" or "xboard"; absent means "uci".
    pub protocol: Option<String>,
    pub logo_path: Option<String>,
}

#[derive(Clone, Copy, Debug, PartialEq, Eq, Structural)]
pub enum TournamentMode {
    Match,
    RoundRobin,
    Gauntlet,
}

/// Score-based adjudication thresholds (centipawns and move counts).
#[derive(Clone, Debug)]
pub struct AdjudicationConfig {
    pub resign_score: Option<i32>,
    pub resign_move_count: Option<u32>,
    pub draw_score: Option<i32>,
    pub draw_move_number: Option<u32>,
    pub draw_move_count: Option<u32>,
    pub result_adjudication: bool,
}

#[derive(Clone, Debug)]
pub struct OpeningConfig {
    pub file: Option<String>,
    pub fen: Option<String>,
    pub depth: Option<u32>,
    /// "random" or "sequential".
    pub order: Option<String>,
    pub book_path: Option<String>,
}

/// Fischer time control, in milliseconds.
#[derive(Clone, Copy, Debug)]
pub struct TimeControl {
    pub base_ms: u64,
    pub inc_ms: u64,
}

#[derive(Clone, Debug)]
pub struct TournamentConfig {
    pub mode: TournamentMode,
    pub engines: Vec<EngineConfig>,
    pub time_control: TimeControl,
    pub games_count: u32,
    pub swap_sides: bool,
    pub opening: OpeningConfig,
    pub variant: String,
    pub concurrency: Option<u32>,
    pub pgn_path: Option<String>,
    pub event_name: Option<String>,
    pub disabled_engine_ids: Vec<String>,
    pub resume_state_path: Option<String>,
    pub resume_from_state: bool,
    pub adjudication: AdjudicationConfig,
}

/// A position update of one game, sent after each move and at its end.
#[derive(Clone, Debug)]
pub struct GameUpdate {
    pub fen: String,
    pub last_move: Option<String>,
    pub white_time: u64,
    pub black_time: u64,
    pub move_number: u32,
    pub result: Option<String>,
    pub white_engine_idx: usize,
    pub black_engine_idx: usize,
    pub game_id: usize,
}

/// A diagnostic about an engine, such as a failed spawn.
#[derive(Clone, Debug)]
pub struct TournamentError {
    pub engine_id: Option<String>,
    pub engine_name: String,
    pub game_id: Option<usize>,
    pub message: String,
    pub failure_count: u32,
    pub disabled: bool,
}

#[derive(Clone, Copy, Debug)]
pub struct TimeUpdate {
    pub white_time: u64,
    pub black_time: u64,
    pub game_id: usize,
}

/// Search telemetry taken from one `info` line of an engine.
#[derive(Clone, Debug)]
pub struct EngineStats {
    pub depth: u32,
    pub score_cp: Option<i32>,
    pub score_mate: Option<i32>,
    pub nodes: u64,
    pub nps: u64,
    pub pv: String,
    pub engine_idx: usize,
    pub game_id: usize,
    pub tb_hits: Option<u64>,
    pub hash_full: Option<u32>,
}

/// One entry of the tournament schedule. `state` is one of
/// Pending, Active, Finished, Aborted, Skipped, Removed.
#[derive(Clone, Debug)]
pub struct ScheduledGame {
    pub id: usize,
    pub white_name: String,
    pub black_name: String,
    pub state: String,
    pub result: Option<String>,
}

/// What is saved to resume an interrupted tournament.
#[derive(Clone, Debug)]
pub struct TournamentResumeState {
    pub config: TournamentConfig,
    pub schedule: Vec<ScheduledGame>,
}

/// What an engine says about itself.
#[derive(Clone, Debug)]
pub struct EngineInfo {
    pub name: String,
    pub author: String,
    pub options: Vec<String>,
}

/// An option that an engine advertises.
#[derive(Clone, Debug)]
pub struct UciOption {
    pub name: String,
    pub option_type: String,
    pub default: Option<String>,
    pub min: Option<i32>,
    pub max: Option<i32>,
    pub var: Vec<String>,
}

} // verus!
