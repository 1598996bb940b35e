use mini_tcec::progress::ProgressTracker;
use mini_tcec::sprt::{GameResult, SprtState};
use mini_tcec::stats::{base_result, calculate_standings, elo_boundary, half_points, outcome, TournamentStats};
use mini_tcec::types::{EngineConfig, ScheduledGame};

fn engine(id: &str, name: &str) -> EngineConfig {
    EngineConfig {
        id: Some(id.to_string()),
        name: name.to_string(),
        path: "/bin/true".to_string(),
        options: vec![],
        country_code: None,
        args: None,
        working_directory: None,
        protocol: None,
        logo_path: None,
    }
}

fn game(id: usize, white: &str, black: &str, state: &str, result: Option<&str>) -> ScheduledGame {
    ScheduledGame {
        id,
        white_name: white.to_string(),
        black_name: black.to_string(),
        state: state.to_string(),
        result: result.map(|r| r.to_string()),
    }
}

#[test]
fn finished_game_moves_exactly_one_counter() {
    let mut s = TournamentStats::new();
    s.update("1-0", true);
    assert_eq!((s.wins, s.draws, s.losses, s.total_games), (1, 0, 0, 1));
    s.update("1-0", false);
    assert_eq!((s.wins, s.draws, s.losses, s.total_games), (1, 0, 1, 2));
    s.update("1/2-1/2", false);
    assert_eq!((s.wins, s.draws, s.losses, s.total_games), (1, 1, 1, 3));
    s.update("0-1", false);
    assert_eq!((s.wins, s.draws, s.losses, s.total_games), (2, 1, 1, 4));
    s.update("*", true);
    assert_eq!((s.wins, s.draws, s.losses, s.total_games), (2, 1, 1, 4));
}

#[test]
fn illegal_move_by_white_engine_a_counts_a_loss() {
    let mut s = TournamentStats::new();
    s.update("0-1", true);
    assert_eq!(s.losses, 1);
    assert_eq!(s.total_games, 1);
}

#[test]
fn outcomes_of_result_texts() {
    assert_eq!(outcome("1-0", true), Some(GameResult::Win));
    assert_eq!(outcome("0-1", true), Some(GameResult::Loss));
    assert_eq!(outcome("1/2-1/2", false), Some(GameResult::Draw));
    assert_eq!(outcome("1-0 (forfeit)", true), None);
    assert_eq!(half_points("1-0 (forfeit)"), (2, 0));
    assert_eq!(half_points("1/2-1/2"), (1, 1));
    assert_eq!(half_points("*"), (0, 0));
}

#[test]
fn elo_clamps_at_the_boundaries() {
    assert_eq!(elo_boundary(10, 0, 10), Some(1000));
    assert_eq!(elo_boundary(0, 0, 10), Some(-1000));
    assert_eq!(elo_boundary(0, 10, 10), None);
    assert_eq!(elo_boundary(5, 0, 10), None);
    assert_eq!(elo_boundary(0, 0, 0), None);
    assert_eq!(elo_boundary(u32::MAX, 0, u32::MAX), Some(1000));
}

#[test]
fn round_robin_of_three_standings() {
    let engines = vec![engine("a", "E0"), engine("b", "E1"), engine("c", "E2")];
    let schedule = vec![
        game(1, "E0", "E1", "Finished", Some("1-0")),
        game(2, "E0", "E2", "Finished", Some("1/2-1/2")),
        game(3, "E1", "E2", "Finished", Some("0-1")),
    ];
    let st = calculate_standings(&schedule, &engines);
    assert_eq!(st.len(), 3);
    let order: Vec<&str> = st.iter().map(|e| e.engine_name.as_str()).collect();
    assert_eq!(order, vec!["E0", "E2", "E1"]);
    assert_eq!(st.iter().map(|e| e.rank).collect::<Vec<_>>(), vec![1, 2, 3]);
    assert_eq!(st.iter().map(|e| e.games_played).sum::<u32>(), 6);
    assert_eq!((st[0].half_points, st[0].wins, st[0].draws, st[0].losses), (3, 1, 1, 0));
    assert_eq!(st[0].sb_quarters, 3);
    assert_eq!(st[1].sb_quarters, 3);
    assert_eq!((st[2].half_points, st[2].losses), (0, 2));
    assert_eq!(st[0].engine_id.as_deref(), Some("a"));
}

#[test]
fn standings_ignore_unfinished_and_unknown_games() {
    let engines = vec![engine("a", "A"), engine("b", "B")];
    let schedule = vec![
        game(1, "A", "B", "Pending", None),
        game(2, "A", "Ghost", "Finished", Some("1-0")),
        game(3, "B", "A", "Skipped", Some("1-0 (forfeit)")),
    ];
    let st = calculate_standings(&schedule, &engines);
    assert_eq!(st[0].engine_name, "B");
    assert_eq!((st[0].games_played, st[0].half_points, st[0].wins), (1, 2, 1));
    assert_eq!((st[1].games_played, st[1].half_points, st[1].losses), (1, 0, 1));
    assert_eq!(st[0].sb_quarters, 0);
}

#[test]
fn standings_sonneborn_berger_breaks_ties() {
    // A and B both score 1.5; A beat C, who scored more than D whom B beat.
    let engines = vec![engine("d", "D"), engine("b", "B"), engine("a", "A"), engine("c", "C")];
    let schedule = vec![
        game(1, "A", "C", "Finished", Some("1-0")),
        game(2, "A", "B", "Finished", Some("0-1")),
        game(3, "B", "D", "Finished", Some("1/2-1/2")),
        game(4, "C", "D", "Finished", Some("1-0")),
        game(5, "A", "D", "Finished", Some("1/2-1/2")),
    ];
    let st = calculate_standings(&schedule, &engines);
    let order: Vec<&str> = st.iter().map(|e| e.engine_name.as_str()).collect();
    // A: 1.5 (SB 2*C(2)+1*D(2)=6), B: 1.5 (SB 2*A(3)+1*D(2)=8), C: 1, D: 1
    assert_eq!(order[0], "B");
    assert_eq!(order[1], "A");
    assert_eq!(st[0].sb_quarters, 8);
    assert_eq!(st[1].sb_quarters, 6);
}

#[test]
fn duplicate_engine_names_share_one_row() {
    let engines = vec![engine("first", "X"), engine("second", "X"), engine("y", "Y")];
    let st = calculate_standings(&vec![], &engines);
    assert_eq!(st.len(), 2);
    let x = st.iter().find(|e| e.engine_name == "X").unwrap();
    assert_eq!(x.engine_id.as_deref(), Some("second"));
}

#[test]
fn progress_counts_follow_updates() {
    let mut t = ProgressTracker::new();
    assert_eq!(t.apply_update(&game(1, "A", "B", "Pending", None)), (1, 1));
    assert_eq!(t.apply_update(&game(2, "B", "A", "Pending", None)), (2, 2));
    assert_eq!(t.apply_update(&game(1, "A", "B", "Active", None)), (2, 2));
    assert_eq!(t.apply_update(&game(1, "A", "B", "Finished", Some("1-0"))), (2, 1));
    assert_eq!(t.apply_update(&game(2, "B", "A", "Removed", None)), (1, 0));
    assert_eq!(t.counts(), (1, 0));
    t.reset();
    assert_eq!(t.counts(), (0, 0));
}

#[test]
fn sprt_state_names() {
    assert_eq!(SprtState::Continue.as_str(), "Continue");
    assert_eq!(SprtState::Accept.as_str(), "Accept");
    assert_eq!(SprtState::Reject.as_str(), "Reject");
}

#[test]
fn new_stats_are_empty() {
    let s = TournamentStats::new();
    assert_eq!((s.wins, s.draws, s.losses, s.total_games), (0, 0, 0, 0));
    assert!(s.standings.entries.is_empty());
}

#[test]
fn counters_rebuilt_from_a_saved_schedule() {
    let schedule = vec![
        game(1, "A", "B", "Finished", Some("1-0")),
        game(2, "B", "A", "Finished", Some("1-0")),
        game(3, "A", "C", "Skipped", Some("1/2-1/2 (forfeit)")),
        game(4, "A", "B", "Aborted", None),
        game(5, "B", "A", "Pending", None),
        game(6, "C", "A", "Finished", Some("0-1")),
    ];
    let s = TournamentStats::from_schedule(&schedule, "A");
    assert_eq!((s.wins, s.draws, s.losses, s.total_games), (2, 1, 1, 4));
    assert_eq!(base_result("0-1 (forfeit)"), "0-1");
    assert_eq!(base_result("*"), "*");
}
