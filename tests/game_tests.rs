use mini_tcec::game::{
    adjudication_rules, clock_after, drawn_by_rule, forfeit, initial_halfmove, line_score, move_number, move_timeout_ms,
    next_halfmove, repetition_key, spawn_failed, Adjudicator, KeyCounts, Outcome, Side,
};
use mini_tcec::openings::{is_pgn_path, parse_opening_lines};
use mini_tcec::record::{format_pgn, record_path};
use mini_tcec::session::GameSession;
use mini_tcec::types::{AdjudicationConfig, TimeControl};
use mini_tcec::variant::{back_rank_fen, choose_opening, is_random_variant, random_back_rank};

const START: &str = "rnbqkbnr/pppppppp/8/8/8/8/PPPPPPPP/RNBQKBNR w KQkq - 0 1";

fn no_adjudication_config() -> AdjudicationConfig {
    AdjudicationConfig {
        resign_score: None,
        resign_move_count: None,
        draw_score: None,
        draw_move_number: None,
        draw_move_count: None,
        result_adjudication: false,
    }
}

#[test]
fn clocks_and_timeouts() {
    assert_eq!(clock_after(1000, 300, 100), 800);
    assert_eq!(clock_after(200, 5200, 0), 0);
    assert_eq!(clock_after(0, 10, 50), 50);
    assert_eq!(move_timeout_ms(200), 5200);
    assert_eq!(move_timeout_ms(0), 5000);
    assert_eq!(move_timeout_ms(u64::MAX), 86_400_000);
    assert_eq!(forfeit(Side::White), Outcome::BlackWins);
    assert_eq!(forfeit(Side::Black).text(), "1-0");
    assert_eq!(move_number(0), 1);
    assert_eq!(move_number(3), 2);
}

#[test]
fn mate_scores_map_to_scalars() {
    assert_eq!(line_score(None, Some(3)), Some(29997));
    assert_eq!(line_score(None, Some(-3)), Some(-29997));
    assert_eq!(line_score(Some(50), Some(3)), Some(50));
    assert_eq!(line_score(None, None), None);
}

#[test]
fn resign_adjudication_after_streak() {
    let rules = adjudication_rules(&no_adjudication_config());
    let mut a = Adjudicator::new();
    for _ in 0..4 {
        assert_eq!(a.record(&rules, Side::White, Some(1500), 10), None);
    }
    assert_eq!(a.record(&rules, Side::White, Some(1500), 10), Some(Outcome::WhiteWins));
    let mut b = Adjudicator::new();
    for _ in 0..4 {
        b.record(&rules, Side::Black, Some(-2000), 10);
    }
    assert_eq!(b.record(&rules, Side::Black, Some(-2000), 10), Some(Outcome::WhiteWins));
}

#[test]
fn resign_streak_resets_and_ignores_missing_scores() {
    let rules = adjudication_rules(&no_adjudication_config());
    let mut a = Adjudicator::new();
    a.record(&rules, Side::White, Some(1500), 10);
    a.record(&rules, Side::White, None, 10);
    assert_eq!(a.resign_streak, 1);
    a.record(&rules, Side::White, Some(10), 10);
    assert_eq!(a.resign_streak, 0);
}

#[test]
fn draw_adjudication_from_move_forty() {
    let rules = adjudication_rules(&no_adjudication_config());
    let mut a = Adjudicator::new();
    for _ in 0..30 {
        assert_eq!(a.record(&rules, Side::White, Some(0), 39), None);
    }
    for _ in 0..19 {
        assert_eq!(a.record(&rules, Side::White, Some(3), 40), None);
    }
    assert_eq!(a.record(&rules, Side::White, Some(-5), 41), Some(Outcome::Draw));
}

#[test]
fn configured_adjudication_thresholds() {
    let mut cfg = no_adjudication_config();
    cfg.resign_score = Some(300);
    cfg.resign_move_count = Some(2);
    let rules = adjudication_rules(&cfg);
    let mut a = Adjudicator::new();
    assert_eq!(a.record(&rules, Side::Black, Some(301), 5), None);
    assert_eq!(a.record(&rules, Side::Black, Some(400), 5), Some(Outcome::BlackWins));
}

#[test]
fn repetition_and_fifty_moves() {
    assert_eq!(repetition_key(START), "rnbqkbnr/pppppppp/8/8/8/8/PPPPPPPP/RNBQKBNR w KQkq -");
    assert_eq!(repetition_key("8/8 w"), "8/8 w");
    assert_eq!(initial_halfmove("8/8/8/8/8/8/8/K6k w - - 37 80"), 37);
    assert_eq!(initial_halfmove("8/8/8/8/8/8/8/K6k w - -"), 0);
    assert_eq!(initial_halfmove("8/8/8/8/8/8/8/K6k w - - x 1"), 0);
    assert_eq!(next_halfmove(5, true), 0);
    assert_eq!(next_halfmove(5, false), 6);
    assert!(drawn_by_rule(3, 0));
    assert!(drawn_by_rule(1, 100));
    assert!(!drawn_by_rule(2, 99));
    let mut k = KeyCounts::new();
    assert_eq!(k.bump("a".to_string()), 1);
    assert_eq!(k.bump("b".to_string()), 1);
    assert_eq!(k.bump("a".to_string()), 2);
}

fn tc() -> TimeControl {
    TimeControl { base_ms: 1000, inc_ms: 100 }
}

#[test]
fn session_plays_legal_moves() {
    let rules = adjudication_rules(&no_adjudication_config());
    let mut s = GameSession::start(START, false, &tc(), rules).unwrap();
    assert_eq!(s.mover(), Side::White);
    assert_eq!(s.decided(), None);
    assert_eq!(s.move_timeout(Side::White), 6000);
    assert_eq!(s.best_move(Side::White, "g1f3", Some(20), 300), None);
    assert_eq!(s.white_ms, 800);
    assert_eq!(s.black_ms, 1000);
    assert_eq!(s.mover(), Side::Black);
    assert_eq!(s.position_command(), format!("position fen {} moves g1f3", START));
    assert_eq!(s.go_command(), "go wtime 800 btime 1000 winc 100 binc 100");
    assert!(s.fen().starts_with("rnbqkbnr/pppppppp/8/8/8/5N2/PPPPPPPP/RNBQKB1R b KQkq"));
}

#[test]
fn illegal_move_on_move_three_loses_for_white() {
    let rules = adjudication_rules(&no_adjudication_config());
    let mut s = GameSession::start(START, false, &tc(), rules).unwrap();
    assert_eq!(s.best_move(Side::White, "e2e4", None, 10), None);
    assert_eq!(s.best_move(Side::Black, "e7e5", None, 10), None);
    let r = s.best_move(Side::White, "e2e4", None, 10);
    assert_eq!(r, Some(Outcome::BlackWins));
    assert_eq!(r.unwrap().text(), "0-1");
    assert_eq!(s.moves.len(), 2);
    assert_eq!(s.best_move(Side::White, "0000", None, 10), Some(Outcome::BlackWins));
    assert_eq!(s.best_move(Side::White, "zz", None, 10), Some(Outcome::BlackWins));
}

#[test]
fn timeout_forfeits_and_empties_the_clock() {
    let rules = adjudication_rules(&no_adjudication_config());
    let mut s = GameSession::start(START, false, &TimeControl { base_ms: 200, inc_ms: 0 }, rules).unwrap();
    assert_eq!(s.move_timeout(Side::White), 5200);
    assert_eq!(s.no_move(Side::White), Outcome::BlackWins);
    assert_eq!(s.white_ms, 0);
    assert_eq!(s.black_ms, 200);
}

#[test]
fn record_move_counts_repetitions_and_halfmoves() {
    let rules = adjudication_rules(&no_adjudication_config());
    let mut s = GameSession::start(START, false, &tc(), rules).unwrap();
    let next = "rnbqkbnr/pppppppp/8/8/8/5N2/PPPPPPPP/RNBQKB1R b KQkq - 1 1".to_string();
    assert_eq!(s.record_move("g1f3", next.clone(), false), None);
    assert_eq!(s.halfmove, 1);
    assert_eq!(s.fen(), next);
    assert_eq!(s.record_move("g1f3", next.clone(), true), None);
    assert_eq!(s.halfmove, 0);
    assert_eq!(s.record_move("g1f3", next, false), Some(Outcome::Draw));
    assert_eq!(s.moves.len(), 3);
}

#[test]
fn checkmate_is_decided_by_the_position() {
    let rules = adjudication_rules(&no_adjudication_config());
    let mut s = GameSession::start(START, false, &tc(), rules).unwrap();
    for (side, m) in [(Side::White, "f2f3"), (Side::Black, "e7e5"), (Side::White, "g2g4"), (Side::Black, "d8h4")] {
        assert_eq!(s.best_move(side, m, None, 1), None);
    }
    assert_eq!(s.decided(), Some(Outcome::BlackWins));
    let bare = GameSession::start("8/8/8/8/8/8/8/K6k w - - 0 1", false, &tc(), rules).unwrap();
    assert_eq!(bare.decided(), Some(Outcome::Draw));
    assert!(GameSession::start("not a fen", false, &tc(), rules).is_none());
}

#[test]
fn threefold_repetition_draws() {
    let rules = adjudication_rules(&no_adjudication_config());
    let mut s = GameSession::start(START, false, &tc(), rules).unwrap();
    let moves = ["g1f3", "g8f6", "f3g1", "f6g8", "g1f3", "g8f6", "f3g1"];
    let mut side = Side::White;
    for m in moves {
        assert_eq!(s.best_move(side, m, None, 1), None);
        side = if side == Side::White { Side::Black } else { Side::White };
    }
    assert_eq!(s.best_move(Side::Black, "f6g8", None, 1), Some(Outcome::Draw));
}

#[test]
fn fifty_move_rule_draws() {
    let rules = adjudication_rules(&no_adjudication_config());
    let mut s = GameSession::start("k7/8/8/8/8/8/8/KQ6 w - - 99 80", false, &tc(), rules).unwrap();
    assert_eq!(s.halfmove, 99);
    assert_eq!(s.best_move(Side::White, "b1b2", None, 1), Some(Outcome::Draw));
}

#[test]
fn randomized_back_rank_is_legal() {
    let r = random_back_rank(0, 0, &vec![0, 1, 2, 3, 4, 5]);
    assert_eq!(back_rank_fen(&r), "bbqnnrkr/pppppppp/8/8/8/8/PPPPPPPP/BBQNNRKR w HFhf - 0 1");
    let perms: Vec<Vec<usize>> = vec![vec![5, 4, 3, 2, 1, 0], vec![2, 0, 4, 1, 5, 3], vec![3, 4, 5, 0, 1, 2]];
    for dark in 0..4 {
        for light in 0..4 {
            for p in &perms {
                let r = random_back_rank(dark, light, p);
                let sq = [r.dark_bishop, r.light_bishop, r.queen, r.knight1, r.knight2, r.rook1, r.king, r.rook2];
                let mut seen = [false; 8];
                for s in sq {
                    assert!(!seen[s]);
                    seen[s] = true;
                }
                assert_ne!(r.dark_bishop % 2, r.light_bishop % 2);
                assert!(r.rook1 < r.king && r.king < r.rook2);
                let fen = back_rank_fen(&r);
                let rules = adjudication_rules(&no_adjudication_config());
                assert!(GameSession::start(&fen, true, &tc(), rules).is_some(), "{}", fen);
            }
        }
    }
}

#[test]
fn standard_start_is_not_the_random_variant() {
    assert!(is_random_variant("chess960"));
    assert!(!is_random_variant("standard"));
}

#[test]
fn opening_selection() {
    let book = vec!["A".to_string(), "B".to_string(), "C".to_string()];
    assert_eq!(choose_opening(&book, true, 3, &None, "G".to_string()), "B");
    assert_eq!(choose_opening(&book, false, 4, &None, "G".to_string()), "B");
    assert_eq!(choose_opening(&vec![], false, 4, &Some("F".to_string()), "G".to_string()), "F");
    assert_eq!(choose_opening(&vec![], false, 4, &Some("  ".to_string()), "G".to_string()), "G");
    assert_eq!(choose_opening(&vec![], false, 4, &None, "G".to_string()), "G");
}

#[test]
fn opening_file_lines() {
    let lines = vec![
        "  rnbqkbnr/pppppppp/8/8/8/5N2/PPPPPPPP/RNBQKB1R b KQkq - 1 1 ; Nf3".to_string(),
        "".to_string(),
        "[FEN \"8/8/8/8/8/8/8/K6k w - - 0 1\"]".to_string(),
        "[Event \"x\"]".to_string(),
    ];
    assert_eq!(
        parse_opening_lines(&lines, false),
        vec![
            "rnbqkbnr/pppppppp/8/8/8/5N2/PPPPPPPP/RNBQKB1R b KQkq - 1 1".to_string(),
            "[FEN \"8/8/8/8/8/8/8/K6k w - - 0 1\"]".to_string(),
            "[Event \"x\"]".to_string(),
        ]
    );
    assert_eq!(parse_opening_lines(&lines, true), vec!["8/8/8/8/8/8/8/K6k w - - 0 1".to_string()]);
    assert!(is_pgn_path("book.pgn"));
    assert!(!is_pgn_path("book.epd"));
    assert!(!is_pgn_path("pgn"));
}

#[test]
fn game_record_text() {
    let moves = vec!["e2e4".to_string(), "e7e5".to_string(), "g1f3".to_string()];
    let pgn = format_pgn(&moves, "1-0", "A", "B", START, "Ev", 3, "2024.01.02");
    assert_eq!(
        pgn,
        "[Event \"Ev\"]\n[Site \"CCRL GUI\"]\n[Date \"2024.01.02\"]\n[Round \"3\"]\n[White \"A\"]\n[Black \"B\"]\n[Result \"1-0\"]\n\n1. e2e4 e7e5 2. g1f3 1-0\n\n"
    );
    let other = format_pgn(&vec![], "1/2-1/2", "A", "B", "8/8/8/8/8/8/8/K6k w - - 0 1", "Ev", 12, "d");
    assert!(other.contains("[FEN \"8/8/8/8/8/8/8/K6k w - - 0 1\"]\n[SetUp \"1\"]\n\n1/2-1/2\n\n"));
}

#[test]
fn spawn_failures_disable_at_the_limit() {
    let mut f = KeyCounts::new();
    assert_eq!(spawn_failed(&mut f, "e1".to_string(), true), (1, false));
    assert_eq!(spawn_failed(&mut f, "e1".to_string(), true), (2, false));
    assert_eq!(spawn_failed(&mut f, "e2".to_string(), false), (1, false));
    assert_eq!(spawn_failed(&mut f, "e1".to_string(), true), (3, true));
    f.forget("e1");
    assert_eq!(spawn_failed(&mut f, "e1".to_string(), true), (1, false));
    for _ in 0..3 {
        spawn_failed(&mut f, "e2".to_string(), false);
    }
    assert_eq!(spawn_failed(&mut f, "e2".to_string(), false), (5, false));
}

#[test]
fn record_path_defaults() {
    assert_eq!(record_path(&None), "tournament.pgn");
    assert_eq!(record_path(&Some("   ".to_string())), "tournament.pgn");
    assert_eq!(record_path(&Some("  games/out.pgn ".to_string())), "games/out.pgn");
}
