use mini_tcec::protocol::{
    bestmove_of, go_command, info_words, parse_info, parse_uci_option, position_command, setoption_command, starts_with,
};
use mini_tcec::text::{decimal, join_range, parse_i32, parse_u32, parse_u64, signed_decimal, str_eq};

#[test]
fn info_line_fields() {
    let s = parse_info("info depth 12 seldepth 15 score cp 34 nodes 12345 nps 67890 pv e2e4 e7e5 g1f3", 1, 7);
    assert_eq!(s.depth, 12);
    assert_eq!(s.score_cp, Some(34));
    assert_eq!(s.score_mate, None);
    assert_eq!(s.nodes, 12345);
    assert_eq!(s.nps, 67890);
    assert_eq!(s.pv, "e2e4 e7e5 g1f3");
    assert_eq!((s.engine_idx, s.game_id), (1, 7));
}

#[test]
fn info_line_mate_and_missing_fields() {
    let s = parse_info("info depth 5 score mate -3 pv", 0, 0);
    assert_eq!(s.score_mate, Some(-3));
    assert_eq!(s.score_cp, None);
    assert_eq!((s.nodes, s.nps), (0, 0));
    assert_eq!(s.pv, "");
    let t = parse_info("info depth x nodes", 0, 0);
    assert_eq!(t.depth, 0);
    assert_eq!(t.nodes, 0);
    let u = parse_info("info string hello score lowerbound 3", 0, 0);
    assert_eq!(u.score_cp, None);
    let v = parse_info("info score cp 99999999999", 0, 0);
    assert_eq!(v.score_cp, None);
}

#[test]
fn info_round_trip_keeps_fields() {
    for line in [
        "info depth 20 score cp -15 nodes 1000 nps 5000 pv d2d4 g8f6",
        "info depth 3 score mate 2 nodes 44 nps 0 pv h5f7",
        "info nodes 7",
        "info depth 1 score cp 3 score mate -1 pv a2a3",
    ] {
        let s = parse_info(line, 0, 0);
        let words = info_words(&s);
        let again = parse_info(&words.join(" "), 0, 0);
        assert_eq!(
            (again.depth, again.score_cp, again.score_mate, again.nodes, again.nps, again.pv.clone()),
            (s.depth, s.score_cp, s.score_mate, s.nodes, s.nps, s.pv.clone()),
            "{}",
            line
        );
    }
}

#[test]
fn option_lines() {
    let o = parse_uci_option("option name Skill Level type spin default 20 min 0 max 20").unwrap();
    assert_eq!(o.name, "Skill Level");
    assert_eq!(o.option_type, "spin");
    assert_eq!(o.default.as_deref(), Some("20"));
    assert_eq!((o.min, o.max), (Some(0), Some(20)));
    assert!(o.var.is_empty());

    let c = parse_uci_option("option name Style type combo default Normal var Solid var Normal var Risky").unwrap();
    assert_eq!(c.default.as_deref(), Some("Normal"));
    assert_eq!(c.var, vec!["Solid".to_string(), "Normal".to_string(), "Risky".to_string()]);

    let b = parse_uci_option("option name Clear Hash type button").unwrap();
    assert_eq!(b.name, "Clear Hash");
    assert_eq!(b.default, None);

    let p = parse_uci_option("option name SyzygyPath type string default c:\\egtb here").unwrap();
    assert_eq!(p.default.as_deref(), Some("c:\\egtb here"));

    let m = parse_uci_option("option name Hash type spin default 16 min x max").unwrap();
    assert_eq!(m.min, None);
    assert_eq!(m.max, None);
}

#[test]
fn option_lines_rejected() {
    assert!(parse_uci_option("option name Foo").is_none());
    assert!(parse_uci_option("option type spin name Foo").is_none());
    assert!(parse_uci_option("option name Foo type").is_none());
    assert!(parse_uci_option("").is_none());
}

#[test]
fn commands() {
    let moves = vec!["e2e4".to_string(), "e7e5".to_string()];
    assert_eq!(position_command("startfen", &moves), "position fen startfen moves e2e4 e7e5");
    assert_eq!(position_command("f", &vec![]), "position fen f moves");
    assert_eq!(go_command(1000, 900, 100), "go wtime 1000 btime 900 winc 100 binc 100");
    assert_eq!(setoption_command("Hash", "64"), "setoption name Hash value 64");
    assert_eq!(bestmove_of("bestmove e2e4 ponder e7e5"), "e2e4");
    assert_eq!(bestmove_of("bestmove"), "");
    assert!(starts_with("bestmove e2e4", "bestmove"));
    assert!(!starts_with("info", "bestmove"));
}

#[test]
fn numbers_in_text() {
    assert_eq!(decimal(0), "0");
    assert_eq!(decimal(1234567), "1234567");
    assert_eq!(decimal(u64::MAX), u64::MAX.to_string());
    assert_eq!(signed_decimal(-45), "-45");
    assert_eq!(signed_decimal(i64::MIN), i64::MIN.to_string());
    assert_eq!(parse_i32("-2147483648"), Some(i32::MIN));
    assert_eq!(parse_i32("2147483648"), None);
    assert_eq!(parse_i32("+12"), Some(12));
    assert_eq!(parse_i32("-"), None);
    assert_eq!(parse_u32("+7"), Some(7));
    assert_eq!(parse_u32("-0"), None);
    assert_eq!(parse_u32("4294967296"), None);
    assert_eq!(parse_u64(""), None);
    assert_eq!(parse_u64("18446744073709551615"), Some(u64::MAX));
    assert_eq!(parse_u64("1a"), None);
    assert!(str_eq("abc", "abc"));
    assert!(!str_eq("abc", "abd"));
    let words = vec!["a".to_string(), "b".to_string(), "c".to_string()];
    assert_eq!(join_range(&words, 0, 3), "a b c");
    assert_eq!(join_range(&words, 1, 1), "");
}
