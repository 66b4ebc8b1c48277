use emblium::events::{interpret_line, parse_info, EngineEvent, InfoLine};

fn raw_text(e: &EngineEvent) -> String {
    match e {
        EngineEvent::RawLine(s) => s.clone(),
        other => panic!("expected a raw line, got {:?}", other),
    }
}

#[test]
fn info_line_with_all_fields() {
    let info = parse_info(
        "info depth 12 seldepth 18 multipv 1 score cp 34 nodes 123456 nps 987654 pv e2e4 e7e5 g1f3",
    );
    assert_eq!(info.depth, Some(12));
    assert_eq!(info.seldepth, Some(18));
    assert_eq!(info.multipv, Some(1));
    assert_eq!(info.score_cp, Some(34));
    assert_eq!(info.score_mate, None);
    assert_eq!(info.nodes, Some(123456));
    assert_eq!(info.nps, Some(987654));
    assert_eq!(info.pv, vec!["e2e4".to_string(), "e7e5".to_string(), "g1f3".to_string()]);
}

#[test]
fn info_mate_score_is_signed() {
    let info = parse_info("info depth 20 score mate -3 pv h5f7");
    assert_eq!(info.score_mate, Some(-3));
    assert_eq!(info.score_cp, None);
    assert_eq!(info.pv, vec!["h5f7".to_string()]);
}

#[test]
fn info_missing_or_bad_values_are_none() {
    assert_eq!(parse_info("info depth").depth, None);
    assert_eq!(parse_info("info depth abc").depth, None);
    // A later value that is no number overwrites an earlier one.
    assert_eq!(parse_info("info depth 5 depth x").depth, None);
    assert_eq!(parse_info("info score cp").score_cp, None);
    assert_eq!(parse_info("info score").score_cp, None);
}

#[test]
fn info_number_limits() {
    assert_eq!(parse_info("info depth 4294967295").depth, Some(u32::MAX));
    assert_eq!(parse_info("info depth 4294967296").depth, None);
    assert_eq!(parse_info("info depth +7").depth, Some(7));
    assert_eq!(parse_info("info depth -7").depth, None);
    assert_eq!(parse_info("info depth +").depth, None);
    assert_eq!(parse_info("info depth 007").depth, Some(7));
    assert_eq!(parse_info("info nodes 18446744073709551615").nodes, Some(u64::MAX));
    assert_eq!(parse_info("info nodes 18446744073709551616").nodes, None);
    assert_eq!(parse_info("info score cp -2147483648").score_cp, Some(i32::MIN));
    assert_eq!(parse_info("info score cp -2147483649").score_cp, None);
    assert_eq!(parse_info("info score cp 2147483647").score_cp, Some(i32::MAX));
    assert_eq!(parse_info("info score cp 2147483648").score_cp, None);
    assert_eq!(parse_info("info score cp +12").score_cp, Some(12));
    assert_eq!(parse_info("info score cp -").score_cp, None);
    assert_eq!(parse_info("info depth ٣").depth, None);
}

#[test]
fn info_unknown_score_kind_skips_three_tokens() {
    // `score lowerbound 5` is passed over as a whole; `depth 3` is read.
    let info = parse_info("info score lowerbound 5 depth 3");
    assert_eq!(info.score_cp, None);
    assert_eq!(info.score_mate, None);
    assert_eq!(info.depth, Some(3));
    // Here the three skipped tokens include `depth`.
    let info = parse_info("info score x depth 3");
    assert_eq!(info.depth, None);
}

#[test]
fn info_pv_takes_the_rest_of_the_line() {
    let info = parse_info("info pv e2e4 depth 9");
    assert_eq!(info.depth, None);
    assert_eq!(info.pv, vec!["e2e4".to_string(), "depth".to_string(), "9".to_string()]);
    let info = parse_info("info depth 2 pv");
    assert_eq!(info.depth, Some(2));
    assert!(info.pv.is_empty());
}

#[test]
fn info_first_token_is_skipped_and_unknown_tokens_passed_over() {
    let info = parse_info("depth 4 string hello nps 77");
    assert_eq!(info.depth, None);
    assert_eq!(info.nps, Some(77));
    let info = parse_info("  info\tdepth\u{3000}6  ");
    assert_eq!(info.depth, Some(6));
}

#[test]
fn info_default_is_empty() {
    let info = InfoLine::default();
    assert_eq!(info.depth, None);
    assert_eq!(info.nodes, None);
    assert!(info.pv.is_empty());
}

#[test]
fn readyok_gives_ready() {
    let r = interpret_line("readyok");
    assert_eq!(r.events.len(), 2);
    assert_eq!(raw_text(&r.events[0]), "readyok");
    assert!(matches!(r.events[1], EngineEvent::Ready));
    assert!(!r.answer_isready);
}

#[test]
fn id_lines_give_name_and_author() {
    let r = interpret_line("  id name Stockfish 16  \r");
    assert_eq!(r.events.len(), 2);
    assert_eq!(raw_text(&r.events[0]), "id name Stockfish 16");
    match &r.events[1] {
        EngineEvent::IdName(n) => assert_eq!(n, "Stockfish 16"),
        other => panic!("unexpected {:?}", other),
    }
    let r = interpret_line("id author the Stockfish developers");
    match &r.events[1] {
        EngineEvent::IdAuthor(n) => assert_eq!(n, "the Stockfish developers"),
        other => panic!("unexpected {:?}", other),
    }
    // Without the space after `name` it is no name.
    let r = interpret_line("id nameless");
    assert_eq!(r.events.len(), 1);
}

#[test]
fn uciok_is_answered_with_isready() {
    let r = interpret_line("uciok\n");
    assert_eq!(r.events.len(), 1);
    assert_eq!(raw_text(&r.events[0]), "uciok");
    assert!(r.answer_isready);
    assert!(!interpret_line("uciokay").answer_isready);
}

#[test]
fn bestmove_with_and_without_ponder() {
    let r = interpret_line("bestmove e2e4 ponder e7e5");
    match &r.events[1] {
        EngineEvent::BestMove { best, ponder } => {
            assert_eq!(best, "e2e4");
            assert_eq!(ponder.as_deref(), Some("e7e5"));
        }
        other => panic!("unexpected {:?}", other),
    }
    let r = interpret_line("bestmove g1f3");
    match &r.events[1] {
        EngineEvent::BestMove { best, ponder } => {
            assert_eq!(best, "g1f3");
            assert_eq!(ponder, &None);
        }
        other => panic!("unexpected {:?}", other),
    }
    let r = interpret_line("bestmove e2e4 foo e7e5");
    match &r.events[1] {
        EngineEvent::BestMove { ponder, .. } => assert_eq!(ponder, &None),
        other => panic!("unexpected {:?}", other),
    }
    let r = interpret_line("bestmove");
    match &r.events[1] {
        EngineEvent::BestMove { best, ponder } => {
            assert_eq!(best, "(none)");
            assert_eq!(ponder, &None);
        }
        other => panic!("unexpected {:?}", other),
    }
    // `bestmove` is matched as a prefix, without a space after it.
    let r = interpret_line("bestmovee2e4");
    match &r.events[1] {
        EngineEvent::BestMove { best, .. } => assert_eq!(best, "e2e4"),
        other => panic!("unexpected {:?}", other),
    }
}

#[test]
fn info_lines_are_read() {
    let r = interpret_line("info depth 7 score cp -15 pv d2d4");
    assert_eq!(r.events.len(), 2);
    match &r.events[1] {
        EngineEvent::Info(i) => {
            assert_eq!(i.depth, Some(7));
            assert_eq!(i.score_cp, Some(-15));
            assert_eq!(i.pv, vec!["d2d4".to_string()]);
        }
        other => panic!("unexpected {:?}", other),
    }
    // `info` is matched as a prefix too.
    let r = interpret_line("infodepth 3 depth 4");
    match &r.events[1] {
        EngineEvent::Info(i) => assert_eq!(i.depth, Some(4)),
        other => panic!("unexpected {:?}", other),
    }
}

#[test]
fn blank_lines_give_nothing_and_others_only_themselves() {
    assert!(interpret_line("").events.is_empty());
    assert!(interpret_line(" \t \u{a0}\u{2003} ").events.is_empty());
    let r = interpret_line("option name Hash type spin default 16 min 1 max 33554432");
    assert_eq!(r.events.len(), 1);
    assert!(!r.answer_isready);
    let r = interpret_line("\u{3000}readyok\u{2028}");
    assert!(matches!(r.events[1], EngineEvent::Ready));
}
