use emblium::commands::{
    decimal_string, go_depth_command, go_movetime_command, go_time_command,
    position_command, position_fen_command, set_option_command,
};

fn moves(ms: &[&str]) -> Vec<String> {
    ms.iter().map(|m| m.to_string()).collect()
}

#[test]
fn position_from_start() {
    assert_eq!(position_command(&[]), "position startpos");
    assert_eq!(
        position_command(&moves(&["e2e4", "e7e5", "g1f3"])),
        "position startpos moves e2e4 e7e5 g1f3"
    );
    assert_eq!(position_command(&moves(&["e2e4"])), "position startpos moves e2e4");
}

#[test]
fn position_from_fen() {
    let fen = "rnbqkbnr/pppppppp/8/8/4P3/8/PPPP1PPP/RNBQKBNR b KQkq e3 0 1";
    assert_eq!(position_fen_command(fen, &[]), format!("position fen {fen}"));
    assert_eq!(
        position_fen_command(fen, &moves(&["c7c5", "g1f3"])),
        format!("position fen {fen} moves c7c5 g1f3")
    );
}

#[test]
fn go_commands() {
    assert_eq!(go_movetime_command(100), "go movetime 100");
    assert_eq!(go_depth_command(0), "go depth 0");
    assert_eq!(
        go_time_command(60000, 59000, 1000, 0),
        "go wtime 60000 btime 59000 winc 1000 binc 0"
    );
    assert_eq!(go_movetime_command(u32::MAX), "go movetime 4294967295");
}

#[test]
fn set_option() {
    assert_eq!(set_option_command("Hash", "128"), "setoption name Hash value 128");
    assert_eq!(
        set_option_command("Skill Level", "5"),
        "setoption name Skill Level value 5"
    );
}

#[test]
fn decimal_numbers() {
    for n in [0u32, 7, 10, 99, 100, 12345, 4294967295] {
        assert_eq!(decimal_string(n), n.to_string());
    }
}

use emblium::events::{interpret_line, parse_info, EngineEvent};

// What a command writes, the reading side gets back.
#[test]
fn written_numbers_read_back() {
    for n in [0u32, 1, 42, 65535, 4294967295] {
        let line = format!("info depth {} pv e2e4 e7e5", decimal_string(n));
        let info = parse_info(&line);
        assert_eq!(info.depth, Some(n));
        assert_eq!(info.pv, vec!["e2e4".to_string(), "e7e5".to_string()]);
    }
}

#[test]
fn position_tokens_are_the_moves() {
    let ms = moves(&["e2e4", "c7c5"]);
    let cmd = position_command(&ms);
    let toks: Vec<&str> = cmd.split_whitespace().collect();
    assert_eq!(toks, vec!["position", "startpos", "moves", "e2e4", "c7c5"]);
}

#[test]
fn bestmove_reads_back() {
    let r = interpret_line("bestmove b1c3 ponder g8f6");
    assert_eq!(r.events.len(), 2);
    match &r.events[1] {
        EngineEvent::BestMove { best, ponder } => {
            assert_eq!(best, "b1c3");
            assert_eq!(ponder.as_deref(), Some("g8f6"));
        }
        other => panic!("unexpected {:?}", other),
    }
}

use emblium::commands::{GO_INFINITE, IS_READY, QUIT, STOP, UCI, UCI_NEW_GAME};

#[test]
fn fixed_command_words() {
    assert_eq!(UCI, "uci");
    assert_eq!(IS_READY, "isready");
    assert_eq!(UCI_NEW_GAME, "ucinewgame");
    assert_eq!(GO_INFINITE, "go infinite");
    assert_eq!(STOP, "stop");
    assert_eq!(QUIT, "quit");
}
