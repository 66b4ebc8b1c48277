use emblium::series::{
    engine_a_is_white, outcome_for_engine_a, players_for_game, setting_or, Outcome,
};

#[test]
fn colours_alternate() {
    assert!(engine_a_is_white(0));
    assert!(!engine_a_is_white(1));
    assert!(engine_a_is_white(2));
    assert_eq!(players_for_game(0, "a", "b"), ("a", "b"));
    assert_eq!(players_for_game(1, "a", "b"), ("b", "a"));
    assert_eq!(players_for_game(u32::MAX, "a", "b"), ("b", "a"));
}

#[test]
fn outcome_seen_by_engine_a() {
    assert_eq!(outcome_for_engine_a(0, Outcome::WhiteWin), Outcome::WhiteWin);
    assert_eq!(outcome_for_engine_a(1, Outcome::WhiteWin), Outcome::BlackWin);
    assert_eq!(outcome_for_engine_a(3, Outcome::BlackWin), Outcome::WhiteWin);
    assert_eq!(outcome_for_engine_a(5, Outcome::Draw), Outcome::Draw);
    for g in 0..4u32 {
        for o in [Outcome::WhiteWin, Outcome::BlackWin, Outcome::Draw] {
            assert_eq!(outcome_for_engine_a(g, outcome_for_engine_a(g, o)), o);
        }
    }
}

#[test]
fn settings_fall_back_to_defaults() {
    assert_eq!(setting_or("250", 100), 250);
    assert_eq!(setting_or("abc", 100), 100);
    assert_eq!(setting_or("", 200), 200);
    assert_eq!(setting_or(" 5", 100), 100);
    assert_eq!(setting_or("-5", 100), 100);
    assert_eq!(setting_or("+5", 100), 5);
    assert_eq!(setting_or("99999999999", 200), 200);
}

use emblium::series::{runner_action, single_game_log_line, RunnerAction, RunnerMsg};

#[test]
fn single_game_line() {
    assert_eq!(
        single_game_log_line(Outcome::Draw, 87, "Remis durch Zugwiederholung"),
        "Ergebnis: Draw nach 87 Halbzügen (Remis durch Zugwiederholung)\n"
    );
    assert_eq!(
        single_game_log_line(Outcome::WhiteWin, 0, ""),
        "Ergebnis: WhiteWin nach 0 Halbzügen ()\n"
    );
}

#[test]
fn runner_reports() {
    match runner_action(RunnerMsg::Log("Partie 3: Fehler\n".to_string())) {
        RunnerAction::AppendLog(t) => assert_eq!(t, "Partie 3: Fehler\n"),
        RunnerAction::Finish => panic!("a log line does not finish the run"),
    }
    match runner_action(RunnerMsg::GameFinished {
        outcome_for_engine_a: Outcome::BlackWin,
        plies: 120,
        termination: "Matt".to_string(),
    }) {
        RunnerAction::AppendLog(t) => {
            assert_eq!(t, "  -> Ergebnis für A: BlackWin, 120 Halbzüge, Matt\n")
        }
        RunnerAction::Finish => panic!("a finished game does not finish the run"),
    }
    assert!(matches!(runner_action(RunnerMsg::Finished), RunnerAction::Finish));
}

use emblium::series::{
    first_game, series_game_step, series_verdict_step, single_game_message, GameReport,
    SprtVerdict,
};

fn log_text(m: &RunnerMsg) -> String {
    match m {
        RunnerMsg::Log(t) => t.clone(),
        _ => panic!("expected a log line"),
    }
}

#[test]
fn series_starts_with_game_zero() {
    assert_eq!(first_game(200), Some(0));
    assert_eq!(first_game(1), Some(0));
    assert_eq!(first_game(0), None);
}

#[test]
fn played_game_is_recorded_from_engine_a_side() {
    let step = series_game_step(
        1,
        10,
        GameReport::Played { outcome: Outcome::WhiteWin, plies: 64, termination: "Matt".to_string() },
    );
    assert_eq!(step.record, Some(Outcome::BlackWin));
    assert!(step.await_verdict);
    assert_eq!(step.next_game, None);
    match step.message {
        RunnerMsg::GameFinished { outcome_for_engine_a, plies, termination } => {
            assert_eq!(outcome_for_engine_a, Outcome::BlackWin);
            assert_eq!(plies, 64);
            assert_eq!(termination, "Matt");
        }
        _ => panic!("expected a finished game"),
    }
}

#[test]
fn failed_game_is_logged_and_skipped() {
    let step = series_game_step(4, 10, GameReport::Failed { error: "Engine abgestürzt".to_string() });
    assert_eq!(step.record, None);
    assert!(!step.await_verdict);
    assert_eq!(step.next_game, Some(5));
    assert_eq!(log_text(&step.message), "Partie 4: Fehler: Engine abgestürzt\n");
    let last = series_game_step(9, 10, GameReport::Failed { error: "x".to_string() });
    assert_eq!(last.next_game, None);
    let top = series_game_step(u32::MAX - 1, u32::MAX, GameReport::Failed { error: "x".to_string() });
    assert_eq!(top.next_game, None);
}

#[test]
fn verdicts_end_the_series() {
    let go_on = series_verdict_step(0, 200, SprtVerdict::Continue);
    assert!(go_on.verdict_line.is_none());
    assert_eq!(go_on.next_game, Some(1));
    let end = series_verdict_step(199, 200, SprtVerdict::Continue);
    assert_eq!(end.next_game, None);
    let h1 = series_verdict_step(17, 200, SprtVerdict::AcceptH1);
    assert_eq!(h1.next_game, None);
    assert_eq!(
        h1.verdict_line.as_deref(),
        Some("SPRT-Entscheidung: H1 akzeptiert: Engine A ist signifikant stärker (>= elo1)\n")
    );
    let h0 = series_verdict_step(3, 200, SprtVerdict::AcceptH0);
    assert_eq!(h0.next_game, None);
    assert_eq!(
        h0.verdict_line.as_deref(),
        Some("SPRT-Entscheidung: H0 akzeptiert: keine signifikante Verbesserung (<= elo0)\n")
    );
}

#[test]
fn single_game_messages() {
    let m = single_game_message(GameReport::Played {
        outcome: Outcome::Draw,
        plies: 10,
        termination: "Patt".to_string(),
    });
    assert_eq!(log_text(&m), "Ergebnis: Draw nach 10 Halbzügen (Patt)\n");
    let m = single_game_message(GameReport::Failed { error: "kein Prozess".to_string() });
    assert_eq!(log_text(&m), "Fehler: kein Prozess\n");
}

#[test]
fn whole_series_with_scripted_verdicts() {
    // Games 0..5 with the verdict arriving after the third played game.
    let reports: Vec<Option<Outcome>> =
        vec![Some(Outcome::WhiteWin), None, Some(Outcome::Draw), Some(Outcome::WhiteWin)];
    let mut recorded = Vec::new();
    let mut played = 0;
    let mut next = first_game(5);
    let mut games = Vec::new();
    while let Some(g) = next {
        games.push(g);
        let report = match reports[g as usize] {
            Some(o) => GameReport::Played { outcome: o, plies: 1, termination: String::new() },
            None => GameReport::Failed { error: "e".to_string() },
        };
        let step = series_game_step(g, 5, report);
        if let Some(o) = step.record {
            recorded.push(o);
        }
        if step.await_verdict {
            played += 1;
            let v = if played == 3 { SprtVerdict::AcceptH0 } else { SprtVerdict::Continue };
            next = series_verdict_step(g, 5, v).next_game;
        } else {
            next = step.next_game;
        }
    }
    assert_eq!(games, vec![0, 1, 2, 3]);
    assert_eq!(recorded, vec![Outcome::WhiteWin, Outcome::Draw, Outcome::BlackWin]);
}
