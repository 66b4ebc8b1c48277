//! Bookkeeping of an engine-versus-engine series: who has white in which
//! game, how a result counts for engine A, and the series settings.

use vstd::prelude::*;
use vstd::string::StringExecFns;
use crate::commands::{decimal, push_decimal};
use crate::text::{chars_of, parse_u32, parse_u32_at};

verus! {

/// The result of one game.
#[derive(Debug, Clone, Copy, PartialEq, Eq, Structural)]
pub enum Outcome {
    WhiteWin,
    BlackWin,
    Draw,
}

/// The same result seen with the colours exchanged.
pub open spec fn swap_colours(o: Outcome) -> Outcome {
    match o {
        Outcome::WhiteWin => Outcome::BlackWin,
        Outcome::BlackWin => Outcome::WhiteWin,
        Outcome::Draw => Outcome::Draw,
    }
}

/// Whether engine A has white in game `game_no` (counted from 0): the
/// colours alternate, and A starts with white.
pub open spec fn a_has_white(game_no: u32) -> bool {
    game_no % 2 == 0
}

/// Whether engine A has white in game `game_no`.
pub fn engine_a_is_white(game_no: u32) -> (r: bool)
    ensures
        r == a_has_white(game_no),
{
    game_no % 2 == 0
}

/// The two engines of game `game_no`, white first.
pub fn players_for_game<'a>(game_no: u32, engine_a: &'a str, engine_b: &'a str) -> (r: (
    &'a str,
    &'a str,
))
    ensures
        r == (if a_has_white(game_no) {
            (engine_a, engine_b)
        } else {
            (engine_b, engine_a)
        }),
{
    if engine_a_is_white(game_no) {
        (engine_a, engine_b)
    } else {
        (engine_b, engine_a)
    }
}

/// The result of game `game_no` as engine A sees it: `WhiteWin` is a win
/// of A, `BlackWin` a loss.
pub open spec fn outcome_for_a(game_no: u32, outcome: Outcome) -> Outcome {
    if a_has_white(game_no) {
        outcome
    } else {
        swap_colours(outcome)
    }
}

/// The result of game `game_no` as engine A sees it.
pub fn outcome_for_engine_a(game_no: u32, outcome: Outcome) -> (r: Outcome)
    ensures
        r == outcome_for_a(game_no, outcome),
{
    if engine_a_is_white(game_no) {
        outcome
    } else {
        match outcome {
            Outcome::WhiteWin => Outcome::BlackWin,
            Outcome::BlackWin => Outcome::WhiteWin,
            Outcome::Draw => Outcome::Draw,
        }
    }
}

/// A numeric setting typed into a field: its value where the text is a
/// `u32`, as `str::parse` reads it, and `default` otherwise.
pub open spec fn setting_value(text: Seq<char>, default: u32) -> u32 {
    match parse_u32(text) {
        Some(v) => v,
        None => default,
    }
}

/// Reads a numeric setting, falling back to `default`.
pub fn setting_or(text: &str, default: u32) -> (r: u32)
    ensures
        r == setting_value(text@, default),
{
    let chars = chars_of(text);
    assert(chars@.subrange(0, chars@.len() as int) == chars@);
    match parse_u32_at(&chars, 0, chars.len()) {
        Some(v) => v,
        None => default,
    }
}


/// A result as the log names it.
pub open spec fn outcome_name(o: Outcome) -> Seq<char> {
    match o {
        Outcome::WhiteWin => "WhiteWin"@,
        Outcome::BlackWin => "BlackWin"@,
        Outcome::Draw => "Draw"@,
    }
}

fn push_outcome_name(out: &mut String, o: Outcome)
    ensures
        final(out)@ == old(out)@ + outcome_name(o),
{
    match o {
        Outcome::WhiteWin => out.append("WhiteWin"),
        Outcome::BlackWin => out.append("BlackWin"),
        Outcome::Draw => out.append("Draw"),
    }
}

/// The log line of a single test game: its result, its length in plies and
/// how it ended.
pub open spec fn single_game_text(outcome: Outcome, plies: usize, termination: Seq<char>) -> Seq<
    char,
> {
    "Ergebnis: "@ + outcome_name(outcome) + " nach "@ + decimal(plies as nat) + " Halbzügen ("@
        + termination + ")\n"@
}

/// Writes the log line of a single test game.
pub fn single_game_log_line(outcome: Outcome, plies: usize, termination: &str) -> (r: String)
    ensures
        r@ == single_game_text(outcome, plies, termination@),
{
    let mut r = String::from_str("Ergebnis: ");
    push_outcome_name(&mut r, outcome);
    r.append(" nach ");
    push_decimal(&mut r, plies as u64);
    r.append(" Halbzügen (");
    r.append(termination);
    r.append(")\n");
    r
}

/// What the thread that plays a series reports to the window.
pub enum RunnerMsg {
    GameFinished { outcome_for_engine_a: Outcome, plies: usize, termination: String },
    Log(String),
    Finished,
}

/// What the window does with a report: add text to its log, or mark the
/// run as finished and stop listening.
pub enum RunnerAction {
    AppendLog(String),
    Finish,
}

/// The log text for a finished game of a series, from engine A's side.
pub open spec fn game_finished_text(outcome: Outcome, plies: usize, termination: Seq<char>) -> Seq<
    char,
> {
    "  -> Ergebnis für A: "@ + outcome_name(outcome) + ", "@ + decimal(plies as nat)
        + " Halbzüge, "@ + termination + "\n"@
}

/// The window's answer to a report: a log line is added as it is, a
/// finished game is described, and the end of the run finishes it.
pub fn runner_action(msg: RunnerMsg) -> (r: RunnerAction)
    ensures
        match msg {
            RunnerMsg::Log(line) => r matches RunnerAction::AppendLog(t) && t@ == line@,
            RunnerMsg::GameFinished { outcome_for_engine_a, plies, termination } => r matches RunnerAction::AppendLog(t)
                && t@ == game_finished_text(outcome_for_engine_a, plies, termination@),
            RunnerMsg::Finished => r is Finish,
        },
{
    match msg {
        RunnerMsg::Log(line) => RunnerAction::AppendLog(line),
        RunnerMsg::GameFinished { outcome_for_engine_a, plies, termination } => {
            let mut t = String::from_str("  -> Ergebnis für A: ");
            push_outcome_name(&mut t, outcome_for_engine_a);
            t.append(", ");
            push_decimal(&mut t, plies as u64);
            t.append(" Halbzüge, ");
            t.append(termination.as_str());
            t.append("\n");
            RunnerAction::AppendLog(t)
        },
        RunnerMsg::Finished => RunnerAction::Finish,
    }
}

/// The log line of a single test game that could not be played.
pub open spec fn single_game_error_text(error: Seq<char>) -> Seq<char> {
    "Fehler: "@ + error + "\n"@
}

/// What a single test game reports to the window: its result line, or its
/// error line. The run then finishes.
pub fn single_game_message(report: GameReport) -> (r: RunnerMsg)
    ensures
        match report {
            GameReport::Played { outcome, plies, termination } => r matches RunnerMsg::Log(t)
                && t@ == single_game_text(outcome, plies, termination@),
            GameReport::Failed { error } => r matches RunnerMsg::Log(t) && t@
                == single_game_error_text(error@),
        },
{
    match report {
        GameReport::Played { outcome, plies, termination } => RunnerMsg::Log(
            single_game_log_line(outcome, plies, termination.as_str()),
        ),
        GameReport::Failed { error } => {
            let mut t = String::from_str("Fehler: ");
            t.append(error.as_str());
            t.append("\n");
            RunnerMsg::Log(t)
        },
    }
}

/// What the statistics decide after a game of a series: go on, or accept
/// one of the two hypotheses.
#[derive(Debug, Clone, Copy, PartialEq, Eq, Structural)]
pub enum SprtVerdict {
    Continue,
    AcceptH1,
    AcceptH0,
}

/// How a game of a series went: played to its end, or failed with an error.
pub enum GameReport {
    Played { outcome: Outcome, plies: usize, termination: String },
    Failed { error: String },
}

/// The game after `game_no` in a series of `max_games`, if there is one.
pub open spec fn following_game(game_no: u32, max_games: u32) -> Option<u32> {
    if game_no + 1 < max_games {
        Some((game_no + 1) as u32)
    } else {
        None
    }
}

/// The first game of a series of `max_games`: game 0, if there are games
/// at all.
pub fn first_game(max_games: u32) -> (r: Option<u32>)
    ensures
        r == (if max_games > 0 {
            Some(0u32)
        } else {
            None
        }),
{
    if max_games > 0 {
        Some(0)
    } else {
        None
    }
}

fn next_game(game_no: u32, max_games: u32) -> (r: Option<u32>)
    ensures
        r == following_game(game_no, max_games),
{
    if max_games > 0 && game_no < max_games - 1 {
        Some(game_no + 1)
    } else {
        None
    }
}

/// The log line of a game of a series that could not be played; games are
/// counted from 0 here.
pub open spec fn game_error_text(game_no: u32, error: Seq<char>) -> Seq<char> {
    "Partie "@ + decimal(game_no as nat) + ": Fehler: "@ + error + "\n"@
}

/// What follows a game of a series.
pub struct GameStep {
    /// The result to record in the statistics, from engine A's side.
    pub record: Option<Outcome>,
    /// The report for the window.
    pub message: RunnerMsg,
    /// Whether the statistics are now to be asked for a verdict.
    pub await_verdict: bool,
    /// The game to play next, where no verdict is awaited.
    pub next_game: Option<u32>,
}

/// What follows game `game_no` of a series of `max_games`. A played game is
/// recorded from engine A's side, reported, and followed by the verdict of
/// the statistics. A failed game is not recorded; its error is logged and
/// the next game, if any, is played.
pub fn series_game_step(game_no: u32, max_games: u32, report: GameReport) -> (r: GameStep)
    ensures
        match report {
            GameReport::Played { outcome, plies, termination } => {
                &&& r.record == Some(outcome_for_a(game_no, outcome))
                &&& r.message matches RunnerMsg::GameFinished {
                    outcome_for_engine_a: o,
                    plies: p,
                    termination: t,
                }
                &&& o == outcome_for_a(game_no, outcome)
                &&& p == plies
                &&& t@ == termination@
                &&& r.await_verdict
                &&& r.next_game is None
            },
            GameReport::Failed { error } => {
                &&& r.record is None
                &&& r.message matches RunnerMsg::Log(t)
                &&& t@ == game_error_text(game_no, error@)
                &&& !r.await_verdict
                &&& r.next_game == following_game(game_no, max_games)
            },
        },
{
    match report {
        GameReport::Played { outcome, plies, termination } => {
            let o = outcome_for_engine_a(game_no, outcome);
            GameStep {
                record: Some(o),
                message: RunnerMsg::GameFinished { outcome_for_engine_a: o, plies, termination },
                await_verdict: true,
                next_game: None,
            }
        },
        GameReport::Failed { error } => {
            let mut t = String::from_str("Partie ");
            push_decimal(&mut t, game_no as u64);
            t.append(": Fehler: ");
            t.append(error.as_str());
            t.append("\n");
            GameStep {
                record: None,
                message: RunnerMsg::Log(t),
                await_verdict: false,
                next_game: next_game(game_no, max_games),
            }
        },
    }
}

/// What a verdict means, in the log's words.
pub open spec fn verdict_text(v: SprtVerdict) -> Seq<char> {
    match v {
        SprtVerdict::AcceptH1 => "H1 akzeptiert: Engine A ist signifikant stärker (>= elo1)"@,
        SprtVerdict::AcceptH0 => "H0 akzeptiert: keine signifikante Verbesserung (<= elo0)"@,
        SprtVerdict::Continue => seq![],
    }
}

/// What follows the verdict on a played game.
pub struct VerdictStep {
    /// The line that announces the decision, where there is one.
    pub verdict_line: Option<String>,
    /// The game to play next, if any.
    pub next_game: Option<u32>,
}

/// What follows the verdict after game `game_no` of a series of
/// `max_games`: a decision is announced and ends the series; otherwise the
/// next game, if any, is played.
pub fn series_verdict_step(game_no: u32, max_games: u32, verdict: SprtVerdict) -> (r: VerdictStep)
    ensures
        verdict == SprtVerdict::Continue ==> {
            &&& r.verdict_line is None
            &&& r.next_game == following_game(game_no, max_games)
        },
        verdict != SprtVerdict::Continue ==> {
            &&& r.verdict_line matches Some(line)
            &&& line@ == "SPRT-Entscheidung: "@ + verdict_text(verdict) + "\n"@
            &&& r.next_game is None
        },
{
    match verdict {
        SprtVerdict::Continue => VerdictStep {
            verdict_line: None,
            next_game: next_game(game_no, max_games),
        },
        SprtVerdict::AcceptH1 => {
            let mut line = String::from_str("SPRT-Entscheidung: ");
            line.append("H1 akzeptiert: Engine A ist signifikant stärker (>= elo1)");
            line.append("\n");
            VerdictStep { verdict_line: Some(line), next_game: None }
        },
        SprtVerdict::AcceptH0 => {
            let mut line = String::from_str("SPRT-Entscheidung: ");
            line.append("H0 akzeptiert: keine signifikante Verbesserung (<= elo0)");
            line.append("\n");
            VerdictStep { verdict_line: Some(line), next_game: None }
        },
    }
}

/// A series plays its games in order and never more than it was set to:
/// every game that follows another is the next one, and lies within the
/// series.
pub proof fn lemma_series_stays_within(game_no: u32, max_games: u32)
    ensures
        following_game(game_no, max_games) matches Some(n) ==> n == game_no + 1 && n < max_games,
        following_game(game_no, max_games) is None ==> game_no + 1 >= max_games,
{
}

/// A result is seen from engine A's side by the colour A had: with white,
/// a white win is A's win; with black, a black win is A's win and a white
/// win A's loss; a draw stays a draw.
pub proof fn lemma_outcome_by_colour(game_no: u32, outcome: Outcome)
    ensures
        a_has_white(game_no) ==> outcome_for_a(game_no, outcome) == outcome,
        !a_has_white(game_no) ==> outcome_for_a(game_no, outcome) == swap_colours(outcome),
        !a_has_white(game_no) ==> outcome_for_a(game_no, Outcome::WhiteWin) == Outcome::BlackWin,
        !a_has_white(game_no) ==> outcome_for_a(game_no, Outcome::BlackWin) == Outcome::WhiteWin,
        outcome_for_a(game_no, Outcome::Draw) == Outcome::Draw,
{
}

/// Engine A has white in the even-numbered games, counted from 0.
pub proof fn lemma_a_white_in_even_games(game_no: u32)
    ensures
        a_has_white(game_no) <==> game_no % 2 == 0,
{
}

/// A setting typed as a number is that number; anything else gives the
/// default. So every `u32` typed in decimal is read as itself.
pub proof fn lemma_setting_reads_number(text: Seq<char>, default: u32, n: u32)
    ensures
        parse_u32(text) matches Some(v) ==> setting_value(text, default) == v,
        parse_u32(text) is None ==> setting_value(text, default) == default,
        setting_value(decimal(n as nat), default) == n,
{
    crate::commands::lemma_decimal_reads_back(n);
}

/// Each decision line names the hypothesis it accepts, and the two differ.
pub proof fn lemma_verdict_names_hypothesis()
    ensures
        verdict_text(SprtVerdict::AcceptH1).take(2) == "H1"@,
        verdict_text(SprtVerdict::AcceptH0).take(2) == "H0"@,
        verdict_text(SprtVerdict::AcceptH1) != verdict_text(SprtVerdict::AcceptH0),
{
    reveal_strlit("H1 akzeptiert: Engine A ist signifikant stärker (>= elo1)");
    reveal_strlit("H0 akzeptiert: keine signifikante Verbesserung (<= elo0)");
    reveal_strlit("H1");
    reveal_strlit("H0");
    assert(verdict_text(SprtVerdict::AcceptH1)[1] != verdict_text(SprtVerdict::AcceptH0)[1]);
}

/// The error line of a failed game names that game, counted from 0, and
/// ends with the error itself.
pub proof fn lemma_game_error_names_game(game_no: u32, error: Seq<char>)
    ensures
        ({
            let t = game_error_text(game_no, error);
            let d = decimal(game_no as nat);
            &&& t.subrange(7, 7 + d.len() as int) == d
            &&& parse_u32(t.subrange(7, 7 + d.len() as int)) == Some(game_no)
            &&& t.subrange(t.len() - error.len() - 1, t.len() - 1) == error
        }),
{
    reveal_strlit("Partie ");
    reveal_strlit(": Fehler: ");
    reveal_strlit("\n");
    let t = game_error_text(game_no, error);
    let d = decimal(game_no as nat);
    assert(t.subrange(7, 7 + d.len() as int) == d);
    assert(t.subrange(t.len() - error.len() - 1, t.len() - 1) == error);
    crate::commands::lemma_decimal_reads_back(game_no);
}

/// The colours alternate: of two consecutive games, engine A has white in
/// exactly one.
pub proof fn lemma_colours_alternate(game_no: u32)
    requires
        game_no < u32::MAX,
    ensures
        a_has_white(0),
        a_has_white(game_no) != a_has_white((game_no + 1) as u32),
{
}

/// Seeing a result from engine A's side twice gives back the result: the
/// mapping undoes itself.
pub proof fn lemma_outcome_for_a_undoes_itself(game_no: u32, outcome: Outcome)
    ensures
        outcome_for_a(game_no, outcome_for_a(game_no, outcome)) == outcome,
{
}

/// A draw is a draw for engine A, whichever colour it had.
pub proof fn lemma_draw_stays_draw(game_no: u32)
    ensures
        outcome_for_a(game_no, Outcome::Draw) == Outcome::Draw,
{
}

} // verus!
