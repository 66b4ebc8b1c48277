# emblium

The verified core of a UCI chess-engine adapter and of an
engine-versus-engine series runner.

- `src/text.rs`: whitespace, trimming and splitting into tokens as `str`
  does them, and reading decimal integers as `str::parse` does.
- `src/events.rs`: what an engine prints (`info`, `bestmove`, `id`,
  `readyok`, `uciok`) read into `EngineEvent`s, with `parse_info`.
- `src/commands.rs`: the command lines sent to an engine.
- `src/series.rs`: colours per game, results from engine A's side, numeric
  settings, the steps of a single game and of an SPRT series (what each
  game and each verdict lead to), and the log lines of a run.
- `app/`: the engine as a child process with its reader thread, and the
  background thread that plays a game or a series and reports to the
  window, which polls the reports.

Every function in `src/` carries a contract that Verus proves; the proof
functions state the laws that connect them (tokens read back from the
commands written, results seen from either side, and so on).
