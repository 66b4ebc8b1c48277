//! What a UCI engine prints, read into events.

use vstd::prelude::*;
use vstd::string::StrSliceExecFns;
use vstd::string::StringExecFns;
use crate::commands::{
    decimal, join_words, lemma_decimal_is_word, lemma_decimal_reads_back,
    lemma_decimal_reads_back_u64, lemma_join_splits_back, lemma_signed_decimal_is_word,
    lemma_signed_decimal_reads_back, signed_decimal,
};
use crate::text::{
    bounds_within, chars_of, has_prefix, is_word, is_ws, lemma_split_at_whitespace,
    lemma_split_word, lemma_split_word_then, lemma_trim_keeps_trimmed, parse_i32, parse_i32_at,
    parse_u32, parse_u32_at, parse_u64, parse_u64_at, pieces, range_is, range_starts_with,
    split_ws, token_bounds, trim, trim_bounds,
};

verus! {

broadcast use vstd::string::group_string_axioms;

/// One `info` line of a search, as far as it was understood.
#[derive(Debug, Clone)]
pub struct InfoLine {
    pub depth: Option<u32>,
    pub seldepth: Option<u32>,
    pub multipv: Option<u32>,
    pub nodes: Option<u64>,
    pub nps: Option<u64>,
    pub score_cp: Option<i32>,
    pub score_mate: Option<i32>,
    pub pv: Vec<String>,
}

/// The content of an [`InfoLine`], with the principal variation as text.
pub struct InfoView {
    pub depth: Option<u32>,
    pub seldepth: Option<u32>,
    pub multipv: Option<u32>,
    pub nodes: Option<u64>,
    pub nps: Option<u64>,
    pub score_cp: Option<i32>,
    pub score_mate: Option<i32>,
    pub pv: Seq<Seq<char>>,
}

/// The texts of a sequence of strings.
pub open spec fn texts(v: Seq<String>) -> Seq<Seq<char>> {
    v.map_values(|s: String| s@)
}

impl View for InfoLine {
    type V = InfoView;

    open spec fn view(&self) -> InfoView {
        InfoView {
            depth: self.depth,
            seldepth: self.seldepth,
            multipv: self.multipv,
            nodes: self.nodes,
            nps: self.nps,
            score_cp: self.score_cp,
            score_mate: self.score_mate,
            pv: texts(self.pv@),
        }
    }
}

/// An info line that says nothing.
pub open spec fn empty_info() -> InfoView {
    InfoView {
        depth: None,
        seldepth: None,
        multipv: None,
        nodes: None,
        nps: None,
        score_cp: None,
        score_mate: None,
        pv: seq![],
    }
}

impl Default for InfoLine {
    fn default() -> (r: Self)
        ensures
            r@ == empty_info(),
    {
        let r = InfoLine {
            depth: None,
            seldepth: None,
            multipv: None,
            nodes: None,
            nps: None,
            score_cp: None,
            score_mate: None,
            pv: Vec::new(),
        };
        assert(r@.pv == Seq::<Seq<char>>::empty());
        r
    }
}

/// Token `j` of `toks`, if there is one.
pub open spec fn token_at(toks: Seq<Seq<char>>, j: int) -> Option<Seq<char>> {
    if 0 <= j < toks.len() {
        Some(toks[j])
    } else {
        None
    }
}

/// A token, if present, read as a `u32`.
pub open spec fn u32_of(t: Option<Seq<char>>) -> Option<u32> {
    match t {
        Some(s) => parse_u32(s),
        None => None,
    }
}

/// A token, if present, read as a `u64`.
pub open spec fn u64_of(t: Option<Seq<char>>) -> Option<u64> {
    match t {
        Some(s) => parse_u64(s),
        None => None,
    }
}

/// A token, if present, read as an `i32`.
pub open spec fn i32_of(t: Option<Seq<char>>) -> Option<i32> {
    match t {
        Some(s) => parse_i32(s),
        None => None,
    }
}

/// What the tokens of an info line from position `i` on add to `acc`:
/// a key among `depth`, `seldepth`, `multipv`, `nodes`, `nps` takes the
/// next token as its value (nothing where it is missing or no number);
/// `score` is followed by `cp` or `mate` and a value, and skips three
/// tokens in any case; `pv` takes all the tokens after it and ends the
/// line; any other token is passed over.
pub open spec fn scan_info(toks: Seq<Seq<char>>, i: nat, acc: InfoView) -> InfoView
    decreases if i < toks.len() {
        toks.len() - i
    } else {
        0
    },
{
    if i >= toks.len() {
        acc
    } else {
        let t = toks[i as int];
        let next = token_at(toks, i + 1 as int);
        if t == "depth"@ {
            scan_info(toks, i + 2, InfoView { depth: u32_of(next), ..acc })
        } else if t == "seldepth"@ {
            scan_info(toks, i + 2, InfoView { seldepth: u32_of(next), ..acc })
        } else if t == "multipv"@ {
            scan_info(toks, i + 2, InfoView { multipv: u32_of(next), ..acc })
        } else if t == "nodes"@ {
            scan_info(toks, i + 2, InfoView { nodes: u64_of(next), ..acc })
        } else if t == "nps"@ {
            scan_info(toks, i + 2, InfoView { nps: u64_of(next), ..acc })
        } else if t == "score"@ {
            let value = token_at(toks, i + 2 as int);
            let scored = if next == Some("cp"@) {
                InfoView { score_cp: i32_of(value), ..acc }
            } else if next == Some("mate"@) {
                InfoView { score_mate: i32_of(value), ..acc }
            } else {
                acc
            };
            scan_info(toks, i + 3, scored)
        } else if t == "pv"@ {
            InfoView { pv: toks.subrange(i + 1 as int, toks.len() as int), ..acc }
        } else {
            scan_info(toks, i + 1, acc)
        }
    }
}

/// What an info line says: its tokens after the first one, scanned.
pub open spec fn info_of(line: Seq<char>) -> InfoView {
    scan_info(split_ws(line), 1, empty_info())
}

/// `line[a..b]` as a new string.
fn text_between(line: &str, a: usize, b: usize) -> (r: String)
    requires
        a <= b <= line@.len(),
    ensures
        r@ == line@.subrange(a as int, b as int),
{
    String::from_str(line.substring_char(a, b))
}

/// Reads an `info` line of a UCI engine. The first token (the word
/// `info`) is passed over.
pub fn parse_info(line: &str) -> (r: InfoLine)
    ensures
        r@ == info_of(line@),
{
    let chars = chars_of(line);
    let n = chars.len();
    assert(chars@.subrange(0, n as int) == chars@);
    let toks = token_bounds(&chars, 0, n);
    let ghost t = split_ws(line@);
    assert(pieces(chars@, toks@) == t);
    let mut info = InfoLine::default();
    let mut i: usize = 1;
    let len = toks.len();
    while i < len
        invariant
            len == toks@.len() == t.len(),
            n == chars@.len(),
            chars@ == line@,
            pieces(chars@, toks@) == t,
            bounds_within(toks@, 0, n as int),
            1 <= i,
            scan_info(t, i as nat, info@) == info_of(line@),
        decreases len - i,
    {
        let (a, b) = toks[i];
        assert(t[i as int] == chars@.subrange(a as int, b as int));
        let has_next = i + 1 < len;
        if has_next {
            assert(t[i + 1] == chars@.subrange(toks@[i + 1].0 as int, toks@[i + 1].1 as int));
        }
        if len - i > 2 {
            assert(t[i + 2] == chars@.subrange(toks@[i + 2].0 as int, toks@[i + 2].1 as int));
        }
        let ghost old_i = i;
        let ghost old_info = info@;
        if range_is(&chars, a, b, "depth") {
            info.depth = if has_next { parse_u32_at(&chars, toks[i + 1].0, toks[i + 1].1) } else { None };
            assert(scan_info(t, old_i as nat, old_info) == scan_info(t, (old_i + 2) as nat, info@));
            i = if len - i > 2 { i + 2 } else { len };
        } else if range_is(&chars, a, b, "seldepth") {
            info.seldepth = if has_next { parse_u32_at(&chars, toks[i + 1].0, toks[i + 1].1) } else { None };
            assert(scan_info(t, old_i as nat, old_info) == scan_info(t, (old_i + 2) as nat, info@));
            i = if len - i > 2 { i + 2 } else { len };
        } else if range_is(&chars, a, b, "multipv") {
            info.multipv = if has_next { parse_u32_at(&chars, toks[i + 1].0, toks[i + 1].1) } else { None };
            assert(scan_info(t, old_i as nat, old_info) == scan_info(t, (old_i + 2) as nat, info@));
            i = if len - i > 2 { i + 2 } else { len };
        } else if range_is(&chars, a, b, "nodes") {
            info.nodes = if has_next { parse_u64_at(&chars, toks[i + 1].0, toks[i + 1].1) } else { None };
            assert(scan_info(t, old_i as nat, old_info) == scan_info(t, (old_i + 2) as nat, info@));
            i = if len - i > 2 { i + 2 } else { len };
        } else if range_is(&chars, a, b, "nps") {
            info.nps = if has_next { parse_u64_at(&chars, toks[i + 1].0, toks[i + 1].1) } else { None };
            assert(scan_info(t, old_i as nat, old_info) == scan_info(t, (old_i + 2) as nat, info@));
            i = if len - i > 2 { i + 2 } else { len };
        } else if range_is(&chars, a, b, "score") {
            if has_next {
                let (ka, kb) = toks[i + 1];
                assert(t[i + 1] == chars@.subrange(ka as int, kb as int));
                let has_value = len - i > 2;
                if range_is(&chars, ka, kb, "cp") {
                    info.score_cp = if has_value { parse_i32_at(&chars, toks[i + 2].0, toks[i + 2].1) } else { None };
                } else if range_is(&chars, ka, kb, "mate") {
                    info.score_mate = if has_value { parse_i32_at(&chars, toks[i + 2].0, toks[i + 2].1) } else { None };
                }
            }
            assert(scan_info(t, old_i as nat, old_info) == scan_info(t, (old_i + 3) as nat, info@));
            i = if len - i > 3 { i + 3 } else { len };
        } else if range_is(&chars, a, b, "pv") {
            let mut pv: Vec<String> = Vec::new();
            let mut k: usize = i + 1;
            assert(texts(pv@) == t.subrange(i + 1, k as int));
            while k < len
                invariant
                    i < k <= len == toks@.len() == t.len(),
                    chars@ == line@,
                    n == chars@.len(),
                    pieces(chars@, toks@) == t,
                    bounds_within(toks@, 0, n as int),
                    texts(pv@) == t.subrange(i + 1, k as int),
                decreases len - k,
            {
                let (pa, pb) = toks[k];
                assert(t[k as int] == chars@.subrange(pa as int, pb as int));
                let word = text_between(line, pa, pb);
                let ghost before = texts(pv@);
                pv.push(word);
                assert(texts(pv@) == before.push(word@));
                assert(texts(pv@) == t.subrange(i + 1, k + 1));
                k = k + 1;
            }
            info.pv = pv;
            assert(info@ == scan_info(t, old_i as nat, old_info));
            return info;
        } else {
            i = i + 1;
        }
        assert(scan_info(t, old_i as nat, old_info) == scan_info(t, i as nat, info@));
    }
    info
}


/// Something a UCI engine told: what the reader passes on to the GUI.
#[derive(Debug, Clone)]
pub enum EngineEvent {
    Ready,
    IdName(String),
    IdAuthor(String),
    Info(InfoLine),
    BestMove { best: String, ponder: Option<String> },
    RawLine(String),
    Crashed(String),
}

/// The content of an [`EngineEvent`], with texts in place of strings.
pub enum EventView {
    Ready,
    IdName(Seq<char>),
    IdAuthor(Seq<char>),
    Info(InfoView),
    BestMove { best: Seq<char>, ponder: Option<Seq<char>> },
    RawLine(Seq<char>),
    Crashed(Seq<char>),
}

impl View for EngineEvent {
    type V = EventView;

    open spec fn view(&self) -> EventView {
        match self {
            EngineEvent::Ready => EventView::Ready,
            EngineEvent::IdName(s) => EventView::IdName(s@),
            EngineEvent::IdAuthor(s) => EventView::IdAuthor(s@),
            EngineEvent::Info(i) => EventView::Info(i@),
            EngineEvent::BestMove { best, ponder } => EventView::BestMove {
                best: best@,
                ponder: match ponder {
                    Some(p) => Some(p@),
                    None => None,
                },
            },
            EngineEvent::RawLine(s) => EventView::RawLine(s@),
            EngineEvent::Crashed(s) => EventView::Crashed(s@),
        }
    }
}

/// The contents of a sequence of events.
pub open spec fn event_views(v: Seq<EngineEvent>) -> Seq<EventView> {
    v.map_values(|e: EngineEvent| e@)
}

/// The move announcement that follows the word `bestmove`: its first token
/// is the move (`(none)` where there is none), and a `ponder` token in
/// second place brings the third token as the move to ponder on.
pub open spec fn bestmove_of(rest: Seq<char>) -> EventView {
    let toks = split_ws(rest);
    EventView::BestMove {
        best: if toks.len() > 0 {
            toks[0]
        } else {
            "(none)"@
        },
        ponder: if toks.len() >= 3 && toks[1] == "ponder"@ {
            Some(toks[2])
        } else {
            None
        },
    }
}

/// The events that one line of engine output gives, in order. A blank line
/// gives none; any other line gives itself, trimmed, as a raw line and
/// then, by what it starts with, the event it announces.
pub open spec fn line_events(line: Seq<char>) -> Seq<EventView> {
    let t = trim(line);
    let raw = EventView::RawLine(t);
    if t.len() == 0 {
        seq![]
    } else if t == "readyok"@ {
        seq![raw, EventView::Ready]
    } else if has_prefix(t, "id name "@) {
        seq![raw, EventView::IdName(t.skip("id name "@.len() as int))]
    } else if has_prefix(t, "id author "@) {
        seq![raw, EventView::IdAuthor(t.skip("id author "@.len() as int))]
    } else if t == "uciok"@ {
        seq![raw]
    } else if has_prefix(t, "bestmove"@) {
        seq![raw, bestmove_of(t.skip("bestmove"@.len() as int))]
    } else if has_prefix(t, "info"@) {
        seq![raw, EventView::Info(info_of(t))]
    } else {
        seq![raw]
    }
}

/// Whether a line of engine output must be answered with `isready`: it is
/// `uciok`, the end of the engine's introduction.
pub open spec fn line_wants_isready(line: Seq<char>) -> bool {
    trim(line) == "uciok"@
}

/// What the reader does with one line of engine output: the events to
/// pass on, in order, and whether to answer the engine with `isready`.
pub struct LineReply {
    pub events: Vec<EngineEvent>,
    pub answer_isready: bool,
}

/// Reads one line that the engine printed.
pub fn interpret_line(line: &str) -> (r: LineReply)
    ensures
        event_views(r.events@) == line_events(line@),
        r.answer_isready == line_wants_isready(line@),
        r.answer_isready == (trim(line@) == "uciok"@),
{
    let chars = chars_of(line);
    let (a, b) = trim_bounds(&chars);
    let ghost t = trim(line@);
    proof {
        reveal_strlit("uciok");
        reveal_strlit("readyok");
        reveal_strlit("id name ");
        reveal_strlit("id author ");
        reveal_strlit("bestmove");
        reveal_strlit("info");
        if t == "uciok"@ {
            assert(t[0] == 'u');
            assert(t.len() == 5);
        }
    }
    let mut events: Vec<EngineEvent> = Vec::new();
    if a == b {
        assert(event_views(events@) == Seq::<EventView>::empty());
        return LineReply { events, answer_isready: false };
    }
    let trimmed = line.substring_char(a, b);
    assert(trimmed@ == t);
    events.push(EngineEvent::RawLine(String::from_str(trimmed)));
    let mut answer_isready = false;
    let id_name_len = "id name ".unicode_len();
    let id_author_len = "id author ".unicode_len();
    let bestmove_len = "bestmove".unicode_len();
    if range_is(&chars, a, b, "readyok") {
        events.push(EngineEvent::Ready);
    } else if range_starts_with(&chars, a, b, "id name ") {
        assert(t.skip(id_name_len as int) == chars@.subrange(a + id_name_len, b as int));
        events.push(EngineEvent::IdName(text_between(line, a + id_name_len, b)));
    } else if range_starts_with(&chars, a, b, "id author ") {
        assert(t.skip(id_author_len as int) == chars@.subrange(a + id_author_len, b as int));
        events.push(EngineEvent::IdAuthor(text_between(line, a + id_author_len, b)));
    } else if range_is(&chars, a, b, "uciok") {
        answer_isready = true;
    } else if range_starts_with(&chars, a, b, "bestmove") {
        let lo = a + bestmove_len;
        assert(t.skip(bestmove_len as int) == chars@.subrange(lo as int, b as int));
        let toks = token_bounds(&chars, lo, b);
        let ghost tk = split_ws(chars@.subrange(lo as int, b as int));
        let best = if toks.len() > 0 {
            assert(tk[0] == chars@.subrange(toks@[0].0 as int, toks@[0].1 as int));
            text_between(line, toks[0].0, toks[0].1)
        } else {
            String::from_str("(none)")
        };
        let ponder = if toks.len() >= 3 && range_is(&chars, toks[1].0, toks[1].1, "ponder") {
            assert(tk[1] == chars@.subrange(toks@[1].0 as int, toks@[1].1 as int));
            assert(tk[2] == chars@.subrange(toks@[2].0 as int, toks@[2].1 as int));
            Some(text_between(line, toks[2].0, toks[2].1))
        } else {
            if toks.len() >= 3 {
                assert(tk[1] == chars@.subrange(toks@[1].0 as int, toks@[1].1 as int));
            }
            None
        };
        events.push(EngineEvent::BestMove { best, ponder });
    } else if range_starts_with(&chars, a, b, "info") {
        events.push(EngineEvent::Info(parse_info(trimmed)));
    }
    assert(event_views(events@) == line_events(line@));
    LineReply { events, answer_isready }
}


/// Every line that is not blank is passed on first as it is, trimmed, and
/// brings at most one event more; a blank line brings none.
pub proof fn lemma_raw_line_first(line: Seq<char>)
    ensures
        trim(line).len() == 0 ==> line_events(line).len() == 0,
        trim(line).len() > 0 ==> {
            &&& 1 <= line_events(line).len() <= 2
            &&& line_events(line)[0] == EventView::RawLine(trim(line))
        },
{
}

/// A best-move announcement reads back as the move and the move to ponder
/// on that it names.
pub proof fn lemma_bestmove_reads_back(best: Seq<char>, ponder: Seq<char>)
    requires
        is_word(best),
        is_word(ponder),
    ensures
        line_events("bestmove "@ + best + " ponder "@ + ponder) == seq![
            EventView::RawLine("bestmove "@ + best + " ponder "@ + ponder),
            EventView::BestMove { best, ponder: Some(ponder) },
        ],
{
    reveal_strlit("bestmove ");
    reveal_strlit(" ponder ");
    reveal_strlit("bestmove");
    reveal_strlit("ponder");
    reveal_strlit("readyok");
    reveal_strlit("id name ");
    reveal_strlit("id author ");
    reveal_strlit("uciok");
    let line = "bestmove "@ + best + " ponder "@ + ponder;
    assert(line[0] == 'b');
    assert(line.last() == ponder.last());
    assert(!is_ws(ponder[ponder.len() - 1]));
    lemma_trim_keeps_trimmed(line);
    assert(line.take(8) == "bestmove"@);
    assert(line.take(8)[0] == 'b');
    assert(line.take(8) != "id name "@);
    assert(line.len() >= 10 ==> line.take(10)[0] == 'b');
    assert(line.take(10) != "id author "@);
    assert(line != "readyok"@);
    assert(line != "uciok"@);
    let rest = line.skip(8);
    assert(is_word("ponder"@));
    assert(rest == Seq::<char>::empty().push(' ') + (best.push(' ') + ("ponder"@.push(' ')
        + ponder)));
    lemma_split_word(ponder);
    lemma_split_word_then("ponder"@, ponder);
    lemma_split_word_then(best, "ponder"@.push(' ') + ponder);
    assert(is_ws(' '));
    lemma_split_at_whitespace(Seq::<char>::empty(), ' ', best.push(' ') + ("ponder"@.push(' ')
        + ponder));
    assert(split_ws(Seq::<char>::empty()) == Seq::<Seq<char>>::empty());
    assert(split_ws(rest) == seq![best, "ponder"@, ponder]);
}

/// The search depth and the principal variation written into an info line
/// read back as themselves.
pub proof fn lemma_info_reads_back(depth: u32, pv: Seq<Seq<char>>)
    requires
        forall|k: int| 0 <= k < pv.len() ==> is_word(#[trigger] pv[k]),
    ensures
        info_of("info depth "@ + decimal(depth as nat) + " pv "@ + join_words(pv)) == (InfoView {
            depth: Some(depth),
            pv,
            ..empty_info()
        }),
{
    reveal_strlit("info depth ");
    reveal_strlit(" pv ");
    reveal_strlit("info");
    reveal_strlit("depth");
    reveal_strlit("pv");
    reveal_strlit("seldepth");
    reveal_strlit("multipv");
    reveal_strlit("nodes");
    reveal_strlit("nps");
    reveal_strlit("score");
    let d = decimal(depth as nat);
    let j = join_words(pv);
    crate::commands::lemma_decimal_is_word(depth as nat);
    lemma_join_splits_back(pv);
    assert(is_word("info"@));
    assert(is_word("depth"@));
    assert(is_word("pv"@));
    assert("info depth "@ + d + " pv "@ + j == "info"@.push(' ') + ("depth"@.push(' ') + (d.push(
        ' ',
    ) + ("pv"@.push(' ') + j))));
    lemma_split_word_then("pv"@, j);
    lemma_split_word_then(d, "pv"@.push(' ') + j);
    lemma_split_word_then("depth"@, d.push(' ') + ("pv"@.push(' ') + j));
    lemma_split_word_then("info"@, "depth"@.push(' ') + (d.push(' ') + ("pv"@.push(' ') + j)));
    let toks = seq!["info"@, "depth"@, d, "pv"@] + pv;
    assert(split_ws("info depth "@ + d + " pv "@ + j) == toks);
    lemma_decimal_reads_back(depth);
    assert(toks[1] == "depth"@);
    assert(toks[2] == d);
    assert(toks[3] == "pv"@);
    assert(toks.subrange(4, toks.len() as int) == pv);
    let after_depth = InfoView { depth: Some(depth), ..empty_info() };
    assert(scan_info(toks, 1, empty_info()) == scan_info(toks, 3, after_depth));
    assert(scan_info(toks, 3, after_depth) == InfoView { pv, ..after_depth });
}

proof fn lemma_info_keywords()
    ensures
        is_word("info"@),
        is_word("depth"@),
        is_word("seldepth"@),
        is_word("multipv"@),
        is_word("score"@),
        is_word("cp"@),
        is_word("mate"@),
        is_word("nodes"@),
        is_word("nps"@),
        is_word("pv"@),
        "nodes"@ != "depth"@,
        "score"@ != "depth"@,
        "score"@ != "nodes"@,
{
    reveal_strlit("info");
    reveal_strlit("depth");
    reveal_strlit("seldepth");
    reveal_strlit("multipv");
    reveal_strlit("score");
    reveal_strlit("cp");
    reveal_strlit("mate");
    reveal_strlit("nodes");
    reveal_strlit("nps");
    reveal_strlit("pv");
    assert("nodes"@[0] != "depth"@[0]);
    assert("score"@[0] != "depth"@[0]);
    assert("score"@[0] != "nodes"@[0]);
}

/// Every field written into an info line reads back as itself, in its own
/// place: an info line whose tokens are `depth`, `seldepth`, `multipv`,
/// `score cp`, `nodes` and `nps`, each with its value, then `pv` and the
/// moves, gives each of those values and the moves.
pub proof fn lemma_info_fields_read_back(
    depth: u32,
    seldepth: u32,
    multipv: u32,
    cp: i32,
    nodes: u64,
    nps: u64,
    pv: Seq<Seq<char>>,
)
    requires
        forall|k: int| 0 <= k < pv.len() ==> is_word(#[trigger] pv[k]),
    ensures
        info_of(
            join_words(
                seq![
                    "info"@,
                    "depth"@,
                    decimal(depth as nat),
                    "seldepth"@,
                    decimal(seldepth as nat),
                    "multipv"@,
                    decimal(multipv as nat),
                    "score"@,
                    "cp"@,
                    signed_decimal(cp as int),
                    "nodes"@,
                    decimal(nodes as nat),
                    "nps"@,
                    decimal(nps as nat),
                    "pv"@,
                ] + pv,
            ),
        ) == (InfoView {
            depth: Some(depth),
            seldepth: Some(seldepth),
            multipv: Some(multipv),
            nodes: Some(nodes),
            nps: Some(nps),
            score_cp: Some(cp),
            score_mate: None,
            pv,
        }),
{
    lemma_info_keywords();
    reveal_strlit("info");
    reveal_strlit("depth");
    reveal_strlit("seldepth");
    reveal_strlit("multipv");
    reveal_strlit("score");
    reveal_strlit("cp");
    reveal_strlit("mate");
    reveal_strlit("nodes");
    reveal_strlit("nps");
    reveal_strlit("pv");
    let dd = decimal(depth as nat);
    let ds = decimal(seldepth as nat);
    let dm = decimal(multipv as nat);
    let dc = signed_decimal(cp as int);
    let dn = decimal(nodes as nat);
    let dp = decimal(nps as nat);
    lemma_decimal_is_word(depth as nat);
    lemma_decimal_is_word(seldepth as nat);
    lemma_decimal_is_word(multipv as nat);
    lemma_signed_decimal_is_word(cp as int);
    lemma_decimal_is_word(nodes as nat);
    lemma_decimal_is_word(nps as nat);
    lemma_decimal_reads_back(depth);
    lemma_decimal_reads_back(seldepth);
    lemma_decimal_reads_back(multipv);
    lemma_signed_decimal_reads_back(cp);
    lemma_decimal_reads_back_u64(nodes);
    lemma_decimal_reads_back_u64(nps);
    let head = seq![
        "info"@,
        "depth"@,
        dd,
        "seldepth"@,
        ds,
        "multipv"@,
        dm,
        "score"@,
        "cp"@,
        dc,
        "nodes"@,
        dn,
        "nps"@,
        dp,
        "pv"@,
    ];
    let toks = head + pv;
    assert forall|k: int| 0 <= k < toks.len() implies is_word(#[trigger] toks[k]) by {
        if k >= head.len() {
            assert(toks[k] == pv[k - head.len()]);
        }
    }
    lemma_join_splits_back(toks);
    assert(split_ws(join_words(toks)) == toks);
    assert(toks[1] == "depth"@ && toks[2] == dd);
    assert(toks[3] == "seldepth"@ && toks[4] == ds);
    assert(toks[5] == "multipv"@ && toks[6] == dm);
    assert(toks[7] == "score"@ && toks[8] == "cp"@ && toks[9] == dc);
    assert(toks[10] == "nodes"@ && toks[11] == dn);
    assert(toks[12] == "nps"@ && toks[13] == dp);
    assert(toks[14] == "pv"@);
    assert(toks.subrange(15, toks.len() as int) == pv);
    let a1 = InfoView { depth: Some(depth), ..empty_info() };
    let a2 = InfoView { seldepth: Some(seldepth), ..a1 };
    let a3 = InfoView { multipv: Some(multipv), ..a2 };
    let a4 = InfoView { score_cp: Some(cp), ..a3 };
    let a5 = InfoView { nodes: Some(nodes), ..a4 };
    let a6 = InfoView { nps: Some(nps), ..a5 };
    assert(scan_info(toks, 1, empty_info()) == scan_info(toks, 3, a1));
    assert(scan_info(toks, 3, a1) == scan_info(toks, 5, a2));
    assert(scan_info(toks, 5, a2) == scan_info(toks, 7, a3));
    assert(scan_info(toks, 7, a3) == scan_info(toks, 10, a4));
    assert(scan_info(toks, 10, a4) == scan_info(toks, 12, a5));
    assert(scan_info(toks, 12, a5) == scan_info(toks, 14, a6));
    assert(scan_info(toks, 14, a6) == InfoView { pv, ..a6 });
}

/// A mate score written into an info line reads back as itself, whatever
/// its sign: `info score mate <m>` gives `score_mate == Some(m)` and no
/// centipawn score.
pub proof fn lemma_info_mate_reads_back(mate: i32)
    ensures
        info_of(join_words(seq!["info"@, "score"@, "mate"@, signed_decimal(mate as int)]))
            == (InfoView { score_mate: Some(mate), ..empty_info() }),
{
    lemma_info_keywords();
    reveal_strlit("info");
    reveal_strlit("depth");
    reveal_strlit("seldepth");
    reveal_strlit("multipv");
    reveal_strlit("score");
    reveal_strlit("cp");
    reveal_strlit("mate");
    reveal_strlit("nodes");
    reveal_strlit("nps");
    reveal_strlit("pv");
    let dm = signed_decimal(mate as int);
    lemma_signed_decimal_is_word(mate as int);
    lemma_signed_decimal_reads_back(mate);
    let toks = seq!["info"@, "score"@, "mate"@, dm];
    assert forall|k: int| 0 <= k < toks.len() implies is_word(#[trigger] toks[k]) by {}
    lemma_join_splits_back(toks);
    assert(toks[1] == "score"@ && toks[2] == "mate"@ && toks[3] == dm);
    let a = InfoView { score_mate: Some(mate), ..empty_info() };
    assert(scan_info(toks, 1, empty_info()) == scan_info(toks, 4, a));
}

/// The reader answers with `isready` exactly on the line `uciok`, however
/// it is padded with whitespace: the answer depends on the trimmed line
/// alone, `uciok` itself is answered, and the line is passed on only as
/// itself.
pub proof fn lemma_isready_exactly_on_uciok(line: Seq<char>)
    ensures
        line_wants_isready(line) == line_wants_isready(trim(line)),
        line_wants_isready("uciok"@),
        line_wants_isready(line) <==> trim(line) == "uciok"@,
        line_wants_isready(line) ==> line_events(line) == seq![EventView::RawLine("uciok"@)],
{
    crate::text::lemma_trim_idempotent(line);
    reveal_strlit("uciok");
    reveal_strlit("readyok");
    reveal_strlit("id name ");
    reveal_strlit("id author ");
    reveal_strlit("bestmove");
    reveal_strlit("info");
    assert("uciok"@[0] == 'u');
    lemma_trim_keeps_trimmed("uciok"@);
    let t = trim(line);
    if t == "uciok"@ {
        assert(t.len() == 5);
        assert(t != "readyok"@);
    }
}

/// `readyok`, however padded, gives itself and the ready event, and is not
/// answered.
pub proof fn lemma_readyok_gives_ready(line: Seq<char>)
    requires
        trim(line) == "readyok"@,
    ensures
        line_events(line) == seq![EventView::RawLine("readyok"@), EventView::Ready],
        !line_wants_isready(line),
{
    reveal_strlit("readyok");
    reveal_strlit("uciok");
    assert("readyok"@.len() == 7);
}

/// The name after `id name ` reads back as the engine's name.
pub proof fn lemma_id_name_reads_back(name: Seq<char>)
    requires
        name.len() > 0,
        !is_ws(name.last()),
    ensures
        line_events("id name "@ + name) == seq![
            EventView::RawLine("id name "@ + name),
            EventView::IdName(name),
        ],
{
    reveal_strlit("id name ");
    reveal_strlit("readyok");
    let line = "id name "@ + name;
    assert(line[0] == 'i');
    assert(line.last() == name.last());
    lemma_trim_keeps_trimmed(line);
    assert(line[1] == 'd' && "readyok"@[1] == 'e');
    assert(line.take(8) == "id name "@);
    assert(line.skip(8) == name);
}

/// The author after `id author ` reads back as the engine's author.
pub proof fn lemma_id_author_reads_back(author: Seq<char>)
    requires
        author.len() > 0,
        !is_ws(author.last()),
    ensures
        line_events("id author "@ + author) == seq![
            EventView::RawLine("id author "@ + author),
            EventView::IdAuthor(author),
        ],
{
    reveal_strlit("id author ");
    reveal_strlit("id name ");
    reveal_strlit("readyok");
    let line = "id author "@ + author;
    assert(line[0] == 'i');
    assert(line.last() == author.last());
    lemma_trim_keeps_trimmed(line);
    assert(line[1] == 'd' && "readyok"@[1] == 'e');
    assert(line.take(8)[3] == 'a' && "id name "@[3] == 'n');
    assert(line.take(10) == "id author "@);
    assert(line.skip(10) == author);
}

/// A best move announced without a move to ponder on reads back as the
/// move and no ponder move.
pub proof fn lemma_bestmove_alone_reads_back(best: Seq<char>)
    requires
        is_word(best),
    ensures
        line_events("bestmove "@ + best) == seq![
            EventView::RawLine("bestmove "@ + best),
            EventView::BestMove { best, ponder: None },
        ],
{
    reveal_strlit("bestmove ");
    reveal_strlit("bestmove");
    reveal_strlit("readyok");
    reveal_strlit("id name ");
    reveal_strlit("id author ");
    reveal_strlit("uciok");
    let line = "bestmove "@ + best;
    assert(line[0] == 'b');
    assert(line.last() == best.last());
    assert(!is_ws(best[best.len() - 1]));
    lemma_trim_keeps_trimmed(line);
    assert(line.take(8) == "bestmove"@);
    assert(line.take(8)[0] == 'b');
    assert(line.take(8) != "id name "@);
    assert(line.len() >= 10 ==> line.take(10)[0] == 'b');
    assert(line.take(10) != "id author "@);
    assert(line != "readyok"@);
    assert(line != "uciok"@);
    let rest = line.skip(8);
    assert(rest == Seq::<char>::empty().push(' ') + best);
    assert(is_ws(' '));
    lemma_split_at_whitespace(Seq::<char>::empty(), ' ', best);
    lemma_split_word(best);
    assert(split_ws(Seq::<char>::empty()) == Seq::<Seq<char>>::empty());
    assert(split_ws(rest) == seq![best]);
}

/// Scanning tokens that agree after a shift by `d` gives the same result.
proof fn lemma_scan_shift(a: Seq<Seq<char>>, b: Seq<Seq<char>>, d: nat, i: nat, acc: InfoView)
    requires
        i >= 1,
        a.len() == b.len() + d,
        forall|k: int| 1 <= k < b.len() ==> a[k + d] == #[trigger] b[k],
    ensures
        scan_info(a, i + d, acc) == scan_info(b, i, acc),
    decreases if i < b.len() {
        b.len() - i
    } else {
        0
    },
{
    if i < b.len() {
        let j = i as int;
        let e = d as int;
        assert(a[j + e] == b[j]);
        assert(token_at(a, j + e + 1) == token_at(b, j + 1));
        assert(token_at(a, j + e + 2) == token_at(b, j + 2));
        assert(a.subrange(j + e + 1, a.len() as int) == b.subrange(j + 1, b.len() as int));
        lemma_scan_shift(a, b, d, i + 1, acc);
        lemma_scan_shift(a, b, d, i + 2, InfoView { depth: u32_of(token_at(b, j + 1)), ..acc });
        lemma_scan_shift(a, b, d, i + 2, InfoView { seldepth: u32_of(token_at(b, j + 1)), ..acc });
        lemma_scan_shift(a, b, d, i + 2, InfoView { multipv: u32_of(token_at(b, j + 1)), ..acc });
        lemma_scan_shift(a, b, d, i + 2, InfoView { nodes: u64_of(token_at(b, j + 1)), ..acc });
        lemma_scan_shift(a, b, d, i + 2, InfoView { nps: u64_of(token_at(b, j + 1)), ..acc });
        lemma_scan_shift(a, b, d, i + 3, InfoView { score_cp: i32_of(token_at(b, j + 2)), ..acc });
        lemma_scan_shift(
            a,
            b,
            d,
            i + 3,
            InfoView { score_mate: i32_of(token_at(b, j + 2)), ..acc },
        );
        lemma_scan_shift(a, b, d, i + 3, acc);
    }
}

/// A token that names no field is passed over on its own: the line reads
/// as if it were not there.
pub proof fn lemma_info_passes_over_unknown(w: Seq<char>, rest: Seq<Seq<char>>)
    requires
        is_word(w),
        forall|k: int| 0 <= k < rest.len() ==> is_word(#[trigger] rest[k]),
        w != "depth"@,
        w != "seldepth"@,
        w != "multipv"@,
        w != "nodes"@,
        w != "nps"@,
        w != "score"@,
        w != "pv"@,
    ensures
        info_of(join_words(seq!["info"@, w] + rest)) == info_of(join_words(seq!["info"@] + rest)),
{
    lemma_info_keywords();
    let a = seq!["info"@, w] + rest;
    let b = seq!["info"@] + rest;
    assert forall|k: int| 0 <= k < a.len() implies is_word(#[trigger] a[k]) by {
        if k >= 2 {
            assert(a[k] == rest[k - 2]);
        }
    }
    assert forall|k: int| 0 <= k < b.len() implies is_word(#[trigger] b[k]) by {
        if k >= 1 {
            assert(b[k] == rest[k - 1]);
        }
    }
    lemma_join_splits_back(a);
    lemma_join_splits_back(b);
    assert forall|k: int| 1 <= k < b.len() implies a[k + 1] == #[trigger] b[k] by {
        assert(a[k + 1] == rest[k - 1]);
        assert(b[k] == rest[k - 1]);
    }
    assert(a[1] == w);
    lemma_scan_shift(a, b, 1, 1, empty_info());
}

/// A score of another kind than `cp` or `mate` is passed over together
/// with its kind and its value: the line reads as if the three tokens were
/// not there.
pub proof fn lemma_info_passes_over_other_score(
    kind: Seq<char>,
    value: Seq<char>,
    rest: Seq<Seq<char>>,
)
    requires
        is_word(kind),
        is_word(value),
        forall|k: int| 0 <= k < rest.len() ==> is_word(#[trigger] rest[k]),
        kind != "cp"@,
        kind != "mate"@,
    ensures
        info_of(join_words(seq!["info"@, "score"@, kind, value] + rest)) == info_of(
            join_words(seq!["info"@] + rest),
        ),
{
    lemma_info_keywords();
    reveal_strlit("score");
    reveal_strlit("depth");
    reveal_strlit("seldepth");
    reveal_strlit("multipv");
    reveal_strlit("nodes");
    reveal_strlit("nps");
    let a = seq!["info"@, "score"@, kind, value] + rest;
    let b = seq!["info"@] + rest;
    assert forall|k: int| 0 <= k < a.len() implies is_word(#[trigger] a[k]) by {
        if k >= 4 {
            assert(a[k] == rest[k - 4]);
        }
    }
    assert forall|k: int| 0 <= k < b.len() implies is_word(#[trigger] b[k]) by {
        if k >= 1 {
            assert(b[k] == rest[k - 1]);
        }
    }
    lemma_join_splits_back(a);
    lemma_join_splits_back(b);
    assert forall|k: int| 1 <= k < b.len() implies a[k + 3] == #[trigger] b[k] by {
        assert(a[k + 3] == rest[k - 1]);
        assert(b[k] == rest[k - 1]);
    }
    assert(a[1] == "score"@ && a[2] == kind);
    assert(scan_info(a, 1, empty_info()) == scan_info(a, 4, empty_info()));
    lemma_scan_shift(a, b, 3, 1, empty_info());
}

/// The last `depth` of a line decides: its value is whatever its token
/// reads as, and a token that is no number clears an earlier depth.
pub proof fn lemma_info_last_depth_decides(first: u32, w: Seq<char>)
    requires
        is_word(w),
    ensures
        info_of(join_words(seq!["info"@, "depth"@, decimal(first as nat), "depth"@, w])).depth
            == crate::text::parse_u32(w),
        info_of(join_words(seq!["info"@, "depth"@])) == empty_info(),
{
    lemma_info_keywords();
    lemma_decimal_is_word(first as nat);
    let d = decimal(first as nat);
    let a = seq!["info"@, "depth"@, d, "depth"@, w];
    assert forall|k: int| 0 <= k < a.len() implies is_word(#[trigger] a[k]) by {}
    lemma_join_splits_back(a);
    assert(a[1] == "depth"@ && a[2] == d && a[3] == "depth"@ && a[4] == w);
    let a1 = InfoView { depth: u32_of(Some(d)), ..empty_info() };
    assert(scan_info(a, 1, empty_info()) == scan_info(a, 3, a1));
    let a2 = InfoView { depth: u32_of(Some(w)), ..a1 };
    assert(token_at(a, 4) == Some(w));
    assert(scan_info(a, 3, a1) == scan_info(a, 5, a2));
    assert(scan_info(a, 5, a2) == a2);
    let b = seq!["info"@, "depth"@];
    assert forall|k: int| 0 <= k < b.len() implies is_word(#[trigger] b[k]) by {}
    lemma_join_splits_back(b);
    assert(b[1] == "depth"@);
    assert(token_at(b, 2) is None);
    assert(scan_info(b, 1, empty_info()) == scan_info(b, 3, InfoView { depth: None, ..empty_info() }));
    assert(InfoView { depth: None, ..empty_info() } == empty_info());
}

/// The first token of an info line, whatever it is, is passed over: the
/// fields are read from the second token on.
pub proof fn lemma_info_first_token_passed_over(first: Seq<char>, depth: u32)
    requires
        is_word(first),
    ensures
        info_of(join_words(seq![first, "depth"@, decimal(depth as nat)])) == (InfoView {
            depth: Some(depth),
            ..empty_info()
        }),
{
    lemma_info_keywords();
    lemma_decimal_is_word(depth as nat);
    lemma_decimal_reads_back(depth);
    let d = decimal(depth as nat);
    let a = seq![first, "depth"@, d];
    assert forall|k: int| 0 <= k < a.len() implies is_word(#[trigger] a[k]) by {}
    lemma_join_splits_back(a);
    assert(a[1] == "depth"@ && a[2] == d);
    assert(scan_info(a, 1, empty_info()) == scan_info(
        a,
        3,
        InfoView { depth: Some(depth), ..empty_info() },
    ));
}

/// A line that begins with `bestmove` and ends in no whitespace announces
/// the move that the rest of the line names.
proof fn lemma_bestmove_line(rest: Seq<char>)
    requires
        rest.len() > 0 ==> !is_ws(rest.last()),
    ensures
        line_events("bestmove"@ + rest) == seq![
            EventView::RawLine("bestmove"@ + rest),
            bestmove_of(rest),
        ],
{
    reveal_strlit("bestmove");
    reveal_strlit("readyok");
    reveal_strlit("id name ");
    reveal_strlit("id author ");
    reveal_strlit("uciok");
    let line = "bestmove"@ + rest;
    assert(line[0] == 'b');
    if rest.len() > 0 {
        assert(line.last() == rest.last());
    }
    lemma_trim_keeps_trimmed(line);
    assert(line.take(8) == "bestmove"@);
    assert(line.take(8)[0] == 'b');
    assert(line.take(8) != "id name "@);
    assert(line.len() >= 10 ==> line.take(10)[0] == 'b');
    assert(!has_prefix(line, "id author "@));
    assert(line != "readyok"@);
    assert(line != "uciok"@);
    assert(line.skip(8) == rest);
}

/// After the move, a second token other than `ponder` names no move to
/// ponder on, whatever follows it.
pub proof fn lemma_bestmove_without_ponder_word(best: Seq<char>, second: Seq<char>, third: Seq<char>)
    requires
        is_word(best),
        is_word(second),
        is_word(third),
        second != "ponder"@,
    ensures
        line_events("bestmove"@ + (seq![' '] + best + seq![' '] + second + seq![' '] + third))[1]
            == (EventView::BestMove { best, ponder: None }),
{
    let rest = seq![' '] + best + seq![' '] + second + seq![' '] + third;
    let inner = best.push(' ') + (second.push(' ') + third);
    assert(rest == Seq::<char>::empty().push(' ') + inner);
    assert(rest.last() == third.last());
    assert(!is_ws(third[third.len() - 1]));
    lemma_bestmove_line(rest);
    lemma_split_word(third);
    lemma_split_word_then(second, third);
    lemma_split_word_then(best, second.push(' ') + third);
    assert(is_ws(' '));
    lemma_split_at_whitespace(Seq::<char>::empty(), ' ', inner);
    assert(split_ws(Seq::<char>::empty()) == Seq::<Seq<char>>::empty());
    assert(split_ws(rest) == seq![best, second, third]);
}

/// A bare `bestmove` announces the move `(none)`.
pub proof fn lemma_bare_bestmove()
    ensures
        line_events("bestmove"@) == seq![
            EventView::RawLine("bestmove"@),
            EventView::BestMove { best: "(none)"@, ponder: None },
        ],
{
    lemma_bestmove_line(Seq::<char>::empty());
    assert("bestmove"@ + Seq::<char>::empty() == "bestmove"@);
    assert(split_ws(Seq::<char>::empty()) == Seq::<Seq<char>>::empty());
}

/// A line of a single token says nothing: every field is missing and the
/// principal variation is empty.
pub proof fn lemma_info_without_fields(first: Seq<char>)
    requires
        is_word(first),
    ensures
        info_of(join_words(seq![first])) == (InfoView {
            depth: None,
            seldepth: None,
            multipv: None,
            nodes: None,
            nps: None,
            score_cp: None,
            score_mate: None,
            pv: seq![],
        }),
{
    assert forall|k: int| 0 <= k < seq![first].len() implies is_word(#[trigger] seq![first][k]) by {}
    lemma_join_splits_back(seq![first]);
}

/// Every line that begins with `info`, the word alone included, is passed
/// on as an info event read from the whole trimmed line.
pub proof fn lemma_info_lines_give_info(rest: Seq<Seq<char>>)
    requires
        forall|k: int| 0 <= k < rest.len() ==> is_word(#[trigger] rest[k]),
    ensures
        ({
            let line = join_words(seq!["info"@] + rest);
            line_events(line) == seq![EventView::RawLine(line), EventView::Info(info_of(line))]
        }),
{
    lemma_info_keywords();
    reveal_strlit("info");
    reveal_strlit("readyok");
    reveal_strlit("id name ");
    reveal_strlit("id author ");
    reveal_strlit("uciok");
    reveal_strlit("bestmove");
    let toks = seq!["info"@] + rest;
    assert forall|k: int| 0 <= k < toks.len() implies is_word(#[trigger] toks[k]) by {
        if k >= 1 {
            assert(toks[k] == rest[k - 1]);
        }
    }
    let line = join_words(toks);
    lemma_join_first_last(toks);
    assert(line.take(4) == "info"@);
    assert(line.take(4)[0] == line[0]);
    lemma_trim_keeps_trimmed(line);
    assert(line.take(4)[0] == 'i');
    assert(line.len() >= 8 ==> line.take(8)[1] == 'n');
    assert(!has_prefix(line, "id name "@));
    assert(line.len() >= 10 ==> line.take(10)[1] == 'n');
    assert(!has_prefix(line, "id author "@));
    assert(line.len() >= 8 ==> line.take(8)[0] == 'i');
    assert(!has_prefix(line, "bestmove"@));
    assert(line.len() == 7 ==> line[0] != "readyok"@[0]);
    assert(line != "readyok"@);
    assert(line.len() == 5 ==> line[0] != "uciok"@[0]);
    assert(line != "uciok"@);
}

/// Tokens joined by spaces begin with the first token and end with the
/// last character of the last one.
proof fn lemma_join_first_last(words: Seq<Seq<char>>)
    requires
        words.len() > 0,
        forall|k: int| 0 <= k < words.len() ==> is_word(#[trigger] words[k]),
    ensures
        join_words(words).len() >= words[0].len(),
        join_words(words).take(words[0].len() as int) == words[0],
        !is_ws(join_words(words).last()),
        join_words(words).len() > 0,
    decreases words.len(),
{
    assert(is_word(words[0]));
    assert(is_word(words[words.len() - 1]));
    assert(!is_ws(words.last()[words.last().len() - 1]));
    if words.len() > 1 {
        let init = words.drop_last();
        assert forall|k: int| 0 <= k < init.len() implies is_word(#[trigger] init[k]) by {
            assert(init[k] == words[k]);
        }
        lemma_join_first_last(init);
        let j = join_words(init) + seq![' '] + words.last();
        assert(j.take(words[0].len() as int) == join_words(init).take(words[0].len() as int));
        assert(j.last() == words.last().last());
    }
}

} // verus!
