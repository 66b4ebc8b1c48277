//! The commands that the GUI sends to a UCI engine, as text.

use vstd::prelude::*;
use vstd::string::StrSliceExecFns;
use vstd::string::StringExecFns;
use crate::events::texts;
use crate::text::{
    digit_value, digits_value, is_digit, is_numeral, is_word, is_ws, lemma_split_at_whitespace,
    parse_i32, parse_u64,
    lemma_split_word, lemma_split_word_then, parse_u32, split_ws,
};

verus! {

broadcast use vstd::string::group_string_axioms;

/// Asks the engine to identify itself and switch to UCI.
pub const UCI: &'static str = "uci";

/// Asks the engine to answer `readyok` once it is ready.
pub const IS_READY: &'static str = "isready";

/// Tells the engine that the next search is from a new game.
pub const UCI_NEW_GAME: &'static str = "ucinewgame";

/// Searches until told to stop.
pub const GO_INFINITE: &'static str = "go infinite";

/// Stops the search; the engine answers with its best move.
pub const STOP: &'static str = "stop";

/// Ends the engine.
pub const QUIT: &'static str = "quit";

/// The character of the decimal digit `d`.
pub open spec fn digit_char(d: int) -> char {
    (d + 48) as char
}

/// `n` written in decimal, without sign or leading zeros, as `{}` prints it.
pub open spec fn decimal(n: nat) -> Seq<char>
    decreases n,
{
    if n < 10 {
        seq![digit_char(n as int)]
    } else {
        decimal(n / 10).push(digit_char((n % 10) as int))
    }
}

/// Appends `n` in decimal to `out`.
pub(crate) fn push_decimal(out: &mut String, n: u64)
    ensures
        final(out)@ == old(out)@ + decimal(n as nat),
    decreases n,
{
    if n >= 10 {
        push_decimal(out, n / 10);
    }
    let d = (n % 10) as usize;
    let digits = "0123456789";
    proof {
        reveal_strlit("0123456789");
        assert(digits@.subrange(d as int, d + 1) == seq![digit_char(d as int)]) by {
            assert(digits@.subrange(d as int, d + 1)[0] == digits@[d as int]);
        }
    }
    out.append(digits.substring_char(d, d + 1));
    proof {
        if n >= 10 {
            assert(decimal(n as nat) == decimal((n / 10) as nat).push(digit_char(d as int)));
        } else {
            assert(decimal(n as nat) == seq![digit_char(d as int)]);
        }
    }
}

/// `n` in decimal, as a string.
pub fn decimal_string(n: u32) -> (r: String)
    ensures
        r@ == decimal(n as nat),
{
    let mut r = String::new();
    push_decimal(&mut r, n as u64);
    r
}

/// The words joined by single spaces, as `[String]::join(" ")` does.
pub open spec fn join_words(words: Seq<Seq<char>>) -> Seq<char>
    decreases words.len(),
{
    if words.len() == 0 {
        seq![]
    } else if words.len() == 1 {
        words[0]
    } else {
        join_words(words.drop_last()) + seq![' '] + words.last()
    }
}

/// Appends the words, joined by single spaces, to `out`.
fn push_joined(out: &mut String, words: &[String])
    ensures
        final(out)@ == old(out)@ + join_words(texts(words@)),
{
    let n = words.len();
    let ghost start = out@;
    let mut k: usize = 0;
    while k < n
        invariant
            k <= n == words@.len(),
            out@ == start + join_words(texts(words@.take(k as int))),
        decreases n - k,
    {
        let ghost ws = texts(words@.take(k + 1));
        assert(ws.drop_last() == texts(words@.take(k as int)));
        assert(ws.last() == words@[k as int]@);
        if k > 0 {
            out.append(" ");
            proof {
                reveal_strlit(" ");
            }
        }
        out.append(words[k].as_str());
        k = k + 1;
    }
    assert(words@.take(n as int) == words@);
}

/// `setoption name <name> value <value>`
pub open spec fn set_option_text(name: Seq<char>, value: Seq<char>) -> Seq<char> {
    "setoption name "@ + name + " value "@ + value
}

/// Sets an engine option.
pub fn set_option_command(name: &str, value: &str) -> (r: String)
    ensures
        r@ == set_option_text(name@, value@),
{
    let mut r = String::from_str("setoption name ");
    r.append(name);
    r.append(" value ");
    r.append(value);
    r
}

/// `position startpos`, followed by ` moves ` and the moves where there
/// are any.
pub open spec fn position_text(moves: Seq<Seq<char>>) -> Seq<char> {
    if moves.len() == 0 {
        "position startpos"@
    } else {
        "position startpos moves "@ + join_words(moves)
    }
}

/// Sets up the start position and plays the moves on it.
pub fn position_command(moves: &[String]) -> (r: String)
    ensures
        r@ == position_text(texts(moves@)),
{
    if moves.len() == 0 {
        String::from_str("position startpos")
    } else {
        let mut r = String::from_str("position startpos moves ");
        push_joined(&mut r, moves);
        r
    }
}

/// `position fen <fen>`, followed by ` moves ` and the moves where there
/// are any.
pub open spec fn position_fen_text(fen: Seq<char>, moves: Seq<Seq<char>>) -> Seq<char> {
    if moves.len() == 0 {
        "position fen "@ + fen
    } else {
        "position fen "@ + fen + " moves "@ + join_words(moves)
    }
}

/// Sets up the position that `fen` describes and plays the moves on it.
pub fn position_fen_command(fen: &str, moves: &[String]) -> (r: String)
    ensures
        r@ == position_fen_text(fen@, texts(moves@)),
{
    let mut r = String::from_str("position fen ");
    r.append(fen);
    if moves.len() > 0 {
        r.append(" moves ");
        push_joined(&mut r, moves);
    }
    r
}

/// A command word followed by a space and a number.
fn word_and_number(word: &str, n: u32) -> (r: String)
    ensures
        r@ == word@ + decimal(n as nat),
{
    let mut r = String::from_str(word);
    push_decimal(&mut r, n as u64);
    r
}

/// `go movetime <ms>`
pub open spec fn go_movetime_text(ms: u32) -> Seq<char> {
    "go movetime "@ + decimal(ms as nat)
}

/// Searches for `ms` milliseconds.
pub fn go_movetime_command(ms: u32) -> (r: String)
    ensures
        r@ == go_movetime_text(ms),
{
    word_and_number("go movetime ", ms)
}

/// `go depth <depth>`
pub open spec fn go_depth_text(depth: u32) -> Seq<char> {
    "go depth "@ + decimal(depth as nat)
}

/// Searches to the given depth.
pub fn go_depth_command(depth: u32) -> (r: String)
    ensures
        r@ == go_depth_text(depth),
{
    word_and_number("go depth ", depth)
}

/// `go wtime <wtime> btime <btime> winc <winc> binc <binc>`
pub open spec fn go_time_text(wtime: u32, btime: u32, winc: u32, binc: u32) -> Seq<char> {
    "go wtime "@ + decimal(wtime as nat) + " btime "@ + decimal(btime as nat) + " winc "@
        + decimal(winc as nat) + " binc "@ + decimal(binc as nat)
}

/// Searches on the clock: the time left and the increment of each side.
pub fn go_time_command(wtime: u32, btime: u32, winc: u32, binc: u32) -> (r: String)
    ensures
        r@ == go_time_text(wtime, btime, winc, binc),
{
    let mut r = String::from_str("go wtime ");
    push_decimal(&mut r, wtime as u64);
    r.append(" btime ");
    push_decimal(&mut r, btime as u64);
    r.append(" winc ");
    push_decimal(&mut r, winc as u64);
    r.append(" binc ");
    push_decimal(&mut r, binc as u64);
    r
}


pub proof fn lemma_decimal_is_numeral(n: nat)
    ensures
        is_numeral(decimal(n)),
        digits_value(decimal(n)) == n,
    decreases n,
{
    let d = (n % 10) as int;
    assert(digit_char(d) as int == d + 48);
    assert(is_digit(digit_char(d)));
    assert('0' as int == 48);
    assert(decimal(n).last() == digit_char(d));
    assert((n / 10) * 10 + n % 10 == n);
    assert(digit_value(digit_char(d)) == d);
    let s = decimal(n);
    assert(digits_value(s) == digits_value(s.drop_last()) * 10 + digit_value(s.last()));
    if n >= 10 {
        lemma_decimal_is_numeral(n / 10);
        assert(s.drop_last() == decimal(n / 10));
        assert forall|k: int| 0 <= k < s.len() implies is_digit(#[trigger] s[k]) by {
            if k < s.len() - 1 {
                assert(s[k] == decimal(n / 10)[k]);
            }
        }
    } else {
        assert(decimal(n).drop_last() == Seq::<char>::empty());
    }
}

/// A number in decimal is a token.
pub proof fn lemma_decimal_is_word(n: nat)
    ensures
        is_word(decimal(n)),
{
    lemma_decimal_is_numeral(n);
    let d = decimal(n);
    assert forall|j: int| 0 <= j < d.len() implies !is_ws(#[trigger] d[j]) by {
        assert(is_digit(d[j]));
    }
}

/// Every number written into a command reads back as itself:
/// `str::parse::<u32>` of its decimal form gives the number again.
pub proof fn lemma_decimal_reads_back(n: u32)
    ensures
        parse_u32(decimal(n as nat)) == Some(n),
{
    lemma_decimal_is_numeral(n as nat);
    assert(is_digit(decimal(n as nat)[0]));
}


/// Words joined by single spaces split back into the same words.
pub proof fn lemma_join_splits_back(words: Seq<Seq<char>>)
    requires
        forall|k: int| 0 <= k < words.len() ==> is_word(#[trigger] words[k]),
    ensures
        split_ws(join_words(words)) == words,
    decreases words.len(),
{
    if words.len() == 1 {
        lemma_split_word(words[0]);
        assert(words == seq![words[0]]);
    } else if words.len() > 1 {
        let init = words.drop_last();
        assert forall|k: int| 0 <= k < init.len() implies is_word(#[trigger] init[k]) by {
            assert(init[k] == words[k]);
        }
        lemma_join_splits_back(init);
        assert(is_word(words[words.len() - 1]));
        lemma_split_word(words.last());
        assert(is_ws(' '));
        lemma_split_at_whitespace(join_words(init), ' ', words.last());
        assert(join_words(init) + seq![' '] + words.last() == join_words(init).push(' ')
            + words.last());
        assert(init + seq![words.last()] == words);
    } else {
        assert(split_ws(Seq::<char>::empty()) == Seq::<Seq<char>>::empty());
    }
}

proof fn lemma_keywords_are_words()
    ensures
        is_word("position"@),
        is_word("startpos"@),
        is_word("moves"@),
        is_word("fen"@),
        is_word("go"@),
        is_word("movetime"@),
        is_word("depth"@),
        is_word("wtime"@),
        is_word("btime"@),
        is_word("winc"@),
        is_word("binc"@),
        is_word("setoption"@),
        is_word("name"@),
        is_word("value"@),
{
    reveal_strlit("setoption");
    reveal_strlit("name");
    reveal_strlit("value");
    reveal_strlit("depth");
    reveal_strlit("wtime");
    reveal_strlit("btime");
    reveal_strlit("winc");
    reveal_strlit("binc");
    reveal_strlit("position");
    reveal_strlit("startpos");
    reveal_strlit("moves");
    reveal_strlit("fen");
    reveal_strlit("go");
    reveal_strlit("movetime");
}

/// What an engine reads of a position command is exactly the moves it
/// carries: its tokens are `position` and `startpos`, then, where there
/// are moves, `moves` and the moves, each a token of its own.
pub proof fn lemma_position_reads_back(moves: Seq<Seq<char>>)
    requires
        forall|k: int| 0 <= k < moves.len() ==> is_word(#[trigger] moves[k]),
    ensures
        split_ws(position_text(moves)) == (if moves.len() == 0 {
            seq!["position"@, "startpos"@]
        } else {
            seq!["position"@, "startpos"@, "moves"@] + moves
        }),
{
    lemma_keywords_are_words();
    reveal_strlit("position startpos");
    reveal_strlit("position startpos moves ");
    reveal_strlit("position");
    reveal_strlit("startpos");
    reveal_strlit("moves");
    if moves.len() == 0 {
        assert("position startpos"@ == "position"@.push(' ') + "startpos"@);
        lemma_split_word_then("position"@, "startpos"@);
        lemma_split_word("startpos"@);
    } else {
        let j = join_words(moves);
        lemma_join_splits_back(moves);
        assert("position startpos moves "@ + j == "position"@.push(' ') + ("startpos"@.push(' ')
            + ("moves"@.push(' ') + j)));
        lemma_split_word_then("moves"@, j);
        lemma_split_word_then("startpos"@, "moves"@.push(' ') + j);
        lemma_split_word_then("position"@, "startpos"@.push(' ') + ("moves"@.push(' ') + j));
        assert(seq!["position"@] + (seq!["startpos"@] + (seq!["moves"@] + moves)) == seq![
            "position"@,
            "startpos"@,
            "moves"@,
        ] + moves);
    }
}

/// What an engine reads of a position command with a FEN: `position`,
/// `fen`, the fields of the FEN, then, where there are moves, `moves` and
/// the moves.
pub proof fn lemma_position_fen_reads_back(fen: Seq<char>, moves: Seq<Seq<char>>)
    requires
        forall|k: int| 0 <= k < moves.len() ==> is_word(#[trigger] moves[k]),
    ensures
        split_ws(position_fen_text(fen, moves)) == (if moves.len() == 0 {
            seq!["position"@, "fen"@] + split_ws(fen)
        } else {
            seq!["position"@, "fen"@] + split_ws(fen) + seq!["moves"@] + moves
        }),
{
    lemma_keywords_are_words();
    reveal_strlit("position fen ");
    reveal_strlit(" moves ");
    reveal_strlit("position");
    reveal_strlit("fen");
    reveal_strlit("moves");
    if moves.len() == 0 {
        assert("position fen "@ + fen == "position"@.push(' ') + ("fen"@.push(' ') + fen));
        lemma_split_word_then("fen"@, fen);
        lemma_split_word_then("position"@, "fen"@.push(' ') + fen);
        assert(seq!["position"@] + (seq!["fen"@] + split_ws(fen)) == seq!["position"@, "fen"@]
            + split_ws(fen));
    } else {
        let j = join_words(moves);
        lemma_join_splits_back(moves);
        let tail = "moves"@.push(' ') + j;
        assert("position fen "@ + fen + " moves "@ + j == "position"@.push(' ') + ("fen"@.push(
            ' ',
        ) + (fen.push(' ') + tail)));
        lemma_split_word_then("moves"@, j);
        assert(is_ws(' '));
        lemma_split_at_whitespace(fen, ' ', tail);
        lemma_split_word_then("fen"@, fen.push(' ') + tail);
        lemma_split_word_then("position"@, "fen"@.push(' ') + (fen.push(' ') + tail));
        assert(seq!["position"@] + (seq!["fen"@] + (split_ws(fen) + (seq!["moves"@] + moves)))
            == seq!["position"@, "fen"@] + split_ws(fen) + seq!["moves"@] + moves);
    }
}

/// The number in a `go movetime` command reads back as the time given.
pub proof fn lemma_go_movetime_reads_back(ms: u32)
    ensures
        split_ws(go_movetime_text(ms)) == seq!["go"@, "movetime"@, decimal(ms as nat)],
        parse_u32(split_ws(go_movetime_text(ms))[2]) == Some(ms),
{
    lemma_keywords_are_words();
    reveal_strlit("go movetime ");
    reveal_strlit("go");
    reveal_strlit("movetime");
    let d = decimal(ms as nat);
    lemma_decimal_is_word(ms as nat);
    assert("go movetime "@ + d == "go"@.push(' ') + ("movetime"@.push(' ') + d));
    lemma_split_word_then("movetime"@, d);
    lemma_split_word_then("go"@, "movetime"@.push(' ') + d);
    lemma_split_word(d);
    assert(seq!["go"@] + (seq!["movetime"@] + seq![d]) == seq!["go"@, "movetime"@, d]);
    lemma_decimal_reads_back(ms);
}

/// `v` in decimal, with a leading `-` where it is negative.
pub open spec fn signed_decimal(v: int) -> Seq<char> {
    if v < 0 {
        seq!['-'] + decimal((-v) as nat)
    } else {
        decimal(v as nat)
    }
}

/// Every `u64` written in decimal reads back as itself through
/// `str::parse::<u64>`.
pub proof fn lemma_decimal_reads_back_u64(n: u64)
    ensures
        parse_u64(decimal(n as nat)) == Some(n),
{
    lemma_decimal_is_numeral(n as nat);
    assert(is_digit(decimal(n as nat)[0]));
}

/// Every `i32` written in decimal, with `-` where it is negative, reads
/// back as itself through `str::parse::<i32>`.
pub proof fn lemma_signed_decimal_reads_back(v: i32)
    ensures
        parse_i32(signed_decimal(v as int)) == Some(v),
{
    if v < 0 {
        let d = decimal((-v) as nat);
        lemma_decimal_is_numeral((-v) as nat);
        let s = signed_decimal(v as int);
        assert(s[0] == '-');
        assert(s.drop_first() == d);
    } else {
        lemma_decimal_is_numeral(v as nat);
        assert(is_digit(decimal(v as nat)[0]));
    }
}

/// A signed number in decimal is a token.
pub proof fn lemma_signed_decimal_is_word(v: int)
    ensures
        is_word(signed_decimal(v)),
{
    if v < 0 {
        lemma_decimal_is_word((-v) as nat);
        let s = signed_decimal(v);
        let d = decimal((-v) as nat);
        assert forall|j: int| 0 <= j < s.len() implies !is_ws(#[trigger] s[j]) by {
            if j > 0 {
                assert(s[j] == d[j - 1]);
            } else {
                assert(s[0] == '-');
            }
        }
    } else {
        lemma_decimal_is_word(v as nat);
    }
}

/// A number too large for a `u32` is refused by `str::parse::<u32>`.
pub proof fn lemma_decimal_too_large_is_refused(n: nat)
    requires
        n > u32::MAX,
    ensures
        crate::text::parse_u32(decimal(n)) is None,
{
    lemma_decimal_is_numeral(n);
    assert(is_digit(decimal(n)[0]));
}

/// Every number of a `go wtime … btime … winc … binc …` command reads back
/// in its own place: the tokens are the keywords, each followed by the
/// number that was given for it.
pub proof fn lemma_go_time_reads_back(wtime: u32, btime: u32, winc: u32, binc: u32)
    ensures
        split_ws(go_time_text(wtime, btime, winc, binc)) == seq![
            "go"@,
            "wtime"@,
            decimal(wtime as nat),
            "btime"@,
            decimal(btime as nat),
            "winc"@,
            decimal(winc as nat),
            "binc"@,
            decimal(binc as nat),
        ],
{
    lemma_keywords_are_words();
    reveal_strlit("go wtime ");
    reveal_strlit(" btime ");
    reveal_strlit(" winc ");
    reveal_strlit(" binc ");
    reveal_strlit("go");
    reveal_strlit("wtime");
    reveal_strlit("btime");
    reveal_strlit("winc");
    reveal_strlit("binc");
    let dw = decimal(wtime as nat);
    let db = decimal(btime as nat);
    let dwi = decimal(winc as nat);
    let dbi = decimal(binc as nat);
    lemma_decimal_is_word(wtime as nat);
    lemma_decimal_is_word(btime as nat);
    lemma_decimal_is_word(winc as nat);
    lemma_decimal_is_word(binc as nat);
    let t7 = "binc"@.push(' ') + dbi;
    let t6 = dwi.push(' ') + t7;
    let t5 = "winc"@.push(' ') + t6;
    let t4 = db.push(' ') + t5;
    let t3 = "btime"@.push(' ') + t4;
    let t2 = dw.push(' ') + t3;
    let t1 = "wtime"@.push(' ') + t2;
    let t0 = "go"@.push(' ') + t1;
    assert(go_time_text(wtime, btime, winc, binc) == t0);
    lemma_split_word(dbi);
    lemma_split_word_then("binc"@, dbi);
    lemma_split_word_then(dwi, t7);
    lemma_split_word_then("winc"@, t6);
    lemma_split_word_then(db, t5);
    lemma_split_word_then("btime"@, t4);
    lemma_split_word_then(dw, t3);
    lemma_split_word_then("wtime"@, t2);
    lemma_split_word_then("go"@, t1);
    assert(split_ws(t0) == seq!["go"@, "wtime"@, dw, "btime"@, db, "winc"@, dwi, "binc"@, dbi]);
}

/// The number in a `go depth` command reads back as the depth given.
pub proof fn lemma_go_depth_reads_back(depth: u32)
    ensures
        split_ws(go_depth_text(depth)) == seq!["go"@, "depth"@, decimal(depth as nat)],
        parse_u32(decimal(depth as nat)) == Some(depth),
{
    lemma_keywords_are_words();
    reveal_strlit("go depth ");
    reveal_strlit("go");
    reveal_strlit("depth");
    let d = decimal(depth as nat);
    lemma_decimal_is_word(depth as nat);
    assert("go depth "@ + d == "go"@.push(' ') + ("depth"@.push(' ') + d));
    lemma_split_word(d);
    lemma_split_word_then("depth"@, d);
    lemma_split_word_then("go"@, "depth"@.push(' ') + d);
    assert(seq!["go"@] + (seq!["depth"@] + seq![d]) == seq!["go"@, "depth"@, d]);
    lemma_decimal_reads_back(depth);
}

/// The name and the value of an option read back in their places, where
/// each is a single token.
pub proof fn lemma_set_option_reads_back(name: Seq<char>, value: Seq<char>)
    requires
        is_word(name),
        is_word(value),
    ensures
        split_ws(set_option_text(name, value)) == seq![
            "setoption"@,
            "name"@,
            name,
            "value"@,
            value,
        ],
{
    lemma_keywords_are_words();
    reveal_strlit("setoption name ");
    reveal_strlit(" value ");
    reveal_strlit("setoption");
    reveal_strlit("name");
    reveal_strlit("value");
    let t3 = "value"@.push(' ') + value;
    let t2 = name.push(' ') + t3;
    let t1 = "name"@.push(' ') + t2;
    let t0 = "setoption"@.push(' ') + t1;
    assert(set_option_text(name, value) == t0);
    lemma_split_word(value);
    lemma_split_word_then("value"@, value);
    lemma_split_word_then(name, t3);
    lemma_split_word_then("name"@, t2);
    lemma_split_word_then("setoption"@, t1);
    assert(split_ws(t0) == seq!["setoption"@, "name"@, name, "value"@, value]);
}

/// A leading `+` is accepted and a leading `-` refused when an unsigned
/// number is read; a signed number is refused outside the `i32` range.
pub proof fn lemma_signs_when_reading(n: u32, v: int)
    ensures
        parse_u32(seq!['+'] + decimal(n as nat)) == Some(n),
        parse_u32(seq!['-'] + decimal(n as nat)) is None,
        parse_u64(seq!['-'] + decimal(n as nat)) is None,
        v < i32::MIN || v > i32::MAX ==> parse_i32(signed_decimal(v)) is None,
{
    lemma_decimal_is_numeral(n as nat);
    let d = decimal(n as nat);
    assert((seq!['+'] + d).drop_first() == d);
    assert(!is_digit('-'));
    assert((seq!['-'] + d)[0] == '-');
    if v < 0 {
        lemma_decimal_is_numeral((-v) as nat);
        assert(signed_decimal(v).drop_first() == decimal((-v) as nat));
    } else {
        lemma_decimal_is_numeral(v as nat);
        assert(is_digit(decimal(v as nat)[0]));
    }
}

} // verus!
