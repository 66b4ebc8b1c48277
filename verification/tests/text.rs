use emblium::text::{
    chars_of, is_whitespace, parse_i32_at, parse_u32_at, parse_u64_at, range_is,
    range_starts_with, token_bounds, trim_bounds,
};

fn tokens(s: &str) -> Vec<String> {
    let chars = chars_of(s);
    token_bounds(&chars, 0, chars.len())
        .iter()
        .map(|&(a, b)| chars[a..b].iter().collect())
        .collect()
}

fn trimmed(s: &str) -> String {
    let chars = chars_of(s);
    let (a, b) = trim_bounds(&chars);
    chars[a..b].iter().collect()
}

#[test]
fn whitespace_is_unicode_whitespace() {
    for c in ['\t', '\n', '\u{b}', '\u{c}', '\r', ' ', '\u{85}', '\u{a0}', '\u{1680}', '\u{2000}',
              '\u{200a}', '\u{2028}', '\u{2029}', '\u{202f}', '\u{205f}', '\u{3000}'] {
        assert!(is_whitespace(c));
        assert!(c.is_whitespace());
    }
    for c in ['a', '0', '\u{0}', '\u{200b}', '\u{feff}', '\u{1f}', '\u{2030}'] {
        assert_eq!(is_whitespace(c), c.is_whitespace());
    }
}

#[test]
fn chars_in_order() {
    assert_eq!(chars_of("aé€😀"), vec!['a', 'é', '€', '😀']);
    assert!(chars_of("").is_empty());
}

#[test]
fn trimming_matches_str_trim() {
    for s in ["", "   ", "abc", "  a b  ", "\u{3000}x\u{2028}", "\ta\n"] {
        assert_eq!(trimmed(s), s.trim());
        // Trimming twice is trimming once.
        assert_eq!(trimmed(&trimmed(s)), trimmed(s));
    }
}

#[test]
fn splitting_matches_split_whitespace() {
    for s in ["", "   ", "a", " a  bc\td ", "x\u{a0}y", "info depth 3 pv e2e4"] {
        let expected: Vec<String> = s.split_whitespace().map(|t| t.to_string()).collect();
        let got = tokens(s);
        assert_eq!(got, expected);
        // Each token is non-empty and free of whitespace.
        for t in &got {
            assert!(!t.is_empty());
            assert!(!t.chars().any(|c| c.is_whitespace()));
        }
    }
}

#[test]
fn words_and_prefixes() {
    let chars = chars_of("bestmove e2e4");
    assert!(range_is(&chars, 0, 8, "bestmove"));
    assert!(!range_is(&chars, 0, 9, "bestmove"));
    assert!(range_starts_with(&chars, 0, 13, "bestmove"));
    assert!(range_starts_with(&chars, 0, 8, "bestmove"));
    assert!(!range_starts_with(&chars, 0, 7, "bestmove"));
    assert!(range_starts_with(&chars, 9, 13, ""));
}

#[test]
fn numbers_read_as_str_parse() {
    for s in ["0", "42", "+42", "-42", "", "+", "-", "4294967295", "4294967296",
              "18446744073709551615", "18446744073709551616", "2147483647", "2147483648",
              "-2147483648", "-2147483649", "1_000", "٣", "00012", "+-1", "-+1"] {
        let chars = chars_of(s);
        let n = chars.len();
        assert_eq!(parse_u32_at(&chars, 0, n), s.parse::<u32>().ok(), "u32 {s}");
        assert_eq!(parse_u64_at(&chars, 0, n), s.parse::<u64>().ok(), "u64 {s}");
        assert_eq!(parse_i32_at(&chars, 0, n), s.parse::<i32>().ok(), "i32 {s}");
    }
}
