//! Character-level text handling: whitespace, trimming, splitting into
//! tokens, decimal numbers.

use vstd::prelude::*;

verus! {

broadcast use vstd::string::group_string_axioms;

/// The Unicode `White_Space` property, as `char::is_whitespace` uses it.
pub open spec fn is_ws(c: char) -> bool {
    let u = c as u32;
    ||| (9 <= u && u <= 13)
    ||| u == 32
    ||| u == 0x85
    ||| u == 0xA0
    ||| u == 0x1680
    ||| (0x2000 <= u && u <= 0x200A)
    ||| u == 0x2028
    ||| u == 0x2029
    ||| u == 0x202F
    ||| u == 0x205F
    ||| u == 0x3000
}

/// Whether `c` is a whitespace character.
pub fn is_whitespace(c: char) -> (b: bool)
    ensures
        b == is_ws(c),
{
    let u = c as u32;
    (9 <= u && u <= 13) || u == 32 || u == 0x85 || u == 0xA0 || u == 0x1680 || (0x2000 <= u
        && u <= 0x200A) || u == 0x2028 || u == 0x2029 || u == 0x202F || u == 0x205F || u
        == 0x3000
}

/// The characters of `s`, in order.
pub fn chars_of(s: &str) -> (v: Vec<char>)
    ensures
        v@ == s@,
{
    let mut v: Vec<char> = Vec::new();
    for c in it: s.chars()
        invariant
            v@ == it.seq().take(it.index() as int),
    {
        v.push(c);
    }
    v
}


/// `s` with its leading and trailing whitespace removed, as `str::trim` does.
pub open spec fn trim(s: Seq<char>) -> Seq<char>
    decreases s.len(),
{
    if s.len() > 0 && is_ws(s[0]) {
        trim(s.drop_first())
    } else if s.len() > 0 && is_ws(s.last()) {
        trim(s.drop_last())
    } else {
        s
    }
}

/// The bounds `(a, b)` such that `chars[a..b]` is `chars` trimmed.
pub fn trim_bounds(chars: &Vec<char>) -> (r: (usize, usize))
    ensures
        r.0 <= r.1 <= chars@.len(),
        chars@.subrange(r.0 as int, r.1 as int) == trim(chars@),
{
    let n = chars.len();
    let mut a: usize = 0;
    assert(chars@.subrange(0, n as int) == chars@);
    while a < n && is_whitespace(chars[a])
        invariant
            a <= n == chars@.len(),
            trim(chars@.subrange(a as int, n as int)) == trim(chars@),
        decreases n - a,
    {
        assert(chars@.subrange(a as int, n as int).drop_first() == chars@.subrange(
            a + 1,
            n as int,
        ));
        a = a + 1;
    }
    let mut b: usize = n;
    while b > a && is_whitespace(chars[b - 1])
        invariant
            a <= b <= n == chars@.len(),
            a < n ==> !is_ws(chars@[a as int]),
            trim(chars@.subrange(a as int, b as int)) == trim(chars@),
        decreases b - a,
    {
        let ghost t = chars@.subrange(a as int, b as int);
        assert(t.drop_last() == chars@.subrange(a as int, b - 1));
        assert(t[0] == chars@[a as int]);
        b = b - 1;
    }
    proof {
        let t = chars@.subrange(a as int, b as int);
        if t.len() > 0 {
            assert(t[0] == chars@[a as int]);
            assert(t.last() == chars@[b - 1]);
        }
    }
    (a, b)
}


/// The maximal runs of non-whitespace characters of `s`, in order, as
/// `str::split_whitespace` yields them.
pub open spec fn split_ws(s: Seq<char>) -> Seq<Seq<char>>
    decreases s.len(),
{
    if s.len() == 0 {
        seq![]
    } else {
        let before = split_ws(s.drop_last());
        let c = s.last();
        if is_ws(c) {
            before
        } else if s.len() == 1 || is_ws(s[s.len() - 2]) {
            before.push(seq![c])
        } else {
            before.update(before.len() - 1, before.last().push(c))
        }
    }
}

/// The pieces of `s` that a sequence of bounds picks out.
pub open spec fn pieces(s: Seq<char>, bounds: Seq<(usize, usize)>) -> Seq<Seq<char>> {
    bounds.map_values(|p: (usize, usize)| s.subrange(p.0 as int, p.1 as int))
}

/// Bounds that all lie within `lo..hi`, each non-empty.
pub open spec fn bounds_within(bounds: Seq<(usize, usize)>, lo: int, hi: int) -> bool {
    forall|k: int|
        0 <= k < bounds.len() ==> lo <= #[trigger] bounds[k].0 < bounds[k].1 <= hi
}

/// The bounds of the whitespace-separated tokens of `chars[lo..hi]`.
pub fn token_bounds(chars: &Vec<char>, lo: usize, hi: usize) -> (r: Vec<(usize, usize)>)
    requires
        lo <= hi <= chars@.len(),
    ensures
        bounds_within(r@, lo as int, hi as int),
        pieces(chars@, r@) == split_ws(chars@.subrange(lo as int, hi as int)),
{
    let mut r: Vec<(usize, usize)> = Vec::new();
    let mut i: usize = lo;
    while i < hi
        invariant
            lo <= i <= hi <= chars@.len(),
            bounds_within(r@, lo as int, i as int),
            pieces(chars@, r@) == split_ws(chars@.subrange(lo as int, i as int)),
            i > lo && !is_ws(chars@[i - 1]) ==> r@.len() > 0 && r@.last().1 == i,
        decreases hi - i,
    {
        let ghost sub = chars@.subrange(lo as int, i + 1);
        assert(sub.drop_last() == chars@.subrange(lo as int, i as int));
        assert(sub.last() == chars@[i as int]);
        let c = chars[i];
        if is_whitespace(c) {
        } else if i == lo || is_whitespace(chars[i - 1]) {
            if i > lo {
                assert(sub[sub.len() - 2] == chars@[i - 1]);
            }
            r.push((i, i + 1));
            assert(chars@.subrange(i as int, i + 1) == seq![c]);
            assert(pieces(chars@, r@) == split_ws(sub));
        } else {
            assert(sub[sub.len() - 2] == chars@[i - 1]);
            let last = r.len() - 1;
            let start = r[last].0;
            r.set(last, (start, i + 1));
            assert(chars@.subrange(start as int, i + 1) == chars@.subrange(
                start as int,
                i as int,
            ).push(c));
            assert(pieces(chars@, r@) == split_ws(sub));
        }
        i = i + 1;
    }
    r
}


/// Whether `chars[a..b]` spells exactly `word`.
pub fn range_is(chars: &Vec<char>, a: usize, b: usize, word: &str) -> (r: bool)
    requires
        a <= b <= chars@.len(),
    ensures
        r == (chars@.subrange(a as int, b as int) == word@),
{
    let n = word.unicode_len();
    if b - a != n {
        return false;
    }
    let mut k: usize = 0;
    while k < n
        invariant
            k <= n == b - a == word@.len(),
            b <= chars@.len(),
            forall|j: int| 0 <= j < k ==> chars@[a + j] == word@[j],
        decreases n - k,
    {
        if chars[a + k] != word.get_char(k) {
            assert(chars@.subrange(a as int, b as int)[k as int] != word@[k as int]);
            return false;
        }
        k = k + 1;
    }
    assert(chars@.subrange(a as int, b as int) == word@);
    true
}

/// Whether `s` begins with `p`.
pub open spec fn has_prefix(s: Seq<char>, p: Seq<char>) -> bool {
    p.len() <= s.len() && s.take(p.len() as int) == p
}

/// Whether `chars[a..b]` begins with `word`.
pub fn range_starts_with(chars: &Vec<char>, a: usize, b: usize, word: &str) -> (r: bool)
    requires
        a <= b <= chars@.len(),
    ensures
        r == has_prefix(chars@.subrange(a as int, b as int), word@),
{
    let n = word.unicode_len();
    if b - a < n {
        return false;
    }
    let r = range_is(chars, a, a + n, word);
    assert(chars@.subrange(a as int, b as int).take(n as int) == chars@.subrange(
        a as int,
        a + n,
    ));
    r
}

/// Whether `c` is an ASCII decimal digit.
pub open spec fn is_digit(c: char) -> bool {
    '0' <= c && c <= '9'
}

/// The value of a digit character.
pub open spec fn digit_value(c: char) -> int {
    c as int - '0' as int
}

/// The number that a string of decimal digits denotes.
pub open spec fn digits_value(s: Seq<char>) -> int
    decreases s.len(),
{
    if s.len() == 0 {
        0
    } else {
        digits_value(s.drop_last()) * 10 + digit_value(s.last())
    }
}

/// Whether `s` is one or more decimal digits.
pub open spec fn is_numeral(s: Seq<char>) -> bool {
    s.len() > 0 && forall|k: int| 0 <= k < s.len() ==> is_digit(#[trigger] s[k])
}

/// What `str::parse` gives for an unsigned integer type whose largest
/// value is `max`: an optional `+` and then one or more decimal digits,
/// whose value is at most `max`.
pub open spec fn parse_unsigned(s: Seq<char>, max: int) -> Option<int> {
    let d = if s.len() > 0 && s[0] == '+' {
        s.drop_first()
    } else {
        s
    };
    if is_numeral(d) && digits_value(d) <= max {
        Some(digits_value(d))
    } else {
        None
    }
}

/// What `str::parse` gives for a signed integer type with range
/// `-max - 1 ..= max`: an optional `+` or `-`, then one or more decimal
/// digits, whose signed value lies in that range.
pub open spec fn parse_signed(s: Seq<char>, max: int) -> Option<int> {
    if s.len() > 0 && s[0] == '-' {
        let d = s.drop_first();
        if is_numeral(d) && digits_value(d) <= max + 1 {
            Some(-digits_value(d))
        } else {
            None
        }
    } else {
        parse_unsigned(s, max)
    }
}

/// `str::parse::<u32>` on `s`.
pub open spec fn parse_u32(s: Seq<char>) -> Option<u32> {
    match parse_unsigned(s, u32::MAX as int) {
        Some(v) => Some(v as u32),
        None => None,
    }
}

/// `str::parse::<u64>` on `s`.
pub open spec fn parse_u64(s: Seq<char>) -> Option<u64> {
    match parse_unsigned(s, u64::MAX as int) {
        Some(v) => Some(v as u64),
        None => None,
    }
}

/// `str::parse::<i32>` on `s`.
pub open spec fn parse_i32(s: Seq<char>) -> Option<i32> {
    match parse_signed(s, i32::MAX as int) {
        Some(v) => Some(v as i32),
        None => None,
    }
}

proof fn lemma_digits_value_nonneg(s: Seq<char>)
    requires
        forall|k: int| 0 <= k < s.len() ==> is_digit(#[trigger] s[k]),
    ensures
        digits_value(s) >= 0,
    decreases s.len(),
{
    if s.len() > 0 {
        assert(is_digit(s[s.len() - 1]));
        lemma_digits_value_nonneg(s.drop_last());
    }
}

/// The value of the decimal numeral `chars[a..b]` if it is at most `max`;
/// `None` if it is not a numeral or exceeds `max`.
fn numeral_at_most(chars: &Vec<char>, a: usize, b: usize, max: u64) -> (r: Option<u64>)
    requires
        a <= b <= chars@.len(),
    ensures
        ({
            let d = chars@.subrange(a as int, b as int);
            match r {
                Some(v) => is_numeral(d) && digits_value(d) <= max && v == digits_value(d),
                None => !(is_numeral(d) && digits_value(d) <= max),
            }
        }),
{
    if a == b {
        return None;
    }
    let cap: u128 = max as u128 + 1;
    let mut acc: u128 = 0;
    let mut i: usize = a;
    while i < b
        invariant
            a <= i <= b <= chars@.len(),
            cap == max + 1,
            forall|k: int| a <= k < i ==> is_digit(#[trigger] chars@[k]),
            acc == if digits_value(chars@.subrange(a as int, i as int)) < cap {
                digits_value(chars@.subrange(a as int, i as int))
            } else {
                cap as int
            },
        decreases b - i,
    {
        let c = chars[i];
        let ghost pre = chars@.subrange(a as int, i as int);
        let ghost next = chars@.subrange(a as int, i + 1);
        assert(next.drop_last() == pre);
        if !('0' <= c && c <= '9') {
            assert(!is_digit(chars@.subrange(a as int, b as int)[i - a]));
            return None;
        }
        proof {
            assert forall|k: int| 0 <= k < pre.len() implies is_digit(#[trigger] pre[k]) by {
                assert(pre[k] == chars@[a + k]);
            }
            lemma_digits_value_nonneg(pre);
        }
        let d = (c as u32 - '0' as u32) as u128;
        let v = acc * 10 + d;
        let ghost full = digits_value(pre);
        assert(digits_value(next) == full * 10 + d);
        if v >= cap {
            assert(digits_value(next) >= cap) by (nonlinear_arith)
                requires
                    digits_value(next) == full * 10 + d,
                    acc == (if full < cap { full } else { cap as int }),
                    v == acc * 10 + d,
                    v >= cap,
                    full >= 0,
                    d >= 0,
                    cap >= 1,
            ;
            acc = cap;
        } else {
            assert(full < cap) by (nonlinear_arith)
                requires
                    acc == (if full < cap { full } else { cap as int }),
                    v == acc * 10 + d,
                    v < cap,
                    full >= 0,
                    d >= 0,
                    cap >= 1,
            ;
            acc = v;
        }
        i = i + 1;
    }
    let ghost d = chars@.subrange(a as int, b as int);
    assert(is_numeral(d)) by {
        assert forall|k: int| 0 <= k < d.len() implies is_digit(#[trigger] d[k]) by {
            assert(d[k] == chars@[a + k]);
        }
    }
    if acc < cap {
        Some(acc as u64)
    } else {
        None
    }
}


/// `chars[a..b]` read as a `u32`, as `str::parse::<u32>` reads it.
pub fn parse_u32_at(chars: &Vec<char>, a: usize, b: usize) -> (r: Option<u32>)
    requires
        a <= b <= chars@.len(),
    ensures
        r == parse_u32(chars@.subrange(a as int, b as int)),
{
    let ghost s = chars@.subrange(a as int, b as int);
    let start = if a < b && chars[a] == '+' {
        a + 1
    } else {
        a
    };
    assert(chars@.subrange(start as int, b as int) == (if s.len() > 0 && s[0] == '+' {
        s.drop_first()
    } else {
        s
    }));
    match numeral_at_most(chars, start, b, 0xffff_ffff) {
        Some(v) => Some(v as u32),
        None => None,
    }
}

/// `chars[a..b]` read as a `u64`, as `str::parse::<u64>` reads it.
pub fn parse_u64_at(chars: &Vec<char>, a: usize, b: usize) -> (r: Option<u64>)
    requires
        a <= b <= chars@.len(),
    ensures
        r == parse_u64(chars@.subrange(a as int, b as int)),
{
    let ghost s = chars@.subrange(a as int, b as int);
    let start = if a < b && chars[a] == '+' {
        a + 1
    } else {
        a
    };
    assert(chars@.subrange(start as int, b as int) == (if s.len() > 0 && s[0] == '+' {
        s.drop_first()
    } else {
        s
    }));
    numeral_at_most(chars, start, b, 0xffff_ffff_ffff_ffff)
}

/// `chars[a..b]` read as an `i32`, as `str::parse::<i32>` reads it.
pub fn parse_i32_at(chars: &Vec<char>, a: usize, b: usize) -> (r: Option<i32>)
    requires
        a <= b <= chars@.len(),
    ensures
        r == parse_i32(chars@.subrange(a as int, b as int)),
{
    let ghost s = chars@.subrange(a as int, b as int);
    if a < b && chars[a] == '-' {
        assert(chars@.subrange(a + 1, b as int) == s.drop_first());
        match numeral_at_most(chars, a + 1, b, 0x8000_0000) {
            Some(v) => {
                let r: i64 = 0 - (v as i64);
                Some(r as i32)
            },
            None => None,
        }
    } else {
        let start = if a < b && chars[a] == '+' {
            a + 1
        } else {
            a
        };
        assert(chars@.subrange(start as int, b as int) == (if s.len() > 0 && s[0] == '+' {
            s.drop_first()
        } else {
            s
        }));
        match numeral_at_most(chars, start, b, 0x7fff_ffff) {
            Some(v) => Some(v as i32),
            None => None,
        }
    }
}


/// A token: one or more characters, none of them whitespace.
pub open spec fn is_word(w: Seq<char>) -> bool {
    w.len() > 0 && forall|j: int| 0 <= j < w.len() ==> !is_ws(#[trigger] w[j])
}

proof fn lemma_split_ends_in_word(s: Seq<char>)
    requires
        s.len() > 0,
        !is_ws(s.last()),
    ensures
        split_ws(s).len() > 0,
    decreases s.len(),
{
    if s.len() > 1 && !is_ws(s[s.len() - 2]) {
        assert(s.drop_last().last() == s[s.len() - 2]);
        lemma_split_ends_in_word(s.drop_last());
    }
}

/// Splitting at whitespace yields tokens only: each one non-empty and
/// free of whitespace.
pub proof fn lemma_split_yields_words(s: Seq<char>)
    ensures
        forall|k: int| 0 <= k < split_ws(s).len() ==> is_word(#[trigger] split_ws(s)[k]),
    decreases s.len(),
{
    if s.len() > 0 {
        let before = split_ws(s.drop_last());
        lemma_split_yields_words(s.drop_last());
        let c = s.last();
        if !is_ws(c) && !(s.len() == 1 || is_ws(s[s.len() - 2])) {
            assert(s.drop_last().last() == s[s.len() - 2]);
            lemma_split_ends_in_word(s.drop_last());
            let w = before.last().push(c);
            assert(is_word(before[before.len() - 1]));
            assert(is_word(w)) by {
                assert forall|j: int| 0 <= j < w.len() implies !is_ws(#[trigger] w[j]) by {
                    if j < w.len() - 1 {
                        assert(w[j] == before[before.len() - 1][j]);
                    }
                }
            }
        }
        if !is_ws(c) && (s.len() == 1 || is_ws(s[s.len() - 2])) {
            assert(is_word(seq![c]));
        }
    }
}

/// A whitespace character separates tokens: the tokens of
/// `x`, whitespace, `y` are those of `x` followed by those of `y`.
pub proof fn lemma_split_at_whitespace(x: Seq<char>, c: char, y: Seq<char>)
    requires
        is_ws(c),
    ensures
        split_ws(x.push(c) + y) == split_ws(x) + split_ws(y),
    decreases y.len(),
{
    let s = x.push(c) + y;
    if y.len() == 0 {
        assert(s == x.push(c));
        assert(s.drop_last() == x);
    } else {
        let y1 = y.drop_last();
        lemma_split_at_whitespace(x, c, y1);
        assert(s.drop_last() == x.push(c) + y1);
        assert(s.last() == y.last());
        if y1.len() > 0 {
            assert(s[s.len() - 2] == y1.last());
            assert(y[y.len() - 2] == y1.last());
        } else {
            assert(s[s.len() - 2] == c);
        }
        let a = split_ws(x);
        let b = split_ws(y1);
        if !is_ws(y.last()) && y1.len() > 0 && !is_ws(y1.last()) {
            lemma_split_ends_in_word(y1);
            assert((a + b).last() == b.last());
            assert((a + b).update((a + b).len() - 1, b.last().push(y.last())) == a + b.update(
                b.len() - 1,
                b.last().push(y.last()),
            ));
        } else if !is_ws(y.last()) {
            assert((a + b).push(seq![y.last()]) == a + b.push(seq![y.last()]));
        }
    }
}

/// A token on its own splits into itself.
pub proof fn lemma_split_word(w: Seq<char>)
    requires
        is_word(w),
    ensures
        split_ws(w) == seq![w],
    decreases w.len(),
{
    let w1 = w.drop_last();
    assert(!is_ws(w[w.len() - 1]));
    if w.len() == 1 {
        assert(w1.len() == 0);
        assert(split_ws(w1) == Seq::<Seq<char>>::empty());
        assert(w == seq![w.last()]);
        assert(split_ws(w) == seq![seq![w.last()]]);
    } else {
        assert(is_word(w1)) by {
            assert forall|j: int| 0 <= j < w1.len() implies !is_ws(#[trigger] w1[j]) by {
                assert(w1[j] == w[j]);
            }
        }
        lemma_split_word(w1);
        assert(!is_ws(w[w.len() - 2]));
        assert(w1.push(w.last()) == w);
        assert(seq![w1].update(0, w1.push(w.last())) == seq![w]);
    }
}

/// A token, a space, then `rest` split into the token and the tokens of
/// `rest`.
pub proof fn lemma_split_word_then(w: Seq<char>, rest: Seq<char>)
    requires
        is_word(w),
    ensures
        split_ws(w.push(' ') + rest) == seq![w] + split_ws(rest),
{
    assert(is_ws(' '));
    lemma_split_at_whitespace(w, ' ', rest);
    lemma_split_word(w);
}

/// What trimming leaves neither begins nor ends with whitespace.
pub proof fn lemma_trim_has_no_outer_whitespace(s: Seq<char>)
    ensures
        trim(s).len() > 0 ==> !is_ws(trim(s)[0]) && !is_ws(trim(s).last()),
    decreases s.len(),
{
    if s.len() > 0 && is_ws(s[0]) {
        lemma_trim_has_no_outer_whitespace(s.drop_first());
    } else if s.len() > 0 && is_ws(s.last()) {
        lemma_trim_has_no_outer_whitespace(s.drop_last());
    }
}

/// Text that neither begins nor ends with whitespace is left as it is by
/// trimming.
pub proof fn lemma_trim_keeps_trimmed(s: Seq<char>)
    requires
        s.len() > 0 ==> !is_ws(s[0]) && !is_ws(s.last()),
    ensures
        trim(s) == s,
{
}

/// Trimming twice is trimming once.
pub proof fn lemma_trim_idempotent(s: Seq<char>)
    ensures
        trim(trim(s)) == trim(s),
{
    lemma_trim_has_no_outer_whitespace(s);
    lemma_trim_keeps_trimmed(trim(s));
}

/// Empty text has no tokens.
pub proof fn lemma_split_empty()
    ensures
        split_ws(Seq::<char>::empty()) == Seq::<Seq<char>>::empty(),
{
}

/// `s[a..b]` is a part of `s` with nothing but whitespace around it.
pub open spec fn whitespace_around(s: Seq<char>, a: int, b: int) -> bool {
    &&& 0 <= a <= b <= s.len()
    &&& forall|k: int| 0 <= k < a ==> is_ws(#[trigger] s[k])
    &&& forall|k: int| b <= k < s.len() ==> is_ws(#[trigger] s[k])
}

proof fn trim_window(s: Seq<char>) -> (r: (int, int))
    ensures
        whitespace_around(s, r.0, r.1),
        trim(s) == s.subrange(r.0, r.1),
    decreases s.len(),
{
    if s.len() > 0 && is_ws(s[0]) {
        let t = s.drop_first();
        let (a, b) = trim_window(t);
        assert(s.subrange(a + 1, b + 1) == t.subrange(a, b));
        assert forall|k: int| 0 <= k < a + 1 implies is_ws(#[trigger] s[k]) by {
            if k > 0 {
                assert(s[k] == t[k - 1]);
            }
        }
        assert forall|k: int| b + 1 <= k < s.len() implies is_ws(#[trigger] s[k]) by {
            assert(s[k] == t[k - 1]);
        }
        (a + 1, b + 1)
    } else if s.len() > 0 && is_ws(s.last()) {
        let t = s.drop_last();
        let (a, b) = trim_window(t);
        assert(s.subrange(a, b) == t.subrange(a, b));
        assert forall|k: int| 0 <= k < a implies is_ws(#[trigger] s[k]) by {
            assert(s[k] == t[k]);
        }
        assert forall|k: int| b <= k < s.len() implies is_ws(#[trigger] s[k]) by {
            if k < s.len() - 1 {
                assert(s[k] == t[k]);
            }
        }
        (a, b)
    } else {
        assert(s.subrange(0, s.len() as int) == s);
        (0, s.len() as int)
    }
}

/// Trimming removes whitespace at the two ends and nothing else: what is
/// left is a contiguous part of the text with only whitespace around it.
pub proof fn lemma_trim_removes_only_outer_whitespace(s: Seq<char>)
    ensures
        exists|a: int, b: int|
            #[trigger] whitespace_around(s, a, b) && trim(s) == s.subrange(a, b),
{
    let (a, b) = trim_window(s);
    assert(whitespace_around(s, a, b));
}

} // verus!
