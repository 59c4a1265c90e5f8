use vstd::prelude::*;

verus! {

/// A token: the characters `start..end` of the text it was read from.
#[derive(Clone, Copy, Debug, PartialEq, Eq, Structural)]
pub struct Token {
    pub start: usize,
    pub end: usize,
}

/// Whitespace that separates tokens.
pub open spec fn is_ws(c: char) -> bool {
    c == ' ' || c == '\t' || c == '\n' || c == '\r'
}

/// The six structural characters.
pub open spec fn is_structural(c: char) -> bool {
    c == '{' || c == '}' || c == '[' || c == ']' || c == ',' || c == ':'
}

pub open spec fn is_digit(c: char) -> bool {
    '0' <= c && c <= '9'
}

pub open spec fn is_letter(c: char) -> bool {
    ('a' <= c && c <= 'z') || ('A' <= c && c <= 'Z')
}

/// How far a JSON number has been read: one state per point of its grammar
/// `-? (0 | [1-9][0-9]*) (. [0-9]+)? ([eE] [+-]? [0-9]+)?`.
#[derive(Clone, Copy, Debug, PartialEq, Eq, Structural)]
pub enum NumState {
    Start,
    Minus,
    Zero,
    Int,
    Point,
    Frac,
    Exp,
    ExpSign,
    ExpInt,
}

/// The state after reading `c` in state `st`, or `None` where `c` cannot
/// continue a number.
pub open spec fn num_step(st: NumState, c: char) -> Option<NumState> {
    match st {
        NumState::Start => if c == '-' {
            Some(NumState::Minus)
        } else if c == '0' {
            Some(NumState::Zero)
        } else if is_digit(c) {
            Some(NumState::Int)
        } else {
            None
        },
        NumState::Minus => if c == '0' {
            Some(NumState::Zero)
        } else if is_digit(c) {
            Some(NumState::Int)
        } else {
            None
        },
        NumState::Zero => if c == '.' {
            Some(NumState::Point)
        } else if c == 'e' || c == 'E' {
            Some(NumState::Exp)
        } else {
            None
        },
        NumState::Int => if is_digit(c) {
            Some(NumState::Int)
        } else if c == '.' {
            Some(NumState::Point)
        } else if c == 'e' || c == 'E' {
            Some(NumState::Exp)
        } else {
            None
        },
        NumState::Point => if is_digit(c) {
            Some(NumState::Frac)
        } else {
            None
        },
        NumState::Frac => if is_digit(c) {
            Some(NumState::Frac)
        } else if c == 'e' || c == 'E' {
            Some(NumState::Exp)
        } else {
            None
        },
        NumState::Exp => if c == '+' || c == '-' {
            Some(NumState::ExpSign)
        } else if is_digit(c) {
            Some(NumState::ExpInt)
        } else {
            None
        },
        NumState::ExpSign | NumState::ExpInt => if is_digit(c) {
            Some(NumState::ExpInt)
        } else {
            None
        },
    }
}

/// States in which what was read is a whole number.
pub open spec fn num_accepts(st: NumState) -> bool {
    st == NumState::Zero || st == NumState::Int || st == NumState::Frac || st == NumState::ExpInt
}

/// The state reached by reading all of `w` from `st`, if every step is defined.
pub open spec fn num_run(st: NumState, w: Seq<char>) -> Option<NumState>
    decreases w.len(),
{
    if w.len() == 0 {
        Some(st)
    } else {
        match num_step(st, w[0]) {
            Some(next) => num_run(next, w.drop_first()),
            None => None,
        }
    }
}

/// `w` is a JSON number.
pub open spec fn is_number_text(w: Seq<char>) -> bool {
    match num_run(NumState::Start, w) {
        Some(st) => num_accepts(st),
        None => false,
    }
}

/// Where a greedy read of a number, in state `st` at `i`, stops.
pub open spec fn num_end(s: Seq<char>, i: int, st: NumState) -> int
    decreases s.len() - i,
{
    if 0 <= i < s.len() && num_step(st, s[i]) is Some {
        num_end(s, i + 1, num_step(st, s[i])->0)
    } else {
        i
    }
}

/// The position of the quote that closes a string whose body starts at `j`:
/// the first quote that no backslash escapes, or the text's length if none does.
pub open spec fn closing_quote(s: Seq<char>, j: int) -> int
    decreases s.len() - j,
{
    if j < 0 || j >= s.len() {
        s.len() as int
    } else if s[j] == '"' {
        j
    } else if s[j] == '\\' {
        if j + 1 >= s.len() {
            s.len() as int
        } else {
            closing_quote(s, j + 2)
        }
    } else {
        closing_quote(s, j + 1)
    }
}

/// Where a string whose body starts at `j` ends: just past its closing quote,
/// or at the end of the text.
pub open spec fn string_end(s: Seq<char>, j: int) -> int {
    let q = closing_quote(s, j);
    if q < s.len() {
        q + 1
    } else {
        s.len() as int
    }
}

/// `w` is a string literal: a quote, a body, and the quote that closes it.
pub open spec fn is_string_text(w: Seq<char>) -> bool {
    w.len() >= 2 && w[0] == '"' && closing_quote(w, 1) == w.len() - 1
}

/// Where a run of letters that goes on at `j` ends.
pub open spec fn letters_end(s: Seq<char>, j: int) -> int
    decreases s.len() - j,
{
    if 0 <= j < s.len() && is_letter(s[j]) {
        letters_end(s, j + 1)
    } else {
        j
    }
}

/// Where the token that starts at `i` ends.
pub open spec fn token_end(s: Seq<char>, i: int) -> int {
    let c = s[i];
    if c == '"' {
        string_end(s, i + 1)
    } else if c == '-' || is_digit(c) {
        num_end(s, i, NumState::Start)
    } else if is_letter(c) {
        letters_end(s, i + 1)
    } else {
        i + 1
    }
}

/// The spans of the tokens of `s` from position `i` on, left to right.
pub open spec fn lex(s: Seq<char>, i: int) -> Seq<(int, int)>
    decreases s.len() - i
    via lex_decreases

{
    if i < 0 || i >= s.len() {
        Seq::empty()
    } else if is_ws(s[i]) {
        lex(s, i + 1)
    } else {
        seq![(i, token_end(s, i))] + lex(s, token_end(s, i))
    }
}

#[via_fn]
proof fn lex_decreases(s: Seq<char>, i: int) {
    if 0 <= i < s.len() && !is_ws(s[i]) {
        lemma_token_end_bounds(s, i);
    }
}

proof fn lemma_num_end_bounds(s: Seq<char>, i: int, st: NumState)
    requires
        0 <= i <= s.len(),
    ensures
        i <= num_end(s, i, st) <= s.len(),
    decreases s.len() - i,
{
    if i < s.len() && num_step(st, s[i]) is Some {
        lemma_num_end_bounds(s, i + 1, num_step(st, s[i])->0);
    }
}

proof fn lemma_closing_quote_bounds(s: Seq<char>, j: int)
    requires
        0 <= j <= s.len(),
    ensures
        j <= closing_quote(s, j) <= s.len(),
    decreases s.len() - j,
{
    if j < s.len() && s[j] != '"' {
        if s[j] == '\\' {
            if j + 1 < s.len() {
                lemma_closing_quote_bounds(s, j + 2);
            }
        } else {
            lemma_closing_quote_bounds(s, j + 1);
        }
    }
}

proof fn lemma_letters_end_bounds(s: Seq<char>, j: int)
    requires
        0 <= j <= s.len(),
    ensures
        j <= letters_end(s, j) <= s.len(),
    decreases s.len() - j,
{
    if j < s.len() && is_letter(s[j]) {
        lemma_letters_end_bounds(s, j + 1);
    }
}

/// A token is never empty and never runs past the text.
pub proof fn lemma_token_end_bounds(s: Seq<char>, i: int)
    requires
        0 <= i < s.len(),
    ensures
        i < token_end(s, i) <= s.len(),
{
    let c = s[i];
    if c == '"' {
        lemma_closing_quote_bounds(s, i + 1);
    } else if c == '-' || is_digit(c) {
        lemma_num_end_bounds(s, i + 1, num_step(NumState::Start, c)->0);
    } else if is_letter(c) {
        lemma_letters_end_bounds(s, i + 1);
    }
}

} // verus!

verus! {

/// The spans of a token sequence.
pub open spec fn spans(toks: Seq<Token>) -> Seq<(int, int)> {
    toks.map_values(|t: Token| (t.start as int, t.end as int))
}

/// The text of each span.
pub open spec fn texts(s: Seq<char>, sp: Seq<(int, int)>) -> Seq<Seq<char>> {
    sp.map_values(|p: (int, int)| s.subrange(p.0, p.1))
}

/// The token texts of `s`, left to right.
pub open spec fn token_texts(s: Seq<char>) -> Seq<Seq<char>> {
    texts(s, lex(s, 0))
}

pub fn is_ws_char(c: char) -> (r: bool)
    ensures
        r == is_ws(c),
{
    c == ' ' || c == '\t' || c == '\n' || c == '\r'
}

fn is_digit_char(c: char) -> (r: bool)
    ensures
        r == is_digit(c),
{
    '0' <= c && c <= '9'
}

fn is_letter_char(c: char) -> (r: bool)
    ensures
        r == is_letter(c),
{
    ('a' <= c && c <= 'z') || ('A' <= c && c <= 'Z')
}

fn step_number(st: NumState, c: char) -> (r: Option<NumState>)
    ensures
        r == num_step(st, c),
{
    match st {
        NumState::Start => if c == '-' {
            Some(NumState::Minus)
        } else if c == '0' {
            Some(NumState::Zero)
        } else if is_digit_char(c) {
            Some(NumState::Int)
        } else {
            None
        },
        NumState::Minus => if c == '0' {
            Some(NumState::Zero)
        } else if is_digit_char(c) {
            Some(NumState::Int)
        } else {
            None
        },
        NumState::Zero => if c == '.' {
            Some(NumState::Point)
        } else if c == 'e' || c == 'E' {
            Some(NumState::Exp)
        } else {
            None
        },
        NumState::Int => if is_digit_char(c) {
            Some(NumState::Int)
        } else if c == '.' {
            Some(NumState::Point)
        } else if c == 'e' || c == 'E' {
            Some(NumState::Exp)
        } else {
            None
        },
        NumState::Point => if is_digit_char(c) {
            Some(NumState::Frac)
        } else {
            None
        },
        NumState::Frac => if is_digit_char(c) {
            Some(NumState::Frac)
        } else if c == 'e' || c == 'E' {
            Some(NumState::Exp)
        } else {
            None
        },
        NumState::Exp => if c == '+' || c == '-' {
            Some(NumState::ExpSign)
        } else if is_digit_char(c) {
            Some(NumState::ExpInt)
        } else {
            None
        },
        NumState::ExpSign | NumState::ExpInt => if is_digit_char(c) {
            Some(NumState::ExpInt)
        } else {
            None
        },
    }
}

/// Whether `w` is a JSON number.
pub fn number_text_check(w: &Vec<char>) -> (r: bool)
    ensures
        r == is_number_text(w@),
{
    let mut st = NumState::Start;
    let mut k: usize = 0;
    assert(w@.skip(0) =~= w@);
    while k < w.len()
        invariant
            k <= w@.len(),
            num_run(NumState::Start, w@) == num_run(st, w@.skip(k as int)),
        decreases w@.len() - k,
    {
        assert(w@.skip(k as int).drop_first() =~= w@.skip(k + 1));
        match step_number(st, w[k]) {
            Some(next) => {
                st = next;
            },
            None => {
                return false;
            },
        }
        k = k + 1;
    }
    assert(w@.skip(k as int) =~= Seq::<char>::empty());
    st == NumState::Zero || st == NumState::Int || st == NumState::Frac || st == NumState::ExpInt
}

fn scan_number(s: &Vec<char>, i: usize) -> (r: usize)
    requires
        i <= s@.len(),
    ensures
        r == num_end(s@, i as int, NumState::Start),
{
    let mut st = NumState::Start;
    let mut j = i;
    while j < s.len()
        invariant
            i <= j <= s@.len(),
            num_end(s@, j as int, st) == num_end(s@, i as int, NumState::Start),
        decreases s@.len() - j,
    {
        match step_number(st, s[j]) {
            Some(next) => {
                st = next;
                j = j + 1;
            },
            None => {
                return j;
            },
        }
    }
    j
}

fn scan_string(s: &Vec<char>, j: usize) -> (r: usize)
    requires
        j <= s@.len(),
    ensures
        r == closing_quote(s@, j as int),
{
    let mut k = j;
    while k < s.len()
        invariant
            j <= k <= s@.len(),
            closing_quote(s@, k as int) == closing_quote(s@, j as int),
        decreases s@.len() - k,
    {
        if s[k] == '"' {
            return k;
        } else if s[k] == '\\' {
            if k + 1 >= s.len() {
                return s.len();
            }
            k = k + 2;
        } else {
            k = k + 1;
        }
    }
    s.len()
}

/// Whether `w` is a string literal.
pub fn string_text_check(w: &Vec<char>) -> (r: bool)
    ensures
        r == is_string_text(w@),
{
    w.len() >= 2 && w[0] == '"' && scan_string(w, 1) == w.len() - 1
}

fn scan_letters(s: &Vec<char>, j: usize) -> (r: usize)
    requires
        j <= s@.len(),
    ensures
        r == letters_end(s@, j as int),
{
    let mut k = j;
    while k < s.len() && is_letter_char(s[k])
        invariant
            j <= k <= s@.len(),
            letters_end(s@, k as int) == letters_end(s@, j as int),
        decreases s@.len() - k,
    {
        k = k + 1;
    }
    k
}

/// Where the token that starts at `i` ends.
pub fn token_end_at(s: &Vec<char>, i: usize) -> (r: usize)
    requires
        i < s@.len(),
    ensures
        r == token_end(s@, i as int),
{
    let n = s.len();
    let c = s[i];
    if c == '"' {
        let q = scan_string(s, i + 1);
        if q < n {
            q + 1
        } else {
            n
        }
    } else if c == '-' || is_digit_char(c) {
        scan_number(s, i)
    } else if is_letter_char(c) {
        scan_letters(s, i + 1)
    } else {
        i + 1
    }
}

/// Splits `s` into tokens, left to right, skipping the whitespace between them.
pub fn lex_chars(s: &Vec<char>) -> (r: Vec<Token>)
    ensures
        spans(r@) == lex(s@, 0),
{
    let mut out: Vec<Token> = Vec::new();
    let mut i: usize = 0;
    while i < s.len()
        invariant
            i <= s@.len(),
            spans(out@) + lex(s@, i as int) == lex(s@, 0),
        decreases s@.len() - i,
    {
        if is_ws_char(s[i]) {
            i = i + 1;
        } else {
            let e = token_end_at(s, i);
            proof {
                lemma_token_end_bounds(s@, i as int);
            }
            let ghost before = out@;
            out.push(Token { start: i, end: e });
            assert(spans(out@) =~= spans(before).push((i as int, e as int)));
            assert(spans(out@) + lex(s@, e as int) =~= spans(before) + lex(s@, i as int));
            i = e;
        }
    }
    assert(lex(s@, i as int) =~= Seq::<(int, int)>::empty());
    assert(spans(out@) =~= spans(out@) + lex(s@, i as int));
    out
}

/// Splits `text` into tokens; each token's span counts characters.
pub fn tokenize(text: &str) -> (r: Vec<Token>)
    ensures
        spans(r@) == lex(text@, 0),
{
    let s = crate::text::chars_of(text);
    lex_chars(&s)
}

} // verus!

verus! {

/// Every span from `i` on lies inside the text, is non-empty, and starts at
/// or after `i`.
pub proof fn lemma_lex_spans(s: Seq<char>, i: int)
    requires
        0 <= i,
    ensures
        forall|k: int|
            0 <= k < lex(s, i).len() ==> i <= #[trigger] lex(s, i)[k].0 < lex(s, i)[k].1 <= s.len(),
    decreases s.len() - i,
{
    if i < s.len() {
        if is_ws(s[i]) {
            lemma_lex_spans(s, i + 1);
        } else {
            lemma_token_end_bounds(s, i);
            lemma_lex_spans(s, token_end(s, i));
            let rest = lex(s, token_end(s, i));
            assert forall|k: int| 0 <= k < lex(s, i).len() implies i <= #[trigger] lex(s, i)[k].0
                < lex(s, i)[k].1 <= s.len() by {
                if k > 0 {
                    assert(lex(s, i)[k] == rest[k - 1]);
                }
            }
        }
    }
}

/// The tokens from `i` on come in order without overlap, and every
/// character they leave out is whitespace: joining the tokens with the
/// whitespace between them gives the text back.
pub proof fn lemma_lex_covers(s: Seq<char>, i: int)
    requires
        0 <= i,
    ensures
        forall|k: int| 0 <= k < lex(s, i).len() - 1 ==> #[trigger] lex(s, i)[k].1 <= lex(s, i)[k + 1].0,
        forall|m: int|
            i <= m < s.len() && !is_ws(#[trigger] s[m]) ==> exists|k: int|
                0 <= k < lex(s, i).len() && #[trigger] lex(s, i)[k].0 <= m < lex(s, i)[k].1,
    decreases s.len() - i,
{
    if i < s.len() {
        if is_ws(s[i]) {
            lemma_lex_covers(s, i + 1);
            assert(lex(s, i) == lex(s, i + 1));
        } else {
            let e = token_end(s, i);
            lemma_token_end_bounds(s, i);
            lemma_lex_covers(s, e);
            lemma_lex_spans(s, e);
            let sp = lex(s, i);
            let rest = lex(s, e);
            assert(sp == seq![(i, e)] + rest);
            assert forall|k: int| 0 <= k < sp.len() - 1 implies #[trigger] sp[k].1 <= sp[k + 1].0 by {
                assert(sp[k + 1] == rest[k]);
                if k > 0 {
                    assert(sp[k] == rest[k - 1]);
                }
            }
            assert forall|m: int| i <= m < s.len() && !is_ws(#[trigger] s[m]) implies exists|k: int|
                0 <= k < sp.len() && #[trigger] sp[k].0 <= m < sp[k].1 by {
                if m < e {
                    assert(sp[0] == (i, e));
                    assert(0 <= 0 < sp.len() && sp[0].0 <= m < sp[0].1);
                } else {
                    let k2 = choose|k2: int|
                        0 <= k2 < rest.len() && #[trigger] rest[k2].0 <= m < rest[k2].1;
                    assert(sp[k2 + 1] == rest[k2]);
                    assert(0 <= k2 + 1 < sp.len() && sp[k2 + 1].0 <= m < sp[k2 + 1].1);
                }
            }
        }
    }
}

} // verus!
