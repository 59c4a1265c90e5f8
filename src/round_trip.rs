use vstd::prelude::*;
use crate::laws::lemma_words;
use crate::lexer::{
    closing_quote, is_letter, is_number_text, is_string_text, is_structural, is_ws, letters_end,
    lex, num_end, num_run, num_step, texts, token_end, NumState,
};
use crate::parser::{parse_elements, parse_members, parse_text, parse_value};
use crate::text::{chars_of, push_char};
use crate::value::{JSONValue, Json, lemma_array_model, lemma_object_model, member_models, models};

verus! {

broadcast use vstd::seq::axiom_seq_index_decreases;

/// A value that text can spell: each literal is a well-formed string or number.
pub open spec fn well_formed(v: Json) -> bool
    decreases v,
{
    match v {
        Json::Object(ms) => forall|i: int|
            0 <= i < ms.len() ==> is_string_text(#[trigger] ms[i].0) && well_formed(ms[i].1),
        Json::Array(items) => forall|i: int| 0 <= i < items.len() ==> well_formed(#[trigger] items[i]),
        Json::Str(w) => is_string_text(w),
        Json::Num(w) => is_number_text(w),
        _ => true,
    }
}

/// The token texts of a list whose parts are `parts`: the parts, with a comma
/// between each two.
pub open spec fn list_words(parts: Seq<Seq<Seq<char>>>) -> Seq<Seq<char>> {
    if parts.len() == 0 {
        Seq::empty()
    } else {
        parts[0] + tail_words(parts.drop_first())
    }
}

/// Each part, with a comma before it.
pub open spec fn tail_words(parts: Seq<Seq<Seq<char>>>) -> Seq<Seq<char>>
    decreases parts.len(),
{
    if parts.len() == 0 {
        Seq::empty()
    } else {
        seq![","@] + parts[0] + tail_words(parts.drop_first())
    }
}

/// The token texts of each element of an array.
pub open spec fn element_parts(items: Seq<Json>) -> Seq<Seq<Seq<char>>>
    decreases items,
{
    Seq::new(
        items.len(),
        |i: int|
            if 0 <= i < items.len() {
                value_words(items[i])
            } else {
                Seq::empty()
            },
    )
}

/// The token texts of each member of an object: name, colon, value.
pub open spec fn member_parts(ms: Seq<(Seq<char>, Json)>) -> Seq<Seq<Seq<char>>>
    decreases ms,
{
    Seq::new(
        ms.len(),
        |i: int|
            if 0 <= i < ms.len() {
                seq![ms[i].0, ":"@] + value_words(ms[i].1)
            } else {
                Seq::empty()
            },
    )
}

/// The token texts that spell `v`.
pub open spec fn value_words(v: Json) -> Seq<Seq<char>>
    decreases v,
{
    match v {
        Json::Object(ms) => seq!["{"@] + list_words(member_parts(ms)) + seq!["}"@],
        Json::Array(items) => seq!["["@] + list_words(element_parts(items)) + seq!["]"@],
        Json::Str(w) => seq![w],
        Json::Num(w) => seq![w],
        Json::True => seq!["true"@],
        Json::False => seq!["false"@],
        Json::Null => seq!["null"@],
    }
}

/// `ws` holds the words `t` from position `p` on.
pub open spec fn holds_at(ws: Seq<Seq<char>>, p: int, t: Seq<Seq<char>>) -> bool {
    0 <= p && p + t.len() <= ws.len() && ws.subrange(p, p + t.len()) == t
}

proof fn lemma_holds_split(ws: Seq<Seq<char>>, p: int, a: Seq<Seq<char>>, b: Seq<Seq<char>>)
    requires
        holds_at(ws, p, a + b),
    ensures
        holds_at(ws, p, a),
        holds_at(ws, p + a.len(), b),
{
    assert(ws.subrange(p, p + a.len()) =~= (a + b).subrange(0, a.len() as int));
    assert(ws.subrange(p + a.len(), p + a.len() + b.len()) =~= (a + b).subrange(
        a.len() as int,
        (a + b).len() as int,
    ));
    assert((a + b).subrange(0, a.len() as int) =~= a);
    assert((a + b).subrange(a.len() as int, (a + b).len() as int) =~= b);
}

proof fn lemma_holds_first(ws: Seq<Seq<char>>, p: int, t: Seq<Seq<char>>)
    requires
        holds_at(ws, p, t),
        t.len() > 0,
    ensures
        ws[p] == t[0],
{
    assert(ws.subrange(p, p + t.len())[0] == ws[p]);
}

/// The first word of a number is no structural token and no keyword.
proof fn lemma_number_start(w: Seq<char>)
    requires
        is_number_text(w),
    ensures
        w.len() > 0,
        w[0] == '-' || ('0' <= w[0] && w[0] <= '9'),
{
    if w.len() == 0 {
        assert(num_run(NumState::Start, w) == Some(NumState::Start));
    } else {
        assert(num_step(NumState::Start, w[0]) is Some);
    }
}

/// A string or number literal is none of the structural tokens or keywords.
proof fn lemma_literal_is_no_word(w: Seq<char>)
    requires
        is_string_text(w) || is_number_text(w),
    ensures
        w != "{"@ && w != "}"@ && w != "["@ && w != "]"@ && w != ","@ && w != ":"@,
        w != "true"@ && w != "false"@ && w != "null"@,
{
    lemma_words();
    if is_number_text(w) {
        lemma_number_start(w);
    }
    let c = w[0];
    assert(c == '"' || c == '-' || ('0' <= c && c <= '9'));
    assert(seq!['{'][0] == '{' && seq!['}'][0] == '}' && seq!['['][0] == '[' && seq![']'][0]
        == ']');
    assert(seq![','][0] == ',' && seq![':'][0] == ':');
    assert(seq!['t', 'r', 'u', 'e'][0] == 't' && seq!['f', 'a', 'l', 's', 'e'][0] == 'f'
        && seq!['n', 'u', 'l', 'l'][0] == 'n');
}

/// The first word of a well-formed value opens it: it is never a closing
/// token, a comma or a colon.
proof fn lemma_first_word(v: Json)
    requires
        well_formed(v),
    ensures
        value_words(v).len() > 0,
        value_words(v)[0] != "]"@,
        value_words(v)[0] != "}"@,
        value_words(v)[0] != ","@,
        value_words(v)[0] != ":"@,
{
    lemma_words();
    match v {
        Json::Str(w) => {
            lemma_literal_is_no_word(w);
        },
        Json::Num(w) => {
            lemma_literal_is_no_word(w);
        },
        _ => {},
    }
}

/// Reading the words of a well-formed value gives that value back, and the
/// read ends just past them.
pub proof fn lemma_parse_words(ws: Seq<Seq<char>>, p: int, v: Json)
    requires
        well_formed(v),
        holds_at(ws, p, value_words(v)),
    ensures
        parse_value(ws, p) == Ok::<(Json, int), Seq<char>>((v, p + value_words(v).len())),
    decreases v, 1int, 0int,
{
    lemma_words();
    let t = value_words(v);
    lemma_holds_first(ws, p, t);
    match v {
        Json::Str(w) => {
            lemma_literal_is_no_word(w);
        },
        Json::Num(w) => {
            lemma_literal_is_no_word(w);
            lemma_number_start(w);
            assert(w[0] != '"');
        },
        Json::Array(items) => {
            let inner = list_words(element_parts(items));
            assert(t =~= seq!["["@] + (inner + seq!["]"@]));
            lemma_holds_split(ws, p, seq!["["@], inner + seq!["]"@]);
            lemma_parse_elements(ws, p + 1, v, 0);
            assert(items.take(0) =~= Seq::<Json>::empty());
        },
        Json::Object(ms) => {
            let inner = list_words(member_parts(ms));
            assert(t =~= seq!["{"@] + (inner + seq!["}"@]));
            lemma_holds_split(ws, p, seq!["{"@], inner + seq!["}"@]);
            lemma_parse_members(ws, p + 1, v, 0);
            assert(ms.take(0) =~= Seq::<(Seq<char>, Json)>::empty());
        },
        _ => {},
    }
}

/// The words of the parts of a list from part `k` on.
pub open spec fn rest_words(parts: Seq<Seq<Seq<char>>>, k: int) -> Seq<Seq<char>> {
    if k == 0 {
        list_words(parts)
    } else {
        tail_words(parts.skip(k))
    }
}

proof fn lemma_rest_words_step(parts: Seq<Seq<Seq<char>>>, k: int)
    requires
        0 <= k < parts.len(),
    ensures
        k == 0 ==> rest_words(parts, k) == parts[k] + rest_words(parts, k + 1),
        k > 0 ==> rest_words(parts, k) == seq![","@] + parts[k] + rest_words(parts, k + 1),
{
    assert(parts.skip(k)[0] == parts[k]);
    assert(parts.skip(k).drop_first() =~= parts.skip(k + 1));
    assert(parts.drop_first() =~= parts.skip(1));
}

proof fn lemma_parse_elements(ws: Seq<Seq<char>>, q: int, v: Json, k: int)
    requires
        v is Array,
        well_formed(v),
        0 <= k <= v->Array_0.len(),
        holds_at(ws, q, rest_words(element_parts(v->Array_0), k) + seq!["]"@]),
    ensures
        parse_elements(ws, q, v->Array_0.take(k)) == Ok::<(Json, int), Seq<char>>(
            (v, q + rest_words(element_parts(v->Array_0), k).len() + 1),
        ),
    decreases v, 0int, v->Array_0.len() - k,
{
    lemma_words();
    let items = v->Array_0;
    let parts = element_parts(items);
    let n = items.len();
    if k == n {
        assert(parts.skip(k).len() == 0);
        assert(rest_words(parts, k) =~= Seq::<Seq<char>>::empty());
        lemma_holds_first(ws, q, rest_words(parts, k) + seq!["]"@]);
        assert(ws[q] == "]"@);
        assert(items.take(k) =~= items);
    } else {
        lemma_rest_words_step(parts, k);
        let x = items[k];
        assert(well_formed(x));
        assert(parts[k] == value_words(x));
        let after = rest_words(parts, k + 1);
        if k == 0 {
            assert(rest_words(parts, k) + seq!["]"@] =~= parts[k] + (after + seq!["]"@]));
            lemma_holds_split(ws, q, parts[k], after + seq!["]"@]);
            lemma_first_word(x);
            lemma_holds_first(ws, q, parts[k]);
            lemma_parse_words(ws, q, x);
        } else {
            assert(rest_words(parts, k) + seq!["]"@] =~= seq![","@] + (parts[k] + (after
                + seq!["]"@])));
            lemma_holds_split(ws, q, seq![","@], parts[k] + (after + seq!["]"@]));
            lemma_holds_split(ws, q + 1, parts[k], after + seq!["]"@]);
            lemma_holds_first(ws, q, seq![","@]);
            lemma_parse_words(ws, q + 1, x);
        }
        assert(items.take(k).push(x) =~= items.take(k + 1));
        lemma_parse_elements(ws, q + rest_words(parts, k).len() - after.len(), v, k + 1);
    }
}

proof fn lemma_parse_members(ws: Seq<Seq<char>>, q: int, v: Json, k: int)
    requires
        v is Object,
        well_formed(v),
        0 <= k <= v->Object_0.len(),
        holds_at(ws, q, rest_words(member_parts(v->Object_0), k) + seq!["}"@]),
    ensures
        parse_members(ws, q, v->Object_0.take(k)) == Ok::<(Json, int), Seq<char>>(
            (v, q + rest_words(member_parts(v->Object_0), k).len() + 1),
        ),
    decreases v, 0int, v->Object_0.len() - k,
{
    lemma_words();
    let ms = v->Object_0;
    let parts = member_parts(ms);
    let n = ms.len();
    if k == n {
        assert(parts.skip(k).len() == 0);
        assert(rest_words(parts, k) =~= Seq::<Seq<char>>::empty());
        lemma_holds_first(ws, q, rest_words(parts, k) + seq!["}"@]);
        assert(ws[q] == "}"@);
        assert(ms.take(k) =~= ms);
    } else {
        lemma_rest_words_step(parts, k);
        let key = ms[k].0;
        let x = ms[k].1;
        assert(is_string_text(key) && well_formed(x));
        assert(parts[k] == seq![key, ":"@] + value_words(x));
        let after = rest_words(parts, k + 1);
        let start = if k == 0 {
            q
        } else {
            q + 1
        };
        if k == 0 {
            assert(rest_words(parts, k) + seq!["}"@] =~= parts[k] + (after + seq!["}"@]));
            lemma_holds_split(ws, q, parts[k], after + seq!["}"@]);
        } else {
            assert(rest_words(parts, k) + seq!["}"@] =~= seq![","@] + (parts[k] + (after
                + seq!["}"@])));
            lemma_holds_split(ws, q, seq![","@], parts[k] + (after + seq!["}"@]));
            lemma_holds_split(ws, q + 1, parts[k], after + seq!["}"@]);
            lemma_holds_first(ws, q, seq![","@]);
        }
        lemma_holds_split(ws, start, seq![key, ":"@], value_words(x));
        assert(seq![key, ":"@] =~= seq![key] + seq![":"@]);
        lemma_holds_split(ws, start, seq![key], seq![":"@]);
        lemma_holds_first(ws, start, seq![key]);
        lemma_holds_first(ws, start + 1, seq![":"@]);
        if k == 0 {
            lemma_holds_first(ws, q, seq![key]);
        }
        lemma_literal_is_no_word(key);
        assert(parse_value(ws, start) == Ok::<(Json, int), Seq<char>>((Json::Str(key), start + 1)));
        lemma_parse_words(ws, start + 2, x);
        assert(ms.take(k).push((key, x)) =~= ms.take(k + 1));
        lemma_parse_members(ws, start + 2 + value_words(x).len(), v, k + 1);
    }
}

/// A word that the lexer reads as one token when a space follows it.
pub open spec fn is_word(w: Seq<char>) -> bool {
    ||| w.len() == 1 && is_structural(w[0])
    ||| w == "true"@
    ||| w == "false"@
    ||| w == "null"@
    ||| is_string_text(w)
    ||| is_number_text(w)
}

pub open spec fn all_words(ws: Seq<Seq<char>>) -> bool {
    forall|k: int| 0 <= k < ws.len() ==> is_word(#[trigger] ws[k])
}

/// The words, each followed by one space.
pub open spec fn spaced(ws: Seq<Seq<char>>) -> Seq<char>
    decreases ws.len(),
{
    if ws.len() == 0 {
        Seq::empty()
    } else {
        ws[0] + seq![' '] + spaced(ws.drop_first())
    }
}

/// The text that spells `v`: its token texts, each followed by a space.
pub open spec fn serialize(v: Json) -> Seq<char> {
    spaced(value_words(v))
}

proof fn lemma_all_words_concat(a: Seq<Seq<char>>, b: Seq<Seq<char>>)
    requires
        all_words(a),
        all_words(b),
    ensures
        all_words(a + b),
{
    assert forall|k: int| 0 <= k < (a + b).len() implies is_word(#[trigger] (a + b)[k]) by {
        if k < a.len() {
            assert((a + b)[k] == a[k]);
        } else {
            assert((a + b)[k] == b[k - a.len()]);
        }
    }
}

proof fn lemma_tail_words(parts: Seq<Seq<Seq<char>>>)
    requires
        forall|i: int| 0 <= i < parts.len() ==> all_words(#[trigger] parts[i]),
    ensures
        all_words(tail_words(parts)),
    decreases parts.len(),
{
    lemma_words();
    if parts.len() > 0 {
        lemma_tail_words(parts.drop_first());
        assert(all_words(seq![","@]));
        lemma_all_words_concat(seq![","@], parts[0]);
        lemma_all_words_concat(seq![","@] + parts[0], tail_words(parts.drop_first()));
    }
}

proof fn lemma_list_words(parts: Seq<Seq<Seq<char>>>)
    requires
        forall|i: int| 0 <= i < parts.len() ==> all_words(#[trigger] parts[i]),
    ensures
        all_words(list_words(parts)),
{
    if parts.len() > 0 {
        lemma_tail_words(parts.drop_first());
        lemma_all_words_concat(parts[0], tail_words(parts.drop_first()));
    }
}

/// Each token text of a well-formed value is a word.
proof fn lemma_value_words_ok(v: Json)
    requires
        well_formed(v),
    ensures
        all_words(value_words(v)),
    decreases v,
{
    lemma_words();
    match v {
        Json::Array(items) => {
            let parts = element_parts(items);
            assert forall|i: int| 0 <= i < parts.len() implies all_words(#[trigger] parts[i]) by {
                lemma_value_words_ok(items[i]);
            }
            lemma_list_words(parts);
            lemma_all_words_concat(seq!["["@], list_words(parts));
            lemma_all_words_concat(seq!["["@] + list_words(parts), seq!["]"@]);
        },
        Json::Object(ms) => {
            let parts = member_parts(ms);
            assert forall|i: int| 0 <= i < parts.len() implies all_words(#[trigger] parts[i]) by {
                assert(is_string_text(ms[i].0));
                lemma_value_words_ok(ms[i].1);
                assert(all_words(seq![ms[i].0, ":"@]));
                lemma_all_words_concat(seq![ms[i].0, ":"@], value_words(ms[i].1));
            }
            lemma_list_words(parts);
            lemma_all_words_concat(seq!["{"@], list_words(parts));
            lemma_all_words_concat(seq!["{"@] + list_words(parts), seq!["}"@]);
        },
        _ => {},
    }
}

proof fn lemma_letters_run(s: Seq<char>, j: int, e: int)
    requires
        0 <= j <= e < s.len(),
        forall|m: int| j <= m < e ==> is_letter(#[trigger] s[m]),
        !is_letter(s[e]),
    ensures
        letters_end(s, j) == e,
    decreases e - j,
{
    if j < e {
        lemma_letters_run(s, j + 1, e);
    }
}

proof fn lemma_quote_shift(s: Seq<char>, i: int, w: Seq<char>, j: int)
    requires
        0 <= i,
        i + w.len() <= s.len(),
        s.subrange(i, i + w.len()) == w,
        0 <= j,
        closing_quote(w, j) == w.len() - 1,
    ensures
        closing_quote(s, i + j) == i + w.len() - 1,
    decreases w.len() - j,
{
    if j < w.len() {
        assert(s[i + j] == w[j]);
        if w[j] == '\\' {
            assert(s[i + j + 1] == w[j + 1]);
            lemma_quote_shift(s, i, w, j + 2);
        } else if w[j] != '"' {
            lemma_quote_shift(s, i, w, j + 1);
        }
    }
}

proof fn lemma_num_shift(s: Seq<char>, i: int, w: Seq<char>, j: int, st: NumState, f: NumState)
    requires
        0 <= i,
        i + w.len() <= s.len(),
        s.subrange(i, i + w.len()) == w,
        0 <= j <= w.len(),
        num_run(st, w.skip(j)) == Some(f),
    ensures
        num_end(s, i + j, st) == num_end(s, i + w.len(), f),
    decreases w.len() - j,
{
    if j == w.len() {
        assert(w.skip(j).len() == 0);
    } else {
        assert(w.skip(j)[0] == w[j]);
        assert(s[i + j] == w[j]);
        assert(w.skip(j).drop_first() =~= w.skip(j + 1));
        lemma_num_shift(s, i, w, j + 1, num_step(st, w[j])->0, f);
    }
}

/// A word followed by a space is read as one token.
proof fn lemma_word_token(s: Seq<char>, i: int, w: Seq<char>)
    requires
        0 <= i,
        i + w.len() < s.len(),
        s.subrange(i, i + w.len()) == w,
        s[i + w.len()] == ' ',
        is_word(w),
    ensures
        !is_ws(s[i]),
        token_end(s, i) == i + w.len(),
{
    lemma_words();
    let e = i + w.len();
    assert(w.len() > 0) by {
        if is_number_text(w) {
            lemma_number_start(w);
        }
    }
    assert(s[i] == w[0]);
    if w == "true"@ || w == "false"@ || w == "null"@ {
        assert forall|m: int| i + 1 <= m < e implies is_letter(#[trigger] s[m]) by {
            assert(s[m] == w[m - i]);
        }
        lemma_letters_run(s, i + 1, e);
    } else if is_string_text(w) {
        lemma_quote_shift(s, i, w, 1);
    } else if is_number_text(w) {
        lemma_number_start(w);
        let f = num_run(NumState::Start, w)->0;
        assert(w.skip(0) =~= w);
        lemma_num_shift(s, i, w, 0, NumState::Start, f);
    }
}

/// The spans of the words of `spaced(ws)` when it starts at `o`.
pub open spec fn spaced_spans(o: int, ws: Seq<Seq<char>>) -> Seq<(int, int)>
    decreases ws.len(),
{
    if ws.len() == 0 {
        Seq::empty()
    } else {
        seq![(o, o + ws[0].len())] + spaced_spans(o + ws[0].len() + 1, ws.drop_first())
    }
}

/// Lexing spaced words finds exactly those words.
proof fn lemma_lex_spaced(pre: Seq<char>, ws: Seq<Seq<char>>)
    requires
        all_words(ws),
    ensures
        lex(pre + spaced(ws), pre.len() as int) == spaced_spans(pre.len() as int, ws),
        texts(pre + spaced(ws), spaced_spans(pre.len() as int, ws)) == ws,
    decreases ws.len(),
{
    let s = pre + spaced(ws);
    let o = pre.len() as int;
    if ws.len() == 0 {
        assert(s =~= pre);
        assert(texts(s, Seq::empty()) =~= ws);
    } else {
        let w = ws[0];
        let rest = ws.drop_first();
        let pre2 = pre + w + seq![' '];
        assert(s =~= pre2 + spaced(rest));
        assert(all_words(rest)) by {
            assert forall|k: int| 0 <= k < rest.len() implies is_word(#[trigger] rest[k]) by {
                assert(rest[k] == ws[k + 1]);
            }
        }
        lemma_lex_spaced(pre2, rest);
        assert(s.subrange(o, o + w.len()) =~= w);
        assert(s[o + w.len()] == ' ');
        assert(is_word(ws[0]));
        lemma_word_token(s, o, w);
        assert(lex(s, o + w.len()) == lex(s, o + w.len() + 1));
        assert(lex(s, o) =~= seq![(o, o + w.len())] + lex(s, pre2.len() as int));
        assert(texts(s, spaced_spans(o, ws)) =~= seq![s.subrange(o, o + w.len())] + texts(
            s,
            spaced_spans(pre2.len() as int, rest),
        ));
        assert(ws =~= seq![w] + rest);
    }
}

/// Parsing the text that spells a well-formed value gives that value back.
pub proof fn lemma_round_trip(v: Json)
    requires
        well_formed(v),
    ensures
        parse_text(serialize(v)) == Ok::<Json, Seq<char>>(v),
{
    let ws = value_words(v);
    let s = serialize(v);
    lemma_value_words_ok(v);
    lemma_lex_spaced(Seq::empty(), ws);
    assert(Seq::<char>::empty() + spaced(ws) =~= s);
    assert(texts(s, lex(s, 0)) == ws);
    assert(ws.subrange(0, ws.len() as int) =~= ws);
    lemma_parse_words(ws, 0, v);
}

/// Whatever the parser reads is well-formed.
pub proof fn lemma_parsed_well_formed(ws: Seq<Seq<char>>, pos: int)
    ensures
        parse_value(ws, pos) matches Ok((v, _)) ==> well_formed(v),
    decreases ws.len() - pos, 0int,
{
    if 0 <= pos < ws.len() {
        if ws[pos] == "{"@ {
            lemma_members_well_formed(ws, pos + 1, Seq::empty());
        } else if ws[pos] == "["@ {
            lemma_elements_well_formed(ws, pos + 1, Seq::empty());
        }
    }
}

proof fn lemma_elements_well_formed(ws: Seq<Seq<char>>, pos: int, acc: Seq<Json>)
    requires
        forall|i: int| 0 <= i < acc.len() ==> well_formed(#[trigger] acc[i]),
    ensures
        parse_elements(ws, pos, acc) matches Ok((v, _)) ==> well_formed(v),
    decreases ws.len() - pos, 1int,
{
    if 0 <= pos < ws.len() && ws[pos] != "]"@ && !(acc.len() > 0 && ws[pos] != ","@) {
        let start = if acc.len() > 0 {
            pos + 1
        } else {
            pos
        };
        lemma_parsed_well_formed(ws, start);
        if let Ok((x, next)) = parse_value(ws, start) {
            if pos < next <= ws.len() {
                assert forall|i: int| 0 <= i < acc.push(x).len() implies well_formed(
                    #[trigger] acc.push(x)[i],
                ) by {
                    if i < acc.len() {
                        assert(acc.push(x)[i] == acc[i]);
                    }
                }
                lemma_elements_well_formed(ws, next, acc.push(x));
            }
        }
    }
}

/// Each member has a string name and a well-formed value.
pub open spec fn members_well_formed(ms: Seq<(Seq<char>, Json)>) -> bool {
    forall|i: int| 0 <= i < ms.len() ==> is_string_text(#[trigger] ms[i].0) && well_formed(ms[i].1)
}

proof fn lemma_members_well_formed(ws: Seq<Seq<char>>, pos: int, acc: Seq<(Seq<char>, Json)>)
    requires
        members_well_formed(acc),
    ensures
        parse_members(ws, pos, acc) matches Ok((v, _)) ==> well_formed(v),
    decreases ws.len() - pos, 1int,
{
    if 0 <= pos < ws.len() && ws[pos] != "}"@ && !(acc.len() > 0 && ws[pos] != ","@) {
        let start = if acc.len() > 0 {
            pos + 1
        } else {
            pos
        };
        if let Ok((key, colon)) = parse_value(ws, start) {
            if key is Str && pos < colon < ws.len() && ws[colon] == ":"@ {
                lemma_parsed_well_formed(ws, start);
                lemma_parsed_well_formed(ws, colon + 1);
                if let Ok((x, next)) = parse_value(ws, colon + 1) {
                    if pos < next <= ws.len() {
                        let m = (key->Str_0, x);
                        assert(well_formed(key));
                        assert(is_string_text(m.0));
                        let acc2 = acc.push(m);
                        assert forall|i: int| 0 <= i < acc2.len() implies (is_string_text(
                            #[trigger] acc2[i].0,
                        ) && well_formed(acc2[i].1)) by {
                            if i < acc.len() {
                                assert(acc2[i] == acc[i]);
                            } else {
                                assert(acc2[i] == m);
                                assert(well_formed(x));
                            }
                        }
                        assert(members_well_formed(acc2));
                        lemma_members_well_formed(ws, next, acc2);
                    }
                }
            }
        }
    }
}

/// Parsing, writing the value back out, and parsing again gives the same
/// value.
pub proof fn lemma_reparse(s: Seq<char>, v: Json)
    requires
        parse_text(s) == Ok::<Json, Seq<char>>(v),
    ensures
        parse_text(serialize(v)) == Ok::<Json, Seq<char>>(v),
{
    lemma_parsed_well_formed(texts(s, lex(s, 0)), 0);
    lemma_round_trip(v);
}

/// An object's members come out in the order they were written, duplicate
/// names included.
pub proof fn lemma_member_order(ms: Seq<(Seq<char>, Json)>)
    requires
        well_formed(Json::Object(ms)),
    ensures
        parse_text(serialize(Json::Object(ms))) == Ok::<Json, Seq<char>>(Json::Object(ms)),
{
    lemma_round_trip(Json::Object(ms));
}

proof fn lemma_spaced_concat(a: Seq<Seq<char>>, b: Seq<Seq<char>>)
    ensures
        spaced(a + b) == spaced(a) + spaced(b),
    decreases a.len(),
{
    if a.len() == 0 {
        assert(a + b =~= b);
        assert(spaced(a) + spaced(b) =~= spaced(b));
    } else {
        assert((a + b).drop_first() =~= a.drop_first() + b);
        lemma_spaced_concat(a.drop_first(), b);
        assert(spaced(a + b) =~= spaced(a) + spaced(b));
    }
}

proof fn lemma_tail_words_push(parts: Seq<Seq<Seq<char>>>, x: Seq<Seq<char>>)
    ensures
        tail_words(parts.push(x)) == tail_words(parts) + seq![","@] + x,
    decreases parts.len(),
{
    if parts.len() == 0 {
        assert(parts.push(x).drop_first() =~= Seq::<Seq<Seq<char>>>::empty());
        assert(tail_words(parts.push(x).drop_first()) == Seq::<Seq<char>>::empty());
        assert(parts.push(x)[0] == x);
        assert(tail_words(parts.push(x)) =~= tail_words(parts) + seq![","@] + x);
    } else {
        assert(parts.push(x).drop_first() =~= parts.drop_first().push(x));
        lemma_tail_words_push(parts.drop_first(), x);
        assert(tail_words(parts.push(x)) =~= tail_words(parts) + seq![","@] + x);
    }
}

/// Adding a part to a list adds a comma (unless it is the first) and its words.
proof fn lemma_list_words_push(parts: Seq<Seq<Seq<char>>>, x: Seq<Seq<char>>)
    ensures
        parts.len() == 0 ==> list_words(parts.push(x)) == x,
        parts.len() > 0 ==> list_words(parts.push(x)) == list_words(parts) + seq![","@] + x,
{
    if parts.len() == 0 {
        assert(parts.push(x).drop_first() =~= Seq::<Seq<Seq<char>>>::empty());
        assert(list_words(parts.push(x)) =~= x);
    } else {
        assert(parts.push(x).drop_first() =~= parts.drop_first().push(x));
        lemma_tail_words_push(parts.drop_first(), x);
        assert(list_words(parts.push(x)) =~= list_words(parts) + seq![","@] + x);
    }
}

proof fn lemma_spaced_one(w: Seq<char>)
    ensures
        spaced(seq![w]) == w + seq![' '],
{
    assert(seq![w].drop_first() =~= Seq::<Seq<char>>::empty());
    assert(spaced(seq![w].drop_first()) == Seq::<char>::empty());
    assert(spaced(seq![w]) =~= w + seq![' ']);
}

/// Appends the characters of `w` and one space.
fn push_word(out: &mut String, w: &str)
    ensures
        final(out)@ == old(out)@ + w@ + seq![' '],
{
    let cs = chars_of(w);
    let ghost start = out@;
    let mut k: usize = 0;
    while k < cs.len()
        invariant
            k <= cs@.len(),
            cs@ == w@,
            out@ == start + cs@.subrange(0, k as int),
        decreases cs@.len() - k,
    {
        push_char(out, cs[k]);
        assert(out@ =~= start + cs@.subrange(0, k + 1));
        k = k + 1;
    }
    push_char(out, ' ');
    assert(out@ =~= start + w@ + seq![' ']);
}

fn write_value(v: &JSONValue, out: &mut String)
    ensures
        final(out)@ == old(out)@ + serialize(v.model()),
    decreases v,
{
    let ghost start = out@;
    proof {
        lemma_words();
    }
    match v {
        JSONValue::Object(ms) => {
            let ghost parts = member_parts(member_models(ms@));
            proof {
                lemma_object_model(*ms);
            }
            push_word(out, "{");
            let mut k: usize = 0;
            proof {
                assert(parts.take(0) =~= Seq::<Seq<Seq<char>>>::empty());
                assert(seq!["{"@] + list_words(parts.take(0)) =~= seq!["{"@]);
                lemma_spaced_one("{"@);
            }
            while k < ms.len()
                invariant
                    k <= ms@.len(),
                    parts == member_parts(member_models(ms@)),
                    *v == JSONValue::Object(*ms),
                    out@ == start + spaced(seq!["{"@] + list_words(parts.take(k as int))),
                decreases ms@.len() - k,
            {
                let ghost before = list_words(parts.take(k as int));
                let ghost part = parts[k as int];
                assert(parts.take(k + 1) =~= parts.take(k as int).push(part));
                proof {
                    lemma_list_words_push(parts.take(k as int), part);
                    lemma_spaced_concat(seq!["{"@] + before, seq![","@]);
                }
                if k > 0 {
                    push_word(out, ",");
                }
                proof {
                    assert(decreases_to!(*v => (*v)->Object_0));
                    assert(decreases_to!(*ms => ms@));
                    assert(decreases_to!(ms@ => ms@[k as int]));
                    assert(decreases_to!(ms@[k as int] => ms@[k as int].1));
                }
                let (name, value) = &ms[k];
                push_word(out, name.as_str());
                push_word(out, ":");
                write_value(value, out);
                proof {
                    let m = ms@[k as int];
                    assert(member_models(ms@)[k as int] == (m.0@, m.1.model()));
                    assert(part == seq![m.0@, ":"@] + value_words(m.1.model()));
                    let head = if k > 0 {
                        seq!["{"@] + before + seq![","@]
                    } else {
                        seq!["{"@] + before
                    };
                    lemma_spaced_concat(head, seq![m.0@, ":"@]);
                    lemma_spaced_concat(head + seq![m.0@, ":"@], value_words(m.1.model()));
                    assert(seq![m.0@, ":"@] =~= seq![m.0@] + seq![":"@]);
                    lemma_spaced_concat(seq![m.0@], seq![":"@]);
                    lemma_spaced_one(m.0@);
                    lemma_spaced_one(":"@);
                    lemma_spaced_one(","@);
                    if k > 0 {
                        assert(seq!["{"@] + list_words(parts.take(k + 1)) =~= head + seq![m.0@, ":"@]
                            + value_words(m.1.model()));
                    } else {
                        assert(seq!["{"@] + list_words(parts.take(k + 1)) =~= head + seq![m.0@, ":"@]
                            + value_words(m.1.model()));
                    }
                    assert(out@ =~= start + spaced(seq!["{"@] + list_words(parts.take(k + 1))));
                }
                k = k + 1;
            }
            push_word(out, "}");
            proof {
                assert(parts.take(k as int) =~= parts);
                lemma_spaced_concat(seq!["{"@] + list_words(parts), seq!["}"@]);
                lemma_spaced_one("}"@);
                assert(out@ =~= start + serialize(v.model()));
            }
        },
        JSONValue::Array(items) => {
            let ghost parts = element_parts(models(items@));
            proof {
                lemma_array_model(*items);
            }
            push_word(out, "[");
            let mut k: usize = 0;
            proof {
                assert(parts.take(0) =~= Seq::<Seq<Seq<char>>>::empty());
                assert(seq!["["@] + list_words(parts.take(0)) =~= seq!["["@]);
                lemma_spaced_one("["@);
            }
            while k < items.len()
                invariant
                    k <= items@.len(),
                    parts == element_parts(models(items@)),
                    *v == JSONValue::Array(*items),
                    out@ == start + spaced(seq!["["@] + list_words(parts.take(k as int))),
                decreases items@.len() - k,
            {
                let ghost before = list_words(parts.take(k as int));
                let ghost part = parts[k as int];
                assert(parts.take(k + 1) =~= parts.take(k as int).push(part));
                proof {
                    lemma_list_words_push(parts.take(k as int), part);
                    lemma_spaced_concat(seq!["["@] + before, seq![","@]);
                }
                if k > 0 {
                    push_word(out, ",");
                }
                proof {
                    assert(decreases_to!(*v => (*v)->Array_0));
                    assert(decreases_to!(*items => items@));
                    assert(decreases_to!(items@ => items@[k as int]));
                }
                write_value(&items[k], out);
                proof {
                    let x = items@[k as int];
                    assert(models(items@)[k as int] == x.model());
                    assert(part == value_words(x.model()));
                    let head = if k > 0 {
                        seq!["["@] + before + seq![","@]
                    } else {
                        seq!["["@] + before
                    };
                    lemma_spaced_concat(head, value_words(x.model()));
                    lemma_spaced_one(","@);
                    assert(seq!["["@] + list_words(parts.take(k + 1)) =~= head + value_words(
                        x.model(),
                    ));
                    assert(out@ =~= start + spaced(seq!["["@] + list_words(parts.take(k + 1))));
                }
                k = k + 1;
            }
            push_word(out, "]");
            proof {
                assert(parts.take(k as int) =~= parts);
                lemma_spaced_concat(seq!["["@] + list_words(parts), seq!["]"@]);
                lemma_spaced_one("]"@);
                assert(out@ =~= start + serialize(v.model()));
            }
        },
        JSONValue::StringLiteral(w) => {
            push_word(out, w.as_str());
            proof {
                lemma_spaced_one(w@);
            }
            assert(out@ =~= start + serialize(v.model()));
        },
        JSONValue::NumericLiteral(w) => {
            push_word(out, w.as_str());
            proof {
                lemma_spaced_one(w@);
            }
            assert(out@ =~= start + serialize(v.model()));
        },
        JSONValue::True => {
            push_word(out, "true");
            proof {
                lemma_spaced_one("true"@);
            }
            assert(out@ =~= start + serialize(v.model()));
        },
        JSONValue::False => {
            push_word(out, "false");
            proof {
                lemma_spaced_one("false"@);
            }
            assert(out@ =~= start + serialize(v.model()));
        },
        JSONValue::Null => {
            push_word(out, "null");
            proof {
                lemma_spaced_one("null"@);
            }
            assert(out@ =~= start + serialize(v.model()));
        },
    }
}

impl JSONValue {
    /// The text that spells this value: each token followed by one space.
    pub fn to_text(&self) -> (r: String)
        ensures
            r@ == serialize(self.model()),
    {
        let mut out = String::new();
        write_value(self, &mut out);
        assert(out@ =~= serialize(self.model()));
        out
    }
}

} // verus!
