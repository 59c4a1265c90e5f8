use vstd::prelude::*;
use crate::lexer::{Token, is_number_text, is_string_text, lex, spans};
use crate::parser::{colon_not_found, missing_comma, parse_elements, parse_members, parse_value};
use crate::value::Json;

verus! {

/// The texts of the structural tokens and keywords, spelled out.
pub proof fn lemma_words()
    ensures
        "{"@ == seq!['{'],
        "}"@ == seq!['}'],
        "["@ == seq!['['],
        "]"@ == seq![']'],
        ","@ == seq![','],
        ":"@ == seq![':'],
        "true"@ == seq!['t', 'r', 'u', 'e'],
        "false"@ == seq!['f', 'a', 'l', 's', 'e'],
        "null"@ == seq!['n', 'u', 'l', 'l'],
        "{"@.len() == 1 && "{"@[0] == '{',
        "}"@.len() == 1 && "}"@[0] == '}',
        "["@.len() == 1 && "["@[0] == '[',
        "]"@.len() == 1 && "]"@[0] == ']',
        ","@.len() == 1 && ","@[0] == ',',
        ":"@.len() == 1 && ":"@[0] == ':',
        "true"@.len() == 4 && "true"@[0] == 't',
        "false"@.len() == 5 && "false"@[0] == 'f',
        "null"@.len() == 4 && "null"@[0] == 'n',
{
    reveal_strlit("{");
    reveal_strlit("}");
    reveal_strlit("[");
    reveal_strlit("]");
    reveal_strlit(",");
    reveal_strlit(":");
    reveal_strlit("true");
    reveal_strlit("false");
    reveal_strlit("null");
    assert("{"@ =~= seq!['{']);
    assert("}"@ =~= seq!['}']);
    assert("["@ =~= seq!['[']);
    assert("]"@ =~= seq![']']);
    assert(","@ =~= seq![',']);
    assert(":"@ =~= seq![':']);
    assert("true"@ =~= seq!['t', 'r', 'u', 'e']);
    assert("false"@ =~= seq!['f', 'a', 'l', 's', 'e']);
    assert("null"@ =~= seq!['n', 'u', 'l', 'l']);
}

/// A structural token is neither a string literal nor a number.
proof fn lemma_structural_is_no_literal(w: Seq<char>)
    requires
        w.len() == 1,
        w[0] == '{' || w[0] == '}' || w[0] == '[' || w[0] == ']' || w[0] == ',' || w[0] == ':',
    ensures
        !is_string_text(w),
        !is_number_text(w),
{
    assert(w.drop_first().len() == 0);
}

/// A value cannot start at a `]`, a `}`, a `,` or a `:`.
pub proof fn lemma_no_value_at_closer(ws: Seq<Seq<char>>, pos: int)
    requires
        0 <= pos < ws.len(),
        ws[pos] == "]"@ || ws[pos] == "}"@ || ws[pos] == ","@ || ws[pos] == ":"@,
    ensures
        parse_value(ws, pos) is Err,
{
    lemma_words();
    lemma_structural_is_no_literal(ws[pos]);
    assert(ws[pos] != "{"@ && ws[pos] != "["@);
    assert(ws[pos] != "true"@ && ws[pos] != "false"@ && ws[pos] != "null"@);
}

/// A comma right before the closing bracket of an array is refused.
pub proof fn lemma_array_trailing_comma(ws: Seq<Seq<char>>, pos: int, acc: Seq<Json>)
    requires
        0 <= pos,
        pos + 1 < ws.len(),
        acc.len() > 0,
        ws[pos] == ","@,
        ws[pos + 1] == "]"@,
    ensures
        parse_elements(ws, pos, acc) is Err,
{
    lemma_words();
    assert(ws[pos][0] == ',');
    assert(ws[pos] != "]"@);
    lemma_no_value_at_closer(ws, pos + 1);
}

/// A comma right before the closing brace of an object is refused.
pub proof fn lemma_object_trailing_comma(
    ws: Seq<Seq<char>>,
    pos: int,
    acc: Seq<(Seq<char>, Json)>,
)
    requires
        0 <= pos,
        pos + 1 < ws.len(),
        acc.len() > 0,
        ws[pos] == ","@,
        ws[pos + 1] == "}"@,
    ensures
        parse_members(ws, pos, acc) is Err,
{
    lemma_words();
    assert(ws[pos][0] == ',');
    assert(ws[pos] != "}"@);
    lemma_no_value_at_closer(ws, pos + 1);
}

/// After an element, anything but a comma or the closing bracket is a
/// missing comma.
pub proof fn lemma_array_missing_comma(ws: Seq<Seq<char>>, pos: int, acc: Seq<Json>)
    requires
        0 <= pos < ws.len(),
        acc.len() > 0,
        ws[pos] != ","@,
        ws[pos] != "]"@,
    ensures
        parse_elements(ws, pos, acc) == Err::<(Json, int), Seq<char>>(missing_comma()),
{
}

/// After a member, anything but a comma or the closing brace is a missing
/// comma.
pub proof fn lemma_object_missing_comma(
    ws: Seq<Seq<char>>,
    pos: int,
    acc: Seq<(Seq<char>, Json)>,
)
    requires
        0 <= pos < ws.len(),
        acc.len() > 0,
        ws[pos] != ","@,
        ws[pos] != "}"@,
    ensures
        parse_members(ws, pos, acc) == Err::<(Json, int), Seq<char>>(missing_comma()),
{
}

/// An array or object that opens with a comma is refused.
pub proof fn lemma_leading_comma(ws: Seq<Seq<char>>, pos: int)
    requires
        0 <= pos,
        pos + 1 < ws.len(),
        ws[pos] == "["@ || ws[pos] == "{"@,
        ws[pos + 1] == ","@,
    ensures
        parse_value(ws, pos) is Err,
{
    lemma_words();
    assert(ws[pos + 1][0] == ',');
    assert(ws[pos + 1] != "]"@ && ws[pos + 1] != "}"@);
    lemma_no_value_at_closer(ws, pos + 1);
}

/// A string key followed by anything but `:` (or by nothing) fails with the
/// missing-colon error.
pub proof fn lemma_key_without_colon(ws: Seq<Seq<char>>, pos: int)
    requires
        0 <= pos,
        pos + 1 < ws.len(),
        ws[pos] == "{"@,
        is_string_text(ws[pos + 1]),
        pos + 2 >= ws.len() || ws[pos + 2] != ":"@,
    ensures
        parse_value(ws, pos) == Err::<(Json, int), Seq<char>>(colon_not_found()),
{
    lemma_words();
    let w = ws[pos + 1];
    assert(w[0] == '"');
    assert(w != "}"@ && w != "{"@ && w != "["@ && w != "true"@ && w != "false"@ && w
        != "null"@);
    assert(parse_value(ws, pos + 1) == Ok::<(Json, int), Seq<char>>((Json::Str(w), pos + 2)));
    assert(parse_members(ws, pos + 1, Seq::empty()) == Err::<(Json, int), Seq<char>>(
        colon_not_found(),
    ));
}

/// Tokenizing is a function of the text: two token sequences that both meet
/// `tokenize`'s contract for one text are equal.
pub proof fn lemma_tokenize_deterministic(s: Seq<char>, a: Seq<Token>, b: Seq<Token>)
    requires
        spans(a) == lex(s, 0),
        spans(b) == lex(s, 0),
    ensures
        a == b,
{
    assert(a.len() == spans(a).len() && b.len() == spans(b).len());
    assert forall|k: int| 0 <= k < a.len() implies a[k] == b[k] by {
        assert(spans(a)[k] == spans(b)[k]);
    }
    assert(a =~= b);
}

} // verus!
