use vstd::prelude::*;
use crate::lexer::{
    Token, is_number_text, is_string_text, lex, lex_chars, lemma_lex_spans, number_text_check,
    spans, string_text_check, texts,
};
use crate::text::{chars_of, span_chars, span_equals, span_string};
use crate::value::{
    JSONValue, Json, lemma_array_model, lemma_object_model, member_models, models,
};

verus! {

/// A parse failure: the text of the token that could not be used, or a
/// message where no single token is to blame.
#[derive(Debug, PartialEq)]
pub struct ParseError {
    pub token: String,
}

impl ParseError {
    pub fn new(token: String) -> (r: ParseError)
        ensures
            r.token@ == token@,
    {
        ParseError { token }
    }
}

pub open spec fn end_of_input() -> Seq<char> {
    "Unexpected end of input"@
}

pub open spec fn incomplete_input() -> Seq<char> {
    "Incomplete input"@
}

pub open spec fn missing_comma() -> Seq<char> {
    "Missing comma"@
}

pub open spec fn colon_not_found() -> Seq<char> {
    ": not found"@
}

pub open spec fn key_not_string() -> Seq<char> {
    "key must be a string"@
}

/// What a value read from the token texts `ws` at `pos` is, with the position
/// just past it, or the failure.
pub type Step = Result<(Json, int), Seq<char>>;

/// Reads one value at `pos`: the token there decides its kind.
pub open spec fn parse_value(ws: Seq<Seq<char>>, pos: int) -> Step
    decreases ws.len() - pos, 0int,
{
    if pos < 0 || pos >= ws.len() {
        Err(end_of_input())
    } else if ws[pos] == "{"@ {
        parse_members(ws, pos + 1, Seq::empty())
    } else if ws[pos] == "["@ {
        parse_elements(ws, pos + 1, Seq::empty())
    } else if ws[pos] == "true"@ {
        Ok((Json::True, pos + 1))
    } else if ws[pos] == "false"@ {
        Ok((Json::False, pos + 1))
    } else if ws[pos] == "null"@ {
        Ok((Json::Null, pos + 1))
    } else if is_string_text(ws[pos]) {
        Ok((Json::Str(ws[pos]), pos + 1))
    } else if is_number_text(ws[pos]) {
        Ok((Json::Num(ws[pos]), pos + 1))
    } else {
        Err(ws[pos])
    }
}

/// Reads the rest of an array whose elements so far are `acc`, from `pos`,
/// where a `]` or (after the first element) a `,` is due.
/// A value always ends past where it starts (`lemma_value_advances`), so the
/// test `pos < next` only keeps the definition well-founded.
pub open spec fn parse_elements(ws: Seq<Seq<char>>, pos: int, acc: Seq<Json>) -> Step
    decreases ws.len() - pos, 1int,
{
    if pos < 0 || pos >= ws.len() {
        Err(incomplete_input())
    } else if ws[pos] == "]"@ {
        Ok((Json::Array(acc), pos + 1))
    } else if acc.len() > 0 && ws[pos] != ","@ {
        Err(missing_comma())
    } else {
        let start = if acc.len() > 0 {
            pos + 1
        } else {
            pos
        };
        match parse_value(ws, start) {
            Ok((v, next)) => if pos < next <= ws.len() {
                parse_elements(ws, next, acc.push(v))
            } else {
                Err(incomplete_input())
            },
            Err(e) => Err(e),
        }
    }
}

/// Reads the rest of an object whose members so far are `acc`, from `pos`,
/// where a `}` or (after the first member) a `,` is due.
pub open spec fn parse_members(ws: Seq<Seq<char>>, pos: int, acc: Seq<(Seq<char>, Json)>) -> Step
    decreases ws.len() - pos, 1int,
{
    if pos < 0 || pos >= ws.len() {
        Err(incomplete_input())
    } else if ws[pos] == "}"@ {
        Ok((Json::Object(acc), pos + 1))
    } else if acc.len() > 0 && ws[pos] != ","@ {
        Err(missing_comma())
    } else {
        let start = if acc.len() > 0 {
            pos + 1
        } else {
            pos
        };
        match parse_value(ws, start) {
            Ok((key, colon)) => if !(key is Str) {
                Err(key_not_string())
            } else if colon <= pos || colon >= ws.len() || ws[colon] != ":"@ {
                Err(colon_not_found())
            } else {
                match parse_value(ws, colon + 1) {
                    Ok((v, next)) => if pos < next <= ws.len() {
                        parse_members(ws, next, acc.push((key->Str_0, v)))
                    } else {
                        Err(incomplete_input())
                    },
                    Err(e) => Err(e),
                }
            },
            Err(e) => Err(e),
        }
    }
}

/// A value that is read ends past where it starts and within the tokens.
pub proof fn lemma_value_advances(ws: Seq<Seq<char>>, pos: int)
    ensures
        parse_value(ws, pos) matches Ok((_, next)) ==> pos < next <= ws.len(),
    decreases ws.len() - pos, 0int,
{
    if 0 <= pos < ws.len() {
        if ws[pos] == "{"@ {
            lemma_members_advance(ws, pos + 1, Seq::empty());
        } else if ws[pos] == "["@ {
            lemma_elements_advance(ws, pos + 1, Seq::empty());
        }
    }
}

proof fn lemma_elements_advance(ws: Seq<Seq<char>>, pos: int, acc: Seq<Json>)
    ensures
        parse_elements(ws, pos, acc) matches Ok((_, next)) ==> pos < next <= ws.len(),
    decreases ws.len() - pos, 1int,
{
    if 0 <= pos < ws.len() && ws[pos] != "]"@ && !(acc.len() > 0 && ws[pos] != ","@) {
        let start = if acc.len() > 0 {
            pos + 1
        } else {
            pos
        };
        if let Ok((x, next)) = parse_value(ws, start) {
            if pos < next <= ws.len() {
                lemma_elements_advance(ws, next, acc.push(x));
            }
        }
    }
}

proof fn lemma_members_advance(ws: Seq<Seq<char>>, pos: int, acc: Seq<(Seq<char>, Json)>)
    ensures
        parse_members(ws, pos, acc) matches Ok((_, next)) ==> pos < next <= ws.len(),
    decreases ws.len() - pos, 1int,
{
    if 0 <= pos < ws.len() && ws[pos] != "}"@ && !(acc.len() > 0 && ws[pos] != ","@) {
        let start = if acc.len() > 0 {
            pos + 1
        } else {
            pos
        };
        if let Ok((key, colon)) = parse_value(ws, start) {
            if key is Str && pos < colon < ws.len() && ws[colon] == ":"@ {
                if let Ok((x, next)) = parse_value(ws, colon + 1) {
                    if pos < next <= ws.len() {
                        lemma_members_advance(ws, next, acc.push((key->Str_0, x)));
                    }
                }
            }
        }
    }
}

/// What parsing the text `s` gives: the value that its first tokens form.
pub open spec fn parse_text(s: Seq<char>) -> Result<Json, Seq<char>> {
    match parse_value(texts(s, lex(s, 0)), 0) {
        Ok((v, _)) => Ok(v),
        Err(e) => Err(e),
    }
}

/// `r` is what `step` describes, and a success leaves the cursor at `next`.
pub open spec fn outcome(step: Step, r: &Result<JSONValue, ParseError>, next: int) -> bool {
    match step {
        Ok((m, n)) => match r {
            Ok(v) => v.model() == m && next == n,
            Err(_) => false,
        },
        Err(e) => match r {
            Ok(_) => false,
            Err(err) => err.token@ == e,
        },
    }
}

/// A cursor over the tokens of a text, with lookahead and one-step rewind.
pub struct JSONParser {
    text: Vec<char>,
    tokens: Vec<Token>,
    token_ix: usize,
}

impl JSONParser {
    /// The tokens are those of the text, and the cursor is within them.
    pub closed spec fn wf(&self) -> bool {
        &&& spans(self.tokens@) == lex(self.text@, 0)
        &&& self.token_ix <= self.tokens@.len()
        &&& forall|k: int|
            0 <= k < self.tokens@.len() ==> (#[trigger] self.tokens@[k]).start < self.tokens@[k].end
                <= self.text@.len()
    }

    pub closed spec fn source(&self) -> Seq<char> {
        self.text@
    }

    pub closed spec fn pos(&self) -> int {
        self.token_ix as int
    }

    pub closed spec fn len(&self) -> int {
        self.tokens@.len() as int
    }

    /// The token at index `k`.
    pub closed spec fn token_at(&self, k: int) -> Token {
        self.tokens@[k]
    }

    /// The token texts, in order.
    pub closed spec fn words(&self) -> Seq<Seq<char>> {
        texts(self.text@, spans(self.tokens@))
    }

    /// `self` reads the same tokens of the same text as `other`.
    pub closed spec fn same_tokens(&self, other: &JSONParser) -> bool {
        self.text@ == other.text@ && self.tokens@ == other.tokens@
    }

    /// A cursor at the first token of `s`.
    pub fn new(s: &str) -> (r: JSONParser)
        ensures
            r.wf(),
            r.source() == s@,
            r.pos() == 0,
            r.words() == texts(s@, lex(s@, 0)),
    {
        let text = chars_of(s);
        let tokens = lex_chars(&text);
        proof {
            lemma_lex_spans(text@, 0);
            assert forall|k: int| 0 <= k < tokens@.len() implies (#[trigger] tokens@[k]).start
                < tokens@[k].end <= text@.len() by {
                assert(spans(tokens@).len() == tokens@.len());
                let sp = lex(text@, 0)[k];
                assert(spans(tokens@)[k] == sp);
                assert(sp.0 < sp.1 <= text@.len());
            }
        }
        JSONParser { text, tokens, token_ix: 0 }
    }

    /// Reads the value at the cursor.
    pub fn parse(&mut self) -> (r: Result<JSONValue, ParseError>)
        requires
            old(self).wf(),
        ensures
            final(self).wf(),
            final(self).same_tokens(old(self)),
            outcome(parse_value(old(self).words(), old(self).pos()), &r, final(self).pos()),
    {
        self.parseValue()
    }

    /// The texts of the tokens of `s`, in order.
    pub fn tokenize(s: &str) -> (r: Vec<String>)
        ensures
            r@.len() == lex(s@, 0).len(),
            forall|k: int| 0 <= k < r@.len() ==> #[trigger] r@[k]@ == texts(s@, lex(s@, 0))[k],
    {
        let p = JSONParser::new(s);
        let mut out: Vec<String> = Vec::new();
        let mut k: usize = 0;
        while k < p.tokens.len()
            invariant
                p.wf(),
                p.text@ == s@,
                k <= p.tokens@.len(),
                out@.len() == k,
                forall|m: int| 0 <= m < k ==> #[trigger] out@[m]@ == p.words()[m],
            decreases p.tokens@.len() - k,
        {
            let t = p.tokens[k];
            out.push(span_string(&p.text, t.start, t.end));
            k = k + 1;
        }
        out
    }

    /// Moves past the token at the cursor and returns it; `None` at the end.
    pub fn next_token(&mut self) -> (r: Option<Token>)
        requires
            old(self).wf(),
        ensures
            final(self).wf(),
            final(self).same_tokens(old(self)),
            old(self).pos() < old(self).len() ==> r == Some(old(self).token_at(old(self).pos()))
                && final(self).pos() == old(self).pos() + 1,
            old(self).pos() >= old(self).len() ==> r is None && final(self).pos() == old(self).pos(),
    {
        if self.token_ix < self.tokens.len() {
            let t = self.tokens[self.token_ix];
            self.token_ix = self.token_ix + 1;
            Some(t)
        } else {
            None
        }
    }

    /// Steps the cursor back over the token that was read last.
    pub fn unread_token(&mut self)
        requires
            old(self).wf(),
            old(self).pos() > 0,
        ensures
            final(self).wf(),
            final(self).same_tokens(old(self)),
            final(self).pos() == old(self).pos() - 1,
    {
        self.token_ix = self.token_ix - 1;
    }

    /// The token at the cursor, which stays where it is.
    pub fn peek_token(&mut self) -> (r: Option<Token>)
        requires
            old(self).wf(),
        ensures
            final(self).wf(),
            final(self).same_tokens(old(self)),
            final(self).pos() == old(self).pos(),
            old(self).pos() < old(self).len() ==> r == Some(old(self).token_at(old(self).pos())),
            old(self).pos() >= old(self).len() ==> r is None,
    {
        let t = self.next_token();
        if t.is_some() {
            self.unread_token();
        }
        t
    }

    /// Whether `s` is a string literal: quoted, with its closing quote last.
    pub fn is_string(s: &str) -> (r: bool)
        ensures
            r == is_string_text(s@),
    {
        string_text_check(&chars_of(s))
    }

    /// Whether `s` is a JSON number.
    pub fn is_number(s: &str) -> (r: bool)
        ensures
            r == is_number_text(s@),
    {
        number_text_check(&chars_of(s))
    }

    fn token_is(&self, t: Token, w: &str) -> (r: bool)
        requires
            t.start < t.end <= self.text@.len(),
        ensures
            r == (self.text@.subrange(t.start as int, t.end as int) == w@),
    {
        span_equals(&self.text, t.start, t.end, w)
    }
}

} // verus!

verus! {

#[allow(non_snake_case)]
impl JSONParser {
    /// Reads one value: the token at the cursor picks an object, an array, a
    /// keyword, a string or a number.
    pub fn parseValue(&mut self) -> (r: Result<JSONValue, ParseError>)
        requires
            old(self).wf(),
        ensures
            final(self).wf(),
            final(self).same_tokens(old(self)),
            outcome(parse_value(old(self).words(), old(self).pos()), &r, final(self).pos()),
            r is Ok ==> old(self).pos() < final(self).pos(),
        decreases old(self).len() - old(self).pos(), 1int,
    {
        let ghost ws = self.words();
        let tok = self.peek_token();
        match tok {
            None => Err(ParseError::new("Unexpected end of input".to_owned())),
            Some(t) => {
                assert(ws[self.pos()] == self.text@.subrange(t.start as int, t.end as int));
                if self.token_is(t, "{") {
                    self.parseObject()
                } else if self.token_is(t, "[") {
                    self.parseArray()
                } else if self.token_is(t, "true") {
                    self.parseTrue()
                } else if self.token_is(t, "false") {
                    self.parseFalse()
                } else if self.token_is(t, "null") {
                    self.parseNull()
                } else {
                    let w = span_chars(&self.text, t.start, t.end);
                    if string_text_check(&w) {
                        self.parseString()
                    } else if number_text_check(&w) {
                        self.parseNumber()
                    } else {
                        Err(ParseError::new(span_string(&self.text, t.start, t.end)))
                    }
                }
            },
        }
    }

    /// Reads an array, from its `[` to its `]`.
    pub fn parseArray(&mut self) -> (r: Result<JSONValue, ParseError>)
        requires
            old(self).wf(),
            old(self).pos() < old(self).len(),
        ensures
            final(self).wf(),
            final(self).same_tokens(old(self)),
            outcome(
                parse_elements(old(self).words(), old(self).pos() + 1, Seq::empty()),
                &r,
                final(self).pos(),
            ),
            r is Ok ==> old(self).pos() < final(self).pos(),
        decreases old(self).len() - old(self).pos(), 0int,
    {
        let ghost ws = self.words();
        let ghost start = self.pos() + 1;
        let mut array: Vec<JSONValue> = Vec::new();
        self.next_token();
        assert(models(array@) =~= Seq::<Json>::empty());
        loop
            invariant
                self.wf(),
                self.same_tokens(old(self)),
                ws == self.words(),
                ws == old(self).words(),
                start == old(self).pos() + 1,
                start <= self.pos(),
                parse_elements(ws, self.pos(), models(array@)) == parse_elements(ws, start, Seq::empty()),
            decreases self.len() - self.pos(),
        {
            let ghost here = self.pos();
            match self.next_token() {
                None => {
                    return Err(ParseError::new("Incomplete input".to_owned()));
                },
                Some(t) => {
                    assert(ws[here] == self.text@.subrange(t.start as int, t.end as int));
                    if self.token_is(t, "]") {
                        proof {
                            lemma_array_model(array);
                        }
                        let r = JSONValue::Array(array);
                        return Ok(r);
                    }
                    if array.len() > 0 {
                        if !self.token_is(t, ",") {
                            return Err(ParseError::new("Missing comma".to_owned()));
                        }
                    } else {
                        self.unread_token();
                    }
                    match self.parseValue() {
                        Ok(jv) => {
                            let ghost before = array@;
                            array.push(jv);
                            assert(models(array@) =~= models(before).push(jv.model()));
                        },
                        Err(e) => {
                            return Err(e);
                        },
                    }
                },
            }
        }
    }

    /// Reads an object, from its `{` to its `}`: members are `name : value`
    /// pairs, kept in source order.
    pub fn parseObject(&mut self) -> (r: Result<JSONValue, ParseError>)
        requires
            old(self).wf(),
            old(self).pos() < old(self).len(),
        ensures
            final(self).wf(),
            final(self).same_tokens(old(self)),
            outcome(
                parse_members(old(self).words(), old(self).pos() + 1, Seq::empty()),
                &r,
                final(self).pos(),
            ),
            r is Ok ==> old(self).pos() < final(self).pos(),
        decreases old(self).len() - old(self).pos(), 0int,
    {
        let ghost ws = self.words();
        let ghost start = self.pos() + 1;
        let mut attrs: Vec<(String, JSONValue)> = Vec::new();
        self.next_token();
        assert(member_models(attrs@) =~= Seq::<(Seq<char>, Json)>::empty());
        loop
            invariant
                self.wf(),
                self.same_tokens(old(self)),
                ws == self.words(),
                ws == old(self).words(),
                start == old(self).pos() + 1,
                start <= self.pos(),
                parse_members(ws, self.pos(), member_models(attrs@)) == parse_members(
                    ws,
                    start,
                    Seq::empty(),
                ),
            decreases self.len() - self.pos(),
        {
            let ghost here = self.pos();
            match self.next_token() {
                None => {
                    return Err(ParseError::new("Incomplete input".to_owned()));
                },
                Some(t) => {
                    assert(ws[here] == self.text@.subrange(t.start as int, t.end as int));
                    if self.token_is(t, "}") {
                        proof {
                            lemma_object_model(attrs);
                        }
                        let r = JSONValue::Object(attrs);
                        return Ok(r);
                    }
                    if attrs.len() > 0 {
                        if !self.token_is(t, ",") {
                            return Err(ParseError::new("Missing comma".to_owned()));
                        }
                    } else {
                        self.unread_token();
                    }
                    let name = match self.parseValue() {
                        Ok(JSONValue::StringLiteral(name)) => name,
                        Ok(_) => {
                            return Err(ParseError::new("key must be a string".to_owned()));
                        },
                        Err(e) => {
                            return Err(e);
                        },
                    };
                    let ghost colon_at = self.pos();
                    let colon = self.next_token();
                    match colon {
                        Some(c) => {
                            assert(ws[colon_at] == self.text@.subrange(c.start as int, c.end as int));
                            if !self.token_is(c, ":") {
                                return Err(ParseError::new(": not found".to_owned()));
                            }
                        },
                        None => {
                            return Err(ParseError::new(": not found".to_owned()));
                        },
                    }
                    match self.parseValue() {
                        Ok(attr) => {
                            let ghost before = attrs@;
                            attrs.push((name, attr));
                            assert(member_models(attrs@) =~= member_models(before).push(
                                (name@, attr.model()),
                            ));
                        },
                        Err(e) => {
                            return Err(e);
                        },
                    }
                },
            }
        }
    }

    /// Reads the keyword `true` at the cursor.
    pub fn parseTrue(&mut self) -> (r: Result<JSONValue, ParseError>)
        requires
            old(self).wf(),
            old(self).pos() < old(self).len(),
        ensures
            final(self).wf(),
            final(self).same_tokens(old(self)),
            final(self).pos() == old(self).pos() + 1,
            r matches Ok(JSONValue::True),
    {
        self.next_token();
        Ok(JSONValue::True)
    }

    /// Reads the keyword `false` at the cursor.
    pub fn parseFalse(&mut self) -> (r: Result<JSONValue, ParseError>)
        requires
            old(self).wf(),
            old(self).pos() < old(self).len(),
        ensures
            final(self).wf(),
            final(self).same_tokens(old(self)),
            final(self).pos() == old(self).pos() + 1,
            r matches Ok(JSONValue::False),
    {
        self.next_token();
        Ok(JSONValue::False)
    }

    /// Reads the keyword `null` at the cursor.
    pub fn parseNull(&mut self) -> (r: Result<JSONValue, ParseError>)
        requires
            old(self).wf(),
            old(self).pos() < old(self).len(),
        ensures
            final(self).wf(),
            final(self).same_tokens(old(self)),
            final(self).pos() == old(self).pos() + 1,
            r matches Ok(JSONValue::Null),
    {
        self.next_token();
        Ok(JSONValue::Null)
    }

    /// Reads the token at the cursor as a string literal, quotes and all.
    pub fn parseString(&mut self) -> (r: Result<JSONValue, ParseError>)
        requires
            old(self).wf(),
            old(self).pos() < old(self).len(),
        ensures
            final(self).wf(),
            final(self).same_tokens(old(self)),
            final(self).pos() == old(self).pos() + 1,
            r matches Ok(JSONValue::StringLiteral(s)) && s@ == old(self).words()[old(self).pos()],
    {
        let t = self.tokens[self.token_ix];
        self.next_token();
        Ok(JSONValue::StringLiteral(span_string(&self.text, t.start, t.end)))
    }

    /// Reads the token at the cursor as a number, kept as its text.
    pub fn parseNumber(&mut self) -> (r: Result<JSONValue, ParseError>)
        requires
            old(self).wf(),
            old(self).pos() < old(self).len(),
        ensures
            final(self).wf(),
            final(self).same_tokens(old(self)),
            final(self).pos() == old(self).pos() + 1,
            r matches Ok(JSONValue::NumericLiteral(s)) && s@ == old(self).words()[old(self).pos()],
    {
        let t = self.tokens[self.token_ix];
        self.next_token();
        Ok(JSONValue::NumericLiteral(span_string(&self.text, t.start, t.end)))
    }
}

/// `r` is what `expected` describes.
pub open spec fn parsed(expected: Result<Json, Seq<char>>, r: &Result<JSONValue, ParseError>) -> bool {
    match expected {
        Ok(m) => match r {
            Ok(v) => v.model() == m,
            Err(_) => false,
        },
        Err(e) => match r {
            Ok(_) => false,
            Err(err) => err.token@ == e,
        },
    }
}

/// Parses `text` into a value tree, or says why it cannot.
pub fn parse(text: &str) -> (r: Result<JSONValue, ParseError>)
    ensures
        parsed(parse_text(text@), &r),
{
    let mut p = JSONParser::new(text);
    p.parse()
}

} // verus!
