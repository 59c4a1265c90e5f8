use json_parser::{JSONParser, JSONValue, ParseError, parse, tokenize};

fn s(x: &str) -> String {
    x.to_string()
}

fn num(x: &str) -> JSONValue {
    JSONValue::NumericLiteral(s(x))
}

fn string(x: &str) -> JSONValue {
    JSONValue::StringLiteral(s(x))
}

fn err(x: &str) -> ParseError {
    ParseError::new(s(x))
}

#[test]
fn it_works() {
    let jsonstr = r#"
    { "hello" : "world" ,
      "red" : 1.0  , 
       "ages" : [ 45 , 65.7e6 ] , 
      "person" : { 
          "name" : "adarsh"
      }
     }
    "#;

    let mut jp = JSONParser::new(jsonstr);
    let expected = JSONValue::Object(vec![
        (s("\"hello\""), string("\"world\"")),
        (s("\"red\""), num("1.0")),
        (s("\"ages\""), JSONValue::Array(vec![num("45"), num("65.7e6")])),
        (
            s("\"person\""),
            JSONValue::Object(vec![(s("\"name\""), string("\"adarsh\""))]),
        ),
    ]);
    assert_eq!(jp.parse(), Ok(expected));
}

#[test]
fn test() {}

#[test]
fn older_inputs_parse() {
    let unquoted_names = r#"
    {
        name: "adarsh",
        age: 53
    }"#;
    assert_eq!(parse(unquoted_names), Err(err("name")));

    let mixed = r#"
    [ "true" , "false" , [ "null" ] , "adarsh" , 1.32 ]
    "#;
    assert_eq!(
        parse(mixed),
        Ok(JSONValue::Array(vec![
            string("\"true\""),
            string("\"false\""),
            JSONValue::Array(vec![string("\"null\"")]),
            string("\"adarsh\""),
            num("1.32"),
        ]))
    );

    let nested = r#"
    [ 1 , 2, [ 3 ] ]
    "#;
    assert_eq!(
        parse(nested),
        Ok(JSONValue::Array(vec![num("1"), num("2"), JSONValue::Array(vec![num("3")])]))
    );
}

#[test]
fn empty_containers() {
    assert_eq!(parse("[]"), Ok(JSONValue::Array(vec![])));
    assert_eq!(parse("{}"), Ok(JSONValue::Object(vec![])));
    assert_eq!(parse(" [ ] "), Ok(JSONValue::Array(vec![])));
}

#[test]
fn comma_strictness() {
    assert!(parse("[1,2,]").is_err());
    assert!(parse("{\"a\":1,}").is_err());
    assert_eq!(parse("[1 2]"), Err(err("Missing comma")));
    assert_eq!(parse("[,1]"), Err(err(",")));
    assert_eq!(parse("[1,2,]"), Err(err("]")));
    assert_eq!(parse("{\"a\":1,}"), Err(err("}")));
}

#[test]
fn nesting() {
    let expected = JSONValue::Object(vec![(
        s("\"a\""),
        JSONValue::Array(vec![num("1"), JSONValue::Object(vec![(s("\"b\""), num("2"))])]),
    )]);
    assert_eq!(parse("{\"a\":[1,{\"b\":2}]}"), Ok(expected));
}

#[test]
fn scalars() {
    assert_eq!(parse("true"), Ok(JSONValue::True));
    assert_eq!(parse("false"), Ok(JSONValue::False));
    assert_eq!(parse("null"), Ok(JSONValue::Null));
    assert_eq!(parse("42"), Ok(num("42")));
    assert_eq!(parse("\"hi\""), Ok(string("\"hi\"")));
    assert_eq!(parse("\"true\""), Ok(string("\"true\"")));
    assert_eq!(parse("-0.5E+3"), Ok(num("-0.5E+3")));
}

#[test]
fn missing_colon() {
    assert_eq!(parse("{\"a\" 1}"), Err(err(": not found")));
    assert_eq!(parse("{\"a\""), Err(err(": not found")));
}

#[test]
fn other_errors() {
    assert_eq!(parse(""), Err(err("Unexpected end of input")));
    assert_eq!(parse("   "), Err(err("Unexpected end of input")));
    assert_eq!(parse("[1,"), Err(err("Unexpected end of input")));
    assert_eq!(parse("[1"), Err(err("Incomplete input")));
    assert_eq!(parse("{1:2}"), Err(err("key must be a string")));
    assert_eq!(parse("nope"), Err(err("nope")));
    assert_eq!(parse("@"), Err(err("@")));
    assert_eq!(parse("1.5e"), Err(err("1.5e")));
    assert_eq!(parse("\"open"), Err(err("\"open")));
}

#[test]
fn order_and_duplicates() {
    let expected = JSONValue::Object(vec![
        (s("\"b\""), num("1")),
        (s("\"a\""), num("2")),
        (s("\"b\""), num("3")),
    ]);
    assert_eq!(parse("{\"b\":1,\"a\":2,\"b\":3}"), Ok(expected));
}

#[test]
fn strings_with_spaces_and_escapes() {
    assert_eq!(parse("\"a b\""), Ok(string("\"a b\"")));
    assert_eq!(parse(r#""say \"hi\"""#), Ok(string(r#""say \"hi\"""#)));
    assert_eq!(parse(r#"["x\\", 1]"#), Ok(JSONValue::Array(vec![string(r#""x\\""#), num("1")])));
}

#[test]
fn token_texts() {
    let texts = JSONParser::tokenize("{\"a b\": [-1.5e3, true]}\n");
    let expected: Vec<String> = vec!["{", "\"a b\"", ":", "[", "-1.5e3", ",", "true", "]", "}"]
        .into_iter()
        .map(s)
        .collect();
    assert_eq!(texts, expected);
    assert_eq!(JSONParser::tokenize("01"), vec![s("0"), s("1")]);
    assert_eq!(JSONParser::tokenize("+x"), vec![s("+"), s("x")]);
}

#[test]
fn tokenize_twice_is_the_same() {
    let text = "{\"k\": [1, 2.5, null]}";
    assert_eq!(tokenize(text), tokenize(text));
    assert_eq!(JSONParser::tokenize(text), JSONParser::tokenize(text));
    let spans: Vec<(usize, usize)> = tokenize(" [ab]").iter().map(|t| (t.start, t.end)).collect();
    assert_eq!(spans, vec![(1, 2), (2, 4), (4, 5)]);
}

#[test]
fn shape_checks() {
    assert!(JSONParser::is_string("\"x\""));
    assert!(JSONParser::is_string("\"\""));
    assert!(!JSONParser::is_string("\""));
    assert!(!JSONParser::is_string("\"a\\\""));
    assert!(!JSONParser::is_string("\"a\"b\""));
    assert!(JSONParser::is_number("0"));
    assert!(JSONParser::is_number("-12.5e-7"));
    assert!(!JSONParser::is_number("01"));
    assert!(!JSONParser::is_number("1."));
    assert!(!JSONParser::is_number("+1"));
    assert!(!JSONParser::is_number(""));
}

#[test]
fn cursor_moves() {
    let mut p = JSONParser::new("[ 1 ]");
    assert_eq!(p.peek_token().map(|t| t.start), Some(0));
    assert_eq!(p.next_token().map(|t| t.start), Some(0));
    assert_eq!(p.next_token().map(|t| t.start), Some(2));
    p.unread_token();
    assert_eq!(p.peek_token().map(|t| t.start), Some(2));
    assert_eq!(p.parseNumber(), Ok(num("1")));
    assert_eq!(p.next_token().map(|t| t.start), Some(4));
    assert_eq!(p.next_token(), None);
    assert_eq!(p.peek_token(), None);
}

#[test]
fn parse_is_repeatable() {
    let text = "{\"a\":[1,{\"b\":2}],\"c\":\"d e\",\"f\":[true,false,null]}";
    let first = parse(text).unwrap();
    let again = parse(text).unwrap();
    assert_eq!(first, again);
}

#[test]
fn to_text_spells_each_token() {
    let v = parse("{\"a\":[1,{\"b\":2}],\"c\":true}").unwrap();
    assert_eq!(v.to_text(), "{ \"a\" : [ 1 , { \"b\" : 2 } ] , \"c\" : true } ");
    assert_eq!(JSONValue::Null.to_text(), "null ");
    assert_eq!(JSONValue::Array(vec![]).to_text(), "[ ] ");
}

#[test]
fn reparse_gives_same_tree() {
    let texts = [
        "{\"a\":[1,{\"b\":2}],\"c\":\"d e\",\"f\":[true,false,null]}",
        "[[],{},[[]],-0.5e10,\"x\\\"y\"]",
        "{\"k\":1,\"k\":2}",
        "\"hi\"",
        "0",
    ];
    for text in texts.iter() {
        let first = parse(text).unwrap();
        let again = parse(&first.to_text()).unwrap();
        assert_eq!(first, again);
    }
}
