use json_parser::{JSONValue, decode_string, parse};

#[test]
fn decodes_simple_escapes() {
    assert_eq!(decode_string(r#""plain""#), Some("plain".to_string()));
    assert_eq!(decode_string(r#""a\nb""#), Some("a\nb".to_string()));
    assert_eq!(
        decode_string(r#""\"\\\/\b\f\n\r\t""#),
        Some("\"\\/\u{8}\u{c}\n\r\t".to_string())
    );
    assert_eq!(decode_string(r#""""#), Some(String::new()));
}

#[test]
fn decodes_unicode_escapes() {
    assert_eq!(decode_string(r#""\u00e9""#), Some("\u{e9}".to_string()));
    assert_eq!(decode_string(r#""\u00E9x""#), Some("\u{e9}x".to_string()));
    assert_eq!(decode_string(r#""\ud83d\ude00""#), Some("\u{1F600}".to_string()));
    assert_eq!(decode_string(r#""\u0041\u0042""#), Some("AB".to_string()));
}

#[test]
fn rejects_bad_literals() {
    assert_eq!(decode_string("plain"), None);
    assert_eq!(decode_string(r#""\x""#), None);
    assert_eq!(decode_string(r#""\u12""#), None);
    assert_eq!(decode_string(r#""\u12g4""#), None);
    assert_eq!(decode_string(r#""\ud83d""#), None);
    assert_eq!(decode_string(r#""\ude00""#), None);
    assert_eq!(decode_string(r#""\ud83dA""#), None);
    assert_eq!(decode_string("\"a\\\""), None);
}

#[test]
fn decodes_parsed_names() {
    match parse(r#"{"caf\u00e9": "x\ty"}"#) {
        Ok(JSONValue::Object(members)) => {
            assert_eq!(members.len(), 1);
            assert_eq!(decode_string(&members[0].0), Some("caf\u{e9}".to_string()));
            match &members[0].1 {
                JSONValue::StringLiteral(v) => {
                    assert_eq!(decode_string(v), Some("x\ty".to_string()));
                }
                other => panic!("unexpected value {:?}", other),
            }
        }
        other => panic!("unexpected parse {:?}", other),
    }
}
