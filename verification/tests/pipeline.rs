use json_tree::decode_and_render;
use json_tree::parser::{parse, ParseContext, ParseError};
use json_tree::render::render;
use json_tree::tokenizer::{tokenize, LexError};
use json_tree::value::{JsonValue, Token};

fn scan(s: &str) -> Vec<Token> {
    tokenize(s).expect("expected the text to scan")
}

fn scan_err(s: &str) -> LexError {
    tokenize(s).err().expect("expected a lexical error")
}

fn parse_text(s: &str) -> JsonValue {
    parse(scan(s)).expect("expected the tokens to parse")
}

fn parse_text_err(s: &str) -> ParseError {
    parse(scan(s)).err().expect("expected a parse error")
}

fn values_equal(a: &JsonValue, b: &JsonValue) -> bool {
    match (a, b) {
        (JsonValue::Null, JsonValue::Null) => true,
        (JsonValue::Bool(x), JsonValue::Bool(y)) => x == y,
        (JsonValue::Num(x), JsonValue::Num(y)) => x == y,
        (JsonValue::Str(x), JsonValue::Str(y)) => x == y,
        (JsonValue::Array(x), JsonValue::Array(y)) => {
            x.len() == y.len() && x.iter().zip(y.iter()).all(|(u, v)| values_equal(u, v))
        }
        (JsonValue::Object(x), JsonValue::Object(y)) => {
            x.len() == y.len()
                && x.iter()
                    .zip(y.iter())
                    .all(|(u, v)| u.0 == v.0 && values_equal(&u.1, &v.1))
        }
        _ => false,
    }
}

#[test]
fn scan_empty_input_yields_no_tokens() {
    let toks = scan("");
    assert_eq!(toks.len(), 0);
}

#[test]
fn scan_null_literal() {
    let toks = scan("null");
    assert_eq!(toks.len(), 1);
    assert!(matches!(toks[0], Token::Null));
}

#[test]
fn scan_two_bools() {
    let toks = scan("true false");
    assert_eq!(toks.len(), 2);
    assert!(matches!(toks[0], Token::Bool(true)));
    assert!(matches!(toks[1], Token::Bool(false)));
}

#[test]
fn scan_number_keeps_digit_text() {
    let toks = scan("123");
    assert_eq!(toks.len(), 1);
    match &toks[0] {
        Token::Num(text) => assert_eq!(text, "123"),
        _ => panic!("expected a number token"),
    }
}

#[test]
fn scan_truncated_null_is_eof_error() {
    match scan_err("nul") {
        LexError::UnexpectedEof { word } => assert_eq!(word, "null"),
        _ => panic!("expected an end-of-input lexical error"),
    }
}

#[test]
fn scan_broken_null_cites_the_character() {
    match scan_err("nulx") {
        LexError::UnexpectedCharacter { found, word } => {
            assert_eq!(found, 'x');
            assert_eq!(word, "null");
        }
        _ => panic!("expected an unexpected-character lexical error"),
    }
}

#[test]
fn scan_minus_is_unknown_character() {
    match scan_err("-5") {
        LexError::UnknownCharacter { found } => assert_eq!(found, '-'),
        _ => panic!("expected an unknown-character lexical error"),
    }
}

#[test]
fn scan_skips_ascii_whitespace() {
    let toks = scan(" \t\r\n ");
    assert_eq!(toks.len(), 0);
}

#[test]
fn scan_unterminated_string_takes_rest_of_input() {
    let toks = scan("\"ab");
    assert_eq!(toks.len(), 1);
    match &toks[0] {
        Token::Str(text) => assert_eq!(text, "ab"),
        _ => panic!("expected a string token"),
    }
}

#[test]
fn scan_structural_characters() {
    let toks = scan("{}[]:,");
    assert_eq!(toks.len(), 6);
    assert!(matches!(toks[0], Token::CurlyOpen));
    assert!(matches!(toks[1], Token::CurlyClose));
    assert!(matches!(toks[2], Token::SquareOpen));
    assert!(matches!(toks[3], Token::SquareClose));
    assert!(matches!(toks[4], Token::Colon));
    assert!(matches!(toks[5], Token::Comma));
}

#[test]
fn parse_empty_object() {
    match parse_text("{}") {
        JsonValue::Object(entries) => assert_eq!(entries.len(), 0),
        _ => panic!("expected an object"),
    }
}

#[test]
fn parse_empty_array() {
    match parse_text("[]") {
        JsonValue::Array(elems) => assert_eq!(elems.len(), 0),
        _ => panic!("expected an array"),
    }
}

#[test]
fn parse_object_with_two_entries() {
    match parse_text("{\"a\":1,\"b\":2}") {
        JsonValue::Object(entries) => {
            assert_eq!(entries.len(), 2);
            let a = entries.iter().find(|e| e.0 == "a").expect("entry a");
            let b = entries.iter().find(|e| e.0 == "b").expect("entry b");
            assert!(matches!(&a.1, JsonValue::Num(t) if t == "1"));
            assert!(matches!(&b.1, JsonValue::Num(t) if t == "2"));
        }
        _ => panic!("expected an object"),
    }
}

#[test]
fn parse_array_tolerates_trailing_comma() {
    match parse_text("[1,2,]") {
        JsonValue::Array(elems) => {
            assert_eq!(elems.len(), 2);
            assert!(matches!(&elems[0], JsonValue::Num(t) if t == "1"));
            assert!(matches!(&elems[1], JsonValue::Num(t) if t == "2"));
        }
        _ => panic!("expected an array"),
    }
}

#[test]
fn parse_object_tolerates_trailing_comma() {
    match parse_text("{\"a\":1,}") {
        JsonValue::Object(entries) => {
            assert_eq!(entries.len(), 1);
            assert_eq!(entries[0].0, "a");
        }
        _ => panic!("expected an object"),
    }
}

#[test]
fn parse_unterminated_object_is_eof_error() {
    match parse_text_err("{\"a\":1") {
        ParseError::UnexpectedEof { context } => {
            assert_eq!(context, ParseContext::ObjectPairEnd);
        }
        _ => panic!("expected an end-of-input parse error"),
    }
}

#[test]
fn parse_duplicate_key_keeps_last_value() {
    match parse_text("{\"a\":1,\"a\":2}") {
        JsonValue::Object(entries) => {
            assert_eq!(entries.len(), 1);
            assert_eq!(entries[0].0, "a");
            assert!(matches!(&entries[0].1, JsonValue::Num(t) if t == "2"));
        }
        _ => panic!("expected an object"),
    }
}

#[test]
fn parse_no_tokens_is_eof_error() {
    match parse_text_err("") {
        ParseError::UnexpectedEof { context } => assert_eq!(context, ParseContext::Value),
        _ => panic!("expected an end-of-input parse error"),
    }
}

#[test]
fn parse_stray_colon_is_unexpected_token() {
    match parse_text_err(":") {
        ParseError::UnexpectedToken { found, context } => {
            assert!(matches!(found, Token::Colon));
            assert_eq!(context, ParseContext::Value);
        }
        _ => panic!("expected an unexpected-token parse error"),
    }
}

#[test]
fn parse_missing_colon_is_expected_colon() {
    match parse_text_err("{\"a\" 1}") {
        ParseError::ExpectedColon { found } => {
            assert!(matches!(&found, Token::Num(t) if t == "1"));
        }
        _ => panic!("expected an expected-colon parse error"),
    }
}

#[test]
fn parse_missing_comma_in_array() {
    match parse_text_err("[1 2]") {
        ParseError::ExpectedCommaOrClose { found } => {
            assert!(matches!(&found, Token::Num(t) if t == "2"));
        }
        _ => panic!("expected an expected-comma-or-close parse error"),
    }
}

#[test]
fn parse_number_key_is_unexpected_token() {
    match parse_text_err("{1}") {
        ParseError::UnexpectedToken { found, context } => {
            assert!(matches!(&found, Token::Num(t) if t == "1"));
            assert_eq!(context, ParseContext::ObjectKey);
        }
        _ => panic!("expected an unexpected-token parse error"),
    }
}

#[test]
fn parse_unclosed_array_after_element_is_eof_error() {
    match parse_text_err("[1") {
        ParseError::UnexpectedEof { context } => assert_eq!(context, ParseContext::Array),
        _ => panic!("expected an end-of-input parse error"),
    }
}

#[test]
fn render_scalars() {
    assert_eq!(render(&JsonValue::Null), "null");
    assert_eq!(render(&JsonValue::Bool(true)), "true");
    assert_eq!(render(&JsonValue::Bool(false)), "false");
    assert_eq!(render(&JsonValue::Num(String::from("42"))), "42");
    assert_eq!(render(&JsonValue::Str(String::from("hi"))), "\"hi\"");
}

#[test]
fn render_array_with_indentation_and_trailing_commas() {
    let v = JsonValue::Array(vec![
        JsonValue::Num(String::from("1")),
        JsonValue::Bool(true),
    ]);
    assert_eq!(render(&v), "[\n\t1,\n\ttrue,\n]");
}

#[test]
fn render_object_with_bare_key() {
    let v = JsonValue::Object(vec![(String::from("a"), JsonValue::Num(String::from("1")))]);
    assert_eq!(render(&v), "{\n\ta: 1,\n}");
}

#[test]
fn render_nested_array_indents_one_tab_per_depth() {
    let v = JsonValue::Array(vec![JsonValue::Array(vec![JsonValue::Null])]);
    assert_eq!(render(&v), "[\n\t[\n\t\tnull,\n\t],\n]");
}

#[test]
fn round_trip_of_safe_value() {
    let v = JsonValue::Array(vec![
        JsonValue::Null,
        JsonValue::Bool(true),
        JsonValue::Num(String::from("42")),
        JsonValue::Str(String::from("hello world")),
        JsonValue::Object(vec![]),
        JsonValue::Array(vec![JsonValue::Num(String::from("7"))]),
    ]);
    let text = render(&v);
    let back = parse(tokenize(&text).expect("rendered text scans"))
        .expect("rendered text parses");
    assert!(values_equal(&v, &back));
}

#[test]
fn decode_and_render_pipeline() {
    let out = decode_and_render("{\"a\":1}").expect("document decodes");
    assert_eq!(out, "{\n\ta: 1,\n}");
}

#[test]
fn decode_and_render_propagates_lex_error() {
    assert!(matches!(
        decode_and_render("@"),
        Err(json_tree::PipelineError::Lex(LexError::UnknownCharacter { found: '@' }))
    ));
}

#[test]
fn decode_and_render_propagates_parse_error() {
    assert!(matches!(
        decode_and_render("]"),
        Err(json_tree::PipelineError::Parse(ParseError::UnexpectedToken { .. }))
    ));
}

#[test]
fn number_digit_text_is_kept_verbatim() {
    match parse_text("007") {
        JsonValue::Num(t) => assert_eq!(t, "007"),
        _ => panic!("expected a number"),
    }
}

#[test]
fn tokens_after_first_value_are_ignored() {
    match parse_text("1 2") {
        JsonValue::Num(t) => assert_eq!(t, "1"),
        _ => panic!("expected a number"),
    }
}

#[test]
fn lone_open_brace_parses_as_empty_object() {
    match parse_text("{") {
        JsonValue::Object(entries) => assert_eq!(entries.len(), 0),
        _ => panic!("expected an object"),
    }
}

#[test]
fn quote_inside_string_breaks_the_round_trip() {
    // Strings are rendered unescaped, so an embedded quote ends the token
    // early and the character after it is rejected.
    let v = JsonValue::Str(String::from("a\"b"));
    let text = render(&v);
    assert!(matches!(
        tokenize(&text),
        Err(LexError::UnknownCharacter { found: 'b' })
    ));
}

#[test]
fn bare_object_key_breaks_the_round_trip() {
    // Object keys are rendered without quotes, so the key's characters stand
    // outside every scanner rule.
    let v = JsonValue::Object(vec![(String::from("a"), JsonValue::Num(String::from("1")))]);
    let text = render(&v);
    assert!(matches!(
        tokenize(&text),
        Err(LexError::UnknownCharacter { found: 'a' })
    ));
}
