use jsmn::Error;
use jsmn::JsonParser;
use jsmn::Token;
use jsmn::TokenKind;

fn parse(buf: &[u8], len: usize) -> Result<Vec<Token>, Error> {
    let mut v = vec![Token::default(); len];
    let mut parser = JsonParser::new();
    let parsed = parser.parse(buf, &mut v)?;
    assert_eq!(len, parsed);
    Ok(v)
}

#[test]
fn parse_int() {
    let s = b"1234";
    let tokens = parse(s, 1).unwrap();
    assert_eq!(vec![Token::new(TokenKind::Primitive, 0, 4)], tokens);
}

#[test]
fn parse_int_negative() {
    let s = b"-1234";
    let tokens = parse(s, 1).unwrap();
    assert_eq!(vec![Token::new(TokenKind::Primitive, 0, 5)], tokens);
}

#[test]
fn parse_int_invalid() {
    let s = b"abc1234";
    let err = parse(s, 1).unwrap_err();
    assert_eq!(Error::Invalid, err);
}

#[test]
fn parse_string() {
    let s = br#""abcd""#;
    let tokens = parse(s, 1).unwrap();
    assert_eq!(vec![Token::new(TokenKind::Str, 1, 5)], tokens);
}

#[test]
fn parse_object() {
    let s = br#"{"a": "b", "c": 100}"#;
    let tokens = parse(s, 5).unwrap();
    assert_eq!(
        vec![
            Token::with_size(TokenKind::Object, 0, 20, 2),
            Token::with_size(TokenKind::Str, 2, 3, 1),
            Token::with_size(TokenKind::Str, 7, 8, 0),
            Token::with_size(TokenKind::Str, 12, 13, 1),
            Token::with_size(TokenKind::Primitive, 16, 19, 0)
        ],
        tokens
    );
}
