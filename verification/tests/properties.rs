use jsmn::Error;
use jsmn::JsonParser;
use jsmn::Token;
use jsmn::TokenKind;

fn tokenize(buf: &[u8], cap: usize) -> Result<(usize, Vec<Token>), Error> {
    let mut v = vec![Token::default(); cap];
    let mut parser = JsonParser::new();
    let n = parser.parse(buf, &mut v)?;
    Ok((n, v))
}

#[test]
fn defaults_are_the_empty_state() {
    let t = Token::default();
    assert_eq!(TokenKind::Undefined, t.kind);
    assert_eq!(0, t.start);
    assert_eq!(0, t.end);
    assert_eq!(0, t.size);
    assert_eq!(TokenKind::Undefined, TokenKind::default());
}

#[test]
fn empty_input_is_complete() {
    let (n, _) = tokenize(b"", 1).unwrap();
    assert_eq!(0, n);
}

#[test]
fn whitespace_only_is_complete() {
    let (n, _) = tokenize(b" \t\r\n ", 1).unwrap();
    assert_eq!(0, n);
}

#[test]
fn array_of_mixed_values() {
    let s = br#"["123", {"a": 1, "b": "c"}, 123]"#;
    let (n, v) = tokenize(s, 8).unwrap();
    assert_eq!(8, n);
    assert_eq!(Token::with_size(TokenKind::Array, 0, 32, 3), v[0]);
}

#[test]
fn arrays_nest_in_arrays_without_keys() {
    let s = b"[[1],[2]]";
    let (n, v) = tokenize(s, 5).unwrap();
    assert_eq!(5, n);
    assert_eq!(Token::with_size(TokenKind::Array, 0, 9, 2), v[0]);
    assert_eq!(Token::with_size(TokenKind::Array, 1, 4, 1), v[1]);
    assert_eq!(Token::with_size(TokenKind::Primitive, 2, 3, 0), v[2]);
    assert_eq!(Token::with_size(TokenKind::Array, 5, 8, 1), v[3]);
    assert_eq!(Token::with_size(TokenKind::Primitive, 6, 7, 0), v[4]);
}

#[test]
fn object_nests_in_array_without_key() {
    let s = br#"[{"a": 1}]"#;
    let (n, v) = tokenize(s, 4).unwrap();
    assert_eq!(4, n);
    assert_eq!(Token::with_size(TokenKind::Array, 0, 10, 1), v[0]);
    assert_eq!(Token::with_size(TokenKind::Object, 1, 9, 1), v[1]);
}

#[test]
fn container_as_object_key_is_invalid() {
    assert_eq!(Error::Invalid, tokenize(b"{[", 4).unwrap_err());
}

#[test]
fn mismatched_brackets_are_invalid() {
    assert_eq!(Error::Invalid, tokenize(br#"{"a":1]"#, 4).unwrap_err());
}

#[test]
fn unmatched_closing_bracket_is_invalid() {
    assert_eq!(Error::Invalid, tokenize(b"]", 2).unwrap_err());
}

#[test]
fn unterminated_string_needs_more_bytes() {
    assert_eq!(Error::Part, tokenize(br#""abc"#, 2).unwrap_err());
}

#[test]
fn unterminated_container_needs_more_bytes() {
    assert_eq!(Error::Part, tokenize(b"[1, 2", 4).unwrap_err());
}

#[test]
fn control_byte_in_primitive_is_invalid() {
    assert_eq!(Error::Invalid, tokenize(b"12\x0134", 2).unwrap_err());
}

#[test]
fn colon_before_any_token_is_invalid() {
    assert_eq!(Error::Invalid, tokenize(b": 1", 2).unwrap_err());
}

#[test]
fn simple_escapes_stay_in_the_string() {
    let s = br#""a\"b\\c\nd""#;
    let (n, v) = tokenize(s, 1).unwrap();
    assert_eq!(1, n);
    assert_eq!(Token::new(TokenKind::Str, 1, 11), v[0]);
}

#[test]
fn unicode_escape_is_accepted() {
    let s = br#""\u00ffx""#;
    let (n, v) = tokenize(s, 1).unwrap();
    assert_eq!(1, n);
    assert_eq!(Token::new(TokenKind::Str, 1, 8), v[0]);
}

#[test]
fn unicode_escape_with_bad_digit_is_invalid() {
    assert_eq!(Error::Invalid, tokenize(br#""\u00zz""#, 1).unwrap_err());
}

#[test]
fn unknown_escape_is_invalid() {
    assert_eq!(Error::Invalid, tokenize(br#""\x""#, 1).unwrap_err());
}

#[test]
fn exactly_sized_pool_succeeds() {
    let s = br#"{"a": "b", "c": 100}"#;
    let (n, _) = tokenize(s, 5).unwrap();
    assert_eq!(5, n);
}

#[test]
fn one_slot_short_reports_no_memory() {
    let s = br#"{"a": "b", "c": 100}"#;
    assert_eq!(Error::NoMemory, tokenize(s, 4).unwrap_err());
}

#[test]
fn count_is_idempotent_on_a_closed_buffer() {
    let s = br#"{"a": 1}"#;
    let mut v = vec![Token::default(); 3];
    let mut parser = JsonParser::new();
    let first = parser.parse(s, &mut v).unwrap();
    let again = parser.parse(s, &mut v).unwrap();
    assert_eq!(3, first);
    assert_eq!(first, again);
    let one_shot = {
        let mut w = vec![Token::default(); 3];
        let mut p = JsonParser::new();
        p.parse(s, &mut w).unwrap();
        w
    };
    assert_eq!(one_shot, v);
}

#[test]
fn truncated_document_reports_part() {
    let s = br#"{"a": "b", "c": 100}"#;
    let first = &s[..8];
    let mut v = vec![Token::default(); 5];
    let mut parser = JsonParser::new();
    assert_eq!(Error::Part, parser.parse(first, &mut v).unwrap_err());
}

#[test]
fn resumed_parse_equals_one_shot() {
    let s = br#"{"a": "b", "c": 100}"#;
    // The cut falls inside the string "b": the first call asks for more.
    let first = &s[..8];
    let mut v = vec![Token::default(); 5];
    let mut parser = JsonParser::new();
    assert_eq!(Error::Part, parser.parse(first, &mut v).unwrap_err());
    // Feed the whole buffer, with the same state and the same pool.
    let n = parser.parse(s, &mut v).unwrap();
    assert_eq!(5, n);
    let one_shot = {
        let mut w = vec![Token::default(); 5];
        let mut p = JsonParser::new();
        p.parse(s, &mut w).unwrap();
        w
    };
    assert_eq!(one_shot, v);
}

#[test]
fn cut_at_a_delimiter_resumes_exactly() {
    // The cut falls right after the primitive "12", on the comma: the
    // committed token already spans the whole primitive, and resuming
    // matches a single call over the full buffer.
    let s = b"[12,34]";
    let mut v = vec![Token::default(); 3];
    let mut parser = JsonParser::new();
    assert_eq!(Error::Part, parser.parse(&s[..3], &mut v).unwrap_err());
    let n = parser.parse(s, &mut v).unwrap();
    assert_eq!(3, n);
    let one_shot = {
        let mut w = vec![Token::default(); 3];
        let mut p = JsonParser::new();
        p.parse(s, &mut w).unwrap();
        w
    };
    assert_eq!(one_shot, v);
}

#[test]
fn cut_inside_a_primitive_commits_the_front_part() {
    // The cut falls strictly inside the primitive "1234": the first call
    // commits a token for "12" alone, so the resumed parse sees two
    // primitives where a single call sees one. The resumability law
    // therefore leaves such cuts out.
    let s = b"[1234]";
    let mut v = vec![Token::default(); 3];
    let mut parser = JsonParser::new();
    assert_eq!(Error::Part, parser.parse(&s[..3], &mut v).unwrap_err());
    let n = parser.parse(s, &mut v).unwrap();
    assert_eq!(3, n);
    assert_eq!(Token::with_size(TokenKind::Array, 0, 6, 2), v[0]);
    assert_eq!(Token::new(TokenKind::Primitive, 1, 3), v[1]);
    assert_eq!(Token::new(TokenKind::Primitive, 3, 5), v[2]);
}

#[test]
fn exhausted_pool_retries_with_a_larger_one() {
    let s = b"[1]";
    let mut small = vec![Token::default(); 1];
    let mut parser = JsonParser::new();
    assert_eq!(Error::NoMemory, parser.parse(s, &mut small).unwrap_err());
    // Tokens already written stay valid: carry them into a larger pool and
    // let the same state continue.
    let mut large = vec![Token::default(); 2];
    large[0] = small[0];
    let n = parser.parse(s, &mut large).unwrap();
    assert_eq!(2, n);
    assert_eq!(Token::with_size(TokenKind::Array, 0, 3, 1), large[0]);
    assert_eq!(Token::new(TokenKind::Primitive, 1, 2), large[1]);
}

#[test]
fn slots_beyond_the_count_are_untouched() {
    let marker = Token::with_size(TokenKind::Primitive, 7, 9, 3);
    let mut v = vec![marker; 4];
    let mut parser = JsonParser::new();
    let n = parser.parse(b"[1]", &mut v).unwrap();
    assert_eq!(2, n);
    assert_eq!(marker, v[2]);
    assert_eq!(marker, v[3]);
}

#[test]
fn primitive_as_object_key_is_invalid() {
    assert_eq!(Error::Invalid, tokenize(b"{1: 2}", 4).unwrap_err());
}

#[test]
fn value_after_a_filled_key_slot_is_invalid() {
    assert_eq!(Error::Invalid, tokenize(br#"{"a": 1 2}"#, 5).unwrap_err());
}

#[test]
fn booleans_and_null_are_primitives() {
    let s = b"[true, false, null]";
    let (n, v) = tokenize(s, 4).unwrap();
    assert_eq!(4, n);
    assert_eq!(Token::with_size(TokenKind::Array, 0, 19, 3), v[0]);
    assert_eq!(Token::new(TokenKind::Primitive, 1, 5), v[1]);
    assert_eq!(Token::new(TokenKind::Primitive, 7, 12), v[2]);
    assert_eq!(Token::new(TokenKind::Primitive, 14, 18), v[3]);
}

#[test]
fn deep_nesting_closes_in_order() {
    let s = b"[[[[]]]]";
    let (n, v) = tokenize(s, 4).unwrap();
    assert_eq!(4, n);
    assert_eq!(Token::with_size(TokenKind::Array, 0, 8, 1), v[0]);
    assert_eq!(Token::with_size(TokenKind::Array, 1, 7, 1), v[1]);
    assert_eq!(Token::with_size(TokenKind::Array, 2, 6, 1), v[2]);
    assert_eq!(Token::with_size(TokenKind::Array, 3, 5, 0), v[3]);
}
