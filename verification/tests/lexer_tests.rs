use lexer::Decimal;
use lexer::Keyword;
use lexer::Token;
use lexer::TokenIter;
use lexer::TokenizeError;
use lexer::Ty;
use lexer::Value;

fn lex_all(src: &[u8]) -> Vec<Result<Token, TokenizeError>> {
    let mut it = TokenIter::new(src);
    let mut out = Vec::new();
    while let Some(r) = it.next() {
        out.push(r);
    }
    out
}

#[test]
fn empty_input_yields_nothing() {
    let mut it = TokenIter::new(b"");
    assert!(it.next().is_none());
    assert!(it.next().is_none());
}

#[test]
fn whitespace_only_yields_nothing() {
    assert!(lex_all(b" \t\r\n \x0c ").is_empty());
}

#[test]
fn line_comment_only_yields_nothing() {
    assert!(lex_all(b"# just a comment\n").is_empty());
}

#[test]
fn line_comment_without_newline_ends_sequence() {
    assert!(lex_all(b"# no newline at end").is_empty());
}

#[test]
fn lone_hash_ends_sequence() {
    assert!(lex_all(b"#").is_empty());
}

#[test]
fn unterminated_block_comment_ends_sequence() {
    assert!(lex_all(b"#! never closed").is_empty());
}

#[test]
fn empty_comment_then_token() {
    let toks = lex_all(b"#\nfoo");
    assert_eq!(toks, vec![Ok(Token::Identifier(String::from("foo")))]);
}

#[test]
fn identifier_token() {
    let mut it = TokenIter::new(b"foo");
    assert_eq!(it.next(), Some(Ok(Token::Identifier(String::from("foo")))));
    assert_eq!(it.src_pos(), 0..3);
    assert!(it.next().is_none());
}

#[test]
fn identifier_with_digits_and_underscore() {
    let toks = lex_all(b"a_1B");
    assert_eq!(toks, vec![Ok(Token::Identifier(String::from("a_1B")))]);
}

#[test]
fn keyword_run_is_never_identifier() {
    assert_eq!(lex_all(b"let"), vec![Ok(Token::Keyword(Keyword::Let))]);
    assert_eq!(lex_all(b"fn"), vec![Ok(Token::Keyword(Keyword::Fn))]);
    assert_eq!(lex_all(b"return"), vec![Ok(Token::Keyword(Keyword::Return))]);
}

#[test]
fn type_name_runs_resolve() {
    assert_eq!(lex_all(b"int32"), vec![Ok(Token::Ty(Ty::Int32))]);
    assert_eq!(lex_all(b"int64"), vec![Ok(Token::Ty(Ty::Int64))]);
    assert_eq!(lex_all(b"bool"), vec![Ok(Token::Ty(Ty::Bool))]);
    assert_eq!(lex_all(b"str"), vec![Ok(Token::Ty(Ty::Str))]);
}

#[test]
fn keyword_prefix_run_is_identifier() {
    let toks = lex_all(b"lets");
    assert_eq!(toks, vec![Ok(Token::Identifier(String::from("lets")))]);
}

#[test]
fn integer_literal_exact_value() {
    let toks = lex_all(b"42");
    assert_eq!(toks, vec![Ok(Token::Literal(Value::Int(42)))]);
}

#[test]
fn integer_with_leading_zeros() {
    let toks = lex_all(b"007");
    assert_eq!(toks, vec![Ok(Token::Literal(Value::Int(7)))]);
}

#[test]
fn integer_overflow_fails() {
    let toks = lex_all(b"99999999999999999999");
    assert_eq!(toks, vec![Err(TokenizeError::InvalidIntLiteral)]);
}

#[test]
fn float_literal_exact_decimal() {
    let toks = lex_all(b"3.14");
    assert_eq!(
        toks,
        vec![Ok(Token::Literal(Value::Float(Decimal { mantissa: 314, scale: 2 })))]
    );
}

#[test]
fn float_with_trailing_dot() {
    let toks = lex_all(b"3.");
    assert_eq!(
        toks,
        vec![Ok(Token::Literal(Value::Float(Decimal { mantissa: 3, scale: 0 })))]
    );
}

#[test]
fn float_keeps_written_fraction_digits() {
    let toks = lex_all(b"0.50");
    assert_eq!(
        toks,
        vec![Ok(Token::Literal(Value::Float(Decimal { mantissa: 50, scale: 2 })))]
    );
}

#[test]
fn second_dot_truncates_and_next_pull_fails() {
    let mut it = TokenIter::new(b"1.2.3");
    assert_eq!(
        it.next(),
        Some(Ok(Token::Literal(Value::Float(Decimal { mantissa: 12, scale: 1 }))))
    );
    assert_eq!(it.src_pos(), 0..3);
    assert_eq!(it.next(), Some(Err(TokenizeError::UnexpectedCharacter)));
    assert_eq!(it.src_pos(), 3..4);
    assert_eq!(it.next(), Some(Ok(Token::Literal(Value::Int(3)))));
    assert_eq!(it.src_pos(), 4..5);
    assert!(it.next().is_none());
}

#[test]
fn string_literal() {
    let mut it = TokenIter::new(b"\"abc\"");
    assert_eq!(
        it.next(),
        Some(Ok(Token::Literal(Value::Str(String::from("abc")))))
    );
    assert_eq!(it.src_pos(), 0..5);
    assert!(it.next().is_none());
}

#[test]
fn hash_inside_string_is_not_a_comment() {
    let toks = lex_all(b"\"a#b\"");
    assert_eq!(toks, vec![Ok(Token::Literal(Value::Str(String::from("a#b"))))]);
}

#[test]
fn string_decodes_multibyte_utf8() {
    let toks = lex_all(&[34, 104, 195, 169, 34]);
    assert_eq!(
        toks,
        vec![Ok(Token::Literal(Value::Str(String::from("h\u{e9}"))))]
    );
}

#[test]
fn invalid_utf8_string_fails() {
    let toks = lex_all(&[34, 0xff, 34]);
    assert_eq!(toks, vec![Err(TokenizeError::NonUTF8)]);
}

#[test]
fn unterminated_string_fails() {
    let mut it = TokenIter::new(b"\"abc");
    assert_eq!(it.next(), Some(Err(TokenizeError::NonTerminatedStr)));
    assert_eq!(it.src_pos(), 0..4);
    assert!(it.next().is_none());
}

#[test]
fn punctuation_bytes_in_isolation() {
    let cases: Vec<(&[u8], Token)> = vec![
        (b"*", Token::Star),
        (b",", Token::Comma),
        (b":", Token::Colon),
        (b";", Token::SemiColon),
        (b"@", Token::At),
        (b"(", Token::LeftSmooth),
        (b")", Token::RightSmooth),
        (b"?", Token::QuestionMark),
    ];
    for (src, expected) in cases {
        let mut it = TokenIter::new(src);
        assert_eq!(it.next(), Some(Ok(expected)));
        assert_eq!(it.src_pos(), 0..1);
        assert!(it.next().is_none());
    }
}

#[test]
fn unexpected_character_fails() {
    let mut it = TokenIter::new(b"$");
    assert_eq!(it.next(), Some(Err(TokenizeError::UnexpectedCharacter)));
    assert_eq!(it.src_pos(), 0..1);
}

#[test]
fn line_comment_is_skipped_before_token() {
    let toks = lex_all(b"# not a block\nfoo");
    assert_eq!(toks, vec![Ok(Token::Identifier(String::from("foo")))]);
}

#[test]
fn block_comment_close_reopens_as_line_comment() {
    // The closing `#` of a block comment is re-examined as a comment start:
    // the byte after it, `y`, opens a line comment that swallows `y z`.
    let toks = lex_all(b"#! x !#y z\nw");
    assert_eq!(toks, vec![Ok(Token::Identifier(String::from("w")))]);
}

#[test]
fn block_comment_close_before_newline_is_empty_comment() {
    let toks = lex_all(b"#! x !#\n*");
    assert_eq!(toks, vec![Ok(Token::Star)]);
}

#[test]
fn chained_block_comments() {
    let toks = lex_all(b"#!a!#!b!#\nx");
    assert_eq!(toks, vec![Ok(Token::Identifier(String::from("x")))]);
}

#[test]
fn bang_inside_block_needs_hash_to_close() {
    let toks = lex_all(b"#! a !! b !# ;");
    // The `!#` pair closes the block; the `#` then sees a space, so a line
    // comment runs to the end of the buffer and the sequence ends.
    assert!(toks.is_empty());
    let toks2 = lex_all(b"#! a !! b !#\n;");
    assert_eq!(toks2, vec![Ok(Token::SemiColon)]);
}

#[test]
fn example_sequence() {
    let toks = lex_all(b"foo: int32 @ 3.14;");
    assert_eq!(
        toks,
        vec![
            Ok(Token::Identifier(String::from("foo"))),
            Ok(Token::Colon),
            Ok(Token::Ty(Ty::Int32)),
            Ok(Token::At),
            Ok(Token::Literal(Value::Float(Decimal { mantissa: 314, scale: 2 }))),
            Ok(Token::SemiColon),
        ]
    );
}

#[test]
fn spans_reconstruct_the_buffer() {
    let src: &[u8] = b"  let foo # note\n: int32 ; \"x\" 1.5 #!tail";
    let mut it = TokenIter::new(src);
    let mut rebuilt: Vec<u8> = Vec::new();
    let mut prev: usize = 0;
    while let Some(_r) = it.next() {
        let span = it.src_pos();
        rebuilt.extend_from_slice(&src[prev..span.start]);
        rebuilt.extend_from_slice(&src[span.start..span.end]);
        prev = span.end;
    }
    rebuilt.extend_from_slice(&src[prev..]);
    assert_eq!(rebuilt, src);
}

#[test]
fn whitespace_between_tokens_and_spans() {
    let mut it = TokenIter::new(b"  foo   bar  ");
    assert_eq!(it.next(), Some(Ok(Token::Identifier(String::from("foo")))));
    assert_eq!(it.src_pos(), 2..5);
    assert_eq!(it.next(), Some(Ok(Token::Identifier(String::from("bar")))));
    assert_eq!(it.src_pos(), 8..11);
    assert!(it.next().is_none());
}

#[test]
fn cursor_primitives() {
    let mut it = TokenIter::new(b"ab");
    assert_eq!(it.peek_byte(), Some(b'a'));
    assert_eq!(it.next_byte(), Some(b'a'));
    assert_eq!(it.next_byte_if(|b| b == b'z'), None);
    assert_eq!(it.next_byte_if(|b| b == b'b'), Some(b'b'));
    assert_eq!(it.peek_byte(), None);
    assert_eq!(it.next_byte(), None);
}

#[test]
fn mixed_whitespace_and_comments_yield_nothing() {
    assert!(lex_all(b" \t# line\n  #!block!#\n   ").is_empty());
}

#[test]
fn construction_through_from() {
    let mut it = TokenIter::from(&b"fn"[..]);
    assert_eq!(it.next(), Some(Ok(Token::Keyword(Keyword::Fn))));
    assert!(it.next().is_none());
}
