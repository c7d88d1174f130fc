use compiler2::lexing::{strip_quotes, tokenize, Lexer};
use compiler2::location::Location;
use compiler2::token::{keyword, parse_decimal, RawSpanned, RawToken, Token};

fn raw(token: RawToken, start: usize, end: usize) -> RawSpanned {
    RawSpanned { token, start, end }
}

/// `fn main():` then an indented `pass`.
fn small_program() -> Vec<RawSpanned> {
    vec![
        raw(RawToken::Identifier("fn".to_string()), 0, 2),
        raw(RawToken::WhiteSpace(1), 2, 3),
        raw(RawToken::Identifier("main".to_string()), 3, 7),
        raw(RawToken::OpeningParenthesis, 7, 8),
        raw(RawToken::ClosingParenthesis, 8, 9),
        raw(RawToken::Colon, 9, 10),
        raw(RawToken::NewLine, 10, 11),
        raw(RawToken::WhiteSpace(4), 11, 15),
        raw(RawToken::Identifier("pass".to_string()), 15, 19),
        raw(RawToken::NewLine, 19, 20),
    ]
}

#[test]
fn indented_block_gets_indent_and_dedent() {
    let tokens = tokenize(small_program()).unwrap();
    assert_eq!(tokens.len(), 10);
    assert!(matches!(tokens[0].1, Token::KeywordFn));
    assert!(matches!(&tokens[1].1, Token::Identifier { value } if value == "main"));
    assert!(matches!(tokens[2].1, Token::OpeningParenthesis));
    assert!(matches!(tokens[3].1, Token::ClosingParenthesis));
    assert!(matches!(tokens[4].1, Token::Colon));
    assert!(matches!(tokens[5].1, Token::Newline));
    assert!(matches!(tokens[6].1, Token::Indent));
    assert!(matches!(tokens[7].1, Token::KeywordPass));
    assert!(matches!(tokens[8].1, Token::Newline));
    assert!(matches!(tokens[9].1, Token::Dedent));
}

#[test]
fn token_locations_count_rows_and_columns_from_one() {
    let tokens = tokenize(small_program()).unwrap();
    assert_eq!(tokens[0].0, Location::new(1, 1));
    assert_eq!(tokens[0].2, Location::new(1, 3));
    assert_eq!(tokens[1].0, Location::new(1, 4));
    assert_eq!(tokens[5].0, Location::new(1, 11));
    assert_eq!(tokens[6].0, Location::new(2, 1));
    assert_eq!(tokens[7].0, Location::new(2, 5));
    assert_eq!(tokens[7].2, Location::new(2, 9));
    assert_eq!(tokens[9].0, Location::new(3, 1));
}

#[test]
fn indent_and_dedent_balance() {
    // a:\n  b:\n    c\nd\n
    let toks = vec![
        raw(RawToken::Identifier("a".to_string()), 0, 1),
        raw(RawToken::Colon, 1, 2),
        raw(RawToken::NewLine, 2, 3),
        raw(RawToken::WhiteSpace(2), 3, 5),
        raw(RawToken::Identifier("b".to_string()), 5, 6),
        raw(RawToken::Colon, 6, 7),
        raw(RawToken::NewLine, 7, 8),
        raw(RawToken::WhiteSpace(4), 8, 12),
        raw(RawToken::Identifier("c".to_string()), 12, 13),
        raw(RawToken::NewLine, 13, 14),
        raw(RawToken::Identifier("d".to_string()), 14, 15),
        raw(RawToken::NewLine, 15, 16),
    ];
    let tokens = tokenize(toks).unwrap();
    let mut depth: i64 = 0;
    let mut dedents = 0;
    for t in &tokens {
        match t.1 {
            Token::Indent => depth += 1,
            Token::Dedent => {
                depth -= 1;
                dedents += 1;
            }
            _ => {}
        }
        assert!(depth >= 0);
    }
    assert_eq!(depth, 0);
    // Both levels close at once, before `d`.
    assert_eq!(dedents, 2);
    assert!(matches!(tokens[10].1, Token::Dedent));
    assert!(matches!(tokens[11].1, Token::Dedent));
    assert!(matches!(&tokens[12].1, Token::Identifier { value } if value == "d"));
}

#[test]
fn missing_final_newline_is_added_and_blocks_are_closed() {
    let toks = vec![
        raw(RawToken::Identifier("x".to_string()), 0, 1),
        raw(RawToken::Colon, 1, 2),
        raw(RawToken::NewLine, 2, 3),
        raw(RawToken::WhiteSpace(2), 3, 5),
        raw(RawToken::Number("42".to_string()), 5, 7),
    ];
    let tokens = tokenize(toks).unwrap();
    let kinds: Vec<&Token> = tokens.iter().map(|t| &t.1).collect();
    assert_eq!(kinds.len(), 7);
    assert!(matches!(kinds[4], Token::Number { value: 42 }));
    assert!(matches!(kinds[5], Token::Newline));
    assert!(matches!(kinds[6], Token::Dedent));
}

#[test]
fn unknown_character_is_an_error() {
    let toks = vec![
        raw(RawToken::Identifier("x".to_string()), 0, 1),
        raw(RawToken::WhiteSpace(1), 1, 2),
        raw(RawToken::Error, 2, 3),
    ];
    let err = tokenize(toks).unwrap_err();
    assert_eq!(err.message, "Oh no, unknown character!");
    assert_eq!(err.location, Location::new(1, 3));
}

#[test]
fn comments_and_spaces_inside_a_line_are_skipped() {
    let toks = vec![
        raw(RawToken::Identifier("x".to_string()), 0, 1),
        raw(RawToken::WhiteSpace(3), 1, 4),
        raw(RawToken::Comment("# note".to_string()), 4, 10),
        raw(RawToken::NewLine, 10, 11),
    ];
    let tokens = tokenize(toks).unwrap();
    assert_eq!(tokens.len(), 2);
    assert!(matches!(tokens[1].1, Token::Newline));
}

#[test]
fn lexer_yields_tokens_one_by_one() {
    let mut lexer = Lexer::new(small_program());
    let mut count = 0;
    while let Some(t) = lexer.next() {
        assert!(t.is_ok());
        count += 1;
    }
    assert_eq!(count, 10);
    assert!(lexer.next().is_none());
}

#[test]
fn keywords_are_recognised() {
    assert!(matches!(keyword("while"), Some(Token::KeywordWhile)));
    assert!(matches!(keyword("and"), Some(Token::KeywordAnd)));
    assert!(matches!(keyword("struct"), Some(Token::KeywordStruct)));
    assert!(keyword("whilst").is_none());
    assert!(keyword("").is_none());
}

#[test]
fn identifier_and_string_tokens_keep_their_text() {
    let toks = vec![
        raw(RawToken::Identifier("name".to_string()), 0, 4),
        raw(RawToken::Equal, 4, 5),
        raw(RawToken::Str("hi".to_string()), 5, 9),
        raw(RawToken::NewLine, 9, 10),
    ];
    let tokens = tokenize(toks).unwrap();
    assert!(matches!(&tokens[0].1, Token::Identifier { value } if value == "name"));
    assert!(matches!(tokens[1].1, Token::Equal));
    assert!(matches!(&tokens[2].1, Token::String { value } if value == "hi"));
}

#[test]
fn decimal_numbers_are_parsed() {
    assert_eq!(parse_decimal("0"), 0);
    assert_eq!(parse_decimal("12345"), 12345);
    assert_eq!(parse_decimal("9223372036854775807"), i64::MAX);
}

#[test]
fn float_literal_keeps_its_bits() {
    let bits = 2.5f64.to_bits();
    let toks = vec![raw(RawToken::FloatingPoint(bits), 0, 3), raw(RawToken::NewLine, 3, 4)];
    let tokens = tokenize(toks).unwrap();
    assert!(matches!(tokens[0].1, Token::FloatingPoint { value } if value == bits));
}

#[test]
fn quotes_are_stripped() {
    assert_eq!(strip_quotes("\"abc\""), "abc");
    assert_eq!(strip_quotes("\"\""), "");
}
