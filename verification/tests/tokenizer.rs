use lib::{tokenize, tokenize_checked, LexError, Span, Token, TokenKind};

fn kinds(src: &str) -> Vec<TokenKind> {
    tokenize(src).expect("tokenize").into_iter().map(|t: Token| t.kind).collect()
}

fn spans(src: &str) -> Vec<(usize, usize)> {
    tokenize(src).expect("tokenize").into_iter().map(|t: Token| (t.span.start, t.span.end)).collect()
}

#[test]
fn tokenize_arithmetic_with_spans() {
    assert_eq!(
        kinds("1 + 2*3"),
        vec![TokenKind::Int(1), TokenKind::Plus, TokenKind::Int(2), TokenKind::Star, TokenKind::Int(3), TokenKind::Eof]
    );
    assert_eq!(spans("1 + 2*3"), vec![(0, 1), (2, 3), (4, 5), (5, 6), (6, 7), (7, 7)]);
}

#[test]
fn tokenize_two_character_operators() {
    assert_eq!(
        kinds("<= >= == != && || -> |> ::"),
        vec![
            TokenKind::Le,
            TokenKind::Ge,
            TokenKind::EqEq,
            TokenKind::BangEq,
            TokenKind::AndAnd,
            TokenKind::OrOr,
            TokenKind::Arrow,
            TokenKind::Pipe,
            TokenKind::ColonColon,
            TokenKind::Eof,
        ]
    );
}

#[test]
fn tokenize_single_character_punctuation() {
    assert_eq!(
        kinds("( ) { } [ ] , : . ! % / - < >"),
        vec![
            TokenKind::LParen,
            TokenKind::RParen,
            TokenKind::LBrace,
            TokenKind::RBrace,
            TokenKind::LBracket,
            TokenKind::RBracket,
            TokenKind::Comma,
            TokenKind::Colon,
            TokenKind::Dot,
            TokenKind::Bang,
            TokenKind::Percent,
            TokenKind::Slash,
            TokenKind::Minus,
            TokenKind::Lt,
            TokenKind::Gt,
            TokenKind::Eof,
        ]
    );
}

#[test]
fn tokenize_keywords_booleans_and_names() {
    assert_eq!(
        kinds("true false card in union intersect diff with_semiring foo_1 _x Inner"),
        vec![
            TokenKind::Bool(true),
            TokenKind::Bool(false),
            TokenKind::Card,
            TokenKind::In,
            TokenKind::Union,
            TokenKind::Intersect,
            TokenKind::Diff,
            TokenKind::WithSemiring,
            TokenKind::Ident("foo_1".to_string()),
            TokenKind::Ident("_x".to_string()),
            TokenKind::Ident("Inner".to_string()),
            TokenKind::Eof,
        ]
    );
}

#[test]
fn tokenize_infinities_only_as_whole_words() {
    assert_eq!(
        kinds("+inf -inf +infinity -info"),
        vec![
            TokenKind::PlusInf,
            TokenKind::MinusInf,
            TokenKind::Plus,
            TokenKind::Ident("infinity".to_string()),
            TokenKind::Minus,
            TokenKind::Ident("info".to_string()),
            TokenKind::Eof,
        ]
    );
    assert_eq!(spans("+inf"), vec![(0, 4), (4, 4)]);
}

#[test]
fn tokenize_string_literal() {
    assert_eq!(kinds("\"hi there\""), vec![TokenKind::Str("hi there".to_string()), TokenKind::Eof]);
    assert_eq!(spans("\"hi there\""), vec![(0, 10), (10, 10)]);
}

#[test]
fn tokenize_number_value() {
    assert_eq!(kinds("9223372036854775807"), vec![TokenKind::Int(i64::MAX), TokenKind::Eof]);
    assert_eq!(kinds("007"), vec![TokenKind::Int(7), TokenKind::Eof]);
}

#[test]
fn tokenize_unterminated_string_errors() {
    assert_eq!(tokenize("\"abc"), Err(LexError::UnterminatedString { span: Span { start: 0, end: 4 } }));
    assert_eq!(tokenize("\"ab\ncd\""), Err(LexError::UnterminatedString { span: Span { start: 0, end: 3 } }));
}

#[test]
fn tokenize_unknown_characters_error() {
    assert_eq!(tokenize("#"), Err(LexError::UnknownChar { ch: '#', span: Span { start: 0, end: 0 } }));
    assert_eq!(tokenize("a = b"), Err(LexError::UnknownChar { ch: '=', span: Span { start: 2, end: 3 } }));
    assert_eq!(tokenize("&x"), Err(LexError::UnknownChar { ch: '&', span: Span { start: 0, end: 1 } }));
    assert_eq!(tokenize("| x"), Err(LexError::UnknownChar { ch: '|', span: Span { start: 0, end: 1 } }));
}

#[test]
fn tokenize_empty_and_blank_sources() {
    assert_eq!(kinds(""), vec![TokenKind::Eof]);
    assert_eq!(spans(" \t\r\n"), vec![(4, 4)]);
}

#[test]
fn tokens_cover_source_outside_whitespace() {
    // Every character outside the tokens is white space, and the tokens are in order.
    let src = "  x1 <=\t{ 2 ,3 }\n";
    let tokens = tokenize(src).expect("tokenize");
    let chars: Vec<char> = src.chars().collect();
    for p in 0..chars.len() {
        let covered = tokens.iter().any(|t| t.span.start <= p && p < t.span.end);
        assert!(covered || chars[p].is_whitespace());
    }
    for w in tokens.windows(2) {
        assert!(w[0].span.end <= w[1].span.start);
    }
    let last = tokens.last().expect("last token");
    assert_eq!(last.kind, TokenKind::Eof);
    assert_eq!(last.span, Span { start: chars.len(), end: chars.len() });
    assert_eq!(tokens.iter().filter(|t| t.kind == TokenKind::Eof).count(), 1);
}

#[test]
fn span_default_is_empty_at_start() {
    assert_eq!(Span::default(), Span { start: 0, end: 0 });
}

#[test]
fn checked_tokenizing_reports_numbers_too_large() {
    assert_eq!(tokenize_checked("1 + 9223372036854775807"), Some(tokenize("1 + 9223372036854775807")));
    assert_eq!(
        tokenize_checked("9223372036854775807").map(|r| r.map(|ts| ts[0].kind.clone())),
        Some(Ok(TokenKind::Int(i64::MAX)))
    );
    assert_eq!(tokenize_checked("1 + 9223372036854775808"), None);
    assert_eq!(tokenize_checked("99999999999999999999 = 1"), None);
    assert_eq!(tokenize_checked("x = 99999999999999999999"), Some(tokenize("x = 99999999999999999999")));
    assert!(matches!(tokenize_checked("x = 1"), Some(Err(LexError::UnknownChar { ch: '=', .. }))));
    assert_eq!(tokenize_checked(""), Some(Ok(vec![Token { kind: TokenKind::Eof, span: Span { start: 0, end: 0 } }])));
}

#[test]
fn spans_are_byte_offsets() {
    assert_eq!(
        tokenize("\"\u{e9}\""),
        Ok(vec![
            Token { kind: TokenKind::Str("\u{e9}".to_string()), span: Span { start: 0, end: 4 } },
            Token { kind: TokenKind::Eof, span: Span { start: 4, end: 4 } },
        ])
    );
    assert_eq!(spans("\"\u{1F600}\" + x"), vec![(0, 6), (7, 8), (9, 10), (10, 10)]);
    assert_eq!(
        tokenize("x \u{e9}"),
        Err(LexError::UnknownChar { ch: '\u{e9}', span: Span { start: 2, end: 2 } })
    );
    assert_eq!(
        tokenize("\u{e9}\u{e9} \"ab"),
        Err(LexError::UnknownChar { ch: '\u{e9}', span: Span { start: 0, end: 0 } })
    );
    assert_eq!(
        tokenize("\"\u{e9}\u{e9}\nx"),
        Err(LexError::UnterminatedString { span: Span { start: 0, end: 5 } })
    );
}

#[test]
fn each_token_lexes_alone_from_its_span() {
    for src in ["1 + 23*x", "s |> map(x -> x) != {1, 2}", "\"\u{e9}t\u{e9}\" in [-inf, +inf)", "a::B <= c.d && !e", "card(s) union t"] {
        let tokens = tokenize(src).expect("tokenize");
        for t in tokens.iter().filter(|t| t.kind != TokenKind::Eof) {
            let alone = &src[t.span.start..t.span.end];
            let n = alone.len();
            assert_eq!(
                tokenize(alone),
                Ok(vec![
                    Token { kind: t.kind.clone(), span: Span { start: 0, end: n } },
                    Token { kind: TokenKind::Eof, span: Span { start: n, end: n } },
                ]),
                "{}",
                alone
            );
        }
    }
}
