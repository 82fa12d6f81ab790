use k_compiler::lexer::{tokenize, Lexer, Span, SpannedToken, TokenKind};

fn kinds(source: &str) -> Vec<TokenKind> {
    let mut lexer = Lexer::new(source);
    let mut tokens = Vec::new();
    while let Some(item) = lexer.next() {
        tokens.push(item.unwrap().token);
    }
    tokens
}

fn items(source: &str) -> Vec<SpannedToken> {
    let mut lexer = Lexer::new(source);
    let mut tokens = Vec::new();
    while let Some(item) = lexer.next() {
        tokens.push(item.unwrap());
    }
    tokens
}

#[test]
fn lexes_keywords_operators_and_comments() {
    let tokens = kinds("let value = 42; // ignore\nif (value >= 1) return value;");
    assert_eq!(
        tokens,
        vec![
            TokenKind::Let,
            TokenKind::Identifier("value".into()),
            TokenKind::Equal,
            TokenKind::Integer("42".into()),
            TokenKind::Semicolon,
            TokenKind::If,
            TokenKind::LeftParen,
            TokenKind::Identifier("value".into()),
            TokenKind::GreaterEqual,
            TokenKind::Integer("1".into()),
            TokenKind::RightParen,
            TokenKind::Return,
            TokenKind::Identifier("value".into()),
            TokenKind::Semicolon,
            TokenKind::Eof,
        ]
    );
}

#[test]
fn reports_unknown_bytes() {
    let error = Lexer::new("@").next().unwrap().unwrap_err();
    assert_eq!(error.span.start, 0);
}

#[test]
fn lexes_character_literals_and_escapes() {
    let tokens = kinds("'K' '\\n'");
    assert_eq!(
        tokens,
        vec![
            TokenKind::Character(b'K'),
            TokenKind::Character(b'\n'),
            TokenKind::Eof
        ]
    );
}

#[test]
fn lexes_string_literals() {
    let tokens = kinds("\"K\\n\"");
    assert_eq!(
        tokens,
        vec![TokenKind::StringLiteral(vec![b'K', b'\n']), TokenKind::Eof]
    );
}

#[test]
fn lexes_every_operator_and_fixed_width_keyword() {
    let tokens = kinds("u8 u16 u32 u64 i32 i64 bool struct extern + - * / == != < <= > >= & | ^ ~ << >> , [ ] . { }");
    assert_eq!(
        tokens,
        vec![
            TokenKind::U8,
            TokenKind::U16,
            TokenKind::U32,
            TokenKind::U64,
            TokenKind::I32,
            TokenKind::I64,
            TokenKind::Bool,
            TokenKind::Struct,
            TokenKind::Extern,
            TokenKind::Plus,
            TokenKind::Minus,
            TokenKind::Star,
            TokenKind::Slash,
            TokenKind::EqualEqual,
            TokenKind::NotEqual,
            TokenKind::Less,
            TokenKind::LessEqual,
            TokenKind::Greater,
            TokenKind::GreaterEqual,
            TokenKind::Ampersand,
            TokenKind::Pipe,
            TokenKind::Caret,
            TokenKind::Tilde,
            TokenKind::LessLess,
            TokenKind::GreaterGreater,
            TokenKind::Comma,
            TokenKind::LeftBracket,
            TokenKind::RightBracket,
            TokenKind::Dot,
            TokenKind::LeftBrace,
            TokenKind::RightBrace,
            TokenKind::Eof,
        ]
    );
}

#[test]
fn spans_are_ordered_and_end_of_input_is_empty() {
    let source = "int main() { return 'a'; } // done";
    let tokens = items(source);
    assert_eq!(tokens[0].span, Span::new(0, 3));
    assert_eq!(tokens.last().unwrap().token, TokenKind::Eof);
    assert_eq!(tokens.last().unwrap().span, Span::new(source.len(), source.len()));
    assert!(tokens.windows(2).all(|pair| pair[0].span.end <= pair[1].span.start));
}

#[test]
fn tokenize_collects_the_whole_stream() {
    let tokens = tokenize("x = 1;").unwrap();
    assert_eq!(tokens.len(), 5);
    assert_eq!(tokens[3].token, TokenKind::Semicolon);
    assert_eq!(tokens[3].span, Span::new(5, 6));
}

#[test]
fn lexer_resumes_after_errors_and_stops_after_end_of_input() {
    let mut lexer = Lexer::new("");
    assert_eq!(lexer.next().unwrap().unwrap().token, TokenKind::Eof);
    assert!(lexer.next().is_none());
    let mut resuming = Lexer::new("1 @ 2");
    assert_eq!(resuming.next().unwrap().unwrap().token, TokenKind::Integer("1".into()));
    assert!(resuming.next().unwrap().is_err());
    assert_eq!(resuming.next().unwrap().unwrap().token, TokenKind::Integer("2".into()));
    assert_eq!(resuming.next().unwrap().unwrap().token, TokenKind::Eof);
    assert!(resuming.next().is_none());
}

#[test]
fn reports_unterminated_literals_and_bad_escapes() {
    assert!(tokenize("\"open").is_err());
    assert!(tokenize("'ab'").is_err());
    assert!(tokenize("'\\q'").is_err());
    let error = tokenize("  $").unwrap_err();
    assert_eq!(error.span, Span::new(2, 3));
    assert_eq!(error.to_string(), "lex error at 2..3: unexpected byte 0x24");
    assert_eq!(
        tokenize("'\\q'").unwrap_err().message,
        "unknown character escape `\\113`"
    );
}

#[test]
fn token_text_names_each_kind() {
    assert_eq!(TokenKind::Semicolon.to_string(), ";");
    assert_eq!(TokenKind::Identifier("main".into()).to_string(), "identifier(main)");
    assert_eq!(TokenKind::Character(75).to_string(), "character(75)");
    assert_eq!(TokenKind::Eof.to_string(), "eof");
}

#[test]
fn string_literals_take_every_escape() {
    let tokens = items("\"\\'\"");
    assert_eq!(
        tokens[0],
        SpannedToken { token: TokenKind::StringLiteral(vec![b'\'']), span: Span { start: 0, end: 4 } }
    );
    assert_eq!(
        kinds("\"\\n\\r\\t\\\\\\\"\\'\""),
        vec![TokenKind::StringLiteral(vec![10, 13, 9, 92, 34, 39]), TokenKind::Eof]
    );
}

#[test]
fn the_stream_ends_once_at_the_end_of_the_source() {
    let source = "int x = 'a'; $ \"s\" // done\n";
    let mut lexer = Lexer::new(source);
    let mut spans = Vec::new();
    let mut ends = 0;
    while let Some(item) = lexer.next() {
        let span = match item {
            Ok(token) => {
                if token.token == TokenKind::Eof {
                    ends += 1;
                }
                token.span
            },
            Err(error) => error.span,
        };
        spans.push(span);
    }
    assert_eq!(ends, 1);
    assert!(spans.len() <= source.len() + 1);
    assert_eq!(*spans.last().unwrap(), Span { start: source.len(), end: source.len() });
    for pair in spans.windows(2) {
        assert!(pair[0].start <= pair[0].end && pair[0].end <= pair[1].start);
    }
}

#[test]
fn items_are_the_whole_stream_of_a_source() {
    let source = "let a = 'b'; @ \"c\\q\" ";
    let items = Lexer::new(source).items();
    assert!(!items.is_empty() && items.len() <= source.len() + 1);
    let spans: Vec<Span> = items
        .iter()
        .map(|item| match item {
            Ok(token) => token.span,
            Err(error) => error.span,
        })
        .collect();
    let ends: Vec<usize> = items
        .iter()
        .enumerate()
        .filter(|(_, item)| matches!(item, Ok(SpannedToken { token: TokenKind::Eof, .. })))
        .map(|(index, _)| index)
        .collect();
    assert_eq!(ends, vec![items.len() - 1]);
    assert_eq!(*spans.last().unwrap(), Span { start: source.len(), end: source.len() });
    for pair in spans.windows(2) {
        assert!(pair[0].start <= pair[0].end && pair[0].end <= pair[1].start);
    }
    let mut lexer = Lexer::new(source);
    let mut by_next = Vec::new();
    while let Some(item) = lexer.next() {
        by_next.push(item);
    }
    assert_eq!(by_next, items);
    assert!(lexer.items().is_empty());
}
