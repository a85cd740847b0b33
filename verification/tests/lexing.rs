use drgns::Diagnostic;
use drgns::ErrorHandler;
use drgns::Lexer;
use drgns::Reader;
use drgns::SourceArena;
use drgns::TokenLiteral;
use drgns::TokenType;

fn render_string(a: &SourceArena, v: &drgns::SourceView) -> String {
    a.render(v).unwrap().into_iter().collect()
}

fn chars_of(s: &str) -> Vec<char> {
    s.chars().collect()
}

fn any_diag(eh: &ErrorHandler, pred: impl Fn(&Diagnostic) -> bool) -> bool {
    (0..eh.error_count()).any(|i| pred(eh.error_at(i)))
}

/// One sample text per token kind, in declaration order.
fn token_table() -> Vec<(&'static str, TokenType)> {
    vec![
        (";", TokenType::Semicolon),
        ("(", TokenType::LeftParen),
        (")", TokenType::RightParen),
        (",", TokenType::Comma),
        ("+", TokenType::Plus),
        ("%", TokenType::Percent),
        ("-", TokenType::Minus),
        ("/", TokenType::Slash),
        ("*", TokenType::Star),
        ("**", TokenType::Pow),
        (":=", TokenType::ColonEquals),
        ("andy", TokenType::Identifier),
        ("42", TokenType::IntLit),
        ("exit", TokenType::Exit),
        (" ", TokenType::Ignore),
        ("?", TokenType::Unknown),
    ]
}

#[test]
fn lex_single_tokens() {
    let mut a = SourceArena::new(1);
    let mut eh = ErrorHandler::new();
    let mut lx = Lexer::new(Reader::from_arena(&a));

    for (text, tt) in token_table() {
        a.intern(chars_of(text));
        a.intern(chars_of(" "));
        assert_eq!(lx.scan_token(&a, &mut eh).unwrap().token_type, tt);
        assert_eq!(
            lx.scan_token(&a, &mut eh).unwrap().token_type,
            TokenType::Ignore
        );
    }
}

#[test]
fn lex_token_pairs() {
    let mut a = SourceArena::new(2);
    let mut eh = ErrorHandler::new();
    let mut lx = Lexer::new(Reader::from_arena(&a));

    for (text1, tt1) in token_table() {
        for (text2, tt2) in token_table() {
            a.intern(chars_of(text1));
            a.intern(chars_of(" "));
            a.intern(chars_of(text2));
            a.intern(chars_of(" "));
            assert_eq!(lx.scan_token(&a, &mut eh).unwrap().token_type, tt1);
            assert_eq!(
                lx.scan_token(&a, &mut eh).unwrap().token_type,
                TokenType::Ignore
            );
            assert_eq!(lx.scan_token(&a, &mut eh).unwrap().token_type, tt2);
            assert_eq!(
                lx.scan_token(&a, &mut eh).unwrap().token_type,
                TokenType::Ignore
            );
        }
    }
}

#[test]
fn lex_arbitrary_text() {
    let mut a = SourceArena::new(3);
    let mut eh = ErrorHandler::new();
    let mut lx = Lexer::new(Reader::from_arena(&a));

    let all_ascii = "\n\r\t !\"#$%&'()*+,-./0123456789:;<=>?@ABCDEFGHIJKLMNOPQRSTUVWXYZ[\\]^_`abcdefghijklmnopqrstuvwxyz{|}~";
    for c1 in all_ascii.chars() {
        for c2 in all_ascii.chars() {
            a.intern(vec![c1, c2]);
        }
    }
    // just asserting that it lexes all the way through
    while lx.scan_token(&a, &mut eh).is_some() {}
}

#[test]
fn lex_int_literals() {
    let mut a = SourceArena::new(4);
    let mut eh = ErrorHandler::new();
    let mut lx = Lexer::new(Reader::from_arena(&a));
    a.intern(chars_of("1234"));
    let t = lx.next(&a, &mut eh).unwrap();
    assert_eq!(t.token_type, TokenType::IntLit);
    assert_eq!(render_string(&a, &t.lexeme), "1234");
}

#[test]
fn int_literal_decoded_value_and_separators() {
    let mut a = SourceArena::new(5);
    let mut eh = ErrorHandler::new();
    let mut lx = Lexer::new(Reader::from_arena(&a));
    a.intern(chars_of("1_234_567"));
    let t = lx.next(&a, &mut eh).unwrap();
    assert_eq!(t.token_type, TokenType::IntLit);
    assert!(matches!(t.literal, Some(TokenLiteral::Int(1234567))));
    assert_eq!(eh.error_count(), 0);
}

#[test]
fn int_literal_overflow_reports_and_substitutes() {
    let mut a = SourceArena::new(6);
    let mut eh = ErrorHandler::new();
    let mut lx = Lexer::new(Reader::from_arena(&a));
    a.intern(chars_of("99999999999999999999"));
    let t = lx.next(&a, &mut eh).unwrap();
    assert_eq!(t.token_type, TokenType::IntLit);
    assert!(matches!(t.literal, Some(TokenLiteral::Int(1))));
    assert_eq!(eh.error_count(), 1);
    assert!(matches!(eh.error_at(0), Diagnostic::IntTooBig { .. }));
}

#[test]
fn keywords_and_identifiers() {
    let mut a = SourceArena::new(7);
    let mut eh = ErrorHandler::new();
    let mut lx = Lexer::new(Reader::from_arena(&a));
    a.intern(chars_of("exit exits _tmp1"));
    assert_eq!(lx.next(&a, &mut eh).unwrap().token_type, TokenType::Exit);
    assert_eq!(
        lx.next(&a, &mut eh).unwrap().token_type,
        TokenType::Identifier
    );
    assert_eq!(
        lx.next(&a, &mut eh).unwrap().token_type,
        TokenType::Identifier
    );
    assert!(lx.next(&a, &mut eh).is_none());
}

#[test]
fn comments_are_ignorable_tokens() {
    let mut a = SourceArena::new(8);
    let mut eh = ErrorHandler::new();
    let mut lx = Lexer::new(Reader::from_arena(&a));
    a.intern(chars_of("1 // rest of line\n2"));
    let toks = lx.tokenize(&a, &mut eh);
    let kinds: Vec<TokenType> = toks.iter().map(|t| t.token_type).collect();
    assert_eq!(
        kinds,
        vec![
            TokenType::IntLit,
            TokenType::Ignore,
            TokenType::Ignore,
            TokenType::Ignore,
            TokenType::IntLit,
        ]
    );
    // the comment's lexeme stops before the line break
    assert_eq!(render_string(&a, &toks[2].lexeme), "// rest of line");
}

#[test]
fn exhaustive_coverage_reconstructs_input() {
    let text = "exit := (1 + 2_0) * [x] // note\n\"a\\tb ${ 9 }\" %?";
    let mut a = SourceArena::new(9);
    let mut eh = ErrorHandler::new();
    let mut lx = Lexer::new(Reader::from_arena(&a));
    a.intern(chars_of(text));
    let toks = lx.tokenize(&a, &mut eh);
    let mut rebuilt = String::new();
    for t in &toks {
        rebuilt.push_str(&render_string(&a, &t.lexeme));
    }
    assert_eq!(rebuilt, text);
}

#[test]
fn unmatched_closer_reports_and_terminates() {
    let mut a = SourceArena::new(10);
    let mut eh = ErrorHandler::new();
    let mut lx = Lexer::new(Reader::from_arena(&a));
    a.intern(chars_of(")"));
    let t = lx.scan_token(&a, &mut eh).unwrap();
    assert_eq!(t.token_type, TokenType::Ignore);
    assert_eq!(eh.error_count(), 1);
    assert!(matches!(
        eh.error_at(0),
        Diagnostic::UnmatchedDelimiter { delimiter: ')', .. }
    ));
    assert!(lx.scan_token(&a, &mut eh).is_none());
    assert_eq!(lx.delim_depth(), 1);
    assert_eq!(eh.error_count(), 1);
}

#[test]
fn balanced_input_returns_mode_stack_to_base() {
    let mut a = SourceArena::new(11);
    let mut eh = ErrorHandler::new();
    let mut lx = Lexer::new(Reader::from_arena(&a));
    a.intern(chars_of("( [ { \"ab ${ 1 + 2 } cd\" } ] )"));
    while lx.scan_token(&a, &mut eh).is_some() {
        assert!(lx.delim_depth() >= 1);
    }
    assert_eq!(lx.delim_depth(), 1);
    assert_eq!(eh.error_count(), 0);
}

#[test]
fn string_escapes_decode_into_literal() {
    let mut a = SourceArena::new(12);
    let mut eh = ErrorHandler::new();
    let mut lx = Lexer::new(Reader::from_arena(&a));
    a.intern(chars_of("\"a\\nb\\\"c\\\\d\""));
    assert_eq!(lx.next(&a, &mut eh).unwrap().token_type, TokenType::Quote);
    let seg = lx.next(&a, &mut eh).unwrap();
    assert_eq!(seg.token_type, TokenType::StrLit);
    match seg.literal {
        Some(TokenLiteral::Str(v)) => {
            let s: String = v.into_iter().collect();
            assert_eq!(s, "a\nb\"c\\d");
        }
        other => panic!("expected a string literal, got {:?}", other),
    }
    assert_eq!(lx.next(&a, &mut eh).unwrap().token_type, TokenType::Quote);
    assert_eq!(eh.error_count(), 0);
}

#[test]
fn unclosed_string_is_reported_at_end_of_input() {
    let mut a = SourceArena::new(13);
    let mut eh = ErrorHandler::new();
    let mut lx = Lexer::new(Reader::from_arena(&a));
    a.intern(chars_of("\"abc"));
    assert_eq!(lx.next(&a, &mut eh).unwrap().token_type, TokenType::Quote);
    assert_eq!(lx.next(&a, &mut eh).unwrap().token_type, TokenType::StrLit);
    assert!(lx.next(&a, &mut eh).is_none());
    assert_eq!(lx.delim_depth(), 1);
    assert!(matches!(
        eh.error_at(0),
        Diagnostic::UnclosedDelimiter { delimiter: '"', .. }
    ));
}

#[test]
fn unclosed_escape_is_reported() {
    let mut a = SourceArena::new(14);
    let mut eh = ErrorHandler::new();
    let mut lx = Lexer::new(Reader::from_arena(&a));
    a.intern(chars_of("\"ab\\"));
    assert_eq!(lx.next(&a, &mut eh).unwrap().token_type, TokenType::Quote);
    let seg = lx.next(&a, &mut eh).unwrap();
    assert_eq!(seg.token_type, TokenType::StrLit);
    assert!(any_diag(&eh, |d| matches!(
        d,
        Diagnostic::UnclosedEscapeSequence { .. }
    )));
}

#[test]
fn unexpected_character_is_reported_and_skipped() {
    let mut a = SourceArena::new(15);
    let mut eh = ErrorHandler::new();
    let mut lx = Lexer::new(Reader::from_arena(&a));
    a.intern(chars_of("1 @ 2"));
    assert_eq!(lx.next(&a, &mut eh).unwrap().token_type, TokenType::IntLit);
    assert_eq!(lx.next(&a, &mut eh).unwrap().token_type, TokenType::Unknown);
    assert!(matches!(
        eh.error_at(0),
        Diagnostic::UnexpectedCharacter { found: '@', .. }
    ));
    assert_eq!(lx.next(&a, &mut eh).unwrap().token_type, TokenType::IntLit);
}

#[test]
fn nesting_beyond_the_ceiling_is_refused() {
    let mut a = SourceArena::new(16);
    let mut eh = ErrorHandler::new();
    let mut lx = Lexer::new(Reader::from_arena(&a));
    let deep: String = std::iter::repeat('(')
        .take(drgns::MODE_STACK_MAX)
        .collect();
    a.intern(chars_of(&deep));
    // the base mode occupies one slot, so the last opener does not fit
    for _ in 0..drgns::MODE_STACK_MAX - 1 {
        assert_eq!(
            lx.scan_token(&a, &mut eh).unwrap().token_type,
            TokenType::LeftParen
        );
    }
    assert_eq!(lx.delim_depth(), drgns::MODE_STACK_MAX);
    assert_eq!(
        lx.scan_token(&a, &mut eh).unwrap().token_type,
        TokenType::Ignore
    );
    assert_eq!(lx.delim_depth(), drgns::MODE_STACK_MAX);
    assert!(any_diag(&eh, |d| matches!(d, Diagnostic::Generic { .. })));
}

#[test]
fn strings_nest_through_interpolation() {
    let mut a = SourceArena::new(17);
    let mut eh = ErrorHandler::new();
    let mut lx = Lexer::new(Reader::from_arena(&a));
    a.intern(chars_of("\"a${\"b\"}c\""));
    let kinds: Vec<TokenType> = lx
        .tokenize(&a, &mut eh)
        .iter()
        .map(|t| t.token_type)
        .collect();
    assert_eq!(
        kinds,
        vec![
            TokenType::Quote,
            TokenType::StrLit,
            TokenType::InterpStart,
            TokenType::Quote,
            TokenType::StrLit,
            TokenType::Quote,
            TokenType::RightBrace,
            TokenType::StrLit,
            TokenType::Quote,
        ]
    );
    assert_eq!(eh.error_count(), 0);
    assert_eq!(lx.delim_depth(), 1);
}

#[test]
fn error_handler_collects_in_order() {
    let mut a = SourceArena::new(18);
    let v = a.intern(chars_of("x"));
    let mut eh = ErrorHandler::new();
    assert!(!eh.had_error());
    eh.syntax_error(v, String::from("something odd"));
    eh.push_error(Diagnostic::UnexpectedEndOfInput);
    assert!(eh.had_error());
    assert_eq!(eh.error_count(), 2);
    assert!(matches!(eh.error_at(0), Diagnostic::Syntax { .. }));
    assert!(matches!(eh.error_at(1), Diagnostic::UnexpectedEndOfInput));
}
