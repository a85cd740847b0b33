use drgns::BinOperator;
use drgns::Diagnostic;
use drgns::ErrorHandler;
use drgns::Expression;
use drgns::ExpressionEval;
use drgns::Lexer;
use drgns::Parser;
use drgns::Reader;
use drgns::Source;
use drgns::SourceArena;
use drgns::TokenType;
use drgns::UnOperator;
use drgns::Value;

fn parse(text: &str, id: u64) -> (SourceArena, ErrorHandler, Option<Expression>) {
    let mut a = SourceArena::new(id);
    let mut eh = ErrorHandler::new();
    let lx = Lexer::new(Reader::from_arena(&a));
    a.intern(text.chars().collect());
    let mut p = Parser::new(lx);
    let e = p.parse_expression(&a, &mut eh);
    (a, eh, e)
}

fn eval(e: &Expression) -> Option<Value> {
    let mut ev = ExpressionEval::new();
    e.walk(&mut ev);
    ev.result()
}

fn lit_value(e: &Expression) -> Value {
    match e {
        Expression::LE(l) => l.value,
        other => panic!("expected a literal, got {:?}", other),
    }
}

#[test]
fn literal_round_trip() {
    let (a, eh, e) = parse("1234", 31);
    let e = e.unwrap();
    assert_eq!(eh.error_count(), 0);
    assert_eq!(lit_value(&e), Value::Int(1234));
    let text: String = a.render(&e.span()).unwrap().into_iter().collect();
    assert_eq!(text, "1234");
}

#[test]
fn power_is_right_associative() {
    let (_a, eh, e) = parse("2 ** 3 ** 2", 32);
    assert_eq!(eh.error_count(), 0);
    let e = e.unwrap();
    match &e {
        Expression::BE(b) => {
            assert_eq!(b.op, BinOperator::Pow);
            assert_eq!(lit_value(&b.lhs), Value::Int(2));
            match &*b.rhs {
                Expression::BE(inner) => {
                    assert_eq!(inner.op, BinOperator::Pow);
                    assert_eq!(lit_value(&inner.lhs), Value::Int(3));
                    assert_eq!(lit_value(&inner.rhs), Value::Int(2));
                }
                other => panic!("expected a nested power, got {:?}", other),
            }
        }
        other => panic!("expected a binary expression, got {:?}", other),
    }
    assert_eq!(eval(&e), Some(Value::Int(512)));
}

#[test]
fn multiplication_binds_tighter_than_addition() {
    let (_a, eh, e) = parse("2 + 3 * 4", 33);
    assert_eq!(eh.error_count(), 0);
    let e = e.unwrap();
    match &e {
        Expression::BE(b) => {
            assert_eq!(b.op, BinOperator::Add);
            assert_eq!(lit_value(&b.lhs), Value::Int(2));
            match &*b.rhs {
                Expression::BE(inner) => {
                    assert_eq!(inner.op, BinOperator::Mul);
                    assert_eq!(lit_value(&inner.lhs), Value::Int(3));
                    assert_eq!(lit_value(&inner.rhs), Value::Int(4));
                }
                other => panic!("expected a nested product, got {:?}", other),
            }
        }
        other => panic!("expected a binary expression, got {:?}", other),
    }
    assert_eq!(eval(&e), Some(Value::Int(14)));
}

#[test]
fn error_continuation_on_missing_operand() {
    let (_a, eh, e) = parse("(1 + )", 34);
    assert!(e.is_none());
    assert!((0..eh.error_count()).any(|i| matches!(
        eh.error_at(i),
        Diagnostic::ExpectedExpression { got: Some(TokenType::RightParen), .. }
    )));
}

#[test]
fn unexpected_end_of_input_is_reported() {
    let (_a, eh, e) = parse("(1 + 2", 35);
    assert!(e.is_none());
    assert!((0..eh.error_count())
        .any(|i| matches!(eh.error_at(i), Diagnostic::UnexpectedEndOfInput)));
}

#[test]
fn grouping_overrides_precedence() {
    let (_a, eh, e) = parse("(2 + 3) * 4", 36);
    assert_eq!(eh.error_count(), 0);
    assert_eq!(eval(&e.unwrap()), Some(Value::Int(20)));
}

#[test]
fn unary_negation_nests() {
    let (_a, eh, e) = parse("--3", 37);
    assert_eq!(eh.error_count(), 0);
    let e = e.unwrap();
    match &e {
        Expression::UE(u) => {
            assert_eq!(u.op, UnOperator::Neg);
            assert!(matches!(&*u.rhs, Expression::UE(_)));
        }
        other => panic!("expected a unary expression, got {:?}", other),
    }
    assert_eq!(eval(&e), Some(Value::Int(3)));
}

#[test]
fn left_associative_subtraction_and_division() {
    let (_a, eh, e) = parse("10 - 3 - 2", 38);
    assert_eq!(eh.error_count(), 0);
    assert_eq!(eval(&e.unwrap()), Some(Value::Int(5)));
    let (_a, eh, e) = parse("100 / 10 / 5", 39);
    assert_eq!(eh.error_count(), 0);
    assert_eq!(eval(&e.unwrap()), Some(Value::Int(2)));
    let (_a, eh, e) = parse("7 % 4", 40);
    assert_eq!(eh.error_count(), 0);
    assert_eq!(eval(&e.unwrap()), Some(Value::Int(3)));
}

#[test]
fn spans_cover_whole_subexpressions() {
    let (a, eh, e) = parse("1 + 23 * 4", 41);
    assert_eq!(eh.error_count(), 0);
    let e = e.unwrap();
    let whole: String = a.render(&e.span()).unwrap().into_iter().collect();
    assert_eq!(whole, "1 + 23 * 4");
    match &e {
        Expression::BE(b) => {
            let rhs: String = a.render(&b.rhs.span()).unwrap().into_iter().collect();
            assert_eq!(rhs, "23 * 4");
        }
        other => panic!("expected a binary expression, got {:?}", other),
    }
}

#[test]
fn division_by_zero_poisons_evaluation() {
    let (_a, eh, e) = parse("1 / 0", 42);
    assert_eq!(eh.error_count(), 0);
    assert_eq!(eval(&e.unwrap()), None);
}

#[test]
fn value_arithmetic_edges() {
    assert_eq!(
        Value::Int(i64::MAX).add(Value::Int(1)),
        None::<Value>
    );
    assert_eq!(
        Value::Int(2).add(Value::Int(3)),
        Some(Value::Int(5))
    );
    assert_eq!(Value::Int(i64::MIN).neg(), None::<Value>);
    assert_eq!(Value::Int(5).neg(), Some(Value::Int(-5)));
    assert_eq!(
        Value::Int(i64::MIN).sub(Value::Int(1)),
        None::<Value>
    );
    assert_eq!(
        Value::Int(1 << 32).mul(Value::Int(1 << 32)),
        None::<Value>
    );
    assert_eq!(Value::Int(-7).div(Value::Int(2)), Some(Value::Int(-3)));
    assert_eq!(Value::Int(-7).rem(Value::Int(2)), Some(Value::Int(-1)));
    assert_eq!(Value::Int(7).div(Value::Int(0)), None::<Value>);
    assert_eq!(Value::Int(7).rem(Value::Int(0)), None::<Value>);
    assert_eq!(Value::Int(i64::MIN).div(Value::Int(-1)), None::<Value>);
    assert_eq!(Value::Int(i64::MIN).rem(Value::Int(-1)), None::<Value>);
}

#[test]
fn value_pow_edges() {
    assert_eq!(Value::Int(2).pow(Value::Int(10)), Some(Value::Int(1024)));
    assert_eq!(Value::Int(2).pow(Value::Int(0)), Some(Value::Int(1)));
    assert_eq!(Value::Int(0).pow(Value::Int(0)), Some(Value::Int(1)));
    assert_eq!(Value::Int(0).pow(Value::Int(5)), Some(Value::Int(0)));
    assert_eq!(Value::Int(2).pow(Value::Int(-1)), None::<Value>);
    assert_eq!(Value::Int(2).pow(Value::Int(63)), None::<Value>);
    assert_eq!(
        Value::Int(-2).pow(Value::Int(63)),
        Some(Value::Int(i64::MIN))
    );
    assert_eq!(Value::Int(-2).pow(Value::Int(3)), Some(Value::Int(-8)));
    assert_eq!(Value::Int(-1).pow(Value::Int(1000001)), Some(Value::Int(-1)));
}

#[test]
fn render_fails_recoverably_for_foreign_views() {
    let mut a1 = SourceArena::new(51);
    let mut a2 = SourceArena::new(52);
    let v1 = a1.intern("hello".chars().collect());
    let v2 = a2.intern("world!".chars().collect());
    assert_eq!(
        a1.render(&v1).unwrap().into_iter().collect::<String>(),
        "hello"
    );
    assert_eq!(a1.render(&v2), Err(drgns::RenderError::ForeignArena));
    // append-only: earlier views render unchanged after more interning
    a1.intern(" more".chars().collect());
    assert_eq!(
        a1.render(&v1).unwrap().into_iter().collect::<String>(),
        "hello"
    );
    assert_eq!(
        a1.dump().into_iter().collect::<String>(),
        "hello more"
    );
}

#[test]
fn reader_window_and_views() {
    let mut a = SourceArena::new(53);
    let mut eh = ErrorHandler::new();
    let _ = &mut eh;
    let v = a.intern("abc".chars().collect());
    let mut r = Reader::from_arena(&a);
    assert_eq!(r.peek(&a), Some('a'));
    assert_eq!(r.peek_n(&a, 2), Some('c'));
    assert_eq!(r.peek_n(&a, 3), None);
    assert_eq!(r.advance_head(&a), Some('a'));
    assert_eq!(r.advance_head(&a), Some('b'));
    let w = r.advance_tail();
    assert_eq!(a.render(&w).unwrap().into_iter().collect::<String>(), "ab");
    assert!(!r.is_at_end(&a));
    assert_eq!(r.advance_head(&a), Some('c'));
    assert!(r.is_at_end(&a));
    assert_eq!(r.advance_head(&a), None);

    // a relative reader is limited to its view
    let mut r2 = Reader::from_span(w);
    assert_eq!(r2.rel_bounds(&a), 2);
    assert_eq!(r2.abs_bounds(&a), (0, 2));
    assert_eq!(r2.advance_head(&a), Some('a'));
    assert_eq!(r2.advance_head(&a), Some('b'));
    assert_eq!(r2.advance_head(&a), None);
    let _ = v;
}

#[test]
fn source_from_string_keeps_text() {
    let s = Source::from_string(String::from("let x"));
    let text: String = s.chars().iter().collect();
    assert_eq!(text, "let x");
    assert!(s.name().is_none());
}

#[test]
fn synchronize_skips_to_statement_end() {
    let mut a = SourceArena::new(54);
    let mut eh = ErrorHandler::new();
    let lx = Lexer::new(Reader::from_arena(&a));
    a.intern("1 2 ; 3".chars().collect());
    let mut p = Parser::new(lx);
    let e = p.parse_expression(&a, &mut eh);
    assert!(e.is_some());
    p.synchronize(&a, &mut eh);
    let rest = p.parse_expression(&a, &mut eh);
    assert_eq!(eval(&rest.unwrap()), Some(Value::Int(3)));
}

#[test]
fn unexpected_token_names_expected_and_found() {
    let (_a, eh, e) = parse("(1 2", 55);
    assert!(e.is_none());
    assert!((0..eh.error_count()).any(|i| matches!(
        eh.error_at(i),
        Diagnostic::UnexpectedToken {
            got: TokenType::IntLit,
            ..
        }
    )));
}

#[test]
fn arena_get_and_length() {
    let mut a = SourceArena::new(56);
    assert_eq!(a.len(), 0);
    a.intern("ab".chars().collect());
    assert_eq!(a.len(), 2);
    assert_eq!(a.get(0), Some('a'));
    assert_eq!(a.get(1), Some('b'));
    assert_eq!(a.get(2), None);
    assert_eq!(a.char_at(1), 'b');
}
