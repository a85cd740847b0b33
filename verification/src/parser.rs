//! Recursive-descent, precedence-ordered expression parser over the
//! lookahead cursor.
//!
//! Method naming convention, kept from the grammar's design:
//! - `parse_*`: on failure consumes no tokens and reports a diagnostic;
//! - `match_*`: never consumes tokens, only advances the lookahead branch,
//!   and reports nothing of its own.
//!
//! Termination is by a lexicographic measure: the unconsumed input shrinks
//! on every committed token, and within one position the grammar rank only
//! ever falls (expression > term > factor > power > unary > primary >
//! grouping).

use vstd::prelude::*;

use crate::arena::SourceArena;
use crate::arena::SourceView;
use crate::ast::BinExpression;
use crate::ast::BinOperator;
use crate::ast::Expression;
use crate::ast::LitExpression;
use crate::ast::UnExpression;
use crate::ast::UnOperator;
use crate::error_handler::diags_extend;
use crate::error_handler::Diagnostic;
use crate::error_handler::ErrorHandler;
use crate::lexer::spec_next;
use crate::lexer::Lexer;
use crate::lexer::LexerMode;
use crate::lexer::Token;
use crate::lexer::TokenLiteral;
use crate::lexer::TokenType;
use crate::lookahead::lookahead;
use crate::lookahead::Lookahead;
use crate::values::Value;

verus! {

// ---------------------------------------------------------------------------
// the grammar, as a function
// ---------------------------------------------------------------------------
//
// Each production below is the mathematical counterpart of one `parse_*`
// method: a pure function from a parse state (committed position and mode
// stack) to the tree the grammar admits there, the state afterwards, and
// failure where no derivation exists — the parser analogue of the lexer's
// `spec_scan`/`spec_next`. The functions take a fuel argument only to make
// the recursion well-founded; any fuel of at least one unit per remaining
// character gives the same answer (`lemma_parse_fuel`), and the methods'
// contracts use `parse_fuel`.

/// The value an integer-literal token decodes to (the lossy fallback when
/// the lexer attached none).
pub open spec fn lit_to_value(l: Option<crate::lexer::LitModel>) -> Value {
    match l {
        Some(crate::lexer::LitModel::Int(v)) => Value::Int(v as i64),
        _ => Value::Int(1),
    }
}

/// The binary operator a token kind denotes.
pub open spec fn bin_op_of(k: TokenType) -> BinOperator {
    if k == TokenType::Pow {
        BinOperator::Pow
    } else if k == TokenType::Star {
        BinOperator::Mul
    } else if k == TokenType::Slash {
        BinOperator::Div
    } else if k == TokenType::Percent {
        BinOperator::Mod
    } else if k == TokenType::Plus {
        BinOperator::Add
    } else {
        BinOperator::Sub
    }
}

/// What one production leaves behind: the derived tree (or nothing), and
/// the parse state after it.
pub ghost struct ParseStep {
    pub result: Option<Expression>,
    pub pos: int,
    pub modes: Seq<LexerMode>,
}

/// The span of a binary node: from its left child's start to its right
/// child's end.
pub open spec fn join_span(sid: u64, l: Expression, r: Expression) -> SourceView {
    SourceView { store_id: sid, start: l.span_of().start, end: r.span_of().end }
}

/// Fuel that is always enough: one unit per unconsumed character, plus one.
pub open spec fn parse_fuel(hi: int, pos: int) -> nat {
    (hi - pos + 1) as nat
}

/// `primary := IntLit | '(' expression ')'`
pub open spec fn spec_primary(
    f: nat,
    src: Seq<char>,
    sid: u64,
    hi: int,
    pos: int,
    modes: Seq<LexerMode>,
) -> ParseStep
    decreases f, 1int,
{
    let o = spec_next(src, sid, hi, pos, modes);
    if o.tok is Some && o.tok->0.kind == TokenType::IntLit {
        ParseStep {
            result: Some(
                Expression::LE(
                    LitExpression {
                        value: lit_to_value(o.tok->0.lit),
                        span: crate::lexer::spec_span(sid, o.tok->0.start, o.tok->0.end),
                    },
                ),
            ),
            pos: o.pos,
            modes: o.modes,
        }
    } else {
        spec_grouping(f, src, sid, hi, pos, modes)
    }
}

/// `'(' expression ')'`: the parentheses are consumed and contribute no
/// node — the result is exactly the inner expression.
pub open spec fn spec_grouping(
    f: nat,
    src: Seq<char>,
    sid: u64,
    hi: int,
    pos: int,
    modes: Seq<LexerMode>,
) -> ParseStep
    decreases f, 0int,
{
    let o = spec_next(src, sid, hi, pos, modes);
    if o.tok is Some && o.tok->0.kind == TokenType::LeftParen {
        if f == 0 {
            ParseStep { result: None, pos, modes }
        } else {
            let inner = spec_expression((f - 1) as nat, src, sid, hi, o.pos, o.modes);
            match inner.result {
                Some(e) => {
                    let c = spec_next(src, sid, hi, inner.pos, inner.modes);
                    if c.tok is Some && c.tok->0.kind == TokenType::RightParen {
                        ParseStep { result: Some(e), pos: c.pos, modes: c.modes }
                    } else {
                        ParseStep { result: None, pos: inner.pos, modes: inner.modes }
                    }
                },
                None => ParseStep { result: None, pos: inner.pos, modes: inner.modes },
            }
        }
    } else {
        ParseStep { result: None, pos, modes }
    }
}

/// `unary := '-' unary | primary`
pub open spec fn spec_unary(
    f: nat,
    src: Seq<char>,
    sid: u64,
    hi: int,
    pos: int,
    modes: Seq<LexerMode>,
) -> ParseStep
    decreases f, 2int,
{
    let o = spec_next(src, sid, hi, pos, modes);
    if o.tok is Some && o.tok->0.kind == TokenType::Minus {
        if f == 0 {
            ParseStep { result: None, pos, modes }
        } else {
            let r = spec_unary((f - 1) as nat, src, sid, hi, o.pos, o.modes);
            match r.result {
                Some(e) => ParseStep {
                    result: Some(
                        Expression::UE(
                            UnExpression {
                                op: UnOperator::Neg,
                                rhs: Box::new(e),
                                span: SourceView {
                                    store_id: sid,
                                    start: o.tok->0.start as usize,
                                    end: e.span_of().end,
                                },
                            },
                        ),
                    ),
                    pos: r.pos,
                    modes: r.modes,
                },
                None => ParseStep { result: None, pos: r.pos, modes: r.modes },
            }
        }
    } else {
        spec_primary(f, src, sid, hi, pos, modes)
    }
}

/// `power := unary ( '**' power )?` — the recursion to the right makes
/// `**` group right-associatively.
pub open spec fn spec_power(
    f: nat,
    src: Seq<char>,
    sid: u64,
    hi: int,
    pos: int,
    modes: Seq<LexerMode>,
) -> ParseStep
    decreases f, 3int,
{
    let u = spec_unary(f, src, sid, hi, pos, modes);
    match u.result {
        None => u,
        Some(e) => {
            let o = spec_next(src, sid, hi, u.pos, u.modes);
            if o.tok is Some && o.tok->0.kind == TokenType::Pow {
                if f == 0 {
                    ParseStep { result: None, pos: u.pos, modes: u.modes }
                } else {
                    let r = spec_power((f - 1) as nat, src, sid, hi, o.pos, o.modes);
                    match r.result {
                        Some(rhs) => ParseStep {
                            result: Some(
                                Expression::BE(
                                    BinExpression {
                                        lhs: Box::new(e),
                                        op: BinOperator::Pow,
                                        rhs: Box::new(rhs),
                                        span: join_span(sid, e, rhs),
                                    },
                                ),
                            ),
                            pos: r.pos,
                            modes: r.modes,
                        },
                        None => ParseStep { result: None, pos: r.pos, modes: r.modes },
                    }
                }
            } else {
                ParseStep { result: Some(e), pos: u.pos, modes: u.modes }
            }
        },
    }
}

/// `factor := power ( ('*'|'/'|'%') power )*`: each further operator folds
/// onto the left, so the chain groups left-associatively.
pub open spec fn spec_factor(
    f: nat,
    src: Seq<char>,
    sid: u64,
    hi: int,
    pos: int,
    modes: Seq<LexerMode>,
) -> ParseStep
    decreases f, 5int,
{
    let p = spec_power(f, src, sid, hi, pos, modes);
    match p.result {
        None => p,
        Some(e) => {
            if f == 0 {
                ParseStep { result: None, pos: p.pos, modes: p.modes }
            } else {
                spec_factor_more((f - 1) as nat, src, sid, hi, e, p.pos, p.modes)
            }
        },
    }
}

pub open spec fn spec_factor_more(
    f: nat,
    src: Seq<char>,
    sid: u64,
    hi: int,
    acc: Expression,
    pos: int,
    modes: Seq<LexerMode>,
) -> ParseStep
    decreases f, 4int,
{
    let o = spec_next(src, sid, hi, pos, modes);
    if o.tok is Some && (o.tok->0.kind == TokenType::Star || o.tok->0.kind == TokenType::Slash
        || o.tok->0.kind == TokenType::Percent) {
        if f == 0 {
            ParseStep { result: None, pos, modes }
        } else {
            let r = spec_power(f, src, sid, hi, o.pos, o.modes);
            match r.result {
                Some(rhs) => spec_factor_more(
                    (f - 1) as nat,
                    src,
                    sid,
                    hi,
                    Expression::BE(
                        BinExpression {
                            lhs: Box::new(acc),
                            op: bin_op_of(o.tok->0.kind),
                            rhs: Box::new(rhs),
                            span: join_span(sid, acc, rhs),
                        },
                    ),
                    r.pos,
                    r.modes,
                ),
                None => ParseStep { result: None, pos: r.pos, modes: r.modes },
            }
        }
    } else {
        ParseStep { result: Some(acc), pos, modes }
    }
}

/// `term := factor ( ('+'|'-') factor )*`, left-associative.
pub open spec fn spec_term(
    f: nat,
    src: Seq<char>,
    sid: u64,
    hi: int,
    pos: int,
    modes: Seq<LexerMode>,
) -> ParseStep
    decreases f, 7int,
{
    let p = spec_factor(f, src, sid, hi, pos, modes);
    match p.result {
        None => p,
        Some(e) => {
            if f == 0 {
                ParseStep { result: None, pos: p.pos, modes: p.modes }
            } else {
                spec_term_more((f - 1) as nat, src, sid, hi, e, p.pos, p.modes)
            }
        },
    }
}

pub open spec fn spec_term_more(
    f: nat,
    src: Seq<char>,
    sid: u64,
    hi: int,
    acc: Expression,
    pos: int,
    modes: Seq<LexerMode>,
) -> ParseStep
    decreases f, 6int,
{
    let o = spec_next(src, sid, hi, pos, modes);
    if o.tok is Some && (o.tok->0.kind == TokenType::Plus || o.tok->0.kind
        == TokenType::Minus) {
        if f == 0 {
            ParseStep { result: None, pos, modes }
        } else {
            let r = spec_factor(f, src, sid, hi, o.pos, o.modes);
            match r.result {
                Some(rhs) => spec_term_more(
                    (f - 1) as nat,
                    src,
                    sid,
                    hi,
                    Expression::BE(
                        BinExpression {
                            lhs: Box::new(acc),
                            op: bin_op_of(o.tok->0.kind),
                            rhs: Box::new(rhs),
                            span: join_span(sid, acc, rhs),
                        },
                    ),
                    r.pos,
                    r.modes,
                ),
                None => ParseStep { result: None, pos: r.pos, modes: r.modes },
            }
        }
    } else {
        ParseStep { result: Some(acc), pos, modes }
    }
}

/// `expression := term` — the whole grammar.
pub open spec fn spec_expression(
    f: nat,
    src: Seq<char>,
    sid: u64,
    hi: int,
    pos: int,
    modes: Seq<LexerMode>,
) -> ParseStep
    decreases f, 8int,
{
    spec_term(f, src, sid, hi, pos, modes)
}

// Any two sufficient fuels (at least one unit per unconsumed character)
// give every production the same answer, the result state stays inside the
// input with a well-formed mode stack, and a successful derivation consumes
// at least one character. The productions' contracts rely on these facts to
// speak of `parse_fuel` alone.

pub proof fn lemma_fuel_grouping(
    f1: nat,
    f2: nat,
    src: Seq<char>,
    sid: u64,
    hi: int,
    pos: int,
    modes: Seq<LexerMode>,
)
    requires
        0 <= pos <= hi <= src.len(),
        crate::lexer::modes_wf(modes),
        f1 >= hi - pos + 1,
        f2 >= hi - pos + 1,
    ensures
        spec_grouping(f1, src, sid, hi, pos, modes) == spec_grouping(f2, src, sid, hi, pos, modes),
        pos <= spec_grouping(f1, src, sid, hi, pos, modes).pos <= hi,
        crate::lexer::modes_wf(spec_grouping(f1, src, sid, hi, pos, modes).modes),
        spec_grouping(f1, src, sid, hi, pos, modes).result is Some ==> spec_grouping(
            f1,
            src,
            sid,
            hi,
            pos,
            modes,
        ).pos > pos,
    decreases (if f1 <= f2 {
        f1
    } else {
        f2
    }), 0int,
{
    crate::lexer::lemma_spec_next_props(src, sid, hi, pos, modes);
    let o = spec_next(src, sid, hi, pos, modes);
    if o.tok is Some && o.tok->0.kind == TokenType::LeftParen {
        lemma_fuel_expression((f1 - 1) as nat, (f2 - 1) as nat, src, sid, hi, o.pos, o.modes);
        let inner = spec_expression((f1 - 1) as nat, src, sid, hi, o.pos, o.modes);
        if inner.result is Some {
            crate::lexer::lemma_spec_next_props(src, sid, hi, inner.pos, inner.modes);
        }
    }
}

pub proof fn lemma_fuel_primary(
    f1: nat,
    f2: nat,
    src: Seq<char>,
    sid: u64,
    hi: int,
    pos: int,
    modes: Seq<LexerMode>,
)
    requires
        0 <= pos <= hi <= src.len(),
        crate::lexer::modes_wf(modes),
        f1 >= hi - pos + 1,
        f2 >= hi - pos + 1,
    ensures
        spec_primary(f1, src, sid, hi, pos, modes) == spec_primary(f2, src, sid, hi, pos, modes),
        pos <= spec_primary(f1, src, sid, hi, pos, modes).pos <= hi,
        crate::lexer::modes_wf(spec_primary(f1, src, sid, hi, pos, modes).modes),
        spec_primary(f1, src, sid, hi, pos, modes).result is Some ==> spec_primary(
            f1,
            src,
            sid,
            hi,
            pos,
            modes,
        ).pos > pos,
    decreases (if f1 <= f2 {
        f1
    } else {
        f2
    }), 1int,
{
    crate::lexer::lemma_spec_next_props(src, sid, hi, pos, modes);
    let o = spec_next(src, sid, hi, pos, modes);
    if !(o.tok is Some && o.tok->0.kind == TokenType::IntLit) {
        lemma_fuel_grouping(f1, f2, src, sid, hi, pos, modes);
    }
}

pub proof fn lemma_fuel_unary(
    f1: nat,
    f2: nat,
    src: Seq<char>,
    sid: u64,
    hi: int,
    pos: int,
    modes: Seq<LexerMode>,
)
    requires
        0 <= pos <= hi <= src.len(),
        crate::lexer::modes_wf(modes),
        f1 >= hi - pos + 1,
        f2 >= hi - pos + 1,
    ensures
        spec_unary(f1, src, sid, hi, pos, modes) == spec_unary(f2, src, sid, hi, pos, modes),
        pos <= spec_unary(f1, src, sid, hi, pos, modes).pos <= hi,
        crate::lexer::modes_wf(spec_unary(f1, src, sid, hi, pos, modes).modes),
        spec_unary(f1, src, sid, hi, pos, modes).result is Some ==> spec_unary(
            f1,
            src,
            sid,
            hi,
            pos,
            modes,
        ).pos > pos,
    decreases (if f1 <= f2 {
        f1
    } else {
        f2
    }), 2int,
{
    crate::lexer::lemma_spec_next_props(src, sid, hi, pos, modes);
    let o = spec_next(src, sid, hi, pos, modes);
    if o.tok is Some && o.tok->0.kind == TokenType::Minus {
        lemma_fuel_unary((f1 - 1) as nat, (f2 - 1) as nat, src, sid, hi, o.pos, o.modes);
    } else {
        lemma_fuel_primary(f1, f2, src, sid, hi, pos, modes);
    }
}

pub proof fn lemma_fuel_power(
    f1: nat,
    f2: nat,
    src: Seq<char>,
    sid: u64,
    hi: int,
    pos: int,
    modes: Seq<LexerMode>,
)
    requires
        0 <= pos <= hi <= src.len(),
        crate::lexer::modes_wf(modes),
        f1 >= hi - pos + 1,
        f2 >= hi - pos + 1,
    ensures
        spec_power(f1, src, sid, hi, pos, modes) == spec_power(f2, src, sid, hi, pos, modes),
        pos <= spec_power(f1, src, sid, hi, pos, modes).pos <= hi,
        crate::lexer::modes_wf(spec_power(f1, src, sid, hi, pos, modes).modes),
        spec_power(f1, src, sid, hi, pos, modes).result is Some ==> spec_power(
            f1,
            src,
            sid,
            hi,
            pos,
            modes,
        ).pos > pos,
    decreases (if f1 <= f2 {
        f1
    } else {
        f2
    }), 3int,
{
    lemma_fuel_unary(f1, f2, src, sid, hi, pos, modes);
    let u = spec_unary(f1, src, sid, hi, pos, modes);
    if u.result is Some {
        crate::lexer::lemma_spec_next_props(src, sid, hi, u.pos, u.modes);
        let o = spec_next(src, sid, hi, u.pos, u.modes);
        if o.tok is Some && o.tok->0.kind == TokenType::Pow {
            lemma_fuel_power((f1 - 1) as nat, (f2 - 1) as nat, src, sid, hi, o.pos, o.modes);
        }
    }
}

pub proof fn lemma_fuel_factor_more(
    f1: nat,
    f2: nat,
    src: Seq<char>,
    sid: u64,
    hi: int,
    acc: Expression,
    pos: int,
    modes: Seq<LexerMode>,
)
    requires
        0 <= pos <= hi <= src.len(),
        crate::lexer::modes_wf(modes),
        f1 >= hi - pos + 1,
        f2 >= hi - pos + 1,
    ensures
        spec_factor_more(f1, src, sid, hi, acc, pos, modes) == spec_factor_more(
            f2,
            src,
            sid,
            hi,
            acc,
            pos,
            modes,
        ),
        pos <= spec_factor_more(f1, src, sid, hi, acc, pos, modes).pos <= hi,
        crate::lexer::modes_wf(spec_factor_more(f1, src, sid, hi, acc, pos, modes).modes),
    decreases (if f1 <= f2 {
        f1
    } else {
        f2
    }), 4int,
{
    crate::lexer::lemma_spec_next_props(src, sid, hi, pos, modes);
    let o = spec_next(src, sid, hi, pos, modes);
    if o.tok is Some && (o.tok->0.kind == TokenType::Star || o.tok->0.kind == TokenType::Slash
        || o.tok->0.kind == TokenType::Percent) {
        lemma_fuel_power(f1, f2, src, sid, hi, o.pos, o.modes);
        let r = spec_power(f1, src, sid, hi, o.pos, o.modes);
        if r.result is Some {
            let acc2 = Expression::BE(
                BinExpression {
                    lhs: Box::new(acc),
                    op: bin_op_of(o.tok->0.kind),
                    rhs: Box::new(r.result->0),
                    span: join_span(sid, acc, r.result->0),
                },
            );
            lemma_fuel_factor_more(
                (f1 - 1) as nat,
                (f2 - 1) as nat,
                src,
                sid,
                hi,
                acc2,
                r.pos,
                r.modes,
            );
        }
    }
}

pub proof fn lemma_fuel_factor(
    f1: nat,
    f2: nat,
    src: Seq<char>,
    sid: u64,
    hi: int,
    pos: int,
    modes: Seq<LexerMode>,
)
    requires
        0 <= pos <= hi <= src.len(),
        crate::lexer::modes_wf(modes),
        f1 >= hi - pos + 1,
        f2 >= hi - pos + 1,
    ensures
        spec_factor(f1, src, sid, hi, pos, modes) == spec_factor(f2, src, sid, hi, pos, modes),
        pos <= spec_factor(f1, src, sid, hi, pos, modes).pos <= hi,
        crate::lexer::modes_wf(spec_factor(f1, src, sid, hi, pos, modes).modes),
        spec_factor(f1, src, sid, hi, pos, modes).result is Some ==> spec_factor(
            f1,
            src,
            sid,
            hi,
            pos,
            modes,
        ).pos > pos,
    decreases (if f1 <= f2 {
        f1
    } else {
        f2
    }), 5int,
{
    lemma_fuel_power(f1, f2, src, sid, hi, pos, modes);
    let p = spec_power(f1, src, sid, hi, pos, modes);
    if p.result is Some {
        lemma_fuel_factor_more(
            (f1 - 1) as nat,
            (f2 - 1) as nat,
            src,
            sid,
            hi,
            p.result->0,
            p.pos,
            p.modes,
        );
    }
}

pub proof fn lemma_fuel_term_more(
    f1: nat,
    f2: nat,
    src: Seq<char>,
    sid: u64,
    hi: int,
    acc: Expression,
    pos: int,
    modes: Seq<LexerMode>,
)
    requires
        0 <= pos <= hi <= src.len(),
        crate::lexer::modes_wf(modes),
        f1 >= hi - pos + 1,
        f2 >= hi - pos + 1,
    ensures
        spec_term_more(f1, src, sid, hi, acc, pos, modes) == spec_term_more(
            f2,
            src,
            sid,
            hi,
            acc,
            pos,
            modes,
        ),
        pos <= spec_term_more(f1, src, sid, hi, acc, pos, modes).pos <= hi,
        crate::lexer::modes_wf(spec_term_more(f1, src, sid, hi, acc, pos, modes).modes),
    decreases (if f1 <= f2 {
        f1
    } else {
        f2
    }), 6int,
{
    crate::lexer::lemma_spec_next_props(src, sid, hi, pos, modes);
    let o = spec_next(src, sid, hi, pos, modes);
    if o.tok is Some && (o.tok->0.kind == TokenType::Plus || o.tok->0.kind
        == TokenType::Minus) {
        lemma_fuel_factor(f1, f2, src, sid, hi, o.pos, o.modes);
        let r = spec_factor(f1, src, sid, hi, o.pos, o.modes);
        if r.result is Some {
            let acc2 = Expression::BE(
                BinExpression {
                    lhs: Box::new(acc),
                    op: bin_op_of(o.tok->0.kind),
                    rhs: Box::new(r.result->0),
                    span: join_span(sid, acc, r.result->0),
                },
            );
            lemma_fuel_term_more(
                (f1 - 1) as nat,
                (f2 - 1) as nat,
                src,
                sid,
                hi,
                acc2,
                r.pos,
                r.modes,
            );
        }
    }
}

pub proof fn lemma_fuel_term(
    f1: nat,
    f2: nat,
    src: Seq<char>,
    sid: u64,
    hi: int,
    pos: int,
    modes: Seq<LexerMode>,
)
    requires
        0 <= pos <= hi <= src.len(),
        crate::lexer::modes_wf(modes),
        f1 >= hi - pos + 1,
        f2 >= hi - pos + 1,
    ensures
        spec_term(f1, src, sid, hi, pos, modes) == spec_term(f2, src, sid, hi, pos, modes),
        pos <= spec_term(f1, src, sid, hi, pos, modes).pos <= hi,
        crate::lexer::modes_wf(spec_term(f1, src, sid, hi, pos, modes).modes),
        spec_term(f1, src, sid, hi, pos, modes).result is Some ==> spec_term(
            f1,
            src,
            sid,
            hi,
            pos,
            modes,
        ).pos > pos,
    decreases (if f1 <= f2 {
        f1
    } else {
        f2
    }), 7int,
{
    lemma_fuel_factor(f1, f2, src, sid, hi, pos, modes);
    let p = spec_factor(f1, src, sid, hi, pos, modes);
    if p.result is Some {
        lemma_fuel_term_more(
            (f1 - 1) as nat,
            (f2 - 1) as nat,
            src,
            sid,
            hi,
            p.result->0,
            p.pos,
            p.modes,
        );
    }
}

pub proof fn lemma_fuel_expression(
    f1: nat,
    f2: nat,
    src: Seq<char>,
    sid: u64,
    hi: int,
    pos: int,
    modes: Seq<LexerMode>,
)
    requires
        0 <= pos <= hi <= src.len(),
        crate::lexer::modes_wf(modes),
        f1 >= hi - pos + 1,
        f2 >= hi - pos + 1,
    ensures
        spec_expression(f1, src, sid, hi, pos, modes) == spec_expression(
            f2,
            src,
            sid,
            hi,
            pos,
            modes,
        ),
        pos <= spec_expression(f1, src, sid, hi, pos, modes).pos <= hi,
        crate::lexer::modes_wf(spec_expression(f1, src, sid, hi, pos, modes).modes),
        spec_expression(f1, src, sid, hi, pos, modes).result is Some ==> spec_expression(
            f1,
            src,
            sid,
            hi,
            pos,
            modes,
        ).pos > pos,
    decreases (if f1 <= f2 {
        f1
    } else {
        f2
    }), 8int,
{
    lemma_fuel_term(f1, f2, src, sid, hi, pos, modes);
}

/// Where synchronization lands: the state just past the first statement
/// terminator at or after `pos`, or the end of input when none remains.
pub open spec fn sync_end(
    src: Seq<char>,
    sid: u64,
    hi: int,
    pos: int,
    modes: Seq<LexerMode>,
) -> (int, Seq<LexerMode>)
    recommends
        0 <= pos <= hi <= src.len(),
        crate::lexer::modes_wf(modes),
    decreases hi - pos,
        when 0 <= pos <= hi <= src.len() && crate::lexer::modes_wf(modes)
    via sync_end_decreases
{
    let o = spec_next(src, sid, hi, pos, modes);
    match o.tok {
        None => (o.pos, o.modes),
        Some(t) => {
            if t.kind == TokenType::Semicolon {
                (o.pos, o.modes)
            } else {
                sync_end(src, sid, hi, o.pos, o.modes)
            }
        },
    }
}

#[via_fn]
proof fn sync_end_decreases(src: Seq<char>, sid: u64, hi: int, pos: int, modes: Seq<LexerMode>) {
    crate::lexer::lemma_spec_next_props(src, sid, hi, pos, modes);
}

pub struct Parser {
    lx: Lookahead,
}

impl Parser {
    pub closed spec fn wf(&self, a: &SourceArena) -> bool {
        self.lx.wf(a)
    }

    /// The lookahead branch sits exactly at the committed position: no
    /// speculative tokens are pending.
    pub closed spec fn synced(&self) -> bool {
        &&& self.lx.branch_pos() == self.lx.main_pos()
        &&& self.lx.branch_modes() == self.lx.main_modes()
        &&& self.lx.consistent()
    }

    /// The committed position in the arena.
    pub closed spec fn pos(&self) -> int {
        self.lx.main_pos()
    }

    pub closed spec fn modes(&self) -> Seq<LexerMode> {
        self.lx.main_modes()
    }

    pub closed spec fn sid(&self) -> u64 {
        self.lx.sid()
    }

    pub closed spec fn hi(&self, a: &SourceArena) -> int {
        self.lx.hi(a)
    }

    /// The speculative (branch) position of the lookahead.
    pub closed spec fn branch_pos(&self) -> int {
        self.lx.branch_pos()
    }

    pub closed spec fn branch_modes(&self) -> Seq<LexerMode> {
        self.lx.branch_modes()
    }

    /// Both cursors read the same stream.
    pub closed spec fn consistent(&self) -> bool {
        self.lx.consistent()
    }

    /// The token most recently handed out by the lookahead.
    pub closed spec fn current(&self) -> Option<Token> {
        self.lx.current_tok()
    }

    /// What `wf` guarantees about positions and modes.
    proof fn lemma_bounds(&self, a: &SourceArena)
        requires
            self.wf(a),
        ensures
            0 <= self.pos() <= self.hi(a),
            0 <= self.branch_pos() <= self.hi(a),
            self.hi(a) <= a@.len(),
            crate::lexer::modes_wf(self.modes()),
            crate::lexer::modes_wf(self.branch_modes()),
            a@.len() <= usize::MAX,
    {
        self.lx.lemma_wf_bounds(a);
        a.lemma_len_bounded();
    }

    pub fn new(lx: Lexer) -> (p: Parser)
        ensures
            forall|b: SourceArena| #![auto] lx.wf(&b) ==> p.wf(&b),
            p.synced(),
            p.pos() == lx.pos(),
            p.modes() == lx.modes_seq(),
            p.sid() == lx.sid(),
            forall|b: SourceArena| #![auto] p.hi(&b) == lx.hi(&b),
    {
        Parser { lx: lookahead(lx) }
    }

    /// Look at the next visible token without committing: on a match the
    /// branch stays one token ahead (the caller commits), on a miss the
    /// branch is rewound and nothing was consumed.
    fn match_one(&mut self, a: &SourceArena, eh: &mut ErrorHandler, tt: TokenType) -> (r: Option<
        Token,
    >)
        requires
            old(self).wf(a),
            old(self).synced(),
        ensures
            final(self).wf(a),
            final(self).pos() == old(self).pos(),
            final(self).modes() == old(self).modes(),
            final(self).sid() == old(self).sid(),
            final(self).hi(a) == old(self).hi(a),
            diags_extend(final(eh)@, old(eh)@),
            ({
                let o = spec_next(
                    a@,
                    old(self).sid(),
                    old(self).hi(a),
                    old(self).pos(),
                    old(self).modes(),
                );
                &&& final(eh)@ == old(eh)@ + o.diags
                &&& (match (final(self).current(), o.tok) {
                    (Some(c), Some(tm)) => c.lexeme == crate::lexer::spec_span(
                        old(self).sid(),
                        tm.start,
                        tm.end,
                    ) && c.token_type == tm.kind,
                    (None, None) => true,
                    _ => false,
                })
                &&& (match r {
                    Some(t) => {
                        &&& o.tok is Some
                        &&& o.tok->0.kind == tt
                        &&& t.token_type == tt
                        &&& t.lexeme == crate::lexer::spec_span(
                            old(self).sid(),
                            o.tok->0.start,
                            o.tok->0.end,
                        )
                        &&& crate::lexer::lit_matches(t.literal, o.tok->0.lit)
                        &&& final(self).branch_pos() == o.pos
                        &&& final(self).branch_modes() == o.modes
                        &&& final(self).consistent()
                    },
                    None => {
                        &&& !(o.tok is Some && o.tok->0.kind == tt)
                        &&& final(self).synced()
                    },
                })
            }),
    {
        let t = self.lx.peek(a, eh);
        match t {
            Some(tok) => {
                if tok.token_type == tt {
                    Some(tok)
                } else {
                    self.lx.reset();
                    None
                }
            },
            None => {
                self.lx.reset();
                None
            },
        }
    }

    /// Try each candidate kind in order; the first match wins.
    fn match_one_of(&mut self, a: &SourceArena, eh: &mut ErrorHandler, tts: &[TokenType]) -> (r:
        Option<Token>)
        requires
            old(self).wf(a),
            old(self).synced(),
        ensures
            final(self).wf(a),
            final(self).pos() == old(self).pos(),
            final(self).modes() == old(self).modes(),
            final(self).sid() == old(self).sid(),
            final(self).hi(a) == old(self).hi(a),
            diags_extend(final(eh)@, old(eh)@),
            ({
                let o = spec_next(
                    a@,
                    old(self).sid(),
                    old(self).hi(a),
                    old(self).pos(),
                    old(self).modes(),
                );
                match r {
                    Some(t) => {
                        &&& o.tok is Some
                        &&& o.tok->0.kind == t.token_type
                        &&& tts@.contains(t.token_type)
                        &&& t.lexeme == crate::lexer::spec_span(
                            old(self).sid(),
                            o.tok->0.start,
                            o.tok->0.end,
                        )
                        &&& crate::lexer::lit_matches(t.literal, o.tok->0.lit)
                        &&& final(self).branch_pos() == o.pos
                        &&& final(self).branch_modes() == o.modes
                        &&& final(self).consistent()
                    },
                    None => {
                        &&& final(self).synced()
                        &&& (o.tok matches Some(tm) ==> !tts@.contains(tm.kind))
                    },
                }
            }),
    {
        let ghost o = spec_next(
            a@,
            self.sid(),
            self.hi(a),
            self.pos(),
            self.modes(),
        );
        let mut idx: usize = 0;
        while idx < tts.len()
            invariant
                idx <= tts@.len(),
                self.wf(a),
                self.synced(),
                self.pos() == old(self).pos(),
                self.modes() == old(self).modes(),
                self.sid() == old(self).sid(),
                self.hi(a) == old(self).hi(a),
                diags_extend(eh@, old(eh)@),
                o == spec_next(a@, self.sid(), self.hi(a), self.pos(), self.modes()),
                forall|j: int|
                    0 <= j < idx ==> !(o.tok is Some && o.tok->0.kind == tts@[j]),
            decreases tts@.len() - idx,
        {
            let tt = tts[idx];
            let r = self.match_one(a, eh, tt);
            if r.is_some() {
                return r;
            }
            idx = idx + 1;
        }
        proof {
            if o.tok is Some && tts@.contains(o.tok->0.kind) {
                let j = choose|j: int| 0 <= j < tts@.len() && tts@[j] == o.tok->0.kind;
                assert(false);
            }
        }
        None
    }

    /// Match the next visible token against `tt`; a mismatch or exhausted
    /// input is reported as a syntax error.
    pub fn parse_one(&mut self, a: &SourceArena, eh: &mut ErrorHandler, tt: TokenType) -> (r:
        Option<Token>)
        requires
            old(self).wf(a),
            old(self).synced(),
        ensures
            final(self).wf(a),
            final(self).synced(),
            final(self).sid() == old(self).sid(),
            final(self).hi(a) == old(self).hi(a),
            old(self).pos() <= final(self).pos() <= final(self).hi(a),
            diags_extend(final(eh)@, old(eh)@),
            r is None ==> final(eh)@.len() > old(eh)@.len(),
            ({
                let o = spec_next(
                    a@,
                    old(self).sid(),
                    old(self).hi(a),
                    old(self).pos(),
                    old(self).modes(),
                );
                match r {
                    Some(t) => {
                        &&& o.tok is Some
                        &&& o.tok->0.kind == tt
                        &&& t.token_type == tt
                        &&& t.lexeme == crate::lexer::spec_span(
                            old(self).sid(),
                            o.tok->0.start,
                            o.tok->0.end,
                        )
                        &&& final(self).pos() == o.pos
                        &&& final(self).modes() == o.modes
                        &&& final(self).pos() > old(self).pos()
                    },
                    None => {
                        &&& !(o.tok is Some && o.tok->0.kind == tt)
                        &&& final(self).pos() == old(self).pos()
                        &&& final(self).modes() == old(self).modes()
                        &&& final(eh)@.len() == old(eh)@.len() + o.diags.len() + 1
                        &&& (o.tok matches Some(tm) ==> (final(eh)@.last()
                            matches Diagnostic::UnexpectedToken { span, expected, got } && (span
                            == crate::lexer::spec_span(old(self).sid(), tm.start, tm.end)
                            && expected@ == seq![tt] && got == tm.kind)))
                        &&& (o.tok is None ==> final(eh)@.last()
                            == Diagnostic::UnexpectedEndOfInput)
                    },
                }
            }),
    {
        proof {
            self.lemma_bounds(a);
            crate::lexer::lemma_spec_next_props(
                a@,
                self.sid(),
                self.hi(a),
                self.pos(),
                self.modes(),
            );
        }
        let t = self.match_one(a, eh, tt);
        match t {
            Some(tok) => {
                self.lx.commit();
                Some(tok)
            },
            None => {
                let info: Option<(SourceView, TokenType)> = self.lx.current_info();
                match info {
                    Some((sp, got)) => {
                        let mut expected: Vec<TokenType> = Vec::new();
                        expected.push(tt);
                        eh.unexpected_token(sp, expected, got);
                    },
                    None => {
                        eh.unexpected_end_of_input();
                    },
                }
                None
            },
        }
    }

    /// As `parse_one`, over a set of alternatives.
    #[allow(dead_code)]
    fn parse_one_of(&mut self, a: &SourceArena, eh: &mut ErrorHandler, tts: &[TokenType]) -> (r:
        Option<Token>)
        requires
            old(self).wf(a),
            old(self).synced(),
        ensures
            final(self).wf(a),
            final(self).synced(),
            final(self).sid() == old(self).sid(),
            final(self).hi(a) == old(self).hi(a),
            old(self).pos() <= final(self).pos() <= final(self).hi(a),
            diags_extend(final(eh)@, old(eh)@),
            r is None ==> final(eh)@.len() > old(eh)@.len(),
            r matches Some(t) ==> tts@.contains(t.token_type) && final(self).pos() > old(
                self,
            ).pos(),
            ({
                let o = spec_next(
                    a@,
                    old(self).sid(),
                    old(self).hi(a),
                    old(self).pos(),
                    old(self).modes(),
                );
                r is None ==> {
                    &&& (o.tok matches Some(tm) ==> !tts@.contains(tm.kind))
                    &&& final(self).pos() == old(self).pos()
                }
            }),
    {
        proof {
            self.lemma_bounds(a);
            crate::lexer::lemma_spec_next_props(
                a@,
                self.sid(),
                self.hi(a),
                self.pos(),
                self.modes(),
            );
        }
        let t = self.match_one_of(a, eh, tts);
        match t {
            Some(tok) => {
                self.lx.commit();
                Some(tok)
            },
            None => {
                let info: Option<(SourceView, TokenType)> = self.lx.current_info();
                match info {
                    Some((sp, got)) => {
                        let mut expected: Vec<TokenType> = Vec::new();
                        let mut idx: usize = 0;
                        while idx < tts.len()
                            invariant
                                idx <= tts@.len(),
                            decreases tts@.len() - idx,
                        {
                            expected.push(tts[idx]);
                            idx = idx + 1;
                        }
                        eh.unexpected_token(sp, expected, got);
                    },
                    None => {
                        eh.unexpected_end_of_input();
                    },
                }
                None
            },
        }
    }

    /// An integer literal as an expression, if one is next. The decoded
    /// value was attached by the lexer; a missing decode falls back to 1.
    pub fn match_int_literal(&mut self, a: &SourceArena, eh: &mut ErrorHandler) -> (r: Option<
        Expression,
    >)
        requires
            old(self).wf(a),
            old(self).synced(),
        ensures
            final(self).wf(a),
            final(self).pos() == old(self).pos(),
            final(self).modes() == old(self).modes(),
            final(self).sid() == old(self).sid(),
            final(self).hi(a) == old(self).hi(a),
            diags_extend(final(eh)@, old(eh)@),
            ({
                let o = spec_next(
                    a@,
                    old(self).sid(),
                    old(self).hi(a),
                    old(self).pos(),
                    old(self).modes(),
                );
                &&& final(eh)@ == old(eh)@ + o.diags
                &&& match r {
                    Some(e) => {
                        &&& o.tok is Some
                        &&& o.tok->0.kind == TokenType::IntLit
                        &&& e.span_of() == crate::lexer::spec_span(
                            old(self).sid(),
                            o.tok->0.start,
                            o.tok->0.end,
                        )
                        &&& e.wf(old(self).sid(), old(self).hi(a))
                        &&& (o.tok->0.lit matches Some(crate::lexer::LitModel::Int(v)) && (
                        e matches Expression::LE(l) && l.value == Value::Int(v as i64)))
                        &&& final(self).branch_pos() == o.pos
                        &&& final(self).branch_modes() == o.modes
                        &&& final(self).consistent()
                    },
                    None => {
                        &&& !(o.tok is Some && o.tok->0.kind == TokenType::IntLit)
                        &&& final(self).synced()
                    },
                }
            }),
    {
        proof {
            self.lemma_bounds(a);
            crate::lexer::lemma_spec_next_props(
                a@,
                self.sid(),
                self.hi(a),
                self.pos(),
                self.modes(),
            );
            crate::lexer::lemma_intlit_has_value(
                a@,
                self.sid(),
                self.hi(a),
                self.pos(),
                self.modes(),
            );
        }
        let t = self.match_one(a, eh, TokenType::IntLit)?;
        let value = match &t.literal {
            Some(TokenLiteral::Int(i)) => Value::Int(*i),
            _ => Value::Int(1),
        };
        Some(Expression::LE(LitExpression { value, span: t.lexeme }))
    }

    /// `primary := IntLit | '(' expression ')'`
    pub fn parse_primary(&mut self, a: &SourceArena, eh: &mut ErrorHandler) -> (r: Option<
        Expression,
    >)
        requires
            old(self).wf(a),
            old(self).synced(),
        ensures
            final(self).wf(a),
            final(self).synced(),
            final(self).sid() == old(self).sid(),
            final(self).hi(a) == old(self).hi(a),
            old(self).pos() <= final(self).pos() <= final(self).hi(a),
            diags_extend(final(eh)@, old(eh)@),
            r is None ==> final(eh)@.len() > old(eh)@.len(),
            r matches Some(e) ==> {
                &&& e.wf(old(self).sid(), old(self).hi(a))
                &&& old(self).pos() <= e.span_of().start
                &&& e.span_of().end <= final(self).pos()
                &&& final(self).pos() > old(self).pos()
            },
            ({
                let o = spec_next(
                    a@,
                    old(self).sid(),
                    old(self).hi(a),
                    old(self).pos(),
                    old(self).modes(),
                );
                o.tok is Some && o.tok->0.kind == TokenType::IntLit ==> r is Some
            }),
            ({
                let m = spec_primary(
                    parse_fuel(old(self).hi(a), old(self).pos()),
                    a@,
                    old(self).sid(),
                    old(self).hi(a),
                    old(self).pos(),
                    old(self).modes(),
                );
                &&& (match (r, m.result) {
                    (Some(e), Some(me)) => e == me,
                    (None, None) => true,
                    _ => false,
                })
                &&& final(self).pos() == m.pos
                &&& final(self).modes() == m.modes
            }),
        decreases self.hi(a) - self.pos(), 2int,
    {
        proof {
            self.lemma_bounds(a);
            crate::lexer::lemma_spec_next_props(
                a@,
                self.sid(),
                self.hi(a),
                self.pos(),
                self.modes(),
            );
        }
        let e = self.match_int_literal(a, eh);
        match e {
            Some(e) => {
                self.lx.commit();
                Some(e)
            },
            None => self.parse_grouping(a, eh),
        }
    }

    /// The inside of a parenthesized group, after the opening parenthesis
    /// was committed: the inner expression and its closing parenthesis.
    fn parse_group_tail(&mut self, a: &SourceArena, eh: &mut ErrorHandler) -> (r: Option<
        Expression,
    >)
        requires
            old(self).wf(a),
            old(self).synced(),
        ensures
            final(self).wf(a),
            final(self).synced(),
            final(self).sid() == old(self).sid(),
            final(self).hi(a) == old(self).hi(a),
            old(self).pos() <= final(self).pos() <= final(self).hi(a),
            diags_extend(final(eh)@, old(eh)@),
            r is None ==> final(eh)@.len() > old(eh)@.len(),
            r matches Some(e) ==> {
                &&& e.wf(old(self).sid(), old(self).hi(a))
                &&& old(self).pos() <= e.span_of().start
                &&& e.span_of().end <= final(self).pos()
            },
            ({
                let inner = spec_expression(
                    parse_fuel(old(self).hi(a), old(self).pos()),
                    a@,
                    old(self).sid(),
                    old(self).hi(a),
                    old(self).pos(),
                    old(self).modes(),
                );
                match inner.result {
                    Some(e) => ({
                        let c = spec_next(
                            a@,
                            old(self).sid(),
                            old(self).hi(a),
                            inner.pos,
                            inner.modes,
                        );
                        if c.tok is Some && c.tok->0.kind == TokenType::RightParen {
                            &&& r == Some(e)
                            &&& final(self).pos() == c.pos
                            &&& final(self).modes() == c.modes
                        } else {
                            &&& r is None
                            &&& final(self).pos() == inner.pos
                            &&& final(self).modes() == inner.modes
                        }
                    }),
                    None => {
                        &&& r is None
                        &&& final(self).pos() == inner.pos
                        &&& final(self).modes() == inner.modes
                    },
                }
            }),
        decreases self.hi(a) - self.pos(), 9int,
    {
        let e = self.parse_expression(a, eh);
        match e {
            Some(e) => {
                let close = self.parse_one(a, eh, TokenType::RightParen);
                match close {
                    Some(_) => Some(e),
                    None => None,
                }
            },
            None => None,
        }
    }

    /// `'(' expression ')'`; anything else is a reported failure to find an
    /// expression.
    #[verifier::rlimit(100)]
    pub fn parse_grouping(&mut self, a: &SourceArena, eh: &mut ErrorHandler) -> (r: Option<
        Expression,
    >)
        requires
            old(self).wf(a),
            old(self).synced(),
        ensures
            final(self).wf(a),
            final(self).synced(),
            final(self).sid() == old(self).sid(),
            final(self).hi(a) == old(self).hi(a),
            old(self).pos() <= final(self).pos() <= final(self).hi(a),
            diags_extend(final(eh)@, old(eh)@),
            r is None ==> final(eh)@.len() > old(eh)@.len(),
            r matches Some(e) ==> {
                &&& e.wf(old(self).sid(), old(self).hi(a))
                &&& old(self).pos() <= e.span_of().start
                &&& e.span_of().end <= final(self).pos()
                &&& final(self).pos() > old(self).pos()
            },
            ({
                let o = spec_next(
                    a@,
                    old(self).sid(),
                    old(self).hi(a),
                    old(self).pos(),
                    old(self).modes(),
                );
                &&& (!(o.tok is Some && o.tok->0.kind == TokenType::LeftParen) ==> r is None)
                &&& (r is None && !(o.tok is Some && o.tok->0.kind == TokenType::LeftParen)) ==> {
                    &&& final(eh)@.len() == old(eh)@.len() + o.diags.len() + 1
                    &&& (final(eh)@.last() matches Diagnostic::ExpectedExpression { span, got }
                        && (match o.tok {
                        Some(tm) => span == Some(
                            crate::lexer::spec_span(old(self).sid(), tm.start, tm.end),
                        ) && got == Some(tm.kind),
                        None => span is None && got is None,
                    }))
                }
            }),
            ({
                let m = spec_grouping(
                    parse_fuel(old(self).hi(a), old(self).pos()),
                    a@,
                    old(self).sid(),
                    old(self).hi(a),
                    old(self).pos(),
                    old(self).modes(),
                );
                &&& (match (r, m.result) {
                    (Some(e), Some(me)) => e == me,
                    (None, None) => true,
                    _ => false,
                })
                &&& final(self).pos() == m.pos
                &&& final(self).modes() == m.modes
            }),
        decreases self.hi(a) - self.pos(), 1int,
    {
        proof {
            self.lemma_bounds(a);
            crate::lexer::lemma_spec_next_props(
                a@,
                self.sid(),
                self.hi(a),
                self.pos(),
                self.modes(),
            );
        }
        let ghost m0 = spec_grouping(
            parse_fuel(old(self).hi(a), old(self).pos()),
            a@,
            old(self).sid(),
            old(self).hi(a),
            old(self).pos(),
            old(self).modes(),
        );
        let open = self.match_one(a, eh, TokenType::LeftParen);
        if open.is_some() {
            self.lx.commit();
            proof {
                lemma_fuel_expression(
                    parse_fuel(old(self).hi(a), self.pos()),
                    (parse_fuel(old(self).hi(a), old(self).pos()) - 1) as nat,
                    a@,
                    old(self).sid(),
                    old(self).hi(a),
                    self.pos(),
                    self.modes(),
                );
            }
            self.parse_group_tail(a, eh)
        } else {
            proof {
                assert(m0.result is None);
                assert(m0.pos == old(self).pos());
                assert(m0.modes == old(self).modes());
            }
            let info: Option<(SourceView, TokenType)> = self.lx.current_info();
            match info {
                Some((sp, got)) => {
                    eh.expect_expression(Some(sp), Some(got));
                },
                None => {
                    eh.expect_expression(None, None);
                },
            }
            None
        }
    }

    /// `unary := '-' unary | primary`
    pub fn parse_unary(&mut self, a: &SourceArena, eh: &mut ErrorHandler) -> (r: Option<
        Expression,
    >)
        requires
            old(self).wf(a),
            old(self).synced(),
        ensures
            final(self).wf(a),
            final(self).synced(),
            final(self).sid() == old(self).sid(),
            final(self).hi(a) == old(self).hi(a),
            old(self).pos() <= final(self).pos() <= final(self).hi(a),
            diags_extend(final(eh)@, old(eh)@),
            r is None ==> final(eh)@.len() > old(eh)@.len(),
            r matches Some(e) ==> {
                &&& e.wf(old(self).sid(), old(self).hi(a))
                &&& old(self).pos() <= e.span_of().start
                &&& e.span_of().end <= final(self).pos()
                &&& final(self).pos() > old(self).pos()
            },
            ({
                let m = spec_unary(
                    parse_fuel(old(self).hi(a), old(self).pos()),
                    a@,
                    old(self).sid(),
                    old(self).hi(a),
                    old(self).pos(),
                    old(self).modes(),
                );
                &&& (match (r, m.result) {
                    (Some(e), Some(me)) => e == me,
                    (None, None) => true,
                    _ => false,
                })
                &&& final(self).pos() == m.pos
                &&& final(self).modes() == m.modes
            }),
        decreases self.hi(a) - self.pos(), 3int,
    {
        proof {
            self.lemma_bounds(a);
            crate::lexer::lemma_spec_next_props(
                a@,
                self.sid(),
                self.hi(a),
                self.pos(),
                self.modes(),
            );
        }
        let minus = self.match_one(a, eh, TokenType::Minus);
        match minus {
            Some(m) => {
                self.lx.commit();
                proof {
                    lemma_fuel_unary(
                        parse_fuel(old(self).hi(a), self.pos()),
                        (parse_fuel(old(self).hi(a), old(self).pos()) - 1) as nat,
                        a@,
                        old(self).sid(),
                        old(self).hi(a),
                        self.pos(),
                        self.modes(),
                    );
                }
                let rhs = self.parse_unary(a, eh)?;
                let span = m.lexeme.concat(rhs.span());
                Some(
                    Expression::UE(
                        UnExpression { op: UnOperator::Neg, rhs: Box::new(rhs), span },
                    ),
                )
            },
            None => self.parse_primary(a, eh),
        }
    }

    /// `power := unary ( '**' power )?` — the recursion to the right makes
    /// `**` group right-associatively.
    pub fn parse_power(&mut self, a: &SourceArena, eh: &mut ErrorHandler) -> (r: Option<
        Expression,
    >)
        requires
            old(self).wf(a),
            old(self).synced(),
        ensures
            final(self).wf(a),
            final(self).synced(),
            final(self).sid() == old(self).sid(),
            final(self).hi(a) == old(self).hi(a),
            old(self).pos() <= final(self).pos() <= final(self).hi(a),
            diags_extend(final(eh)@, old(eh)@),
            r is None ==> final(eh)@.len() > old(eh)@.len(),
            r matches Some(e) ==> {
                &&& e.wf(old(self).sid(), old(self).hi(a))
                &&& old(self).pos() <= e.span_of().start
                &&& e.span_of().end <= final(self).pos()
                &&& final(self).pos() > old(self).pos()
            },
            ({
                let m = spec_power(
                    parse_fuel(old(self).hi(a), old(self).pos()),
                    a@,
                    old(self).sid(),
                    old(self).hi(a),
                    old(self).pos(),
                    old(self).modes(),
                );
                &&& (match (r, m.result) {
                    (Some(e), Some(me)) => e == me,
                    (None, None) => true,
                    _ => false,
                })
                &&& final(self).pos() == m.pos
                &&& final(self).modes() == m.modes
            }),
        decreases self.hi(a) - self.pos(), 4int,
    {
        proof {
            self.lemma_bounds(a);
        }
        let exp = self.parse_unary(a, eh)?;
        let ghost midp = self.pos();
        let ghost midm = self.modes();
        proof {
            self.lemma_bounds(a);
            crate::lexer::lemma_spec_next_props(a@, self.sid(), self.hi(a), midp, midm);
        }
        let more = self.match_one(a, eh, TokenType::Pow);
        match more {
            Some(_) => {
                self.lx.commit();
                proof {
                    lemma_fuel_power(
                        parse_fuel(old(self).hi(a), self.pos()),
                        (parse_fuel(old(self).hi(a), old(self).pos()) - 1) as nat,
                        a@,
                        old(self).sid(),
                        old(self).hi(a),
                        self.pos(),
                        self.modes(),
                    );
                }
                let rhs = self.parse_power(a, eh)?;
                let span = exp.span().concat(rhs.span());
                Some(
                    Expression::BE(
                        BinExpression {
                            lhs: Box::new(exp),
                            op: BinOperator::Pow,
                            rhs: Box::new(rhs),
                            span,
                        },
                    ),
                )
            },
            None => Some(exp),
        }
    }

    /// `factor := power ( ('*'|'/'|'%') power )*`, left-associative.
    #[verifier::rlimit(100)]
    pub fn parse_factor(&mut self, a: &SourceArena, eh: &mut ErrorHandler) -> (r: Option<
        Expression,
    >)
        requires
            old(self).wf(a),
            old(self).synced(),
        ensures
            final(self).wf(a),
            final(self).synced(),
            final(self).sid() == old(self).sid(),
            final(self).hi(a) == old(self).hi(a),
            old(self).pos() <= final(self).pos() <= final(self).hi(a),
            diags_extend(final(eh)@, old(eh)@),
            r is None ==> final(eh)@.len() > old(eh)@.len(),
            r matches Some(e) ==> {
                &&& e.wf(old(self).sid(), old(self).hi(a))
                &&& old(self).pos() <= e.span_of().start
                &&& e.span_of().end <= final(self).pos()
                &&& final(self).pos() > old(self).pos()
            },
            ({
                let m = spec_factor(
                    parse_fuel(old(self).hi(a), old(self).pos()),
                    a@,
                    old(self).sid(),
                    old(self).hi(a),
                    old(self).pos(),
                    old(self).modes(),
                );
                &&& (match (r, m.result) {
                    (Some(e), Some(me)) => e == me,
                    (None, None) => true,
                    _ => false,
                })
                &&& final(self).pos() == m.pos
                &&& final(self).modes() == m.modes
            }),
        decreases self.hi(a) - self.pos(), 5int,
    {
        proof {
            self.lemma_bounds(a);
        }
        let ghost m0 = spec_factor(
            parse_fuel(old(self).hi(a), old(self).pos()),
            a@,
            old(self).sid(),
            old(self).hi(a),
            old(self).pos(),
            old(self).modes(),
        );
        let first = self.parse_power(a, eh);
        let mut exp = match first {
            Some(e) => e,
            None => {
                proof {
                    assert(m0.result is None);
                }
                return None;
            },
        };
        let ghost mut fk: nat = (parse_fuel(old(self).hi(a), old(self).pos()) - 1) as nat;
        proof {
            assert(m0 == spec_factor_more(
                fk,
                a@,
                old(self).sid(),
                old(self).hi(a),
                exp,
                self.pos(),
                self.modes(),
            ));
        }
        let ops: [TokenType; 3] = [TokenType::Star, TokenType::Slash, TokenType::Percent];
        loop
            invariant
                self.wf(a),
                self.synced(),
                self.sid() == old(self).sid(),
                self.hi(a) == old(self).hi(a),
                old(self).pos() < self.pos() <= self.hi(a),
                diags_extend(eh@, old(eh)@),
                exp.wf(old(self).sid(), old(self).hi(a)),
                old(self).pos() <= exp.span_of().start,
                exp.span_of().end <= self.pos(),
                m0 == spec_factor(
                    parse_fuel(old(self).hi(a), old(self).pos()),
                    a@,
                    old(self).sid(),
                    old(self).hi(a),
                    old(self).pos(),
                    old(self).modes(),
                ),
                m0 == spec_factor_more(
                    fk,
                    a@,
                    old(self).sid(),
                    old(self).hi(a),
                    exp,
                    self.pos(),
                    self.modes(),
                ),
                fk >= old(self).hi(a) - self.pos() + 1,
                ops@ =~= seq![TokenType::Star, TokenType::Slash, TokenType::Percent],
            decreases self.hi(a) - self.pos(),
        {
            let ghost lp = self.pos();
            let ghost lm = self.modes();
            proof {
                self.lemma_bounds(a);
                crate::lexer::lemma_spec_next_props(a@, self.sid(), self.hi(a), lp, lm);
            }
            let t = self.match_one_of(a, eh, ops.as_slice());
            match t {
                Some(t) => {
                    self.lx.commit();
                    proof {
                        if t.token_type != TokenType::Star && t.token_type != TokenType::Slash && t.token_type != TokenType::Percent {
                            let i = choose|i: int|
                                0 <= i < ops@.len() && ops@[i] == t.token_type;
                            assert(false);
                        }
                        lemma_fuel_power(
                            parse_fuel(old(self).hi(a), self.pos()),
                            fk,
                            a@,
                            old(self).sid(),
                            old(self).hi(a),
                            self.pos(),
                            self.modes(),
                        );
                    }
                    let op = match t.token_type {
                        TokenType::Percent => BinOperator::Mod,
                        TokenType::Slash => BinOperator::Div,
                        _ => BinOperator::Mul,
                    };
                    let rhs = match self.parse_power(a, eh) {
                        Some(e) => e,
                        None => {
                            proof {
                                assert(m0.result is None);
                            }
                            return None;
                        },
                    };
                    proof {
                        assert(bin_op_of(t.token_type) == op);
                        assert(exp.span_of().store_id == old(self).sid());
                    }
                    let span = exp.span().concat(rhs.span());
                    let ghost prev = exp;
                    exp = Expression::BE(
                        BinExpression { lhs: Box::new(exp), op, rhs: Box::new(rhs), span },
                    );
                    proof {
                        assert(exp == Expression::BE(
                            BinExpression {
                                lhs: Box::new(prev),
                                op: bin_op_of(t.token_type),
                                rhs: Box::new(rhs),
                                span: join_span(old(self).sid(), prev, rhs),
                            },
                        ));
                        fk = (fk - 1) as nat;
                        assert(m0 == spec_factor_more(
                            fk,
                            a@,
                            old(self).sid(),
                            old(self).hi(a),
                            exp,
                            self.pos(),
                            self.modes(),
                        ));
                    }
                },
                None => {
                    proof {
                        if t is None {
                        }
                        assert(m0.result == Some(exp));
                    }
                    return Some(exp);
                },
            }
        }
    }

    /// `term := factor ( ('+'|'-') factor )*`, left-associative.
    #[verifier::rlimit(100)]
    pub fn parse_term(&mut self, a: &SourceArena, eh: &mut ErrorHandler) -> (r: Option<Expression>)
        requires
            old(self).wf(a),
            old(self).synced(),
        ensures
            final(self).wf(a),
            final(self).synced(),
            final(self).sid() == old(self).sid(),
            final(self).hi(a) == old(self).hi(a),
            old(self).pos() <= final(self).pos() <= final(self).hi(a),
            diags_extend(final(eh)@, old(eh)@),
            r is None ==> final(eh)@.len() > old(eh)@.len(),
            r matches Some(e) ==> {
                &&& e.wf(old(self).sid(), old(self).hi(a))
                &&& old(self).pos() <= e.span_of().start
                &&& e.span_of().end <= final(self).pos()
                &&& final(self).pos() > old(self).pos()
            },
            ({
                let m = spec_term(
                    parse_fuel(old(self).hi(a), old(self).pos()),
                    a@,
                    old(self).sid(),
                    old(self).hi(a),
                    old(self).pos(),
                    old(self).modes(),
                );
                &&& (match (r, m.result) {
                    (Some(e), Some(me)) => e == me,
                    (None, None) => true,
                    _ => false,
                })
                &&& final(self).pos() == m.pos
                &&& final(self).modes() == m.modes
            }),
        decreases self.hi(a) - self.pos(), 6int,
    {
        proof {
            self.lemma_bounds(a);
        }
        let ghost m0 = spec_term(
            parse_fuel(old(self).hi(a), old(self).pos()),
            a@,
            old(self).sid(),
            old(self).hi(a),
            old(self).pos(),
            old(self).modes(),
        );
        let first = self.parse_factor(a, eh);
        let mut exp = match first {
            Some(e) => e,
            None => {
                proof {
                    assert(m0.result is None);
                }
                return None;
            },
        };
        let ghost mut fk: nat = (parse_fuel(old(self).hi(a), old(self).pos()) - 1) as nat;
        proof {
            assert(m0 == spec_term_more(
                fk,
                a@,
                old(self).sid(),
                old(self).hi(a),
                exp,
                self.pos(),
                self.modes(),
            ));
        }
        let ops: [TokenType; 2] = [TokenType::Plus, TokenType::Minus];
        loop
            invariant
                self.wf(a),
                self.synced(),
                self.sid() == old(self).sid(),
                self.hi(a) == old(self).hi(a),
                old(self).pos() < self.pos() <= self.hi(a),
                diags_extend(eh@, old(eh)@),
                exp.wf(old(self).sid(), old(self).hi(a)),
                old(self).pos() <= exp.span_of().start,
                exp.span_of().end <= self.pos(),
                m0 == spec_term(
                    parse_fuel(old(self).hi(a), old(self).pos()),
                    a@,
                    old(self).sid(),
                    old(self).hi(a),
                    old(self).pos(),
                    old(self).modes(),
                ),
                m0 == spec_term_more(
                    fk,
                    a@,
                    old(self).sid(),
                    old(self).hi(a),
                    exp,
                    self.pos(),
                    self.modes(),
                ),
                fk >= old(self).hi(a) - self.pos() + 1,
                ops@ =~= seq![TokenType::Plus, TokenType::Minus],
            decreases self.hi(a) - self.pos(),
        {
            let ghost lp = self.pos();
            let ghost lm = self.modes();
            proof {
                self.lemma_bounds(a);
                crate::lexer::lemma_spec_next_props(a@, self.sid(), self.hi(a), lp, lm);
            }
            let t = self.match_one_of(a, eh, ops.as_slice());
            match t {
                Some(t) => {
                    self.lx.commit();
                    proof {
                        if t.token_type != TokenType::Plus && t.token_type != TokenType::Minus {
                            let i = choose|i: int|
                                0 <= i < ops@.len() && ops@[i] == t.token_type;
                            assert(false);
                        }
                        lemma_fuel_factor(
                            parse_fuel(old(self).hi(a), self.pos()),
                            fk,
                            a@,
                            old(self).sid(),
                            old(self).hi(a),
                            self.pos(),
                            self.modes(),
                        );
                    }
                    let op = match t.token_type {
                        TokenType::Minus => BinOperator::Sub,
                        _ => BinOperator::Add,
                    };
                    let rhs = match self.parse_factor(a, eh) {
                        Some(e) => e,
                        None => {
                            proof {
                                assert(m0.result is None);
                            }
                            return None;
                        },
                    };
                    proof {
                        assert(bin_op_of(t.token_type) == op);
                        assert(exp.span_of().store_id == old(self).sid());
                    }
                    let span = exp.span().concat(rhs.span());
                    let ghost prev = exp;
                    exp = Expression::BE(
                        BinExpression { lhs: Box::new(exp), op, rhs: Box::new(rhs), span },
                    );
                    proof {
                        assert(exp == Expression::BE(
                            BinExpression {
                                lhs: Box::new(prev),
                                op: bin_op_of(t.token_type),
                                rhs: Box::new(rhs),
                                span: join_span(old(self).sid(), prev, rhs),
                            },
                        ));
                        fk = (fk - 1) as nat;
                        assert(m0 == spec_term_more(
                            fk,
                            a@,
                            old(self).sid(),
                            old(self).hi(a),
                            exp,
                            self.pos(),
                            self.modes(),
                        ));
                    }
                },
                None => {
                    proof {
                        if t is None {
                        }
                        assert(m0.result == Some(exp));
                    }
                    return Some(exp);
                },
            }
        }
    }

    /// `expression := term` — the sole externally driven entry point of
    /// this grammar subset.
    pub fn parse_expression(&mut self, a: &SourceArena, eh: &mut ErrorHandler) -> (r: Option<
        Expression,
    >)
        requires
            old(self).wf(a),
            old(self).synced(),
        ensures
            final(self).wf(a),
            final(self).synced(),
            final(self).sid() == old(self).sid(),
            final(self).hi(a) == old(self).hi(a),
            old(self).pos() <= final(self).pos() <= final(self).hi(a),
            diags_extend(final(eh)@, old(eh)@),
            r is None ==> final(eh)@.len() > old(eh)@.len(),
            r matches Some(e) ==> {
                &&& e.wf(old(self).sid(), old(self).hi(a))
                &&& old(self).pos() <= e.span_of().start
                &&& e.span_of().end <= final(self).pos()
                &&& final(self).pos() > old(self).pos()
            },
            ({
                let m = spec_expression(
                    parse_fuel(old(self).hi(a), old(self).pos()),
                    a@,
                    old(self).sid(),
                    old(self).hi(a),
                    old(self).pos(),
                    old(self).modes(),
                );
                &&& (match (r, m.result) {
                    (Some(e), Some(me)) => e == me,
                    (None, None) => true,
                    _ => false,
                })
                &&& final(self).pos() == m.pos
                &&& final(self).modes() == m.modes
            }),
        decreases self.hi(a) - self.pos(), 8int,
    {
        self.parse_term(a, eh)
    }

    /// Commit any pending lookahead, then discard tokens up to and
    /// including the first statement terminator (or the end of input), to
    /// bound error cascades (a hook for statement-level grammar).
    pub fn synchronize(&mut self, a: &SourceArena, eh: &mut ErrorHandler)
        requires
            old(self).wf(a),
            old(self).consistent(),
        ensures
            final(self).wf(a),
            final(self).synced(),
            final(self).sid() == old(self).sid(),
            final(self).hi(a) == old(self).hi(a),
            diags_extend(final(eh)@, old(eh)@),
            ({
                let s = sync_end(
                    a@,
                    old(self).sid(),
                    old(self).hi(a),
                    old(self).branch_pos(),
                    old(self).branch_modes(),
                );
                final(self).pos() == s.0 && final(self).modes() == s.1
            }),
    {
        self.lx.commit();
        proof {
            self.lemma_bounds(a);
        }
        let ghost s0 = sync_end(
            a@,
            old(self).sid(),
            old(self).hi(a),
            self.pos(),
            self.modes(),
        );
        let mut done = false;
        while !done
            invariant
                self.wf(a),
                self.synced(),
                self.hi(a) == old(self).hi(a),
                self.sid() == old(self).sid(),
                self.pos() <= self.hi(a),
                diags_extend(eh@, old(eh)@),
                !done ==> s0 == sync_end(a@, self.sid(), self.hi(a), self.pos(), self.modes()),
                done ==> self.pos() == s0.0 && self.modes() == s0.1,
            decreases self.hi(a) - self.pos() + (if done {
                0int
            } else {
                1int
            }),
        {
            proof {
                self.lemma_bounds(a);
                crate::lexer::lemma_spec_next_props(
                    a@,
                    self.sid(),
                    self.hi(a),
                    self.pos(),
                    self.modes(),
                );
            }
            let t = self.lx.next(a, eh);
            match t {
                Some(tok) => {
                    if tok.token_type == TokenType::Semicolon {
                        done = true;
                    }
                },
                None => {
                    done = true;
                },
            }
        }
    }

    /// Report that input ended early and drain whatever tokens remain.
    pub fn drop_all(&mut self, a: &SourceArena, eh: &mut ErrorHandler)
        requires
            old(self).wf(a),
        ensures
            final(self).wf(a),
            final(self).synced(),
            final(self).sid() == old(self).sid(),
            final(self).hi(a) == old(self).hi(a),
            diags_extend(final(eh)@, old(eh)@),
    {
        eh.unexpected_end_of_input();
        proof {
            self.lemma_bounds(a);
        }
        let mut done = false;
        while !done
            invariant
                self.wf(a),
                self.hi(a) == old(self).hi(a),
                self.sid() == old(self).sid(),
                self.pos() <= self.hi(a),
                diags_extend(eh@, old(eh)@),
                done ==> self.synced(),
            decreases self.hi(a) - self.pos() + (if done {
                0int
            } else {
                1int
            }),
        {
            proof {
                self.lemma_bounds(a);
                crate::lexer::lemma_spec_next_props(
                    a@,
                    self.sid(),
                    self.hi(a),
                    self.pos(),
                    self.modes(),
                );
            }
            let t = self.lx.next(a, eh);
            match t {
                Some(_) => {
                },
                None => {
                    done = true;
                },
            }
        }
    }
}

} // verus!
