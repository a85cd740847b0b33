//! The modal lexer: classifies runs of characters into tokens, keeping a
//! mode stack so that nested brackets, string bodies and interpolations are
//! resolved by context.
//!
//! The whole scanner is specified first as a pure function of the arena
//! contents and the lexer state (`spec_scan`, `spec_next`); the executable
//! scanner is proved to compute exactly that function, diagnostics included.

use vstd::prelude::*;

use crate::arena::SourceArena;
use crate::arena::SourceView;
use crate::error_handler::Diagnostic;
use crate::error_handler::ErrorHandler;
use crate::reader::Reader;

verus! {

/// Hard ceiling on lexical nesting depth (mode-stack length): pathological
/// nesting becomes a reported error instead of unbounded growth.
pub const MODE_STACK_MAX: usize = 32;

/// The lexical category of one token.
#[derive(Clone, Copy, Debug, PartialEq, Eq, Structural)]
pub enum TokenType {
    // unambiguously single-character tokens
    Semicolon,
    LeftParen,
    RightParen,
    LeftBracket,
    RightBracket,
    LeftBrace,
    RightBrace,
    Comma,
    Plus,
    Percent,
    Minus,
    // one or more chars
    Slash,
    Star,
    Pow,
    // two character
    ColonEquals,
    // string machinery
    Quote,
    InterpStart,
    // literals
    Identifier,
    IntLit,
    StrLit,
    // keywords
    Exit,
    // whitespace, comments and already handled tokens
    Ignore,
    // unrecognized tokens
    Unknown,
}

/// Lexer modes resolve context-sensitive lexing: one mode is pushed per open
/// construct and popped by its matching closer. The base `Normal` mode is
/// always present.
#[derive(Clone, Copy, Debug, PartialEq, Eq, Structural)]
pub enum LexerMode {
    Normal,
    ParenBlock,
    BracketBlock,
    BraceBlock,
    StringBody,
    Interpolation,
}

/// A decoded literal value carried by a token.
#[derive(Clone, Debug)]
pub enum TokenLiteral {
    Int(i64),
    Str(Vec<char>),
}

/// One token: its category, the exact source range it was scanned from, and
/// the decoded value for literals.
#[derive(Clone, Debug)]
pub struct Token {
    pub token_type: TokenType,
    pub lexeme: SourceView,
    pub literal: Option<TokenLiteral>,
}

/// Mathematical counterpart of `TokenLiteral`.
pub ghost enum LitModel {
    Int(int),
    Str(Seq<char>),
}

/// Whether an executable literal carries exactly the modelled value.
pub open spec fn lit_matches(l: Option<TokenLiteral>, m: Option<LitModel>) -> bool {
    match (l, m) {
        (Option::None, Option::None) => true,
        (Option::Some(TokenLiteral::Int(i)), Option::Some(LitModel::Int(j))) => i as int == j,
        (Option::Some(TokenLiteral::Str(v)), Option::Some(LitModel::Str(s))) => v@ == s,
        _ => false,
    }
}

/// What one scanning step produces: the token's kind and right edge, the new
/// mode stack, the decoded literal, and the diagnostics reported on the way.
pub ghost struct LexStep {
    pub kind: TokenType,
    pub end: int,
    pub modes: Seq<LexerMode>,
    pub lit: Option<LitModel>,
    pub diags: Seq<Diagnostic>,
}

/// One token as the model sees it.
pub ghost struct TokModel {
    pub kind: TokenType,
    pub start: int,
    pub end: int,
    pub lit: Option<LitModel>,
}

/// What one visible-token step (`Lexer::next`) produces.
pub ghost struct NextOutcome {
    pub tok: Option<TokModel>,
    pub pos: int,
    pub modes: Seq<LexerMode>,
    pub diags: Seq<Diagnostic>,
}

// ---------------------------------------------------------------------------
// character classes
// ---------------------------------------------------------------------------

pub open spec fn is_digit(c: char) -> bool {
    48 <= c as u32 <= 57
}

pub open spec fn is_digit_or_sep(c: char) -> bool {
    is_digit(c) || c == '_'
}

pub open spec fn is_alpha(c: char) -> bool {
    (65 <= c as u32 <= 90) || (97 <= c as u32 <= 122)
}

pub open spec fn is_ident_start(c: char) -> bool {
    is_alpha(c) || c == '_'
}

pub open spec fn is_ident_cont(c: char) -> bool {
    is_alpha(c) || is_digit(c) || c == '_'
}

pub open spec fn is_space(c: char) -> bool {
    c == ' ' || c == '\n' || c == '\r' || c == '\t'
}

/// Characters that open a nested lexical context.
pub open spec fn is_opener(c: char) -> bool {
    c == '(' || c == '[' || c == '{' || c == '"'
}

/// Characters that close a nested lexical context.
pub open spec fn is_closer(c: char) -> bool {
    c == ')' || c == ']' || c == '}'
}

pub open spec fn open_mode_for(c: char) -> LexerMode {
    if c == '(' {
        LexerMode::ParenBlock
    } else if c == '[' {
        LexerMode::BracketBlock
    } else if c == '{' {
        LexerMode::BraceBlock
    } else {
        LexerMode::StringBody
    }
}

pub open spec fn open_kind_for(c: char) -> TokenType {
    if c == '(' {
        TokenType::LeftParen
    } else if c == '[' {
        TokenType::LeftBracket
    } else if c == '{' {
        TokenType::LeftBrace
    } else {
        TokenType::Quote
    }
}

pub open spec fn is_block_mode(m: LexerMode) -> bool {
    m == LexerMode::ParenBlock || m == LexerMode::BracketBlock || m == LexerMode::BraceBlock
}

/// The character that closes a pushed mode (used in diagnostics as well).
pub open spec fn closer_for(m: LexerMode) -> char {
    match m {
        LexerMode::ParenBlock => ')',
        LexerMode::BracketBlock => ']',
        LexerMode::BraceBlock => '}',
        LexerMode::StringBody => '"',
        LexerMode::Interpolation => '}',
        LexerMode::Normal => '?',
    }
}

pub open spec fn close_kind_for(m: LexerMode) -> TokenType {
    match m {
        LexerMode::ParenBlock => TokenType::RightParen,
        LexerMode::BracketBlock => TokenType::RightBracket,
        LexerMode::BraceBlock => TokenType::RightBrace,
        _ => TokenType::Unknown,
    }
}

/// The one keyword of the language.
pub open spec fn exit_chars() -> Seq<char> {
    seq!['e', 'x', 'i', 't']
}

/// Identifier text is looked up in the keyword table; a miss is a plain
/// identifier.
pub open spec fn keyword_kind(s: Seq<char>) -> TokenType {
    if s == exit_chars() {
        TokenType::Exit
    } else {
        TokenType::Identifier
    }
}

pub open spec fn spec_span(sid: u64, start: int, end: int) -> SourceView {
    SourceView { store_id: sid, start: start as usize, end: end as usize }
}

/// Identity on characters, written as a round trip through the code point:
/// it keeps the scalar-value typing of a symbolic character explicit, which
/// the solver needs when the character is stored inside a diagnostic.
pub open spec fn chr(c: char) -> char {
    (c as u32) as char
}

// ---------------------------------------------------------------------------
// runs of characters
// ---------------------------------------------------------------------------

/// First index at or after `i` that is not a digit or separator.
pub open spec fn run_end_digits(src: Seq<char>, hi: int, i: int) -> int
    decreases hi - i,
{
    if i < hi && i < src.len() && is_digit_or_sep(src[i]) {
        run_end_digits(src, hi, i + 1)
    } else {
        i
    }
}

/// First index at or after `i` that does not continue an identifier.
pub open spec fn run_end_ident(src: Seq<char>, hi: int, i: int) -> int
    decreases hi - i,
{
    if i < hi && i < src.len() && is_ident_cont(src[i]) {
        run_end_ident(src, hi, i + 1)
    } else {
        i
    }
}

/// First index at or after `i` holding a line break (comments run to end of
/// line).
pub open spec fn run_end_comment(src: Seq<char>, hi: int, i: int) -> int
    decreases hi - i,
{
    if i < hi && i < src.len() && src[i] != '\n' {
        run_end_comment(src, hi, i + 1)
    } else {
        i
    }
}

pub proof fn lemma_run_end_digits(src: Seq<char>, hi: int, i: int)
    requires
        0 <= i <= hi,
    ensures
        i <= run_end_digits(src, hi, i) <= hi,
        forall|j: int|
            i <= j < run_end_digits(src, hi, i) && j < src.len() ==> is_digit_or_sep(src[j]),
    decreases hi - i,
{
    if i < hi && i < src.len() && is_digit_or_sep(src[i]) {
        lemma_run_end_digits(src, hi, i + 1);
    }
}

pub proof fn lemma_run_end_ident(src: Seq<char>, hi: int, i: int)
    requires
        0 <= i <= hi,
    ensures
        i <= run_end_ident(src, hi, i) <= hi,
    decreases hi - i,
{
    if i < hi && i < src.len() && is_ident_cont(src[i]) {
        lemma_run_end_ident(src, hi, i + 1);
    }
}

pub proof fn lemma_run_end_comment(src: Seq<char>, hi: int, i: int)
    requires
        0 <= i <= hi,
    ensures
        i <= run_end_comment(src, hi, i) <= hi,
    decreases hi - i,
{
    if i < hi && i < src.len() && src[i] != '\n' {
        lemma_run_end_comment(src, hi, i + 1);
    }
}

// ---------------------------------------------------------------------------
// integer literal decoding
// ---------------------------------------------------------------------------

/// The numeric value of a digit-and-underscore run; underscores are ignored.
pub open spec fn digits_value(s: Seq<char>) -> int
    decreases s.len(),
{
    if s.len() == 0 {
        0
    } else if s.last() == '_' {
        digits_value(s.drop_last())
    } else {
        digits_value(s.drop_last()) * 10 + (s.last() as u32 - 48)
    }
}

pub proof fn lemma_digits_value_nonneg(s: Seq<char>)
    requires
        forall|j: int| 0 <= j < s.len() ==> is_digit_or_sep(s[j]),
    ensures
        digits_value(s) >= 0,
    decreases s.len(),
{
    if s.len() > 0 {
        lemma_digits_value_nonneg(s.drop_last());
    }
}

// ---------------------------------------------------------------------------
// string segments
// ---------------------------------------------------------------------------

/// Replacement for an escaped character (the character after a backslash).
pub open spec fn escape_char(c: char) -> char {
    if c == 'n' {
        '\n'
    } else if c == 't' {
        '\t'
    } else if c == 'r' {
        '\r'
    } else if c == '0' {
        '\0'
    } else {
        c
    }
}

/// Does scanning stop at `i`: closing quote, interpolation start, or end of
/// input.
pub open spec fn seg_stop(src: Seq<char>, hi: int, i: int) -> bool {
    i >= hi || src[i] == '"' || (src[i] == '$' && i + 1 < hi && src[i + 1] == '{')
}

/// Right edge of the raw string segment starting at `i`.
pub open spec fn seg_end(src: Seq<char>, hi: int, i: int) -> int
    decreases hi - i,
{
    if i >= hi {
        i
    } else if seg_stop(src, hi, i) {
        i
    } else if src[i] == '\\' {
        if i + 1 < hi {
            seg_end(src, hi, i + 2)
        } else {
            i + 1
        }
    } else {
        seg_end(src, hi, i + 1)
    }
}

/// The decoded value of the segment starting at `i` (escapes resolved).
pub open spec fn seg_decode(src: Seq<char>, hi: int, i: int) -> Seq<char>
    decreases hi - i,
{
    if i >= hi || seg_stop(src, hi, i) {
        Seq::empty()
    } else if src[i] == '\\' {
        if i + 1 < hi {
            seq![escape_char(src[i + 1])] + seg_decode(src, hi, i + 2)
        } else {
            Seq::empty()
        }
    } else {
        seq![src[i]] + seg_decode(src, hi, i + 1)
    }
}

/// Whether the segment ends in a backslash with nothing after it.
pub open spec fn seg_bad_escape(src: Seq<char>, hi: int, i: int) -> bool
    decreases hi - i,
{
    if i >= hi || seg_stop(src, hi, i) {
        false
    } else if src[i] == '\\' {
        if i + 1 < hi {
            seg_bad_escape(src, hi, i + 2)
        } else {
            true
        }
    } else {
        seg_bad_escape(src, hi, i + 1)
    }
}

pub proof fn lemma_seg_end_bounds(src: Seq<char>, hi: int, i: int)
    requires
        0 <= i <= hi,
    ensures
        i <= seg_end(src, hi, i) <= hi,
        !seg_stop(src, hi, i) ==> i < seg_end(src, hi, i),
    decreases hi - i,
{
    if i < hi && !seg_stop(src, hi, i) {
        if src[i] == '\\' {
            if i + 1 < hi {
                lemma_seg_end_bounds(src, hi, i + 2);
            }
        } else {
            lemma_seg_end_bounds(src, hi, i + 1);
        }
    }
}

// ---------------------------------------------------------------------------
// one scanning step
// ---------------------------------------------------------------------------

/// Scanning rules shared by `Normal` mode and every mode that delegates to
/// it.
pub open spec fn spec_normal_scan(
    src: Seq<char>,
    sid: u64,
    hi: int,
    pos: int,
    modes: Seq<LexerMode>,
) -> LexStep
    recommends
        0 <= pos < hi <= src.len(),
{
    let c = src[pos];
    if c == ';' {
        LexStep { kind: TokenType::Semicolon, end: pos + 1, modes, lit: None, diags: Seq::empty() }
    } else if is_opener(c) {
        if modes.len() >= MODE_STACK_MAX {
            LexStep {
                kind: TokenType::Ignore,
                end: pos + 1,
                modes,
                lit: None,
                diags: Seq::empty().push(
                    Diagnostic::Generic { span: Some(spec_span(sid, pos, pos + 1)) },
                ),
            }
        } else {
            LexStep {
                kind: open_kind_for(c),
                end: pos + 1,
                modes: modes.push(open_mode_for(c)),
                lit: None,
                diags: Seq::empty(),
            }
        }
    } else if is_closer(c) {
        LexStep {
            kind: TokenType::Ignore,
            end: pos + 1,
            modes,
            lit: None,
            diags: Seq::empty().push(
                Diagnostic::UnmatchedDelimiter {
                    span: spec_span(sid, pos, pos + 1),
                    delimiter: chr(c),
                },
            ),
        }
    } else if c == ',' {
        LexStep { kind: TokenType::Comma, end: pos + 1, modes, lit: None, diags: Seq::empty() }
    } else if c == '+' {
        LexStep { kind: TokenType::Plus, end: pos + 1, modes, lit: None, diags: Seq::empty() }
    } else if c == '%' {
        LexStep { kind: TokenType::Percent, end: pos + 1, modes, lit: None, diags: Seq::empty() }
    } else if c == '-' {
        LexStep { kind: TokenType::Minus, end: pos + 1, modes, lit: None, diags: Seq::empty() }
    } else if c == '/' {
        if pos + 1 < hi && src[pos + 1] == '/' {
            LexStep {
                kind: TokenType::Ignore,
                end: run_end_comment(src, hi, pos + 2),
                modes,
                lit: None,
                diags: Seq::empty(),
            }
        } else {
            LexStep { kind: TokenType::Slash, end: pos + 1, modes, lit: None, diags: Seq::empty() }
        }
    } else if c == '*' {
        if pos + 1 < hi && src[pos + 1] == '*' {
            LexStep { kind: TokenType::Pow, end: pos + 2, modes, lit: None, diags: Seq::empty() }
        } else {
            LexStep { kind: TokenType::Star, end: pos + 1, modes, lit: None, diags: Seq::empty() }
        }
    } else if c == ':' {
        if pos + 1 < hi && src[pos + 1] == '=' {
            LexStep {
                kind: TokenType::ColonEquals,
                end: pos + 2,
                modes,
                lit: None,
                diags: Seq::empty(),
            }
        } else {
            LexStep {
                kind: TokenType::Unknown,
                end: pos + 1,
                modes,
                lit: None,
                diags: Seq::empty().push(
                    Diagnostic::UnexpectedCharacter {
                        span: spec_span(sid, pos, pos + 1),
                        found: chr(c),
                    },
                ),
            }
        }
    } else if is_space(c) {
        LexStep { kind: TokenType::Ignore, end: pos + 1, modes, lit: None, diags: Seq::empty() }
    } else if is_digit(c) {
        let end = run_end_digits(src, hi, pos + 1);
        let v = digits_value(src.subrange(pos, end));
        if v > i64::MAX {
            LexStep {
                kind: TokenType::IntLit,
                end,
                modes,
                lit: Some(LitModel::Int(1)),
                diags: Seq::empty().push(Diagnostic::IntTooBig { span: spec_span(sid, pos, end) }),
            }
        } else {
            LexStep {
                kind: TokenType::IntLit,
                end,
                modes,
                lit: Some(LitModel::Int(v)),
                diags: Seq::empty(),
            }
        }
    } else if is_ident_start(c) {
        let end = run_end_ident(src, hi, pos + 1);
        LexStep {
            kind: keyword_kind(src.subrange(pos, end)),
            end,
            modes,
            lit: None,
            diags: Seq::empty(),
        }
    } else {
        LexStep {
            kind: TokenType::Unknown,
            end: pos + 1,
            modes,
            lit: None,
            diags: Seq::empty().push(
                Diagnostic::UnexpectedCharacter { span: spec_span(sid, pos, pos + 1), found: c },
            ),
        }
    }
}

/// Scanning rules inside a string body.
pub open spec fn spec_string_scan(
    src: Seq<char>,
    sid: u64,
    hi: int,
    pos: int,
    modes: Seq<LexerMode>,
) -> LexStep
    recommends
        0 <= pos < hi <= src.len(),
        modes.len() >= 1,
{
    let c = src[pos];
    if c == '"' {
        LexStep {
            kind: TokenType::Quote,
            end: pos + 1,
            modes: modes.drop_last(),
            lit: None,
            diags: Seq::empty(),
        }
    } else if c == '$' && pos + 1 < hi && src[pos + 1] == '{' {
        if modes.len() >= MODE_STACK_MAX {
            LexStep {
                kind: TokenType::Ignore,
                end: pos + 2,
                modes,
                lit: None,
                diags: Seq::empty().push(
                    Diagnostic::Generic { span: Some(spec_span(sid, pos, pos + 2)) },
                ),
            }
        } else {
            LexStep {
                kind: TokenType::InterpStart,
                end: pos + 2,
                modes: modes.push(LexerMode::Interpolation),
                lit: None,
                diags: Seq::empty(),
            }
        }
    } else {
        let end = seg_end(src, hi, pos);
        LexStep {
            kind: TokenType::StrLit,
            end,
            modes,
            lit: Some(LitModel::Str(seg_decode(src, hi, pos))),
            diags: if seg_bad_escape(src, hi, pos) {
                Seq::empty().push(Diagnostic::UnclosedEscapeSequence { span: spec_span(sid, pos, end) })
            } else {
                Seq::empty()
            },
        }
    }
}

/// One full scanning step, dispatched on the current (topmost) mode.
pub open spec fn spec_scan(
    src: Seq<char>,
    sid: u64,
    hi: int,
    pos: int,
    modes: Seq<LexerMode>,
) -> LexStep
    recommends
        0 <= pos < hi <= src.len(),
        modes.len() >= 1,
{
    let m = modes.last();
    if m == LexerMode::StringBody {
        spec_string_scan(src, sid, hi, pos, modes)
    } else if m == LexerMode::Interpolation && src[pos] == '}' {
        LexStep {
            kind: TokenType::RightBrace,
            end: pos + 1,
            modes: modes.drop_last(),
            lit: None,
            diags: Seq::empty(),
        }
    } else if is_block_mode(m) && src[pos] == closer_for(m) {
        LexStep {
            kind: close_kind_for(m),
            end: pos + 1,
            modes: modes.drop_last(),
            lit: None,
            diags: Seq::empty(),
        }
    } else {
        spec_normal_scan(src, sid, hi, pos, modes)
    }
}

/// The diagnostics reported when input ends with modes still pushed: one
/// unclosed-delimiter report per pending mode, topmost first.
pub open spec fn eoi_diags(modes: Seq<LexerMode>) -> Seq<Diagnostic>
    decreases modes.len(),
{
    if modes.len() <= 1 {
        Seq::empty()
    } else {
        Seq::empty().push(
            Diagnostic::UnclosedDelimiter { span: None, delimiter: closer_for(modes.last()) },
        ) + eoi_diags(modes.drop_last())
    }
}

/// A well-formed mode stack: never empty, `Normal` at its base, bounded.
pub open spec fn modes_wf(modes: Seq<LexerMode>) -> bool {
    &&& 1 <= modes.len() <= MODE_STACK_MAX
    &&& modes[0] == LexerMode::Normal
}

/// Every scanning step consumes at least one character, stays inside the
/// input, and keeps the mode stack well-formed.
pub proof fn lemma_scan_progress(
    src: Seq<char>,
    sid: u64,
    hi: int,
    pos: int,
    modes: Seq<LexerMode>,
)
    requires
        0 <= pos < hi <= src.len(),
        modes_wf(modes),
    ensures
        pos < spec_scan(src, sid, hi, pos, modes).end <= hi,
        modes_wf(spec_scan(src, sid, hi, pos, modes).modes),
    decreases hi - pos,
{
    let st = spec_scan(src, sid, hi, pos, modes);
    let m = modes.last();
    if m == LexerMode::StringBody {
        let c = src[pos];
        if c == '"' {
            assert(modes.len() >= 2) by {
                assert(modes[0] == LexerMode::Normal);
                assert(m != LexerMode::Normal);
            }
        } else if c == '$' && pos + 1 < hi && src[pos + 1] == '{' {
        } else {
            lemma_seg_end_bounds(src, hi, pos);
        }
    } else if m == LexerMode::Interpolation && src[pos] == '}' {
        assert(modes.len() >= 2) by {
            assert(modes[0] == LexerMode::Normal);
        }
    } else if is_block_mode(m) && src[pos] == closer_for(m) {
        assert(modes.len() >= 2) by {
            assert(modes[0] == LexerMode::Normal);
        }
    } else {
        let c = src[pos];
        if c == '/' && pos + 1 < hi && src[pos + 1] == '/' {
            lemma_run_end_comment(src, hi, pos + 2);
        } else if !(c == ';' || is_opener(c) || is_closer(c) || c == ',' || c == '+' || c == '%'
            || c == '-' || c == '/' || c == '*' || c == ':' || is_space(c)) {
            if is_digit(c) {
                lemma_run_end_digits(src, hi, pos + 1);
            } else if is_ident_start(c) {
                lemma_run_end_ident(src, hi, pos + 1);
            }
        }
    }
}

/// The next visible (non-ignorable) token from a given state: skips over
/// ignorable tokens, accumulating their side effects, and stops at the first
/// visible token or at end of input (where pending modes are reported and
/// discarded).
pub open spec fn spec_next(
    src: Seq<char>,
    sid: u64,
    hi: int,
    pos: int,
    modes: Seq<LexerMode>,
) -> NextOutcome
    recommends
        0 <= pos <= hi <= src.len(),
        modes_wf(modes),
    decreases hi - pos,
        when 0 <= pos <= hi <= src.len() && modes_wf(modes)
    via spec_next_decreases
{
    if pos >= hi {
        NextOutcome {
            tok: None,
            pos,
            modes: seq![LexerMode::Normal],
            diags: eoi_diags(modes),
        }
    } else {
        let st = spec_scan(src, sid, hi, pos, modes);
        if st.kind == TokenType::Ignore {
            let rest = spec_next(src, sid, hi, st.end, st.modes);
            NextOutcome {
                tok: rest.tok,
                pos: rest.pos,
                modes: rest.modes,
                diags: st.diags + rest.diags,
            }
        } else {
            NextOutcome {
                tok: Some(TokModel { kind: st.kind, start: pos, end: st.end, lit: st.lit }),
                pos: st.end,
                modes: st.modes,
                diags: st.diags,
            }
        }
    }
}

#[via_fn]
proof fn spec_next_decreases(src: Seq<char>, sid: u64, hi: int, pos: int, modes: Seq<LexerMode>) {
    if pos < hi {
        lemma_scan_progress(src, sid, hi, pos, modes);
    }
}

// ---------------------------------------------------------------------------
// executable character classes
// ---------------------------------------------------------------------------

fn is_digit_exec(c: char) -> (b: bool)
    ensures
        b == is_digit(c),
{
    let u = c as u32;
    48 <= u && u <= 57
}

fn is_digit_or_sep_exec(c: char) -> (b: bool)
    ensures
        b == is_digit_or_sep(c),
{
    is_digit_exec(c) || c == '_'
}

fn is_alpha_exec(c: char) -> (b: bool)
    ensures
        b == is_alpha(c),
{
    let u = c as u32;
    (65 <= u && u <= 90) || (97 <= u && u <= 122)
}

fn is_ident_cont_exec(c: char) -> (b: bool)
    ensures
        b == is_ident_cont(c),
{
    is_alpha_exec(c) || is_digit_exec(c) || c == '_'
}

fn escape_char_exec(c: char) -> (r: char)
    ensures
        r == escape_char(c),
{
    if c == 'n' {
        '\n'
    } else if c == 't' {
        '\t'
    } else if c == 'r' {
        '\r'
    } else if c == '0' {
        '\0'
    } else {
        c
    }
}

// ---------------------------------------------------------------------------
// the lexer itself
// ---------------------------------------------------------------------------

/// The keyword table, built once at lexer construction (no global state).
pub fn init_keywords() -> (kw: Vec<(Vec<char>, TokenType)>)
    ensures
        kw@.len() == 1,
        kw@[0].0@ == exit_chars(),
        kw@[0].1 == TokenType::Exit,
{
    let mut word: Vec<char> = Vec::new();
    word.push('e');
    word.push('x');
    word.push('i');
    word.push('t');
    proof {
        assert(word@ =~= exit_chars());
    }
    let mut kw: Vec<(Vec<char>, TokenType)> = Vec::new();
    kw.push((word, TokenType::Exit));
    kw
}

/// The modal lexer: a reader, the mode stack, and the keyword table.
pub struct Lexer {
    reader: Reader,
    modes: Vec<LexerMode>,
    keywords: Vec<(Vec<char>, TokenType)>,
}

impl Lexer {
    /// Index of the next character the lexer will look at.
    pub closed spec fn pos(&self) -> int {
        self.reader.pos()
    }

    /// Generation id of the arena this lexer reads.
    pub closed spec fn sid(&self) -> u64 {
        self.reader.current.store_id
    }

    /// One past the last readable index (follows the arena if unbounded).
    pub closed spec fn hi(&self, a: &SourceArena) -> int {
        self.reader.hi(*a)
    }

    /// The current mode stack, base first.
    pub closed spec fn modes_seq(&self) -> Seq<LexerMode> {
        self.modes@
    }

    spec fn keywords_wf(&self) -> bool {
        &&& self.keywords@.len() == 1
        &&& self.keywords@[0].0@ == exit_chars()
        &&& self.keywords@[0].1 == TokenType::Exit
    }

    pub closed spec fn wf(&self, a: &SourceArena) -> bool {
        &&& self.reader.wf(*a)
        &&& self.reader.window_start() == self.reader.pos()
        &&& modes_wf(self.modes@)
        &&& self.keywords_wf()
    }

    /// Two lexers read the same character stream (same arena generation and
    /// the same bounds), so equal positions and mode stacks make them
    /// interchangeable.
    pub closed spec fn stream_eq(&self, o: &Lexer) -> bool {
        &&& self.reader.current.store_id == o.reader.current.store_id
        &&& self.reader.boundary == o.reader.boundary
    }

    pub fn new(reader: Reader) -> (lx: Lexer)
        requires
            reader.window_start() == reader.pos(),
        ensures
            lx.pos() == reader.pos(),
            lx.sid() == reader.current.store_id,
            lx.modes_seq() == seq![LexerMode::Normal],
            forall|b: SourceArena| #![auto] lx.hi(&b) == reader.hi(b),
            forall|b: SourceArena| #![auto] reader.wf(b) ==> lx.wf(&b),
    {
        let mut modes: Vec<LexerMode> = Vec::new();
        modes.push(LexerMode::Normal);
        Lexer { reader, modes, keywords: init_keywords() }
    }

    /// Current lexical nesting depth (the base mode counts as one).
    pub fn delim_depth(&self) -> (n: usize)
        ensures
            n == self.modes_seq().len(),
    {
        self.modes.len()
    }

    /// An independent lexer in exactly the same state, for speculative
    /// scanning.
    pub fn fork(&self) -> (r: Lexer)
        ensures
            r.stream_eq(self),
            r.pos() == self.pos(),
            r.modes_seq() == self.modes_seq(),
            r.sid() == self.sid(),
            forall|b: SourceArena| #![auto] r.hi(&b) == self.hi(&b),
            forall|b: SourceArena| #![auto] self.wf(&b) ==> r.wf(&b),
    {
        let mut modes: Vec<LexerMode> = Vec::new();
        let mut i: usize = 0;
        while i < self.modes.len()
            invariant
                i <= self.modes@.len(),
                modes@ == self.modes@.take(i as int),
            decreases self.modes@.len() - i,
        {
            modes.push(self.modes[i]);
            i = i + 1;
        }
        proof {
            assert(modes@ =~= self.modes@);
        }
        Lexer { reader: self.reader, modes, keywords: init_keywords() }
    }

    /// `stream_eq` makes the stream geometry agree for every arena.
    pub proof fn lemma_stream_eq(&self, o: &Lexer, a: &SourceArena)
        requires
            self.stream_eq(o),
        ensures
            self.sid() == o.sid(),
            self.hi(a) == o.hi(a),
    {
    }

    /// What `wf` guarantees about the stream geometry, exported for the
    /// layers above.
    pub proof fn lemma_wf_bounds(&self, a: &SourceArena)
        requires
            self.wf(a),
        ensures
            0 <= self.pos() <= self.hi(a),
            self.hi(a) <= a@.len(),
            modes_wf(self.modes_seq()),
    {
    }

    pub proof fn lemma_stream_eq_sid(&self, o: &Lexer)
        requires
            self.stream_eq(o),
        ensures
            self.sid() == o.sid(),
    {
    }

    pub proof fn lemma_stream_eq_sym(&self, o: &Lexer)
        requires
            self.stream_eq(o),
        ensures
            o.stream_eq(self),
    {
    }

    pub proof fn lemma_stream_eq_trans(&self, o: &Lexer, p: &Lexer)
        requires
            self.stream_eq(o),
            o.stream_eq(p),
        ensures
            self.stream_eq(p),
    {
    }

    /// All tokens that start with a `/`: either a comment running to the end
    /// of the line (ignorable) or a bare slash.
    fn lex_div_or_comment(&mut self, a: &SourceArena) -> (k: TokenType)
        requires
            old(self).reader.wf(*a),
            old(self).reader.window_start() + 1 == old(self).reader.pos(),
            a@[old(self).reader.window_start()] == '/',
        ensures
            final(self).reader.wf(*a),
            final(self).reader.same_bounds(old(self).reader),
            final(self).reader.current.store_id == old(self).reader.current.store_id,
            final(self).reader.window_start() == old(self).reader.window_start(),
            final(self).modes == old(self).modes,
            final(self).keywords == old(self).keywords,
            ({
                let src = a@;
                let pos0 = old(self).reader.window_start();
                let hi = old(self).reader.hi(*a);
                if pos0 + 1 < hi && src[pos0 + 1] == '/' {
                    k == TokenType::Ignore && final(self).reader.pos() == run_end_comment(
                        src,
                        hi,
                        pos0 + 2,
                    )
                } else {
                    k == TokenType::Slash && final(self).reader.pos() == pos0 + 1
                }
            }),
    {
        let ghost src = a@;
        let ghost pos0 = self.reader.window_start();
        let ghost hi = self.reader.hi(*a);
        match self.reader.peek(a) {
            Some('/') => {
                let _ = self.reader.advance_head(a);
                proof {
                    lemma_run_end_comment(src, hi, pos0 + 2);
                }
                let mut done = false;
                while !done
                    invariant
                        self.reader.wf(*a),
                        self.reader.same_bounds(old(self).reader),
                        self.reader.current.store_id == old(self).reader.current.store_id,
                        self.reader.window_start() == pos0,
                        self.reader.hi(*a) == hi,
                        src == a@,
                        hi <= src.len(),
                        pos0 + 2 <= self.reader.pos() <= hi,
                        run_end_comment(src, hi, pos0 + 2) == run_end_comment(
                            src,
                            hi,
                            self.reader.pos(),
                        ),
                        done ==> self.reader.pos() == run_end_comment(src, hi, pos0 + 2),
                        self.modes == old(self).modes,
                        self.keywords == old(self).keywords,
                    decreases hi - self.reader.pos() + (if done {
                        0int
                    } else {
                        1int
                    }),
                {
                    match self.reader.peek(a) {
                        Some(ch) => {
                            if ch == '\n' {
                                done = true;
                            } else {
                                let _ = self.reader.advance_head(a);
                            }
                        },
                        None => {
                            done = true;
                        },
                    }
                }
                TokenType::Ignore
            },
            _ => TokenType::Slash,
        }
    }

    /// A numeric literal: greedily consume the digit-and-underscore run and
    /// decode it; overflow is reported and a lossy fallback value of 1 is
    /// substituted so lexing can continue.
    fn lex_number_literal(&mut self, a: &SourceArena, eh: &mut ErrorHandler) -> (r: (
        TokenType,
        Option<TokenLiteral>,
    ))
        requires
            old(self).reader.wf(*a),
            old(self).reader.window_start() + 1 == old(self).reader.pos(),
            is_digit(a@[old(self).reader.window_start()]),
        ensures
            final(self).reader.wf(*a),
            final(self).reader.same_bounds(old(self).reader),
            final(self).reader.current.store_id == old(self).reader.current.store_id,
            final(self).reader.window_start() == old(self).reader.window_start(),
            final(self).modes == old(self).modes,
            final(self).keywords == old(self).keywords,
            ({
                let src = a@;
                let pos0 = old(self).reader.window_start();
                let hi = old(self).reader.hi(*a);
                let sid = old(self).reader.current.store_id;
                let end = run_end_digits(src, hi, pos0 + 1);
                let v = digits_value(src.subrange(pos0, end));
                &&& final(self).reader.pos() == end
                &&& r.0 == TokenType::IntLit
                &&& (if v > i64::MAX {
                    lit_matches(r.1, Some(LitModel::Int(1))) && final(eh)@ == old(eh)@.push(
                        (Diagnostic::IntTooBig { span: spec_span(sid, pos0, end) }),
                    )
                } else {
                    lit_matches(r.1, Some(LitModel::Int(v))) && final(eh)@ == old(eh)@
                })
            }),
    {
        let ghost src = a@;
        let ghost pos0 = self.reader.window_start();
        let ghost hi = self.reader.hi(*a);
        proof {
            lemma_run_end_digits(src, hi, pos0 + 1);
        }
        // consume the run
        let mut done = false;
        while !done
            invariant
                self.reader.wf(*a),
                self.reader.same_bounds(old(self).reader),
                self.reader.current.store_id == old(self).reader.current.store_id,
                self.reader.window_start() == pos0,
                self.reader.hi(*a) == hi,
                src == a@,
                hi <= src.len(),
                pos0 + 1 <= self.reader.pos() <= hi,
                run_end_digits(src, hi, pos0 + 1) == run_end_digits(src, hi, self.reader.pos()),
                done ==> self.reader.pos() == run_end_digits(src, hi, pos0 + 1),
                self.modes == old(self).modes,
                self.keywords == old(self).keywords,
            decreases hi - self.reader.pos() + (if done {
                0int
            } else {
                1int
            }),
        {
            match self.reader.peek(a) {
                Some(ch) => {
                    if is_digit_or_sep_exec(ch) {
                        let _ = self.reader.advance_head(a);
                    } else {
                        done = true;
                    }
                },
                None => {
                    done = true;
                },
            }
        }
        let ghost end = run_end_digits(src, hi, pos0 + 1);
        proof {
            assert(forall|j: int| pos0 <= j < end ==> is_digit_or_sep(src[j])) by {
                lemma_run_end_digits(src, hi, pos0 + 1);
            }
        }
        // decode the run
        let start_x = self.reader.current.start;
        let end_x = self.reader.current.end;
        let mut acc: i64 = 0;
        let mut too_big = false;
        let mut i = start_x;
        while i < end_x
            invariant
                start_x <= i <= end_x <= a@.len(),
                start_x == pos0,
                end_x == end,
                src == a@,
                forall|j: int| pos0 <= j < end ==> is_digit_or_sep(src[j]),
                acc >= 0,
                !too_big ==> acc == digits_value(src.subrange(pos0, i as int)),
                too_big ==> digits_value(src.subrange(pos0, i as int)) > i64::MAX,
            decreases end_x - i,
        {
            let ch = a.char_at(i);
            proof {
                assert(src.subrange(pos0, i + 1).drop_last() =~= src.subrange(pos0, i as int));
                assert(src.subrange(pos0, i + 1).last() == src[i as int]);
            }
            if ch == '_' {
                // separator: the value is unchanged
            } else {
                let d = (ch as u32 - 48) as i64;
                if too_big {
                    proof {
                        let before = digits_value(src.subrange(pos0, i as int));
                        assert(digits_value(src.subrange(pos0, i + 1)) == before * 10 + d);
                        assert(before <= before * 10) by (nonlinear_arith)
                            requires
                                before >= 0,
                        ;
                    }
                } else if acc > (i64::MAX - d) / 10 {
                    proof {
                        lemma_mul10_le(acc as int, i64::MAX - d);
                    }
                    too_big = true;
                } else {
                    proof {
                        lemma_mul10_le(acc as int, i64::MAX - d);
                    }
                    acc = acc * 10 + d;
                }
            }
            i = i + 1;
        }
        if too_big {
            let sp = self.reader.current;
            eh.err_int_too_big(sp);
            (TokenType::IntLit, Some(TokenLiteral::Int(1)))
        } else {
            (TokenType::IntLit, Some(TokenLiteral::Int(acc)))
        }
    }

    /// An identifier or keyword: consume the alphanumeric-and-underscore run
    /// and look the text up in the keyword table.
    fn lex_identifier(&mut self, a: &SourceArena) -> (k: TokenType)
        requires
            old(self).reader.wf(*a),
            old(self).reader.window_start() + 1 == old(self).reader.pos(),
            is_ident_start(a@[old(self).reader.window_start()]),
            old(self).keywords_wf(),
        ensures
            final(self).reader.wf(*a),
            final(self).reader.same_bounds(old(self).reader),
            final(self).reader.current.store_id == old(self).reader.current.store_id,
            final(self).reader.window_start() == old(self).reader.window_start(),
            final(self).modes == old(self).modes,
            final(self).keywords == old(self).keywords,
            ({
                let src = a@;
                let pos0 = old(self).reader.window_start();
                let hi = old(self).reader.hi(*a);
                let end = run_end_ident(src, hi, pos0 + 1);
                &&& final(self).reader.pos() == end
                &&& k == keyword_kind(src.subrange(pos0, end))
            }),
    {
        let ghost src = a@;
        let ghost pos0 = self.reader.window_start();
        let ghost hi = self.reader.hi(*a);
        proof {
            lemma_run_end_ident(src, hi, pos0 + 1);
        }
        let mut done = false;
        while !done
            invariant
                self.reader.wf(*a),
                self.reader.same_bounds(old(self).reader),
                self.reader.current.store_id == old(self).reader.current.store_id,
                self.reader.window_start() == pos0,
                self.reader.hi(*a) == hi,
                src == a@,
                hi <= src.len(),
                pos0 + 1 <= self.reader.pos() <= hi,
                run_end_ident(src, hi, pos0 + 1) == run_end_ident(src, hi, self.reader.pos()),
                done ==> self.reader.pos() == run_end_ident(src, hi, pos0 + 1),
                self.modes == old(self).modes,
                self.keywords == old(self).keywords,
            decreases hi - self.reader.pos() + (if done {
                0int
            } else {
                1int
            }),
        {
            match self.reader.peek(a) {
                Some(ch) => {
                    if is_ident_cont_exec(ch) {
                        let _ = self.reader.advance_head(a);
                    } else {
                        done = true;
                    }
                },
                None => {
                    done = true;
                },
            }
        }
        let ghost end = run_end_ident(src, hi, pos0 + 1);
        let start_x = self.reader.current.start;
        let end_x = self.reader.current.end;
        let klen = self.keywords[0].0.len();
        let mut is_kw = false;
        if end_x - start_x == klen {
            let mut j: usize = 0;
            let mut all = true;
            while j < klen
                invariant
                    j <= klen,
                    self.keywords@.len() == 1,
                    klen == self.keywords@[0].0@.len(),
                    start_x == pos0,
                    end_x == end,
                    end_x - start_x == klen,
                    end_x <= a@.len(),
                    src == a@,
                    all == (forall|t: int|
                        0 <= t < j ==> src[start_x + t] == self.keywords@[0].0@[t]),
                decreases klen - j,
            {
                let kc = self.keywords[0].0[j];
                if a.char_at(start_x + j) != kc {
                    all = false;
                }
                j = j + 1;
            }
            is_kw = all;
        }
        proof {
            let sub = src.subrange(pos0, end);
            if is_kw {
                assert(sub =~= exit_chars()) by {
                    assert(self.keywords@[0].0@ == exit_chars());
                    assert(sub.len() == exit_chars().len());
                    assert(forall|t: int|
                        0 <= t < sub.len() ==> sub[t] == exit_chars()[t]) by {
                        assert(forall|t: int|
                            0 <= t < (end - pos0) ==> src[pos0 + t] == self.keywords@[0].0@[t]);
                    }
                }
            } else {
                assert(sub != exit_chars()) by {
                    if sub == exit_chars() {
                        assert(sub.len() == 4);
                        assert(end - pos0 == 4);
                        assert(forall|t: int|
                            0 <= t < 4 ==> src[pos0 + t] == exit_chars()[t]) by {
                            assert(forall|t: int| 0 <= t < 4 ==> sub[t] == exit_chars()[t]);
                            assert(forall|t: int| 0 <= t < 4 ==> sub[t] == src[pos0 + t]);
                        }
                        assert(false);
                    }
                }
            }
        }
        if is_kw {
            self.keywords[0].1
        } else {
            TokenType::Identifier
        }
    }

    /// A raw run of string-body characters, with escapes decoded into the
    /// accumulated literal; stops before a closing quote or an interpolation
    /// start. A backslash with nothing after it is reported.
    fn lex_string_segment(&mut self, a: &SourceArena, eh: &mut ErrorHandler) -> (r: (
        TokenType,
        Option<TokenLiteral>,
    ))
        requires
            old(self).reader.wf(*a),
            old(self).reader.window_start() == old(self).reader.pos(),
            old(self).reader.pos() < old(self).reader.hi(*a),
            !seg_stop(a@, old(self).reader.hi(*a), old(self).reader.pos()),
        ensures
            final(self).reader.wf(*a),
            final(self).reader.same_bounds(old(self).reader),
            final(self).reader.current.store_id == old(self).reader.current.store_id,
            final(self).reader.window_start() == old(self).reader.window_start(),
            final(self).modes == old(self).modes,
            final(self).keywords == old(self).keywords,
            ({
                let src = a@;
                let pos0 = old(self).reader.window_start();
                let hi = old(self).reader.hi(*a);
                let sid = old(self).reader.current.store_id;
                let end = seg_end(src, hi, pos0);
                &&& final(self).reader.pos() == end
                &&& r.0 == TokenType::StrLit
                &&& lit_matches(r.1, Some(LitModel::Str(seg_decode(src, hi, pos0))))
                &&& final(eh)@ == (if seg_bad_escape(src, hi, pos0) {
                    old(eh)@.push(
                        (Diagnostic::UnclosedEscapeSequence { span: spec_span(sid, pos0, end) }),
                    )
                } else {
                    old(eh)@
                })
            }),
    {
        let ghost src = a@;
        let ghost pos0 = self.reader.window_start();
        let ghost hi = self.reader.hi(*a);
        proof {
            lemma_seg_end_bounds(src, hi, pos0);
        }
        let mut out: Vec<char> = Vec::new();
        let mut bad = false;
        let mut done = false;
        while !done
            invariant
                self.reader.wf(*a),
                self.reader.same_bounds(old(self).reader),
                self.reader.current.store_id == old(self).reader.current.store_id,
                self.reader.window_start() == pos0,
                self.reader.hi(*a) == hi,
                src == a@,
                hi <= src.len(),
                pos0 <= self.reader.pos() <= hi,
                seg_end(src, hi, pos0) == seg_end(src, hi, self.reader.pos()),
                seg_decode(src, hi, pos0) == out@ + seg_decode(src, hi, self.reader.pos()),
                seg_bad_escape(src, hi, pos0) == (bad || seg_bad_escape(
                    src,
                    hi,
                    self.reader.pos(),
                )),
                !done ==> !bad,
                done ==> {
                    &&& self.reader.pos() == seg_end(src, hi, pos0)
                    &&& out@ == seg_decode(src, hi, pos0)
                    &&& bad == seg_bad_escape(src, hi, pos0)
                },
                self.modes == old(self).modes,
                self.keywords == old(self).keywords,
            decreases hi - self.reader.pos() + (if done {
                0int
            } else {
                1int
            }),
        {
            let ghost p = self.reader.pos();
            let ghost out0 = out@;
            match self.reader.peek(a) {
                None => {
                    done = true;
                    proof {
                        assert(out@ + seg_decode(src, hi, p) =~= out@);
                    }
                },
                Some(ch) => {
                    if ch == '"' {
                        done = true;
                        proof {
                            assert(seg_stop(src, hi, p));
                            assert(out@ + seg_decode(src, hi, p) =~= out@);
                        }
                    } else if ch == '$' {
                        let stop_here = match self.reader.peek_n(a, 1) {
                            Some(c2) => c2 == '{',
                            None => false,
                        };
                        if stop_here {
                            done = true;
                            proof {
                                assert(seg_stop(src, hi, p));
                                assert(out@ + seg_decode(src, hi, p) =~= out@);
                            }
                        } else {
                            let _ = self.reader.advance_head(a);
                            out.push(ch);
                            proof {
                                assert(!seg_stop(src, hi, p));
                                assert(seg_decode(src, hi, p) == seq![src[p]] + seg_decode(
                                    src,
                                    hi,
                                    p + 1,
                                ));
                                assert(out0 + (seq![src[p]] + seg_decode(src, hi, p + 1))
                                    =~= (out0 + seq![src[p]]) + seg_decode(src, hi, p + 1));
                                assert(out@ =~= out0 + seq![src[p]]);
                            }
                        }
                    } else if ch == '\\' {
                        let _ = self.reader.advance_head(a);
                        match self.reader.peek(a) {
                            Some(e) => {
                                let _ = self.reader.advance_head(a);
                                out.push(escape_char_exec(e));
                                proof {
                                    assert(!seg_stop(src, hi, p));
                                    assert(seg_decode(src, hi, p) == seq![escape_char(src[p + 1])]
                                        + seg_decode(src, hi, p + 2));
                                    assert(out0 + (seq![escape_char(src[p + 1])] + seg_decode(
                                        src,
                                        hi,
                                        p + 2,
                                    )) =~= (out0 + seq![escape_char(src[p + 1])]) + seg_decode(
                                        src,
                                        hi,
                                        p + 2,
                                    ));
                                    assert(out@ =~= out0 + seq![escape_char(src[p + 1])]);
                                }
                            },
                            None => {
                                bad = true;
                                done = true;
                                proof {
                                    assert(!seg_stop(src, hi, p));
                                    assert(seg_end(src, hi, p) == p + 1);
                                    assert(out@ + seg_decode(src, hi, p) =~= out@);
                                }
                            },
                        }
                    } else {
                        let _ = self.reader.advance_head(a);
                        out.push(ch);
                        proof {
                            assert(!seg_stop(src, hi, p));
                            assert(seg_decode(src, hi, p) == seq![src[p]] + seg_decode(
                                src,
                                hi,
                                p + 1,
                            ));
                            assert(out0 + (seq![src[p]] + seg_decode(src, hi, p + 1)) =~= (out0
                                + seq![src[p]]) + seg_decode(src, hi, p + 1));
                            assert(out@ =~= out0 + seq![src[p]]);
                        }
                    }
                },
            }
        }
        if bad {
            let sp = self.reader.current;
            eh.err_unclosed_escape_sequence(sp);
        }
        (TokenType::StrLit, Some(TokenLiteral::Str(out)))
    }

    /// One token in string-body mode: closing quote, interpolation start, or
    /// a raw segment.
    fn string_mode_next(&mut self, a: &SourceArena, eh: &mut ErrorHandler) -> (r: (
        TokenType,
        Option<TokenLiteral>,
    ))
        requires
            old(self).reader.wf(*a),
            old(self).reader.window_start() == old(self).reader.pos(),
            old(self).reader.pos() < old(self).reader.hi(*a),
            modes_wf(old(self).modes@),
            old(self).modes@.last() == LexerMode::StringBody,
        ensures
            final(self).reader.wf(*a),
            final(self).reader.same_bounds(old(self).reader),
            final(self).reader.current.store_id == old(self).reader.current.store_id,
            final(self).reader.window_start() == old(self).reader.window_start(),
            final(self).keywords == old(self).keywords,
            ({
                let st = spec_string_scan(
                    a@,
                    old(self).reader.current.store_id,
                    old(self).reader.hi(*a),
                    old(self).reader.pos(),
                    old(self).modes@,
                );
                &&& final(self).reader.pos() == st.end
                &&& final(self).modes@ == st.modes
                &&& r.0 == st.kind
                &&& lit_matches(r.1, st.lit)
                &&& final(eh)@ == old(eh)@ + st.diags
            }),
    {
        let ghost st = spec_string_scan(
            a@,
            self.reader.current.store_id,
            self.reader.hi(*a),
            self.reader.pos(),
            self.modes@,
        );
        let c = self.reader.peek(a).unwrap();
        if c == '"' {
            let _ = self.reader.advance_head(a);
            let _ = self.modes.pop();
            proof {
                assert(self.modes@ =~= old(self).modes@.drop_last());
                assert(eh@ =~= old(eh)@ + st.diags);
            }
            (TokenType::Quote, None)
        } else {
            let interp = if c == '$' {
                match self.reader.peek_n(a, 1) {
                    Some(c2) => c2 == '{',
                    None => false,
                }
            } else {
                false
            };
            if interp {
                let _ = self.reader.advance_head(a);
                let _ = self.reader.advance_head(a);
                if self.modes.len() >= MODE_STACK_MAX {
                    let sp = self.reader.current;
                    eh.err_generic(Some(sp));
                    proof {
                        assert(eh@ =~= old(eh)@ + st.diags);
                    }
                    (TokenType::Ignore, None)
                } else {
                    self.modes.push(LexerMode::Interpolation);
                    proof {
                        assert(eh@ =~= old(eh)@ + st.diags);
                    }
                    (TokenType::InterpStart, None)
                }
            } else {
                proof {
                    assert(!seg_stop(a@, self.reader.hi(*a), self.reader.pos()));
                }
                let r = self.lex_string_segment(a, eh);
                proof {
                    if seg_bad_escape(a@, old(self).reader.hi(*a), old(self).reader.pos()) {
                        assert(eh@ =~= old(eh)@ + st.diags);
                    } else {
                        assert(eh@ =~= old(eh)@ + st.diags);
                    }
                }
                r
            }
        }
    }

    /// The scanning rules of `Normal` mode, also used by every mode that
    /// delegates to them.
    fn normal_mode_next(&mut self, a: &SourceArena, eh: &mut ErrorHandler) -> (r: (
        TokenType,
        Option<TokenLiteral>,
    ))
        requires
            old(self).reader.wf(*a),
            old(self).reader.window_start() == old(self).reader.pos(),
            old(self).reader.pos() < old(self).reader.hi(*a),
            modes_wf(old(self).modes@),
            old(self).keywords_wf(),
        ensures
            final(self).reader.wf(*a),
            final(self).reader.same_bounds(old(self).reader),
            final(self).reader.current.store_id == old(self).reader.current.store_id,
            final(self).reader.window_start() == old(self).reader.window_start(),
            final(self).keywords == old(self).keywords,
            ({
                let st = spec_normal_scan(
                    a@,
                    old(self).reader.current.store_id,
                    old(self).reader.hi(*a),
                    old(self).reader.pos(),
                    old(self).modes@,
                );
                &&& final(self).reader.pos() == st.end
                &&& final(self).modes@ == st.modes
                &&& r.0 == st.kind
                &&& lit_matches(r.1, st.lit)
                &&& final(eh)@ == old(eh)@ + st.diags
            }),
    {
        let ghost st = spec_normal_scan(
            a@,
            self.reader.current.store_id,
            self.reader.hi(*a),
            self.reader.pos(),
            self.modes@,
        );
        let ghost eh0 = eh@;
        let ghost sid = self.reader.current.store_id;
        let ghost pos0 = self.reader.pos();
        let c = self.reader.advance_head(a).unwrap();
        let r: (TokenType, Option<TokenLiteral>) = if c == ';' {
            (TokenType::Semicolon, None)
        } else if c == '(' || c == '[' || c == '{' || c == '"' {
            if self.modes.len() >= MODE_STACK_MAX {
                let sp = self.reader.current;
                eh.err_generic(Some(sp));
                proof {
                    assert(eh@ =~= eh0 + st.diags);
                }
                (TokenType::Ignore, None)
            } else {
                let m = if c == '(' {
                    LexerMode::ParenBlock
                } else if c == '[' {
                    LexerMode::BracketBlock
                } else if c == '{' {
                    LexerMode::BraceBlock
                } else {
                    LexerMode::StringBody
                };
                self.modes.push(m);
                let k = if c == '(' {
                    TokenType::LeftParen
                } else if c == '[' {
                    TokenType::LeftBracket
                } else if c == '{' {
                    TokenType::LeftBrace
                } else {
                    TokenType::Quote
                };
                (k, None)
            }
        } else if c == ')' || c == ']' || c == '}' {
            let sp = self.reader.current;
            eh.err_unmatched_delimiter(sp, c);
            proof {
                assert(eh@ =~= eh0 + st.diags);
            }
            (TokenType::Ignore, None)
        } else if c == ',' {
            (TokenType::Comma, None)
        } else if c == '+' {
            (TokenType::Plus, None)
        } else if c == '%' {
            (TokenType::Percent, None)
        } else if c == '-' {
            (TokenType::Minus, None)
        } else if c == '/' {
            (self.lex_div_or_comment(a), None)
        } else if c == '*' {
            match self.reader.peek(a) {
                Some('*') => {
                    let _ = self.reader.advance_head(a);
                    (TokenType::Pow, None)
                },
                _ => (TokenType::Star, None),
            }
        } else if c == ':' {
            match self.reader.peek(a) {
                Some('=') => {
                    let _ = self.reader.advance_head(a);
                    (TokenType::ColonEquals, None)
                },
                _ => {
                    let sp = self.reader.current;
                    eh.err_unexpected_character(sp, c);
                    proof {
                        assert(eh@ =~= eh0 + st.diags);
                    }
                    (TokenType::Unknown, None)
                },
            }
        } else if c == ' ' || c == '\n' || c == '\r' || c == '\t' {
            (TokenType::Ignore, None)
        } else if is_digit_exec(c) {
            let rr = self.lex_number_literal(a, eh);
            proof {
                assert(eh@ =~= eh0 + st.diags);
            }
            rr
        } else if is_alpha_exec(c) || c == '_' {
            (self.lex_identifier(a), None)
        } else {
            let sp = self.reader.current;
            eh.err_unexpected_character(sp, c);
            proof {
                let cs = a@[pos0];
                vstd::utf8::char_u32_cast(cs, (cs as u32));
                assert(chr(cs) == cs);
                let d = Diagnostic::UnexpectedCharacter {
                    span: spec_span(sid, pos0, pos0 + 1),
                    found: chr(cs),
                };
                assert(st.diags == Seq::empty().push(d));
                assert(eh@ == eh0.push(d));
                assert(eh@ =~= eh0 + Seq::empty().push(d));
                assert(eh@ =~= eh0 + st.diags);
            }
            (TokenType::Unknown, None)
        };
        proof {
            assert(eh@ =~= eh0 + st.diags);
        }
        r
    }

    /// One token, whatever the current mode, including ignorable ones. At
    /// end of input any still-pushed modes are reported as unclosed and
    /// discarded, and `None` is returned.
    pub fn scan_token(&mut self, a: &SourceArena, eh: &mut ErrorHandler) -> (r: Option<Token>)
        requires
            old(self).wf(a),
        ensures
            final(self).wf(a),
            final(self).stream_eq(old(self)),
            final(self).sid() == old(self).sid(),
            final(self).hi(a) == old(self).hi(a),
            old(self).pos() < old(self).hi(a) ==> ({
                let st = spec_scan(
                    a@,
                    old(self).sid(),
                    old(self).hi(a),
                    old(self).pos(),
                    old(self).modes_seq(),
                );
                &&& r is Some
                &&& r->0.token_type == st.kind
                &&& r->0.lexeme == spec_span(old(self).sid(), old(self).pos(), st.end)
                &&& lit_matches(r->0.literal, st.lit)
                &&& final(self).pos() == st.end
                &&& final(self).modes_seq() == st.modes
                &&& final(eh)@ == old(eh)@ + st.diags
            }),
            old(self).pos() >= old(self).hi(a) ==> ({
                &&& r is None
                &&& final(self).pos() == old(self).pos()
                &&& final(self).modes_seq() == seq![LexerMode::Normal]
                &&& final(eh)@ == old(eh)@ + eoi_diags(old(self).modes_seq())
            }),
    {
        let ghost src = a@;
        let ghost sid = self.reader.current.store_id;
        let ghost hi = self.reader.hi(*a);
        let ghost pos0 = self.reader.pos();
        let ghost modes0 = self.modes@;
        let ghost eh0 = eh@;
        let (_, hi_x) = self.reader.abs_bounds(a);
        if self.reader.current.end >= hi_x {
            while self.modes.len() > 1
                invariant
                    self.reader == old(self).reader,
                    self.keywords == old(self).keywords,
                    modes_wf(self.modes@),
                    eh0 + eoi_diags(modes0) =~= eh@ + eoi_diags(self.modes@),
                decreases self.modes@.len(),
            {
                let ghost mpre = self.modes@;
                let m = self.modes.pop().unwrap();
                let closer = match m {
                    LexerMode::ParenBlock => ')',
                    LexerMode::BracketBlock => ']',
                    LexerMode::BraceBlock => '}',
                    LexerMode::StringBody => '"',
                    LexerMode::Interpolation => '}',
                    LexerMode::Normal => '?',
                };
                eh.err_unclosed_delimiter(None, closer);
                proof {
                    assert(self.modes@ =~= mpre.drop_last());
                    assert(closer == closer_for(mpre.last()));
                    assert(eoi_diags(mpre) == seq![
                        (Diagnostic::UnclosedDelimiter { span: None, delimiter: closer }),
                    ] + eoi_diags(mpre.drop_last()));
                    assert(eh0 + eoi_diags(modes0) =~= eh@ + eoi_diags(self.modes@));
                }
            }
            proof {
                assert(self.modes@ =~= seq![LexerMode::Normal]);
                assert(eoi_diags(self.modes@) =~= Seq::<Diagnostic>::empty());
                assert(eh@ =~= eh0 + eoi_diags(modes0));
            }
            return None;
        }
        let ghost st = spec_scan(src, sid, hi, pos0, modes0);
        let top = self.modes[self.modes.len() - 1];
        let (kind, lit): (TokenType, Option<TokenLiteral>) = if top == LexerMode::StringBody {
            self.string_mode_next(a, eh)
        } else {
            let c = self.reader.peek(a).unwrap();
            if top == LexerMode::Interpolation && c == '}' {
                let _ = self.reader.advance_head(a);
                let _ = self.modes.pop();
                proof {
                    assert(self.modes@ =~= modes0.drop_last());
                    assert(eh@ =~= eh0 + st.diags);
                }
                (TokenType::RightBrace, None)
            } else if top == LexerMode::ParenBlock && c == ')' {
                let _ = self.reader.advance_head(a);
                let _ = self.modes.pop();
                proof {
                    assert(self.modes@ =~= modes0.drop_last());
                    assert(eh@ =~= eh0 + st.diags);
                }
                (TokenType::RightParen, None)
            } else if top == LexerMode::BracketBlock && c == ']' {
                let _ = self.reader.advance_head(a);
                let _ = self.modes.pop();
                proof {
                    assert(self.modes@ =~= modes0.drop_last());
                    assert(eh@ =~= eh0 + st.diags);
                }
                (TokenType::RightBracket, None)
            } else if top == LexerMode::BraceBlock && c == '}' {
                let _ = self.reader.advance_head(a);
                let _ = self.modes.pop();
                proof {
                    assert(self.modes@ =~= modes0.drop_last());
                    assert(eh@ =~= eh0 + st.diags);
                }
                (TokenType::RightBrace, None)
            } else {
                self.normal_mode_next(a, eh)
            }
        };
        let lexeme = self.reader.advance_tail();
        proof {
            lemma_scan_progress(src, sid, hi, pos0, modes0);
            assert(lexeme == spec_span(sid, pos0, st.end));
        }
        Some(Token { token_type: kind, lexeme, literal: lit })
    }

    /// The next visible token: ignorable tokens (whitespace, comments,
    /// refused delimiters) are scanned past, their diagnostics kept.
    pub fn next(&mut self, a: &SourceArena, eh: &mut ErrorHandler) -> (r: Option<Token>)
        requires
            old(self).wf(a),
        ensures
            final(self).wf(a),
            final(self).stream_eq(old(self)),
            final(self).sid() == old(self).sid(),
            final(self).hi(a) == old(self).hi(a),
            ({
                let o = spec_next(
                    a@,
                    old(self).sid(),
                    old(self).hi(a),
                    old(self).pos(),
                    old(self).modes_seq(),
                );
                &&& final(self).pos() == o.pos
                &&& final(self).modes_seq() == o.modes
                &&& final(eh)@ == old(eh)@ + o.diags
                &&& (match (r, o.tok) {
                    (Some(t), Some(tm)) => {
                        &&& t.token_type == tm.kind
                        &&& t.lexeme == spec_span(old(self).sid(), tm.start, tm.end)
                        &&& lit_matches(t.literal, tm.lit)
                    },
                    (None, None) => true,
                    _ => false,
                })
            }),
    {
        let ghost src = a@;
        let ghost sid = self.reader.current.store_id;
        let ghost hi = self.reader.hi(*a);
        let ghost pos1 = self.reader.pos();
        let ghost modes1 = self.modes@;
        let ghost eh1 = eh@;
        let ghost o = spec_next(src, sid, hi, pos1, modes1);
        let mut result: Option<Token> = None;
        let mut done = false;
        while !done
            invariant
                self.wf(a),
                self.stream_eq(old(self)),
                self.sid() == sid,
                self.hi(a) == hi,
                src == a@,
                hi <= src.len(),
                0 <= self.pos() <= hi,
                o == spec_next(src, sid, hi, pos1, modes1),
                !done ==> {
                    &&& result is None
                    &&& o.tok == spec_next(src, sid, hi, self.pos(), self.modes_seq()).tok
                    &&& o.pos == spec_next(src, sid, hi, self.pos(), self.modes_seq()).pos
                    &&& o.modes == spec_next(src, sid, hi, self.pos(), self.modes_seq()).modes
                    &&& eh1 + o.diags == eh@ + spec_next(
                        src,
                        sid,
                        hi,
                        self.pos(),
                        self.modes_seq(),
                    ).diags
                },
                done ==> {
                    &&& self.pos() == o.pos
                    &&& self.modes_seq() == o.modes
                    &&& eh@ == eh1 + o.diags
                    &&& (match (result, o.tok) {
                        (Some(t), Some(tm)) => {
                            &&& t.token_type == tm.kind
                            &&& t.lexeme == spec_span(sid, tm.start, tm.end)
                            &&& lit_matches(t.literal, tm.lit)
                        },
                        (None, None) => true,
                        _ => false,
                    })
                },
            decreases hi - self.pos() + (if done {
                0int
            } else {
                1int
            }),
        {
            let ghost p = self.pos();
            let ghost ms = self.modes_seq();
            let ghost ehp = eh@;
            proof {
                lemma_spec_next_props(src, sid, hi, p, ms);
                if p < hi {
                    lemma_scan_progress(src, sid, hi, p, ms);
                }
            }
            let t = self.scan_token(a, eh);
            match t {
                None => {
                    done = true;
                    proof {
                        assert(spec_next(src, sid, hi, p, ms).diags == eoi_diags(ms));
                        assert(eh@ =~= eh1 + o.diags);
                    }
                },
                Some(tok) => {
                    if tok.token_type == TokenType::Ignore {
                        proof {
                            let stp = spec_scan(src, sid, hi, p, ms);
                            let rest = spec_next(src, sid, hi, stp.end, stp.modes);
                            assert(spec_next(src, sid, hi, p, ms).diags == stp.diags
                                + rest.diags);
                            assert(ehp + (stp.diags + rest.diags) =~= (ehp + stp.diags)
                                + rest.diags);
                            assert(eh1 + o.diags =~= eh@ + rest.diags);
                        }
                    } else {
                        result = Some(tok);
                        done = true;
                        proof {
                            assert(eh@ =~= eh1 + o.diags);
                        }
                    }
                },
            }
        }
        result
    }

    /// Scan the whole remaining input into tokens, ignorable ones included.
    ///
    /// Exhaustive coverage: the lexemes tile the input exactly — the first
    /// starts at the current position, each later one starts where its
    /// predecessor ended, and the last ends at the end of input — so
    /// concatenating the rendered lexemes, in order, reconstructs the
    /// scanned text character for character.
    #[verifier::rlimit(100)]
    pub fn tokenize(&mut self, a: &SourceArena, eh: &mut ErrorHandler) -> (toks: Vec<Token>)
        requires
            old(self).wf(a),
        ensures
            final(self).wf(a),
            final(self).stream_eq(old(self)),
            final(self).pos() == final(self).hi(a),
            forall|i: int|
                0 <= i < toks@.len() ==> (#[trigger] toks@[i]).lexeme.valid_for(*a),
            forall|i: int|
                0 <= i < toks@.len() ==> (#[trigger] toks@[i]).lexeme.end <= old(self).hi(a),
            toks@.len() == 0 ==> old(self).pos() == old(self).hi(a),
            toks@.len() > 0 ==> {
                &&& toks@[0].lexeme.start == old(self).pos()
                &&& toks@[toks@.len() - 1].lexeme.end == old(self).hi(a)
            },
            forall|i: int|
                0 <= i < toks@.len() - 1 ==> (#[trigger] toks@[i]).lexeme.end == toks@[i
                    + 1].lexeme.start,
            ({
                let ts = spec_tokenize(
                    a@,
                    old(self).sid(),
                    old(self).hi(a),
                    old(self).pos(),
                    old(self).modes_seq(),
                );
                &&& toks@.len() == ts.len()
                &&& (forall|i: int|
                    0 <= i < toks@.len() ==> {
                        let t = #[trigger] toks@[i];
                        &&& t.token_type == ts[i].kind
                        &&& t.lexeme == spec_span(old(self).sid(), ts[i].start, ts[i].end)
                        &&& lit_matches(t.literal, ts[i].lit)
                    })
            }),
    {
        let ghost hi = self.hi(a);
        let ghost pos1 = self.pos();
        let ghost ts0 = spec_tokenize(a@, self.sid(), hi, pos1, self.modes_seq());
        proof {
            self.lemma_wf_bounds(a);
            a.lemma_len_bounded();
        }
        let mut toks: Vec<Token> = Vec::new();
        let mut done = false;
        while !done
            invariant
                self.wf(a),
                self.stream_eq(old(self)),
                self.hi(a) == hi,
                self.sid() == old(self).sid(),
                hi <= a@.len() <= usize::MAX,
                0 <= self.pos() <= hi,
                forall|i: int|
                    0 <= i < toks@.len() ==> (#[trigger] toks@[i]).lexeme.valid_for(*a),
                forall|i: int|
                    0 <= i < toks@.len() ==> (#[trigger] toks@[i]).lexeme.end <= hi,
                toks@.len() == 0 ==> self.pos() == pos1,
                toks@.len() > 0 ==> {
                    &&& toks@[0].lexeme.start == pos1
                    &&& toks@[toks@.len() - 1].lexeme.end == self.pos()
                },
                forall|i: int|
                    0 <= i < toks@.len() - 1 ==> (#[trigger] toks@[i]).lexeme.end == toks@[i
                        + 1].lexeme.start,
                toks@.len() <= ts0.len(),
                spec_tokenize(a@, self.sid(), hi, self.pos(), self.modes_seq()) == ts0.skip(
                    toks@.len() as int,
                ),
                forall|i: int|
                    0 <= i < toks@.len() ==> {
                        let t = #[trigger] toks@[i];
                        &&& t.token_type == ts0[i].kind
                        &&& t.lexeme == spec_span(self.sid(), ts0[i].start, ts0[i].end)
                        &&& lit_matches(t.literal, ts0[i].lit)
                    },
                done ==> self.pos() == hi,
                done ==> toks@.len() == ts0.len(),
            decreases hi - self.pos() + (if done {
                0int
            } else {
                1int
            }),
        {
            let ghost p = self.pos();
            let ghost ms = self.modes_seq();
            let ghost n = toks@.len() as int;
            proof {
                if p < hi {
                    lemma_scan_progress(a@, self.sid(), hi, p, ms);
                }
            }
            let t = self.scan_token(a, eh);
            match t {
                Some(tok) => {
                    proof {
                        let st = spec_scan(a@, self.sid(), hi, p, ms);
                        let m = TokModel { kind: st.kind, start: p, end: st.end, lit: st.lit };
                        let rest = spec_tokenize(a@, self.sid(), hi, st.end, st.modes);
                        assert(ts0.skip(n) == seq![m] + rest);
                        assert(ts0[n] == (seq![m] + rest)[0]);
                        assert forall|i: int| 0 <= i < rest.len() implies ts0.skip(n + 1)[i]
                            == rest[i] by {
                            assert(ts0.skip(n)[i + 1] == rest[i]);
                            assert(ts0.skip(n)[i + 1] == ts0[n + 1 + i]);
                            assert(ts0.skip(n + 1)[i] == ts0[n + 1 + i]);
                        }
                        assert(ts0.skip(n + 1) =~= rest);
                    }
                    toks.push(tok);
                },
                None => {
                    done = true;
                    proof {
                        assert(spec_tokenize(a@, self.sid(), hi, self.pos(), self.modes_seq())
                            =~= Seq::<TokModel>::empty());
                        assert(ts0.skip(n).len() == ts0.len() - n);
                        assert(toks@.len() == ts0.len());
                    }
                },
            }
        }
        toks
    }
}

/// `acc <= x / 10` exactly when `10 * acc <= x`, for nonnegative values:
/// justifies the overflow pre-test in decimal accumulation.
proof fn lemma_mul10_le(acc: int, x: int)
    requires
        acc >= 0,
        x >= 0,
    ensures
        (acc <= x / 10) <==> (10 * acc <= x),
{
    vstd::arithmetic::div_mod::lemma_fundamental_div_mod(x, 10);
    vstd::arithmetic::div_mod::lemma_mod_bound(x, 10);
    if acc <= x / 10 {
        assert(10 * acc <= 10 * (x / 10)) by (nonlinear_arith)
            requires
                acc <= x / 10,
        ;
    }
    if 10 * acc <= x {
        if acc > x / 10 {
            assert(10 * acc >= 10 * (x / 10) + 10) by (nonlinear_arith)
                requires
                    acc >= x / 10 + 1,
            ;
            assert(false);
        }
    }
}

/// Bounds and preservation facts about `spec_next`, for all callers that
/// drive the lexer in a loop.
pub proof fn lemma_spec_next_props(
    src: Seq<char>,
    sid: u64,
    hi: int,
    pos: int,
    modes: Seq<LexerMode>,
)
    requires
        0 <= pos <= hi <= src.len(),
        modes_wf(modes),
    ensures
        ({
            let o = spec_next(src, sid, hi, pos, modes);
            &&& pos <= o.pos <= hi
            &&& modes_wf(o.modes)
            &&& (o.tok is Some ==> {
                let t = o.tok->0;
                &&& pos <= t.start < t.end == o.pos
                &&& t.kind != TokenType::Ignore
            })
            &&& (o.tok is None ==> o.pos == hi || pos == hi)
        }),
    decreases hi - pos,
{
    if pos < hi {
        lemma_scan_progress(src, sid, hi, pos, modes);
        let st = spec_scan(src, sid, hi, pos, modes);
        if st.kind == TokenType::Ignore {
            lemma_spec_next_props(src, sid, hi, st.end, st.modes);
        }
    }
}

/// An integer-literal token always carries its decoded integer value.
pub proof fn lemma_intlit_has_value(
    src: Seq<char>,
    sid: u64,
    hi: int,
    pos: int,
    modes: Seq<LexerMode>,
)
    requires
        0 <= pos <= hi <= src.len(),
        modes_wf(modes),
    ensures
        ({
            let o = spec_next(src, sid, hi, pos, modes);
            (o.tok is Some && o.tok->0.kind == TokenType::IntLit) ==> (o.tok->0.lit matches Some(
                LitModel::Int(_),
            ))
        }),
    decreases hi - pos,
{
    if pos < hi {
        lemma_scan_progress(src, sid, hi, pos, modes);
        let st = spec_scan(src, sid, hi, pos, modes);
        if st.kind == TokenType::Ignore {
            lemma_intlit_has_value(src, sid, hi, st.end, st.modes);
        }
    }
}

/// Every token of the remaining input, in order, as the scanning model
/// produces them: kind, edges and decoded literal of each, ignorable ones
/// included.
pub open spec fn spec_tokenize(
    src: Seq<char>,
    sid: u64,
    hi: int,
    pos: int,
    modes: Seq<LexerMode>,
) -> Seq<TokModel>
    recommends
        0 <= pos <= hi <= src.len(),
        modes_wf(modes),
    decreases hi - pos,
        when 0 <= pos <= hi <= src.len() && modes_wf(modes)
    via spec_tokenize_decreases
{
    if pos >= hi {
        Seq::empty()
    } else {
        let st = spec_scan(src, sid, hi, pos, modes);
        seq![(TokModel { kind: st.kind, start: pos, end: st.end, lit: st.lit })] + spec_tokenize(
            src,
            sid,
            hi,
            st.end,
            st.modes,
        )
    }
}

#[via_fn]
proof fn spec_tokenize_decreases(src: Seq<char>, sid: u64, hi: int, pos: int, modes: Seq<LexerMode>) {
    if pos < hi {
        lemma_scan_progress(src, sid, hi, pos, modes);
    }
}

/// The lexemes of a token sequence, concatenated in order.
pub open spec fn lexemes_concat(src: Seq<char>, toks: Seq<TokModel>) -> Seq<char>
    decreases toks.len(),
{
    if toks.len() == 0 {
        Seq::empty()
    } else {
        src.subrange(toks[0].start, toks[0].end) + lexemes_concat(src, toks.drop_first())
    }
}

/// Exhaustive coverage: concatenating the lexemes of every scanned token,
/// ignorable ones included, reconstructs the scanned input exactly.
pub proof fn lemma_tokenize_covers(
    src: Seq<char>,
    sid: u64,
    hi: int,
    pos: int,
    modes: Seq<LexerMode>,
)
    requires
        0 <= pos <= hi <= src.len(),
        modes_wf(modes),
    ensures
        lexemes_concat(src, spec_tokenize(src, sid, hi, pos, modes)) == src.subrange(pos, hi),
    decreases hi - pos,
{
    if pos >= hi {
        assert(lexemes_concat(src, spec_tokenize(src, sid, hi, pos, modes)) =~= src.subrange(
            pos,
            hi,
        ));
    } else {
        lemma_scan_progress(src, sid, hi, pos, modes);
        let st = spec_scan(src, sid, hi, pos, modes);
        lemma_tokenize_covers(src, sid, hi, st.end, st.modes);
        let ts = spec_tokenize(src, sid, hi, pos, modes);
        let rest = spec_tokenize(src, sid, hi, st.end, st.modes);
        assert(ts.drop_first() =~= rest);
        assert(ts[0] == TokModel { kind: st.kind, start: pos, end: st.end, lit: st.lit });
        assert(lexemes_concat(src, ts) == src.subrange(pos, st.end) + lexemes_concat(src, rest));
        assert(src.subrange(pos, st.end) + src.subrange(st.end, hi) =~= src.subrange(pos, hi));
    }
}

// ---------------------------------------------------------------------------
// mode-stack balance
// ---------------------------------------------------------------------------

/// How the mode stack reacts to one emitted token, as a function of the
/// token's kind alone: open tokens push their mode, close tokens pop, a
/// quote toggles (it closes a string body and opens one anywhere else), and
/// every other token leaves the stack alone.
pub open spec fn mode_transition(modes: Seq<LexerMode>, kind: TokenType) -> Seq<LexerMode> {
    if kind == TokenType::LeftParen {
        modes.push(LexerMode::ParenBlock)
    } else if kind == TokenType::LeftBracket {
        modes.push(LexerMode::BracketBlock)
    } else if kind == TokenType::LeftBrace {
        modes.push(LexerMode::BraceBlock)
    } else if kind == TokenType::InterpStart {
        modes.push(LexerMode::Interpolation)
    } else if kind == TokenType::Quote {
        if modes.len() > 0 && modes.last() == LexerMode::StringBody {
            modes.drop_last()
        } else {
            modes.push(LexerMode::StringBody)
        }
    } else if kind == TokenType::RightParen || kind == TokenType::RightBracket || kind
        == TokenType::RightBrace {
        modes.drop_last()
    } else {
        modes
    }
}

/// The scanner's mode stack moves exactly as `mode_transition` prescribes
/// for the kind of token it emits: the stack depth is in one-to-one
/// correspondence with the open and close tokens of the stream.
pub proof fn lemma_scan_mode_transition(
    src: Seq<char>,
    sid: u64,
    hi: int,
    pos: int,
    modes: Seq<LexerMode>,
)
    requires
        0 <= pos < hi <= src.len(),
        modes_wf(modes),
    ensures
        spec_scan(src, sid, hi, pos, modes).modes == mode_transition(
            modes,
            spec_scan(src, sid, hi, pos, modes).kind,
        ),
{
    let m = modes.last();
    if m != LexerMode::StringBody && !(m == LexerMode::Interpolation && src[pos] == '}')
        && !(is_block_mode(m) && src[pos] == closer_for(m)) {
        let c = src[pos];
        if is_opener(c) && modes.len() < MODE_STACK_MAX && c == '"' {
            // a quote pushes here exactly because no string body is open
            assert(m != LexerMode::StringBody);
        }
    }
}

/// Fold `mode_transition` over a sequence of token kinds.
pub open spec fn run_modes(modes: Seq<LexerMode>, kinds: Seq<TokenType>) -> Seq<LexerMode>
    decreases kinds.len(),
{
    if kinds.len() == 0 {
        modes
    } else {
        run_modes(mode_transition(modes, kinds[0]), kinds.drop_first())
    }
}

pub proof fn lemma_run_modes_app(modes: Seq<LexerMode>, s1: Seq<TokenType>, s2: Seq<TokenType>)
    ensures
        run_modes(modes, s1 + s2) == run_modes(run_modes(modes, s1), s2),
    decreases s1.len(),
{
    if s1.len() == 0 {
        assert(s1 + s2 =~= s2);
    } else {
        assert((s1 + s2).drop_first() =~= s1.drop_first() + s2);
        assert((s1 + s2)[0] == s1[0]);
        lemma_run_modes_app(mode_transition(modes, s1[0]), s1.drop_first(), s2);
    }
}

/// Tokens that open a nested context.
pub open spec fn is_open_kind(k: TokenType) -> bool {
    k == TokenType::LeftParen || k == TokenType::LeftBracket || k == TokenType::LeftBrace || k
        == TokenType::InterpStart || k == TokenType::Quote
}

/// The mode an open token pushes.
pub open spec fn opened_mode(k: TokenType) -> LexerMode {
    if k == TokenType::LeftParen {
        LexerMode::ParenBlock
    } else if k == TokenType::LeftBracket {
        LexerMode::BracketBlock
    } else if k == TokenType::LeftBrace {
        LexerMode::BraceBlock
    } else if k == TokenType::InterpStart {
        LexerMode::Interpolation
    } else {
        LexerMode::StringBody
    }
}

/// Which close token ends which open token.
pub open spec fn closes_kind(open: TokenType, close: TokenType) -> bool {
    ||| (open == TokenType::LeftParen && close == TokenType::RightParen)
    ||| (open == TokenType::LeftBracket && close == TokenType::RightBracket)
    ||| (open == TokenType::LeftBrace && close == TokenType::RightBrace)
    ||| (open == TokenType::InterpStart && close == TokenType::RightBrace)
    ||| (open == TokenType::Quote && close == TokenType::Quote)
}

/// Tokens that touch no mode at all.
pub open spec fn neutral_kind(k: TokenType) -> bool {
    &&& !is_open_kind(k)
    &&& k != TokenType::RightParen
    &&& k != TokenType::RightBracket
    &&& k != TokenType::RightBrace
}

/// A derivation of a balanced token stream: the witness that every open
/// token is closed by its matching closer, innermost first.
pub enum Pairing {
    Empty,
    /// One token that touches no mode.
    Lone(TokenType),
    /// An opener, a balanced body, and the closer that ends it.
    Group(TokenType, Box<Pairing>, TokenType),
    /// Two balanced streams, one after the other.
    Cat(Box<Pairing>, Box<Pairing>),
}

/// The token kinds a derivation spells out, in order.
pub open spec fn pairing_kinds(p: Pairing) -> Seq<TokenType>
    decreases p,
{
    match p {
        Pairing::Empty => Seq::empty(),
        Pairing::Lone(k) => seq![k],
        Pairing::Group(o, b, c) => seq![o] + pairing_kinds(*b) + seq![c],
        Pairing::Cat(x, y) => pairing_kinds(*x) + pairing_kinds(*y),
    }
}

/// A balanced derivation outside a string body: quote groups wrap
/// string-body derivations, every other group wraps a normal one.
pub open spec fn pairing_wf_normal(p: Pairing) -> bool
    decreases p,
{
    match p {
        Pairing::Empty => true,
        Pairing::Lone(k) => neutral_kind(k),
        Pairing::Group(o, b, c) => {
            &&& is_open_kind(o)
            &&& closes_kind(o, c)
            &&& (if o == TokenType::Quote {
                pairing_wf_string(*b)
            } else {
                pairing_wf_normal(*b)
            })
        },
        Pairing::Cat(x, y) => pairing_wf_normal(*x) && pairing_wf_normal(*y),
    }
}

/// A balanced derivation inside a string body: string segments and other
/// neutral tokens, and fully matched interpolations.
pub open spec fn pairing_wf_string(p: Pairing) -> bool
    decreases p,
{
    match p {
        Pairing::Empty => true,
        Pairing::Lone(k) => neutral_kind(k),
        Pairing::Group(o, b, c) => {
            &&& o == TokenType::InterpStart
            &&& c == TokenType::RightBrace
            &&& pairing_wf_normal(*b)
        },
        Pairing::Cat(x, y) => pairing_wf_string(*x) && pairing_wf_string(*y),
    }
}

/// Mode-stack balance: a balanced token stream returns the mode stack to
/// exactly the state it started in. Together with
/// `lemma_scan_mode_transition` this says the lexer's mode stack is back at
/// its base precisely when the emitted open and close tokens pair up, so no
/// unclosed-delimiter report is pending when the reader is exhausted.
pub proof fn lemma_mode_stack_balance(modes: Seq<LexerMode>, p: Pairing)
    requires
        modes.len() >= 1,
        modes.last() != LexerMode::StringBody,
        pairing_wf_normal(p),
    ensures
        run_modes(modes, pairing_kinds(p)) == modes,
    decreases p,
{
    match p {
        Pairing::Empty => {
            assert(pairing_kinds(p) =~= Seq::<TokenType>::empty());
        },
        Pairing::Lone(k) => {
            assert(pairing_kinds(p) =~= seq![k]);
            assert(seq![k][0] == k);
            assert(seq![k].drop_first() =~= Seq::<TokenType>::empty());
            assert(mode_transition(modes, k) == modes);
            assert(run_modes(modes, Seq::<TokenType>::empty()) == modes);
        },
        Pairing::Group(o, b, c) => {
            let body = pairing_kinds(*b);
            let inner = mode_transition(modes, o);
            assert(inner =~= modes.push(opened_mode(o)));
            lemma_run_modes_app(modes, seq![o], body + seq![c]);
            assert(run_modes(modes, seq![o]) == inner) by {
                assert(seq![o][0] == o);
                assert(seq![o].drop_first() =~= Seq::<TokenType>::empty());
                assert(run_modes(inner, Seq::<TokenType>::empty()) == inner);
            }
            lemma_run_modes_app(inner, body, seq![c]);
            if o == TokenType::Quote {
                lemma_mode_stack_balance_string(inner, *b);
            } else {
                lemma_mode_stack_balance(inner, *b);
            }
            assert(run_modes(inner, seq![c]) == modes) by {
                assert(seq![c][0] == c);
                assert(seq![c].drop_first() =~= Seq::<TokenType>::empty());
                assert(mode_transition(inner, c) =~= modes);
                assert(run_modes(modes, Seq::<TokenType>::empty()) == modes);
            }
            assert(pairing_kinds(p) =~= seq![o] + (body + seq![c]));
        },
        Pairing::Cat(x, y) => {
            lemma_run_modes_app(modes, pairing_kinds(*x), pairing_kinds(*y));
            lemma_mode_stack_balance(modes, *x);
            lemma_mode_stack_balance(modes, *y);
        },
    }
}

/// As `lemma_mode_stack_balance`, for a stream inside a string body.
pub proof fn lemma_mode_stack_balance_string(modes: Seq<LexerMode>, p: Pairing)
    requires
        modes.len() >= 1,
        pairing_wf_string(p),
    ensures
        run_modes(modes, pairing_kinds(p)) == modes,
    decreases p,
{
    match p {
        Pairing::Empty => {
            assert(pairing_kinds(p) =~= Seq::<TokenType>::empty());
        },
        Pairing::Lone(k) => {
            assert(pairing_kinds(p) =~= seq![k]);
            assert(seq![k][0] == k);
            assert(seq![k].drop_first() =~= Seq::<TokenType>::empty());
            assert(mode_transition(modes, k) == modes);
            assert(run_modes(modes, Seq::<TokenType>::empty()) == modes);
        },
        Pairing::Group(o, b, c) => {
            let body = pairing_kinds(*b);
            let inner = mode_transition(modes, o);
            assert(inner =~= modes.push(LexerMode::Interpolation));
            lemma_run_modes_app(modes, seq![o], body + seq![c]);
            assert(run_modes(modes, seq![o]) == inner) by {
                assert(seq![o][0] == o);
                assert(seq![o].drop_first() =~= Seq::<TokenType>::empty());
                assert(run_modes(inner, Seq::<TokenType>::empty()) == inner);
            }
            lemma_run_modes_app(inner, body, seq![c]);
            lemma_mode_stack_balance(inner, *b);
            assert(run_modes(inner, seq![c]) == modes) by {
                assert(seq![c][0] == c);
                assert(seq![c].drop_first() =~= Seq::<TokenType>::empty());
                assert(mode_transition(inner, c) =~= modes);
                assert(run_modes(modes, Seq::<TokenType>::empty()) == modes);
            }
            assert(pairing_kinds(p) =~= seq![o] + (body + seq![c]));
        },
        Pairing::Cat(x, y) => {
            lemma_run_modes_app(modes, pairing_kinds(*x), pairing_kinds(*y));
            lemma_mode_stack_balance_string(modes, *x);
            lemma_mode_stack_balance_string(modes, *y);
        },
    }
}

} // verus!
