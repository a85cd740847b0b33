//! Error reporting: the core never prints, it only records structured
//! diagnostics into an `ErrorHandler`, and the host decides how (and
//! whether) to display them.

use vstd::prelude::*;

use crate::arena::SourceView;
use crate::lexer::TokenType;

verus! {

/// One reported problem. Lexical diagnostics carry the span of the offending
/// text; end-of-input diagnostics may have no meaningful span.
#[derive(Clone, Debug, PartialEq, Eq)]
pub enum Diagnostic {
    /// An uncategorized error.
    Generic { span: Option<SourceView> },
    /// A path that could not be read (recorded for the host; the core does
    /// no I/O itself).
    IoNotFound { path: String },
    /// A free-form syntax error.
    Syntax { span: SourceView, message: String },
    /// A character no lexical rule accepts.
    UnexpectedCharacter { span: SourceView, found: char },
    /// Input ended while `delimiter` was still open.
    UnclosedDelimiter { span: Option<SourceView>, delimiter: char },
    /// A closing delimiter with no matching opening one.
    UnmatchedDelimiter { span: SourceView, delimiter: char },
    /// Input ended in the middle of a string escape sequence.
    UnclosedEscapeSequence { span: SourceView },
    /// An integer literal beyond the representable range.
    IntTooBig { span: SourceView },
    /// A token other than the ones the grammar allows here.
    UnexpectedToken { span: SourceView, expected: Vec<TokenType>, got: TokenType },
    /// An expression was required and `got` was found instead.
    ExpectedExpression { span: Option<SourceView>, got: Option<TokenType> },
    /// The token stream ended where the grammar required more input.
    UnexpectedEndOfInput,
}

/// `post` carries everything `pre` did, in order, possibly with more
/// reports appended after it.
pub open spec fn diags_extend(post: Seq<Diagnostic>, pre: Seq<Diagnostic>) -> bool {
    &&& pre.len() <= post.len()
    &&& forall|i: int| 0 <= i < pre.len() ==> post[i] == pre[i]
}

/// Collects every diagnostic reported during one compilation; the host reads
/// them out afterwards. Reporting only ever appends.
pub struct ErrorHandler {
    errors: Vec<Diagnostic>,
}

impl View for ErrorHandler {
    type V = Seq<Diagnostic>;

    closed spec fn view(&self) -> Seq<Diagnostic> {
        self.errors@
    }
}

impl ErrorHandler {
    pub fn new() -> (eh: ErrorHandler)
        ensures
            eh@ == Seq::<Diagnostic>::empty(),
    {
        ErrorHandler { errors: Vec::new() }
    }

    /// Whether any error has been reported so far.
    pub fn had_error(&self) -> (b: bool)
        ensures
            b == (self@.len() > 0),
    {
        self.errors.len() > 0
    }

    pub fn error_count(&self) -> (n: usize)
        ensures
            n == self@.len(),
    {
        self.errors.len()
    }

    /// Read one collected diagnostic.
    pub fn error_at(&self, i: usize) -> (d: &Diagnostic)
        requires
            i < self@.len(),
        ensures
            *d == self@[i as int],
    {
        &self.errors[i]
    }

    /// Append one diagnostic; everything already collected is kept.
    pub fn push_error(&mut self, d: Diagnostic)
        ensures
            final(self)@ == old(self)@.push(d),
    {
        self.errors.push(d);
    }

    pub fn err_generic(&mut self, span: Option<SourceView>)
        ensures
            final(self)@ == old(self)@.push(Diagnostic::Generic { span }),
    {
        self.push_error(Diagnostic::Generic { span });
    }

    pub fn err_io_not_found(&mut self, path: String)
        ensures
            final(self)@ == old(self)@.push(Diagnostic::IoNotFound { path }),
    {
        self.push_error(Diagnostic::IoNotFound { path });
    }

    pub fn syntax_error(&mut self, span: SourceView, message: String)
        ensures
            final(self)@ == old(self)@.push(Diagnostic::Syntax { span, message }),
    {
        self.push_error(Diagnostic::Syntax { span, message });
    }

    pub fn err_unexpected_character(&mut self, span: SourceView, found: char)
        ensures
            final(self)@ == old(self)@.push(Diagnostic::UnexpectedCharacter { span, found }),
    {
        self.push_error(Diagnostic::UnexpectedCharacter { span, found });
    }

    pub fn err_unclosed_delimiter(&mut self, span: Option<SourceView>, delimiter: char)
        ensures
            final(self)@ == old(self)@.push(Diagnostic::UnclosedDelimiter { span, delimiter }),
    {
        self.push_error(Diagnostic::UnclosedDelimiter { span, delimiter });
    }

    pub fn err_unmatched_delimiter(&mut self, span: SourceView, delimiter: char)
        ensures
            final(self)@ == old(self)@.push(Diagnostic::UnmatchedDelimiter { span, delimiter }),
    {
        self.push_error(Diagnostic::UnmatchedDelimiter { span, delimiter });
    }

    pub fn err_unclosed_escape_sequence(&mut self, span: SourceView)
        ensures
            final(self)@ == old(self)@.push(Diagnostic::UnclosedEscapeSequence { span }),
    {
        self.push_error(Diagnostic::UnclosedEscapeSequence { span });
    }

    pub fn err_int_too_big(&mut self, span: SourceView)
        ensures
            final(self)@ == old(self)@.push(Diagnostic::IntTooBig { span }),
    {
        self.push_error(Diagnostic::IntTooBig { span });
    }

    pub fn unexpected_token(&mut self, span: SourceView, expected: Vec<TokenType>, got: TokenType)
        ensures
            final(self)@ == old(self)@.push(Diagnostic::UnexpectedToken { span, expected, got }),
    {
        self.push_error(Diagnostic::UnexpectedToken { span, expected, got });
    }

    pub fn expect_expression(&mut self, span: Option<SourceView>, got: Option<TokenType>)
        ensures
            final(self)@ == old(self)@.push(Diagnostic::ExpectedExpression { span, got }),
    {
        self.push_error(Diagnostic::ExpectedExpression { span, got });
    }

    pub fn unexpected_end_of_input(&mut self)
        ensures
            final(self)@ == old(self)@.push(Diagnostic::UnexpectedEndOfInput),
    {
        self.push_error(Diagnostic::UnexpectedEndOfInput);
    }
}

} // verus!
