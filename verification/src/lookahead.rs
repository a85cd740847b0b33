//! Speculative iteration over the token stream: a committed (main) position
//! and a tentative (branch) position over the same underlying lexer, so the
//! parser can try grammar alternatives and cheaply discard them.

use vstd::prelude::*;

use crate::arena::SourceArena;
use crate::error_handler::ErrorHandler;
use crate::lexer::spec_next;
use crate::lexer::spec_span;
use crate::lexer::Lexer;
use crate::lexer::LexerMode;
use crate::lexer::Token;
use crate::lexer::TokenLiteral;
use crate::lexer::TokenType;

verus! {

/// Two tokens carrying the same category, lexeme and decoded value.
pub open spec fn token_eq(x: Token, y: Token) -> bool {
    &&& x.token_type == y.token_type
    &&& x.lexeme == y.lexeme
    &&& (match (x.literal, y.literal) {
        (Option::None, Option::None) => true,
        (Option::Some(TokenLiteral::Int(i)), Option::Some(TokenLiteral::Int(j))) => i == j,
        (Option::Some(TokenLiteral::Str(v)), Option::Some(TokenLiteral::Str(w))) => v@ == w@,
        _ => false,
    })
}

/// A field-for-field copy of a token.
fn clone_token(t: &Token) -> (r: Token)
    ensures
        token_eq(r, *t),
{
    let literal = match &t.literal {
        Option::None => Option::<TokenLiteral>::None,
        Option::Some(TokenLiteral::Int(i)) => Some(TokenLiteral::Int(*i)),
        Option::Some(TokenLiteral::Str(v)) => {
            let mut w: Vec<char> = Vec::new();
            let mut i: usize = 0;
            while i < v.len()
                invariant
                    i <= v@.len(),
                    w@ == v@.take(i as int),
                decreases v@.len() - i,
            {
                w.push(v[i]);
                i = i + 1;
            }
            proof {
                assert(w@ =~= v@);
            }
            Some(TokenLiteral::Str(w))
        },
    };
    Token { token_type: t.token_type, lexeme: t.lexeme, literal }
}

/// An iterator adapter that keeps a lookahead until it is committed: `peek`
/// advances only the branch, `reset` rewinds the branch to the committed
/// position, `commit` promotes the branch.
pub struct Lookahead {
    main: Lexer,
    branch: Lexer,
    pub current: Option<Token>,
}

impl Lookahead {
    /// The committed position.
    pub closed spec fn main_pos(&self) -> int {
        self.main.pos()
    }

    pub closed spec fn main_modes(&self) -> Seq<LexerMode> {
        self.main.modes_seq()
    }

    /// The tentative position, advanced by peeking.
    pub closed spec fn branch_pos(&self) -> int {
        self.branch.pos()
    }

    pub closed spec fn branch_modes(&self) -> Seq<LexerMode> {
        self.branch.modes_seq()
    }

    pub closed spec fn sid(&self) -> u64 {
        self.main.sid()
    }

    pub closed spec fn hi(&self, a: &SourceArena) -> int {
        self.main.hi(a)
    }

    /// The token most recently handed out by `peek` or `next`.
    pub closed spec fn current_tok(&self) -> Option<Token> {
        self.current
    }

    /// The branch reads the same stream as the committed lexer, whatever
    /// arena they are applied to.
    pub closed spec fn consistent(&self) -> bool {
        self.branch.stream_eq(&self.main)
    }

    /// The span and kind of the last token handed out, for error reports.
    pub fn current_info(&self) -> (r: Option<(crate::arena::SourceView, TokenType)>)
        ensures
            match (r, self.current_tok()) {
                (Some(info), Some(c)) => info.0 == c.lexeme && info.1 == c.token_type,
                (None, None) => true,
                _ => false,
            },
    {
        match &self.current {
            Some(c) => Some((c.lexeme, c.token_type)),
            None => None,
        }
    }

    pub closed spec fn wf(&self, a: &SourceArena) -> bool {
        &&& self.main.wf(a)
        &&& self.branch.wf(a)
        &&& self.consistent()
    }

    /// What `wf` guarantees about both cursors, exported for the parser.
    pub proof fn lemma_wf_bounds(&self, a: &SourceArena)
        requires
            self.wf(a),
        ensures
            0 <= self.main_pos() <= self.hi(a),
            0 <= self.branch_pos() <= self.hi(a),
            self.hi(a) <= a@.len(),
            crate::lexer::modes_wf(self.main_modes()),
            crate::lexer::modes_wf(self.branch_modes()),
    {
        self.main.lemma_wf_bounds(a);
        self.branch.lemma_wf_bounds(a);
        self.branch.lemma_stream_eq(&self.main, a);
    }
}

/// Wrap a lexer for speculative iteration, with the branch synchronized to
/// the committed position.
pub fn lookahead(lx: Lexer) -> (r: Lookahead)
    ensures
        forall|b: SourceArena| #![auto] lx.wf(&b) ==> r.wf(&b),
        r.main_pos() == lx.pos(),
        r.main_modes() == lx.modes_seq(),
        r.branch_pos() == lx.pos(),
        r.branch_modes() == lx.modes_seq(),
        r.sid() == lx.sid(),
        forall|b: SourceArena| #![auto] r.hi(&b) == lx.hi(&b),
        r.current_tok() is None,
        r.consistent(),
{
    let branch = lx.fork();
    Lookahead { main: lx, branch, current: None }
}

impl Lookahead {
    /// Advance only the branch and hand out the token found there; the
    /// committed position is untouched.
    pub fn peek(&mut self, a: &SourceArena, eh: &mut ErrorHandler) -> (r: Option<Token>)
        requires
            old(self).wf(a),
        ensures
            final(self).wf(a),
            final(self).consistent(),
            final(self).main_pos() == old(self).main_pos(),
            final(self).main_modes() == old(self).main_modes(),
            final(self).sid() == old(self).sid(),
            final(self).hi(a) == old(self).hi(a),
            ({
                let o = spec_next(
                    a@,
                    old(self).sid(),
                    old(self).hi(a),
                    old(self).branch_pos(),
                    old(self).branch_modes(),
                );
                &&& final(self).branch_pos() == o.pos
                &&& final(self).branch_modes() == o.modes
                &&& final(eh)@ == old(eh)@ + o.diags
                &&& (match (r, o.tok) {
                    (Some(t), Some(tm)) => {
                        &&& t.token_type == tm.kind
                        &&& t.lexeme == spec_span(old(self).sid(), tm.start, tm.end)
                        &&& crate::lexer::lit_matches(t.literal, tm.lit)
                    },
                    (None, None) => true,
                    _ => false,
                })
                &&& (match (r, final(self).current_tok()) {
                    (Some(t), Some(c)) => token_eq(c, t),
                    (None, None) => true,
                    _ => false,
                })
            }),
    {
        proof {
            old(self).branch.lemma_stream_eq(&old(self).main, a);
        }
        let t = self.branch.next(a, eh);
        proof {
            self.branch.lemma_stream_eq_trans(&old(self).branch, &old(self).main);
        }
        match t {
            Some(tok) => {
                self.current = Some(clone_token(&tok));
                Some(tok)
            },
            None => {
                self.current = None;
                None
            },
        }
    }

    /// Discard branch progress: rewind the branch to the committed position.
    /// A no-op when nothing was peeked.
    pub fn reset(&mut self)
        ensures
            forall|b: SourceArena| #![auto] old(self).wf(&b) ==> final(self).wf(&b),
            final(self).consistent(),
            final(self).main_pos() == old(self).main_pos(),
            final(self).main_modes() == old(self).main_modes(),
            final(self).branch_pos() == old(self).main_pos(),
            final(self).branch_modes() == old(self).main_modes(),
            final(self).sid() == old(self).sid(),
            forall|b: SourceArena| #![auto] final(self).hi(&b) == old(self).hi(&b),
            final(self).current_tok() == old(self).current_tok(),
    {
        self.branch = self.main.fork();
        proof {
            assert forall|b: SourceArena| #![auto] old(self).wf(&b) implies self.wf(&b) by {
                assert(self.branch.wf(&b));
            }
        }
    }

    /// Promote the branch: everything peeked so far is permanently consumed.
    /// A no-op when nothing was peeked.
    pub fn commit(&mut self)
        requires
            old(self).consistent(),
        ensures
            forall|b: SourceArena| #![auto] old(self).wf(&b) ==> final(self).wf(&b),
            final(self).consistent(),
            final(self).main_pos() == old(self).branch_pos(),
            final(self).main_modes() == old(self).branch_modes(),
            final(self).branch_pos() == old(self).branch_pos(),
            final(self).branch_modes() == old(self).branch_modes(),
            final(self).sid() == old(self).sid(),
            forall|b: SourceArena| #![auto] final(self).hi(&b) == old(self).hi(&b),
            final(self).current_tok() == old(self).current_tok(),
    {
        self.main = self.branch.fork();
        proof {
            self.main.lemma_stream_eq_sym(&self.branch);
            old(self).branch.lemma_stream_eq_sid(&old(self).main);
            assert forall|b: SourceArena| #![auto] self.hi(&b) == old(self).hi(&b) by {
                old(self).branch.lemma_stream_eq(&old(self).main, &b);
            }
            assert forall|b: SourceArena| #![auto] old(self).wf(&b) implies self.wf(&b) by {
                assert(self.main.wf(&b));
            }
        }
    }

    /// Advance the committed position directly, keeping the branch
    /// synchronized to it.
    pub fn next(&mut self, a: &SourceArena, eh: &mut ErrorHandler) -> (r: Option<Token>)
        requires
            old(self).wf(a),
        ensures
            final(self).wf(a),
            final(self).consistent(),
            final(self).sid() == old(self).sid(),
            final(self).hi(a) == old(self).hi(a),
            final(self).branch_pos() == final(self).main_pos(),
            final(self).branch_modes() == final(self).main_modes(),
            ({
                let o = spec_next(
                    a@,
                    old(self).sid(),
                    old(self).hi(a),
                    old(self).main_pos(),
                    old(self).main_modes(),
                );
                &&& final(self).main_pos() == o.pos
                &&& final(self).main_modes() == o.modes
                &&& final(eh)@ == old(eh)@ + o.diags
                &&& (match (r, o.tok) {
                    (Some(t), Some(tm)) => {
                        &&& t.token_type == tm.kind
                        &&& t.lexeme == spec_span(old(self).sid(), tm.start, tm.end)
                        &&& crate::lexer::lit_matches(t.literal, tm.lit)
                    },
                    (None, None) => true,
                    _ => false,
                })
                &&& (match (r, final(self).current_tok()) {
                    (Some(t), Some(c)) => token_eq(c, t),
                    (None, None) => true,
                    _ => false,
                })
            }),
    {
        let t = self.main.next(a, eh);
        self.branch = self.main.fork();
        match t {
            Some(tok) => {
                self.current = Some(clone_token(&tok));
                Some(tok)
            },
            None => {
                self.current = None;
                None
            },
        }
    }
}

/// Backtracking correctness: `peek` and `reset` never move the committed
/// position (their contracts keep `main_pos` and `main_modes` unchanged), and
/// the next visible token is a function of the committed position and mode
/// stack alone — so after any sequence of peeks and resets, `next` yields
/// exactly the token it would have yielded before them.
pub proof fn lemma_backtracking(l0: Lookahead, l1: Lookahead, a: SourceArena)
    requires
        l1.main_pos() == l0.main_pos(),
        l1.main_modes() == l0.main_modes(),
        l1.sid() == l0.sid(),
        l1.hi(&a) == l0.hi(&a),
    ensures
        spec_next(a@, l1.sid(), l1.hi(&a), l1.main_pos(), l1.main_modes()) == spec_next(
            a@,
            l0.sid(),
            l0.hi(&a),
            l0.main_pos(),
            l0.main_modes(),
        ),
{
}

/// Complex and highly flexible iterator that allows arbitrary lookahead,
/// one value of lookbehind, and building spans of values.
pub trait Cursor<T, S> {
    /// Look ahead `i` positions without advancing front or back indexes;
    /// `i = 0` looks at the value `advance` would return next.
    fn peek_n(&mut self, i: usize) -> Option<T>;

    /// The last value emitted by `advance`.
    fn previous(&self) -> Option<T>;

    /// The next value `advance` would emit, without staging it.
    fn front(&mut self) -> Option<T> {
        self.peek_n(0)
    }

    /// The value pointed at by the back iterator.
    fn back(&self) -> Option<T> {
        self.peek_back_n(0)
    }

    /// Peek `i` values from the back iterator; this may not cross into the
    /// lookahead range.
    fn peek_back_n(&self, i: usize) -> Option<T>;

    /// The length of the span between the back and front iterators.
    fn window_len(&self) -> usize;

    /// Whether the window is empty, as after `reset`.
    fn window_is_empty(&self) -> bool;

    /// Advance the front iterator, yielding a value.
    fn advance(&mut self) -> Option<T>;

    /// Advance the back iterator all the way to the front iterator, yielding
    /// a span.
    fn consume(&mut self) -> Option<S>;

    /// Advance the back iterator to the front iterator, discarding the value.
    fn burn(&mut self) {
        let _ = self.consume();
    }

    /// Backtrack the front iterator to the back iterator.
    fn reset(&mut self);
}

} // verus!
