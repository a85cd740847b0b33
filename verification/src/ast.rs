//! The expression AST: a tagged-variant tree, immutable once constructed.
//! Each node carries the concatenated span of its children, so diagnostics
//! can point at the exact source range of any sub-expression.

use vstd::prelude::*;

use crate::arena::SourceView;
use crate::values::Value;

verus! {

#[derive(Debug)]
pub enum Expression {
    BE(BinExpression),
    UE(UnExpression),
    LE(LitExpression),
}

#[derive(Debug)]
pub struct BinExpression {
    pub lhs: Box<Expression>,
    pub op: BinOperator,
    pub rhs: Box<Expression>,
    pub span: SourceView,
}

#[derive(Clone, Copy, Debug, PartialEq, Eq, Structural)]
pub enum BinOperator {
    Pow,
    Mul,
    Div,
    Mod,
    Add,
    Sub,
}

#[derive(Debug)]
pub struct UnExpression {
    pub op: UnOperator,
    pub rhs: Box<Expression>,
    pub span: SourceView,
}

#[derive(Clone, Copy, Debug, PartialEq, Eq, Structural)]
pub enum UnOperator {
    Neg,
}

#[derive(Debug)]
pub struct LitExpression {
    pub value: Value,
    pub span: SourceView,
}

impl Expression {
    /// The source range this node was parsed from.
    pub open spec fn span_of(self) -> SourceView {
        match self {
            Expression::BE(b) => b.span,
            Expression::UE(u) => u.span,
            Expression::LE(l) => l.span,
        }
    }

    /// Spans are well-formed ranges issued by the arena generation `sid`,
    /// bounded by `hi`, and every inner node's span is the concatenation of
    /// its children's spans.
    pub open spec fn wf(self, sid: u64, hi: int) -> bool
        decreases self,
    {
        match self {
            Expression::BE(b) => {
                &&& b.lhs.wf(sid, hi)
                &&& b.rhs.wf(sid, hi)
                &&& b.span.wf()
                &&& b.span.store_id == sid
                &&& b.span.start == b.lhs.span_of().start
                &&& b.span.end == b.rhs.span_of().end
                &&& b.lhs.span_of().start <= b.rhs.span_of().start
                &&& b.lhs.span_of().end <= b.rhs.span_of().end
            },
            Expression::UE(u) => {
                &&& u.rhs.wf(sid, hi)
                &&& u.span.store_id == sid
                &&& u.span.start <= u.rhs.span_of().start
                &&& u.span.end == u.rhs.span_of().end
                &&& u.span.wf()
            },
            Expression::LE(l) => {
                &&& l.span.store_id == sid
                &&& l.span.wf()
                &&& l.span.end <= hi
            },
        }
    }

    /// The exec view of the node's span (same as `span_of`).
    pub fn span(&self) -> (v: SourceView)
        ensures
            v == self.span_of(),
    {
        match self {
            Expression::BE(b) => b.span,
            Expression::UE(u) => u.span,
            Expression::LE(l) => l.span,
        }
    }

    /// Walk the expression tree, applying the visitor to each node. Nodes
    /// are visited in postfix order (children before the node itself), so
    /// evaluation can be implemented with a simple stack machine; the
    /// visitor ends in exactly the state `walk_state` folds to.
    pub fn walk<V: Visitor<()>>(&self, v: &mut V)
        ensures
            final(v).vstate() == walk_state::<V>(*self, old(v).vstate()),
        decreases *self, 1int,
    {
        match self {
            Expression::BE(be) => be.walk(v),
            Expression::UE(ue) => ue.walk(v),
            Expression::LE(le) => le.walk(v),
        }
        v.visit_expression(self);
    }
}

impl BinExpression {
    /// Right operand first, then the left one, then the operator: the order
    /// the stack-machine evaluator pops them in.
    pub fn walk<V: Visitor<()>>(&self, v: &mut V)
        ensures
            final(v).vstate() == bin_walk_state::<V>(*self, old(v).vstate()),
        decreases *self, 0int,
    {
        self.rhs.walk(v);
        self.lhs.walk(v);
        self.op.walk(v);
        v.visit_bin_expression(self);
    }
}

impl BinOperator {
    pub fn walk<V: Visitor<()>>(&self, v: &mut V)
        ensures
            final(v).vstate() == V::on_bin_operator(old(v).vstate(), *self),
    {
        v.visit_bin_operator(self);
    }
}

impl UnExpression {
    pub fn walk<V: Visitor<()>>(&self, v: &mut V)
        ensures
            final(v).vstate() == un_walk_state::<V>(*self, old(v).vstate()),
        decreases *self, 0int,
    {
        self.rhs.walk(v);
        self.op.walk(v);
        v.visit_un_expression(self);
    }
}

impl UnOperator {
    pub fn walk<V: Visitor<()>>(&self, v: &mut V)
        ensures
            final(v).vstate() == V::on_un_operator(old(v).vstate(), *self),
    {
        v.visit_un_operator(self);
    }
}

impl LitExpression {
    pub fn walk<V: Visitor<()>>(&self, v: &mut V)
        ensures
            final(v).vstate() == V::on_lit_expression(old(v).vstate(), *self),
    {
        v.visit_lit_expression(self);
    }
}

/// Double dispatch over the AST: the evaluator (or any other consumer)
/// implements this and is driven by `Expression::walk`'s postfix order.
///
/// Each implementor describes itself by an abstract state (`VState`) and
/// one deterministic transition per callback; `Expression::walk` then
/// ensures that the visitor's final state is exactly the postfix fold of
/// those transitions over the tree (`walk_state`).
pub trait Visitor<T> {
    /// The visitor's state, as its contracts see it.
    type VState;

    spec fn vstate(&self) -> Self::VState;

    /// What visiting a whole expression (children already visited) does.
    spec fn on_expression(pre: Self::VState, e: Expression) -> Self::VState;

    spec fn on_bin_expression(pre: Self::VState, be: BinExpression) -> Self::VState;

    spec fn on_bin_operator(pre: Self::VState, bo: BinOperator) -> Self::VState;

    spec fn on_un_expression(pre: Self::VState, ue: UnExpression) -> Self::VState;

    spec fn on_un_operator(pre: Self::VState, uo: UnOperator) -> Self::VState;

    spec fn on_lit_expression(pre: Self::VState, le: LitExpression) -> Self::VState;

    fn visit_expression(&mut self, e: &Expression) -> (t: T)
        ensures
            final(self).vstate() == Self::on_expression(old(self).vstate(), *e),
    ;

    fn visit_bin_expression(&mut self, be: &BinExpression) -> (t: T)
        ensures
            final(self).vstate() == Self::on_bin_expression(old(self).vstate(), *be),
    ;

    fn visit_bin_operator(&mut self, bo: &BinOperator) -> (t: T)
        ensures
            final(self).vstate() == Self::on_bin_operator(old(self).vstate(), *bo),
    ;

    fn visit_un_expression(&mut self, ue: &UnExpression) -> (t: T)
        ensures
            final(self).vstate() == Self::on_un_expression(old(self).vstate(), *ue),
    ;

    fn visit_un_operator(&mut self, uo: &UnOperator) -> (t: T)
        ensures
            final(self).vstate() == Self::on_un_operator(old(self).vstate(), *uo),
    ;

    fn visit_lit_expression(&mut self, le: &LitExpression) -> (t: T)
        ensures
            final(self).vstate() == Self::on_lit_expression(old(self).vstate(), *le),
    ;
}

/// The visitor state after walking `e` in postfix order: for every node,
/// all of its children's visits come before the node's own.
pub open spec fn walk_state<V: Visitor<()>>(e: Expression, pre: V::VState) -> V::VState
    decreases e, 1int,
{
    match e {
        Expression::BE(be) => V::on_expression(bin_walk_state::<V>(be, pre), e),
        Expression::UE(ue) => V::on_expression(un_walk_state::<V>(ue, pre), e),
        Expression::LE(le) => V::on_expression(V::on_lit_expression(pre, le), e),
    }
}

/// Right operand first, then the left one, then the operator, then the node.
pub open spec fn bin_walk_state<V: Visitor<()>>(be: BinExpression, pre: V::VState) -> V::VState
    decreases be, 0int,
{
    V::on_bin_expression(
        V::on_bin_operator(
            walk_state::<V>(*be.lhs, walk_state::<V>(*be.rhs, pre)),
            be.op,
        ),
        be,
    )
}

pub open spec fn un_walk_state<V: Visitor<()>>(ue: UnExpression, pre: V::VState) -> V::VState
    decreases ue, 0int,
{
    V::on_un_expression(V::on_un_operator(walk_state::<V>(*ue.rhs, pre), ue.op), ue)
}

} // verus!
