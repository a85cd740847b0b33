//! A stack-machine evaluator for expressions, driven purely by the postfix
//! order of `Expression::walk`. Arithmetic failure or a malformed visit
//! order poisons the evaluation instead of crashing, and walking a tree is
//! proved to push exactly the tree's value (`lemma_walk_evaluates`).

use vstd::prelude::*;

use crate::ast::walk_state;
use crate::ast::BinExpression;
use crate::ast::BinOperator;
use crate::ast::Expression;
use crate::ast::LitExpression;
use crate::ast::UnExpression;
use crate::ast::UnOperator;
use crate::ast::Visitor;
use crate::values::Value;

verus! {

/// What one binary operator application returns, on the two values the
/// stack machine pops for it.
pub open spec fn bin_result(bo: BinOperator, x: Value, y: Value) -> Option<Value> {
    match bo {
        BinOperator::Pow => crate::values::spec_pow(x, y),
        BinOperator::Mul => crate::values::spec_mul(x, y),
        BinOperator::Div => crate::values::spec_div(x, y),
        BinOperator::Mod => crate::values::spec_rem(x, y),
        BinOperator::Add => crate::values::spec_add(x, y),
        BinOperator::Sub => crate::values::spec_sub(x, y),
    }
}

/// The evaluator's abstract state: the value stack and the poison flag.
pub type EvalState = (Seq<Value>, bool);

/// Applying a binary operator: pop two, push the result; underflow or an
/// undefined result poisons the state.
pub open spec fn eval_bin_state(pre: EvalState, bo: BinOperator) -> EvalState {
    if pre.0.len() < 2 {
        (Seq::empty(), true)
    } else {
        let n = pre.0.len();
        match bin_result(bo, pre.0[n - 1], pre.0[n - 2]) {
            Some(v) => (pre.0.take(n - 2).push(v), pre.1),
            None => (pre.0.take(n - 2), true),
        }
    }
}

/// Applying negation: pop one, push its negation, or poison.
pub open spec fn eval_neg_state(pre: EvalState) -> EvalState {
    if pre.0.len() == 0 {
        (pre.0, true)
    } else {
        let n = pre.0.len();
        match crate::values::spec_neg(pre.0[n - 1]) {
            Some(v) => (pre.0.take(n - 1).push(v), pre.1),
            None => (pre.0.take(n - 1), true),
        }
    }
}

/// The value stack of the expression evaluator, plus a poison flag that is
/// set instead of failing when an operation cannot produce a value.
#[derive(Debug)]
pub struct ExpressionEval {
    stack: Vec<Value>,
    poisoned: bool,
}

impl ExpressionEval {
    pub closed spec fn stack_view(&self) -> Seq<Value> {
        self.stack@
    }

    pub closed spec fn is_poisoned(&self) -> bool {
        self.poisoned
    }

    pub fn new() -> (e: ExpressionEval)
        ensures
            e.stack_view() == Seq::<Value>::empty(),
            !e.is_poisoned(),
            e.vstate() == (Seq::<Value>::empty(), false),
    {
        ExpressionEval { stack: Vec::new(), poisoned: false }
    }

    /// The evaluation result: the single value left on the stack after a
    /// complete postfix walk, or nothing if evaluation was poisoned or the
    /// walk was incomplete.
    pub fn result(&self) -> (r: Option<Value>)
        ensures
            (!self.is_poisoned() && self.stack_view().len() == 1) ==> r == Some(
                self.stack_view()[0],
            ),
            !(!self.is_poisoned() && self.stack_view().len() == 1) ==> r is None,
    {
        if !self.poisoned && self.stack.len() == 1 {
            Some(self.stack[0])
        } else {
            None
        }
    }

    /// The abstract state is exactly the stack contents and the poison flag.
    pub proof fn lemma_vstate(&self)
        ensures
            self.vstate() == (self.stack_view(), self.is_poisoned()),
    {
    }

    /// Apply a binary operator to the two topmost values; underflow or an
    /// undefined result poisons the evaluation.
    fn apply_bin(&mut self, bo: &BinOperator)
        ensures
            final(self).vstate() == eval_bin_state(old(self).vstate(), *bo),
    {
        let x = self.stack.pop();
        let y = self.stack.pop();
        match (x, y) {
            (Some(x), Some(y)) => {
                proof {
                    assert(old(self).stack@.take(old(self).stack@.len() - 2) =~= self.stack@);
                }
                let r = match bo {
                    BinOperator::Pow => x.pow(y),
                    BinOperator::Mul => x.mul(y),
                    BinOperator::Div => x.div(y),
                    BinOperator::Mod => x.rem(y),
                    BinOperator::Add => x.add(y),
                    BinOperator::Sub => x.sub(y),
                };
                match r {
                    Some(v) => self.stack.push(v),
                    None => {
                        self.poisoned = true;
                    },
                }
            },
            _ => {
                self.stack = Vec::new();
                self.poisoned = true;
                proof {
                    assert(self.stack@ =~= Seq::<Value>::empty());
                }
            },
        }
    }
}

impl Visitor<()> for ExpressionEval {
    type VState = (Seq<Value>, bool);

    closed spec fn vstate(&self) -> (Seq<Value>, bool) {
        (self.stack@, self.poisoned)
    }

    open spec fn on_expression(pre: (Seq<Value>, bool), _e: Expression) -> (Seq<Value>, bool) {
        pre
    }

    open spec fn on_bin_expression(pre: (Seq<Value>, bool), _be: BinExpression) -> (
        Seq<Value>,
        bool,
    ) {
        pre
    }

    open spec fn on_bin_operator(pre: (Seq<Value>, bool), bo: BinOperator) -> (Seq<Value>, bool) {
        eval_bin_state(pre, bo)
    }

    open spec fn on_un_expression(pre: (Seq<Value>, bool), _ue: UnExpression) -> (
        Seq<Value>,
        bool,
    ) {
        pre
    }

    open spec fn on_un_operator(pre: (Seq<Value>, bool), _uo: UnOperator) -> (Seq<Value>, bool) {
        eval_neg_state(pre)
    }

    open spec fn on_lit_expression(pre: (Seq<Value>, bool), le: LitExpression) -> (
        Seq<Value>,
        bool,
    ) {
        (pre.0.push(le.value), pre.1)
    }

    fn visit_expression(&mut self, _e: &Expression) {
    }

    fn visit_bin_expression(&mut self, _be: &BinExpression) {
    }

    fn visit_bin_operator(&mut self, bo: &BinOperator) {
        self.apply_bin(bo);
    }

    fn visit_un_expression(&mut self, _ue: &UnExpression) {
    }

    fn visit_un_operator(&mut self, uo: &UnOperator) {
        match uo {
            UnOperator::Neg => {
                match self.stack.pop() {
                    Some(x) => {
                        proof {
                            assert(old(self).stack@.take(old(self).stack@.len() - 1)
                                =~= self.stack@);
                        }
                        match x.neg() {
                            Some(v) => self.stack.push(v),
                            None => {
                                self.poisoned = true;
                            },
                        }
                    },
                    None => {
                        self.poisoned = true;
                    },
                }
            },
        }
    }

    fn visit_lit_expression(&mut self, le: &LitExpression) {
        self.stack.push(le.value);
    }
}

/// The value of an expression tree: standard integer arithmetic over it,
/// undefined (`None`) on overflow, division by zero, or a negative
/// exponent.
pub open spec fn eval_spec(e: Expression) -> Option<Value>
    decreases e,
{
    match e {
        Expression::LE(l) => Some(l.value),
        Expression::UE(u) => match eval_spec(*u.rhs) {
            Some(x) => crate::values::spec_neg(x),
            None => None,
        },
        Expression::BE(b) => match (eval_spec(*b.lhs), eval_spec(*b.rhs)) {
            (Some(x), Some(y)) => bin_result(b.op, x, y),
            _ => None,
        },
    }
}

/// A poisoned evaluation stays poisoned through any further walking.
pub proof fn lemma_walk_keeps_poison(e: Expression, st: EvalState)
    requires
        st.1,
    ensures
        walk_state::<ExpressionEval>(e, st).1,
    decreases e,
{
    match e {
        Expression::LE(_) => {},
        Expression::UE(u) => {
            lemma_walk_keeps_poison(*u.rhs, st);
        },
        Expression::BE(b) => {
            lemma_walk_keeps_poison(*b.rhs, st);
            lemma_walk_keeps_poison(*b.lhs, walk_state::<ExpressionEval>(*b.rhs, st));
        },
    }
}

/// Walking a tree with the expression evaluator pushes exactly the tree's
/// value onto the stack it started with — or poisons the evaluation when
/// the tree has no value. The postfix visit order alone drives this.
pub proof fn lemma_walk_evaluates(e: Expression, st: EvalState)
    requires
        !st.1,
    ensures
        ({
            let post = walk_state::<ExpressionEval>(e, st);
            match eval_spec(e) {
                Some(v) => post == (st.0.push(v), false),
                None => post.1,
            }
        }),
    decreases e,
{
    match e {
        Expression::LE(_) => {},
        Expression::UE(u) => {
            lemma_walk_evaluates(*u.rhs, st);
            let s1 = walk_state::<ExpressionEval>(*u.rhs, st);
            match eval_spec(*u.rhs) {
                Some(x) => {
                    assert(s1 == (st.0.push(x), false));
                    assert(s1.0.take(s1.0.len() - 1) =~= st.0);
                },
                None => {},
            }
        },
        Expression::BE(b) => {
            lemma_walk_evaluates(*b.rhs, st);
            let s1 = walk_state::<ExpressionEval>(*b.rhs, st);
            match eval_spec(*b.rhs) {
                Some(y) => {
                    lemma_walk_evaluates(*b.lhs, s1);
                    let s2 = walk_state::<ExpressionEval>(*b.lhs, s1);
                    match eval_spec(*b.lhs) {
                        Some(x) => {
                            assert(s2 == (st.0.push(y).push(x), false));
                            assert(s2.0[s2.0.len() - 1] == x);
                            assert(s2.0[s2.0.len() - 2] == y);
                            assert(s2.0.take(s2.0.len() - 2) =~= st.0);
                        },
                        None => {},
                    }
                },
                None => {
                    lemma_walk_keeps_poison(*b.lhs, s1);
                },
            }
        },
    }
}

} // verus!
