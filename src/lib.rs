//! A postfix (reverse-Polish) calculator engine: a tokenizer that classifies
//! the words of a line into terms, and an evaluator that reduces those terms
//! against a stack carried over from earlier lines.
//!
//! The engine is generic over the number type: the caller supplies how a
//! word is read as a number and how each operator acts on numbers.
pub mod command;
pub mod config;
pub mod expr;
pub mod text;

pub use config::{Config, Mode};

use vstd::prelude::*;
use crate::text::same_text;

verus! {

/// A stack of numbers that operators are applied to one at a time.
pub struct Stack<N> {
    stack: Vec<N>,
}

/// The result of an operation on a `Stack`.
pub type StackResult<T> = Result<T, &'static str>;

/// An arithmetic operator on a `Stack`.
#[derive(Debug, Clone, Copy, PartialEq, Eq, Structural)]
pub enum Op {
    Add,
    Sub,
    Mul,
    Div,
    IDiv,
    Exp,
}

/// The operator that a symbol names: `+`, `-`, `*` or `/`.
pub open spec fn op_symbol(s: Seq<char>) -> Option<Op> {
    if s == "+"@ {
        Some(Op::Add)
    } else if s == "-"@ {
        Some(Op::Sub)
    } else if s == "*"@ {
        Some(Op::Mul)
    } else if s == "/"@ {
        Some(Op::Div)
    } else {
        None
    }
}

/// What `f` gives for `op` on `l` and `r`.
pub open spec fn op_value<N, F: Fn(Op, N, N) -> N>(f: F, op: Op, l: N, r: N) -> N {
    choose|v: N| #[trigger] f.ensures((op, l, r), v)
}

/// `f` can be called on every operator and operands and gives one value for
/// each.
pub open spec fn op_fn_ok<N, F: Fn(Op, N, N) -> N>(f: F) -> bool {
    &&& forall|op: Op, l: N, r: N| #[trigger] f.requires((op, l, r))
    &&& forall|op: Op, l: N, r: N, v: N| #[trigger] f.ensures((op, l, r), v) ==> v == op_value(f, op, l, r)
}

impl<N> View for Stack<N> {
    type V = Seq<N>;

    /// The numbers on the stack, bottom first.
    closed spec fn view(&self) -> Seq<N> {
        self.stack@
    }
}

impl<N> Stack<N> {
    /// An empty stack.
    pub fn new() -> (r: Stack<N>)
        ensures
            r@ == Seq::<N>::empty(),
    {
        Stack { stack: Vec::new() }
    }

    /// Puts `val` on top.
    pub fn push(&mut self, val: N)
        ensures
            final(self)@ == old(self)@.push(val),
    {
        self.stack.push(val)
    }

    /// Applies the operator that `op` names to the two numbers on top, the
    /// lower one as the left operand, through `f`; the value replaces them
    /// and is returned. With fewer than two numbers the stack is emptied and
    /// an error returned; an unknown symbol leaves the stack as it was.
    pub fn op<F: Fn(Op, N, N) -> N>(&mut self, op: &str, f: F) -> (r: StackResult<N>)
        where
            N: Copy,
        requires
            op_fn_ok(f),
        ensures
            ({
                let s = old(self)@;
                match op_symbol(op@) {
                    None => r == Err::<N, &'static str>("unknown operator") && final(self)@ == s,
                    Some(o) => if s.len() >= 2 {
                        let v = op_value(f, o, s[s.len() - 2], s[s.len() - 1]);
                        r == Ok::<N, &'static str>(v) && final(self)@ == s.take(s.len() - 2).push(v)
                    } else {
                        r == Err::<N, &'static str>("not enough items on the stack") && final(self)@
                            == Seq::<N>::empty()
                    },
                }
            }),
    {
        match get_op_fn(op) {
            Some(o) => self.bin_op(o, f),
            _ => Err("unknown operator"),
        }
    }

    fn bin_op<F: Fn(Op, N, N) -> N>(&mut self, op: Op, f: F) -> (r: StackResult<N>)
        where
            N: Copy,
        requires
            op_fn_ok(f),
        ensures
            ({
                let s = old(self)@;
                if s.len() >= 2 {
                    let v = op_value(f, op, s[s.len() - 2], s[s.len() - 1]);
                    r == Ok::<N, &'static str>(v) && final(self)@ == s.take(s.len() - 2).push(v)
                } else {
                    r == Err::<N, &'static str>("not enough items on the stack") && final(self)@
                        == Seq::<N>::empty()
                }
            }),
    {
        let ghost s = self.stack@;
        let lop = self.stack.pop();
        let rop = self.stack.pop();
        match (rop, lop) {
            (Some(l), Some(r)) => {
                let result = f(op, l, r);
                self.stack.push(result);
                assert(self.stack@ =~= s.take(s.len() - 2).push(result));
                Ok(result)
            },
            _ => {
                assert(self.stack@ =~= Seq::<N>::empty());
                Err("not enough items on the stack")
            },
        }
    }
}

/// Whether `s` names one of the operators `+`, `-`, `*`, `/`.
pub fn is_op(s: &str) -> (r: bool)
    ensures
        r == op_symbol(s@).is_some(),
{
    same_text(s, "+") || same_text(s, "-") || same_text(s, "*") || same_text(s, "/")
}

fn get_op_fn(s: &str) -> (r: Option<Op>)
    ensures
        r == op_symbol(s@),
{
    if same_text(s, "+") {
        Some(Op::Add)
    } else if same_text(s, "-") {
        Some(Op::Sub)
    } else if same_text(s, "*") {
        Some(Op::Mul)
    } else if same_text(s, "/") {
        Some(Op::Div)
    } else {
        None
    }
}

} // verus!
