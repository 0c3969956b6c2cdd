//! Postfix expressions: reading a line into terms, and reducing the terms
//! against a stack of numbers.
//!
//! The number type `N` is left to the caller. A line's words are read as
//! numbers by a caller-supplied reader, and operators act on numbers through
//! caller-supplied functions; everything else (splitting the line, telling
//! operators from numbers, the order and arity of operator application, the
//! errors) is decided here.
use vstd::prelude::*;
use vstd::string::*;
use crate::text::same_text;

verus! {

/// An operator that takes two operands.
#[derive(Debug, Clone, Copy, PartialEq, Eq, Structural)]
pub enum BinOp {
    Add,
    Sub,
    Mul,
    Div,
    IDiv,
}

/// An operator that takes one operand.
#[derive(Debug, Clone, Copy, PartialEq, Eq, Structural)]
pub enum UnOp {
    Fact,
    Sin,
    Cos,
    Tan,
    Sqrt,
    Ln,
    Log,
}

/// One classified word of a line.
#[derive(Debug, Clone, PartialEq)]
pub enum Term<N> {
    /// A number, pushed onto the stack.
    Number(N),
    /// An operator on the two numbers on top of the stack.
    BinOp(BinOp),
    /// An operator on the number on top of the stack.
    UnOp(UnOp),
}

/// A parsed line: its terms, last word first, so that the next term to
/// evaluate is at the end.
#[derive(Debug)]
pub struct Expr<N> {
    pub stack: Vec<Term<N>>,
}

/// An error of evaluation.
#[derive(Debug, Clone, Copy, PartialEq, Eq, Structural)]
pub enum EvalError {
    /// The expression holds no term.
    EmptyExpression,
    /// An operator found too few operands on the stack.
    InsufficientOperands,
    /// Nothing was left on the stack to return.
    EmptyResult,
}

impl<N> From<BinOp> for Term<N> {
    fn from(op: BinOp) -> (r: Term<N>)
        ensures
            r == Term::<N>::BinOp(op),
    {
        Term::BinOp(op)
    }
}

impl<N> vstd::std_specs::convert::FromSpecImpl<BinOp> for Term<N> {
    open spec fn obeys_from_spec() -> bool {
        true
    }

    open spec fn from_spec(op: BinOp) -> Term<N> {
        Term::BinOp(op)
    }
}

impl<N> From<UnOp> for Term<N> {
    fn from(op: UnOp) -> (r: Term<N>)
        ensures
            r == Term::<N>::UnOp(op),
    {
        Term::UnOp(op)
    }
}

impl<N> vstd::std_specs::convert::FromSpecImpl<UnOp> for Term<N> {
    open spec fn obeys_from_spec() -> bool {
        true
    }

    open spec fn from_spec(op: UnOp) -> Term<N> {
        Term::UnOp(op)
    }
}

/// What went wrong with a word of a line.
#[derive(Debug, Clone, PartialEq)]
pub enum ParseErrorKind {
    /// A reserved operator symbol that no operation backs yet.
    InvalidOperator(String),
    /// A word that is neither an operator nor a number.
    InvalidTerm(String),
}

/// The error of reading a line into terms.
#[derive(Debug, Clone, PartialEq)]
pub struct ParseError {
    pub kind: ParseErrorKind,
}

/// The whitespace that separates the words of a line.
pub open spec fn is_space(c: char) -> bool {
    c == ' ' || c == '\t' || c == '\n' || c == '\x0C' || c == '\r'
}

/// `cur` as a list of words: none if it is empty, else itself.
pub open spec fn close_word(cur: Seq<char>) -> Seq<Seq<char>> {
    if cur.len() == 0 {
        seq![]
    } else {
        seq![cur]
    }
}

/// The words of `cur + s`, where `cur` is a word begun before `s`.
pub open spec fn split_words(s: Seq<char>, cur: Seq<char>) -> Seq<Seq<char>>
    decreases s.len(),
{
    if s.len() == 0 {
        close_word(cur)
    } else if is_space(s[0]) {
        close_word(cur) + split_words(s.skip(1), seq![])
    } else {
        split_words(s.skip(1), cur.push(s[0]))
    }
}

/// The words of `s`: its maximal runs of characters that are not whitespace,
/// from left to right.
pub open spec fn words(s: Seq<char>) -> Seq<Seq<char>> {
    split_words(s, seq![])
}

/// The term that an operator symbol stands for.
pub open spec fn symbol_term<N>(w: Seq<char>) -> Option<Term<N>> {
    if w == "+"@ {
        Some(Term::BinOp(BinOp::Add))
    } else if w == "-"@ {
        Some(Term::BinOp(BinOp::Sub))
    } else if w == "*"@ {
        Some(Term::BinOp(BinOp::Mul))
    } else if w == "/"@ {
        Some(Term::BinOp(BinOp::Div))
    } else if w == "//"@ {
        Some(Term::BinOp(BinOp::IDiv))
    } else if w == "!"@ {
        Some(Term::UnOp(UnOp::Fact))
    } else if w == "sin"@ {
        Some(Term::UnOp(UnOp::Sin))
    } else if w == "cos"@ {
        Some(Term::UnOp(UnOp::Cos))
    } else if w == "tan"@ {
        Some(Term::UnOp(UnOp::Tan))
    } else if w == "sqrt"@ {
        Some(Term::UnOp(UnOp::Sqrt))
    } else if w == "ln"@ {
        Some(Term::UnOp(UnOp::Ln))
    } else if w == "log"@ {
        Some(Term::UnOp(UnOp::Log))
    } else {
        None
    }
}

/// Operator symbols that are reserved but not backed by an operation.
pub open spec fn is_reserved(w: Seq<char>) -> bool {
    w == "^"@ || w == "\u{221A}"@
}

/// The reader may give `o` for a word with the characters `w`.
pub open spec fn reads<N, R: Fn(&str) -> Option<N>>(read: R, w: Seq<char>, o: Option<N>) -> bool {
    exists|t: &str| t@ == w && #[trigger] read.ensures((t,), o)
}

/// `t` is a term that the word `w` may be read as: the operator that it
/// names, or else, where `w` is no reserved symbol, a number that the reader
/// gives for it.
pub open spec fn term_for<N, R: Fn(&str) -> Option<N>>(read: R, w: Seq<char>, t: Term<N>) -> bool {
    match symbol_term::<N>(w) {
        Some(s) => t == s,
        None => !is_reserved(w) && t is Number && reads(read, w, Some(t->Number_0)),
    }
}

/// The word `w` may be refused with the error `k`: a reserved symbol is an
/// invalid operator; a word that is no operator and that the reader does not
/// read is an invalid term. Either error carries the word.
pub open spec fn refusal<N, R: Fn(&str) -> Option<N>>(read: R, w: Seq<char>, k: ParseErrorKind) -> bool {
    &&& symbol_term::<N>(w) is None
    &&& if is_reserved(w) {
        k is InvalidOperator && k->InvalidOperator_0@ == w
    } else {
        k is InvalidTerm && k->InvalidTerm_0@ == w && reads(read, w, None::<N>)
    }
}

/// The word `w` may be read as some term.
pub open spec fn accepted<N, R: Fn(&str) -> Option<N>>(read: R, w: Seq<char>) -> bool {
    exists|t: Term<N>| #[trigger] term_for(read, w, t)
}

/// The reader can be called on every word.
pub open spec fn reader_total<N, R: Fn(&str) -> Option<N>>(read: R) -> bool {
    forall|t: &str| #[trigger] read.requires((t,))
}

/// The text of an error of reading a line.
pub open spec fn parse_message(k: ParseErrorKind) -> Seq<char> {
    match k {
        ParseErrorKind::InvalidOperator(s) => "invalid operator found: "@ + s@,
        ParseErrorKind::InvalidTerm(s) => "invalid token found: "@ + s@,
    }
}

impl ParseError {
    /// A one-line description of the error that names the word.
    pub fn message(&self) -> (r: String)
        ensures
            r@ == parse_message(self.kind),
    {
        match &self.kind {
            ParseErrorKind::InvalidOperator(s) => {
                let mut m = String::from_str("invalid operator found: ");
                m.append(s.as_str());
                m
            },
            ParseErrorKind::InvalidTerm(s) => {
                let mut m = String::from_str("invalid token found: ");
                m.append(s.as_str());
                m
            },
        }
    }
}

impl EvalError {
    /// A one-line description of the error.
    pub fn message(&self) -> (r: &'static str)
        ensures
            r == match self {
                EvalError::EmptyExpression => "empty expression",
                EvalError::InsufficientOperands => "not enough items on stack",
                EvalError::EmptyResult => "empty stack",
            },
    {
        match self {
            EvalError::EmptyExpression => "empty expression",
            EvalError::InsufficientOperands => "not enough items on stack",
            EvalError::EmptyResult => "empty stack",
        }
    }
}

impl<N> Default for Expr<N> {
    /// The expression with no terms.
    fn default() -> (r: Expr<N>)
        ensures
            r.stack@ == Seq::<Term<N>>::empty(),
    {
        Expr { stack: Vec::new() }
    }
}

/// Classifies one word: an operator symbol first, then a number through
/// `read`.
fn parse_term<N, R: Fn(&str) -> Option<N>>(s: &str, read: &R) -> (r: Result<Term<N>, ParseError>)
    requires
        reader_total(*read),
    ensures
        match r {
            Ok(t) => term_for(*read, s@, t),
            Err(e) => refusal::<N, R>(*read, s@, e.kind),
        },
{
    if same_text(s, "+") {
        Ok(Term::BinOp(BinOp::Add))
    } else if same_text(s, "-") {
        Ok(Term::BinOp(BinOp::Sub))
    } else if same_text(s, "*") {
        Ok(Term::BinOp(BinOp::Mul))
    } else if same_text(s, "/") {
        Ok(Term::BinOp(BinOp::Div))
    } else if same_text(s, "//") {
        Ok(Term::BinOp(BinOp::IDiv))
    } else if same_text(s, "!") {
        Ok(Term::UnOp(UnOp::Fact))
    } else if same_text(s, "sin") {
        Ok(Term::UnOp(UnOp::Sin))
    } else if same_text(s, "cos") {
        Ok(Term::UnOp(UnOp::Cos))
    } else if same_text(s, "tan") {
        Ok(Term::UnOp(UnOp::Tan))
    } else if same_text(s, "sqrt") {
        Ok(Term::UnOp(UnOp::Sqrt))
    } else if same_text(s, "ln") {
        Ok(Term::UnOp(UnOp::Ln))
    } else if same_text(s, "log") {
        Ok(Term::UnOp(UnOp::Log))
    } else if same_text(s, "^") || same_text(s, "\u{221A}") {
        Err(ParseError { kind: ParseErrorKind::InvalidOperator(s.to_string()) })
    } else {
        match read(s) {
            Some(n) => Ok(Term::Number(n)),
            None => Err(ParseError { kind: ParseErrorKind::InvalidTerm(s.to_string()) }),
        }
    }
}

/// Every value that `bin` may return is the one that `f` gives.
pub open spec fn agrees_bin<N, B: Fn(BinOp, N, N) -> N>(bin: B, f: spec_fn(BinOp, N, N) -> N) -> bool {
    forall|op: BinOp, l: N, r: N, v: N| #[trigger] bin.ensures((op, l, r), v) ==> v == f(op, l, r)
}

/// Every value that `un` may return is the one that `g` gives.
pub open spec fn agrees_un<N, U: Fn(UnOp, N) -> N>(un: U, g: spec_fn(UnOp, N) -> N) -> bool {
    forall|op: UnOp, x: N, v: N| #[trigger] un.ensures((op, x), v) ==> v == g(op, x)
}

/// The operator functions `bin` and `un` compute `f` and `g`.
pub open spec fn computes<N, B: Fn(BinOp, N, N) -> N, U: Fn(UnOp, N) -> N>(
    bin: B,
    un: U,
    f: spec_fn(BinOp, N, N) -> N,
    g: spec_fn(UnOp, N) -> N,
) -> bool {
    agrees_bin(bin, f) && agrees_un(un, g)
}

/// The operator functions can be called on every operator and operands.
pub open spec fn arith_total<N, B: Fn(BinOp, N, N) -> N, U: Fn(UnOp, N) -> N>(bin: B, un: U) -> bool {
    &&& forall|op: BinOp, l: N, r: N| #[trigger] bin.requires((op, l, r))
    &&& forall|op: UnOp, x: N| #[trigger] un.requires((op, x))
}

/// The stack after applying one term to `st`, or `None` where an operator
/// finds too few operands. A binary operator with a single operand leaves it
/// in place.
pub open spec fn step<N>(
    t: Term<N>,
    st: Seq<N>,
    f: spec_fn(BinOp, N, N) -> N,
    g: spec_fn(UnOp, N) -> N,
) -> Option<Seq<N>> {
    match t {
        Term::Number(n) => Some(st.push(n)),
        Term::BinOp(op) => if st.len() >= 2 {
            Some(st.take(st.len() - 2).push(f(op, st[st.len() - 2], st[st.len() - 1])))
        } else if st.len() == 1 {
            Some(st)
        } else {
            None
        },
        Term::UnOp(op) => if st.len() >= 1 {
            Some(st.drop_last().push(g(op, st.last())))
        } else {
            None
        },
    }
}

/// Applies the pending terms, last one first, to `st`: the terms still
/// pending, the stack, and whether every applied term found its operands.
/// It stops at the first term that does not.
pub open spec fn run<N>(
    pending: Seq<Term<N>>,
    st: Seq<N>,
    f: spec_fn(BinOp, N, N) -> N,
    g: spec_fn(UnOp, N) -> N,
) -> (Seq<Term<N>>, Seq<N>, bool)
    decreases pending.len(),
{
    if pending.len() == 0 {
        (pending, st, true)
    } else {
        match step(pending.last(), st, f, g) {
            Some(next) => run(pending.drop_last(), next, f, g),
            None => (pending.drop_last(), st, false),
        }
    }
}

/// Evaluating an expression whose terms are `pending` against the stack
/// `st`: the result, the expression's terms afterwards, and the stack
/// afterwards. On success the top of the reduced stack is taken off and
/// returned, and the expression is left holding that number alone.
pub open spec fn evaluation<N>(
    pending: Seq<Term<N>>,
    st: Seq<N>,
    f: spec_fn(BinOp, N, N) -> N,
    g: spec_fn(UnOp, N) -> N,
) -> (Result<N, EvalError>, Seq<Term<N>>, Seq<N>) {
    let (rest, out, ok) = run(pending, st, f, g);
    if pending.len() == 0 {
        (Err(EvalError::EmptyExpression), pending, st)
    } else if !ok {
        (Err(EvalError::InsufficientOperands), rest, out)
    } else if out.len() == 0 {
        (Err(EvalError::EmptyResult), rest, out)
    } else {
        (Ok(out.last()), seq![Term::Number(out.last())], out.drop_last())
    }
}

impl<N> Expr<N> {
    /// Reads a line into an expression. Each word is an operator symbol or
    /// else a number that `read` gives for it; the first word that is
    /// neither is the error.
    pub fn parse<R: Fn(&str) -> Option<N>>(s: &str, read: R) -> (r: Result<Expr<N>, ParseError>)
        requires
            reader_total(read),
        ensures
            ({
                let ws = words(s@);
                match r {
                    Ok(e) => e.stack@.len() == ws.len() && forall|j: int|
                        0 <= j < e.stack@.len() ==> term_for(read, ws[e.stack@.len() - 1 - j], #[trigger] e.stack@[j]),
                    Err(e) => exists|k: int|
                        0 <= k < ws.len() && refusal::<N, R>(read, #[trigger] ws[k], e.kind) && forall|j: int|
                            0 <= j < k ==> accepted::<N, R>(read, #[trigger] ws[j]),
                }
            }),
    {
        let stack = make_stack(s, &read)?;
        Ok(Expr { stack })
    }

    /// Evaluates the expression against `stack`, which holds what earlier
    /// lines left. Numbers are pushed; an operator pops its operands (the
    /// right one first) and pushes its value; a binary operator that finds a
    /// single operand leaves it. The top of the stack is then popped and
    /// returned. On an error the stack stays as far as evaluation got.
    pub fn evaluate<B: Fn(BinOp, N, N) -> N, U: Fn(UnOp, N) -> N>(
        &mut self,
        stack: &mut Vec<N>,
        bin: B,
        un: U,
    ) -> (r: Result<N, EvalError>)
        where
            N: Copy,
        requires
            arith_total(bin, un),
        ensures
            forall|f: spec_fn(BinOp, N, N) -> N, g: spec_fn(UnOp, N) -> N| #[trigger] computes(bin, un, f, g)
                ==> (r, final(self).stack@, final(stack)@) == evaluation(old(self).stack@, old(stack)@, f, g),
    {
        if self.stack.len() == 0 {
            return Err(EvalError::EmptyExpression);
        }
        while self.stack.len() > 0
            invariant
                arith_total(bin, un),
                old(self).stack@.len() > 0,
                forall|f: spec_fn(BinOp, N, N) -> N, g: spec_fn(UnOp, N) -> N| #[trigger] computes(bin, un, f, g)
                    ==> run(self.stack@, stack@, f, g) == run(old(self).stack@, old(stack)@, f, g),
            decreases self.stack@.len(),
        {
            let ghost pending = self.stack@;
            let ghost st = stack@;
            let t = self.stack.pop().unwrap();
            match t {
                Term::Number(n) => {
                    stack.push(n);
                },
                Term::BinOp(op) => {
                    let right = stack.pop();
                    let left = stack.pop();
                    match (left, right) {
                        (Some(l), Some(r)) => {
                            let v = bin(op, l, r);
                            stack.push(v);
                            assert forall|f: spec_fn(BinOp, N, N) -> N, g: spec_fn(UnOp, N) -> N| #[trigger]
                                computes(bin, un, f, g) implies step(pending.last(), st, f, g) == Some(stack@) by {
                                assert(v == f(op, l, r));
                                assert(stack@ =~= st.take(st.len() - 2).push(f(op, l, r)));
                            }
                        },
                        (None, Some(r)) => {
                            stack.push(r);
                            assert(stack@ =~= st);
                        },
                        _ => {
                            assert(st.len() == 0);
                            assert(stack@ =~= st);
                            return Err(EvalError::InsufficientOperands);
                        },
                    }
                },
                Term::UnOp(op) => {
                    match stack.pop() {
                        Some(x) => {
                            let v = un(op, x);
                            stack.push(v);
                            assert forall|f: spec_fn(BinOp, N, N) -> N, g: spec_fn(UnOp, N) -> N| #[trigger]
                                computes(bin, un, f, g) implies step(pending.last(), st, f, g) == Some(stack@) by {
                                assert(v == g(op, x));
                            }
                        },
                        None => {
                            return Err(EvalError::InsufficientOperands);
                        },
                    }
                },
            }
        }
        match stack.pop() {
            None => Err(EvalError::EmptyResult),
            Some(v) => {
                self.stack.push(Term::Number(v));
                assert(self.stack@ =~= seq![Term::Number(v)]);
                Ok(v)
            },
        }
    }

    /// Puts the terms of `e` after this expression's own, so that they are
    /// evaluated after them.
    pub fn push_expr(&mut self, e: Expr<N>)
        ensures
            final(self).stack@ == e.stack@ + old(self).stack@,
    {
        let mut e = e;
        e.stack.append(&mut self.stack);
        self.stack = e.stack;
    }
}

/// A binary operator takes the earlier number as its left operand and the
/// later one as its right: evaluating the expression `a b op` against an
/// empty stack returns `op` applied to `(a, b)`, and leaves the stack empty.
pub proof fn lemma_operand_order<N>(
    a: N,
    b: N,
    op: BinOp,
    f: spec_fn(BinOp, N, N) -> N,
    g: spec_fn(UnOp, N) -> N,
)
    ensures
        evaluation(seq![Term::BinOp(op), Term::Number(b), Term::Number(a)], Seq::<N>::empty(), f, g)
            == (Ok::<N, EvalError>(f(op, a, b)), seq![Term::Number(f(op, a, b))], Seq::<N>::empty()),
{
    let e = seq![Term::BinOp(op), Term::Number(b), Term::Number(a)];
    let v = f(op, a, b);
    assert(e.drop_last() =~= seq![Term::BinOp(op), Term::Number(b)]);
    assert(e.drop_last().drop_last() =~= seq![Term::BinOp(op)]);
    assert(e.drop_last().drop_last().drop_last() =~= Seq::<Term<N>>::empty());
    let s1 = Seq::<N>::empty().push(a);
    let s2 = s1.push(b);
    assert(s2.take(0) =~= Seq::<N>::empty());
    assert(s2[0] == a && s2[1] == b);
    assert(run(e.drop_last().drop_last().drop_last(), seq![v], f, g) == (Seq::<Term<N>>::empty(), seq![v], true));
    assert(step(Term::<N>::BinOp(op), s2, f, g) == Some(seq![v])) by {
        assert(s2.take(0).push(v) =~= seq![v]);
    }
    assert(run(e.drop_last().drop_last(), s2, f, g) == (Seq::<Term<N>>::empty(), seq![v], true));
    assert(run(e.drop_last(), s1, f, g) == (Seq::<Term<N>>::empty(), seq![v], true));
    assert(run(e, Seq::<N>::empty(), f, g) == (Seq::<Term<N>>::empty(), seq![v], true));
    assert(seq![v].drop_last() =~= Seq::<N>::empty());
}

/// Evaluating what a successful evaluation leaves in the expression returns
/// the same value again, against any stack, and leaves that stack as it was.
pub proof fn lemma_residual_reevaluates<N>(
    pending: Seq<Term<N>>,
    st: Seq<N>,
    other: Seq<N>,
    f: spec_fn(BinOp, N, N) -> N,
    g: spec_fn(UnOp, N) -> N,
)
    requires
        evaluation(pending, st, f, g).0 is Ok,
    ensures
        ({
            let (r, rest, _) = evaluation(pending, st, f, g);
            evaluation(rest, other, f, g) == (r, rest, other)
        }),
{
    let (r, rest, _) = evaluation(pending, st, f, g);
    let v = r->Ok_0;
    assert(rest == seq![Term::Number(v)]);
    assert(rest.drop_last() =~= Seq::<Term<N>>::empty());
    assert(rest.last() == Term::Number(v));
    assert(step(rest.last(), other, f, g) == Some(other.push(v)));
    assert(run(Seq::<Term<N>>::empty(), other.push(v), f, g) == (Seq::<Term<N>>::empty(), other.push(v), true));
    assert(run(rest, other, f, g) == (Seq::<Term<N>>::empty(), other.push(v), true));
    assert(other.push(v).drop_last() =~= other);
}

/// Whitespace that separates words.
fn is_space_char(c: char) -> (r: bool)
    ensures
        r == is_space(c),
{
    c == ' ' || c == '\t' || c == '\n' || c == '\x0C' || c == '\r'
}

/// Splits `s` into words and classifies each; the terms come out last word
/// first, so that popping them yields the words from left to right.
fn make_stack<N, R: Fn(&str) -> Option<N>>(s: &str, read: &R) -> (r: Result<Vec<Term<N>>, ParseError>)
    requires
        reader_total(*read),
    ensures
        ({
            let ws = words(s@);
            match r {
                Ok(v) => v@.len() == ws.len() && forall|j: int|
                    0 <= j < v@.len() ==> term_for(*read, ws[v@.len() - 1 - j], #[trigger] v@[j]),
                Err(e) => exists|k: int|
                    0 <= k < ws.len() && refusal::<N, R>(*read, #[trigger] ws[k], e.kind) && forall|j: int|
                        0 <= j < k ==> accepted::<N, R>(*read, #[trigger] ws[j]),
            }
        }),
{
    let ghost ws = words(s@);
    let ghost mut emitted: Seq<Seq<char>> = seq![];
    let n = s.unicode_len();
    let mut terms: Vec<Term<N>> = Vec::new();
    let mut start: usize = 0;
    let mut i: usize = 0;
    assert(s@.skip(0) =~= s@);
    assert(s@.subrange(0, 0) =~= seq![]);
    while i < n
        invariant
            reader_total(*read),
            n == s@.len(),
            0 <= start <= i <= n,
            ws == words(s@),
            ws == emitted + split_words(s@.skip(i as int), s@.subrange(start as int, i as int)),
            terms@.len() == emitted.len(),
            forall|j: int| 0 <= j < terms@.len() ==> term_for(*read, emitted[j], #[trigger] terms@[j]),
        decreases n - i,
    {
        let c = s.get_char(i);
        let ghost rest = s@.skip(i as int);
        let ghost cur = s@.subrange(start as int, i as int);
        assert(rest[0] == c);
        assert(rest.skip(1) =~= s@.skip(i + 1));
        if is_space_char(c) {
            if start < i {
                let w = s.substring_char(start, i);
                match parse_term(w, read) {
                    Ok(t) => {
                        terms.push(t);
                    },
                    Err(e) => {
                        assert(ws == emitted + (seq![cur] + split_words(s@.skip(i + 1), seq![])));
                        assert(ws[emitted.len() as int] == cur);
                        assert forall|j: int| 0 <= j < emitted.len() implies accepted::<N, R>(*read, #[trigger] ws[j]) by {
                            assert(ws[j] == emitted[j]);
                            assert(term_for(*read, emitted[j], terms@[j]));
                        }
                        return Err(e);
                    },
                }
                proof {
                    assert(ws =~= emitted.push(cur) + split_words(s@.skip(i + 1), seq![]));
                    emitted = emitted.push(cur);
                }
            } else {
                assert(cur =~= seq![]);
                assert(close_word(cur) =~= seq![]);
                assert(ws =~= emitted + split_words(s@.skip(i + 1), seq![]));
            }
            start = i + 1;
            assert(s@.subrange(start as int, start as int) =~= seq![]);
        } else {
            assert(cur.push(c) =~= s@.subrange(start as int, i + 1));
        }
        i = i + 1;
    }
    assert(s@.skip(n as int) =~= seq![]);
    if start < n {
        let ghost cur = s@.subrange(start as int, n as int);
        let w = s.substring_char(start, n);
        match parse_term(w, read) {
            Ok(t) => {
                terms.push(t);
            },
            Err(e) => {
                assert(ws == emitted + seq![cur]);
                assert(ws[emitted.len() as int] == cur);
                assert forall|j: int| 0 <= j < emitted.len() implies accepted::<N, R>(*read, #[trigger] ws[j]) by {
                    assert(ws[j] == emitted[j]);
                    assert(term_for(*read, emitted[j], terms@[j]));
                }
                return Err(e);
            },
        }
        proof {
            emitted = emitted.push(cur);
        }
    } else {
        assert(s@.subrange(start as int, n as int) =~= seq![]);
    }
    assert(ws =~= emitted);
    let ghost forward = terms@;
    let mut out: Vec<Term<N>> = Vec::new();
    while terms.len() > 0
        invariant
            out@.len() + terms@.len() == forward.len(),
            terms@ == forward.take(terms@.len() as int),
            forall|j: int| 0 <= j < out@.len() ==> #[trigger] out@[j] == forward[forward.len() - 1 - j],
        decreases terms@.len(),
    {
        let t = terms.pop().unwrap();
        out.push(t);
        assert(terms@ =~= forward.take(terms@.len() as int));
    }
    Ok(out)
}

} // verus!
