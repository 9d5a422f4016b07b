//! The expression tree, its mathematical model and the precedence rules.

use vstd::prelude::*;

verus! {

/// The operator shared by the operands of a chain.
#[derive(Debug, PartialEq, Eq, Structural, Clone, Copy)]
pub enum Op {
    /// `a = b = c`
    Equality,
    /// `a + b - c`; subtraction is an operand with `inverse` set
    AddSub,
    /// `a * b / c`; division is an operand with `inverse` set
    MulDiv,
    /// `a ^ b ^ c`
    ExpRoot,
}

/// A non-negative decimal constant, held as its digits: `whole` without
/// leading zeros and `frac` (the digits after the point) without trailing
/// zeros, so that equal values have equal digits.
#[derive(Debug, Clone)]
pub struct Decimal {
    pub whole: Vec<u8>,
    pub frac: Vec<u8>,
}

#[derive(Debug)]
pub enum Expression {
    /// Negate the inner value
    Negative(Box<Expression>),
    /// Group of like operators
    SubNode(ExprNode),
    /// Literal value
    Literal(Decimal),
    /// Variable name
    Variable(String),
}

#[derive(Debug)]
pub struct SubExpression {
    /// Indicates subtract/divide instead of add/multiply
    pub inverse: bool,
    pub val: Expression,
}

/// A chained set of expressions with the same precedence (e.g. `a + b - c` or `a / b * c`)
#[derive(Debug)]
pub struct ExprNode {
    pub operation: Op,
    pub values: Vec<SubExpression>,
}

#[derive(Debug, Clone, PartialEq, Eq)]
pub enum ParseError {
    /// A token that cannot continue the grammar, described by its text
    Unexpected(String),
    /// A character that starts no token
    BadToken(String),
}

/// The mathematical model of an expression.
pub enum Tree {
    Neg(Box<Tree>),
    /// operator, the `inverse` flag of each operand, the operands
    Chain(Op, Seq<bool>, Seq<Tree>),
    /// digits before and after the decimal point
    Num(Seq<u8>, Seq<u8>),
    Var(Seq<char>),
}

/// The model of a parse failure: which kind, and the text it carries.
pub enum Failure {
    Unexpected(Seq<char>),
    BadToken(Seq<char>),
}

impl ParseError {
    pub open spec fn view(&self) -> Failure {
        match self {
            ParseError::Unexpected(s) => Failure::Unexpected(s@),
            ParseError::BadToken(s) => Failure::BadToken(s@),
        }
    }
}

pub open spec fn tree_of(e: Expression) -> Tree
    decreases e,
{
    match e {
        Expression::Negative(b) => Tree::Neg(Box::new(tree_of(*b))),
        Expression::SubNode(n) => Tree::Chain(
            n.operation,
            Seq::new(n.values.len() as nat, |i: int| n.values[i].inverse),
            Seq::new(
                n.values.len() as nat,
                |i: int|
                    if 0 <= i < n.values.len() {
                        tree_of(n.values[i].val)
                    } else {
                        Tree::Var(Seq::empty())
                    },
            ),
        ),
        Expression::Literal(d) => Tree::Num(d.whole@, d.frac@),
        Expression::Variable(s) => Tree::Var(s@),
    }
}

impl View for Expression {
    type V = Tree;

    open spec fn view(&self) -> Tree {
        tree_of(*self)
    }
}

/// The model of an operand list: its `inverse` flags.
pub open spec fn invs_of(v: Seq<SubExpression>) -> Seq<bool> {
    Seq::new(v.len(), |i: int| v[i].inverse)
}

/// The model of an operand list: its operands.
pub open spec fn trees_of(v: Seq<SubExpression>) -> Seq<Tree> {
    Seq::new(v.len(), |i: int| v[i].val@)
}

pub proof fn lemma_node_view(n: ExprNode)
    ensures
        Expression::SubNode(n)@ == Tree::Chain(n.operation, invs_of(n.values@), trees_of(n.values@)),
{
    let e = Expression::SubNode(n);
    if let Tree::Chain(op, a, b) = tree_of(e) {
        assert(a =~= invs_of(n.values@));
        assert(b =~= trees_of(n.values@));
    }
}

pub open spec fn is_digit_seq(d: Seq<u8>) -> bool {
    forall|i: int| 0 <= i < d.len() ==> d[i] < 10
}

/// Digits in canonical form: no leading zero before the point, no trailing
/// zero after it.
pub open spec fn num_wf(w: Seq<u8>, f: Seq<u8>) -> bool {
    &&& is_digit_seq(w)
    &&& is_digit_seq(f)
    &&& (w.len() > 0 ==> w[0] != 0)
    &&& (f.len() > 0 ==> f.last() != 0)
}

/// A chain has at least two operands, one flag per operand, and
/// `Equality` and `ExpRoot` have no inverse at all.
pub open spec fn chain_shape(op: Op, invs: Seq<bool>, ts: Seq<Tree>) -> bool {
    &&& ts.len() >= 2
    &&& invs.len() == ts.len()
    &&& (op == Op::Equality || op == Op::ExpRoot) ==> (forall|i: int|
        0 <= i < invs.len() ==> !invs[i])
}

/// Well-formedness of a whole tree.
pub open spec fn wf(t: Tree) -> bool
    decreases t,
{
    match t {
        Tree::Neg(b) => wf(*b),
        Tree::Chain(op, invs, ts) => chain_shape(op, invs, ts) && forall|i: int|
            0 <= i < ts.len() ==> wf(#[trigger] ts[i]),
        Tree::Num(w, f) => num_wf(w, f),
        Tree::Var(n) => n.len() > 0,
    }
}

/// Binding strength of an operator: `Equality < AddSub < MulDiv < ExpRoot`.
/// A unary minus (rank 3) binds between `MulDiv` and `ExpRoot`, as the
/// grammar reads it.
pub open spec fn op_rank(op: Op) -> int {
    match op {
        Op::Equality => 0,
        Op::AddSub => 1,
        Op::MulDiv => 2,
        Op::ExpRoot => 4,
    }
}

/// Binding strength of a tree: that of its operator, 3 for a negation, and
/// the atomic rank 5 for numbers and names.
pub open spec fn tree_rank(t: Tree) -> int {
    match t {
        Tree::Chain(op, _, _) => op_rank(op),
        Tree::Neg(_) => 3,
        _ => 5,
    }
}

/// An operand of `op` is parenthesized when it binds no tighter than `op`.
pub open spec fn parens_needed(t: Tree, op: Op) -> bool {
    tree_rank(t) <= op_rank(op)
}

/// The literal `1`.
pub open spec fn one() -> Tree {
    Tree::Num(seq![1u8], Seq::empty())
}

fn op_rank_exec(op: Op) -> (r: u8)
    ensures
        r == op_rank(op),
{
    match op {
        Op::Equality => 0,
        Op::AddSub => 1,
        Op::MulDiv => 2,
        Op::ExpRoot => 4,
    }
}

impl Decimal {
    /// The decimal `1`.
    pub fn one() -> (r: Decimal)
        ensures
            Expression::Literal(r)@ == one(),
    {
        let mut whole: Vec<u8> = Vec::new();
        whole.push(1);
        let r = Decimal { whole, frac: Vec::new() };
        assert(r.whole@ =~= seq![1u8]);
        assert(r.frac@ =~= Seq::<u8>::empty());
        r
    }

    pub fn deep_copy(&self) -> (r: Decimal)
        ensures
            r.whole@ == self.whole@,
            r.frac@ == self.frac@,
    {
        let whole = copy_digits(&self.whole);
        let frac = copy_digits(&self.frac);
        Decimal { whole, frac }
    }
}

fn copy_digits(v: &Vec<u8>) -> (r: Vec<u8>)
    ensures
        r@ == v@,
{
    let mut r: Vec<u8> = Vec::new();
    let mut i: usize = 0;
    while i < v.len()
        invariant
            i <= v.len(),
            r@ == v@.subrange(0, i as int),
        decreases v.len() - i,
    {
        r.push(v[i]);
        i = i + 1;
        assert(r@ =~= v@.subrange(0, i as int));
    }
    assert(r@ =~= v@);
    r
}

pub(crate) fn digits_eq(a: &Vec<u8>, b: &Vec<u8>) -> (r: bool)
    ensures
        r == (a@ == b@),
{
    if a.len() != b.len() {
        return false;
    }
    let mut i: usize = 0;
    while i < a.len()
        invariant
            a.len() == b.len(),
            i <= a.len(),
            a@.subrange(0, i as int) == b@.subrange(0, i as int),
        decreases a.len() - i,
    {
        if a[i] != b[i] {
            assert(a@[i as int] != b@[i as int]);
            return false;
        }
        assert(a@.subrange(0, i + 1) =~= a@.subrange(0, i as int).push(a@[i as int]));
        assert(b@.subrange(0, i + 1) =~= b@.subrange(0, i as int).push(b@[i as int]));
        i = i + 1;
    }
    assert(a@ =~= a@.subrange(0, i as int));
    assert(b@ =~= b@.subrange(0, i as int));
    true
}

impl Expression {
    /// Whether this expression, as an operand of `op`, must be put in
    /// parentheses.
    pub fn needs_parens(&self, op: Op) -> (r: bool)
        ensures
            r == parens_needed(self@, op),
    {
        let own: u8 = match self {
            Expression::SubNode(sn) => op_rank_exec(sn.operation),
            Expression::Negative(_) => 3,
            _ => 5,
        };
        own <= op_rank_exec(op)
    }

    /// A copy of this expression, equal to it in the model.
    pub fn deep_copy(&self) -> (r: Expression)
        ensures
            r@ == self@,
        decreases self,
    {
        match self {
            Expression::Negative(b) => Expression::Negative(Box::new((**b).deep_copy())),
            Expression::SubNode(n) => Expression::SubNode(n.deep_copy()),
            Expression::Literal(d) => Expression::Literal(d.deep_copy()),
            Expression::Variable(s) => Expression::Variable(s.clone()),
        }
    }

    /// Structural equality of the two trees.
    pub fn same_as(&self, other: &Expression) -> (r: bool)
        ensures
            r == (self@ == other@),
        decreases self,
    {
        match (self, other) {
            (Expression::Negative(a), Expression::Negative(b)) => {
                let r = (**a).same_as(&**b);
                r
            },
            (Expression::SubNode(a), Expression::SubNode(b)) => a.same_as(b),
            (Expression::Literal(a), Expression::Literal(b)) => {
                digits_eq(&a.whole, &b.whole) && digits_eq(&a.frac, &b.frac)
            },
            (Expression::Variable(a), Expression::Variable(b)) => *a == *b,
            _ => false,
        }
    }
}

impl ExprNode {
    pub fn deep_copy(&self) -> (r: ExprNode)
        ensures
            r.operation == self.operation,
            invs_of(r.values@) == invs_of(self.values@),
            trees_of(r.values@) == trees_of(self.values@),
            Expression::SubNode(r)@ == Expression::SubNode(*self)@,
        decreases self,
    {
        let mut values: Vec<SubExpression> = Vec::new();
        let mut i: usize = 0;
        while i < self.values.len()
            invariant
                i <= self.values.len(),
                values.len() == i,
                forall|k: int| 0 <= k < i ==> #[trigger] values@[k].inverse == self.values@[k].inverse,
                forall|k: int| 0 <= k < i ==> #[trigger] values@[k].val@ == self.values@[k].val@,
            decreases self.values.len() - i,
        {
            let v = self.values[i].val.deep_copy();
            values.push(SubExpression { inverse: self.values[i].inverse, val: v });
            i = i + 1;
        }
        let r = ExprNode { operation: self.operation, values };
        assert(invs_of(r.values@) =~= invs_of(self.values@));
        assert(trees_of(r.values@) =~= trees_of(self.values@));
        proof {
            lemma_node_view(r);
            lemma_node_view(*self);
        }
        r
    }

    pub fn same_as(&self, other: &ExprNode) -> (r: bool)
        ensures
            r == (Expression::SubNode(*self)@ == Expression::SubNode(*other)@),
        decreases self,
    {
        proof {
            lemma_node_view(*self);
            lemma_node_view(*other);
        }
        if self.operation != other.operation || self.values.len() != other.values.len() {
            assert(self.operation != other.operation || invs_of(self.values@).len() != invs_of(other.values@).len());
            return false;
        }
        let mut i: usize = 0;
        while i < self.values.len()
            invariant
                i <= self.values.len(),
                self.values.len() == other.values.len(),
                self.operation == other.operation,
                Expression::SubNode(*self)@ == Tree::Chain(self.operation, invs_of(self.values@), trees_of(self.values@)),
                Expression::SubNode(*other)@ == Tree::Chain(other.operation, invs_of(other.values@), trees_of(other.values@)),
                forall|k: int| 0 <= k < i ==> #[trigger] self.values@[k].inverse == other.values@[k].inverse,
                forall|k: int| 0 <= k < i ==> #[trigger] self.values@[k].val@ == other.values@[k].val@,
            decreases self.values.len() - i,
        {
            if self.values[i].inverse != other.values[i].inverse {
                assert(invs_of(self.values@)[i as int] != invs_of(other.values@)[i as int]);
                return false;
            }
            if !self.values[i].val.same_as(&other.values[i].val) {
                assert(trees_of(self.values@)[i as int] != trees_of(other.values@)[i as int]);
                return false;
            }
            i = i + 1;
        }
        assert(invs_of(self.values@) =~= invs_of(other.values@));
        assert(trees_of(self.values@) =~= trees_of(other.values@));
        true
    }
}

fn digits_wf(w: &Vec<u8>, f: &Vec<u8>) -> (r: bool)
    ensures
        r == num_wf(w@, f@),
{
    let mut i: usize = 0;
    while i < w.len()
        invariant
            i <= w.len(),
            forall|k: int| 0 <= k < i ==> w@[k] < 10,
        decreases w.len() - i,
    {
        if w[i] >= 10 {
            return false;
        }
        i = i + 1;
    }
    let mut j: usize = 0;
    while j < f.len()
        invariant
            j <= f.len(),
            is_digit_seq(w@),
            forall|k: int| 0 <= k < j ==> f@[k] < 10,
        decreases f.len() - j,
    {
        if f[j] >= 10 {
            return false;
        }
        j = j + 1;
    }
    (w.len() == 0 || w[0] != 0) && (f.len() == 0 || f[f.len() - 1] != 0)
}

impl Expression {
    /// Whether this expression is well formed (see `wf`): the shape that
    /// the editing functions expect.
    pub fn is_well_formed(&self) -> (r: bool)
        ensures
            r == wf(self@),
        decreases self,
    {
        match self {
            Expression::Negative(b) => (**b).is_well_formed(),
            Expression::SubNode(n) => {
                proof {
                    lemma_node_view(*n);
                }
                let len = n.values.len();
                if len < 2 {
                    return false;
                }
                let no_inverse = n.operation == Op::Equality || n.operation == Op::ExpRoot;
                let mut i: usize = 0;
                while i < len
                    invariant
                        *self == Expression::SubNode(*n),
                        self@ == Tree::Chain(n.operation, invs_of(n.values@), trees_of(n.values@)),
                        len == n.values.len(),
                        i <= len,
                        no_inverse == (n.operation == Op::Equality || n.operation == Op::ExpRoot),
                        forall|k: int| 0 <= k < i ==> wf(#[trigger] n.values@[k].val@),
                        no_inverse ==> forall|k: int| 0 <= k < i ==> !(#[trigger] n.values@[k].inverse),
                    decreases len - i,
                {
                    if no_inverse && n.values[i].inverse {
                        assert(invs_of(n.values@)[i as int]);
                        return false;
                    }
                    if !n.values[i].val.is_well_formed() {
                        assert(!wf(trees_of(n.values@)[i as int]));
                        return false;
                    }
                    i = i + 1;
                }
                assert forall|k: int| 0 <= k < len implies wf(#[trigger] trees_of(n.values@)[k]) by {
                    assert(trees_of(n.values@)[k] == n.values@[k].val@);
                }
                true
            },
            Expression::Literal(d) => digits_wf(&d.whole, &d.frac),
            Expression::Variable(s) => s.as_str().unicode_len() > 0,
        }
    }
}

impl Clone for Expression {
    fn clone(&self) -> Self {
        self.deep_copy()
    }
}

impl Clone for SubExpression {
    fn clone(&self) -> Self {
        SubExpression { inverse: self.inverse, val: self.val.deep_copy() }
    }
}

impl Clone for ExprNode {
    fn clone(&self) -> Self {
        self.deep_copy()
    }
}

} // verus!
