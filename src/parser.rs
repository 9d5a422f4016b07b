//! A recursive-descent parser with one level per precedence:
//! equality, then sums, products, unary minus, powers, and atoms.

use vstd::prelude::*;
use crate::expression::{
    ExprNode, Expression, Failure, Op, ParseError, SubExpression, Tree, invs_of, trees_of,
    lemma_node_view, wf,
};
use crate::lexer::{
    Lexed, Lexer, Tok, Token, accept, advance, cur_tok, describe, end_of_input_text, lex,
    lemma_lex_good, toks_good,
};
use crate::render::string_of;

verus! {

pub open spec fn all_false(n: nat) -> Seq<bool> {
    Seq::new(n, |i: int| false)
}

/// A chain of the operands, or the operand itself where there is one.
pub open spec fn chain_or_single(op: Op, invs: Seq<bool>, ts: Seq<Tree>) -> Tree {
    if ts.len() == 1 { ts[0] } else { Tree::Chain(op, invs, ts) }
}

pub open spec fn unexpected_at(l: Lexed, p: int) -> Failure {
    Failure::Unexpected(describe(cur_tok(l, p)))
}

/// An atom at `p`: a number, a name, or a sum in parentheses.
pub open spec fn p_atom(l: Lexed, p: int) -> Result<(Tree, int), Failure>
    decreases l.toks.len() - p, 0int,
{
    if p < 0 || p >= l.toks.len() {
        Err(unexpected_at(l, p))
    } else {
        match cur_tok(l, p) {
            Tok::Num(w, f) => match advance(l, p) {
                Ok(q) => Ok((Tree::Num(w, f), q)),
                Err(e) => Err(e),
            },
            Tok::Ident(n) => match advance(l, p) {
                Ok(q) => Ok((Tree::Var(n), q)),
                Err(e) => Err(e),
            },
            Tok::Open => match advance(l, p) {
                Err(e) => Err(e),
                Ok(q) => match p_addsub(l, q) {
                    Err(e) => Err(e),
                    Ok((t, q2)) => if cur_tok(l, q2) == Tok::Close {
                        match advance(l, q2) {
                            Ok(q3) => Ok((t, q3)),
                            Err(e) => Err(e),
                        }
                    } else {
                        Err(unexpected_at(l, q2))
                    },
                },
            },
            _ => Err(unexpected_at(l, p)),
        }
    }
}

/// More `^ atom` after the operands `acc`, from `p` on.
pub open spec fn p_exp_rest(l: Lexed, p: int, acc: Seq<Tree>) -> Result<(Tree, int), Failure>
    decreases l.toks.len() - p, 1int,
{
    if p < 0 || p > l.toks.len() {
        Err(unexpected_at(l, p))
    } else if cur_tok(l, p) == Tok::Op('^') {
        match advance(l, p) {
            Err(e) => Err(e),
            Ok(q) => match p_atom(l, q) {
                Err(e) => Err(e),
                Ok((t, q2)) => if p < q2 <= l.toks.len() {
                    p_exp_rest(l, q2, acc.push(t))
                } else {
                    Err(unexpected_at(l, q2))
                },
            },
        }
    } else {
        Ok((chain_or_single(Op::ExpRoot, all_false(acc.len()), acc), p))
    }
}

/// Atoms joined by `^`.
pub open spec fn p_exp(l: Lexed, p: int) -> Result<(Tree, int), Failure>
    decreases l.toks.len() - p, 2int,
{
    match p_atom(l, p) {
        Err(e) => Err(e),
        Ok((t, pm)) => if p <= pm <= l.toks.len() {
            p_exp_rest(l, pm, seq![t])
        } else {
            Err(unexpected_at(l, pm))
        },
    }
}

/// A power, after an optional `-`.
pub open spec fn p_unary(l: Lexed, p: int) -> Result<(Tree, int), Failure>
    decreases l.toks.len() - p, 3int,
{
    if p < 0 || p > l.toks.len() {
        Err(unexpected_at(l, p))
    } else if cur_tok(l, p) == Tok::Op('-') {
        match advance(l, p) {
            Err(e) => Err(e),
            Ok(q) => match p_exp(l, q) {
                Err(e) => Err(e),
                Ok((t, q2)) => Ok((Tree::Neg(Box::new(t)), q2)),
            },
        }
    } else {
        p_exp(l, p)
    }
}

/// More `* unary` or `/ unary` after the operands `acc`, from `p` on.
pub open spec fn p_muldiv_rest(l: Lexed, p: int, invs: Seq<bool>, acc: Seq<Tree>) -> Result<
    (Tree, int),
    Failure,
>
    decreases l.toks.len() - p, 4int,
{
    if p < 0 || p > l.toks.len() {
        Err(unexpected_at(l, p))
    } else if cur_tok(l, p) == Tok::Op('/') || cur_tok(l, p) == Tok::Op('*') {
        let inv = cur_tok(l, p) == Tok::Op('/');
        match advance(l, p) {
            Err(e) => Err(e),
            Ok(q) => match p_unary(l, q) {
                Err(e) => Err(e),
                Ok((t, q2)) => if p < q2 <= l.toks.len() {
                    p_muldiv_rest(l, q2, invs.push(inv), acc.push(t))
                } else {
                    Err(unexpected_at(l, q2))
                },
            },
        }
    } else {
        Ok((chain_or_single(Op::MulDiv, invs, acc), p))
    }
}

/// Unary terms joined by `*` and `/`.
pub open spec fn p_muldiv(l: Lexed, p: int) -> Result<(Tree, int), Failure>
    decreases l.toks.len() - p, 5int,
{
    match p_unary(l, p) {
        Err(e) => Err(e),
        Ok((t, pm)) => if p <= pm <= l.toks.len() {
            p_muldiv_rest(l, pm, seq![false], seq![t])
        } else {
            Err(unexpected_at(l, pm))
        },
    }
}

/// More `+ product` or `- product` after the operands `acc`, from `p` on.
pub open spec fn p_addsub_rest(l: Lexed, p: int, invs: Seq<bool>, acc: Seq<Tree>) -> Result<
    (Tree, int),
    Failure,
>
    decreases l.toks.len() - p, 6int,
{
    if p < 0 || p > l.toks.len() {
        Err(unexpected_at(l, p))
    } else if cur_tok(l, p) == Tok::Op('-') || cur_tok(l, p) == Tok::Op('+') {
        let inv = cur_tok(l, p) == Tok::Op('-');
        match advance(l, p) {
            Err(e) => Err(e),
            Ok(q) => match p_muldiv(l, q) {
                Err(e) => Err(e),
                Ok((t, q2)) => if p < q2 <= l.toks.len() {
                    p_addsub_rest(l, q2, invs.push(inv), acc.push(t))
                } else {
                    Err(unexpected_at(l, q2))
                },
            },
        }
    } else {
        Ok((chain_or_single(Op::AddSub, invs, acc), p))
    }
}

/// Products joined by `+` and `-`.
pub open spec fn p_addsub(l: Lexed, p: int) -> Result<(Tree, int), Failure>
    decreases l.toks.len() - p, 7int,
{
    match p_muldiv(l, p) {
        Err(e) => Err(e),
        Ok((t, pm)) => if p <= pm <= l.toks.len() {
            p_addsub_rest(l, pm, seq![false], seq![t])
        } else {
            Err(unexpected_at(l, pm))
        },
    }
}

/// More `= sum` after the operands `acc`, from `p` on.
pub open spec fn p_eq_rest(l: Lexed, p: int, acc: Seq<Tree>) -> Result<(Tree, int), Failure>
    decreases l.toks.len() - p, 8int,
{
    if p < 0 || p > l.toks.len() {
        Err(unexpected_at(l, p))
    } else if cur_tok(l, p) == Tok::Op('=') {
        match advance(l, p) {
            Err(e) => Err(e),
            Ok(q) => match p_addsub(l, q) {
                Err(e) => Err(e),
                Ok((t, q2)) => if p < q2 <= l.toks.len() {
                    p_eq_rest(l, q2, acc.push(t))
                } else {
                    Err(unexpected_at(l, q2))
                },
            },
        }
    } else {
        Ok((Tree::Chain(Op::Equality, all_false(acc.len()), acc), p))
    }
}

/// A sum, or sums joined by `=`.
pub open spec fn p_equality(l: Lexed, p: int) -> Result<(Tree, int), Failure>
    decreases l.toks.len() - p, 9int,
{
    match p_addsub(l, p) {
        Err(e) => Err(e),
        Ok((t, pm)) => if cur_tok(l, pm) == Tok::Op('=') {
            if p <= pm <= l.toks.len() {
                p_eq_rest(l, pm, seq![t])
            } else {
                Err(unexpected_at(l, pm))
            }
        } else {
            Ok((t, pm))
        },
    }
}

/// The tree that a token stream denotes: one equality-level expression
/// followed by the end of input.
pub open spec fn parse_tokens(l: Lexed) -> Result<Tree, Failure> {
    if l.toks.len() == 0 && l.bad is Some {
        Err(Failure::BadToken(seq![l.bad->0]))
    } else {
        match p_equality(l, 0) {
            Err(e) => Err(e),
            Ok((t, p)) => if p == l.toks.len() {
                Ok(t)
            } else {
                Err(unexpected_at(l, p))
            },
        }
    }
}

/// The tree that a text denotes.
pub open spec fn parse_text(s: Seq<char>) -> Result<Tree, Failure> {
    parse_tokens(Lexed { toks: lex(s).0, bad: lex(s).1 })
}

/// The model of a parse result.
pub open spec fn outcome(r: Result<Expression, ParseError>, pos: int) -> Result<(Tree, int), Failure> {
    match r {
        Ok(e) => Ok((e@, pos)),
        Err(x) => Err(x@),
    }
}

/// The description of the current token, as error text.
fn describe_exec(lx: &Lexer) -> (r: ParseError)
    requires
        lx.wf(),
    ensures
        r@ == Failure::Unexpected(describe(cur_tok(lx.lexed(), lx.pos as int))),
{
    let t = lx.cur();
    let mut text: Vec<char> = Vec::new();
    match t {
        Token::Eof => {
            let words = "end of input";
            proof {
                reveal_strlit("end of input");
            }
            let cs = crate::lexer::chars_of(words);
            assert(cs@ =~= end_of_input_text());
            return ParseError::Unexpected(string_of(&cs));
        },
        Token::Ident(n) => {
            return ParseError::Unexpected(string_of(n));
        },
        Token::Literal(d) => {
            let e = Expression::Literal(d.deep_copy());
            let s = e.render();
            return ParseError::Unexpected(s);
        },
        Token::Op(c) => {
            text.push(*c);
            assert(text@ =~= seq![*c]);
        },
        Token::ParenOpen => {
            text.push('(');
            assert(text@ =~= seq!['(']);
        },
        Token::ParenClose => {
            text.push(')');
            assert(text@ =~= seq![')']);
        },
    }
    ParseError::Unexpected(string_of(&text))
}

/// A successful result is a well-formed tree.
pub open spec fn res_wf(r: Result<(Tree, int), Failure>) -> bool {
    r is Ok ==> wf(r->Ok_0.0)
}

pub open spec fn all_wf(acc: Seq<Tree>) -> bool {
    forall|i: int| 0 <= i < acc.len() ==> wf(#[trigger] acc[i])
}

proof fn lemma_push_wf(acc: Seq<Tree>, t: Tree)
    requires
        all_wf(acc),
        wf(t),
    ensures
        all_wf(acc.push(t)),
{
    assert forall|i: int| 0 <= i < acc.push(t).len() implies wf(#[trigger] acc.push(t)[i]) by {
        if i < acc.len() {
            assert(acc.push(t)[i] == acc[i]);
        }
    }
}

proof fn lemma_chain_wf(op: Op, invs: Seq<bool>, acc: Seq<Tree>)
    requires
        acc.len() >= 1,
        invs.len() == acc.len(),
        !invs[0],
        (op == Op::Equality || op == Op::ExpRoot) ==> invs == all_false(acc.len()),
        all_wf(acc),
    ensures
        wf(chain_or_single(op, invs, acc)),
        acc.len() >= 2 ==> wf(Tree::Chain(op, invs, acc)),
{
    if acc.len() == 1 {
        assert(wf(acc[0]));
    }
}

proof fn lemma_atom_wf(l: Lexed, p: int)
    requires
        toks_good(l.toks),
    ensures
        res_wf(p_atom(l, p)),
    decreases l.toks.len() - p, 0int,
{
    if 0 <= p < l.toks.len() {
        assert(crate::lexer::tok_good(l.toks[p]));
        if cur_tok(l, p) == Tok::Open {
            if let Ok(q) = advance(l, p) {
                lemma_addsub_wf(l, q);
            }
        }
    }
}

proof fn lemma_exp_rest_wf(l: Lexed, p: int, acc: Seq<Tree>)
    requires
        toks_good(l.toks),
        acc.len() >= 1,
        all_wf(acc),
    ensures
        res_wf(p_exp_rest(l, p, acc)),
    decreases l.toks.len() - p, 1int,
{
    if 0 <= p <= l.toks.len() {
        if cur_tok(l, p) == Tok::Op('^') {
            if let Ok(q) = advance(l, p) {
                lemma_atom_wf(l, q);
                if let Ok((t, q2)) = p_atom(l, q) {
                    if p < q2 <= l.toks.len() {
                        lemma_push_wf(acc, t);
                        lemma_exp_rest_wf(l, q2, acc.push(t));
                    }
                }
            }
        } else {
            lemma_chain_wf(Op::ExpRoot, all_false(acc.len()), acc);
        }
    }
}

proof fn lemma_exp_wf(l: Lexed, p: int)
    requires
        toks_good(l.toks),
    ensures
        res_wf(p_exp(l, p)),
    decreases l.toks.len() - p, 2int,
{
    lemma_atom_wf(l, p);
    if let Ok((t, pm)) = p_atom(l, p) {
        if p <= pm <= l.toks.len() {
            lemma_push_wf(Seq::empty(), t);
            assert(Seq::<Tree>::empty().push(t) =~= seq![t]);
            lemma_exp_rest_wf(l, pm, seq![t]);
        }
    }
}

proof fn lemma_unary_wf(l: Lexed, p: int)
    requires
        toks_good(l.toks),
    ensures
        res_wf(p_unary(l, p)),
    decreases l.toks.len() - p, 3int,
{
    if 0 <= p <= l.toks.len() {
        if cur_tok(l, p) == Tok::Op('-') {
            if let Ok(q) = advance(l, p) {
                lemma_exp_wf(l, q);
            }
        } else {
            lemma_exp_wf(l, p);
        }
    }
}

proof fn lemma_muldiv_rest_wf(l: Lexed, p: int, invs: Seq<bool>, acc: Seq<Tree>)
    requires
        toks_good(l.toks),
        acc.len() >= 1,
        invs.len() == acc.len(),
        !invs[0],
        all_wf(acc),
    ensures
        res_wf(p_muldiv_rest(l, p, invs, acc)),
    decreases l.toks.len() - p, 4int,
{
    if 0 <= p <= l.toks.len() {
        if cur_tok(l, p) == Tok::Op('/') || cur_tok(l, p) == Tok::Op('*') {
            let inv = cur_tok(l, p) == Tok::Op('/');
            if let Ok(q) = advance(l, p) {
                lemma_unary_wf(l, q);
                if let Ok((t, q2)) = p_unary(l, q) {
                    if p < q2 <= l.toks.len() {
                        lemma_push_wf(acc, t);
                        assert(invs.push(inv)[0] == invs[0]);
                        lemma_muldiv_rest_wf(l, q2, invs.push(inv), acc.push(t));
                    }
                }
            }
        } else {
            lemma_chain_wf(Op::MulDiv, invs, acc);
        }
    }
}

proof fn lemma_muldiv_wf(l: Lexed, p: int)
    requires
        toks_good(l.toks),
    ensures
        res_wf(p_muldiv(l, p)),
    decreases l.toks.len() - p, 5int,
{
    lemma_unary_wf(l, p);
    if let Ok((t, pm)) = p_unary(l, p) {
        if p <= pm <= l.toks.len() {
            lemma_push_wf(Seq::empty(), t);
            assert(Seq::<Tree>::empty().push(t) =~= seq![t]);
            lemma_muldiv_rest_wf(l, pm, seq![false], seq![t]);
        }
    }
}

proof fn lemma_addsub_rest_wf(l: Lexed, p: int, invs: Seq<bool>, acc: Seq<Tree>)
    requires
        toks_good(l.toks),
        acc.len() >= 1,
        invs.len() == acc.len(),
        !invs[0],
        all_wf(acc),
    ensures
        res_wf(p_addsub_rest(l, p, invs, acc)),
    decreases l.toks.len() - p, 6int,
{
    if 0 <= p <= l.toks.len() {
        if cur_tok(l, p) == Tok::Op('-') || cur_tok(l, p) == Tok::Op('+') {
            let inv = cur_tok(l, p) == Tok::Op('-');
            if let Ok(q) = advance(l, p) {
                lemma_muldiv_wf(l, q);
                if let Ok((t, q2)) = p_muldiv(l, q) {
                    if p < q2 <= l.toks.len() {
                        lemma_push_wf(acc, t);
                        assert(invs.push(inv)[0] == invs[0]);
                        lemma_addsub_rest_wf(l, q2, invs.push(inv), acc.push(t));
                    }
                }
            }
        } else {
            lemma_chain_wf(Op::AddSub, invs, acc);
        }
    }
}

proof fn lemma_addsub_wf(l: Lexed, p: int)
    requires
        toks_good(l.toks),
    ensures
        res_wf(p_addsub(l, p)),
    decreases l.toks.len() - p, 7int,
{
    lemma_muldiv_wf(l, p);
    if let Ok((t, pm)) = p_muldiv(l, p) {
        if p <= pm <= l.toks.len() {
            lemma_push_wf(Seq::empty(), t);
            assert(Seq::<Tree>::empty().push(t) =~= seq![t]);
            lemma_addsub_rest_wf(l, pm, seq![false], seq![t]);
        }
    }
}

proof fn lemma_eq_rest_wf(l: Lexed, p: int, acc: Seq<Tree>)
    requires
        toks_good(l.toks),
        acc.len() >= 1,
        acc.len() == 1 ==> cur_tok(l, p) == Tok::Op('='),
        all_wf(acc),
    ensures
        res_wf(p_eq_rest(l, p, acc)),
    decreases l.toks.len() - p, 8int,
{
    if 0 <= p <= l.toks.len() {
        if cur_tok(l, p) == Tok::Op('=') {
            if let Ok(q) = advance(l, p) {
                lemma_addsub_wf(l, q);
                if let Ok((t, q2)) = p_addsub(l, q) {
                    if p < q2 <= l.toks.len() {
                        lemma_push_wf(acc, t);
                        lemma_eq_rest_wf(l, q2, acc.push(t));
                    }
                }
            }
        } else {
            lemma_chain_wf(Op::Equality, all_false(acc.len()), acc);
        }
    }
}

proof fn lemma_equality_wf(l: Lexed, p: int)
    requires
        toks_good(l.toks),
    ensures
        res_wf(p_equality(l, p)),
    decreases l.toks.len() - p, 9int,
{
    lemma_addsub_wf(l, p);
    if let Ok((t, pm)) = p_addsub(l, p) {
        if cur_tok(l, pm) == Tok::Op('=') && p <= pm <= l.toks.len() {
            lemma_push_wf(Seq::empty(), t);
            assert(Seq::<Tree>::empty().push(t) =~= seq![t]);
            lemma_eq_rest_wf(l, pm, seq![t]);
        }
    }
}

/// Every tree that the parser returns is well formed.
pub proof fn lemma_parse_wf(s: Seq<char>)
    ensures
        parse_text(s) is Ok ==> wf(parse_text(s)->Ok_0),
{
    lemma_lex_good(s, 0);
    lemma_equality_wf(Lexed { toks: lex(s).0, bad: lex(s).1 }, 0);
}

/// A chain of the operands, or the operand itself where there is one.
fn build_chain(op: Op, values: Vec<SubExpression>) -> (r: Expression)
    requires
        values.len() >= 1,
    ensures
        r@ == chain_or_single(op, invs_of(values@), trees_of(values@)),
{
    if values.len() == 1 {
        let mut values = values;
        let v = values.pop().unwrap();
        v.val
    } else {
        let n = ExprNode { operation: op, values };
        proof {
            lemma_node_view(n);
        }
        Expression::SubNode(n)
    }
}

proof fn lemma_push_operand(values: Seq<SubExpression>, s: SubExpression)
    ensures
        invs_of(values.push(s)) == invs_of(values).push(s.inverse),
        trees_of(values.push(s)) == trees_of(values).push(s.val@),
{
    assert(invs_of(values.push(s)) =~= invs_of(values).push(s.inverse));
    assert(trees_of(values.push(s)) =~= trees_of(values).push(s.val@));
}

proof fn lemma_one_operand(s: SubExpression)
    ensures
        invs_of(seq![s]) == seq![s.inverse],
        trees_of(seq![s]) == seq![s.val@],
{
    assert(invs_of(seq![s]) =~= seq![s.inverse]);
    assert(trees_of(seq![s]) =~= seq![s.val@]);
}

fn parse_atom(lx: &mut Lexer) -> (r: Result<Expression, ParseError>)
    requires
        old(lx).wf(),
    ensures
        final(lx).wf(),
        final(lx).same_stream(*old(lx)),
        outcome(r, final(lx).pos as int) == p_atom(old(lx).lexed(), old(lx).pos as int),
        r is Ok ==> old(lx).pos < final(lx).pos,
    decreases old(lx).toks@.len() - old(lx).pos, 0int,
{
    if lx.pos >= lx.toks.len() {
        return Err(describe_exec(lx));
    }
    let mut leaf: Option<Expression> = None;
    let mut open = false;
    match lx.cur() {
        Token::Literal(d) => {
            leaf = Some(Expression::Literal(d.deep_copy()));
        },
        Token::Ident(n) => {
            leaf = Some(Expression::Variable(string_of(n)));
        },
        Token::ParenOpen => {
            open = true;
        },
        _ => {},
    }
    if let Some(e) = leaf {
        match lx.consume() {
            Ok(_) => return Ok(e),
            Err(x) => return Err(x),
        }
    }
    if !open {
        return Err(describe_exec(lx));
    }
    match lx.consume() {
        Ok(_) => {},
        Err(x) => return Err(x),
    }
    let inner = match parse_addsub(lx) {
        Ok(e) => e,
        Err(x) => return Err(x),
    };
    if lx.pos < lx.toks.len() && matches!(lx.toks[lx.pos], Token::ParenClose) {
        match lx.consume() {
            Ok(_) => Ok(inner),
            Err(x) => Err(x),
        }
    } else {
        Err(describe_exec(lx))
    }
}

fn parse_exp(lx: &mut Lexer) -> (r: Result<Expression, ParseError>)
    requires
        old(lx).wf(),
    ensures
        final(lx).wf(),
        final(lx).same_stream(*old(lx)),
        outcome(r, final(lx).pos as int) == p_exp(old(lx).lexed(), old(lx).pos as int),
        r is Ok ==> old(lx).pos < final(lx).pos,
    decreases old(lx).toks@.len() - old(lx).pos, 2int,
{
    let ghost l = lx.lexed();
    let ghost p0 = lx.pos as int;
    let first = match parse_atom(lx) {
        Ok(e) => e,
        Err(x) => return Err(x),
    };
    let mut values: Vec<SubExpression> = Vec::new();
    let s0 = SubExpression { inverse: false, val: first };
    proof {
        lemma_one_operand(s0);
        assert(all_false(1) =~= seq![false]);
    }
    values.push(s0);
    assert(values@ =~= seq![s0]);
    loop
        invariant
            lx.wf(),
            lx.lexed() == l,
            lx.same_stream(*old(lx)),
            l == old(lx).lexed(),
            p0 == old(lx).pos,
            p0 < lx.pos <= lx.toks.len(),
            values.len() >= 1,
            invs_of(values@) == all_false(values.len() as nat),
            p_exp_rest(l, lx.pos as int, trees_of(values@)) == p_exp(l, p0),
        decreases lx.toks.len() - lx.pos,
    {
        let hat = match lx.consume_if(&Token::Op('^')) {
            Ok(b) => b,
            Err(x) => return Err(x),
        };
        if !hat {
            return Ok(build_chain(Op::ExpRoot, values));
        }
        let v = match parse_atom(lx) {
            Ok(e) => e,
            Err(x) => return Err(x),
        };
        let s = SubExpression { inverse: false, val: v };
        proof {
            lemma_push_operand(values@, s);
            assert(all_false(values.len() as nat).push(false) =~= all_false((values.len() + 1) as nat));
        }
        values.push(s);
    }
}

fn parse_unary(lx: &mut Lexer) -> (r: Result<Expression, ParseError>)
    requires
        old(lx).wf(),
    ensures
        final(lx).wf(),
        final(lx).same_stream(*old(lx)),
        outcome(r, final(lx).pos as int) == p_unary(old(lx).lexed(), old(lx).pos as int),
        r is Ok ==> old(lx).pos < final(lx).pos,
    decreases old(lx).toks@.len() - old(lx).pos, 3int,
{
    let minus = match lx.consume_if(&Token::Op('-')) {
        Ok(b) => b,
        Err(x) => return Err(x),
    };
    if minus {
        match parse_exp(lx) {
            Ok(v) => Ok(Expression::Negative(Box::new(v))),
            Err(x) => Err(x),
        }
    } else {
        parse_exp(lx)
    }
}

fn parse_muldiv(lx: &mut Lexer) -> (r: Result<Expression, ParseError>)
    requires
        old(lx).wf(),
    ensures
        final(lx).wf(),
        final(lx).same_stream(*old(lx)),
        outcome(r, final(lx).pos as int) == p_muldiv(old(lx).lexed(), old(lx).pos as int),
        r is Ok ==> old(lx).pos < final(lx).pos,
    decreases old(lx).toks@.len() - old(lx).pos, 5int,
{
    let ghost l = lx.lexed();
    let ghost p0 = lx.pos as int;
    let first = match parse_unary(lx) {
        Ok(e) => e,
        Err(x) => return Err(x),
    };
    let mut values: Vec<SubExpression> = Vec::new();
    let s0 = SubExpression { inverse: false, val: first };
    proof {
        lemma_one_operand(s0);
    }
    values.push(s0);
    assert(values@ =~= seq![s0]);
    loop
        invariant
            lx.wf(),
            lx.lexed() == l,
            lx.same_stream(*old(lx)),
            l == old(lx).lexed(),
            p0 == old(lx).pos,
            p0 < lx.pos <= lx.toks.len(),
            values.len() >= 1,
            p_muldiv_rest(l, lx.pos as int, invs_of(values@), trees_of(values@)) == p_muldiv(l, p0),
        decreases lx.toks.len() - lx.pos,
    {
        let div = match lx.consume_if(&Token::Op('/')) {
            Ok(b) => b,
            Err(x) => return Err(x),
        };
        let inv = if div {
            true
        } else {
            let mul = match lx.consume_if(&Token::Op('*')) {
                Ok(b) => b,
                Err(x) => return Err(x),
            };
            if !mul {
                return Ok(build_chain(Op::MulDiv, values));
            }
            false
        };
        let v = match parse_unary(lx) {
            Ok(e) => e,
            Err(x) => return Err(x),
        };
        let s = SubExpression { inverse: inv, val: v };
        proof {
            lemma_push_operand(values@, s);
        }
        values.push(s);
    }
}

fn parse_addsub(lx: &mut Lexer) -> (r: Result<Expression, ParseError>)
    requires
        old(lx).wf(),
    ensures
        final(lx).wf(),
        final(lx).same_stream(*old(lx)),
        outcome(r, final(lx).pos as int) == p_addsub(old(lx).lexed(), old(lx).pos as int),
        r is Ok ==> old(lx).pos < final(lx).pos,
    decreases old(lx).toks@.len() - old(lx).pos, 7int,
{
    let ghost l = lx.lexed();
    let ghost p0 = lx.pos as int;
    let first = match parse_muldiv(lx) {
        Ok(e) => e,
        Err(x) => return Err(x),
    };
    let mut values: Vec<SubExpression> = Vec::new();
    let s0 = SubExpression { inverse: false, val: first };
    proof {
        lemma_one_operand(s0);
    }
    values.push(s0);
    assert(values@ =~= seq![s0]);
    loop
        invariant
            lx.wf(),
            lx.lexed() == l,
            lx.same_stream(*old(lx)),
            l == old(lx).lexed(),
            p0 == old(lx).pos,
            p0 < lx.pos <= lx.toks.len(),
            values.len() >= 1,
            p_addsub_rest(l, lx.pos as int, invs_of(values@), trees_of(values@)) == p_addsub(l, p0),
        decreases lx.toks.len() - lx.pos,
    {
        let minus = match lx.consume_if(&Token::Op('-')) {
            Ok(b) => b,
            Err(x) => return Err(x),
        };
        let inv = if minus {
            true
        } else {
            let plus = match lx.consume_if(&Token::Op('+')) {
                Ok(b) => b,
                Err(x) => return Err(x),
            };
            if !plus {
                return Ok(build_chain(Op::AddSub, values));
            }
            false
        };
        let v = match parse_muldiv(lx) {
            Ok(e) => e,
            Err(x) => return Err(x),
        };
        let s = SubExpression { inverse: inv, val: v };
        proof {
            lemma_push_operand(values@, s);
        }
        values.push(s);
    }
}

fn parse_equality(lx: &mut Lexer) -> (r: Result<Expression, ParseError>)
    requires
        old(lx).wf(),
    ensures
        final(lx).wf(),
        final(lx).same_stream(*old(lx)),
        outcome(r, final(lx).pos as int) == p_equality(old(lx).lexed(), old(lx).pos as int),
        r is Ok ==> old(lx).pos < final(lx).pos,
    decreases old(lx).toks@.len() - old(lx).pos, 9int,
{
    let ghost l = lx.lexed();
    let ghost p0 = lx.pos as int;
    let first = match parse_addsub(lx) {
        Ok(e) => e,
        Err(x) => return Err(x),
    };
    if !(lx.pos < lx.toks.len() && matches!(lx.toks[lx.pos], Token::Op('='))) {
        return Ok(first);
    }
    let mut values: Vec<SubExpression> = Vec::new();
    let s0 = SubExpression { inverse: false, val: first };
    proof {
        lemma_one_operand(s0);
        assert(all_false(1) =~= seq![false]);
    }
    values.push(s0);
    assert(values@ =~= seq![s0]);
    loop
        invariant
            lx.wf(),
            lx.lexed() == l,
            lx.same_stream(*old(lx)),
            l == old(lx).lexed(),
            p0 == old(lx).pos,
            p0 < lx.pos <= lx.toks.len(),
            values.len() >= 1,
            values.len() == 1 ==> cur_tok(l, lx.pos as int) == Tok::Op('='),
            invs_of(values@) == all_false(values.len() as nat),
            p_eq_rest(l, lx.pos as int, trees_of(values@)) == p_equality(l, p0),
        decreases lx.toks.len() - lx.pos,
    {
        let eq = match lx.consume_if(&Token::Op('=')) {
            Ok(b) => b,
            Err(x) => return Err(x),
        };
        if !eq {
            let n = ExprNode { operation: Op::Equality, values };
            proof {
                lemma_node_view(n);
            }
            return Ok(Expression::SubNode(n));
        }
        let v = match parse_addsub(lx) {
            Ok(e) => e,
            Err(x) => return Err(x),
        };
        let s = SubExpression { inverse: false, val: v };
        proof {
            lemma_push_operand(values@, s);
            assert(all_false(values.len() as nat).push(false) =~= all_false((values.len() + 1) as nat));
        }
        values.push(s);
    }
}

/// Parses `text` into an expression: one equality-level expression and then
/// the end of the input.
pub fn parse_expression(text: &str) -> (r: Result<Expression, ParseError>)
    ensures
        match r {
            Ok(e) => parse_text(text@) == Ok::<Tree, Failure>(e@) && wf(e@),
            Err(x) => parse_text(text@) == Err::<Tree, Failure>(x@),
        },
{
    proof {
        lemma_parse_wf(text@);
    }
    let mut lx = match Lexer::new(text) {
        Ok(l) => l,
        Err(x) => return Err(x),
    };
    let ghost l = lx.lexed();
    assert(l == Lexed { toks: lex(text@).0, bad: lex(text@).1 });
    let e = match parse_equality(&mut lx) {
        Ok(e) => e,
        Err(x) => return Err(x),
    };
    if lx.pos == lx.toks.len() {
        Ok(e)
    } else {
        Err(describe_exec(&lx))
    }
}

impl std::str::FromStr for Expression {
    type Err = ParseError;

    fn from_str(s: &str) -> Result<Expression, ParseError> {
        parse_expression(s)
    }
}

} // verus!
