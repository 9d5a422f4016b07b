//! Reading back what the renderer writes, at the level of tokens: the
//! parser applied to the tokens of a rendered tree returns that tree.

use vstd::prelude::*;
use vstd::seq_lib::lemma_flatten_concat;
use crate::expression::{Op, Tree, chain_shape, parens_needed, wf};
use crate::expression::num_wf;
use crate::lexer::{
    Lexed, Tok, advance, cur_tok, digit_val, first_nonzero, is_alpha, is_digit, is_ident_tail,
    is_name, is_op_char, is_ws, lex, lex_from, lemma_lex_good, lemma_lex_shift,
    lemma_scan_digits_exact, lemma_scan_ident_exact, number_at, scan_digits, tok_good, toks_good,
    trailing_end,
};
use crate::parser::{
    all_false, chain_or_single, p_addsub, p_addsub_rest, p_atom, p_eq_rest, p_equality, p_exp,
    p_exp_rest, p_muldiv, p_muldiv_rest, p_unary, parse_tokens, parse_text, lemma_parse_wf,
};
use crate::render::{digit_char, digits_text, is_atom, num_text, op_char, paren_wrap, pieces, render, wrapped};

verus! {

/// The tokens of a tree as the renderer writes it.
pub open spec fn tok_render(t: Tree) -> Seq<Tok>
    decreases t, 0int,
{
    match t {
        Tree::Neg(b) => seq![Tok::Op('-')] + tok_wrap(*b, !is_atom(*b)),
        Tree::Chain(op, invs, ts) => tok_pieces(op, invs, ts).flatten(),
        Tree::Num(w, f) => seq![Tok::Num(w, f)],
        Tree::Var(n) => seq![Tok::Ident(n)],
    }
}

/// The tokens of `t`, in parentheses where `parens` holds.
pub open spec fn tok_wrap(t: Tree, parens: bool) -> Seq<Tok>
    decreases t, 1int,
{
    if parens {
        seq![Tok::Open] + tok_render(t) + seq![Tok::Close]
    } else {
        tok_render(t)
    }
}

pub open spec fn tok_sep(op: Op, invs: Seq<bool>, i: int) -> Seq<Tok> {
    if i == 0 { Seq::empty() } else { seq![Tok::Op(op_char(op, invs[i]))] }
}

/// The tokens of a chain, operand by operand, each with its operator.
pub open spec fn tok_pieces(op: Op, invs: Seq<bool>, ts: Seq<Tree>) -> Seq<Seq<Tok>>
    decreases ts, 2int,
{
    Seq::new(
        ts.len(),
        |i: int|
            if 0 <= i < ts.len() {
                tok_sep(op, invs, i) + tok_wrap(ts[i], parens_needed(ts[i], op))
            } else {
                Seq::empty()
            },
    )
}

/// The trees that read back as themselves: well-shaped chains whose first
/// operand carries no flag (it is never written), and an equality only at
/// the top.
pub open spec fn rt(t: Tree, top: bool) -> bool
    decreases t,
{
    match t {
        Tree::Neg(b) => rt(*b, false),
        Tree::Chain(op, invs, ts) => {
            &&& chain_shape(op, invs, ts)
            &&& !invs[0]
            &&& (op == Op::Equality ==> top)
            &&& forall|i: int| 0 <= i < ts.len() ==> rt(#[trigger] ts[i], false)
        },
        _ => true,
    }
}

pub open spec fn at(l: Lexed, p: int, x: Seq<Tok>) -> bool {
    &&& 0 <= p
    &&& p + x.len() <= l.toks.len()
    &&& l.toks.subrange(p, p + x.len()) == x
}

pub open spec fn stop_exp(t: Tok) -> bool {
    t != Tok::Op('^')
}

pub open spec fn stop_mul(t: Tok) -> bool {
    stop_exp(t) && t != Tok::Op('*') && t != Tok::Op('/')
}

pub open spec fn stop_add(t: Tok) -> bool {
    stop_mul(t) && t != Tok::Op('+') && t != Tok::Op('-')
}

pub open spec fn is_chain_of(t: Tree, op: Op) -> bool {
    match t {
        Tree::Chain(o, _, _) => o == op,
        _ => false,
    }
}

/// Where the tokens of operand `k` (with its operator) start.
pub open spec fn tok_offset(op: Op, invs: Seq<bool>, ts: Seq<Tree>, k: int) -> int {
    tok_pieces(op, invs, ts).take(k).flatten().len() as int
}

proof fn lemma_at_split(l: Lexed, p: int, a: Seq<Tok>, b: Seq<Tok>)
    requires
        at(l, p, a + b),
    ensures
        at(l, p, a),
        at(l, p + a.len(), b),
{
    let big = l.toks.subrange(p, p + a.len() + b.len());
    assert(big == a + b);
    assert forall|i: int| 0 <= i < a.len() implies #[trigger] l.toks.subrange(p, p + a.len())[i] == a[i] by {
        assert(big[i] == l.toks[p + i]);
        assert((a + b)[i] == a[i]);
    }
    assert(l.toks.subrange(p, p + a.len()) =~= a);
    assert forall|i: int| 0 <= i < b.len() implies #[trigger] l.toks.subrange(
        p + a.len(),
        p + a.len() + b.len(),
    )[i] == b[i] by {
        assert(big[a.len() + i] == l.toks[p + a.len() + i]);
        assert((a + b)[a.len() + i] == b[i]);
    }
    assert(l.toks.subrange(p + a.len(), p + a.len() + b.len()) =~= b);
}

proof fn lemma_at_cur(l: Lexed, p: int, x: Seq<Tok>)
    requires
        at(l, p, x),
        x.len() > 0,
    ensures
        cur_tok(l, p) == x[0],
{
    assert(l.toks.subrange(p, p + x.len())[0] == l.toks[p]);
}

/// Operand `k` of a chain sits at its offset, and the next offset follows it.
proof fn lemma_at_piece(l: Lexed, p: int, pcs: Seq<Seq<Tok>>, k: int)
    requires
        at(l, p, pcs.flatten()),
        0 <= k < pcs.len(),
    ensures
        at(l, p + pcs.take(k).flatten().len(), pcs[k]),
        pcs.take(k + 1).flatten().len() == pcs.take(k).flatten().len() + pcs[k].len(),
        p + pcs.take(k + 1).flatten().len() <= p + pcs.flatten().len(),
{
    assert(pcs =~= pcs.take(k) + (seq![pcs[k]] + pcs.skip(k + 1)));
    lemma_flatten_concat(pcs.take(k), seq![pcs[k]] + pcs.skip(k + 1));
    lemma_flatten_concat(seq![pcs[k]], pcs.skip(k + 1));
    seq![pcs[k]].lemma_flatten_singleton();
    assert(pcs.take(k + 1) =~= pcs.take(k).push(pcs[k]));
    pcs.take(k).lemma_flatten_push(pcs[k]);
    lemma_at_split(l, p, pcs.take(k).flatten(), pcs[k] + pcs.skip(k + 1).flatten());
    lemma_at_split(l, p + pcs.take(k).flatten().len(), pcs[k], pcs.skip(k + 1).flatten());
}

/// Facts about operand `k` of a chain whose tokens sit at `p`.
proof fn lemma_chain_operand(l: Lexed, p: int, op: Op, invs: Seq<bool>, ts: Seq<Tree>, k: int)
    requires
        at(l, p, tok_pieces(op, invs, ts).flatten()),
        0 <= k < ts.len(),
    ensures
        at(l, p + tok_offset(op, invs, ts, k) + tok_sep(op, invs, k).len(), tok_wrap(ts[k], parens_needed(ts[k], op))),
        tok_offset(op, invs, ts, k + 1) == tok_offset(op, invs, ts, k) + tok_sep(op, invs, k).len()
            + tok_wrap(ts[k], parens_needed(ts[k], op)).len(),
        k > 0 ==> cur_tok(l, p + tok_offset(op, invs, ts, k)) == Tok::Op(op_char(op, invs[k])),
        k + 1 < ts.len() ==> cur_tok(l, p + tok_offset(op, invs, ts, k + 1)) == Tok::Op(op_char(op, invs[k + 1])),
        tok_offset(op, invs, ts, k + 1) <= tok_pieces(op, invs, ts).flatten().len(),
        k + 1 == ts.len() ==> tok_offset(op, invs, ts, k + 1) == tok_pieces(op, invs, ts).flatten().len(),
{
    let pcs = tok_pieces(op, invs, ts);
    if k + 1 == ts.len() {
        assert(pcs.take(k + 1) =~= pcs);
    }
    lemma_at_piece(l, p, pcs, k);
    let base = p + tok_offset(op, invs, ts, k);
    lemma_at_split(l, base, tok_sep(op, invs, k), tok_wrap(ts[k], parens_needed(ts[k], op)));
    if k > 0 {
        lemma_at_cur(l, base, pcs[k]);
    }
    if k + 1 < ts.len() {
        lemma_at_piece(l, p, pcs, k + 1);
        lemma_at_cur(l, p + tok_offset(op, invs, ts, k + 1), pcs[k + 1]);
    }
}

/// The tokens of a tree are never empty.
proof fn lemma_tok_nonempty(t: Tree, parens: bool)
    requires
        rt(t, false) || rt(t, true),
    ensures
        tok_wrap(t, parens).len() > 0,
        tok_render(t).len() > 0,
    decreases t,
{
    match t {
        Tree::Chain(op, invs, ts) => {
            let pcs = tok_pieces(op, invs, ts);
            lemma_tok_nonempty(ts[0], parens_needed(ts[0], op));
            pcs.lemma_flatten_length_ge_single_element_length(0);
        },
        _ => {},
    }
}

/// The first token of a tree written at the power level or below is no
/// minus sign.
proof fn lemma_first_not_minus(t: Tree, parens: bool)
    requires
        rt(t, false),
        parens || is_atom(t) || is_chain_of(t, Op::ExpRoot),
    ensures
        tok_wrap(t, parens).len() > 0,
        tok_wrap(t, parens)[0] != Tok::Op('-'),
    decreases t,
{
    lemma_tok_nonempty(t, parens);
    if !parens {
        if let Tree::Chain(op, invs, ts) = t {
            let pcs = tok_pieces(op, invs, ts);
            lemma_first_not_minus(ts[0], parens_needed(ts[0], op));
            assert(pcs =~= seq![pcs[0]] + pcs.skip(1));
            lemma_flatten_concat(seq![pcs[0]], pcs.skip(1));
            seq![pcs[0]].lemma_flatten_singleton();
            assert(pcs[0] == tok_wrap(ts[0], parens_needed(ts[0], op)));
        }
    }
}

proof fn lemma_rt_atom(l: Lexed, p: int, t: Tree, parens: bool)
    requires
        l.bad is None,
        at(l, p, tok_wrap(t, parens)),
        rt(t, false),
        parens || is_atom(t),
    ensures
        p_atom(l, p) == Ok::<(Tree, int), crate::expression::Failure>((t, p + tok_wrap(t, parens).len())),
    decreases t, if parens { 1int } else { 0int }, 0int, 0int,
{
    let x = tok_wrap(t, parens);
    lemma_tok_nonempty(t, parens);
    lemma_at_cur(l, p, x);
    if parens {
        let body = tok_render(t);
        lemma_at_split(l, p, seq![Tok::Open] + body, seq![Tok::Close]);
        lemma_at_split(l, p, seq![Tok::Open], body);
        lemma_at_cur(l, p + 1 + body.len(), seq![Tok::Close]);
        lemma_rt_addsub(l, p + 1, t, false);
    }
}

proof fn lemma_rt_exp_chain(l: Lexed, p: int, t: Tree, k: int)
    requires
        l.bad is None,
        at(l, p, tok_render(t)),
        rt(t, false),
        is_chain_of(t, Op::ExpRoot),
        1 <= k <= t->Chain_2.len(),
        stop_exp(cur_tok(l, p + tok_render(t).len())),
    ensures
        p_exp_rest(l, p + tok_offset(Op::ExpRoot, t->Chain_1, t->Chain_2, k), t->Chain_2.take(k))
            == Ok::<(Tree, int), crate::expression::Failure>((t, p + tok_render(t).len())),
    decreases t, 0int, 1int, t->Chain_2.len() - k,
{
    let op = Op::ExpRoot;
    let invs = t->Chain_1;
    let ts = t->Chain_2;
    let pcs = tok_pieces(op, invs, ts);
    let pos = p + tok_offset(op, invs, ts, k);
    if k < ts.len() {
        lemma_chain_operand(l, p, op, invs, ts, k);
        lemma_rt_atom(l, pos + 1, ts[k], parens_needed(ts[k], op));
        assert(ts.take(k).push(ts[k]) =~= ts.take(k + 1));
        lemma_rt_exp_chain(l, p, t, k + 1);
    } else {
        assert(pcs.take(k) =~= pcs);
        assert(ts.take(k) =~= ts);
        assert(invs =~= all_false(ts.len()));
    }
}

proof fn lemma_rt_exp(l: Lexed, p: int, t: Tree, parens: bool)
    requires
        l.bad is None,
        at(l, p, tok_wrap(t, parens)),
        rt(t, false),
        parens || is_atom(t) || is_chain_of(t, Op::ExpRoot),
        stop_exp(cur_tok(l, p + tok_wrap(t, parens).len())),
    ensures
        p_exp(l, p) == Ok::<(Tree, int), crate::expression::Failure>((t, p + tok_wrap(t, parens).len())),
    decreases t, if parens { 1int } else { 0int }, 2int, 0int,
{
    if !parens && is_chain_of(t, Op::ExpRoot) {
        let op = Op::ExpRoot;
        let invs = t->Chain_1;
        let ts = t->Chain_2;
        lemma_chain_operand(l, p, op, invs, ts, 0);
        assert(tok_offset(op, invs, ts, 0) == 0) by {
            assert(tok_pieces(op, invs, ts).take(0) =~= Seq::<Seq<Tok>>::empty());
        }
        lemma_rt_atom(l, p, ts[0], parens_needed(ts[0], op));
        assert(ts.take(1) =~= seq![ts[0]]);
        lemma_rt_exp_chain(l, p, t, 1);
    } else {
        lemma_rt_atom(l, p, t, parens);
    }
}

proof fn lemma_rt_unary(l: Lexed, p: int, t: Tree, parens: bool)
    requires
        l.bad is None,
        at(l, p, tok_wrap(t, parens)),
        rt(t, false),
        parens || is_atom(t) || is_chain_of(t, Op::ExpRoot) || t is Neg,
        stop_exp(cur_tok(l, p + tok_wrap(t, parens).len())),
    ensures
        p_unary(l, p) == Ok::<(Tree, int), crate::expression::Failure>((t, p + tok_wrap(t, parens).len())),
    decreases t, if parens { 1int } else { 0int }, 4int, 0int,
{
    if !parens && t is Neg {
        let b = *(t->Neg_0);
        let inner = tok_wrap(b, !is_atom(b));
        lemma_at_split(l, p, seq![Tok::Op('-')], inner);
        lemma_at_cur(l, p, tok_wrap(t, parens));
        lemma_rt_exp(l, p + 1, b, !is_atom(b));
    } else {
        lemma_first_not_minus(t, parens);
        lemma_at_cur(l, p, tok_wrap(t, parens));
        lemma_rt_exp(l, p, t, parens);
    }
}

proof fn lemma_rt_muldiv_chain(l: Lexed, p: int, t: Tree, k: int)
    requires
        l.bad is None,
        at(l, p, tok_render(t)),
        rt(t, false),
        is_chain_of(t, Op::MulDiv),
        1 <= k <= t->Chain_2.len(),
        stop_mul(cur_tok(l, p + tok_render(t).len())),
    ensures
        p_muldiv_rest(
            l,
            p + tok_offset(Op::MulDiv, t->Chain_1, t->Chain_2, k),
            t->Chain_1.take(k),
            t->Chain_2.take(k),
        ) == Ok::<(Tree, int), crate::expression::Failure>((t, p + tok_render(t).len())),
    decreases t, 0int, 5int, t->Chain_2.len() - k,
{
    let op = Op::MulDiv;
    let invs = t->Chain_1;
    let ts = t->Chain_2;
    let pcs = tok_pieces(op, invs, ts);
    let pos = p + tok_offset(op, invs, ts, k);
    if k < ts.len() {
        lemma_chain_operand(l, p, op, invs, ts, k);
        lemma_rt_unary(l, pos + 1, ts[k], parens_needed(ts[k], op));
        assert(ts.take(k).push(ts[k]) =~= ts.take(k + 1));
        assert(invs.take(k).push(invs[k]) =~= invs.take(k + 1));
        lemma_rt_muldiv_chain(l, p, t, k + 1);
    } else {
        assert(pcs.take(k) =~= pcs);
        assert(ts.take(k) =~= ts);
        assert(invs.take(k) =~= invs);
    }
}

proof fn lemma_rt_muldiv(l: Lexed, p: int, t: Tree, parens: bool)
    requires
        l.bad is None,
        at(l, p, tok_wrap(t, parens)),
        rt(t, false),
        parens || !(is_chain_of(t, Op::AddSub) || is_chain_of(t, Op::Equality)),
        stop_mul(cur_tok(l, p + tok_wrap(t, parens).len())),
    ensures
        p_muldiv(l, p) == Ok::<(Tree, int), crate::expression::Failure>((t, p + tok_wrap(t, parens).len())),
    decreases t, if parens { 1int } else { 0int }, 6int, 0int,
{
    if !parens && is_chain_of(t, Op::MulDiv) {
        let op = Op::MulDiv;
        let invs = t->Chain_1;
        let ts = t->Chain_2;
        lemma_chain_operand(l, p, op, invs, ts, 0);
        assert(tok_offset(op, invs, ts, 0) == 0) by {
            assert(tok_pieces(op, invs, ts).take(0) =~= Seq::<Seq<Tok>>::empty());
        }
        lemma_rt_unary(l, p, ts[0], parens_needed(ts[0], op));
        assert(ts.take(1) =~= seq![ts[0]]);
        assert(invs.take(1) =~= seq![false]);
        lemma_rt_muldiv_chain(l, p, t, 1);
    } else {
        lemma_rt_unary(l, p, t, parens);
    }
}

proof fn lemma_rt_addsub_chain(l: Lexed, p: int, t: Tree, k: int)
    requires
        l.bad is None,
        at(l, p, tok_render(t)),
        rt(t, false),
        is_chain_of(t, Op::AddSub),
        1 <= k <= t->Chain_2.len(),
        stop_add(cur_tok(l, p + tok_render(t).len())),
    ensures
        p_addsub_rest(
            l,
            p + tok_offset(Op::AddSub, t->Chain_1, t->Chain_2, k),
            t->Chain_1.take(k),
            t->Chain_2.take(k),
        ) == Ok::<(Tree, int), crate::expression::Failure>((t, p + tok_render(t).len())),
    decreases t, 0int, 7int, t->Chain_2.len() - k,
{
    let op = Op::AddSub;
    let invs = t->Chain_1;
    let ts = t->Chain_2;
    let pcs = tok_pieces(op, invs, ts);
    let pos = p + tok_offset(op, invs, ts, k);
    if k < ts.len() {
        lemma_chain_operand(l, p, op, invs, ts, k);
        lemma_rt_muldiv(l, pos + 1, ts[k], parens_needed(ts[k], op));
        assert(ts.take(k).push(ts[k]) =~= ts.take(k + 1));
        assert(invs.take(k).push(invs[k]) =~= invs.take(k + 1));
        lemma_rt_addsub_chain(l, p, t, k + 1);
    } else {
        assert(pcs.take(k) =~= pcs);
        assert(ts.take(k) =~= ts);
        assert(invs.take(k) =~= invs);
    }
}

proof fn lemma_rt_addsub(l: Lexed, p: int, t: Tree, parens: bool)
    requires
        l.bad is None,
        at(l, p, tok_wrap(t, parens)),
        rt(t, false),
        stop_add(cur_tok(l, p + tok_wrap(t, parens).len())),
    ensures
        p_addsub(l, p) == Ok::<(Tree, int), crate::expression::Failure>((t, p + tok_wrap(t, parens).len())),
    decreases t, if parens { 1int } else { 0int }, 8int, 0int,
{
    if !parens && is_chain_of(t, Op::AddSub) {
        let op = Op::AddSub;
        let invs = t->Chain_1;
        let ts = t->Chain_2;
        lemma_chain_operand(l, p, op, invs, ts, 0);
        assert(tok_offset(op, invs, ts, 0) == 0) by {
            assert(tok_pieces(op, invs, ts).take(0) =~= Seq::<Seq<Tok>>::empty());
        }
        lemma_rt_muldiv(l, p, ts[0], parens_needed(ts[0], op));
        assert(ts.take(1) =~= seq![ts[0]]);
        assert(invs.take(1) =~= seq![false]);
        lemma_rt_addsub_chain(l, p, t, 1);
    } else {
        lemma_rt_muldiv(l, p, t, parens);
    }
}

proof fn lemma_rt_eq_chain(l: Lexed, t: Tree, k: int)
    requires
        l.bad is None,
        l.toks == tok_render(t),
        rt(t, true),
        is_chain_of(t, Op::Equality),
        1 <= k <= t->Chain_2.len(),
    ensures
        p_eq_rest(l, tok_offset(Op::Equality, t->Chain_1, t->Chain_2, k), t->Chain_2.take(k))
            == Ok::<(Tree, int), crate::expression::Failure>((t, l.toks.len() as int)),
    decreases t->Chain_2.len() - k,
{
    let op = Op::Equality;
    let invs = t->Chain_1;
    let ts = t->Chain_2;
    let pcs = tok_pieces(op, invs, ts);
    let pos = tok_offset(op, invs, ts, k);
    assert(at(l, 0, tok_render(t))) by {
        assert(l.toks.subrange(0, l.toks.len() as int) =~= l.toks);
    }
    if k < ts.len() {
        lemma_chain_operand(l, 0, op, invs, ts, k);
        assert(rt(ts[k], false));
        assert(!parens_needed(ts[k], op));
        lemma_rt_addsub(l, pos + 1, ts[k], false);
        assert(ts.take(k).push(ts[k]) =~= ts.take(k + 1));
        lemma_rt_eq_chain(l, t, k + 1);
    } else {
        assert(pcs.take(k) =~= pcs);
        assert(ts.take(k) =~= ts);
        assert(invs =~= all_false(ts.len()));
    }
}

/// Reading back, at the level of tokens: for a tree with well-shaped
/// chains, no flag on a first operand and an equality only at the top, the
/// parser applied to the tokens that the renderer writes for it
/// returns the same tree. (That the lexer turns the rendered characters into
/// exactly these tokens is not stated here.)
#[verifier::rlimit(60)]
pub proof fn lemma_reparse_tokens(t: Tree)
    requires
        rt(t, true),
    ensures
        parse_tokens(Lexed { toks: tok_render(t), bad: None }) == Ok::<Tree, crate::expression::Failure>(t),
{
    let l = Lexed { toks: tok_render(t), bad: None };
    assert(at(l, 0, tok_render(t))) by {
        assert(l.toks.subrange(0, l.toks.len() as int) =~= l.toks);
    }
    lemma_tok_nonempty(t, false);
    if is_chain_of(t, Op::Equality) {
        let op = Op::Equality;
        let invs = t->Chain_1;
        let ts = t->Chain_2;
        lemma_chain_operand(l, 0, op, invs, ts, 0);
        assert(tok_offset(op, invs, ts, 0) == 0) by {
            assert(tok_pieces(op, invs, ts).take(0) =~= Seq::<Seq<Tok>>::empty());
        }
        assert(rt(ts[0], false));
        assert(!parens_needed(ts[0], op));
        lemma_rt_addsub(l, 0, ts[0], false);
        assert(ts.take(1) =~= seq![ts[0]]);
        lemma_rt_eq_chain(l, t, 1);
        let pm = tok_offset(op, invs, ts, 1);
        assert(p_addsub(l, 0) == Ok::<(Tree, int), crate::expression::Failure>((ts[0], pm)));
        assert(cur_tok(l, pm) == Tok::Op('='));
        assert(p_equality(l, 0) == p_eq_rest(l, pm, seq![ts[0]]));
    } else {
        assert(rt(t, false));
        lemma_rt_addsub(l, 0, t, false);
    }
}

/// What the parser's trees look like beyond `wf`: an equality only at the
/// top, no flag on the first operand of a chain, and names that are
/// identifiers.
pub open spec fn shape(t: Tree, top: bool) -> bool
    decreases t,
{
    match t {
        Tree::Neg(b) => shape(*b, false),
        Tree::Chain(op, invs, ts) => (op == Op::Equality ==> top) && (invs.len() > 0 ==> !invs[0])
            && forall|i: int| 0 <= i < ts.len() ==> shape(#[trigger] ts[i], false),
        Tree::Num(_, _) => true,
        Tree::Var(n) => is_name(n),
    }
}

pub open spec fn res_shape(r: Result<(Tree, int), crate::expression::Failure>) -> bool {
    r is Ok ==> shape(r->Ok_0.0, false)
}

pub open spec fn all_shape(acc: Seq<Tree>) -> bool {
    forall|i: int| 0 <= i < acc.len() ==> shape(#[trigger] acc[i], false)
}

proof fn lemma_push_shape(acc: Seq<Tree>, t: Tree)
    requires
        all_shape(acc),
        shape(t, false),
    ensures
        all_shape(acc.push(t)),
{
    assert forall|i: int| 0 <= i < acc.push(t).len() implies shape(#[trigger] acc.push(t)[i], false) by {
        if i < acc.len() {
            assert(acc.push(t)[i] == acc[i]);
        }
    }
}

proof fn lemma_single_shape(t: Tree)
    requires
        shape(t, false),
    ensures
        all_shape(seq![t]),
{
    assert(seq![t][0] == t);
}

proof fn lemma_atom_shape(l: Lexed, p: int)
    requires
        toks_good(l.toks),
    ensures
        res_shape(p_atom(l, p)),
    decreases l.toks.len() - p, 0int,
{
    if 0 <= p < l.toks.len() {
        assert(tok_good(l.toks[p]));
        if cur_tok(l, p) == Tok::Open {
            if let Ok(q) = advance(l, p) {
                lemma_addsub_shape(l, q);
            }
        }
    }
}

proof fn lemma_exp_rest_shape(l: Lexed, p: int, acc: Seq<Tree>)
    requires
        toks_good(l.toks),
        acc.len() >= 1,
        all_shape(acc),
    ensures
        res_shape(p_exp_rest(l, p, acc)),
    decreases l.toks.len() - p, 1int,
{
    if 0 <= p <= l.toks.len() {
        if cur_tok(l, p) == Tok::Op('^') {
            if let Ok(q) = advance(l, p) {
                lemma_atom_shape(l, q);
                if let Ok((t, q2)) = p_atom(l, q) {
                    if p < q2 <= l.toks.len() {
                        lemma_push_shape(acc, t);
                        lemma_exp_rest_shape(l, q2, acc.push(t));
                    }
                }
            }
        } else if acc.len() == 1 {
            assert(shape(acc[0], false));
        }
    }
}

proof fn lemma_exp_shape(l: Lexed, p: int)
    requires
        toks_good(l.toks),
    ensures
        res_shape(p_exp(l, p)),
    decreases l.toks.len() - p, 2int,
{
    lemma_atom_shape(l, p);
    if let Ok((t, pm)) = p_atom(l, p) {
        if p <= pm <= l.toks.len() {
            lemma_single_shape(t);
            lemma_exp_rest_shape(l, pm, seq![t]);
        }
    }
}

proof fn lemma_unary_shape(l: Lexed, p: int)
    requires
        toks_good(l.toks),
    ensures
        res_shape(p_unary(l, p)),
    decreases l.toks.len() - p, 3int,
{
    if 0 <= p <= l.toks.len() {
        if cur_tok(l, p) == Tok::Op('-') {
            if let Ok(q) = advance(l, p) {
                lemma_exp_shape(l, q);
            }
        } else {
            lemma_exp_shape(l, p);
        }
    }
}

proof fn lemma_muldiv_rest_shape(l: Lexed, p: int, invs: Seq<bool>, acc: Seq<Tree>)
    requires
        toks_good(l.toks),
        acc.len() >= 1,
        invs.len() >= 1,
        !invs[0],
        all_shape(acc),
    ensures
        res_shape(p_muldiv_rest(l, p, invs, acc)),
    decreases l.toks.len() - p, 4int,
{
    if 0 <= p <= l.toks.len() {
        if cur_tok(l, p) == Tok::Op('/') || cur_tok(l, p) == Tok::Op('*') {
            let inv = cur_tok(l, p) == Tok::Op('/');
            if let Ok(q) = advance(l, p) {
                lemma_unary_shape(l, q);
                if let Ok((t, q2)) = p_unary(l, q) {
                    if p < q2 <= l.toks.len() {
                        lemma_push_shape(acc, t);
                        assert(invs.push(inv)[0] == invs[0]);
                        lemma_muldiv_rest_shape(l, q2, invs.push(inv), acc.push(t));
                    }
                }
            }
        } else if acc.len() == 1 {
            assert(shape(acc[0], false));
        }
    }
}

proof fn lemma_muldiv_shape(l: Lexed, p: int)
    requires
        toks_good(l.toks),
    ensures
        res_shape(p_muldiv(l, p)),
    decreases l.toks.len() - p, 5int,
{
    lemma_unary_shape(l, p);
    if let Ok((t, pm)) = p_unary(l, p) {
        if p <= pm <= l.toks.len() {
            lemma_single_shape(t);
            lemma_muldiv_rest_shape(l, pm, seq![false], seq![t]);
        }
    }
}

proof fn lemma_addsub_rest_shape(l: Lexed, p: int, invs: Seq<bool>, acc: Seq<Tree>)
    requires
        toks_good(l.toks),
        acc.len() >= 1,
        invs.len() >= 1,
        !invs[0],
        all_shape(acc),
    ensures
        res_shape(p_addsub_rest(l, p, invs, acc)),
    decreases l.toks.len() - p, 6int,
{
    if 0 <= p <= l.toks.len() {
        if cur_tok(l, p) == Tok::Op('-') || cur_tok(l, p) == Tok::Op('+') {
            let inv = cur_tok(l, p) == Tok::Op('-');
            if let Ok(q) = advance(l, p) {
                lemma_muldiv_shape(l, q);
                if let Ok((t, q2)) = p_muldiv(l, q) {
                    if p < q2 <= l.toks.len() {
                        lemma_push_shape(acc, t);
                        assert(invs.push(inv)[0] == invs[0]);
                        lemma_addsub_rest_shape(l, q2, invs.push(inv), acc.push(t));
                    }
                }
            }
        } else if acc.len() == 1 {
            assert(shape(acc[0], false));
        }
    }
}

proof fn lemma_addsub_shape(l: Lexed, p: int)
    requires
        toks_good(l.toks),
    ensures
        res_shape(p_addsub(l, p)),
    decreases l.toks.len() - p, 7int,
{
    lemma_muldiv_shape(l, p);
    if let Ok((t, pm)) = p_muldiv(l, p) {
        if p <= pm <= l.toks.len() {
            lemma_single_shape(t);
            lemma_addsub_rest_shape(l, pm, seq![false], seq![t]);
        }
    }
}

proof fn lemma_eq_rest_shape(l: Lexed, p: int, acc: Seq<Tree>)
    requires
        toks_good(l.toks),
        all_shape(acc),
    ensures
        p_eq_rest(l, p, acc) is Ok ==> shape(p_eq_rest(l, p, acc)->Ok_0.0, true),
    decreases l.toks.len() - p, 8int,
{
    if 0 <= p <= l.toks.len() {
        if cur_tok(l, p) == Tok::Op('=') {
            if let Ok(q) = advance(l, p) {
                lemma_addsub_shape(l, q);
                if let Ok((t, q2)) = p_addsub(l, q) {
                    if p < q2 <= l.toks.len() {
                        lemma_push_shape(acc, t);
                        lemma_eq_rest_shape(l, q2, acc.push(t));
                    }
                }
            }
        }
    }
}

/// Every tree that the parser returns has an equality only at the top and
/// identifiers as names.
pub proof fn lemma_parse_shape(s: Seq<char>)
    ensures
        parse_text(s) is Ok ==> shape(parse_text(s)->Ok_0, true),
{
    lemma_lex_good(s, 0);
    let l = Lexed { toks: lex(s).0, bad: lex(s).1 };
    lemma_addsub_shape(l, 0);
    if let Ok((t, pm)) = p_addsub(l, 0) {
        if cur_tok(l, pm) == Tok::Op('=') && 0 <= pm <= l.toks.len() {
            lemma_single_shape(t);
            lemma_eq_rest_shape(l, pm, seq![t]);
        }
    }
}

/// A well-formed tree of that shape reads back as itself.
pub proof fn lemma_rt_of(t: Tree, top: bool)
    requires
        wf(t),
        shape(t, top),
    ensures
        rt(t, top),
    decreases t,
{
    match t {
        Tree::Neg(b) => {
            lemma_rt_of(*b, false);
        },
        Tree::Chain(op, invs, ts) => {
            assert forall|i: int| 0 <= i < ts.len() implies rt(#[trigger] ts[i], false) by {
                assert(wf(ts[i]));
                assert(shape(ts[i], false));
                lemma_rt_of(ts[i], false);
            }
        },
        _ => {},
    }
}

/// Names are identifiers and numbers are canonical, all through the tree.
pub open spec fn lexable(t: Tree) -> bool
    decreases t,
{
    match t {
        Tree::Neg(b) => lexable(*b),
        Tree::Chain(_, _, ts) => forall|i: int| 0 <= i < ts.len() ==> lexable(#[trigger] ts[i]),
        Tree::Num(w, f) => num_wf(w, f),
        Tree::Var(n) => is_name(n),
    }
}

pub proof fn lemma_lexable_of(t: Tree, top: bool)
    requires
        wf(t),
        shape(t, top),
    ensures
        lexable(t),
    decreases t,
{
    match t {
        Tree::Neg(b) => {
            lemma_lexable_of(*b, false);
        },
        Tree::Chain(op, invs, ts) => {
            assert forall|i: int| 0 <= i < ts.len() implies lexable(#[trigger] ts[i]) by {
                assert(wf(ts[i]));
                assert(shape(ts[i], false));
                lemma_lexable_of(ts[i], false);
            }
        },
        _ => {},
    }
}

/// What may follow a rendered tree: nothing, an operator or `)`.
pub open spec fn follows_ok(r: Seq<char>) -> bool {
    r.len() == 0 || is_op_char(r[0]) || r[0] == ')'
}

pub open spec fn tok_of_char(c: char) -> Tok {
    if c == '(' {
        Tok::Open
    } else if c == ')' {
        Tok::Close
    } else {
        Tok::Op(c)
    }
}

proof fn lemma_lex_op(c: char, r: Seq<char>)
    requires
        is_op_char(c) || c == '(' || c == ')',
    ensures
        lex_from(seq![c] + r, 0) == (seq![tok_of_char(c)] + lex_from(r, 0).0, lex_from(r, 0).1),
{
    let s = seq![c] + r;
    assert(s[0] == c);
    lemma_lex_shift(seq![c], r, 0);
}

proof fn lemma_digit_val(d: u8)
    requires
        d < 10,
    ensures
        digit_val(digit_char(d)) == d,
        is_digit(digit_char(d)),
{
}

proof fn lemma_digits_text(d: Seq<u8>)
    requires
        crate::expression::is_digit_seq(d),
    ensures
        crate::lexer::digits_of(digits_text(d)) == d,
        forall|k: int| 0 <= k < d.len() ==> is_digit(#[trigger] digits_text(d)[k]),
{
    assert forall|k: int| 0 <= k < d.len() implies is_digit(#[trigger] digits_text(d)[k]) && crate::lexer::digits_of(
        digits_text(d),
    )[k] == d[k] by {
        lemma_digit_val(d[k]);
    }
    assert(crate::lexer::digits_of(digits_text(d)) =~= d);
}

proof fn lemma_lex_name(n: Seq<char>, r: Seq<char>)
    requires
        is_name(n),
        follows_ok(r),
    ensures
        lex_from(n + r, 0) == (seq![Tok::Ident(n)] + lex_from(r, 0).0, lex_from(r, 0).1),
{
    let s = n + r;
    assert(s[0] == n[0]);
    assert forall|k: int| 1 <= k < n.len() implies is_ident_tail(#[trigger] s[k]) by {
        assert(s[k] == n[k]);
    }
    if r.len() > 0 {
        assert(s[n.len() as int] == r[0]);
    }
    lemma_scan_ident_exact(s, 1, n.len() as int);
    assert(s.subrange(0, n.len() as int) =~= n);
    lemma_lex_shift(n, r, 0);
}

proof fn lemma_lex_num(w: Seq<u8>, f: Seq<u8>, r: Seq<char>)
    requires
        num_wf(w, f),
        follows_ok(r),
    ensures
        lex_from(num_text(w, f) + r, 0) == (seq![Tok::Num(w, f)] + lex_from(r, 0).0, lex_from(r, 0).1),
{
    let wt: Seq<char> = if w.len() == 0 { seq!['0'] } else { digits_text(w) };
    let ft: Seq<char> = if f.len() == 0 { Seq::empty() } else { seq!['.'] + digits_text(f) };
    let s = num_text(w, f) + r;
    assert(s =~= wt + ft + r);
    lemma_digits_text(w);
    lemma_digits_text(f);
    let wd: Seq<u8> = if w.len() == 0 { seq![0u8] } else { w };
    assert(forall|k: int| 0 <= k < wt.len() ==> is_digit(#[trigger] wt[k]));
    assert(crate::lexer::digits_of(wt) == wd) by {
        if w.len() == 0 {
            assert(crate::lexer::digits_of(wt) =~= wd);
        }
    }
    assert forall|k: int| 0 <= k < wt.len() implies is_digit(#[trigger] s[k]) by {
        assert(s[k] == wt[k]);
    }
    if ft.len() > 0 {
        assert(s[wt.len() as int] == '.');
    } else if r.len() > 0 {
        assert(s[wt.len() as int] == r[0]);
    }
    lemma_scan_digits_exact(s, 0, wt.len() as int);
    assert(s.subrange(0, wt.len() as int) =~= wt);
    assert(first_nonzero(wd, 0) == if w.len() == 0 { 1int } else { 0int }) by {
        if w.len() == 0 {
            assert(first_nonzero(wd, 1) == 1);
        }
    }
    assert(crate::lexer::strip_leading(wd) =~= w);
    if f.len() > 0 {
        let e: int = wt.len() as int + 1 + f.len() as int;
        assert forall|k: int| wt.len() + 1 <= k < e implies is_digit(#[trigger] s[k]) by {
            assert(s[k] == digits_text(f)[k - wt.len() - 1]);
        }
        if r.len() > 0 {
            assert(s[e] == r[0]);
        }
        lemma_scan_digits_exact(s, wt.len() as int + 1, e);
        assert(s.subrange(wt.len() as int + 1, e) =~= digits_text(f));
        assert(trailing_end(f, f.len() as int) == f.len());
        assert(crate::lexer::strip_trailing(f) =~= f);
        assert(number_at(s, 0) == (Tok::Num(w, f), e));
    } else {
        assert(f =~= Seq::<u8>::empty());
        assert(number_at(s, 0) == (Tok::Num(w, f), wt.len() as int));
    }
    lemma_lex_shift(wt + ft, r, 0);
    assert(wt + ft + r =~= (wt + ft) + r);
}

proof fn lemma_skip_flatten<A>(p: Seq<Seq<A>>, k: int)
    requires
        0 <= k < p.len(),
    ensures
        p.skip(k).flatten() == p[k] + p.skip(k + 1).flatten(),
{
    assert(p.skip(k) =~= seq![p[k]] + p.skip(k + 1));
    lemma_flatten_concat(seq![p[k]], p.skip(k + 1));
    seq![p[k]].lemma_flatten_singleton();
}

proof fn lemma_lex_tree(t: Tree, r: Seq<char>)
    requires
        lexable(t),
        follows_ok(r),
    ensures
        lex_from(render(t) + r, 0) == (tok_render(t) + lex_from(r, 0).0, lex_from(r, 0).1),
    decreases t, 0int, 0int,
{
    match t {
        Tree::Var(n) => {
            lemma_lex_name(n, r);
        },
        Tree::Num(w, f) => {
            lemma_lex_num(w, f, r);
        },
        Tree::Neg(b) => {
            let pw = paren_wrap(render(*b), !is_atom(*b));
            assert(render(t) == seq!['-'] + pw);
            assert(render(t) + r =~= seq!['-'] + (pw + r));
            lemma_lex_op('-', pw + r);
            lemma_lex_wrapped(*b, !is_atom(*b), r);
            assert(tok_render(t) + lex_from(r, 0).0 =~= seq![Tok::Op('-')] + (tok_wrap(*b, !is_atom(*b))
                + lex_from(r, 0).0));
        },
        Tree::Chain(op, invs, ts) => {
            assert(pieces(op, invs, ts).skip(0) =~= pieces(op, invs, ts));
            assert(tok_pieces(op, invs, ts).skip(0) =~= tok_pieces(op, invs, ts));
            lemma_lex_pieces(op, invs, ts, 0, r);
        },
    }
}

proof fn lemma_lex_wrapped(t: Tree, parens: bool, r: Seq<char>)
    requires
        lexable(t),
        follows_ok(r),
    ensures
        lex_from(paren_wrap(render(t), parens) + r, 0) == (tok_wrap(t, parens) + lex_from(r, 0).0, lex_from(
            r,
            0,
        ).1),
    decreases t, 1int, 0int,
{
    if parens {
        let rest = seq![')'] + r;
        assert(paren_wrap(render(t), parens) + r =~= seq!['('] + (render(t) + rest));
        lemma_lex_op('(', render(t) + rest);
        lemma_lex_tree(t, rest);
        lemma_lex_op(')', r);
        assert(tok_wrap(t, parens) + lex_from(r, 0).0 =~= seq![Tok::Open] + (tok_render(t) + (seq![Tok::Close]
            + lex_from(r, 0).0)));
    } else {
        lemma_lex_tree(t, r);
    }
}

/// What follows operand `k` of a chain may follow a rendered tree.
proof fn lemma_pieces_rest_follows(op: Op, invs: Seq<bool>, ts: Seq<Tree>, k: int, r: Seq<char>)
    requires
        0 <= k < ts.len(),
        follows_ok(r),
    ensures
        follows_ok(pieces(op, invs, ts).skip(k + 1).flatten() + r),
{
    let pc = pieces(op, invs, ts);
    let rest = pc.skip(k + 1).flatten() + r;
    if k + 1 < ts.len() {
        lemma_skip_flatten(pc, k + 1);
        assert(pc[k + 1] == seq![op_char(op, invs[k + 1])] + wrapped(ts[k + 1], op));
        assert(rest[0] == op_char(op, invs[k + 1]));
    } else {
        assert(pc.skip(k + 1) =~= Seq::<Seq<char>>::empty());
        assert(rest =~= r);
    }
}

/// Lexing operand `k` of a chain, with its operator, before `rest`.
proof fn lemma_lex_piece(op: Op, invs: Seq<bool>, ts: Seq<Tree>, k: int, rest: Seq<char>)
    requires
        0 <= k < ts.len(),
        lexable(ts[k]),
        follows_ok(rest),
    ensures
        lex_from(pieces(op, invs, ts)[k] + rest, 0) == (tok_pieces(op, invs, ts)[k] + lex_from(rest, 0).0,
            lex_from(rest, 0).1),
    decreases ts, 1int, 0int,
{
    let parens = parens_needed(ts[k], op);
    let w = paren_wrap(render(ts[k]), parens);
    assert(wrapped(ts[k], op) == w);
    lemma_lex_wrapped(ts[k], parens, rest);
    let lrest = lex_from(rest, 0);
    if k > 0 {
        let c = op_char(op, invs[k]);
        assert(pieces(op, invs, ts)[k] + rest =~= seq![c] + (w + rest));
        lemma_lex_op(c, w + rest);
        assert(tok_pieces(op, invs, ts)[k] + lrest.0 =~= seq![Tok::Op(c)] + (tok_wrap(ts[k], parens) + lrest.0));
    } else {
        assert(pieces(op, invs, ts)[k] + rest =~= w + rest);
        assert(tok_pieces(op, invs, ts)[k] + lrest.0 =~= tok_wrap(ts[k], parens) + lrest.0);
    }
}

proof fn lemma_lex_pieces(op: Op, invs: Seq<bool>, ts: Seq<Tree>, k: int, r: Seq<char>)
    requires
        forall|i: int| 0 <= i < ts.len() ==> lexable(#[trigger] ts[i]),
        0 <= k <= ts.len(),
        follows_ok(r),
    ensures
        lex_from(pieces(op, invs, ts).skip(k).flatten() + r, 0) == (tok_pieces(op, invs, ts).skip(k).flatten()
            + lex_from(r, 0).0, lex_from(r, 0).1),
    decreases ts, 2int, ts.len() - k,
{
    let pc = pieces(op, invs, ts);
    let tp = tok_pieces(op, invs, ts);
    if k == ts.len() {
        assert(pc.skip(k) =~= Seq::<Seq<char>>::empty());
        assert(tp.skip(k) =~= Seq::<Seq<Tok>>::empty());
        assert(pc.skip(k).flatten() + r =~= r);
        assert(tp.skip(k).flatten() + lex_from(r, 0).0 =~= lex_from(r, 0).0);
    } else {
        lemma_skip_flatten(pc, k);
        lemma_skip_flatten(tp, k);
        let y = pc.skip(k + 1).flatten();
        let rest = y + r;
        lemma_lex_pieces(op, invs, ts, k + 1, r);
        lemma_pieces_rest_follows(op, invs, ts, k, r);
        lemma_lex_piece(op, invs, ts, k, rest);
        let lr = lex_from(r, 0);
        assert(pc.skip(k).flatten() + r =~= pc[k] + rest);
        assert(tp.skip(k).flatten() + lr.0 =~= tp[k] + (tp.skip(k + 1).flatten() + lr.0));
    }
}

/// Round trip: the text that the renderer writes for a parsed expression
/// parses back to the same tree, so rendering it again gives the same text.
pub proof fn lemma_round_trip(s: Seq<char>)
    requires
        parse_text(s) is Ok,
    ensures
        parse_text(render(parse_text(s)->Ok_0)) == parse_text(s),
        render(parse_text(render(parse_text(s)->Ok_0))->Ok_0) == render(parse_text(s)->Ok_0),
{
    let t = parse_text(s)->Ok_0;
    lemma_parse_wf(s);
    lemma_parse_shape(s);
    lemma_rt_of(t, true);
    lemma_lexable_of(t, true);
    lemma_lex_tree(t, Seq::empty());
    assert(render(t) + Seq::<char>::empty() =~= render(t));
    assert(tok_render(t) + Seq::<Tok>::empty() =~= tok_render(t));
    lemma_reparse_tokens(t);
}

} // verus!
