//! Factoring heuristics: hoisting a multiplicative factor that every addend
//! of a sum shares out of the sum.

use vstd::prelude::*;
use crate::expression::{
    Decimal, ExprNode, Expression, Op, SubExpression, Tree, invs_of, trees_of, lemma_node_view, one,
    wf,
};

verus! {

/// Brings an expression into a common form. No form is defined yet: the
/// expression comes back unchanged.
pub fn normalise(e: Expression) -> (r: Expression)
    ensures
        r@ == e@,
{
    e
}

/// The first factor of an addend: the first operand of a product, or the
/// addend itself.
pub open spec fn lead_of(t: Tree) -> Tree {
    match t {
        Tree::Chain(op, _, ts) => if op == Op::MulDiv { ts[0] } else { t },
        _ => t,
    }
}

/// An addend without its first factor: `1` where nothing else is left, `1`
/// in its place where a division follows it.
pub open spec fn drop_lead(t: Tree) -> Tree {
    match t {
        Tree::Chain(op, invs, ts) => if op == Op::MulDiv {
            if invs[1] {
                Tree::Chain(op, invs, ts.update(0, one()))
            } else if ts.len() > 2 {
                Tree::Chain(op, invs.drop_first(), ts.drop_first())
            } else {
                ts[1]
            }
        } else {
            one()
        },
        _ => one(),
    }
}

/// The last factor of an addend with its divide flag: the last operand of a
/// product, or the addend itself.
pub open spec fn trail_of(t: Tree) -> (bool, Tree) {
    match t {
        Tree::Chain(op, invs, ts) => if op == Op::MulDiv { (invs.last(), ts.last()) } else { (false, t) },
        _ => (false, t),
    }
}

/// An addend without its last factor: `1` where nothing else is left.
pub open spec fn drop_trail(t: Tree) -> Tree {
    match t {
        Tree::Chain(op, invs, ts) => if op == Op::MulDiv {
            if ts.len() > 2 {
                Tree::Chain(op, invs.drop_last(), ts.drop_last())
            } else {
                ts[0]
            }
        } else {
            one()
        },
        _ => one(),
    }
}

/// `x*(a+b)` from `x*a + x*b`: defined where `e` is a sum whose addends all
/// have the same first factor.
pub open spec fn factor_leading(e: Tree) -> Option<Tree> {
    match e {
        Tree::Chain(op, invs, ts) => if op == Op::AddSub && forall|i: int|
            0 <= i < ts.len() ==> lead_of(#[trigger] ts[i]) == lead_of(ts[0]) {
            Some(
                Tree::Chain(
                    Op::MulDiv,
                    seq![false, false],
                    seq![
                        lead_of(ts[0]),
                        Tree::Chain(Op::AddSub, invs, Seq::new(ts.len(), |i: int| drop_lead(ts[i]))),
                    ],
                ),
            )
        } else {
            None
        },
        _ => None,
    }
}

/// `(a+b)*x` from `a*x + b*x` (or `(a+b)/x` from `a/x + b/x`): defined where
/// `e` is a sum whose addends all have the same last factor and flag.
pub open spec fn factor_trailing(e: Tree) -> Option<Tree> {
    match e {
        Tree::Chain(op, invs, ts) => if op == Op::AddSub && forall|i: int|
            0 <= i < ts.len() ==> trail_of(#[trigger] ts[i]) == trail_of(ts[0]) {
            Some(
                Tree::Chain(
                    Op::MulDiv,
                    seq![false, trail_of(ts[0]).0],
                    seq![
                        Tree::Chain(Op::AddSub, invs, Seq::new(ts.len(), |i: int| drop_trail(ts[i]))),
                        trail_of(ts[0]).1,
                    ],
                ),
            )
        } else {
            None
        },
        _ => None,
    }
}

/// The first factor of `e`.
fn lead_ref(e: &Expression) -> (r: &Expression)
    requires
        wf(e@),
    ensures
        r@ == lead_of(e@),
{
    match e {
        Expression::SubNode(n) => {
            proof {
                lemma_node_view(*n);
            }
            if n.operation == Op::MulDiv {
                &n.values[0].val
            } else {
                e
            }
        },
        _ => e,
    }
}

/// The last factor of `e` with its divide flag.
fn trail_ref(e: &Expression) -> (r: (bool, &Expression))
    requires
        wf(e@),
    ensures
        (r.0, r.1@) == trail_of(e@),
{
    match e {
        Expression::SubNode(n) => {
            proof {
                lemma_node_view(*n);
            }
            if n.operation == Op::MulDiv {
                let k = n.values.len() - 1;
                (n.values[k].inverse, &n.values[k].val)
            } else {
                (false, e)
            }
        },
        _ => (false, e),
    }
}

fn one_exec() -> (r: Expression)
    ensures
        r@ == one(),
{
    Expression::Literal(Decimal::one())
}

fn drop_lead_owned(t: Expression) -> (r: Expression)
    requires
        wf(t@),
    ensures
        r@ == drop_lead(t@),
{
    match t {
        Expression::SubNode(n) => {
            proof {
                lemma_node_view(n);
            }
            let ghost ov = n.values@;
            if n.operation == Op::MulDiv {
                let mut n = n;
                if n.values[1].inverse {
                    let s0 = n.values.remove(0);
                    n.values.insert(0, SubExpression { inverse: s0.inverse, val: one_exec() });
                    proof {
                        lemma_node_view(n);
                        assert(invs_of(n.values@) =~= invs_of(ov));
                        assert(trees_of(n.values@) =~= trees_of(ov).update(0, one()));
                    }
                    Expression::SubNode(n)
                } else if n.values.len() > 2 {
                    n.values.remove(0);
                    proof {
                        lemma_node_view(n);
                        assert(invs_of(n.values@) =~= invs_of(ov).drop_first());
                        assert(trees_of(n.values@) =~= trees_of(ov).drop_first());
                    }
                    Expression::SubNode(n)
                } else {
                    let s1 = n.values.remove(1);
                    s1.val
                }
            } else {
                one_exec()
            }
        },
        _ => one_exec(),
    }
}

fn drop_trail_owned(t: Expression) -> (r: Expression)
    requires
        wf(t@),
    ensures
        r@ == drop_trail(t@),
{
    match t {
        Expression::SubNode(n) => {
            proof {
                lemma_node_view(n);
            }
            let ghost ov = n.values@;
            if n.operation == Op::MulDiv {
                let mut n = n;
                if n.values.len() > 2 {
                    n.values.pop();
                    proof {
                        lemma_node_view(n);
                        assert(invs_of(n.values@) =~= invs_of(ov).drop_last());
                        assert(trees_of(n.values@) =~= trees_of(ov).drop_last());
                    }
                    Expression::SubNode(n)
                } else {
                    let s0 = n.values.remove(0);
                    s0.val
                }
            } else {
                one_exec()
            }
        },
        _ => one_exec(),
    }
}

/// The operands of `vals`, each rewritten by `drop_lead` (or `drop_trail`
/// where `trailing` holds), signs kept.
fn rewrite_addends(vals: Vec<SubExpression>, trailing: bool) -> (r: Vec<SubExpression>)
    requires
        forall|i: int| 0 <= i < vals@.len() ==> wf(#[trigger] vals@[i].val@),
    ensures
        invs_of(r@) == invs_of(vals@),
        trees_of(r@) == Seq::new(
            vals@.len(),
            |i: int| if trailing { drop_trail(vals@[i].val@) } else { drop_lead(vals@[i].val@) },
        ),
{
    let ghost ov = vals@;
    let mut vals = vals;
    let mut out: Vec<SubExpression> = Vec::new();
    while vals.len() > 0
        invariant
            out.len() + vals.len() == ov.len(),
            vals@ == ov.subrange(out.len() as int, ov.len() as int),
            forall|i: int| 0 <= i < ov.len() ==> wf(#[trigger] ov[i].val@),
            forall|k: int| 0 <= k < out.len() ==> #[trigger] out@[k].inverse == ov[k].inverse,
            forall|k: int| 0 <= k < out.len() ==> #[trigger] out@[k].val@ == if trailing {
                drop_trail(ov[k].val@)
            } else {
                drop_lead(ov[k].val@)
            },
        decreases vals.len(),
    {
        let s = vals.remove(0);
        assert(s == ov[out.len() as int]);
        let v = if trailing {
            drop_trail_owned(s.val)
        } else {
            drop_lead_owned(s.val)
        };
        out.push(SubExpression { inverse: s.inverse, val: v });
        assert(vals@ =~= ov.subrange(out.len() as int, ov.len() as int));
    }
    assert(invs_of(out@) =~= invs_of(ov));
    assert(trees_of(out@) =~= Seq::new(
        ov.len(),
        |i: int| if trailing { drop_trail(ov[i].val@) } else { drop_lead(ov[i].val@) },
    ));
    out
}

fn pair(a: Expression, b: Expression, b_inv: bool) -> (r: Expression)
    ensures
        r@ == Tree::Chain(Op::MulDiv, seq![false, b_inv], seq![a@, b@]),
{
    let mut values: Vec<SubExpression> = Vec::new();
    values.push(SubExpression { inverse: false, val: a });
    values.push(SubExpression { inverse: b_inv, val: b });
    let n = ExprNode { operation: Op::MulDiv, values };
    proof {
        lemma_node_view(n);
        assert(invs_of(n.values@) =~= seq![false, b_inv]);
        assert(trees_of(n.values@) =~= seq![a@, b@]);
    }
    Expression::SubNode(n)
}

/// Hoists the first factor that all addends of the sum `e` share:
/// `x*a + x*b` becomes `x*(a+b)`. `None` where `e` is no sum or the first
/// factors differ.
pub fn factorise_leading(e: Expression) -> (r: Option<Expression>)
    requires
        wf(e@),
    ensures
        match r {
            Some(x) => factor_leading(e@) == Some(x@),
            None => factor_leading(e@) is None,
        },
{
    match e {
        Expression::SubNode(sn) => {
            proof {
                lemma_node_view(sn);
            }
            if sn.operation != Op::AddSub {
                return None;
            }
            let ghost ts = trees_of(sn.values@);
            assert forall|i: int| 0 <= i < sn.values@.len() implies wf(#[trigger] sn.values@[i].val@) by {
                assert(ts[i] == sn.values@[i].val@);
            }
            let item = lead_ref(&sn.values[0].val).deep_copy();
            let mut k: usize = 1;
            while k < sn.values.len()
                invariant
                    1 <= k <= sn.values.len(),
                    ts == trees_of(sn.values@),
                    wf(Expression::SubNode(sn)@),
                    e@ == Expression::SubNode(sn)@,
                    forall|i: int| 0 <= i < sn.values@.len() ==> wf(#[trigger] sn.values@[i].val@),
                    Expression::SubNode(sn)@ == Tree::Chain(sn.operation, invs_of(sn.values@), ts),
                    item@ == lead_of(ts[0]),
                    forall|i: int| 0 <= i < k ==> lead_of(#[trigger] ts[i]) == lead_of(ts[0]),
                decreases sn.values.len() - k,
            {
                if !lead_ref(&sn.values[k].val).same_as(&item) {
                    assert(lead_of(ts[k as int]) != lead_of(ts[0]));
                    return None;
                }
                k = k + 1;
            }
            let op = sn.operation;
            let invs = sn.values;
            let ghost ov = invs@;
            let rewritten = rewrite_addends(invs, false);
            let sum = ExprNode { operation: op, values: rewritten };
            proof {
                lemma_node_view(sum);
                assert(trees_of(sum.values@) =~= Seq::new(ts.len(), |i: int| drop_lead(ts[i])));
            }
            Some(pair(item, Expression::SubNode(sum), false))
        },
        _ => None,
    }
}

/// Hoists the last factor that all addends of the sum `e` share, with its
/// divide flag: `a*x + b*x` becomes `(a+b)*x`. `None` where `e` is no sum or
/// the last factors differ.
pub fn factorise_trailing(e: Expression) -> (r: Option<Expression>)
    requires
        wf(e@),
    ensures
        match r {
            Some(x) => factor_trailing(e@) == Some(x@),
            None => factor_trailing(e@) is None,
        },
{
    match e {
        Expression::SubNode(sn) => {
            proof {
                lemma_node_view(sn);
            }
            if sn.operation != Op::AddSub {
                return None;
            }
            let ghost ts = trees_of(sn.values@);
            assert forall|i: int| 0 <= i < sn.values@.len() implies wf(#[trigger] sn.values@[i].val@) by {
                assert(ts[i] == sn.values@[i].val@);
            }
            let (item_inv, item_ref) = trail_ref(&sn.values[0].val);
            let item = item_ref.deep_copy();
            let mut k: usize = 1;
            while k < sn.values.len()
                invariant
                    1 <= k <= sn.values.len(),
                    ts == trees_of(sn.values@),
                    wf(Expression::SubNode(sn)@),
                    e@ == Expression::SubNode(sn)@,
                    forall|i: int| 0 <= i < sn.values@.len() ==> wf(#[trigger] sn.values@[i].val@),
                    Expression::SubNode(sn)@ == Tree::Chain(sn.operation, invs_of(sn.values@), ts),
                    (item_inv, item@) == trail_of(ts[0]),
                    forall|i: int| 0 <= i < k ==> trail_of(#[trigger] ts[i]) == trail_of(ts[0]),
                decreases sn.values.len() - k,
            {
                let (inv_k, ref_k) = trail_ref(&sn.values[k].val);
                if inv_k != item_inv || !ref_k.same_as(&item) {
                    assert(trail_of(ts[k as int]) != trail_of(ts[0]));
                    return None;
                }
                k = k + 1;
            }
            let op = sn.operation;
            let invs = sn.values;
            let rewritten = rewrite_addends(invs, true);
            let sum = ExprNode { operation: op, values: rewritten };
            proof {
                lemma_node_view(sum);
                assert(trees_of(sum.values@) =~= Seq::new(ts.len(), |i: int| drop_trail(ts[i])));
            }
            Some(pair(Expression::SubNode(sum), item, item_inv))
        },
        _ => None,
    }
}

/// The factors of an addend, each with its divide flag: the operands of a
/// product, or the addend itself.
pub open spec fn entities(t: Tree) -> Seq<(bool, Tree)> {
    match t {
        Tree::Chain(op, invs, ts) => if op == Op::MulDiv {
            Seq::new(ts.len(), |i: int| (invs[i], ts[i]))
        } else {
            seq![(false, t)]
        },
        _ => seq![(false, t)],
    }
}

/// Where `x` first occurs in `s` from `k` on; the length of `s` if nowhere.
pub open spec fn index_from(s: Seq<(bool, Tree)>, x: (bool, Tree), k: int) -> int
    decreases s.len() - k,
{
    if k < 0 || k >= s.len() {
        s.len() as int
    } else if s[k] == x {
        k
    } else {
        index_from(s, x, k + 1)
    }
}

/// `s` without the first occurrence of `x`.
pub open spec fn remove_first(s: Seq<(bool, Tree)>, x: (bool, Tree)) -> Seq<(bool, Tree)> {
    let i = index_from(s, x, 0);
    if i < s.len() { s.remove(i) } else { s }
}

/// Whether every list holds `x`.
pub open spec fn in_all(rems: Seq<Seq<(bool, Tree)>>, x: (bool, Tree)) -> bool {
    forall|a: int| 0 <= a < rems.len() ==> index_from(#[trigger] rems[a], x, 0) < rems[a].len()
}

/// Walks the factors of the first addend from `j` on. A factor that every
/// remaining list still holds joins `common`, and one occurrence of it
/// leaves each list.
pub open spec fn gather(
    ents0: Seq<(bool, Tree)>,
    j: int,
    common: Seq<(bool, Tree)>,
    rems: Seq<Seq<(bool, Tree)>>,
) -> (Seq<(bool, Tree)>, Seq<Seq<(bool, Tree)>>)
    decreases ents0.len() - j,
{
    if j < 0 || j >= ents0.len() {
        (common, rems)
    } else if in_all(rems, ents0[j]) {
        gather(
            ents0,
            j + 1,
            common.push(ents0[j]),
            Seq::new(rems.len(), |a: int| remove_first(rems[a], ents0[j])),
        )
    } else {
        gather(ents0, j + 1, common, rems)
    }
}

pub open spec fn flags_of(s: Seq<(bool, Tree)>) -> Seq<bool> {
    Seq::new(s.len(), |i: int| s[i].0)
}

pub open spec fn factors_of(s: Seq<(bool, Tree)>) -> Seq<Tree> {
    Seq::new(s.len(), |i: int| s[i].1)
}

/// The product of what is left of an addend: `1` for nothing, `1/...`
/// where it starts with a division, the factor itself where one is left.
pub open spec fn rebuild(rem: Seq<(bool, Tree)>) -> Tree {
    if rem.len() == 0 {
        one()
    } else if rem[0].0 {
        Tree::Chain(Op::MulDiv, seq![false] + flags_of(rem), seq![one()] + factors_of(rem))
    } else if rem.len() == 1 {
        rem[0].1
    } else {
        Tree::Chain(Op::MulDiv, flags_of(rem), factors_of(rem))
    }
}

/// The common factors of a sum and what is left of each addend.
pub open spec fn common_factors(ts: Seq<Tree>) -> (Seq<(bool, Tree)>, Seq<Seq<(bool, Tree)>>) {
    gather(entities(ts[0]), 0, Seq::empty(), Seq::new(ts.len(), |a: int| entities(ts[a])))
}

/// `x*y*(a+b)` from `a*x*y + x*b*y`: every factor of the first addend that
/// each addend holds is hoisted, one occurrence per addend and per match, so
/// that a factor repeated in every addend is hoisted as often as it occurs
/// in all of them. Defined where `e` is a sum with a common factor.
pub open spec fn factor_all(e: Tree) -> Option<Tree> {
    match e {
        Tree::Chain(op, invs, ts) => if op == Op::AddSub && common_factors(ts).0.len() > 0 {
            let common = common_factors(ts).0;
            let rems = common_factors(ts).1;
            let c2 = if common[0].0 { seq![(false, one())] + common } else { common };
            Some(
                Tree::Chain(
                    Op::MulDiv,
                    flags_of(c2).push(false),
                    factors_of(c2).push(
                        Tree::Chain(Op::AddSub, invs, Seq::new(ts.len(), |a: int| rebuild(rems[a]))),
                    ),
                ),
            )
        } else {
            None
        },
        _ => None,
    }
}

pub open spec fn ents_of(v: Seq<SubExpression>) -> Seq<(bool, Tree)> {
    Seq::new(v.len(), |i: int| (v[i].inverse, v[i].val@))
}

pub open spec fn rows_of(rems: Seq<Vec<SubExpression>>) -> Seq<Seq<(bool, Tree)>> {
    Seq::new(rems.len(), |a: int| ents_of(rems[a]@))
}

fn copy_sub(s: &SubExpression) -> (r: SubExpression)
    ensures
        r.inverse == s.inverse,
        r.val@ == s.val@,
{
    SubExpression { inverse: s.inverse, val: s.val.deep_copy() }
}

fn entities_exec(e: &Expression) -> (r: Vec<SubExpression>)
    ensures
        ents_of(r@) == entities(e@),
{
    let mut r: Vec<SubExpression> = Vec::new();
    match e {
        Expression::SubNode(n) => {
            proof {
                lemma_node_view(*n);
            }
            if n.operation == Op::MulDiv {
                let mut i: usize = 0;
                while i < n.values.len()
                    invariant
                        i <= n.values.len(),
                        r.len() == i,
                        forall|k: int| 0 <= k < i ==> #[trigger] r@[k].inverse == n.values@[k].inverse,
                        forall|k: int| 0 <= k < i ==> #[trigger] r@[k].val@ == n.values@[k].val@,
                    decreases n.values.len() - i,
                {
                    r.push(copy_sub(&n.values[i]));
                    i = i + 1;
                }
                assert(ents_of(r@) =~= entities(e@));
                return r;
            }
        },
        _ => {},
    }
    r.push(SubExpression { inverse: false, val: e.deep_copy() });
    assert(ents_of(r@) =~= entities(e@));
    r
}

/// Where `x` first occurs in `v`.
fn find_ent(v: &Vec<SubExpression>, x: &SubExpression) -> (r: usize)
    ensures
        r as int == index_from(ents_of(v@), (x.inverse, x.val@), 0),
{
    let ghost s = ents_of(v@);
    let ghost xv = (x.inverse, x.val@);
    let mut k: usize = 0;
    while k < v.len()
        invariant
            k <= v.len(),
            s == ents_of(v@),
            xv == (x.inverse, x.val@),
            index_from(s, xv, k as int) == index_from(s, xv, 0),
        decreases v.len() - k,
    {
        assert(s[k as int] == (v@[k as int].inverse, v@[k as int].val@));
        if v[k].inverse == x.inverse && v[k].val.same_as(&x.val) {
            assert(s[k as int] == xv);
            return k;
        }
        assert(s[k as int] != xv);
        k = k + 1;
    }
    k
}

fn all_contain(rems: &Vec<Vec<SubExpression>>, x: &SubExpression) -> (r: bool)
    ensures
        r == in_all(rows_of(rems@), (x.inverse, x.val@)),
{
    let ghost xv = (x.inverse, x.val@);
    let ghost rows = rows_of(rems@);
    let mut a: usize = 0;
    while a < rems.len()
        invariant
            a <= rems.len(),
            rows == rows_of(rems@),
            xv == (x.inverse, x.val@),
            forall|b: int| 0 <= b < a ==> index_from(#[trigger] rows[b], xv, 0) < rows[b].len(),
        decreases rems.len() - a,
    {
        assert(rows[a as int] == ents_of(rems@[a as int]@));
        if find_ent(&rems[a], x) >= rems[a].len() {
            assert(index_from(rows[a as int], xv, 0) >= rows[a as int].len());
            return false;
        }
        a = a + 1;
    }
    true
}

fn remove_from_all(rems: &mut Vec<Vec<SubExpression>>, x: &SubExpression)
    requires
        in_all(rows_of(old(rems)@), (x.inverse, x.val@)),
    ensures
        rows_of(final(rems)@) == Seq::new(
            old(rems)@.len(),
            |a: int| remove_first(rows_of(old(rems)@)[a], (x.inverse, x.val@)),
        ),
{
    let ghost xv = (x.inverse, x.val@);
    let ghost rows = rows_of(rems@);
    let ghost target = Seq::new(rows.len(), |a: int| remove_first(rows[a], xv));
    let mut a: usize = 0;
    while a < rems.len()
        invariant
            a <= rems.len(),
            rems.len() == rows.len(),
            xv == (x.inverse, x.val@),
            rows == rows_of(old(rems)@),
            target == Seq::new(rows.len(), |b: int| remove_first(rows[b], xv)),
            in_all(rows, xv),
            forall|b: int| 0 <= b < a ==> #[trigger] rows_of(rems@)[b] == target[b],
            forall|b: int| a <= b < rems.len() ==> #[trigger] rows_of(rems@)[b] == rows[b],
        decreases rems.len() - a,
    {
        assert(rows_of(rems@)[a as int] == ents_of(rems@[a as int]@));
        let ghost before = rems@;
        let mut row = rems.remove(a);
        let p = find_ent(&row, x);
        assert(rows[a as int] == ents_of(row@));
        assert(rows[a as int].len() == row@.len());
        assert(index_from(rows[a as int], xv, 0) < rows[a as int].len());
        row.remove(p);
        assert(ents_of(row@) =~= remove_first(rows[a as int], xv));
        let ghost row_v = ents_of(row@);
        rems.insert(a, row);
        assert(rems@ =~= before.update(a as int, row));
        assert forall|b: int| 0 <= b < rems.len() implies #[trigger] rows_of(rems@)[b] == if b == a {
            row_v
        } else {
            rows_of(before)[b]
        } by {}
        a = a + 1;
    }
    assert(rows_of(rems@) =~= target);
}

fn rebuild_exec(rem: Vec<SubExpression>) -> (r: Expression)
    ensures
        r@ == rebuild(ents_of(rem@)),
{
    let ghost rv = ents_of(rem@);
    if rem.len() == 0 {
        return one_exec();
    }
    if rem[0].inverse {
        let mut values: Vec<SubExpression> = Vec::new();
        values.push(SubExpression { inverse: false, val: one_exec() });
        let mut rem = rem;
        let ghost ov = rem@;
        let mut k: usize = 0;
        while rem.len() > 0
            invariant
                k + rem.len() == ov.len(),
                rem@ == ov.subrange(k as int, ov.len() as int),
                values.len() == k + 1,
                !values@[0].inverse,
                values@[0].val@ == one(),
                forall|i: int| 1 <= i <= k ==> #[trigger] values@[i].inverse == ov[i - 1].inverse,
                forall|i: int| 1 <= i <= k ==> #[trigger] values@[i].val@ == ov[i - 1].val@,
            decreases rem.len(),
        {
            let s = rem.remove(0);
            values.push(s);
            k = k + 1;
            assert(rem@ =~= ov.subrange(k as int, ov.len() as int));
        }
        let n = ExprNode { operation: Op::MulDiv, values };
        proof {
            lemma_node_view(n);
            assert(invs_of(n.values@) =~= seq![false] + flags_of(rv));
            assert(trees_of(n.values@) =~= seq![one()] + factors_of(rv));
        }
        return Expression::SubNode(n);
    }
    if rem.len() == 1 {
        let mut rem = rem;
        let s = rem.pop().unwrap();
        return s.val;
    }
    let n = ExprNode { operation: Op::MulDiv, values: rem };
    proof {
        lemma_node_view(n);
        assert(invs_of(n.values@) =~= flags_of(rv));
        assert(trees_of(n.values@) =~= factors_of(rv));
    }
    Expression::SubNode(n)
}

/// Hoists every factor that all addends of the sum `e` share (see
/// `factor_all`): `a*x*y + x*b*y` becomes `x*y*(a+b)`. `None` where `e` is
/// no sum or its addends share no factor.
#[verifier::rlimit(60)]
pub fn factorise_all(e: Expression) -> (r: Option<Expression>)
    requires
        wf(e@),
    ensures
        match r {
            Some(x) => factor_all(e@) == Some(x@),
            None => factor_all(e@) is None,
        },
{
    match e {
        Expression::SubNode(sn) => {
            proof {
                lemma_node_view(sn);
            }
            if sn.operation != Op::AddSub {
                return None;
            }
            let ghost ts = trees_of(sn.values@);
            let ghost invs = invs_of(sn.values@);
            let n = sn.values.len();
            let mut rems: Vec<Vec<SubExpression>> = Vec::new();
            let mut a: usize = 0;
            while a < n
                invariant
                    a <= n,
                    n == sn.values.len(),
                    ts == trees_of(sn.values@),
                    rems.len() == a,
                    forall|b: int| 0 <= b < a ==> #[trigger] rows_of(rems@)[b] == entities(ts[b]),
                decreases n - a,
            {
                let row = entities_exec(&sn.values[a].val);
                let ghost before = rems@;
                rems.push(row);
                assert forall|b: int| 0 <= b < rems.len() implies #[trigger] rows_of(rems@)[b] == entities(
                    ts[b],
                ) by {
                    if b < a {
                        assert(rems@[b] == before[b]);
                        assert(rows_of(before)[b] == entities(ts[b]));
                    }
                }
                a = a + 1;
            }
            assert(rows_of(rems@) =~= Seq::new(ts.len(), |b: int| entities(ts[b])));
            let ents0 = entities_exec(&sn.values[0].val);
            let ghost e0 = ents_of(ents0@);
            let mut common: Vec<SubExpression> = Vec::new();
            let mut j: usize = 0;
            assert(ents_of(common@) =~= Seq::<(bool, Tree)>::empty());
            while j < ents0.len()
                invariant
                    j <= ents0.len(),
                    e0 == ents_of(ents0@),
                    e0 == entities(ts[0]),
                    rems.len() == n,
                    gather(e0, j as int, ents_of(common@), rows_of(rems@)) == common_factors(ts),
                decreases ents0.len() - j,
            {
                let x = &ents0[j];
                assert(e0[j as int] == (x.inverse, x.val@));
                if all_contain(&rems, x) {
                    let ghost rows0 = rows_of(rems@);
                    let ghost c0 = ents_of(common@);
                    remove_from_all(&mut rems, x);
                    common.push(copy_sub(x));
                    assert(ents_of(common@) =~= c0.push(e0[j as int]));
                    assert(rows_of(rems@) =~= Seq::new(rows0.len(), |b: int| remove_first(rows0[b], e0[j as int])));
                }
                j = j + 1;
            }
            let ghost cf = common_factors(ts);
            assert(cf == (ents_of(common@), rows_of(rems@)));
            if common.len() == 0 {
                return None;
            }
            let mut factors: Vec<SubExpression> = Vec::new();
            if common[0].inverse {
                factors.push(SubExpression { inverse: false, val: one_exec() });
            }
            let ghost lead = ents_of(factors@);
            let ghost cv = ents_of(common@);
            let ghost c2 = if cv[0].0 { seq![(false, one())] + cv } else { cv };
            assert(lead + cv =~= c2);
            let mut common = common;
            let ghost oc = common@;
            while common.len() > 0
                invariant
                    common.len() <= oc.len(),
                    ents_of(factors@) == lead + cv.subrange(0, oc.len() - common.len()),
                    common@ == oc.subrange(oc.len() - common.len(), oc.len() as int),
                    cv == ents_of(oc),
                decreases common.len(),
            {
                let ghost k = oc.len() - common.len();
                let s = common.remove(0);
                assert(s == oc[k]);
                let ghost before = ents_of(factors@);
                factors.push(s);
                assert(ents_of(factors@) =~= before.push(cv[k]));
                assert(cv.subrange(0, k + 1) =~= cv.subrange(0, k).push(cv[k]));
                assert(common@ =~= oc.subrange(oc.len() - common.len(), oc.len() as int));
            }
            assert(cv.subrange(0, oc.len() as int) =~= cv);
            let ghost rows = rows_of(rems@);
            let vals = sn.values;
            let mut addends: Vec<SubExpression> = Vec::new();
            let mut a: usize = 0;
            while a < n
                invariant
                    a <= n,
                    n == vals.len(),
                    rows.len() == n,
                    invs == invs_of(vals@),
                    rems.len() == n - a,
                    rows_of(rems@) == rows.subrange(a as int, n as int),
                    addends.len() == a,
                    forall|b: int| 0 <= b < a ==> #[trigger] addends@[b].inverse == vals@[b].inverse,
                    forall|b: int| 0 <= b < a ==> #[trigger] addends@[b].val@ == rebuild(rows[b]),
                decreases n - a,
            {
                assert(rows_of(rems@)[0] == ents_of(rems@[0]@));
                let ghost old_rems = rems@;
                let row = rems.remove(0);
                assert(rems@ =~= old_rems.drop_first());
                assert forall|b: int| 0 <= b < rems.len() implies #[trigger] rows_of(rems@)[b] == rows_of(
                    old_rems,
                )[b + 1] by {}
                assert(rows_of(rems@) =~= rows.subrange(a + 1, n as int));
                let v = rebuild_exec(row);
                addends.push(SubExpression { inverse: vals[a].inverse, val: v });
                a = a + 1;
            }
            let sum = ExprNode { operation: Op::AddSub, values: addends };
            proof {
                lemma_node_view(sum);
                assert(invs_of(sum.values@) =~= invs);
                assert(trees_of(sum.values@) =~= Seq::new(ts.len(), |b: int| rebuild(rows[b])));
            }
            let ghost sum_t = Expression::SubNode(sum)@;
            let ghost fv = factors@;
            factors.push(SubExpression { inverse: false, val: Expression::SubNode(sum) });
            let prod = ExprNode { operation: Op::MulDiv, values: factors };
            proof {
                lemma_node_view(prod);
                assert(invs_of(prod.values@) =~= flags_of(c2).push(false));
                assert(trees_of(prod.values@) =~= factors_of(c2).push(sum_t));
            }
            Some(Expression::SubNode(prod))
        },
        _ => None,
    }
}

} // verus!
