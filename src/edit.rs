//! Copying out and replacing the selected range of an expression.

use vstd::prelude::*;
use crate::expression::{
    ExprNode, Expression, Op, SubExpression, Tree, invs_of, trees_of, lemma_node_view, wf,
};
use crate::selection::{Sel, Selection, child_of, node_at, sel_ok, subtree_at, lemma_sel_ok_step};

verus! {

/// The selected range as a tree of its own: a single sibling by itself (its
/// sign dropped), a range as a chain of the same operator over those
/// siblings.
pub open spec fn extract_spec(t: Tree, s: Sel) -> Tree {
    let n = subtree_at(t, s.path)->0;
    if s.first == s.last {
        child_of(n, s.first as int)->0
    } else {
        match n {
            Tree::Chain(op, invs, ts) => Tree::Chain(
                op,
                invs.subrange(s.first as int, s.last + 1),
                ts.subrange(s.first as int, s.last + 1),
            ),
            _ => n,
        }
    }
}

/// Whether `t` is a chain of operator `op`.
pub open spec fn is_op_chain(t: Tree, op: Op) -> bool {
    match t {
        Tree::Chain(o, _, _) => o == op,
        _ => false,
    }
}

/// Whether replacing siblings `first..=last` of `n` by `new` replaces the
/// node `n` itself: the range is the whole chain, and `new` is no chain of
/// the same operator whose operands could take the range's place.
pub open spec fn replaces_node(n: Tree, first: int, last: int, new: Tree) -> bool {
    match n {
        Tree::Chain(op, _, ts) => first < last && first == 0 && last + 1 == ts.len() && !is_op_chain(new, op),
        _ => false,
    }
}

/// Replacing siblings `first..=last` of the node `n` by `new`: the node
/// after the change, and the last index of the new selection.
///
/// A single sibling is overwritten and keeps its sign; a chain put in its
/// place is not merged into the parent. A range is replaced by the operands
/// of `new` where `new` is a chain of the same operator, and otherwise by
/// one operand with the sign of the range's first sibling. Where that
/// range is the whole chain, `new` takes the place of the chain itself, so
/// that no chain is left with a single operand.
pub open spec fn replace_level(n: Tree, first: int, last: int, new: Tree) -> (Tree, int) {
    match n {
        Tree::Neg(_) => (Tree::Neg(Box::new(new)), last),
        Tree::Chain(op, invs, ts) => if replaces_node(n, first, last, new) {
            (new, last)
        } else if first == last {
            (Tree::Chain(op, invs, ts.update(first, new)), last)
        } else {
            match new {
                Tree::Chain(op2, invs2, ts2) => if op2 == op {
                    (
                        Tree::Chain(
                            op,
                            invs.subrange(0, first) + invs2 + invs.subrange(last + 1, invs.len() as int),
                            ts.subrange(0, first) + ts2 + ts.subrange(last + 1, ts.len() as int),
                        ),
                        first + ts2.len() - 1,
                    )
                } else {
                    (
                        Tree::Chain(
                            op,
                            invs.subrange(0, first) + seq![invs[first]] + invs.subrange(last + 1, invs.len() as int),
                            ts.subrange(0, first) + seq![new] + ts.subrange(last + 1, ts.len() as int),
                        ),
                        first,
                    )
                },
                _ => (
                    Tree::Chain(
                        op,
                        invs.subrange(0, first) + seq![invs[first]] + invs.subrange(last + 1, invs.len() as int),
                        ts.subrange(0, first) + seq![new] + ts.subrange(last + 1, ts.len() as int),
                    ),
                    first,
                ),
            }
        },
        _ => (n, last),
    }
}

/// `t` with the node at `path` changed as `replace_level` says.
pub open spec fn replace_at(t: Tree, path: Seq<usize>, first: int, last: int, new: Tree) -> Tree
    decreases path.len(),
{
    if path.len() == 0 {
        replace_level(t, first, last, new).0
    } else {
        match t {
            Tree::Neg(b) => Tree::Neg(Box::new(replace_at(*b, path.drop_first(), first, last, new))),
            Tree::Chain(op, invs, ts) => if path[0] < ts.len() {
                Tree::Chain(
                    op,
                    invs,
                    ts.update(path[0] as int, replace_at(ts[path[0] as int], path.drop_first(), first, last, new)),
                )
            } else {
                t
            },
            _ => t,
        }
    }
}

/// Where the selection stands after a replacement: on the replaced node
/// itself, in its parent, where the node was replaced whole; otherwise at
/// the same first sibling, up to the last one put in.
pub open spec fn replace_sel(t: Tree, s: Sel, new: Tree) -> Sel {
    let n = subtree_at(t, s.path)->0;
    if replaces_node(n, s.first as int, s.last as int, new) {
        if s.path.len() > 0 {
            Sel { path: s.path.drop_last(), first: s.path.last(), last: s.path.last() }
        } else {
            Sel { path: s.path, first: 0, last: 0 }
        }
    } else {
        Sel {
            path: s.path,
            first: s.first,
            last: replace_level(n, s.first as int, s.last as int, new).1 as usize,
        }
    }
}

/// A copy of the selected range.
pub fn extract_subexpression(e: &Expression, sel: &Selection) -> (r: Expression)
    requires
        sel.valid_in(e@),
    ensures
        r@ == extract_spec(e@, sel@),
{
    let n = node_at(e, &sel.path).unwrap();
    if sel.first == sel.last {
        match n {
            Expression::Negative(b) => (**b).deep_copy(),
            Expression::SubNode(nd) => {
                proof {
                    lemma_node_view(*nd);
                }
                nd.values[sel.first].val.deep_copy()
            },
            _ => {
                assert(false);
                n.deep_copy()
            },
        }
    } else {
        match n {
            Expression::SubNode(nd) => {
                proof {
                    lemma_node_view(*nd);
                }
                let mut values: Vec<SubExpression> = Vec::new();
                let mut i = sel.first;
                while i <= sel.last
                    invariant
                        sel.first <= i <= sel.last + 1,
                        sel.last < nd.values.len(),
                        values.len() == i - sel.first,
                        forall|k: int| 0 <= k < values.len() ==> #[trigger] values@[k].inverse
                            == nd.values@[sel.first + k].inverse,
                        forall|k: int| 0 <= k < values.len() ==> #[trigger] values@[k].val@
                            == nd.values@[sel.first + k].val@,
                    decreases sel.last + 1 - i,
                {
                    values.push(SubExpression { inverse: nd.values[i].inverse, val: nd.values[i].val.deep_copy() });
                    i = i + 1;
                }
                let r = ExprNode { operation: nd.operation, values };
                proof {
                    lemma_node_view(r);
                    assert(invs_of(r.values@) =~= invs_of(nd.values@).subrange(sel.first as int, sel.last + 1));
                    assert(trees_of(r.values@) =~= trees_of(nd.values@).subrange(sel.first as int, sel.last + 1));
                }
                Expression::SubNode(r)
            },
            _ => {
                assert(false);
                n.deep_copy()
            },
        }
    }
}

/// Changes siblings `first..=last` of the chain `n`.
#[verifier::rlimit(60)]
fn replace_in_node(n: &mut ExprNode, sel: &mut Selection, new_e: Expression)
    requires
        old(sel).first <= old(sel).last < old(n).values.len(),
        !replaces_node(Expression::SubNode(*old(n))@, old(sel).first as int, old(sel).last as int, new_e@),
        wf(new_e@),
    ensures
        Expression::SubNode(*final(n))@ == replace_level(
            Expression::SubNode(*old(n))@,
            old(sel).first as int,
            old(sel).last as int,
            new_e@,
        ).0,
        final(sel).path@ == old(sel).path@,
        final(sel).first == old(sel).first,
        final(sel).last as int == replace_level(
            Expression::SubNode(*old(n))@,
            old(sel).first as int,
            old(sel).last as int,
            new_e@,
        ).1,
{
    let ghost new_t = new_e@;
    let f = sel.first;
    let l = sel.last;
    proof {
        lemma_node_view(*n);
    }
    let ghost op = n.operation;
    let ghost ov = n.values@;
    let ghost len = ov.len() as int;
    assert(len <= usize::MAX);
    if f == l {
        let mut item = n.values.remove(f);
        item.val = new_e;
        n.values.insert(f, item);
        proof {
            lemma_node_view(*n);
            assert(invs_of(n.values@) =~= invs_of(ov));
            assert(trees_of(n.values@) =~= trees_of(ov).update(f as int, new_t));
        }
        
    } else {
        let was_inv = n.values[f].inverse;
        let mut k = f;
        while k <= l
            invariant
                f <= k <= l + 1,
                n.operation == op,
                f < l < len,
                len <= usize::MAX,
                len == ov.len(),
                n.values@ == ov.subrange(0, f as int) + ov.subrange(k as int, len),
            decreases l + 1 - k,
        {
            n.values.remove(f);
            k = k + 1;
            assert(n.values@ =~= ov.subrange(0, f as int) + ov.subrange(k as int, len));
        }
        let same = match &new_e {
            Expression::SubNode(src) => src.operation == n.operation,
            _ => false,
        };
        if same {
            match new_e {
            Expression::SubNode(src) => {
                proof {
                    lemma_node_view(src);
                }
                let ghost sv = src.values@;
                let mut src = src;
                let count = src.values.len();
                let mut j: usize = 0;
                while j < count
                    invariant
                        j <= count,
                        n.operation == op,
                        count == sv.len(),
                        src.values@ == sv.subrange(j as int, count as int),
                        f < len,
                        l + 1 <= len,
                        len == ov.len(),
                        n.values@ == ov.subrange(0, f as int) + sv.subrange(0, j as int) + ov.subrange(
                            l + 1,
                            len,
                        ),
                    decreases count - j,
                {
                    let item = src.values.remove(0);
                    assert(n.values.len() >= f + j);
                    n.values.insert(f + j, item);
                    j = j + 1;
                    assert(src.values@ =~= sv.subrange(j as int, count as int));
                    assert(n.values@ =~= ov.subrange(0, f as int) + sv.subrange(0, j as int) + ov.subrange(
                        l + 1,
                        len,
                    ));
                }
                assert(n.values.len() >= f + count);
                sel.last = f + count - 1;
                proof {
                    assert(sv.subrange(0, count as int) =~= sv);
                    lemma_node_view(*n);
                    assert(invs_of(n.values@) =~= invs_of(ov).subrange(0, f as int) + invs_of(sv)
                        + invs_of(ov).subrange(l + 1, len));
                    assert(trees_of(n.values@) =~= trees_of(ov).subrange(0, f as int) + trees_of(sv)
                        + trees_of(ov).subrange(l + 1, len));
                }
            },
            _ => {
                assert(false);
            },
            }
        } else {
            let item = SubExpression { inverse: was_inv, val: new_e };
            n.values.insert(f, item);
            sel.last = f;
            proof {
                lemma_node_view(*n);
                assert(n.values@ =~= ov.subrange(0, f as int) + seq![item] + ov.subrange(l + 1, len));
                assert(invs_of(n.values@) =~= invs_of(ov).subrange(0, f as int) + seq![
                    invs_of(ov)[f as int],
                ] + invs_of(ov).subrange(l + 1, len));
                assert(trees_of(n.values@) =~= trees_of(ov).subrange(0, f as int) + seq![new_t]
                    + trees_of(ov).subrange(l + 1, len));
            }
        }
    }
}

fn is_op_chain_exec(t: &Expression, op: Op) -> (r: bool)
    ensures
        r == is_op_chain(t@, op),
{
    match t {
        Expression::SubNode(n) => {
            proof {
                lemma_node_view(*n);
            }
            n.operation == op
        },
        _ => false,
    }
}

/// Changes the node that `sel`'s path reaches: `e` itself. Says whether
/// `e` was replaced whole; the selection is then left as it was.
fn replace_here(e: &mut Expression, sel: &mut Selection, new_e: Expression) -> (r: bool)
    requires
        sel_ok(old(e)@, Seq::empty(), old(sel).first as int, old(sel).last as int),
        wf(new_e@),
    ensures
        r == replaces_node(old(e)@, old(sel).first as int, old(sel).last as int, new_e@),
        final(e)@ == replace_level(old(e)@, old(sel).first as int, old(sel).last as int, new_e@).0,
        final(sel).path@ == old(sel).path@,
        final(sel).first == old(sel).first,
        final(sel).last as int == if r {
            old(sel).last as int
        } else {
            replace_level(old(e)@, old(sel).first as int, old(sel).last as int, new_e@).1
        },
{
    let f = sel.first;
    let l = sel.last;
    let whole = match &*e {
        Expression::SubNode(n) => {
            proof {
                lemma_node_view(*n);
            }
            f < l && f == 0 && l + 1 == n.values.len() && !is_op_chain_exec(&new_e, n.operation)
        },
        _ => false,
    };
    if whole {
        *e = new_e;
        return true;
    }
    match e {
        Expression::Negative(b) => {
            *b = Box::new(new_e);
        },
        Expression::SubNode(n) => {
            proof {
                lemma_node_view(*n);
            }
            replace_in_node(n, sel, new_e);
        },
        _ => {
            assert(false);
        },
    }
    false
}

fn replace_rec(e: &mut Expression, sel: &mut Selection, depth: usize, new_e: Expression) -> (r: bool)
    requires
        depth <= old(sel).path@.len(),
        sel_ok(
            old(e)@,
            old(sel).path@.skip(depth as int),
            old(sel).first as int,
            old(sel).last as int,
        ),
        wf(new_e@),
    ensures
        final(e)@ == replace_at(
            old(e)@,
            old(sel).path@.skip(depth as int),
            old(sel).first as int,
            old(sel).last as int,
            new_e@,
        ),
        r == replaces_node(
            subtree_at(old(e)@, old(sel).path@.skip(depth as int))->0,
            old(sel).first as int,
            old(sel).last as int,
            new_e@,
        ),
        final(sel).path@ == old(sel).path@,
        final(sel).first == old(sel).first,
        final(sel).last as int == if r {
            old(sel).last as int
        } else {
            replace_level(
                subtree_at(old(e)@, old(sel).path@.skip(depth as int))->0,
                old(sel).first as int,
                old(sel).last as int,
                new_e@,
            ).1
        },
    decreases old(sel).path@.len() - depth,
{
    let ghost rest = sel.path@.skip(depth as int);
    if depth == sel.path.len() {
        assert(rest =~= Seq::<usize>::empty());
        return replace_here(e, sel, new_e);
    }
    let idx = sel.path[depth];
    proof {
        lemma_sel_ok_step(e@, rest, sel.first as int, sel.last as int);
        assert(sel.path@.skip(depth + 1) =~= rest.drop_first());
    }
    match e {
        Expression::Negative(b) => replace_rec(&mut **b, sel, depth + 1, new_e),
        Expression::SubNode(n) => {
            proof {
                lemma_node_view(*n);
            }
            let ghost ov = n.values@;
            let r = replace_rec(&mut n.values[idx].val, sel, depth + 1, new_e);
            proof {
                lemma_node_view(*n);
                assert(invs_of(n.values@) =~= invs_of(ov));
                assert(trees_of(n.values@) =~= trees_of(ov).update(idx as int, n.values@[idx as int].val@));
            }
            r
        },
        _ => {
            assert(false);
            false
        },
    }
}

/// Replaces the selected range by `new_e` and moves the selection to what
/// was put in (see `replace_level` and `replace_sel`). A well-formed tree
/// stays well formed.
pub fn replace_subexpression(e: &mut Expression, sel: &mut Selection, new_e: Expression)
    requires
        old(sel).valid_in(old(e)@),
        wf(new_e@),
    ensures
        final(e)@ == replace_at(
            old(e)@,
            old(sel).path@,
            old(sel).first as int,
            old(sel).last as int,
            new_e@,
        ),
        final(sel)@ == replace_sel(old(e)@, old(sel)@, new_e@),
        wf(old(e)@) ==> wf(final(e)@),
{
    proof {
        if wf(e@) {
            lemma_replace_wf(e@, sel.path@, sel.first as int, sel.last as int, new_e@);
        }
    }
    assert(sel.path@.skip(0) =~= sel.path@);
    let whole = replace_rec(e, sel, 0, new_e);
    if whole {
        match sel.path.pop() {
            Some(k) => {
                sel.first = k;
                sel.last = k;
            },
            None => {
                sel.first = 0;
                sel.last = 0;
            },
        }
    }
    proof {
        assert(sel@.path =~= replace_sel(old(e)@, old(sel)@, new_e@).path);
    }
}

/// Replacing at the level keeps a well-formed tree well formed.
pub proof fn lemma_replace_level_wf(n: Tree, first: int, last: int, new: Tree)
    requires
        wf(n),
        wf(new),
        0 <= first <= last < crate::selection::child_count(n),
    ensures
        wf(replace_level(n, first, last, new).0),
{
    match n {
        Tree::Chain(op, invs, ts) => {
            if replaces_node(n, first, last, new) {
            } else if first == last {
                let r = ts.update(first, new);
                assert forall|i: int| 0 <= i < r.len() implies wf(#[trigger] r[i]) by {
                    if i != first {
                        assert(wf(ts[i]));
                    }
                }
            } else if is_op_chain(new, op) {
                let invs2 = new->Chain_1;
                let ts2 = new->Chain_2;
                let ri = invs.subrange(0, first) + invs2 + invs.subrange(last + 1, invs.len() as int);
                let rt = ts.subrange(0, first) + ts2 + ts.subrange(last + 1, ts.len() as int);
                let a = first;
                let b = first + ts2.len();
                assert forall|i: int| 0 <= i < rt.len() implies wf(#[trigger] rt[i]) by {
                    if i < a {
                        assert(rt[i] == ts[i]);
                    } else if i < b {
                        assert(rt[i] == ts2[i - a]);
                    } else {
                        assert(rt[i] == ts[i - b + last + 1]);
                    }
                }
                if op == Op::Equality || op == Op::ExpRoot {
                    assert forall|i: int| 0 <= i < ri.len() implies !ri[i] by {
                        if i < a {
                            assert(ri[i] == invs[i]);
                        } else if i < b {
                            assert(ri[i] == invs2[i - a]);
                        } else {
                            assert(ri[i] == invs[i - b + last + 1]);
                        }
                    }
                }
            } else {
                let ri = invs.subrange(0, first) + seq![invs[first]] + invs.subrange(last + 1, invs.len() as int);
                let rt = ts.subrange(0, first) + seq![new] + ts.subrange(last + 1, ts.len() as int);
                assert forall|i: int| 0 <= i < rt.len() implies wf(#[trigger] rt[i]) by {
                    if i < first {
                        assert(rt[i] == ts[i]);
                    } else if i == first {
                        assert(rt[i] == new);
                    } else {
                        assert(rt[i] == ts[i - first - 1 + last + 1]);
                    }
                }
                if op == Op::Equality || op == Op::ExpRoot {
                    assert forall|i: int| 0 <= i < ri.len() implies !ri[i] by {
                        if i < first {
                            assert(ri[i] == invs[i]);
                        } else if i == first {
                            assert(ri[i] == invs[first]);
                        } else {
                            assert(ri[i] == invs[i - first - 1 + last + 1]);
                        }
                    }
                }
            }
        },
        _ => {},
    }
}

/// Replacing a valid selection keeps a well-formed tree well formed.
pub proof fn lemma_replace_wf(t: Tree, path: Seq<usize>, first: int, last: int, new: Tree)
    requires
        wf(t),
        wf(new),
        sel_ok(t, path, first, last),
    ensures
        wf(replace_at(t, path, first, last, new)),
    decreases path.len(),
{
    if path.len() == 0 {
        lemma_replace_level_wf(t, first, last, new);
    } else {
        lemma_sel_ok_step(t, path, first, last);
        match t {
            Tree::Neg(b) => {
                lemma_replace_wf(*b, path.drop_first(), first, last, new);
            },
            Tree::Chain(op, invs, ts) => {
                let k = path[0] as int;
                lemma_replace_wf(ts[k], path.drop_first(), first, last, new);
                let r = ts.update(k, replace_at(ts[k], path.drop_first(), first, last, new));
                assert forall|i: int| 0 <= i < r.len() implies wf(#[trigger] r[i]) by {
                    if i != k {
                        assert(wf(ts[i]));
                    }
                }
            },
            _ => {},
        }
    }
}

} // verus!
