//! Rendering an expression back to text with the fewest parentheses the
//! precedence rules allow, optionally marking a selected range.

use vstd::prelude::*;
use crate::expression::{
    Decimal, Expression, Op, Tree, invs_of, trees_of, lemma_node_view, parens_needed, wf, num_wf,
};
use crate::selection::{Selection, sel_ok, lemma_sel_ok_step};

verus! {

pub open spec fn digit_char(d: u8) -> char {
    if d == 0 { '0' }
    else if d == 1 { '1' }
    else if d == 2 { '2' }
    else if d == 3 { '3' }
    else if d == 4 { '4' }
    else if d == 5 { '5' }
    else if d == 6 { '6' }
    else if d == 7 { '7' }
    else if d == 8 { '8' }
    else { '9' }
}

pub open spec fn digits_text(d: Seq<u8>) -> Seq<char> {
    Seq::new(d.len(), |i: int| digit_char(d[i]))
}

/// A decimal as text: `0` for an empty whole part, and the point only where
/// there are digits after it.
pub open spec fn num_text(w: Seq<u8>, f: Seq<u8>) -> Seq<char> {
    (if w.len() == 0 { seq!['0'] } else { digits_text(w) }) + (if f.len() == 0 {
        Seq::empty()
    } else {
        seq!['.'] + digits_text(f)
    })
}

/// The operator character written before an operand of a chain.
pub open spec fn op_char(op: Op, inv: bool) -> char {
    match op {
        Op::AddSub => if inv { '-' } else { '+' },
        Op::MulDiv => if inv { '/' } else { '*' },
        Op::ExpRoot => '^',
        Op::Equality => '=',
    }
}

/// What precedes operand `i` of a chain: nothing for the first one.
pub open spec fn sep(op: Op, invs: Seq<bool>, i: int) -> Seq<char> {
    if i == 0 { Seq::empty() } else { seq![op_char(op, invs[i])] }
}

pub open spec fn is_atom(t: Tree) -> bool {
    t is Num || t is Var
}

/// The text of a tree.
pub open spec fn render(t: Tree) -> Seq<char>
    decreases t, 0int,
{
    match t {
        Tree::Neg(b) => if is_atom(*b) {
            seq!['-'] + render(*b)
        } else {
            seq!['-', '('] + render(*b) + seq![')']
        },
        Tree::Chain(op, invs, ts) => pieces(op, invs, ts).flatten(),
        Tree::Num(w, f) => num_text(w, f),
        Tree::Var(n) => n,
    }
}

/// An operand's text, in parentheses where `op` needs them.
pub open spec fn wrapped(t: Tree, op: Op) -> Seq<char>
    decreases t, 1int,
{
    if parens_needed(t, op) {
        seq!['('] + render(t) + seq![')']
    } else {
        render(t)
    }
}

/// The text of a chain, operand by operand, each with its operator.
pub open spec fn pieces(op: Op, invs: Seq<bool>, ts: Seq<Tree>) -> Seq<Seq<char>>
    decreases ts, 2int,
{
    Seq::new(
        ts.len(),
        |i: int|
            if 0 <= i < ts.len() {
                sep(op, invs, i) + wrapped(ts[i], op)
            } else {
                Seq::empty()
            },
    )
}

/// Where the text of operand `k` (with its operator) starts.
pub open spec fn offset(op: Op, invs: Seq<bool>, ts: Seq<Tree>, k: int) -> int {
    pieces(op, invs, ts).take(k).flatten().len() as int
}

/// Where the highlighted range starts and ends in the text of `t`, for the
/// selection of siblings `first..=last` at the level that `path` reaches.
pub open spec fn span(t: Tree, path: Seq<usize>, first: int, last: int) -> (int, int)
    decreases path.len(),
{
    match t {
        Tree::Neg(b) => if path.len() == 0 {
            (1, render(t).len() as int)
        } else {
            let pre: int = if is_atom(*b) { 1 } else { 2 };
            let r = span(*b, path.drop_first(), first, last);
            (pre + r.0, pre + r.1)
        },
        Tree::Chain(op, invs, ts) => if path.len() == 0 {
            (offset(op, invs, ts, first) + sep(op, invs, first).len(), offset(op, invs, ts, last + 1))
        } else {
            let k = path[0] as int;
            let pre: int = offset(op, invs, ts, k) + sep(op, invs, k).len() + if parens_needed(
                ts[k],
                op,
            ) {
                1int
            } else {
                0int
            };
            let r = span(ts[k], path.drop_first(), first, last);
            (pre + r.0, pre + r.1)
        },
        _ => (0, 0),
    }
}

/// The text of `t` cut in three around the selected range.
pub open spec fn split_text(t: Tree, path: Seq<usize>, first: int, last: int) -> (
    Seq<char>,
    Seq<char>,
    Seq<char>,
) {
    let r = render(t);
    let s = span(t, path, first, last);
    (r.subrange(0, s.0), r.subrange(s.0, s.1), r.subrange(s.1, r.len() as int))
}

/// Relies on `String`'s `FromIterator<&char>` (through `collect`): the string
/// holds the given characters, in order.
#[verifier::external_body]
pub(crate) fn string_of(chars: &Vec<char>) -> (r: String)
    ensures
        r@ == chars@,
{
    chars.iter().collect()
}

/// Output split in three buffers: text before the highlight, the highlighted
/// text, and text after it. `cur_buf` says which one receives output.
pub struct RenderSink {
    pub cur_buf: usize,
    pub before: Vec<char>,
    pub highlighted: Vec<char>,
    pub after: Vec<char>,
}

impl RenderSink {
    /// Output moves forward only: nothing lands in a later buffer before the
    /// sink has moved to it.
    pub open spec fn wf(&self) -> bool {
        &&& self.cur_buf <= 2
        &&& self.cur_buf == 0 ==> self.highlighted@.len() == 0 && self.after@.len() == 0
        &&& self.cur_buf == 1 ==> self.after@.len() == 0
    }

    /// Everything written so far.
    pub open spec fn text(&self) -> Seq<char> {
        self.before@ + self.highlighted@ + self.after@
    }

    /// `self` is `old` with `s` appended to the current buffer.
    pub open spec fn appended(&self, old: RenderSink, s: Seq<char>) -> bool {
        &&& self.cur_buf == old.cur_buf
        &&& self.before@ == if old.cur_buf == 0 { old.before@ + s } else { old.before@ }
        &&& self.highlighted@ == if old.cur_buf == 1 { old.highlighted@ + s } else { old.highlighted@ }
        &&& self.after@ == if old.cur_buf == 2 { old.after@ + s } else { old.after@ }
    }

    pub fn new() -> (r: RenderSink)
        ensures
            r.wf(),
            r.cur_buf == 0,
            r.text().len() == 0,
    {
        RenderSink { cur_buf: 0, before: Vec::new(), highlighted: Vec::new(), after: Vec::new() }
    }

    pub fn put_char(&mut self, c: char)
        requires
            old(self).wf(),
        ensures
            final(self).wf(),
            final(self).appended(*old(self), seq![c]),
    {
        if self.cur_buf == 0 {
            self.before.push(c);
        } else if self.cur_buf == 1 {
            self.highlighted.push(c);
        } else {
            self.after.push(c);
        }
        assert(old(self).before@.push(c) =~= old(self).before@ + seq![c]);
        assert(old(self).highlighted@.push(c) =~= old(self).highlighted@ + seq![c]);
        assert(old(self).after@.push(c) =~= old(self).after@ + seq![c]);
    }

    /// Append `v` to the current buffer.
    pub fn put(&mut self, v: &str)
        requires
            old(self).wf(),
        ensures
            final(self).wf(),
            final(self).appended(*old(self), v@),
    {
        let n = v.unicode_len();
        let mut i: usize = 0;
        while i < n
            invariant
                n == v@.len(),
                i <= n,
                self.wf(),
                self.appended(*old(self), v@.subrange(0, i as int)),
            decreases n - i,
        {
            let c = v.get_char(i);
            self.put_char(c);
            i = i + 1;
            assert(v@.subrange(0, i as int) =~= v@.subrange(0, i - 1) + seq![c]);
            assert(old(self).before@ + v@.subrange(0, i - 1) + seq![c] =~= old(self).before@ + v@.subrange(0, i as int));
            assert(old(self).highlighted@ + v@.subrange(0, i - 1) + seq![c] =~= old(self).highlighted@ + v@.subrange(0, i as int));
            assert(old(self).after@ + v@.subrange(0, i - 1) + seq![c] =~= old(self).after@ + v@.subrange(0, i as int));
        }
        assert(v@.subrange(0, n as int) =~= v@);
    }

    pub fn hilight_active(&self) -> (r: bool)
        ensures
            r == (self.cur_buf == 1),
    {
        self.cur_buf == 1
    }

    pub fn start_hilight(&mut self)
        requires
            old(self).wf(),
            old(self).cur_buf == 0,
        ensures
            final(self).wf(),
            final(self).cur_buf == 1,
            final(self).before@ == old(self).before@,
            final(self).highlighted@ == old(self).highlighted@,
            final(self).after@ == old(self).after@,
    {
        self.cur_buf = 1;
    }

    pub fn end_hilight(&mut self)
        requires
            old(self).wf(),
            old(self).cur_buf == 1,
        ensures
            final(self).wf(),
            final(self).cur_buf == 2,
            final(self).before@ == old(self).before@,
            final(self).highlighted@ == old(self).highlighted@,
            final(self).after@ == old(self).after@,
    {
        self.cur_buf = 2;
    }
}

/// `after` is `before` with `s` written and the range `from..to` of `s`
/// highlighted.
pub open spec fn marked(after: RenderSink, before: RenderSink, s: Seq<char>, from: int, to: int) -> bool {
    &&& after.wf()
    &&& after.cur_buf == 2
    &&& after.text() == before.text() + s
    &&& after.before@.len() == before.text().len() + from
    &&& after.before@.len() + after.highlighted@.len() == before.text().len() + to
}

pub proof fn lemma_appended_trans(a: RenderSink, b: RenderSink, c: RenderSink, s1: Seq<char>, s2: Seq<char>)
    requires
        b.appended(a, s1),
        c.appended(b, s2),
    ensures
        c.appended(a, s1 + s2),
{
    assert(a.before@ + s1 + s2 =~= a.before@ + (s1 + s2));
    assert(a.highlighted@ + s1 + s2 =~= a.highlighted@ + (s1 + s2));
    assert(a.after@ + s1 + s2 =~= a.after@ + (s1 + s2));
}

pub proof fn lemma_appended_text(a: RenderSink, b: RenderSink, s: Seq<char>)
    requires
        a.wf(),
        b.appended(a, s),
    ensures
        b.wf(),
        b.text() == a.text() + s,
{
    assert(b.text() =~= a.text() + s);
}

pub proof fn lemma_take_flatten(p: Seq<Seq<char>>, i: int)
    requires
        0 <= i < p.len(),
    ensures
        p.take(i + 1).flatten() == p.take(i).flatten() + p[i],
{
    assert(p.take(i + 1) =~= p.take(i).push(p[i]));
    p.take(i).lemma_flatten_push(p[i]);
}

fn digit_char_exec(d: u8) -> (c: char)
    ensures
        c == digit_char(d),
{
    if d == 0 { '0' }
    else if d == 1 { '1' }
    else if d == 2 { '2' }
    else if d == 3 { '3' }
    else if d == 4 { '4' }
    else if d == 5 { '5' }
    else if d == 6 { '6' }
    else if d == 7 { '7' }
    else if d == 8 { '8' }
    else { '9' }
}

fn op_char_exec(op: Op, inv: bool) -> (c: char)
    ensures
        c == op_char(op, inv),
{
    match op {
        Op::AddSub => if inv { '-' } else { '+' },
        Op::MulDiv => if inv { '/' } else { '*' },
        Op::ExpRoot => '^',
        Op::Equality => '=',
    }
}

fn put_digits(sink: &mut RenderSink, d: &Vec<u8>)
    requires
        old(sink).wf(),
    ensures
        final(sink).wf(),
        final(sink).appended(*old(sink), digits_text(d@)),
{
    let mut i: usize = 0;
    while i < d.len()
        invariant
            i <= d.len(),
            sink.wf(),
            sink.appended(*old(sink), digits_text(d@).take(i as int)),
        decreases d.len() - i,
    {
        let ghost mid = *sink;
        let c = digit_char_exec(d[i]);
        sink.put_char(c);
        proof {
            lemma_appended_trans(*old(sink), mid, *sink, digits_text(d@).take(i as int), seq![c]);
            assert(digits_text(d@).take(i as int) + seq![c] =~= digits_text(d@).take(i + 1));
        }
        i = i + 1;
    }
    assert(digits_text(d@).take(i as int) =~= digits_text(d@));
}

fn put_num(sink: &mut RenderSink, n: &Decimal)
    requires
        old(sink).wf(),
    ensures
        final(sink).wf(),
        final(sink).appended(*old(sink), num_text(n.whole@, n.frac@)),
{
    let ghost s0 = *sink;
    let ghost w = n.whole@;
    let ghost f = n.frac@;
    let ghost whole_text = if w.len() == 0 { seq!['0'] } else { digits_text(w) };
    if n.whole.len() == 0 {
        sink.put_char('0');
    } else {
        put_digits(sink, &n.whole);
    }
    if n.frac.len() == 0 {
        assert(whole_text + Seq::<char>::empty() =~= whole_text);
    } else {
        let ghost s1 = *sink;
        sink.put_char('.');
        let ghost s2 = *sink;
        put_digits(sink, &n.frac);
        proof {
            lemma_appended_trans(s1, s2, *sink, seq!['.'], digits_text(f));
            lemma_appended_trans(s0, s1, *sink, whole_text, seq!['.'] + digits_text(f));
        }
    }
}

pub proof fn lemma_sel_ok_step_neg(t: Tree, path: Seq<usize>, first: int, last: int)
    requires
        t is Neg,
        path.len() > 0,
        sel_ok(t, path, first, last),
    ensures
        path[0] == 0,
        sel_ok(*(t->Neg_0), path.drop_first(), first, last),
{
}

pub proof fn lemma_piece_text(
    s0: Seq<char>,
    t0: Seq<char>,
    t1: Seq<char>,
    t2: Seq<char>,
    t3: Seq<char>,
    prev: Seq<char>,
    sep_text: Seq<char>,
    w: Seq<char>,
)
    requires
        t0 == s0 + prev,
        t1 == t0 + sep_text,
        t2 == t1,
        t3 == t2 + w,
    ensures
        t3 == s0 + (prev + (sep_text + w)),
{
    assert(t3 =~= s0 + (prev + (sep_text + w)));
}

/// `s` in parentheses, or `s` itself.
pub open spec fn paren_wrap(s: Seq<char>, parens: bool) -> Seq<char> {
    if parens { seq!['('] + s + seq![')'] } else { s }
}

/// Writes `e` to `sink`, in parentheses where `parens` holds. `on_path` is
/// as for `emit`.
#[verifier::rlimit(40)]
fn emit_operand(sink: &mut RenderSink, e: &Expression, parens: bool, sel: &Selection, depth: usize, on_path: bool)
    requires
        old(sink).wf(),
        on_path ==> depth <= sel.path@.len(),
        on_path ==> old(sink).cur_buf == 0,
        on_path ==> sel_ok(e@, sel.path@.skip(depth as int), sel.first as int, sel.last as int),
    ensures
        final(sink).wf(),
        on_path ==> marked(
            *final(sink),
            *old(sink),
            paren_wrap(render(e@), parens),
            span(e@, sel.path@.skip(depth as int), sel.first as int, sel.last as int).0 + if parens { 1int } else { 0int },
            span(e@, sel.path@.skip(depth as int), sel.first as int, sel.last as int).1 + if parens { 1int } else { 0int },
        ),
        !on_path ==> final(sink).appended(*old(sink), paren_wrap(render(e@), parens)),
    decreases e, 1int,
{
    let ghost s0 = *sink;
    if parens {
        sink.put_char('(');
    }
    let ghost s1 = *sink;
    let ghost open_text: Seq<char> = if parens { seq!['('] } else { Seq::empty() };
    assert(s1.appended(s0, open_text)) by {
        if !parens {
            assert(s0.before@ + open_text =~= s0.before@);
            assert(s0.highlighted@ + open_text =~= s0.highlighted@);
            assert(s0.after@ + open_text =~= s0.after@);
        }
    }
    emit(sink, e, sel, depth, on_path);
    let ghost s2 = *sink;
    if parens {
        sink.put_char(')');
    }
    let ghost s3 = *sink;
    let ghost close_text: Seq<char> = if parens { seq![')'] } else { Seq::empty() };
    assert(s3.appended(s2, close_text)) by {
        if !parens {
            assert(s2.before@ + close_text =~= s2.before@);
            assert(s2.highlighted@ + close_text =~= s2.highlighted@);
            assert(s2.after@ + close_text =~= s2.after@);
        }
    }
    proof {
        let body = render(e@);
        assert(paren_wrap(body, parens) =~= open_text + body + close_text);
        if on_path {
            lemma_appended_text(s0, s1, open_text);
            lemma_appended_text(s2, s3, close_text);
            assert(s3.text() =~= s0.text() + (open_text + body + close_text));
        } else {
            lemma_appended_trans(s0, s1, s2, open_text, body);
            lemma_appended_trans(s0, s2, s3, open_text + body, close_text);
        }
    }
}

/// Writes `e` to `sink`. Where `on_path` holds, `e` is the node that the
/// first `depth` elements of the selection's path reach, and the selected
/// range inside it is highlighted.
#[verifier::rlimit(60)]
fn emit(sink: &mut RenderSink, e: &Expression, sel: &Selection, depth: usize, on_path: bool)
    requires
        old(sink).wf(),
        on_path ==> depth <= sel.path@.len(),
        on_path ==> old(sink).cur_buf == 0,
        on_path ==> sel_ok(e@, sel.path@.skip(depth as int), sel.first as int, sel.last as int),
    ensures
        final(sink).wf(),
        on_path ==> marked(
            *final(sink),
            *old(sink),
            render(e@),
            span(e@, sel.path@.skip(depth as int), sel.first as int, sel.last as int).0,
            span(e@, sel.path@.skip(depth as int), sel.first as int, sel.last as int).1,
        ),
        !on_path ==> final(sink).appended(*old(sink), render(e@)),
    decreases e, 0int,
{
    let ghost s0 = *sink;
    let ghost rest = sel.path@.skip(depth as int);
    let ghost f = sel.first as int;
    let ghost l = sel.last as int;
    let at_level = on_path && depth == sel.path.len();
    let deeper = on_path && depth < sel.path.len();
    match e {
        Expression::Negative(inner) => {
            let ghost b = (**inner)@;
            let parens = match **inner {
                Expression::Literal(_) | Expression::Variable(_) => false,
                _ => true,
            };
            assert(parens == !is_atom(b));
            sink.put_char('-');
            let ghost s1 = *sink;
            if at_level {
                sink.start_hilight();
            }
            let ghost s2 = *sink;
            if deeper {
                proof {
                    lemma_sel_ok_step_neg(e@, rest, f, l);
                    assert(sel.path@.skip(depth + 1) =~= rest.drop_first());
                }
                emit_operand(sink, inner, parens, sel, depth + 1, true);
            } else {
                emit_operand(sink, inner, parens, sel, depth, false);
            }
            let ghost s3 = *sink;
            if at_level {
                sink.end_hilight();
            }
            proof {
                let w = paren_wrap(render(b), parens);
                assert(render(e@) =~= seq!['-'] + w);
                lemma_appended_text(s0, s1, seq!['-']);
                if !on_path {
                    lemma_appended_trans(s0, s1, s3, seq!['-'], w);
                } else if at_level {
                    lemma_appended_text(s2, s3, w);
                    assert(sink.text() =~= s0.text() + render(e@));
                } else {
                    assert(sink.text() =~= s0.text() + render(e@));
                }
            }
        },
        Expression::SubNode(n) => {
            proof {
                lemma_node_view(*n);
            }
            let ghost op = n.operation;
            let ghost invs = invs_of(n.values@);
            let ghost ts = trees_of(n.values@);
            let ghost p = pieces(op, invs, ts);
            let k: usize = if deeper { sel.path[depth] } else { 0 };
            proof {
                if deeper {
                    lemma_sel_ok_step(e@, rest, f, l);
                }
            }
            let ghost a0 = span(e@, rest, f, l).0;
            let ghost a1 = span(e@, rest, f, l).1;
            let ghost base = s0.text().len() as int;
            proof {
                if at_level {
                    assert(rest.len() == 0);
                    assert(a0 == offset(op, invs, ts, f) + sep(op, invs, f).len());
                    assert(a1 == offset(op, invs, ts, l + 1));
                }
            }
            let mut i: usize = 0;
            while i < n.values.len()
                invariant
                    *e == Expression::SubNode(*n),
                    e@ == Tree::Chain(op, invs, ts),
                    op == n.operation,
                    ts.len() == n.values.len(),
                    invs.len() == n.values.len(),
                    forall|j: int| 0 <= j < ts.len() ==> #[trigger] ts[j] == n.values@[j].val@,
                    forall|j: int| 0 <= j < ts.len() ==> #[trigger] invs[j] == n.values@[j].inverse,
                    p == pieces(op, invs, ts),
                    rest == sel.path@.skip(depth as int),
                    f == sel.first as int,
                    l == sel.last as int,
                    s0.wf(),
                    at_level == (on_path && depth == sel.path.len()),
                    deeper == (on_path && depth < sel.path.len()),
                    on_path ==> s0.cur_buf == 0,
                    at_level ==> 0 <= f <= l < ts.len(),
                    deeper ==> rest.len() > 0 && k == rest[0] && k < ts.len(),
                    deeper ==> sel_ok(ts[k as int], rest.drop_first(), f, l),
                    deeper ==> depth < sel.path@.len(),
                    i <= n.values.len(),
                    sink.wf(),
                    sink.text() == s0.text() + p.take(i as int).flatten(),
                    !on_path ==> sink.appended(s0, p.take(i as int).flatten()),
                    at_level && i <= f ==> sink.cur_buf == 0,
                    deeper && i <= k ==> sink.cur_buf == 0,
                    base == s0.text().len(),
                    at_level ==> a0 == offset(op, invs, ts, f) + sep(op, invs, f).len(),
                    at_level ==> a1 == offset(op, invs, ts, l + 1),
                    deeper ==> a0 == offset(op, invs, ts, k as int) + sep(op, invs, k as int).len()
                        + (if parens_needed(ts[k as int], op) { 1int } else { 0int })
                        + span(ts[k as int], rest.drop_first(), f, l).0,
                    deeper ==> a1 == offset(op, invs, ts, k as int) + sep(op, invs, k as int).len()
                        + (if parens_needed(ts[k as int], op) { 1int } else { 0int })
                        + span(ts[k as int], rest.drop_first(), f, l).1,
                    at_level && f < i <= l ==> sink.cur_buf == 1 && sink.before@.len() == base + a0,
                    at_level && l < i ==> sink.cur_buf == 2 && sink.before@.len() == base + a0
                        && sink.before@.len() + sink.highlighted@.len() == base + a1,
                    deeper && k < i ==> sink.cur_buf == 2 && sink.before@.len() == base + a0
                        && sink.before@.len() + sink.highlighted@.len() == base + a1,
                decreases n.values.len() - i,
            {
                let ghost t0 = *sink;
                let ghost sep_text = sep(op, invs, i as int);
                if i > 0 {
                    let c = op_char_exec(n.operation, n.values[i].inverse);
                    sink.put_char(c);
                } else {
                    assert(t0.before@ + sep_text =~= t0.before@);
                    assert(t0.highlighted@ + sep_text =~= t0.highlighted@);
                    assert(t0.after@ + sep_text =~= t0.after@);
                }
                let ghost t1 = *sink;
                assert(t1.appended(t0, sep_text));
                if at_level && i == sel.first {
                    sink.start_hilight();
                }
                let ghost t2 = *sink;
                let child = &n.values[i].val;
                let parens = child.needs_parens(n.operation);
                let child_on = deeper && i == k;
                if child_on {
                    proof {
                        assert(sel.path@.skip(depth + 1) =~= rest.drop_first());
                    }
                    emit_operand(sink, child, parens, sel, depth + 1, true);
                } else {
                    emit_operand(sink, child, parens, sel, depth, false);
                }
                let ghost t3 = *sink;
                if at_level && i == sel.last {
                    sink.end_hilight();
                }
                proof {
                    let prev = p.take(i as int).flatten();
                    let w = wrapped(ts[i as int], op);
                    assert(w == paren_wrap(render(ts[i as int]), parens));
                    assert(p[i as int] == sep_text + w);
                    lemma_take_flatten(p, i as int);
                    lemma_appended_text(t0, t1, sep_text);
                    if !child_on {
                        lemma_appended_text(t2, t3, w);
                    }
                    if !on_path {
                        lemma_appended_trans(t0, t1, t3, sep_text, w);
                        lemma_appended_trans(s0, t0, t3, prev, sep_text + w);
                    }
                    lemma_piece_text(s0.text(), t0.text(), t1.text(), t2.text(), t3.text(), prev, sep_text, w);
                }
                i = i + 1;
            }
            proof {
                assert(p.take(i as int) =~= p);
            }
        },
        Expression::Literal(d) => {
            put_num(sink, d);
        },
        Expression::Variable(name) => {
            sink.put(name.as_str());
        },
    }
}

impl Expression {
    /// The text of this expression, with the fewest parentheses that the
    /// precedence rules allow.
    pub fn render(&self) -> (r: String)
        ensures
            r@ == render(self@),
    {
        let mut sink = RenderSink::new();
        let none = Selection { path: Vec::new(), first: 0, last: 0 };
        emit(&mut sink, self, &none, 0, false);
        assert(sink.before@ =~= render(self@));
        string_of(&sink.before)
    }
}

/// The text of `e` in three parts: before the selected range, the range
/// itself, and after it.
pub fn split_expression(e: &Expression, sel: &Selection) -> (r: (String, String, String))
    requires
        sel.valid_in(e@),
    ensures
        (r.0@, r.1@, r.2@) == split_text(e@, sel.path@, sel.first as int, sel.last as int),
{
    let mut sink = RenderSink::new();
    assert(sel.path@.skip(0) =~= sel.path@);
    emit(&mut sink, e, sel, 0, true);
    let ghost t = render(e@);
    let ghost sp = span(e@, sel.path@, sel.first as int, sel.last as int);
    assert(sink.text() == t);
    assert(sink.before@ =~= t.subrange(0, sp.0));
    assert(sink.highlighted@ =~= t.subrange(sp.0, sp.1));
    assert(sink.after@ =~= t.subrange(sp.1, t.len() as int));
    (string_of(&sink.before), string_of(&sink.highlighted), string_of(&sink.after))
}

/// Every well-formed tree has a non-empty text.
pub proof fn lemma_render_nonempty(t: Tree)
    requires
        wf(t),
    ensures
        render(t).len() > 0,
    decreases t,
{
    match t {
        Tree::Chain(op, invs, ts) => {
            let p = pieces(op, invs, ts);
            lemma_render_nonempty(ts[0]);
            assert(p[0] == sep(op, invs, 0) + wrapped(ts[0], op));
            p.lemma_flatten_length_ge_single_element_length(0);
        },
        _ => {},
    }
}

/// Offsets into a chain's text grow with the operand index.
pub proof fn lemma_offset_mono(p: Seq<Seq<char>>, a: int, b: int)
    requires
        0 <= a <= b <= p.len(),
    ensures
        p.take(a).flatten().len() <= p.take(b).flatten().len(),
    decreases b - a,
{
    if a < b {
        lemma_offset_mono(p, a, b - 1);
        lemma_take_flatten(p, b - 1);
    }
}

/// The highlighted range lies inside the text and is not empty.
pub proof fn lemma_span_bounds(t: Tree, path: Seq<usize>, first: int, last: int)
    requires
        wf(t),
        sel_ok(t, path, first, last),
    ensures
        0 <= span(t, path, first, last).0 < span(t, path, first, last).1 <= render(t).len(),
    decreases path.len(),
{
    match t {
        Tree::Neg(b) => {
            lemma_render_nonempty(*b);
            if path.len() > 0 {
                lemma_sel_ok_step_neg(t, path, first, last);
                lemma_span_bounds(*b, path.drop_first(), first, last);
            }
        },
        Tree::Chain(op, invs, ts) => {
            let p = pieces(op, invs, ts);
            assert(p.take(ts.len() as int) =~= p);
            if path.len() == 0 {
                lemma_take_flatten(p, first);
                lemma_render_nonempty(ts[first]);
                lemma_offset_mono(p, first + 1, last + 1);
                lemma_offset_mono(p, last + 1, ts.len() as int);
            } else {
                let k = path[0] as int;
                lemma_sel_ok_step(t, path, first, last);
                lemma_span_bounds(ts[k], path.drop_first(), first, last);
                lemma_take_flatten(p, k);
                lemma_offset_mono(p, k + 1, ts.len() as int);
            }
        },
        _ => {},
    }
}

/// Highlight completeness: for a well-formed tree and a valid selection, the
/// three parts put together give the plain text, and the highlighted part is
/// not empty.
pub proof fn lemma_split_complete(t: Tree, path: Seq<usize>, first: int, last: int)
    requires
        wf(t),
        sel_ok(t, path, first, last),
    ensures
        split_text(t, path, first, last).0 + split_text(t, path, first, last).1 + split_text(
            t,
            path,
            first,
            last,
        ).2 == render(t),
        split_text(t, path, first, last).1.len() > 0,
{
    lemma_span_bounds(t, path, first, last);
    let r = render(t);
    let sp = span(t, path, first, last);
    assert(r.subrange(0, sp.0) + r.subrange(sp.0, sp.1) + r.subrange(sp.1, r.len() as int) =~= r);
}

} // verus!
