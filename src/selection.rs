//! A path-addressed selection of a range of siblings in an expression tree,
//! and the navigation commands that move it.

use vstd::prelude::*;
use crate::expression::{Expression, Tree, lemma_node_view, trees_of};

verus! {

/// A range `first..=last` of siblings at the level that `path` reaches from
/// the root: each element of `path` picks one child on the way down.
#[derive(Debug, Clone)]
pub struct Selection {
    pub path: Vec<usize>,
    pub first: usize,
    pub last: usize,
}

/// The model of a selection.
pub struct Sel {
    pub path: Seq<usize>,
    pub first: usize,
    pub last: usize,
}

impl View for Selection {
    type V = Sel;

    open spec fn view(&self) -> Sel {
        Sel { path: self.path@, first: self.first, last: self.last }
    }
}

impl Selection {
    /// Whether this selection addresses existing siblings of `t`.
    pub open spec fn valid_in(&self, t: Tree) -> bool {
        sel_ok(t, self.path@, self.first as int, self.last as int)
    }
}

pub open spec fn valid(t: Tree, s: Sel) -> bool {
    sel_ok(t, s.path, s.first as int, s.last as int)
}

/// The selection a new line starts with: the first child of the root.
pub open spec fn initial() -> Sel {
    Sel { path: Seq::empty(), first: 0, last: 0 }
}

/// Ascend: the node the path leads to becomes the selection at its parent.
pub open spec fn move_out_spec(s: Sel) -> (Sel, bool) {
    if s.path.len() == 0 {
        (s, false)
    } else {
        (Sel { path: s.path.drop_last(), first: s.path.last(), last: s.path.last() }, true)
    }
}

/// Descend: a range first narrows to its first sibling; a single sibling
/// with children becomes the level, with its first child selected.
pub open spec fn move_in_spec(t: Tree, s: Sel) -> (Sel, bool) {
    if s.first != s.last {
        (Sel { path: s.path, first: s.first, last: s.first }, true)
    } else {
        match subtree_at(t, s.path) {
            Some(n) => match child_of(n, s.first as int) {
                Some(c) => if child_count(c) > 0 {
                    (Sel { path: s.path.push(s.first), first: 0, last: 0 }, true)
                } else {
                    (s, false)
                },
                None => (s, false),
            },
            None => (s, false),
        }
    }
}

/// One sibling to the right, as a single selection; at the right end the
/// range still collapses to its first sibling.
pub open spec fn shift_right_spec(t: Tree, s: Sel) -> (Sel, bool) {
    match level_size(t, s.path) {
        Some(n) => if s.first + 1 < n && s.first < usize::MAX {
            (Sel { path: s.path, first: (s.first + 1) as usize, last: (s.first + 1) as usize }, true)
        } else {
            (Sel { path: s.path, first: s.first, last: s.first }, false)
        },
        None => (Sel { path: s.path, first: s.first, last: s.first }, false),
    }
}

/// One sibling to the left, as a single selection; at the left end the
/// range still collapses to its first sibling.
pub open spec fn shift_left_spec(s: Sel) -> (Sel, bool) {
    if s.first > 0 {
        (Sel { path: s.path, first: (s.first - 1) as usize, last: (s.first - 1) as usize }, true)
    } else {
        (Sel { path: s.path, first: s.first, last: s.first }, false)
    }
}

/// The range grows by one sibling on the right.
pub open spec fn expand_right_spec(t: Tree, s: Sel) -> (Sel, bool) {
    match level_size(t, s.path) {
        Some(n) => if s.last + 1 < n && s.last < usize::MAX {
            (Sel { path: s.path, first: s.first, last: (s.last + 1) as usize }, true)
        } else {
            (s, false)
        },
        None => (s, false),
    }
}

/// The range grows by one sibling on the left.
pub open spec fn expand_left_spec(s: Sel) -> (Sel, bool) {
    if s.first > 0 {
        (Sel { path: s.path, first: (s.first - 1) as usize, last: s.last }, true)
    } else {
        (s, false)
    }
}

/// The range loses its rightmost sibling.
pub open spec fn shrink_right_spec(s: Sel) -> (Sel, bool) {
    if s.last > s.first {
        (Sel { path: s.path, first: s.first, last: (s.last - 1) as usize }, true)
    } else {
        (s, false)
    }
}

/// The range loses its leftmost sibling.
pub open spec fn shrink_left_spec(s: Sel) -> (Sel, bool) {
    if s.first < s.last {
        (Sel { path: s.path, first: (s.first + 1) as usize, last: s.last }, true)
    } else {
        (s, false)
    }
}

/// The navigation commands.
pub enum Nav {
    MoveOut,
    MoveIn,
    ShiftRight,
    ShiftLeft,
    ExpandRight,
    ExpandLeft,
    ShrinkRight,
    ShrinkLeft,
}

/// One navigation command applied to `s`.
pub open spec fn step(t: Tree, s: Sel, c: Nav) -> Sel {
    match c {
        Nav::MoveOut => move_out_spec(s).0,
        Nav::MoveIn => move_in_spec(t, s).0,
        Nav::ShiftRight => shift_right_spec(t, s).0,
        Nav::ShiftLeft => shift_left_spec(s).0,
        Nav::ExpandRight => expand_right_spec(t, s).0,
        Nav::ExpandLeft => expand_left_spec(s).0,
        Nav::ShrinkRight => shrink_right_spec(s).0,
        Nav::ShrinkLeft => shrink_left_spec(s).0,
    }
}

/// The commands applied one after the other.
pub open spec fn run(t: Tree, s: Sel, cs: Seq<Nav>) -> Sel
    decreases cs.len(),
{
    if cs.len() == 0 {
        s
    } else {
        run(t, step(t, s, cs[0]), cs.drop_first())
    }
}

pub proof fn lemma_subtree_push(t: Tree, path: Seq<usize>, i: usize)
    requires
        subtree_at(t, path) is Some,
    ensures
        subtree_at(t, path.push(i)) == match child_of(subtree_at(t, path)->0, i as int) {
            Some(c) => Some(c),
            None => None::<Tree>,
        },
    decreases path.len(),
{
    lemma_subtree_prefix_eq(t, path, i);
}

/// Every command keeps a valid selection valid.
pub proof fn lemma_step_valid(t: Tree, s: Sel, c: Nav)
    requires
        valid(t, s),
    ensures
        valid(t, step(t, s, c)),
{
    match c {
        Nav::MoveOut => {
            if s.path.len() > 0 {
                let parent = s.path.drop_last();
                let k = s.path.last();
                assert(s.path =~= parent.push(k));
                lemma_subtree_prefix(t, parent, k);

            }
        },
        Nav::MoveIn => {
            if s.first == s.last {
                let n = subtree_at(t, s.path)->0;
                lemma_subtree_push(t, s.path, s.first);
                match child_of(n, s.first as int) {
                    Some(ch) => {
                        if child_count(ch) > 0 {
                            assert(subtree_at(t, s.path.push(s.first)) == Some(ch));
                            assert(valid(t, Sel { path: s.path.push(s.first), first: 0, last: 0 }));
                        }
                    },
                    None => {},
                }
            }
        },
        _ => {},
    }
}

/// Where a path extended by `i` leads somewhere, the path leads to a node
/// that has `i` as a child.
pub proof fn lemma_subtree_prefix(t: Tree, path: Seq<usize>, i: usize)
    requires
        subtree_at(t, path.push(i)) is Some,
    ensures
        subtree_at(t, path) is Some,
        child_of(subtree_at(t, path)->0, i as int) == subtree_at(t, path.push(i)),
{
    lemma_subtree_prefix_eq(t, path, i);
}

/// Descending along `path` and then to child `i` is descending along the
/// extended path.
pub proof fn lemma_subtree_prefix_eq(t: Tree, path: Seq<usize>, i: usize)
    ensures
        subtree_at(t, path.push(i)) == match subtree_at(t, path) {
            Some(n) => child_of(n, i as int),
            None => None::<Tree>,
        },
    decreases path.len(),
{
    let ext = path.push(i);
    assert(ext.len() > 0);
    if path.len() > 0 {
        assert(ext[0] == path[0]);
        assert(ext.drop_first() =~= path.drop_first().push(i));
        match child_of(t, path[0] as int) {
            Some(c) => {
                lemma_subtree_prefix_eq(c, path.drop_first(), i);
            },
            None => {},
        }
    } else {
        assert(ext[0] == i);
        assert(ext.drop_first() =~= Seq::<usize>::empty());
        match child_of(t, i as int) {
            Some(c) => {
                assert(subtree_at(c, ext.drop_first()) == Some(c));
            },
            None => {},
        }
    }
}

/// Selection invariant: from the initial selection of a tree whose root has
/// children, every sequence of navigation commands leaves a selection whose
/// `first <= last` index existing siblings at its path.
pub proof fn lemma_navigation_valid(t: Tree, cs: Seq<Nav>)
    requires
        child_count(t) > 0,
    ensures
        valid(t, run(t, initial(), cs)),
{
    lemma_run_valid(t, initial(), cs);
}

pub proof fn lemma_run_valid(t: Tree, s: Sel, cs: Seq<Nav>)
    requires
        valid(t, s),
    ensures
        valid(t, run(t, s, cs)),
    decreases cs.len(),
{
    if cs.len() > 0 {
        lemma_step_valid(t, s, cs[0]);
        lemma_run_valid(t, step(t, s, cs[0]), cs.drop_first());
    }
}

/// Navigation symmetry: where `move_in` descends from a single selected
/// sibling, `move_out` right after restores the selection exactly.
pub proof fn lemma_move_in_out(t: Tree, s: Sel)
    requires
        s.first == s.last,
        move_in_spec(t, s).1,
    ensures
        move_out_spec(move_in_spec(t, s).0) == (s, true),
{
    let inner = move_in_spec(t, s).0;
    assert(inner.path.drop_last() =~= s.path);
}

pub fn child_count_exec(e: &Expression) -> (r: usize)
    ensures
        r == child_count(e@),
{
    match e {
        Expression::Negative(_) => 1,
        Expression::SubNode(n) => {
            proof {
                lemma_node_view(*n);
            }
            n.values.len()
        },
        _ => 0,
    }
}

fn child_ref(e: &Expression, i: usize) -> (r: Option<&Expression>)
    ensures
        match r {
            Some(c) => child_of(e@, i as int) == Some(c@),
            None => child_of(e@, i as int) is None,
        },
{
    match e {
        Expression::Negative(b) => if i == 0 {
            Some(&**b)
        } else {
            None
        },
        Expression::SubNode(n) => {
            proof {
                lemma_node_view(*n);
            }
            if i < n.values.len() {
                Some(&n.values[i].val)
            } else {
                None
            }
        },
        _ => None,
    }
}

/// The node that `path` leads to from `e`.
pub fn node_at<'a>(e: &'a Expression, path: &Vec<usize>) -> (r: Option<&'a Expression>)
    ensures
        match r {
            Some(n) => subtree_at(e@, path@) == Some(n@),
            None => subtree_at(e@, path@) is None,
        },
{
    let mut cur: &Expression = e;
    let mut i: usize = 0;
    assert(path@.skip(0) =~= path@);
    while i < path.len()
        invariant
            i <= path.len(),
            subtree_at(e@, path@) == subtree_at(cur@, path@.skip(i as int)),
        decreases path.len() - i,
    {
        assert(path@.skip(i as int).drop_first() =~= path@.skip(i + 1));
        match child_ref(cur, path[i]) {
            Some(c) => {
                cur = c;
            },
            None => {
                return None;
            },
        }
        i = i + 1;
    }
    assert(path@.skip(i as int) =~= Seq::<usize>::empty());
    Some(cur)
}

/// The number of siblings at the level that `path` reaches, where that node
/// has children.
pub fn level_size_exec(e: &Expression, path: &Vec<usize>) -> (r: Option<usize>)
    ensures
        match r {
            Some(n) => level_size(e@, path@) == Some(n as nat),
            None => level_size(e@, path@) is None,
        },
{
    match node_at(e, path) {
        Some(n) => {
            let c = child_count_exec(n);
            if c > 0 {
                Some(c)
            } else {
                None
            }
        },
        None => None,
    }
}

impl Selection {
    pub fn move_out(&mut self, _e: &Expression) -> (r: bool)
        ensures
            (final(self)@, r) == move_out_spec(old(self)@),
            old(self).valid_in(_e@) ==> final(self).valid_in(_e@),
    {
        proof {
            lemma_step_valid_if(_e@, old(self)@, Nav::MoveOut);
        }
        match self.path.pop() {
            Some(v) => {
                self.first = v;
                self.last = v;
                assert(self.path@ =~= old(self).path@.drop_last());
                true
            },
            None => false,
        }
    }

    pub fn move_in(&mut self, e: &Expression) -> (r: bool)
        ensures
            (final(self)@, r) == move_in_spec(e@, old(self)@),
            old(self).valid_in(e@) ==> final(self).valid_in(e@),
    {
        proof {
            lemma_step_valid_if(e@, old(self)@, Nav::MoveIn);
        }
        if self.first != self.last {
            self.last = self.first;
            return true;
        }
        let descend = match node_at(e, &self.path) {
            Some(n) => match child_ref(n, self.first) {
                Some(c) => child_count_exec(c) > 0,
                None => false,
            },
            None => false,
        };
        if descend {
            self.path.push(self.first);
            self.first = 0;
            self.last = 0;
            true
        } else {
            false
        }
    }

    pub fn shift_right(&mut self, e: &Expression) -> (r: bool)
        ensures
            (final(self)@, r) == shift_right_spec(e@, old(self)@),
            old(self).valid_in(e@) ==> final(self).valid_in(e@),
    {
        proof {
            lemma_step_valid_if(e@, old(self)@, Nav::ShiftRight);
        }
        match level_size_exec(e, &self.path) {
            Some(n) => if self.first < n - 1 {
                self.first = self.first + 1;
                self.last = self.first;
                true
            } else {
                self.last = self.first;
                false
            },
            None => {
                self.last = self.first;
                false
            },
        }
    }

    pub fn shift_left(&mut self, _e: &Expression) -> (r: bool)
        ensures
            (final(self)@, r) == shift_left_spec(old(self)@),
            old(self).valid_in(_e@) ==> final(self).valid_in(_e@),
    {
        proof {
            lemma_step_valid_if(_e@, old(self)@, Nav::ShiftLeft);
        }
        if self.first > 0 {
            self.first = self.first - 1;
            self.last = self.first;
            true
        } else {
            self.last = self.first;
            false
        }
    }

    pub fn expand_right(&mut self, e: &Expression) -> (r: bool)
        ensures
            (final(self)@, r) == expand_right_spec(e@, old(self)@),
            old(self).valid_in(e@) ==> final(self).valid_in(e@),
    {
        proof {
            lemma_step_valid_if(e@, old(self)@, Nav::ExpandRight);
        }
        match level_size_exec(e, &self.path) {
            Some(n) => if self.last < n - 1 {
                self.last = self.last + 1;
                true
            } else {
                false
            },
            None => false,
        }
    }

    pub fn expand_left(&mut self, _e: &Expression) -> (r: bool)
        ensures
            (final(self)@, r) == expand_left_spec(old(self)@),
            old(self).valid_in(_e@) ==> final(self).valid_in(_e@),
    {
        proof {
            lemma_step_valid_if(_e@, old(self)@, Nav::ExpandLeft);
        }
        if self.first > 0 {
            self.first = self.first - 1;
            true
        } else {
            false
        }
    }

    pub fn shrink_right(&mut self, _e: &Expression) -> (r: bool)
        ensures
            (final(self)@, r) == shrink_right_spec(old(self)@),
            old(self).valid_in(_e@) ==> final(self).valid_in(_e@),
    {
        proof {
            lemma_step_valid_if(_e@, old(self)@, Nav::ShrinkRight);
        }
        if self.last > self.first {
            self.last = self.last - 1;
            true
        } else {
            false
        }
    }

    pub fn shrink_left(&mut self, _e: &Expression) -> (r: bool)
        ensures
            (final(self)@, r) == shrink_left_spec(old(self)@),
            old(self).valid_in(_e@) ==> final(self).valid_in(_e@),
    {
        proof {
            lemma_step_valid_if(_e@, old(self)@, Nav::ShrinkLeft);
        }
        if self.first < self.last {
            self.first = self.first + 1;
            true
        } else {
            false
        }
    }
}

proof fn lemma_step_valid_if(t: Tree, s: Sel, c: Nav)
    ensures
        valid(t, s) ==> valid(t, step(t, s, c)),
{
    if valid(t, s) {
        lemma_step_valid(t, s, c);
    }
}

/// How many addressable children a node has: the operands of a chain, the
/// one inner value of a negation, none for a leaf.
pub open spec fn child_count(t: Tree) -> nat {
    match t {
        Tree::Neg(_) => 1,
        Tree::Chain(_, _, ts) => ts.len(),
        _ => 0,
    }
}

/// The child at index `i`, where there is one.
pub open spec fn child_of(t: Tree, i: int) -> Option<Tree> {
    match t {
        Tree::Neg(b) => if i == 0 { Some(*b) } else { None },
        Tree::Chain(_, _, ts) => if 0 <= i < ts.len() { Some(ts[i]) } else { None },
        _ => None,
    }
}

/// The node reached from `t` by descending along `path`.
pub open spec fn subtree_at(t: Tree, path: Seq<usize>) -> Option<Tree>
    decreases path.len(),
{
    if path.len() == 0 {
        Some(t)
    } else {
        match child_of(t, path[0] as int) {
            Some(c) => subtree_at(c, path.drop_first()),
            None => None,
        }
    }
}

/// The number of siblings at the level that `path` addresses, if it
/// addresses a node that has children.
pub open spec fn level_size(t: Tree, path: Seq<usize>) -> Option<nat> {
    match subtree_at(t, path) {
        Some(n) => if child_count(n) > 0 { Some(child_count(n)) } else { None },
        None => None,
    }
}

/// A selection is valid when its path leads to a node with children and
/// `first <= last` index existing siblings there.
pub open spec fn sel_ok(t: Tree, path: Seq<usize>, first: int, last: int) -> bool {
    match subtree_at(t, path) {
        Some(n) => 0 <= first <= last < child_count(n),
        None => false,
    }
}

pub proof fn lemma_sel_ok_step(t: Tree, path: Seq<usize>, first: int, last: int)
    requires
        path.len() > 0,
        sel_ok(t, path, first, last),
    ensures
        child_of(t, path[0] as int) is Some,
        sel_ok(child_of(t, path[0] as int)->0, path.drop_first(), first, last),
{
}

} // verus!
