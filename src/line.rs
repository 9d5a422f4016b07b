//! One equation of an editing session: its tree, its trailing comment and
//! its selection; and the set of equations of a file.

use vstd::prelude::*;
use crate::edit::{extract_spec, extract_subexpression, replace_at, replace_sel, replace_subexpression};
use crate::expression::{Expression, Failure, ParseError, Tree, wf};
use crate::lexer::chars_of;
use crate::parser::{parse_expression, parse_text};
use crate::render::{render, split_expression, split_text, string_of};
use crate::selection::{
    Sel, Selection, expand_left_spec, expand_right_spec, initial, move_in_spec, move_out_spec,
    shift_left_spec, shift_right_spec, shrink_left_spec, shrink_right_spec,
};

verus! {

/// Where the first `#` stands in `s` from `k` on; the length if nowhere.
pub open spec fn hash_index(s: Seq<char>, k: int) -> int
    decreases s.len() - k,
{
    if k < 0 || k >= s.len() {
        s.len() as int
    } else if s[k] == '#' {
        k
    } else {
        hash_index(s, k + 1)
    }
}

/// The expression part of a line: everything before the first `#`.
pub open spec fn code_part(s: Seq<char>) -> Seq<char> {
    s.subrange(0, hash_index(s, 0))
}

/// The comment of a line: everything after the first `#`.
pub open spec fn comment_part(s: Seq<char>) -> Seq<char> {
    if hash_index(s, 0) < s.len() {
        s.subrange(hash_index(s, 0) + 1, s.len() as int)
    } else {
        Seq::empty()
    }
}

/// A line as stored: the expression's text, then ` #` and the comment where
/// there is one.
pub open spec fn line_text(e: Tree, comment: Seq<char>) -> Seq<char> {
    render(e) + if comment.len() > 0 {
        seq![' ', '#'] + comment
    } else {
        Seq::empty()
    }
}

#[derive(Clone)]
pub struct Line {
    pub expr: Expression,
    pub comment: String,
    pub sel: Selection,
}

/// The equations of a file, and whether they changed since it was read.
pub struct EquationSet {
    pub dirty: bool,
    pub lines: Vec<Line>,
}

impl Line {
    /// A line holding `expr`, with no comment and the initial selection.
    pub fn from_expr(expr: Expression) -> (r: Line)
        ensures
            r.expr@ == expr@,
            r.comment@.len() == 0,
            r.sel@ == initial(),
    {
        let r = Line { expr, comment: String::new(), sel: Selection { path: Vec::new(), first: 0, last: 0 } };
        assert(r.sel@.path =~= Seq::<usize>::empty());
        r
    }

    /// Reads a stored line: the expression before the first `#`, the
    /// comment after it.
    pub fn from_str(s: &str) -> (r: Result<Line, ParseError>)
        ensures
            match r {
                Ok(l) => parse_text(code_part(s@)) == Ok::<Tree, Failure>(l.expr@) && wf(l.expr@)
                    && l.comment@ == comment_part(s@) && l.sel@ == initial(),
                Err(x) => parse_text(code_part(s@)) == Err::<Tree, Failure>(x@),
            },
    {
        let cs = chars_of(s);
        let ghost sv = cs@;
        let mut k: usize = 0;
        while k < cs.len() && cs[k] != '#'
            invariant
                k <= cs.len(),
                sv == cs@,
                hash_index(sv, k as int) == hash_index(sv, 0),
            decreases cs.len() - k,
        {
            k = k + 1;
        }
        let mut code: Vec<char> = Vec::new();
        let mut i: usize = 0;
        while i < k
            invariant
                i <= k <= cs.len(),
                code@ == cs@.subrange(0, i as int),
            decreases k - i,
        {
            code.push(cs[i]);
            i = i + 1;
            assert(code@ =~= cs@.subrange(0, i as int));
        }
        let mut comment: Vec<char> = Vec::new();
        if k < cs.len() {
            let mut j = k + 1;
            while j < cs.len()
                invariant
                    k + 1 <= j <= cs.len(),
                    comment@ == cs@.subrange(k + 1, j as int),
                decreases cs.len() - j,
            {
                comment.push(cs[j]);
                j = j + 1;
                assert(comment@ =~= cs@.subrange(k + 1, j as int));
            }
        }
        assert(comment@ =~= comment_part(s@));
        let code_text = string_of(&code);
        match parse_expression(code_text.as_str()) {
            Ok(expr) => {
                let r = Line {
                    expr,
                    comment: string_of(&comment),
                    sel: Selection { path: Vec::new(), first: 0, last: 0 },
                };
                assert(r.sel@.path =~= Seq::<usize>::empty());
                Ok(r)
            },
            Err(x) => Err(x),
        }
    }

    /// The line as stored: see `line_text`.
    pub fn to_text(&self) -> (r: String)
        ensures
            r@ == line_text(self.expr@, self.comment@),
    {
        let mut t = self.expr.render();
        let c = self.comment.as_str();
        if c.unicode_len() > 0 {
            let sep = " #";
            proof {
                reveal_strlit(" #");
            }
            t.append(sep);
            t.append(c);
            assert(t@ =~= line_text(self.expr@, self.comment@));
        } else {
            assert(t@ =~= line_text(self.expr@, self.comment@));
        }
        t
    }

    /// The text in three parts around the selection; where the selection
    /// addresses nothing (the line is a bare number or name), all of it
    /// comes first.
    pub fn render_split(&self) -> (r: (String, String, String))
        ensures
            self.sel.valid_in(self.expr@) ==> (r.0@, r.1@, r.2@) == split_text(
                self.expr@,
                self.sel.path@,
                self.sel.first as int,
                self.sel.last as int,
            ),
            !self.sel.valid_in(self.expr@) ==> r.0@ == render(self.expr@) && r.1@.len() == 0
                && r.2@.len() == 0,
    {
        if selection_addresses(&self.expr, &self.sel) {
            split_expression(&self.expr, &self.sel)
        } else {
            (self.expr.render(), String::new(), String::new())
        }
    }

    /// The selected text.
    pub fn render_selection(&self) -> (r: String)
        ensures
            self.sel.valid_in(self.expr@) ==> r@ == split_text(
                self.expr@,
                self.sel.path@,
                self.sel.first as int,
                self.sel.last as int,
            ).1,
            !self.sel.valid_in(self.expr@) ==> r@.len() == 0,
    {
        let (_, h, _) = self.render_split();
        h
    }

    /// A copy of the selection; of the whole expression where the selection
    /// addresses nothing.
    pub fn extract_selection(&self) -> (r: Expression)
        ensures
            self.sel.valid_in(self.expr@) ==> r@ == extract_spec(self.expr@, self.sel@),
            !self.sel.valid_in(self.expr@) ==> r@ == self.expr@,
    {
        if selection_addresses(&self.expr, &self.sel) {
            extract_subexpression(&self.expr, &self.sel)
        } else {
            self.expr.deep_copy()
        }
    }

    /// Replaces the selection by `e` (see `replace_subexpression`).
    pub fn replace_selection(&mut self, e: Expression)
        requires
            old(self).sel.valid_in(old(self).expr@),
            wf(e@),
        ensures
            final(self).expr@ == replace_at(
                old(self).expr@,
                old(self).sel.path@,
                old(self).sel.first as int,
                old(self).sel.last as int,
                e@,
            ),
            final(self).sel@ == replace_sel(old(self).expr@, old(self).sel@, e@),
            wf(old(self).expr@) ==> wf(final(self).expr@),
            final(self).comment@ == old(self).comment@,
    {
        replace_subexpression(&mut self.expr, &mut self.sel, e);
    }

    pub fn move_out(&mut self) -> (r: bool)
        ensures
            (final(self).sel@, r) == move_out_spec(old(self).sel@),
            final(self).expr@ == old(self).expr@,
    {
        self.sel.move_out(&self.expr)
    }

    pub fn move_in(&mut self) -> (r: bool)
        ensures
            (final(self).sel@, r) == move_in_spec(old(self).expr@, old(self).sel@),
            final(self).expr@ == old(self).expr@,
    {
        self.sel.move_in(&self.expr)
    }

    pub fn shift_right(&mut self) -> (r: bool)
        ensures
            (final(self).sel@, r) == shift_right_spec(old(self).expr@, old(self).sel@),
            final(self).expr@ == old(self).expr@,
    {
        self.sel.shift_right(&self.expr)
    }

    pub fn shift_left(&mut self) -> (r: bool)
        ensures
            (final(self).sel@, r) == shift_left_spec(old(self).sel@),
            final(self).expr@ == old(self).expr@,
    {
        self.sel.shift_left(&self.expr)
    }

    pub fn expand_right(&mut self) -> (r: bool)
        ensures
            (final(self).sel@, r) == expand_right_spec(old(self).expr@, old(self).sel@),
            final(self).expr@ == old(self).expr@,
    {
        self.sel.expand_right(&self.expr)
    }

    pub fn expand_left(&mut self) -> (r: bool)
        ensures
            (final(self).sel@, r) == expand_left_spec(old(self).sel@),
            final(self).expr@ == old(self).expr@,
    {
        self.sel.expand_left(&self.expr)
    }

    pub fn shrink_right(&mut self) -> (r: bool)
        ensures
            (final(self).sel@, r) == shrink_right_spec(old(self).sel@),
            final(self).expr@ == old(self).expr@,
    {
        self.sel.shrink_right(&self.expr)
    }

    pub fn shrink_left(&mut self) -> (r: bool)
        ensures
            (final(self).sel@, r) == shrink_left_spec(old(self).sel@),
            final(self).expr@ == old(self).expr@,
    {
        self.sel.shrink_left(&self.expr)
    }
}

/// Whether `sel` addresses siblings of `e`.
pub fn selection_addresses(e: &Expression, sel: &Selection) -> (r: bool)
    ensures
        r == sel.valid_in(e@),
{
    match crate::selection::node_at(e, &sel.path) {
        Some(n) => {
            let count = crate::selection::child_count_exec(n);
            sel.first <= sel.last && sel.last < count
        },
        None => false,
    }
}

} // verus!
