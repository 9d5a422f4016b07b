//! An editor core for algebraic equations: a tree model of expressions, a
//! lexer and parser for their text, a renderer that adds only the needed
//! parentheses, a path-addressed selection over the tree, editing operations
//! on the selected range, and factoring heuristics for sums.

pub mod expression;
pub mod selection;
pub mod render;
pub mod lexer;
pub mod parser;
pub mod edit;
pub mod manip;
pub mod line;
pub mod roundtrip;

pub use expression::{Decimal, ExprNode, Expression, Op, ParseError, SubExpression};
pub use render::{RenderSink, split_expression};
pub use selection::Selection;
pub use lexer::{Lexer, Token};
pub use parser::parse_expression;
pub use edit::{extract_subexpression, replace_subexpression};
pub use manip::{factorise_all, factorise_leading, factorise_trailing, normalise};
pub use line::{EquationSet, Line};
