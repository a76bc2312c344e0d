//! The expression tree that the parser builds and the evaluator walks.

use vstd::prelude::*;
use vstd::string::StringExecFns;
use crate::lexer::{SpecTokenKind, TokenKind};
use crate::text::is_numeral;

verus! {

/// The four binary operators of the language.
#[derive(Clone, Copy, Debug, PartialEq, Eq, Structural)]
pub enum BinaryOperator {
    Plus,
    Minus,
    Times,
    Divided,
}

impl BinaryOperator {
    /// The operator that a token kind stands for, if it stands for one.
    pub open spec fn of_kind(kind: SpecTokenKind) -> Option<BinaryOperator> {
        match kind {
            SpecTokenKind::Plus => Some(BinaryOperator::Plus),
            SpecTokenKind::Minus => Some(BinaryOperator::Minus),
            SpecTokenKind::Star => Some(BinaryOperator::Times),
            SpecTokenKind::Slash => Some(BinaryOperator::Divided),
            _ => None,
        }
    }

    /// The token kind that is written for the operator.
    pub open spec fn kind(self) -> SpecTokenKind {
        match self {
            BinaryOperator::Plus => SpecTokenKind::Plus,
            BinaryOperator::Minus => SpecTokenKind::Minus,
            BinaryOperator::Times => SpecTokenKind::Star,
            BinaryOperator::Divided => SpecTokenKind::Slash,
        }
    }

    /// Whether the operator binds as `*` and `/` do, tighter than `+` and `-`.
    pub open spec fn is_multiplicative(self) -> bool {
        self is Times || self is Divided
    }

    /// The operator that `kind` stands for: `Plus`, `Minus`, `Star` and `Slash`
    /// stand for one each, every other kind for none.
    pub fn from_token_kind(kind: &TokenKind) -> (operator: Option<BinaryOperator>)
        ensures
            operator == Self::of_kind(kind@),
    {
        match kind {
            TokenKind::Plus => Some(BinaryOperator::Plus),
            TokenKind::Minus => Some(BinaryOperator::Minus),
            TokenKind::Star => Some(BinaryOperator::Times),
            TokenKind::Slash => Some(BinaryOperator::Divided),
            _ => None,
        }
    }
}

/// An expression: an integer literal, kept as the digits that were written,
/// or a binary operation on two expressions that it owns.
#[derive(Debug, PartialEq, Eq)]
pub enum Expression {
    IntegerLiteral(String),
    Binary { operator: BinaryOperator, left: Box<Expression>, right: Box<Expression> },
}

/// The mathematical value of an `Expression`.
pub enum SpecExpression {
    IntegerLiteral(Seq<char>),
    Binary { operator: BinaryOperator, left: Box<SpecExpression>, right: Box<SpecExpression> },
}

impl SpecExpression {
    /// Whether every literal in the tree is written as one or more digits, as
    /// the literals of every tree that comes from a source are.
    pub open spec fn well_formed(self) -> bool
        decreases self,
    {
        match self {
            SpecExpression::IntegerLiteral(digits) => is_numeral(digits),
            SpecExpression::Binary { left, right, .. } => left.well_formed() && right.well_formed(),
        }
    }
}

impl Expression {
    /// The tree as a mathematical value; `@` is short for it.
    pub open spec fn tree(&self) -> SpecExpression
        decreases self,
    {
        match self {
            Expression::IntegerLiteral(digits) => SpecExpression::IntegerLiteral(digits@),
            Expression::Binary { operator, left, right } => SpecExpression::Binary {
                operator: *operator,
                left: Box::new(left.tree()),
                right: Box::new(right.tree()),
            },
        }
    }
}

impl View for Expression {
    type V = SpecExpression;

    open spec fn view(&self) -> SpecExpression {
        self.tree()
    }
}

impl Clone for Expression {
    fn clone(&self) -> (copy: Expression)
        ensures
            copy@ == self@,
        decreases self,
    {
        match self {
            Expression::IntegerLiteral(digits) => Expression::IntegerLiteral(digits.clone()),
            Expression::Binary { operator, left, right } => Expression::Binary {
                operator: *operator,
                left: Box::new((&**left).clone()),
                right: Box::new((&**right).clone()),
            },
        }
    }
}

/// The drawing of one node and of all that hangs below it. Each node has a
/// line of its own: the indentation, a branch mark that tells whether the
/// node is the last child, and the node's label. Children are drawn one
/// level deeper, below a bar as long as a sibling is still to come.
pub open spec fn branch_drawing(tree: SpecExpression, indent: Seq<char>, is_last: bool) -> Seq<char>
    decreases tree,
{
    let branch = if is_last {
        "└── "@
    } else {
        "├── "@
    };
    match tree {
        SpecExpression::IntegerLiteral(digits) => indent + branch + "IntegerLiteral "@ + digits
            + "\n"@,
        SpecExpression::Binary { operator, left, right } => {
            let deeper = indent + if is_last {
                "    "@
            } else {
                "│   "@
            };
            indent + branch + "BinaryExpression "@ + operator.kind().text() + "\n"@
                + branch_drawing(*left, deeper, false) + branch_drawing(*right, deeper, true)
        },
    }
}

/// The drawing of a tree: a dot for the root of the drawing, and the tree
/// below it as its only child.
pub open spec fn drawing(tree: SpecExpression) -> Seq<char> {
    ".\n"@ + branch_drawing(tree, Seq::empty(), true)
}

/// Appends the drawing of `expr` and of all below it to `out`.
fn draw_branch(expr: &Expression, indent: &str, is_last: bool, out: &mut String)
    ensures
        final(out)@ == old(out)@ + branch_drawing(expr@, indent@, is_last),
    decreases expr,
{
    let branch = if is_last {
        "└── "
    } else {
        "├── "
    };
    out.append(indent);
    out.append(branch);
    match expr {
        Expression::IntegerLiteral(digits) => {
            out.append("IntegerLiteral ");
            out.append(digits.as_str());
            out.append("\n");
        },
        Expression::Binary { operator, left, right } => {
            let mut deeper = String::from_str(indent);
            deeper.append(if is_last {
                "    "
            } else {
                "│   "
            });
            out.append("BinaryExpression ");
            out.push(
                match operator {
                    BinaryOperator::Plus => '+',
                    BinaryOperator::Minus => '-',
                    BinaryOperator::Times => '*',
                    BinaryOperator::Divided => '/',
                },
            );
            out.append("\n");
            let ghost head = out@;
            assert(head == old(out)@ + (indent@ + branch@ + "BinaryExpression "@
                + operator.kind().text() + "\n"@));
            draw_branch(left, deeper.as_str(), false, out);
            draw_branch(right, deeper.as_str(), true, out);
        },
    }
}

/// The drawing of `expr` as a tree, one node per line.
pub fn pretty_print(expr: &Expression) -> (text: String)
    ensures
        text@ == drawing(expr@),
{
    let mut text = String::new();
    text.append(".\n");
    draw_branch(expr, "", true, &mut text);
    proof {
        reveal_strlit("");
        assert(""@ == Seq::<char>::empty());
    }
    text
}

} // verus!
