//! The expression tree the parser builds, its mathematical model, and the
//! renderer that turns a tree back into source text.

use vstd::prelude::*;
use vstd::string::StringExecFns;

use crate::token_type::TokenType;

verus! {

/// A literal leaf: the exact text of a number literal, the text of a string
/// literal, a boolean, or nil.
#[derive(Clone, Debug)]
pub enum LiteralExpression {
    Number(String),
    Text(String),
    Boolean(bool),
    Nil,
}

/// The mathematical model of a literal leaf.
pub ghost enum LiteralModel {
    Number(Seq<char>),
    Text(Seq<char>),
    Boolean(bool),
    Nil,
}

impl View for LiteralExpression {
    type V = LiteralModel;

    open spec fn view(&self) -> LiteralModel {
        match self {
            LiteralExpression::Number(t) => LiteralModel::Number(t@),
            LiteralExpression::Text(t) => LiteralModel::Text(t@),
            LiteralExpression::Boolean(b) => LiteralModel::Boolean(*b),
            LiteralExpression::Nil => LiteralModel::Nil,
        }
    }
}

/// A binary application: left operand, operator kind, right operand.
pub struct BinaryExpression {
    pub left: Box<Expr>,
    pub operator: TokenType,
    pub right: Box<Expr>,
}

/// A prefix application: operator kind and its one operand.
pub struct UnaryExpression {
    pub operator: TokenType,
    pub right: Box<Expr>,
}

/// A parenthesized sub-expression.
pub struct GroupingExpression {
    pub expression: Box<Expr>,
}

/// An expression tree node: the closed set of variants the grammar can
/// produce.
pub enum Expr {
    Literal(LiteralExpression),
    Unary(UnaryExpression),
    Binary(BinaryExpression),
    Grouping(GroupingExpression),
}

/// The mathematical model of an expression tree.
pub ghost enum ExprModel {
    Literal(LiteralModel),
    Unary(TokenType, Box<ExprModel>),
    Binary(Box<ExprModel>, TokenType, Box<ExprModel>),
    Grouping(Box<ExprModel>),
}

/// The mathematical model of an expression tree node.
pub open spec fn expr_model(e: Expr) -> ExprModel
    decreases e,
{
    match e {
        Expr::Literal(l) => ExprModel::Literal(l@),
        Expr::Unary(u) => ExprModel::Unary(u.operator, Box::new(expr_model(*u.right))),
        Expr::Binary(b) => ExprModel::Binary(
            Box::new(expr_model(*b.left)),
            b.operator,
            Box::new(expr_model(*b.right)),
        ),
        Expr::Grouping(g) => ExprModel::Grouping(Box::new(expr_model(*g.expression))),
    }
}

impl View for Expr {
    type V = ExprModel;

    open spec fn view(&self) -> ExprModel {
        expr_model(*self)
    }
}

/// The source text of an operator kind.
pub open spec fn spec_op_lexeme(op: TokenType) -> Seq<char> {
    match op {
        TokenType::LeftParen => "("@,
        TokenType::RightParen => ")"@,
        TokenType::Minus => "-"@,
        TokenType::Plus => "+"@,
        TokenType::Slash => "/"@,
        TokenType::Star => "*"@,
        TokenType::Bang => "!"@,
        TokenType::BangEqual => "!="@,
        TokenType::Equal => "="@,
        TokenType::EqualEqual => "=="@,
        TokenType::Greater => ">"@,
        TokenType::GreaterEqual => ">="@,
        TokenType::Less => "<"@,
        TokenType::LessEqual => "<="@,
        _ => ""@,
    }
}

/// The rendering of a literal leaf: number text as matched, string text back
/// between its quotes, `true`/`false`/`nil` as written.
pub open spec fn spec_render_literal(l: LiteralModel) -> Seq<char> {
    match l {
        LiteralModel::Number(t) => t,
        LiteralModel::Text(t) => seq!['"'] + t + seq!['"'],
        LiteralModel::Boolean(b) => if b {
            "true"@
        } else {
            "false"@
        },
        LiteralModel::Nil => "nil"@,
    }
}

/// The rendering of an expression tree: operands of a binary operator are
/// separated from it by single spaces, a unary operator is prefixed directly,
/// a grouping keeps its parentheses.
pub open spec fn spec_render(e: ExprModel) -> Seq<char>
    decreases e,
{
    match e {
        ExprModel::Literal(l) => spec_render_literal(l),
        ExprModel::Unary(op, r) => spec_op_lexeme(op) + spec_render(*r),
        ExprModel::Binary(l, op, r) => spec_render(*l) + seq![' '] + spec_op_lexeme(op) + seq![' ']
            + spec_render(*r),
        ExprModel::Grouping(inner) => seq!['('] + spec_render(*inner) + seq![')'],
    }
}

/// The source text of an operator kind.
pub fn op_lexeme(op: TokenType) -> (s: &'static str)
    ensures
        s@ == spec_op_lexeme(op),
{
    match op {
        TokenType::LeftParen => "(",
        TokenType::RightParen => ")",
        TokenType::Minus => "-",
        TokenType::Plus => "+",
        TokenType::Slash => "/",
        TokenType::Star => "*",
        TokenType::Bang => "!",
        TokenType::BangEqual => "!=",
        TokenType::Equal => "=",
        TokenType::EqualEqual => "==",
        TokenType::Greater => ">",
        TokenType::GreaterEqual => ">=",
        TokenType::Less => "<",
        TokenType::LessEqual => "<=",
        _ => "",
    }
}

impl LiteralExpression {
    /// Renders this literal leaf to source text.
    pub fn to_string(&self) -> (s: String)
        ensures
            s@ == spec_render_literal(self@),
    {
        match self {
            LiteralExpression::Number(t) => t.clone(),
            LiteralExpression::Text(t) => {
                let mut s = "\"".to_owned();
                s.append(t.as_str());
                s.append("\"");
                proof {
                    assert(s@ =~= seq!['"'] + t@ + seq!['"']) by {
                        reveal_strlit("\"");
                    }
                }
                s
            },
            LiteralExpression::Boolean(b) => if *b {
                "true".to_owned()
            } else {
                "false".to_owned()
            },
            LiteralExpression::Nil => "nil".to_owned(),
        }
    }
}

impl Expr {
    /// Renders this expression tree to source text, exactly as `spec_render`
    /// describes.
    pub fn to_string(&self) -> (s: String)
        ensures
            s@ == spec_render(self@),
        decreases self,
    {
        match self {
            Expr::Literal(l) => l.to_string(),
            Expr::Unary(u) => {
                let mut s = op_lexeme(u.operator).to_owned();
                let rhs = u.right.to_string();
                s.append(rhs.as_str());
                s
            },
            Expr::Binary(b) => {
                let mut s = b.left.to_string();
                s.append(" ");
                s.append(op_lexeme(b.operator));
                s.append(" ");
                let rhs = b.right.to_string();
                s.append(rhs.as_str());
                proof {
                    assert(s@ =~= spec_render(b.left@) + seq![' '] + spec_op_lexeme(b.operator)
                        + seq![' '] + spec_render(b.right@)) by {
                        reveal_strlit(" ");
                    }
                }
                s
            },
            Expr::Grouping(g) => {
                let mut s = "(".to_owned();
                let inner = g.expression.to_string();
                s.append(inner.as_str());
                s.append(")");
                proof {
                    assert(s@ =~= seq!['('] + spec_render(g.expression@) + seq![')']) by {
                        reveal_strlit("(");
                        reveal_strlit(")");
                    }
                }
                s
            },
        }
    }
}

} // verus!
