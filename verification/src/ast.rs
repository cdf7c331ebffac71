use crate::lex::{is_name, is_numeral, Literal, SpecTokenKind, TokenKind};
use vstd::prelude::*;

verus! {

#[derive(Debug, PartialEq, Eq)]
pub enum ExprKind {
    Bin(BinOp, Box<Expr>, Box<Expr>),
    Var(u8),
    Real(Literal),
    Imag(Literal),
}

/// An expression: what it is, and the position of the token that it is
/// attributed to.
#[derive(Debug, PartialEq, Eq)]
pub struct Expr {
    pub kind: ExprKind,
    pub position: usize,
}

#[derive(Clone, Copy, Debug, PartialEq, Eq, Structural)]
pub enum BinOp {
    Add,
    Sub,
    Mul,
    Div,
}

/// What an `ExprKind` is in contracts: the same variants, a literal by its text.
pub enum SpecExprKind {
    Bin(BinOp, Box<SpecExpr>, Box<SpecExpr>),
    Var(u8),
    Real(Seq<u8>),
    Imag(Seq<u8>),
}

/// What an `Expr` is in contracts.
pub struct SpecExpr {
    pub kind: SpecExprKind,
    pub position: usize,
}

impl BinOp {
    /// The operator that a token stands for, if it stands for one.
    pub open spec fn of_token(kind: SpecTokenKind) -> Option<BinOp> {
        match kind {
            SpecTokenKind::Add => Some(BinOp::Add),
            SpecTokenKind::Sub => Some(BinOp::Sub),
            SpecTokenKind::Mul => Some(BinOp::Mul),
            SpecTokenKind::Div => Some(BinOp::Div),
            _ => None,
        }
    }

    /// How tightly the operator binds: 1 for sums and differences, 2 for
    /// products and quotients.
    pub open spec fn binding(&self) -> u32 {
        match self {
            BinOp::Add | BinOp::Sub => 1,
            BinOp::Mul | BinOp::Div => 2,
        }
    }

    pub fn from_token(kind: &TokenKind) -> (r: Option<BinOp>)
        ensures
            r == BinOp::of_token(kind@),
    {
        match kind {
            TokenKind::Add => Some(BinOp::Add),
            TokenKind::Sub => Some(BinOp::Sub),
            TokenKind::Mul => Some(BinOp::Mul),
            TokenKind::Div => Some(BinOp::Div),
            _ => None,
        }
    }

    #[verifier::when_used_as_spec(binding)]
    pub fn precedence(&self) -> (r: u32)
        ensures
            r == self.binding(),
    {
        match self {
            BinOp::Add | BinOp::Sub => 1,
            BinOp::Mul | BinOp::Div => 2,
        }
    }
}

impl Expr {
    /// The expression with each literal taken by its text.
    pub open spec fn model(self) -> SpecExpr
        decreases self,
    {
        SpecExpr { kind: self.kind.model(), position: self.position }
    }
}

impl ExprKind {
    /// The kind with each literal taken by its text.
    pub open spec fn model(self) -> SpecExprKind
        decreases self,
    {
        match self {
            ExprKind::Bin(op, left, right) => SpecExprKind::Bin(
                op,
                Box::new(left.model()),
                Box::new(right.model()),
            ),
            ExprKind::Var(name) => SpecExprKind::Var(name),
            ExprKind::Real(literal) => SpecExprKind::Real(literal@),
            ExprKind::Imag(literal) => SpecExprKind::Imag(literal@),
        }
    }
}

impl Clone for Expr {
    fn clone(&self) -> (r: Expr)
        ensures
            r@ == self@,
        decreases self,
    {
        Expr { kind: self.kind.clone(), position: self.position }
    }
}

impl Clone for ExprKind {
    fn clone(&self) -> (r: ExprKind)
        ensures
            r@ == self@,
        decreases self,
    {
        match self {
            ExprKind::Bin(op, left, right) => ExprKind::Bin(
                *op,
                Box::new((&**left).clone()),
                Box::new((&**right).clone()),
            ),
            ExprKind::Var(name) => ExprKind::Var(*name),
            ExprKind::Real(literal) => ExprKind::Real(literal.clone()),
            ExprKind::Imag(literal) => ExprKind::Imag(literal.clone()),
        }
    }
}

impl View for Expr {
    type V = SpecExpr;

    open spec fn view(&self) -> SpecExpr {
        self.model()
    }
}

impl View for ExprKind {
    type V = SpecExprKind;

    open spec fn view(&self) -> SpecExprKind {
        self.model()
    }
}

impl SpecExpr {
    /// Whether every literal of the expression is a numeral and every
    /// variable one of the six names.
    pub open spec fn well_formed(self) -> bool
        decreases self,
    {
        match self.kind {
            SpecExprKind::Bin(_, left, right) => left.well_formed() && right.well_formed(),
            SpecExprKind::Var(name) => is_name(name),
            SpecExprKind::Real(text) => is_numeral(text),
            SpecExprKind::Imag(text) => is_numeral(text),
        }
    }

    /// Whether two expressions are the same but for the positions of their
    /// nodes.
    pub open spec fn same_shape(self, other: SpecExpr) -> bool
        decreases self,
    {
        match (self.kind, other.kind) {
            (SpecExprKind::Bin(op, left, right), SpecExprKind::Bin(op2, left2, right2)) => {
                op == op2 && left.same_shape(*left2) && right.same_shape(*right2)
            },
            (SpecExprKind::Var(name), SpecExprKind::Var(name2)) => name == name2,
            (SpecExprKind::Real(text), SpecExprKind::Real(text2)) => text == text2,
            (SpecExprKind::Imag(text), SpecExprKind::Imag(text2)) => text == text2,
            _ => false,
        }
    }
}

} // verus!
