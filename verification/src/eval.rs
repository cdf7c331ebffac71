use crate::ast::{SpecExpr, SpecExprKind};
use crate::lex::{is_name, lemma_lex, lex, NAME_C, NAME_H, NAME_W, NAME_X, NAME_Y, NAME_Z};
use crate::parser::{lemma_parse_tokens, parse_tokens};
use vstd::prelude::*;

verus! {

/// The six slots that an expression can read: the width and the height of
/// the image, the column and the row of the pixel, the constant of the
/// pixel and the running iterate.
#[derive(Clone, Copy, Debug, PartialEq, Eq, Structural)]
pub enum Slot {
    Width,
    Height,
    X,
    Y,
    C,
    Z,
}

impl Slot {
    /// The slot that a name stands for: `w`, `h`, `x`, `y`, `c` and `z`
    /// stand for one each, no other name for any.
    pub open spec fn of_name(name: u8) -> Option<Slot> {
        if name == NAME_W {
            Some(Slot::Width)
        } else if name == NAME_H {
            Some(Slot::Height)
        } else if name == NAME_X {
            Some(Slot::X)
        } else if name == NAME_Y {
            Some(Slot::Y)
        } else if name == NAME_C {
            Some(Slot::C)
        } else if name == NAME_Z {
            Some(Slot::Z)
        } else {
            None
        }
    }

    /// The slot that `name` stands for. A variable whose name stands for
    /// none is undefined.
    pub fn from_name(name: u8) -> (r: Option<Slot>)
        ensures
            r == Slot::of_name(name),
            r is Some <==> is_name(name),
    {
        if name == NAME_W {
            Some(Slot::Width)
        } else if name == NAME_H {
            Some(Slot::Height)
        } else if name == NAME_X {
            Some(Slot::X)
        } else if name == NAME_Y {
            Some(Slot::Y)
        } else if name == NAME_C {
            Some(Slot::C)
        } else if name == NAME_Z {
            Some(Slot::Z)
        } else {
            None
        }
    }
}

/// Whether every variable of the expression stands for a slot, so that an
/// evaluation of it meets no undefined variable.
pub open spec fn resolves(expr: SpecExpr) -> bool
    decreases expr,
{
    match expr.kind {
        SpecExprKind::Bin(_, left, right) => resolves(*left) && resolves(*right),
        SpecExprKind::Var(name) => Slot::of_name(name) is Some,
        _ => true,
    }
}

/// Every variable of a well-formed expression stands for a slot.
pub proof fn lemma_well_formed_resolves(expr: SpecExpr)
    requires
        expr.well_formed(),
    ensures
        resolves(expr),
    decreases expr,
{
    match expr.kind {
        SpecExprKind::Bin(_, left, right) => {
            lemma_well_formed_resolves(*left);
            lemma_well_formed_resolves(*right);
        },
        _ => {},
    }
}

/// What is lexed and parsed from source text is well formed: each of its
/// literals is a numeral, and each of its variables stands for a slot.
pub proof fn lemma_source_resolves(source: Seq<u8>)
    requires
        source.len() <= usize::MAX,
    ensures
        lex(source) matches Ok(tokens) ==> (parse_tokens(tokens) matches Ok(expr)
            ==> expr.well_formed() && resolves(expr)),
{
    lemma_lex(source);
    if let Ok(tokens) = lex(source) {
        lemma_parse_tokens(tokens);
        if let Ok(expr) = parse_tokens(tokens) {
            lemma_well_formed_resolves(expr);
        }
    }
}

} // verus!
