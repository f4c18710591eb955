use vstd::prelude::*;
use crate::span::{Span, LiteralWhitespace};

verus! {

/// A single-token expression (an identifier, a number or a string literal)
/// with the trivia around it.
#[derive(Debug, Clone, Copy, PartialEq, Eq, Hash)]
pub struct LiteralExpr {
    pub span: Span,
    pub whitespace: LiteralWhitespace,
}

/// The expressions that statements hold as leaves. `Missing` stands where
/// the grammar asks for an expression and the input has none; it is
/// zero-width and placed right after the last token read.
#[derive(Debug, Clone, Copy, PartialEq, Eq, Hash)]
pub enum Expr {
    Identifier(LiteralExpr),
    Number(LiteralExpr),
    Str(LiteralExpr),
    Missing(Span),
}

impl Expr {
    pub open spec fn spec_span(self) -> Span {
        match self {
            Expr::Identifier(e) => e.span,
            Expr::Number(e) => e.span,
            Expr::Str(e) => e.span,
            Expr::Missing(s) => s,
        }
    }

    pub fn span(&self) -> (r: Span)
        ensures
            r == self.spec_span(),
    {
        match self {
            Expr::Identifier(e) => e.span,
            Expr::Number(e) => e.span,
            Expr::Str(e) => e.span,
            Expr::Missing(s) => *s,
        }
    }
}

/// A declaration (function or class) as delivered by the declaration parser.
#[derive(Debug, Clone, Copy, PartialEq, Eq, Hash)]
pub struct Declaration {
    pub span: Span,
}

} // verus!
