use vstd::prelude::*;
use crate::span::{Span, LiteralWhitespace};

verus! {

/// The kinds of token that the statement parser tells apart.
#[derive(Debug, Clone, Copy, PartialEq, Eq, Hash, Structural)]
pub enum TokenKind {
    Identifier,
    Number,
    Str,
    Semicolon,
    Comma,
    Colon,
    Assign,
    LParen,
    RParen,
    LBrace,
    RBrace,
    Var,
    If,
    Else,
    Switch,
    Case,
    Default,
    Throw,
    While,
    Do,
    Break,
    Continue,
    Return,
    Try,
    Catch,
    Finally,
    For,
    In,
    With,
    Other,
}

/// One token as the lexer delivers it: its kind, the trivia around it (the
/// token's text lies between the two trivia spans), and whether a line
/// terminator occurs in the source between the previous token and this one.
#[derive(Debug, Clone, Copy, PartialEq, Eq, Hash)]
pub struct Token {
    pub kind: TokenKind,
    pub whitespace: LiteralWhitespace,
    pub line_break_before: bool,
}

impl Token {
    pub open spec fn text_span(self) -> Span {
        self.whitespace.token_span()
    }

    /// Whether a line terminator separates this token from the one before
    /// it; the test that automatic semicolon insertion turns on.
    pub fn has_line_break_before(&self) -> (r: bool)
        ensures
            r == self.line_break_before,
    {
        self.line_break_before
    }
}

/// A token stream in which each token's trivia is well formed and tokens
/// appear in source order without overlapping.
pub open spec fn tokens_wf(ts: Seq<Token>) -> bool {
    &&& forall|i: int| 0 <= i < ts.len() ==> (#[trigger] ts[i]).whitespace.wf()
    &&& forall|i: int, j: int|
        0 <= i < j < ts.len() ==> (#[trigger] ts[i]).whitespace.after.end
            <= (#[trigger] ts[j]).whitespace.before.start
}

/// What the parser was looking for when it met an unexpected token.
#[derive(Debug, Clone, Copy, PartialEq, Eq, Hash)]
pub enum Expected {
    Token(TokenKind),
    Expression,
    Statement,
    Terminator,
    CatchOrFinally,
    SingleDefault,
}

/// A recoverable error: where it was found, what was expected there, and the
/// kind of the token found instead (`None` at the end of input).
#[derive(Debug, Clone, Copy, PartialEq, Eq, Hash)]
pub struct Diagnostic {
    pub span: Span,
    pub expected: Expected,
    pub found: Option<TokenKind>,
}

} // verus!
