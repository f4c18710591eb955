use vstd::prelude::*;
use crate::span::{Span, LiteralWhitespace};
use crate::expr::{Expr, LiteralExpr, Declaration};

verus! {

/// Every statement form of the language.
// `Clone` is not derived here nor on the node types that hold a `Stmt`:
// Verus refuses a derived `Clone` on these mutually recursive types ("found a
// cyclic self-reference in a definition").
#[derive(Debug, PartialEq, Eq, Hash)]
pub enum Stmt {
    Variable(VarStmt),
    Empty(EmptyStmt),
    Block(BlockStmt),
    Expr(ExprStmt),
    If(IfStmt),
    Switch(SwitchStmt),
    Throw(ThrowStmt),
    While(WhileStmt),
    DoWhile(DoWhileStmt),
    Labelled(LabelledStmt),
    Break(BreakStmt),
    Continue(ContinueStmt),
    Return(ReturnStmt),
    Try(TryStmt),
    For(ForStmt),
    ForIn(ForInStmt),
    With(WithStmt),
}

impl Stmt {
    pub open spec fn spec_span(self) -> Span {
        match self {
            Stmt::Variable(d) => d.span,
            Stmt::Empty(d) => d.span,
            Stmt::Block(d) => d.span,
            Stmt::Expr(d) => d.span,
            Stmt::If(d) => d.span,
            Stmt::Switch(d) => d.span,
            Stmt::Throw(d) => d.span,
            Stmt::While(d) => d.span,
            Stmt::DoWhile(d) => d.span,
            Stmt::Labelled(d) => d.span,
            Stmt::Break(d) => d.span,
            Stmt::Continue(d) => d.span,
            Stmt::Return(d) => d.span,
            Stmt::Try(d) => d.span,
            Stmt::For(d) => d.span,
            Stmt::ForIn(d) => d.span,
            Stmt::With(d) => d.span,
        }
    }

    /// The span stored in whichever statement node this is.
    pub fn span(&self) -> (r: Span)
        ensures
            r == self.spec_span(),
    {
        match self {
            Stmt::Variable(d) => d.span,
            Stmt::Empty(d) => d.span,
            Stmt::Block(d) => d.span,
            Stmt::Expr(d) => d.span,
            Stmt::If(d) => d.span,
            Stmt::Switch(d) => d.span,
            Stmt::Throw(d) => d.span,
            Stmt::While(d) => d.span,
            Stmt::DoWhile(d) => d.span,
            Stmt::Labelled(d) => d.span,
            Stmt::Break(d) => d.span,
            Stmt::Continue(d) => d.span,
            Stmt::Return(d) => d.span,
            Stmt::Try(d) => d.span,
            Stmt::For(d) => d.span,
            Stmt::ForIn(d) => d.span,
            Stmt::With(d) => d.span,
        }
    }
}

/// What a statement list holds: declarations and statements side by side.
#[derive(Debug, PartialEq, Eq, Hash)]
pub enum StmtListItem {
    Declaration(Declaration),
    Stmt(Stmt),
}

/// How a statement that the grammar ends with `;` was ended.
#[derive(Debug, Clone, Copy, PartialEq, Eq, Hash)]
pub enum Semicolon {
    /// Inserted automatically: no source bytes.
    Implicit,
    /// A `;` written out, with the trivia around it.
    Explicit(LiteralWhitespace),
}

impl Semicolon {
    pub open spec fn spec_span(self) -> Option<Span> {
        match self {
            Semicolon::Implicit => None,
            Semicolon::Explicit(ws) => Some(ws.token_span()),
        }
    }

    pub open spec fn spec_offset(self) -> usize {
        match self {
            Semicolon::Implicit => 0,
            Semicolon::Explicit(_) => 1,
        }
    }

    /// The span of the `;` glyph itself, without its trivia; `None` when the
    /// semicolon was inserted.
    pub fn span(&self) -> (r: Option<Span>)
        ensures
            r == self.spec_span(),
    {
        match self {
            Semicolon::Explicit(data) => Some(Span::new(data.before.end, data.after.start)),
            Semicolon::Implicit => None,
        }
    }

    /// The width the terminator adds to the source: one byte when written.
    pub fn offset(&self) -> (r: usize)
        ensures
            r == self.spec_offset(),
    {
        match self {
            Semicolon::Implicit => 0,
            Semicolon::Explicit(_) => 1,
        }
    }
}

/// `name` or `name = value` in a `var` statement.
#[derive(Debug, Clone, Copy, PartialEq, Eq, Hash)]
pub struct Declarator {
    pub span: Span,
    pub name: LiteralExpr,
    pub value: Option<Expr>,
    /// The trivia of the `=`, present exactly when `value` is.
    pub initializer_whitespace: Option<LiteralWhitespace>,
}

impl Declarator {
    /// The initializer is present exactly when the `=` is.
    pub open spec fn wf(self) -> bool {
        self.initializer_whitespace.is_some() == self.value.is_some()
    }

    pub open spec fn spec_span(self) -> Span {
        match self.value {
            Some(e) => e.spec_span(),
            None => self.name.span,
        }
    }

    /// The end part of a declarator: the value's span when it has one, else
    /// the name's.
    pub fn span(&self) -> (r: Span)
        ensures
            r == self.spec_span(),
    {
        match &self.value {
            Some(e) => e.span(),
            None => self.name.span,
        }
    }
}

#[derive(Debug, Clone, PartialEq, Eq, Hash)]
pub struct VarStmt {
    pub span: Span,
    pub declared: Vec<Declarator>,
    pub comma_whitespaces: Vec<LiteralWhitespace>,
    /// The trivia of the `var` keyword.
    pub var_whitespace: LiteralWhitespace,
    pub semi: Semicolon,
}

#[derive(Debug, PartialEq, Eq, Hash)]
pub struct BlockStmt {
    pub span: Span,
    pub stmts: Vec<Stmt>,
    pub open_brace_whitespace: LiteralWhitespace,
    pub close_brace_whitespace: LiteralWhitespace,
}

#[derive(Debug, Clone, PartialEq, Eq, Hash)]
pub struct EmptyStmt {
    pub span: Span,
    pub semi_whitespace: LiteralWhitespace,
}

#[derive(Debug, Clone, PartialEq, Eq, Hash)]
pub struct ExprStmt {
    pub span: Span,
    pub expr: Expr,
    pub semi: Semicolon,
}

#[derive(Debug, PartialEq, Eq, Hash)]
pub struct IfStmt {
    pub span: Span,
    pub if_whitespace: LiteralWhitespace,
    pub open_paren_whitespace: LiteralWhitespace,
    pub close_paren_whitespace: LiteralWhitespace,
    pub condition: Expr,
    pub cons: Box<Stmt>,
    pub else_whitespace: Option<LiteralWhitespace>,
    pub alt: Option<Box<Stmt>>,
}

#[derive(Debug, PartialEq, Eq, Hash)]
pub struct Case {
    pub span: Span,
    /// Whether this is the `default:` case.
    pub default: bool,
    pub whitespace: LiteralWhitespace,
    pub colon_whitespace: LiteralWhitespace,
    pub test: Option<Expr>,
    pub cons: Vec<Stmt>,
}

#[derive(Debug, PartialEq, Eq, Hash)]
pub struct SwitchStmt {
    pub span: Span,
    pub switch_whitespace: LiteralWhitespace,
    pub open_paren_whitespace: LiteralWhitespace,
    pub close_paren_whitespace: LiteralWhitespace,
    pub test: Expr,
    pub open_brace_whitespace: LiteralWhitespace,
    pub close_brace_whitespace: LiteralWhitespace,
    pub cases: Vec<Case>,
}

#[derive(Debug, Clone, PartialEq, Eq, Hash)]
pub struct ThrowStmt {
    pub span: Span,
    pub arg: Expr,
    pub semi: Semicolon,
    pub throw_whitespace: LiteralWhitespace,
}

#[derive(Debug, PartialEq, Eq, Hash)]
pub struct WhileStmt {
    pub span: Span,
    pub while_whitespace: LiteralWhitespace,
    pub open_paren_whitespace: LiteralWhitespace,
    pub close_paren_whitespace: LiteralWhitespace,
    pub condition: Expr,
    pub cons: Box<Stmt>,
}

#[derive(Debug, PartialEq, Eq, Hash)]
pub struct DoWhileStmt {
    pub span: Span,
    pub do_whitespace: LiteralWhitespace,
    pub while_whitespace: LiteralWhitespace,
    pub open_paren_whitespace: LiteralWhitespace,
    pub close_paren_whitespace: LiteralWhitespace,
    pub condition: Expr,
    pub cons: Box<Stmt>,
}

#[derive(Debug, PartialEq, Eq, Hash)]
pub struct LabelledStmt {
    pub span: Span,
    pub label: LiteralExpr,
    pub colon_whitespace: LiteralWhitespace,
    pub body: Box<Stmt>,
}

#[derive(Debug, Clone, PartialEq, Eq, Hash)]
pub struct BreakStmt {
    pub span: Span,
    pub break_whitespace: LiteralWhitespace,
    pub label: Option<LiteralExpr>,
    pub semi: Semicolon,
}

#[derive(Debug, Clone, PartialEq, Eq, Hash)]
pub struct ContinueStmt {
    pub span: Span,
    pub continue_whitespace: LiteralWhitespace,
    pub label: Option<LiteralExpr>,
    pub semi: Semicolon,
}

#[derive(Debug, Clone, PartialEq, Eq, Hash)]
pub struct ReturnStmt {
    pub span: Span,
    pub return_whitespace: LiteralWhitespace,
    pub value: Option<Expr>,
    pub semi: Semicolon,
}

#[derive(Debug, PartialEq, Eq, Hash)]
pub struct CatchClause {
    pub span: Span,
    pub catch_whitespace: LiteralWhitespace,
    pub open_paren_whitespace: LiteralWhitespace,
    pub close_paren_whitespace: LiteralWhitespace,
    pub param: LiteralExpr,
    pub body: BlockStmt,
}

#[derive(Debug, PartialEq, Eq, Hash)]
pub struct TryStmt {
    pub span: Span,
    pub try_whitespace: LiteralWhitespace,
    pub test: BlockStmt,
    pub handler: Option<CatchClause>,
    pub finalizer: Option<BlockStmt>,
    pub final_whitespace: Option<LiteralWhitespace>,
}

#[derive(Debug, Clone, PartialEq, Eq, Hash)]
pub enum ForStmtInit {
    Expr(Expr),
    Var(VarStmt),
}

#[derive(Debug, PartialEq, Eq, Hash)]
pub struct ForStmt {
    pub span: Span,
    pub for_whitespace: LiteralWhitespace,
    pub open_paren_whitespace: LiteralWhitespace,
    pub close_paren_whitespace: LiteralWhitespace,
    pub init: Option<ForStmtInit>,
    pub test: Option<Expr>,
    pub update: Option<Expr>,
    pub body: Box<Stmt>,
    pub init_semicolon_whitespace: LiteralWhitespace,
    pub test_semicolon_whitespace: LiteralWhitespace,
}

#[derive(Debug, PartialEq, Eq, Hash)]
pub struct ForInStmt {
    pub span: Span,
    pub for_whitespace: LiteralWhitespace,
    pub open_paren_whitespace: LiteralWhitespace,
    pub close_paren_whitespace: LiteralWhitespace,
    pub left: ForStmtInit,
    pub right: Expr,
    pub in_whitespace: LiteralWhitespace,
    pub body: Box<Stmt>,
}

#[derive(Debug, PartialEq, Eq, Hash)]
pub struct WithStmt {
    pub span: Span,
    pub with_whitespace: LiteralWhitespace,
    pub open_paren_whitespace: LiteralWhitespace,
    pub close_paren_whitespace: LiteralWhitespace,
    pub object: Expr,
    pub body: Box<Stmt>,
}

/// `child` is a well-formed span inside `parent`.
pub open spec fn inside(child: Span, parent: Span) -> bool {
    child.wf() && child.within(parent)
}

/// Each span of `spans` lies inside `parent`, in source order.
pub open spec fn ordered_inside(spans: Seq<Span>, parent: Span) -> bool {
    &&& forall|k: int| 0 <= k < spans.len() ==> inside(#[trigger] spans[k], parent)
    &&& forall|k: int| 0 <= k < spans.len() - 1 ==> (#[trigger] spans[k]).precedes(spans[k + 1])
}

pub open spec fn stmt_spans(stmts: Seq<Stmt>) -> Seq<Span> {
    Seq::new(stmts.len(), |k: int| stmts[k].spec_span())
}

pub open spec fn case_spans(cases: Seq<Case>) -> Seq<Span> {
    Seq::new(cases.len(), |k: int| cases[k].span)
}

pub open spec fn declarator_spans(ds: Seq<Declarator>) -> Seq<Span> {
    Seq::new(ds.len(), |k: int| ds[k].span)
}

pub open spec fn opt_expr_span(e: Option<Expr>) -> Option<Span> {
    match e {
        Some(x) => Some(x.spec_span()),
        None => None,
    }
}

/// The children that are present (`Some`) lie inside `parent`, and any two
/// of them follow one another in the order given.
pub open spec fn opt_ordered_inside(spans: Seq<Option<Span>>, parent: Span) -> bool {
    &&& forall|k: int| 0 <= k < spans.len() && (#[trigger] spans[k]) is Some ==> inside(spans[k]->0, parent)
    &&& forall|i: int, j: int|
        0 <= i < j < spans.len() && (#[trigger] spans[i]) is Some && (#[trigger] spans[j]) is Some
            ==> spans[i]->0.precedes(spans[j]->0)
}

pub open spec fn opt_stmt_span(s: Option<Box<Stmt>>) -> Option<Span> {
    match s {
        Some(x) => Some(x.spec_span()),
        None => None,
    }
}

pub open spec fn opt_catch_span(c: Option<CatchClause>) -> Option<Span> {
    match c {
        Some(x) => Some(x.span),
        None => None,
    }
}

pub open spec fn opt_block_span(b: Option<BlockStmt>) -> Option<Span> {
    match b {
        Some(x) => Some(x.span),
        None => None,
    }
}

impl Declarator {
    /// Name, then value, inside the declarator's span.
    pub open spec fn nested(self) -> bool {
        opt_ordered_inside(seq![Some(self.name.span), opt_expr_span(self.value)], self.span)
    }
}

impl VarStmt {
    pub open spec fn nested(self) -> bool {
        &&& ordered_inside(declarator_spans(self.declared@), self.span)
        &&& forall|k: int| 0 <= k < self.declared@.len() ==> (#[trigger] self.declared@[k]).nested()
    }
}

impl ForStmtInit {
    pub open spec fn spec_span(self) -> Span {
        match self {
            ForStmtInit::Expr(e) => e.spec_span(),
            ForStmtInit::Var(v) => v.span,
        }
    }

    pub open spec fn nested(self) -> bool {
        match self {
            ForStmtInit::Expr(_) => true,
            ForStmtInit::Var(v) => v.nested(),
        }
    }
}

pub open spec fn opt_init_span(i: Option<ForStmtInit>) -> Option<Span> {
    match i {
        Some(x) => Some(x.spec_span()),
        None => None,
    }
}

/// Span containment over the whole tree: within every node, the spans of
/// its children lie inside the node's span and follow one another in source
/// order without overlapping.
pub open spec fn well_nested(s: Stmt) -> bool
    decreases s,
{
    match s {
        Stmt::Variable(v) => v.nested(),
        Stmt::Empty(_) => true,
        Stmt::Block(b) => block_nested(b),
        Stmt::Expr(e) => opt_ordered_inside(seq![Some(e.expr.spec_span())], e.span),
        Stmt::If(d) => {
            &&& opt_ordered_inside(seq![Some(d.condition.spec_span()), Some(d.cons.spec_span()), opt_stmt_span(d.alt)], d.span)
            &&& well_nested(*d.cons)
            &&& (d.alt matches Some(a) ==> well_nested(*a))
        },
        Stmt::Switch(d) => {
            &&& inside(d.test.spec_span(), d.span)
            &&& ordered_inside(case_spans(d.cases@), d.span)
            &&& forall|k: int| 0 <= k < d.cases@.len() ==> d.test.spec_span().precedes((#[trigger] d.cases@[k]).span)
            &&& forall|k: int| 0 <= k < d.cases@.len() ==> case_nested(#[trigger] d.cases@[k])
        },
        Stmt::Throw(d) => opt_ordered_inside(seq![Some(d.arg.spec_span())], d.span),
        Stmt::While(d) => {
            &&& opt_ordered_inside(seq![Some(d.condition.spec_span()), Some(d.cons.spec_span())], d.span)
            &&& well_nested(*d.cons)
        },
        Stmt::DoWhile(d) => {
            &&& opt_ordered_inside(seq![Some(d.cons.spec_span()), Some(d.condition.spec_span())], d.span)
            &&& well_nested(*d.cons)
        },
        Stmt::Labelled(d) => {
            &&& opt_ordered_inside(seq![Some(d.label.span), Some(d.body.spec_span())], d.span)
            &&& well_nested(*d.body)
        },
        Stmt::Break(d) => opt_ordered_inside(seq![match d.label { Some(l) => Some(l.span), None => None }], d.span),
        Stmt::Continue(d) => opt_ordered_inside(seq![match d.label { Some(l) => Some(l.span), None => None }], d.span),
        Stmt::Return(d) => opt_ordered_inside(seq![opt_expr_span(d.value)], d.span),
        Stmt::Try(d) => {
            &&& opt_ordered_inside(seq![Some(d.test.span), opt_catch_span(d.handler), opt_block_span(d.finalizer)], d.span)
            &&& block_nested(d.test)
            &&& (d.handler matches Some(h) ==> opt_ordered_inside(seq![Some(h.param.span), Some(h.body.span)], h.span) && block_nested(h.body))
            &&& (d.finalizer matches Some(f) ==> block_nested(f))
        },
        Stmt::For(d) => {
            &&& opt_ordered_inside(seq![opt_init_span(d.init), opt_expr_span(d.test), opt_expr_span(d.update), Some(d.body.spec_span())], d.span)
            &&& (d.init matches Some(i) ==> i.nested())
            &&& well_nested(*d.body)
        },
        Stmt::ForIn(d) => {
            &&& opt_ordered_inside(seq![Some(d.left.spec_span()), Some(d.right.spec_span()), Some(d.body.spec_span())], d.span)
            &&& d.left.nested()
            &&& well_nested(*d.body)
        },
        Stmt::With(d) => {
            &&& opt_ordered_inside(seq![Some(d.object.spec_span()), Some(d.body.spec_span())], d.span)
            &&& well_nested(*d.body)
        },
    }
}

/// The statements of a block lie inside it, in order, each well nested.
pub open spec fn block_nested(b: BlockStmt) -> bool
    decreases b,
{
    &&& ordered_inside(stmt_spans(b.stmts@), b.span)
    &&& forall|k: int| 0 <= k < b.stmts@.len() ==> well_nested(#[trigger] b.stmts@[k])
}

/// A case's test, then its statements, lie inside the case, each well nested.
pub open spec fn case_nested(c: Case) -> bool
    decreases c,
{
    &&& ordered_inside(stmt_spans(c.cons@), c.span)
    &&& (c.test matches Some(t) ==> inside(t.spec_span(), c.span) && forall|k: int| 0 <= k < c.cons@.len() ==> t.spec_span().precedes((#[trigger] c.cons@[k]).spec_span()))
    &&& forall|k: int| 0 <= k < c.cons@.len() ==> well_nested(#[trigger] c.cons@[k])
}

/// The trivia of the significant tokens of an expression, in source order.
pub open spec fn expr_trivia(e: Expr) -> Seq<LiteralWhitespace> {
    match e {
        Expr::Identifier(l) => seq![l.whitespace],
        Expr::Number(l) => seq![l.whitespace],
        Expr::Str(l) => seq![l.whitespace],
        Expr::Missing(_) => Seq::empty(),
    }
}

pub open spec fn opt_expr_trivia(e: Option<Expr>) -> Seq<LiteralWhitespace> {
    match e {
        Some(x) => expr_trivia(x),
        None => Seq::empty(),
    }
}

pub open spec fn opt_trivia(w: Option<LiteralWhitespace>) -> Seq<LiteralWhitespace> {
    match w {
        Some(x) => seq![x],
        None => Seq::empty(),
    }
}

pub open spec fn label_trivia(l: Option<LiteralExpr>) -> Seq<LiteralWhitespace> {
    match l {
        Some(x) => seq![x.whitespace],
        None => Seq::empty(),
    }
}

/// An inserted semicolon contributes no token.
pub open spec fn semi_trivia(s: Semicolon) -> Seq<LiteralWhitespace> {
    match s {
        Semicolon::Implicit => Seq::empty(),
        Semicolon::Explicit(ws) => seq![ws],
    }
}

impl Declarator {
    pub open spec fn trivia(self) -> Seq<LiteralWhitespace> {
        seq![self.name.whitespace] + opt_trivia(self.initializer_whitespace) + opt_expr_trivia(self.value)
    }
}

/// Each declarator followed by the comma after it, if any.
pub open spec fn items_trivia(ds: Seq<Declarator>, cs: Seq<LiteralWhitespace>) -> Seq<LiteralWhitespace> {
    Seq::new(
        ds.len(),
        |k: int|
            if 0 <= k < ds.len() {
                ds[k].trivia() + if k < cs.len() {
                    seq![cs[k]]
                } else {
                    Seq::empty()
                }
            } else {
                Seq::empty()
            },
    ).flatten()
}

impl VarStmt {
    pub open spec fn trivia(self) -> Seq<LiteralWhitespace> {
        seq![self.var_whitespace] + items_trivia(self.declared@, self.comma_whitespaces@) + semi_trivia(self.semi)
    }
}

impl ForStmtInit {
    pub open spec fn trivia(self) -> Seq<LiteralWhitespace> {
        match self {
            ForStmtInit::Expr(e) => expr_trivia(e),
            ForStmtInit::Var(v) => v.trivia(),
        }
    }
}

pub open spec fn opt_init_trivia(i: Option<ForStmtInit>) -> Seq<LiteralWhitespace> {
    match i {
        Some(x) => x.trivia(),
        None => Seq::empty(),
    }
}

/// The trivia of every significant token of a statement, in source order;
/// with each token's text lying between its two trivia spans, this is the
/// statement's source, byte for byte.
pub open spec fn trivia_of(s: Stmt) -> Seq<LiteralWhitespace>
    decreases s,
{
    match s {
        Stmt::Variable(v) => v.trivia(),
        Stmt::Empty(e) => seq![e.semi_whitespace],
        Stmt::Block(b) => block_trivia(b),
        Stmt::Expr(e) => expr_trivia(e.expr) + semi_trivia(e.semi),
        Stmt::If(d) => seq![d.if_whitespace, d.open_paren_whitespace] + expr_trivia(d.condition) + seq![
            d.close_paren_whitespace,
        ] + trivia_of(*d.cons) + opt_trivia(d.else_whitespace) + match d.alt {
            Some(a) => trivia_of(*a),
            None => Seq::empty(),
        },
        Stmt::Switch(d) => seq![d.switch_whitespace, d.open_paren_whitespace] + expr_trivia(d.test) + seq![
            d.close_paren_whitespace,
            d.open_brace_whitespace,
        ] + cases_trivia(d.cases@) + seq![d.close_brace_whitespace],
        Stmt::Throw(d) => seq![d.throw_whitespace] + expr_trivia(d.arg) + semi_trivia(d.semi),
        Stmt::While(d) => seq![d.while_whitespace, d.open_paren_whitespace] + expr_trivia(d.condition) + seq![
            d.close_paren_whitespace,
        ] + trivia_of(*d.cons),
        Stmt::DoWhile(d) => seq![d.do_whitespace] + trivia_of(*d.cons) + seq![d.while_whitespace, d.open_paren_whitespace]
            + expr_trivia(d.condition) + seq![d.close_paren_whitespace],
        Stmt::Labelled(d) => seq![d.label.whitespace, d.colon_whitespace] + trivia_of(*d.body),
        Stmt::Break(d) => seq![d.break_whitespace] + label_trivia(d.label) + semi_trivia(d.semi),
        Stmt::Continue(d) => seq![d.continue_whitespace] + label_trivia(d.label) + semi_trivia(d.semi),
        Stmt::Return(d) => seq![d.return_whitespace] + opt_expr_trivia(d.value) + semi_trivia(d.semi),
        Stmt::Try(d) => seq![d.try_whitespace] + block_trivia(d.test) + match d.handler {
            Some(h) => catch_trivia(h),
            None => Seq::empty(),
        } + opt_trivia(d.final_whitespace) + match d.finalizer {
            Some(f) => block_trivia(f),
            None => Seq::empty(),
        },
        Stmt::For(d) => seq![d.for_whitespace, d.open_paren_whitespace] + opt_init_trivia(d.init) + seq![
            d.init_semicolon_whitespace,
        ] + opt_expr_trivia(d.test) + seq![d.test_semicolon_whitespace] + opt_expr_trivia(d.update) + seq![
            d.close_paren_whitespace,
        ] + trivia_of(*d.body),
        Stmt::ForIn(d) => seq![d.for_whitespace, d.open_paren_whitespace] + d.left.trivia() + seq![d.in_whitespace]
            + expr_trivia(d.right) + seq![d.close_paren_whitespace] + trivia_of(*d.body),
        Stmt::With(d) => seq![d.with_whitespace, d.open_paren_whitespace] + expr_trivia(d.object) + seq![
            d.close_paren_whitespace,
        ] + trivia_of(*d.body),
    }
}

/// The trivia of statements one after another.
pub open spec fn stmts_trivia(s: Seq<Stmt>) -> Seq<LiteralWhitespace>
    decreases s, 1nat,
{
    stmts_trivia_parts(s).flatten()
}

pub open spec fn stmts_trivia_parts(s: Seq<Stmt>) -> Seq<Seq<LiteralWhitespace>>
    decreases s, 0nat,
{
    Seq::new(s.len(), |k: int| if 0 <= k < s.len() { trivia_of(s[k]) } else { Seq::empty() })
}

/// The trivia of switch cases one after another.
pub open spec fn cases_trivia(s: Seq<Case>) -> Seq<LiteralWhitespace>
    decreases s, 1nat,
{
    cases_trivia_parts(s).flatten()
}

pub open spec fn cases_trivia_parts(s: Seq<Case>) -> Seq<Seq<LiteralWhitespace>>
    decreases s, 0nat,
{
    Seq::new(s.len(), |k: int| if 0 <= k < s.len() { case_trivia(s[k]) } else { Seq::empty() })
}

pub open spec fn block_trivia(b: BlockStmt) -> Seq<LiteralWhitespace>
    decreases b,
{
    seq![b.open_brace_whitespace] + stmts_trivia(b.stmts@) + seq![b.close_brace_whitespace]
}

pub open spec fn case_trivia(c: Case) -> Seq<LiteralWhitespace>
    decreases c,
{
    seq![c.whitespace] + opt_expr_trivia(c.test) + seq![c.colon_whitespace] + stmts_trivia(c.cons@)
}

pub open spec fn catch_trivia(h: CatchClause) -> Seq<LiteralWhitespace>
    decreases h,
{
    seq![h.catch_whitespace, h.open_paren_whitespace, h.param.whitespace, h.close_paren_whitespace] + block_trivia(
        h.body,
    )
}

/// An inserted semicolon adds no width and has no span; a written one adds
/// one byte and its span is the glyph between its trivia.
pub proof fn semicolon_offset_law(ws: LiteralWhitespace)
    ensures
        Semicolon::Implicit.spec_offset() == 0,
        Semicolon::Implicit.spec_span() is None,
        Semicolon::Explicit(ws).spec_offset() == 1,
        Semicolon::Explicit(ws).spec_span() == Some(ws.token_span()),
{
}

} // verus!
