use rslint_parse::expr::{Expr, LiteralExpr};
use rslint_parse::span::{LiteralWhitespace, Span};
use rslint_parse::stmt::{Declarator, EmptyStmt, ExprStmt, Semicolon, Stmt};

fn ws(a: usize, b: usize, c: usize, d: usize) -> LiteralWhitespace {
    LiteralWhitespace { before: Span::new(a, b), after: Span::new(c, d) }
}

#[test]
fn implicit_semicolon_has_no_width_and_no_span() {
    assert_eq!(Semicolon::Implicit.offset(), 0);
    assert_eq!(Semicolon::Implicit.span(), None);
}

#[test]
fn explicit_semicolon_has_width_one_and_glyph_span() {
    let semi = Semicolon::Explicit(ws(3, 5, 6, 8));
    assert_eq!(semi.offset(), 1);
    assert_eq!(semi.span(), Some(Span::new(5, 6)));
}

#[test]
fn declarator_span_is_value_span_when_initialized() {
    let name = LiteralExpr { span: Span::new(4, 5), whitespace: ws(3, 4, 5, 6) };
    let value = Expr::Number(LiteralExpr { span: Span::new(8, 10), whitespace: ws(7, 8, 10, 10) });
    let d = Declarator {
        span: Span::new(4, 10),
        name,
        value: Some(value),
        initializer_whitespace: Some(ws(5, 6, 7, 8)),
    };
    assert_eq!(d.span(), Span::new(8, 10));
}

#[test]
fn declarator_span_is_name_span_without_value() {
    let name = LiteralExpr { span: Span::new(4, 5), whitespace: ws(3, 4, 5, 6) };
    let d = Declarator { span: Span::new(4, 5), name, value: None, initializer_whitespace: None };
    assert_eq!(d.span(), Span::new(4, 5));
}

#[test]
fn stmt_span_reads_the_variant_span() {
    let e = Stmt::Empty(EmptyStmt { span: Span::new(2, 3), semi_whitespace: ws(0, 2, 3, 3) });
    assert_eq!(e.span(), Span::new(2, 3));
    let x = Stmt::Expr(ExprStmt {
        span: Span::new(0, 2),
        expr: Expr::Identifier(LiteralExpr { span: Span::new(0, 1), whitespace: ws(0, 0, 1, 1) }),
        semi: Semicolon::Explicit(ws(1, 1, 2, 2)),
    });
    assert_eq!(x.span(), Span::new(0, 2));
}

#[test]
fn expr_span_of_missing_placeholder() {
    assert_eq!(Expr::Missing(Span::new(7, 7)).span(), Span::new(7, 7));
}

#[test]
fn span_len_counts_bytes() {
    assert_eq!(Span::new(3, 10).len(), 7);
}
