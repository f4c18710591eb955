use rslint_parse::expr::Expr;
use rslint_parse::parser::{parse_expr, parse_program, parse_semicolon, parse_stmt};
use rslint_parse::span::{LiteralWhitespace, Span};
use rslint_parse::stmt::{ForStmtInit, Semicolon, Stmt};
use rslint_parse::token::{Diagnostic, Expected, Token, TokenKind};

fn kind_of(text: &str) -> TokenKind {
    match text {
        ";" => TokenKind::Semicolon,
        "," => TokenKind::Comma,
        ":" => TokenKind::Colon,
        "=" => TokenKind::Assign,
        "(" => TokenKind::LParen,
        ")" => TokenKind::RParen,
        "{" => TokenKind::LBrace,
        "}" => TokenKind::RBrace,
        "var" => TokenKind::Var,
        "if" => TokenKind::If,
        "else" => TokenKind::Else,
        "switch" => TokenKind::Switch,
        "case" => TokenKind::Case,
        "default" => TokenKind::Default,
        "throw" => TokenKind::Throw,
        "while" => TokenKind::While,
        "do" => TokenKind::Do,
        "break" => TokenKind::Break,
        "continue" => TokenKind::Continue,
        "return" => TokenKind::Return,
        "try" => TokenKind::Try,
        "catch" => TokenKind::Catch,
        "finally" => TokenKind::Finally,
        "for" => TokenKind::For,
        "in" => TokenKind::In,
        "with" => TokenKind::With,
        t if t.starts_with('"') => TokenKind::Str,
        t if t.as_bytes()[0].is_ascii_digit() => TokenKind::Number,
        t if t.as_bytes()[0].is_ascii_alphabetic() || t.as_bytes()[0] == b'_' => TokenKind::Identifier,
        _ => TokenKind::Other,
    }
}

/// Splits `src` into tokens; each token's leading whitespace is its
/// before-trivia and its after-trivia is empty.
fn lex(src: &str) -> Vec<Token> {
    let b = src.as_bytes();
    let mut i = 0;
    let mut toks = Vec::new();
    loop {
        let ws_start = i;
        let mut line_break = false;
        while i < b.len() && b[i].is_ascii_whitespace() {
            if b[i] == b'\n' {
                line_break = true;
            }
            i += 1;
        }
        if i >= b.len() {
            break;
        }
        let start = i;
        if b[i].is_ascii_alphanumeric() || b[i] == b'_' {
            while i < b.len() && (b[i].is_ascii_alphanumeric() || b[i] == b'_') {
                i += 1;
            }
        } else if b[i] == b'"' {
            i += 1;
            while i < b.len() && b[i] != b'"' {
                i += 1;
            }
            i += 1;
        } else {
            i += 1;
        }
        toks.push(Token {
            kind: kind_of(&src[start..i]),
            whitespace: LiteralWhitespace { before: Span::new(ws_start, start), after: Span::new(i, i) },
            line_break_before: line_break,
        });
    }
    toks
}

fn parse(src: &str) -> (Vec<Stmt>, Vec<Diagnostic>) {
    parse_program(&lex(src))
}

fn ident_span(e: &Expr) -> Span {
    match e {
        Expr::Identifier(l) => l.span,
        other => panic!("expected an identifier, got {:?}", other),
    }
}

#[test]
fn return_then_line_break_ends_the_statement() {
    let (stmts, diags) = parse("return\n5;");
    assert_eq!(stmts.len(), 2);
    match &stmts[0] {
        Stmt::Return(r) => {
            assert!(r.value.is_none());
            assert_eq!(r.semi, Semicolon::Implicit);
            assert_eq!(r.span, Span::new(0, 6));
        }
        other => panic!("{:?}", other),
    }
    match &stmts[1] {
        Stmt::Expr(e) => {
            assert!(matches!(e.expr, Expr::Number(_)));
            assert_eq!(e.semi.offset(), 1);
        }
        other => panic!("{:?}", other),
    }
    assert!(diags.is_empty());
}

#[test]
fn return_value_on_same_line() {
    let (stmts, diags) = parse("return 5;");
    assert_eq!(stmts.len(), 1);
    match &stmts[0] {
        Stmt::Return(r) => {
            assert!(matches!(r.value, Some(Expr::Number(_))));
            assert_eq!(r.semi.span(), Some(Span::new(8, 9)));
            assert_eq!(r.span, Span::new(0, 9));
        }
        other => panic!("{:?}", other),
    }
    assert!(diags.is_empty());
}

#[test]
fn break_and_continue_labels_are_restricted() {
    let (stmts, diags) = parse("break\nfoo; continue bar;");
    assert_eq!(stmts.len(), 3);
    match &stmts[0] {
        Stmt::Break(b) => assert!(b.label.is_none()),
        other => panic!("{:?}", other),
    }
    match &stmts[2] {
        Stmt::Continue(c) => assert_eq!(c.label.unwrap().span, Span::new(20, 23)),
        other => panic!("{:?}", other),
    }
    assert!(diags.is_empty());
}

#[test]
fn switch_with_one_default() {
    let (stmts, diags) = parse("switch (x) { case 1: a; default: b; case 2: }");
    assert!(diags.is_empty());
    match &stmts[0] {
        Stmt::Switch(s) => {
            assert_eq!(s.cases.len(), 3);
            let defaults: Vec<_> = s.cases.iter().filter(|c| c.default).collect();
            assert_eq!(defaults.len(), 1);
            assert!(defaults[0].test.is_none());
            assert!(s.cases[0].test.is_some());
            assert!(s.cases[2].test.is_some());
            assert_eq!(s.cases[1].cons.len(), 1);
            assert_eq!(s.cases[2].cons.len(), 0);
        }
        other => panic!("{:?}", other),
    }
}

#[test]
fn switch_with_two_defaults_is_reported() {
    let (stmts, diags) = parse("switch (x) { default: a; default: b; }");
    assert_eq!(diags.len(), 1);
    assert_eq!(diags[0].expected, Expected::SingleDefault);
    assert_eq!(diags[0].found, Some(TokenKind::Default));
    match &stmts[0] {
        Stmt::Switch(s) => {
            assert_eq!(s.cases.len(), 2);
            assert_eq!(s.cases.iter().filter(|c| c.default).count(), 1);
        }
        other => panic!("{:?}", other),
    }
}

#[test]
fn try_with_finally_only() {
    let (stmts, diags) = parse("try { } finally { }");
    assert!(diags.is_empty());
    match &stmts[0] {
        Stmt::Try(t) => {
            assert!(t.handler.is_none());
            assert!(t.finalizer.is_some());
            assert!(t.final_whitespace.is_some());
            assert_eq!(t.span, Span::new(0, 19));
        }
        other => panic!("{:?}", other),
    }
}

#[test]
fn try_with_catch() {
    let (stmts, diags) = parse("try { a } catch (e) { b }");
    assert!(diags.is_empty());
    match &stmts[0] {
        Stmt::Try(t) => {
            let h = t.handler.as_ref().unwrap();
            assert_eq!(h.param.span, Span::new(17, 18));
            assert_eq!(h.body.stmts.len(), 1);
            assert!(t.finalizer.is_none());
        }
        other => panic!("{:?}", other),
    }
}

#[test]
fn try_alone_is_reported() {
    let (stmts, diags) = parse("try { }");
    assert_eq!(stmts.len(), 1);
    assert_eq!(diags.len(), 1);
    assert_eq!(diags[0].expected, Expected::CatchOrFinally);
    assert_eq!(diags[0].found, None);
    match &stmts[0] {
        Stmt::Try(t) => assert!(t.handler.is_none() && t.finalizer.is_none()),
        other => panic!("{:?}", other),
    }
}

#[test]
fn malformed_input_terminates_with_bounded_diagnostics() {
    let src = ") ) : else } case , = ( if while do for switch try";
    let toks = lex(src);
    let (stmts, diags) = parse_program(&toks);
    assert!(!stmts.is_empty());
    assert!(!diags.is_empty());
    assert!(diags.len() <= 5 * toks.len());
}

#[test]
fn if_else_example() {
    let src = "if (x) y; else z";
    let (stmts, diags) = parse(src);
    assert!(diags.is_empty());
    assert_eq!(stmts.len(), 1);
    match &stmts[0] {
        Stmt::If(i) => {
            assert_eq!(i.span, Span::new(0, src.len()));
            assert_eq!(ident_span(&i.condition), Span::new(4, 5));
            match &*i.cons {
                Stmt::Expr(e) => {
                    assert_eq!(ident_span(&e.expr), Span::new(7, 8));
                    assert_eq!(e.semi.span(), Some(Span::new(8, 9)));
                }
                other => panic!("{:?}", other),
            }
            assert!(i.else_whitespace.is_some());
            match i.alt.as_deref() {
                Some(Stmt::Expr(e)) => {
                    assert_eq!(ident_span(&e.expr), Span::new(15, 16));
                    assert_eq!(e.semi, Semicolon::Implicit);
                }
                other => panic!("{:?}", other),
            }
        }
        other => panic!("{:?}", other),
    }
}

#[test]
fn missing_terminator_on_same_line_is_reported() {
    let (stmts, diags) = parse("a b");
    assert_eq!(stmts.len(), 2);
    assert_eq!(diags.len(), 1);
    assert_eq!(diags[0].expected, Expected::Terminator);
    assert_eq!(diags[0].found, Some(TokenKind::Identifier));
    assert_eq!(diags[0].span, Span::new(2, 3));
}

#[test]
fn semicolon_inserted_before_closing_brace() {
    let (stmts, diags) = parse("{ a }");
    assert!(diags.is_empty());
    match &stmts[0] {
        Stmt::Block(b) => {
            assert_eq!(b.stmts.len(), 1);
            assert_eq!(b.span, Span::new(0, 5));
        }
        other => panic!("{:?}", other),
    }
}

#[test]
fn parse_semicolon_decisions() {
    let toks = lex("a ;");
    let mut diags = Vec::new();
    let (semi, next) = parse_semicolon(&toks, 1, &mut diags);
    assert_eq!(semi, Semicolon::Explicit(toks[1].whitespace));
    assert_eq!(next, 2);
    let (semi, next) = parse_semicolon(&toks, 2, &mut diags);
    assert_eq!(semi, Semicolon::Implicit);
    assert_eq!(next, 2);
    assert!(diags.is_empty());
}

#[test]
fn missing_paren_is_reported_and_parsing_goes_on() {
    let (stmts, diags) = parse("if x) y; z;");
    assert_eq!(stmts.len(), 2);
    assert_eq!(diags.len(), 1);
    assert_eq!(diags[0].expected, Expected::Token(TokenKind::LParen));
    assert_eq!(diags[0].found, Some(TokenKind::Identifier));
}

#[test]
fn missing_expression_is_reported() {
    let (stmts, diags) = parse("throw;");
    assert_eq!(diags.len(), 1);
    assert_eq!(diags[0].expected, Expected::Expression);
    match &stmts[0] {
        Stmt::Throw(t) => assert_eq!(t.arg, Expr::Missing(Span::new(5, 5))),
        other => panic!("{:?}", other),
    }
}

#[test]
fn unexpected_token_is_skipped_to_next_statement() {
    let (stmts, diags) = parse(") ) x;");
    assert_eq!(diags.len(), 1);
    assert_eq!(diags[0].expected, Expected::Statement);
    assert_eq!(stmts.len(), 2);
    assert_eq!(stmts[0].span(), Span::new(0, 3));
    assert!(matches!(stmts[1], Stmt::Expr(_)));
}

#[test]
fn var_statement_with_declarators() {
    let (stmts, diags) = parse("var a = 1, b;");
    assert!(diags.is_empty());
    match &stmts[0] {
        Stmt::Variable(v) => {
            assert_eq!(v.declared.len(), 2);
            assert_eq!(v.comma_whitespaces.len(), 1);
            assert_eq!(v.declared[0].span(), Span::new(8, 9));
            assert!(v.declared[0].initializer_whitespace.is_some());
            assert_eq!(v.declared[1].span(), Span::new(11, 12));
            assert!(v.declared[1].initializer_whitespace.is_none());
            assert_eq!(v.span, Span::new(0, 13));
        }
        other => panic!("{:?}", other),
    }
}

#[test]
fn for_statement_clauses() {
    let (stmts, diags) = parse("for (var i = 0; i; i) x;");
    assert!(diags.is_empty());
    match &stmts[0] {
        Stmt::For(f) => {
            assert!(matches!(f.init, Some(ForStmtInit::Var(_))));
            assert!(f.test.is_some());
            assert!(f.update.is_some());
            assert_eq!(f.span, Span::new(0, 24));
        }
        other => panic!("{:?}", other),
    }
    let (stmts, diags) = parse("for (;;) {}");
    assert!(diags.is_empty());
    match &stmts[0] {
        Stmt::For(f) => assert!(f.init.is_none() && f.test.is_none() && f.update.is_none()),
        other => panic!("{:?}", other),
    }
}

#[test]
fn for_in_statement() {
    let (stmts, diags) = parse("for (k in o) {}");
    assert!(diags.is_empty());
    match &stmts[0] {
        Stmt::ForIn(f) => {
            assert!(matches!(f.left, ForStmtInit::Expr(Expr::Identifier(_))));
            assert_eq!(ident_span(&f.right), Span::new(10, 11));
        }
        other => panic!("{:?}", other),
    }
}

#[test]
fn do_while_leaves_trailing_semicolon() {
    let (stmts, diags) = parse("do x; while (y); z");
    assert!(diags.is_empty());
    assert_eq!(stmts.len(), 3);
    assert!(matches!(stmts[0], Stmt::DoWhile(_)));
    assert_eq!(stmts[0].span(), Span::new(0, 15));
    assert!(matches!(stmts[1], Stmt::Empty(_)));
}

#[test]
fn labelled_while_and_with() {
    let (stmts, diags) = parse("outer: while (a) with (b) c;");
    assert!(diags.is_empty());
    match &stmts[0] {
        Stmt::Labelled(l) => {
            assert_eq!(l.label.span, Span::new(0, 5));
            match &*l.body {
                Stmt::While(w) => assert!(matches!(*w.cons, Stmt::With(_))),
                other => panic!("{:?}", other),
            }
        }
        other => panic!("{:?}", other),
    }
}

#[test]
fn missing_body_at_end_of_input() {
    let (stmts, diags) = parse("while (a)");
    assert_eq!(diags.len(), 1);
    assert_eq!(diags[0].expected, Expected::Statement);
    assert_eq!(diags[0].found, None);
    assert_eq!(stmts[0].span(), Span::new(0, 9));
}

#[test]
fn parse_stmt_consumes_one_statement() {
    let toks = lex("x; y;");
    let mut diags = Vec::new();
    let (st, next) = parse_stmt(&toks, 0, &mut diags);
    assert_eq!(next, 2);
    assert_eq!(st.span(), Span::new(0, 2));
}

#[test]
fn empty_input_yields_nothing() {
    let (stmts, diags) = parse("   ");
    assert!(stmts.is_empty());
    assert!(diags.is_empty());
}

#[test]
fn trivia_and_token_text_rebuild_the_source() {
    let src = "var  a = 1 ,b ;";
    let (stmts, _) = parse(src);
    let mut out = String::new();
    let mut push = |w: &LiteralWhitespace| {
        out.push_str(&src[w.before.start..w.before.end]);
        out.push_str(&src[w.before.end..w.after.start]);
        out.push_str(&src[w.after.start..w.after.end]);
    };
    match &stmts[0] {
        Stmt::Variable(v) => {
            push(&v.var_whitespace);
            for (i, d) in v.declared.iter().enumerate() {
                push(&d.name.whitespace);
                if let Some(eq) = &d.initializer_whitespace {
                    push(eq);
                    match d.value.as_ref().unwrap() {
                        Expr::Number(n) => push(&n.whitespace),
                        other => panic!("{:?}", other),
                    }
                }
                if i < v.comma_whitespaces.len() {
                    push(&v.comma_whitespaces[i]);
                }
            }
            match &v.semi {
                Semicolon::Explicit(w) => push(w),
                Semicolon::Implicit => {}
            }
        }
        other => panic!("{:?}", other),
    }
    assert_eq!(out, src);
}

fn expr_ws(e: &Expr, out: &mut Vec<LiteralWhitespace>) {
    match e {
        Expr::Identifier(l) | Expr::Number(l) | Expr::Str(l) => out.push(l.whitespace),
        Expr::Missing(_) => {}
    }
}

fn semi_ws(s: &Semicolon, out: &mut Vec<LiteralWhitespace>) {
    if let Semicolon::Explicit(w) = s {
        out.push(*w);
    }
}

/// In-order trivia of the statement forms used by the round-trip tests.
fn stmt_ws(s: &Stmt, out: &mut Vec<LiteralWhitespace>) {
    match s {
        Stmt::Expr(e) => {
            expr_ws(&e.expr, out);
            semi_ws(&e.semi, out);
        }
        Stmt::Empty(e) => out.push(e.semi_whitespace),
        Stmt::Block(b) => {
            out.push(b.open_brace_whitespace);
            for st in &b.stmts {
                stmt_ws(st, out);
            }
            out.push(b.close_brace_whitespace);
        }
        Stmt::If(i) => {
            out.push(i.if_whitespace);
            out.push(i.open_paren_whitespace);
            expr_ws(&i.condition, out);
            out.push(i.close_paren_whitespace);
            stmt_ws(&i.cons, out);
            if let Some(w) = i.else_whitespace {
                out.push(w);
            }
            if let Some(a) = &i.alt {
                stmt_ws(a, out);
            }
        }
        Stmt::Return(r) => {
            out.push(r.return_whitespace);
            if let Some(v) = &r.value {
                expr_ws(v, out);
            }
            semi_ws(&r.semi, out);
        }
        other => panic!("not covered here: {:?}", other),
    }
}

fn rebuild(src: &str, ws: &[LiteralWhitespace]) -> String {
    let mut out = String::new();
    for w in ws {
        out.push_str(&src[w.before.start..w.after.end]);
    }
    out
}

#[test]
fn round_trip_if_else_with_blocks() {
    let src = "if ( x )  {\n  y ;\n  return  1\n}\nelse z ;  ;";
    let toks = lex(src);
    let (stmts, diags) = parse_program(&toks);
    assert!(diags.is_empty());
    let mut ws = Vec::new();
    for s in &stmts {
        stmt_ws(s, &mut ws);
    }
    let expected: Vec<LiteralWhitespace> = toks.iter().map(|t| t.whitespace).collect();
    assert_eq!(ws, expected);
    assert_eq!(rebuild(src, &ws), src);
}

#[test]
fn child_spans_nest_inside_parents() {
    let src = "if (x) { y; z } else w;";
    let (stmts, diags) = parse(src);
    assert!(diags.is_empty());
    let within = |c: Span, p: Span| p.start <= c.start && c.end <= p.end;
    match &stmts[0] {
        Stmt::If(i) => {
            let cons = i.cons.span();
            let alt = i.alt.as_ref().unwrap().span();
            assert!(within(i.condition.span(), i.span));
            assert!(within(cons, i.span));
            assert!(within(alt, i.span));
            assert!(i.condition.span().end <= cons.start);
            assert!(cons.end <= alt.start);
            match &*i.cons {
                Stmt::Block(b) => {
                    assert_eq!(b.stmts.len(), 2);
                    assert!(within(b.stmts[0].span(), b.span));
                    assert!(within(b.stmts[1].span(), b.span));
                    assert!(b.stmts[0].span().end <= b.stmts[1].span().start);
                }
                other => panic!("{:?}", other),
            }
        }
        other => panic!("{:?}", other),
    }
}

#[test]
fn missing_catch_parameter_is_reported() {
    let (stmts, diags) = parse("try {} catch () {}");
    assert_eq!(diags.len(), 1);
    assert_eq!(diags[0].expected, Expected::Token(TokenKind::Identifier));
    assert_eq!(diags[0].found, Some(TokenKind::RParen));
    match &stmts[0] {
        Stmt::Try(t) => {
            let h = t.handler.as_ref().unwrap();
            assert_eq!(h.param.span, Span::new(14, 14));
        }
        other => panic!("{:?}", other),
    }
}

#[test]
fn missing_declarator_name_is_reported() {
    let (stmts, diags) = parse("var = 1;");
    assert_eq!(diags.len(), 1);
    assert_eq!(diags[0].expected, Expected::Token(TokenKind::Identifier));
    match &stmts[0] {
        Stmt::Variable(v) => {
            assert_eq!(v.declared.len(), 1);
            assert_eq!(v.declared[0].name.span, Span::new(4, 4));
            assert_eq!(v.declared[0].span(), Span::new(6, 7));
            assert_eq!(v.span, Span::new(0, 8));
        }
        other => panic!("{:?}", other),
    }
}

#[test]
fn second_default_keeps_missing_test() {
    let (stmts, _) = parse("switch (x) { default: a; default: b; }");
    match &stmts[0] {
        Stmt::Switch(s) => {
            assert!(s.cases[0].default && s.cases[0].test.is_none());
            assert!(!s.cases[1].default);
            assert!(matches!(s.cases[1].test, Some(Expr::Missing(_))));
        }
        other => panic!("{:?}", other),
    }
}

#[test]
fn do_while_without_while_is_reported() {
    let (stmts, diags) = parse("do x;");
    assert_eq!(stmts.len(), 1);
    assert!(matches!(stmts[0], Stmt::DoWhile(_)));
    assert_eq!(diags[0].expected, Expected::Token(TokenKind::While));
    assert_eq!(diags[0].found, None);
}

#[test]
fn explicit_semicolon_splits_expression_statements() {
    let (stmts, diags) = parse("a; b");
    assert!(diags.is_empty());
    assert_eq!(stmts.len(), 2);
    match (&stmts[0], &stmts[1]) {
        (Stmt::Expr(e0), Stmt::Expr(e1)) => {
            assert_eq!(e0.semi.span(), Some(Span::new(1, 2)));
            assert_eq!(stmts[0].span(), Span::new(0, 2));
            assert_eq!(e1.semi.span(), None);
            assert_eq!(stmts[1].span(), Span::new(3, 4));
        }
        other => panic!("{:?}", other),
    }
}

#[test]
fn line_break_inserts_semicolon_without_diagnostic() {
    let (stmts, diags) = parse("a\nb");
    assert!(diags.is_empty());
    assert_eq!(stmts.len(), 2);
    match &stmts[0] {
        Stmt::Expr(e) => assert_eq!(e.semi, Semicolon::Implicit),
        other => panic!("{:?}", other),
    }
    assert_eq!(stmts[0].span(), Span::new(0, 1));
    assert_eq!(stmts[1].span(), Span::new(2, 3));
}

#[test]
fn declarator_spans_with_and_without_value() {
    let (stmts, diags) = parse("var a = 5");
    assert!(diags.is_empty());
    match &stmts[0] {
        Stmt::Variable(v) => {
            assert_eq!(v.declared[0].span(), Span::new(8, 9));
            assert_eq!(v.semi, Semicolon::Implicit);
            assert_eq!(v.span, Span::new(0, 9));
        }
        other => panic!("{:?}", other),
    }
    let (stmts, _) = parse("var a");
    match &stmts[0] {
        Stmt::Variable(v) => assert_eq!(v.declared[0].span(), Span::new(4, 5)),
        other => panic!("{:?}", other),
    }
}

#[test]
fn parse_expr_at_start_of_input() {
    let toks = lex(") x");
    let mut diags = Vec::new();
    let (e, next) = parse_expr(&toks, 0, &mut diags);
    assert_eq!(next, 0);
    assert_eq!(e, Expr::Missing(Span::new(0, 0)));
    assert_eq!(diags.len(), 1);
    let toks = lex("\"s\"");
    let (e, next) = parse_expr(&toks, 0, &mut diags);
    assert_eq!(next, 1);
    assert!(matches!(e, Expr::Str(_)));
}

#[test]
fn leaf_kinds_follow_token_kinds() {
    let (stmts, diags) = parse("if (x) 1; else \"s\"");
    assert!(diags.is_empty());
    match &stmts[0] {
        Stmt::If(i) => {
            assert!(matches!(i.condition, Expr::Identifier(_)));
            match &*i.cons {
                Stmt::Expr(e) => assert!(matches!(e.expr, Expr::Number(_))),
                other => panic!("{:?}", other),
            }
            match i.alt.as_deref() {
                Some(Stmt::Expr(e)) => assert!(matches!(e.expr, Expr::Str(_))),
                other => panic!("{:?}", other),
            }
        }
        other => panic!("{:?}", other),
    }
}

#[test]
fn initializer_trivia_stands_between_name_and_value() {
    let (stmts, _) = parse("var a = 5");
    match &stmts[0] {
        Stmt::Variable(v) => {
            let d = &v.declared[0];
            let w = d.initializer_whitespace.unwrap();
            assert_eq!(d.name.span, Span::new(4, 5));
            assert!(d.name.span.end <= w.before.end);
            assert_eq!(w.after.start, w.before.end + 1);
            assert!(w.after.start <= d.span().start);
        }
        other => panic!("{:?}", other),
    }
}
