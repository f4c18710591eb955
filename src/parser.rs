use vstd::prelude::*;
use crate::span::{Span, LiteralWhitespace};
use crate::expr::{Expr, LiteralExpr};
use crate::token::{Token, TokenKind, Expected, Diagnostic, tokens_wf};
use crate::stmt::{stmts_trivia_parts, cases_trivia_parts, trivia_of, expr_trivia, opt_expr_trivia, opt_trivia, label_trivia, semi_trivia, opt_init_trivia, items_trivia, stmts_trivia, cases_trivia, block_trivia, case_trivia, catch_trivia, opt_catch_span, opt_block_span, opt_expr_span, opt_init_span, opt_stmt_span, inside, ordered_inside, opt_ordered_inside, well_nested, block_nested, case_nested, stmt_spans, case_spans, declarator_spans, Stmt, Semicolon, Declarator, VarStmt, BlockStmt, EmptyStmt, ExprStmt, IfStmt, Case, SwitchStmt, ThrowStmt, WhileStmt, DoWhileStmt, LabelledStmt, BreakStmt, ContinueStmt, ReturnStmt, CatchClause, TryStmt, ForStmtInit, ForStmt, ForInStmt, WithStmt};

verus! {

/// Start of the text of token `i`.
pub open spec fn text_start(ts: Seq<Token>, i: int) -> usize {
    ts[i].whitespace.before.end
}

/// End of the text of token `i`.
pub open spec fn text_end(ts: Seq<Token>, i: int) -> usize {
    ts[i].whitespace.after.start
}

/// The source range of the tokens `lo .. hi`: from the first one's text to
/// the last one's, trivia at both ends left out. Where no token lies in the
/// range, a zero-width span right after the text of token `lo - 1`.
pub open spec fn span_from(ts: Seq<Token>, lo: int, hi: int) -> Span {
    if lo < hi {
        Span { start: text_start(ts, lo), end: text_end(ts, hi - 1) }
    } else {
        Span { start: text_end(ts, lo - 1), end: text_end(ts, lo - 1) }
    }
}

/// `new` is `old` with zero or more diagnostics appended.
pub open spec fn extends(new: Seq<Diagnostic>, old: Seq<Diagnostic>) -> bool {
    &&& old.len() <= new.len()
    &&& forall|i: int| 0 <= i < old.len() ==> new[i] == old[i]
}

/// Automatic semicolon insertion may end a statement before token `pos`:
/// at the end of input, before a `}`, or where a line break intervenes.
pub open spec fn asi_allowed(ts: Seq<Token>, pos: int) -> bool {
    pos >= ts.len() || ts[pos].kind == TokenKind::RBrace || ts[pos].line_break_before
}

/// The token kinds that make a whole single-token expression.
pub open spec fn is_operand(k: TokenKind) -> bool {
    k == TokenKind::Identifier || k == TokenKind::Number || k == TokenKind::Str
}

/// Token texts are ordered as the tokens are.
pub proof fn lemma_text_monotone(ts: Seq<Token>, i: int, j: int)
    requires
        tokens_wf(ts),
        0 <= i <= j < ts.len(),
    ensures
        text_start(ts, i) <= text_end(ts, i),
        text_start(ts, i) <= text_start(ts, j),
        text_end(ts, i) <= text_end(ts, j),
        i < j ==> text_end(ts, i) <= text_start(ts, j),
{
    assert(ts[i].whitespace.wf());
    assert(ts[j].whitespace.wf());
}

/// A span taken over tokens `lo .. hi` lies within the span over any
/// enclosing range, unless it is an empty range at the enclosing range's start.
pub proof fn lemma_span_within(ts: Seq<Token>, lo: int, hi: int, outer_lo: int, outer_hi: int)
    requires
        tokens_wf(ts),
        0 <= outer_lo <= lo <= hi <= outer_hi <= ts.len(),
        outer_lo < lo || lo < hi,
    ensures
        span_from(ts, lo, hi).wf(),
        span_from(ts, lo, hi).within(span_from(ts, outer_lo, outer_hi)),
{
    lemma_text_monotone(ts, outer_lo, outer_hi - 1);
    if lo < hi {
        lemma_text_monotone(ts, outer_lo, lo);
        lemma_text_monotone(ts, lo, hi - 1);
        lemma_text_monotone(ts, hi - 1, outer_hi - 1);
    } else {
        lemma_text_monotone(ts, outer_lo, lo - 1);
        lemma_text_monotone(ts, lo - 1, outer_hi - 1);
    }
}

/// Spans over consecutive token ranges are ordered.
pub proof fn lemma_span_order(ts: Seq<Token>, a: int, b: int, c: int, d: int)
    requires
        tokens_wf(ts),
        0 <= a <= b <= c <= d <= ts.len(),
        a < b || a >= 1,
    ensures
        span_from(ts, a, b).precedes(span_from(ts, c, d)),
{
    lemma_text_monotone(ts, b - 1, c - 1);
    if c < d {
        lemma_text_monotone(ts, c - 1, c);
    }
}

/// A span over a non-empty token range is well formed.
pub proof fn lemma_span_wf(ts: Seq<Token>, lo: int, hi: int)
    requires
        tokens_wf(ts),
        0 <= lo < hi <= ts.len(),
    ensures
        span_from(ts, lo, hi).wf(),
{
    lemma_text_monotone(ts, lo, hi - 1);
}

/// Children over the token ranges `ranges`, which follow one another after
/// token `lo` and end by token `hi`, have spans inside the span of
/// `lo .. hi`, in source order.
pub proof fn lemma_children(ts: Seq<Token>, spans: Seq<Option<Span>>, ranges: Seq<(int, int)>, lo: int, hi: int)
    requires
        tokens_wf(ts),
        0 <= lo < hi <= ts.len(),
        spans.len() == ranges.len(),
        forall|k: int|
            0 <= k < ranges.len() ==> lo <= (#[trigger] ranges[k]).0 <= ranges[k].1 <= hi && (lo < ranges[k].0
                || ranges[k].0 < ranges[k].1),
        forall|i: int, j: int| 0 <= i < j < ranges.len() ==> (#[trigger] ranges[i]).1 <= (#[trigger] ranges[j]).0,
        forall|k: int|
            0 <= k < spans.len() && (#[trigger] spans[k]) is Some ==> spans[k]->0 == span_from(ts, ranges[k].0, ranges[k].1),
    ensures
        opt_ordered_inside(spans, span_from(ts, lo, hi)),
{
    assert forall|k: int| 0 <= k < spans.len() && (#[trigger] spans[k]) is Some implies inside(
        spans[k]->0,
        span_from(ts, lo, hi),
    ) by {
        lemma_span_within(ts, ranges[k].0, ranges[k].1, lo, hi);
    }
    assert forall|i: int, j: int|
        0 <= i < j < spans.len() && (#[trigger] spans[i]) is Some && (#[trigger] spans[j]) is Some implies spans[i]->0.precedes(
        spans[j]->0,
    ) by {
        lemma_span_order(ts, ranges[i].0, ranges[i].1, ranges[j].0, ranges[j].1);
    }
}

/// Sibling nodes collected after token `lo` while reading up to token `p`:
/// each is well formed, starts after the text of token `lo`, ends by the
/// text of token `p - 1`, and they follow one another.
pub open spec fn collected(ts: Seq<Token>, spans: Seq<Span>, lo: int, p: int) -> bool {
    &&& 0 <= lo < p <= ts.len()
    &&& forall|k: int|
        0 <= k < spans.len() ==> (#[trigger] spans[k]).wf() && text_end(ts, lo) <= spans[k].start
            && spans[k].end <= text_end(ts, p - 1)
    &&& forall|k: int| 0 <= k < spans.len() - 1 ==> (#[trigger] spans[k]).precedes(spans[k + 1])
}

/// Collecting one more sibling over tokens `p .. q` keeps the invariant.
pub proof fn lemma_collect_push(ts: Seq<Token>, spans: Seq<Span>, lo: int, p: int, q: int)
    requires
        tokens_wf(ts),
        collected(ts, spans, lo, p),
        p <= q <= ts.len(),
    ensures
        collected(ts, spans.push(span_from(ts, p, q)), lo, q),
{
    lemma_text_monotone(ts, lo, p - 1);
    lemma_text_monotone(ts, p - 1, q - 1);
    if p < q {
        lemma_text_monotone(ts, p - 1, p);
        lemma_text_monotone(ts, p, q - 1);
    }
    let s2 = spans.push(span_from(ts, p, q));
    assert forall|k: int| 0 <= k < s2.len() - 1 implies (#[trigger] s2[k]).precedes(s2[k + 1]) by {
        if k < spans.len() - 1 {
            assert(s2[k] == spans[k] && s2[k + 1] == spans[k + 1]);
        }
    }
}

/// Skipping tokens `p .. q` keeps the invariant.
pub proof fn lemma_collect_skip(ts: Seq<Token>, spans: Seq<Span>, lo: int, p: int, q: int)
    requires
        tokens_wf(ts),
        collected(ts, spans, lo, p),
        p <= q <= ts.len(),
    ensures
        collected(ts, spans, lo, q),
{
    lemma_text_monotone(ts, p - 1, q - 1);
}

/// Collected siblings lie inside the span of any range that encloses them.
pub proof fn lemma_collect_done(ts: Seq<Token>, spans: Seq<Span>, lo: int, p: int, outer_lo: int, hi: int)
    requires
        tokens_wf(ts),
        collected(ts, spans, lo, p),
        0 <= outer_lo <= lo,
        p <= hi <= ts.len(),
    ensures
        ordered_inside(spans, span_from(ts, outer_lo, hi)),
{
    lemma_text_monotone(ts, outer_lo, lo);
    lemma_text_monotone(ts, p - 1, hi - 1);
}

/// The trivia of tokens `lo .. hi`, in order.
pub open spec fn tokens_trivia(ts: Seq<Token>, lo: int, hi: int) -> Seq<LiteralWhitespace> {
    Seq::new((hi - lo) as nat, |i: int| ts[lo + i].whitespace)
}

/// The trivia of a token range is that of its two halves, one after the other.
pub proof fn lemma_trivia_split(ts: Seq<Token>, lo: int, mid: int, hi: int)
    requires
        0 <= lo <= mid <= hi <= ts.len(),
    ensures
        tokens_trivia(ts, lo, hi) == tokens_trivia(ts, lo, mid) + tokens_trivia(ts, mid, hi),
{
    assert(tokens_trivia(ts, lo, hi) =~= tokens_trivia(ts, lo, mid) + tokens_trivia(ts, mid, hi));
}

/// An empty token range has no trivia.
pub proof fn lemma_trivia_empty(ts: Seq<Token>, p: int)
    ensures
        tokens_trivia(ts, p, p) == Seq::<LiteralWhitespace>::empty(),
{
    assert(tokens_trivia(ts, p, p) =~= Seq::<LiteralWhitespace>::empty());
}

/// A one-token range has that token's trivia.
pub proof fn lemma_trivia_one(ts: Seq<Token>, p: int)
    requires
        0 <= p < ts.len(),
    ensures
        tokens_trivia(ts, p, p + 1) == seq![ts[p].whitespace],
        tokens_trivia(ts, p, p) == Seq::<LiteralWhitespace>::empty(),
{
    assert(tokens_trivia(ts, p, p + 1) =~= seq![ts[p].whitespace]);
    assert(tokens_trivia(ts, p, p) =~= Seq::<LiteralWhitespace>::empty());
}

/// Appending a statement appends its trivia.
pub proof fn lemma_stmts_trivia_push(s: Seq<Stmt>, x: Stmt)
    ensures
        stmts_trivia(s.push(x)) == stmts_trivia(s) + trivia_of(x),
{
    let f = stmts_trivia_parts(s);
    assert(stmts_trivia_parts(s.push(x)) =~= f.push(trivia_of(x)));
    f.lemma_flatten_push(trivia_of(x));
}

/// Appending a case appends its trivia.
pub proof fn lemma_cases_trivia_push(s: Seq<Case>, x: Case)
    ensures
        cases_trivia(s.push(x)) == cases_trivia(s) + case_trivia(x),
{
    let f = cases_trivia_parts(s);
    assert(cases_trivia_parts(s.push(x)) =~= f.push(case_trivia(x)));
    f.lemma_flatten_push(case_trivia(x));
}

/// Appending a declarator, and the comma after it if any, appends their trivia.
pub proof fn lemma_items_trivia_push(ds: Seq<Declarator>, cs: Seq<LiteralWhitespace>, d: Declarator, c: Option<LiteralWhitespace>)
    requires
        ds.len() == cs.len(),
    ensures
        items_trivia(ds.push(d), cs + opt_trivia(c)) == items_trivia(ds, cs) + (d.trivia() + opt_trivia(c)),
{
    let f = Seq::new(
        ds.len(),
        |k: int| if 0 <= k < ds.len() { ds[k].trivia() + if k < cs.len() { seq![cs[k]] } else { Seq::empty() } } else { Seq::empty() },
    );
    let ds2 = ds.push(d);
    let cs2 = cs + opt_trivia(c);
    let g = Seq::new(
        ds2.len(),
        |k: int| if 0 <= k < ds2.len() { ds2[k].trivia() + if k < cs2.len() { seq![cs2[k]] } else { Seq::empty() } } else { Seq::empty() },
    );
    let last = d.trivia() + opt_trivia(c);
    assert forall|k: int| 0 <= k < ds.len() implies g[k] == f[k] by {
        assert(ds2[k] == ds[k]);
        assert(cs2[k] == cs[k]);
    }
    match c {
        Some(x) => {
            assert(cs2[ds.len() as int] == x);
        },
        None => {},
    }
    assert(g[ds.len() as int] =~= last);
    assert(g =~= f.push(last));
    f.lemma_flatten_push(last);
}

/// An `if` read without error has the trivia of its tokens.
proof fn lemma_if_trivia(ts: Seq<Token>, d: IfStmt, pos: int, p1: int, p2: int, p3: int, p4: int, p5: int)
    requires
        0 <= pos && p1 == pos + 2 && p2 == p1 + 1 && p3 == p2 + 1 && p3 <= p4 <= p5 <= ts.len(),
        d.if_whitespace == ts[pos].whitespace,
        d.open_paren_whitespace == ts[pos + 1].whitespace,
        expr_trivia(d.condition) == tokens_trivia(ts, p1, p2),
        d.close_paren_whitespace == ts[p2].whitespace,
        trivia_of(*d.cons) == tokens_trivia(ts, p3, p4),
        d.else_whitespace is None ==> d.alt is None && p5 == p4,
        d.else_whitespace matches Some(w) ==> p4 < p5 && w == ts[p4].whitespace && (d.alt matches Some(a) && trivia_of(*a) == tokens_trivia(ts, p4 + 1, p5)),
    ensures
        trivia_of(Stmt::If(d)) == tokens_trivia(ts, pos, p5),
{
    lemma_trivia_one(ts, pos);
    lemma_trivia_one(ts, pos + 1);
    lemma_trivia_one(ts, p2);
    lemma_trivia_split(ts, pos, pos + 1, p5);
    lemma_trivia_split(ts, pos + 1, p1, p5);
    lemma_trivia_split(ts, p1, p2, p5);
    lemma_trivia_split(ts, p2, p3, p5);
    lemma_trivia_split(ts, p3, p4, p5);
    lemma_trivia_empty(ts, p4);
    if d.else_whitespace is Some {
        lemma_trivia_one(ts, p4);
        lemma_trivia_split(ts, p4, p4 + 1, p5);
    }
    assert(trivia_of(Stmt::If(d)) =~= tokens_trivia(ts, pos, p5));
}

/// A `do ... while ( ... )` read without error has the trivia of its tokens.
proof fn lemma_do_while_trivia(ts: Seq<Token>, d: DoWhileStmt, pos: int, p1: int, p2: int, p3: int, p4: int, p5: int)
    requires
        0 <= pos < pos + 1 <= p1 < p2 == p1 + 1 < p3 == p2 + 1 <= p4 < p5 == p4 + 1 <= ts.len(),
        d.do_whitespace == ts[pos].whitespace,
        trivia_of(*d.cons) == tokens_trivia(ts, pos + 1, p1),
        d.while_whitespace == ts[p1].whitespace,
        d.open_paren_whitespace == ts[p2].whitespace,
        expr_trivia(d.condition) == tokens_trivia(ts, p3, p4),
        d.close_paren_whitespace == ts[p4].whitespace,
    ensures
        trivia_of(Stmt::DoWhile(d)) == tokens_trivia(ts, pos, p5),
{
    lemma_trivia_one(ts, pos);
    lemma_trivia_one(ts, p1);
    lemma_trivia_one(ts, p2);
    lemma_trivia_one(ts, p4);
    lemma_trivia_split(ts, pos, pos + 1, p5);
    lemma_trivia_split(ts, pos + 1, p1, p5);
    lemma_trivia_split(ts, p1, p2, p5);
    lemma_trivia_split(ts, p2, p3, p5);
    lemma_trivia_split(ts, p3, p4, p5);
    assert(trivia_of(Stmt::DoWhile(d)) =~= tokens_trivia(ts, pos, p5));
}

/// A `switch` read without error has the trivia of its tokens.
proof fn lemma_switch_trivia(ts: Seq<Token>, d: SwitchStmt, pos: int, p1: int, p2: int, p3: int, p4: int, p: int, p_end: int)
    requires
        0 <= pos && p1 == pos + 2 && p1 <= p2 && p3 == p2 + 1 && p4 == p3 + 1 && p4 <= p && p_end == p + 1 && p_end <= ts.len(),
        d.switch_whitespace == ts[pos].whitespace,
        d.open_paren_whitespace == ts[pos + 1].whitespace,
        expr_trivia(d.test) == tokens_trivia(ts, p1, p2),
        d.close_paren_whitespace == ts[p2].whitespace,
        d.open_brace_whitespace == ts[p3].whitespace,
        cases_trivia(d.cases@) == tokens_trivia(ts, p4, p),
        d.close_brace_whitespace == ts[p].whitespace,
    ensures
        trivia_of(Stmt::Switch(d)) == tokens_trivia(ts, pos, p_end),
{
    lemma_trivia_one(ts, pos);
    lemma_trivia_one(ts, pos + 1);
    lemma_trivia_one(ts, p2);
    lemma_trivia_one(ts, p3);
    lemma_trivia_one(ts, p);
    lemma_trivia_split(ts, pos, pos + 1, p_end);
    lemma_trivia_split(ts, pos + 1, p1, p_end);
    lemma_trivia_split(ts, p1, p2, p_end);
    lemma_trivia_split(ts, p2, p3, p_end);
    lemma_trivia_split(ts, p3, p4, p_end);
    lemma_trivia_split(ts, p4, p, p_end);
    assert(trivia_of(Stmt::Switch(d)) =~= tokens_trivia(ts, pos, p_end));
}

/// A `for ( ; ; )` read without error has the trivia of its head and of
/// the tokens after the initializer.
proof fn lemma_for_trivia(
    ts: Seq<Token>,
    d: ForStmt,
    pos: int,
    open_ws: LiteralWhitespace,
    init: Option<ForStmtInit>,
    p2: int,
    p3: int,
    p4: int,
    p5: int,
    p6: int,
    p7: int,
    p8: int,
)
    requires
        0 <= pos < ts.len(),
        0 <= p2 && p3 == p2 + 1 && p3 <= p4 && p5 == p4 + 1 && p5 <= p6 && p7 == p6 + 1 && p7 <= p8 <= ts.len(),
        d.for_whitespace == ts[pos].whitespace,
        d.open_paren_whitespace == open_ws,
        d.init == init,
        d.init_semicolon_whitespace == ts[p2].whitespace,
        opt_expr_trivia(d.test) == tokens_trivia(ts, p3, p4),
        d.test_semicolon_whitespace == ts[p4].whitespace,
        opt_expr_trivia(d.update) == tokens_trivia(ts, p5, p6),
        d.close_paren_whitespace == ts[p6].whitespace,
        trivia_of(*d.body) == tokens_trivia(ts, p7, p8),
    ensures
        trivia_of(Stmt::For(d)) == seq![ts[pos].whitespace, open_ws] + opt_init_trivia(init) + tokens_trivia(ts, p2, p8),
{
    lemma_trivia_one(ts, p2);
    lemma_trivia_one(ts, p4);
    lemma_trivia_one(ts, p6);
    lemma_trivia_split(ts, p2, p3, p8);
    lemma_trivia_split(ts, p3, p4, p8);
    lemma_trivia_split(ts, p4, p5, p8);
    lemma_trivia_split(ts, p5, p6, p8);
    lemma_trivia_split(ts, p6, p7, p8);
    assert(trivia_of(Stmt::For(d)) =~= seq![ts[pos].whitespace, open_ws] + opt_init_trivia(init) + tokens_trivia(ts, p2, p8));
}

/// Computes `span_from` for `lo .. hi`.
pub fn span_between(ts: &Vec<Token>, lo: usize, hi: usize) -> (r: Span)
    requires
        lo <= hi <= ts.len(),
        lo < hi || lo > 0,
    ensures
        r == span_from(ts@, lo as int, hi as int),
{
    if lo < hi {
        Span::new(ts[lo].whitespace.before.end, ts[hi - 1].whitespace.after.start)
    } else {
        let e = ts[lo - 1].whitespace.after.start;
        Span::new(e, e)
    }
}

/// Whether token `pos` exists and is of kind `kind`.
pub fn at(ts: &Vec<Token>, pos: usize, kind: TokenKind) -> (r: bool)
    ensures
        r == (pos < ts.len() && ts@[pos as int].kind == kind),
{
    pos < ts.len() && ts[pos].kind == kind
}

/// The diagnostic for an unexpected token at `pos` (or for the end of
/// input), placed on the token found or right after the last one read.
fn unexpected(ts: &Vec<Token>, pos: usize, expected: Expected) -> (r: Diagnostic)
    requires
        pos <= ts.len(),
    ensures
        r.expected == expected,
        pos < ts.len() ==> r.found == Some(ts@[pos as int].kind),
        pos == ts.len() ==> r.found.is_none(),
{
    if pos < ts.len() {
        let t = ts[pos];
        Diagnostic { span: t.whitespace.token_span_exec(), expected, found: Some(t.kind) }
    } else if pos > 0 {
        Diagnostic { span: span_between(ts, pos, pos), expected, found: None }
    } else {
        Diagnostic { span: Span::new(0, 0), expected, found: None }
    }
}

/// The token kinds that can begin a statement; error recovery stops before them.
pub open spec fn starts_stmt(k: TokenKind) -> bool {
    is_operand(k) || k == TokenKind::Semicolon || k == TokenKind::LBrace || k == TokenKind::Var
        || k == TokenKind::If || k == TokenKind::Switch || k == TokenKind::Throw
        || k == TokenKind::While || k == TokenKind::Do || k == TokenKind::Break
        || k == TokenKind::Continue || k == TokenKind::Return || k == TokenKind::Try
        || k == TokenKind::For || k == TokenKind::With
}

/// The most tokens that one recovery step discards.
pub const MAX_SKIP: usize = 64;

/// Computes `is_operand`.
fn is_operand_kind(k: TokenKind) -> (r: bool)
    ensures
        r == is_operand(k),
{
    k == TokenKind::Identifier || k == TokenKind::Number || k == TokenKind::Str
}

/// Computes `starts_stmt`.
fn starts_stmt_kind(k: TokenKind) -> (r: bool)
    ensures
        r == starts_stmt(k),
{
    is_operand_kind(k) || k == TokenKind::Semicolon || k == TokenKind::LBrace || k
        == TokenKind::Var || k == TokenKind::If || k == TokenKind::Switch || k == TokenKind::Throw
        || k == TokenKind::While || k == TokenKind::Do || k == TokenKind::Break || k
        == TokenKind::Continue || k == TokenKind::Return || k == TokenKind::Try || k
        == TokenKind::For || k == TokenKind::With
}

/// The single-token expression at `pos`, with its trivia.
fn literal_at(ts: &Vec<Token>, pos: usize) -> (r: LiteralExpr)
    requires
        pos < ts.len(),
    ensures
        r.span == span_from(ts@, pos as int, pos + 1),
        r.whitespace == ts@[pos as int].whitespace,
{
    LiteralExpr { span: span_between(ts, pos, pos + 1), whitespace: ts[pos].whitespace }
}

/// Turns the operand token at `pos` into an expression leaf.
fn operand_at(ts: &Vec<Token>, pos: usize) -> (r: Expr)
    requires
        pos < ts.len(),
        is_operand(ts@[pos as int].kind),
    ensures
        r.spec_span() == span_from(ts@, pos as int, pos + 1),
        r == leaf_of(ts@, pos as int),
        !(r is Missing),
        expr_trivia(r) == seq![ts@[pos as int].whitespace],
{
    let lit = literal_at(ts, pos);
    match ts[pos].kind {
        TokenKind::Identifier => Expr::Identifier(lit),
        TokenKind::Number => Expr::Number(lit),
        _ => Expr::Str(lit),
    }
}

/// Consumes a token of kind `kind` at `pos`. Where it is missing, reports
/// it and hands back zero-width trivia in its place without consuming.
fn expect(ts: &Vec<Token>, pos: usize, kind: TokenKind, diags: &mut Vec<Diagnostic>) -> (r: (LiteralWhitespace, usize))
    requires
        0 < pos <= ts.len(),
    ensures
        pos < ts.len() && ts@[pos as int].kind == kind ==> r == (ts@[pos as int].whitespace, (pos + 1) as usize) && final(diags)@ == old(diags)@,
        !(pos < ts.len() && ts@[pos as int].kind == kind) ==> r.1 == pos && r.0 == LiteralWhitespace::zero_at(text_end(ts@, pos - 1)) && final(diags)@.len() == old(diags)@.len() + 1,
        extends(final(diags)@, old(diags)@),
{
    if at(ts, pos, kind) {
        (ts[pos].whitespace, pos + 1)
    } else {
        diags.push(unexpected(ts, pos, Expected::Token(kind)));
        (LiteralWhitespace::empty_at(ts[pos - 1].whitespace.after.start), pos)
    }
}

/// The expression at `pos`: a single operand token, or, where there is none,
/// a reported `Missing` placeholder that consumes nothing.
pub fn parse_expr(ts: &Vec<Token>, pos: usize, diags: &mut Vec<Diagnostic>) -> (r: (Expr, usize))
    requires
        pos <= ts.len(),
    ensures
        pos <= r.1 <= pos + 1,
        r.1 == pos + 1 <==> (pos < ts.len() && is_operand(ts@[pos as int].kind)),
        r.1 == pos + 1 ==> r.0 == leaf_of(ts@, pos as int),
        pos > 0 || r.1 == pos + 1 ==> r.0.spec_span() == span_from(ts@, pos as int, r.1 as int),
        pos == 0 && r.1 == pos && ts.len() > 0 ==> r.0.spec_span() == (Span { start: text_start(ts@, 0), end: text_start(ts@, 0) }),
        r.0 is Missing <==> r.1 == pos,
        expr_trivia(r.0) == tokens_trivia(ts@, pos as int, r.1 as int),
        r.1 == pos + 1 ==> final(diags)@ == old(diags)@,
        r.1 == pos ==> final(diags)@.len() == old(diags)@.len() + 1,
        extends(final(diags)@, old(diags)@),
{
    proof {
        lemma_trivia_empty(ts@, pos as int);
        if pos < ts.len() {
            lemma_trivia_one(ts@, pos as int);
        }
    }
    if pos < ts.len() && is_operand_kind(ts[pos].kind) {
        (operand_at(ts, pos), pos + 1)
    } else {
        diags.push(unexpected(ts, pos, Expected::Expression));
        if pos > 0 {
            (Expr::Missing(span_between(ts, pos, pos)), pos)
        } else if ts.len() > 0 {
            let at0 = ts[0].whitespace.before.end;
            (Expr::Missing(Span::new(at0, at0)), pos)
        } else {
            (Expr::Missing(Span::new(0, 0)), pos)
        }
    }
}

/// Ends a statement whose body stops before `pos`: an explicit `;` is
/// consumed; otherwise the semicolon is inserted, and reported when neither
/// the end of input, a `}` nor a line break allows that.
pub fn parse_semicolon(ts: &Vec<Token>, pos: usize, diags: &mut Vec<Diagnostic>) -> (r: (Semicolon, usize))
    requires
        0 < pos <= ts.len(),
    ensures
        at_kind(ts@, pos as int, TokenKind::Semicolon) ==> r == (Semicolon::Explicit(ts@[pos as int].whitespace), (pos + 1) as usize) && final(diags)@ == old(diags)@,
        !at_kind(ts@, pos as int, TokenKind::Semicolon) ==> r == (Semicolon::Implicit, pos),
        semi_trivia(r.0) == tokens_trivia(ts@, pos as int, r.1 as int),
        !at_kind(ts@, pos as int, TokenKind::Semicolon) && asi_allowed(ts@, pos as int) ==> final(diags)@ == old(diags)@,
        !at_kind(ts@, pos as int, TokenKind::Semicolon) && !asi_allowed(ts@, pos as int) ==> final(diags)@.len() == old(diags)@.len() + 1 && final(diags)@.last().expected == Expected::Terminator,
        extends(final(diags)@, old(diags)@),
        final(diags)@.len() <= old(diags)@.len() + 1,
{
    proof {
        lemma_trivia_empty(ts@, pos as int);
        if pos < ts.len() {
            lemma_trivia_one(ts@, pos as int);
        }
    }
    if at(ts, pos, TokenKind::Semicolon) {
        (Semicolon::Explicit(ts[pos].whitespace), pos + 1)
    } else {
        if !(pos >= ts.len() || ts[pos].kind == TokenKind::RBrace || ts[pos].has_line_break_before()) {
            diags.push(unexpected(ts, pos, Expected::Terminator));
        }
        (Semicolon::Implicit, pos)
    }
}

/// Token `pos` exists and has kind `k`.
pub open spec fn at_kind(ts: Seq<Token>, pos: int, k: TokenKind) -> bool {
    0 <= pos < ts.len() && ts[pos].kind == k
}

/// Parses one statement starting at `pos`. Every call consumes at least one
/// token; a token that cannot begin a statement is reported and, together
/// with the tokens after it up to the next statement boundary (at most
/// `MAX_SKIP` of them), kept as an empty statement so the tree stays whole.
#[verifier::spinoff_prover]
#[verifier::rlimit(100)]
pub fn parse_stmt(ts: &Vec<Token>, pos: usize, diags: &mut Vec<Diagnostic>) -> (r: (Stmt, usize))
    requires
        tokens_wf(ts@),
        pos < ts.len(),
    ensures
        pos < r.1 <= ts.len(),
        r.0.spec_span() == span_from(ts@, pos as int, r.1 as int),
        well_nested(r.0),
        extends(final(diags)@, old(diags)@),
        final(diags)@.len() <= old(diags)@.len() + 5 * (r.1 - pos),
        ts@[pos as int].kind == TokenKind::Return ==> (r.0 matches Stmt::Return(d) && (d.value.is_some() <==> restricted_operand(ts@, pos + 1))),
        ts@[pos as int].kind == TokenKind::Try ==> (r.0 matches Stmt::Try(d) && try_ok(d, old(diags)@, final(diags)@)),
        ts@[pos as int].kind == TokenKind::Switch ==> (r.0 matches Stmt::Switch(d) && cases_wf(d.cases@)),
        final(diags)@.len() == old(diags)@.len() ==> trivia_of(r.0) == tokens_trivia(ts@, pos as int, r.1 as int),
        shape_ok(ts@, pos as int, r.0, r.1 as int, old(diags)@, final(diags)@),
        stmt_end(ts@, pos as int) is Some ==> stmt_end(ts@, pos as int) == Some(r.1 as int) && final(diags)@ == old(diags)@,
    decreases ts.len() - pos, 1nat,
{
    proof {
        reveal(stmt_end);
    }
    let k = ts[pos].kind;
    match k {
        TokenKind::Semicolon => {
            let ws = ts[pos].whitespace;
            proof {
                lemma_trivia_one(ts@, pos as int);
            }
            (Stmt::Empty(EmptyStmt { span: span_between(ts, pos, pos + 1), semi_whitespace: ws }), pos + 1)
        },
        TokenKind::LBrace => {
            let (b, p) = parse_block(ts, pos, diags);
            (Stmt::Block(b), p)
        },
        TokenKind::Var => {
            let (v, p) = parse_var(ts, pos, diags, true);
            (Stmt::Variable(v), p)
        },
        TokenKind::If => parse_if(ts, pos, diags),
        TokenKind::Switch => parse_switch(ts, pos, diags),
        TokenKind::Throw => parse_throw(ts, pos, diags),
        TokenKind::While => parse_while(ts, pos, diags),
        TokenKind::Do => parse_do_while(ts, pos, diags),
        TokenKind::Break | TokenKind::Continue => parse_jump(ts, pos, diags),
        TokenKind::Return => parse_return(ts, pos, diags),
        TokenKind::Try => parse_try(ts, pos, diags),
        TokenKind::For => parse_for(ts, pos, diags),
        TokenKind::With => parse_with(ts, pos, diags),
        TokenKind::Identifier | TokenKind::Number | TokenKind::Str => parse_expr_stmt(ts, pos, diags),
        _ => recover(ts, pos, diags),
    }
}

/// Reports the token at `pos`, which cannot begin a statement, and skips it
/// and what follows it up to a statement boundary.
fn recover(ts: &Vec<Token>, pos: usize, diags: &mut Vec<Diagnostic>) -> (r: (Stmt, usize))
    requires
        tokens_wf(ts@),
        pos < ts.len(),
        !starts_stmt(ts@[pos as int].kind),
    ensures
        pos < r.1 <= ts.len(),
        r.1 <= pos + MAX_SKIP,
        r.0.spec_span() == span_from(ts@, pos as int, r.1 as int),
        r.0 is Empty,
        final(diags)@.len() == old(diags)@.len() + 1,
        extends(final(diags)@, old(diags)@),
{
    let d = Diagnostic {
        span: ts[pos].whitespace.token_span_exec(),
        expected: Expected::Statement,
        found: Some(ts[pos].kind),
    };
    diags.push(d);
    let mut p: usize = pos + 1;
    while p < ts.len() && p - pos < MAX_SKIP && !starts_stmt_kind(ts[p].kind) && ts[p].kind != TokenKind::RBrace
        invariant
            pos < p <= ts.len(),
            p <= pos + MAX_SKIP,
        decreases ts.len() - p,
    {
        p = p + 1;
    }
    let ws = ts[pos].whitespace;
    (Stmt::Empty(EmptyStmt { span: span_between(ts, pos, p), semi_whitespace: ws }), p)
}

/// A statement that the grammar requires at `pos`; at the end of input a
/// reported zero-width empty statement stands in for it.
#[verifier::spinoff_prover]
#[verifier::rlimit(100)]
fn parse_body(ts: &Vec<Token>, pos: usize, diags: &mut Vec<Diagnostic>) -> (r: (Stmt, usize))
    requires
        tokens_wf(ts@),
        0 < pos <= ts.len(),
    ensures
        pos <= r.1 <= ts.len(),
        pos < ts.len() ==> pos < r.1,
        pos < ts.len() ==> shape_ok(ts@, pos as int, r.0, r.1 as int, old(diags)@, final(diags)@),
        r.0.spec_span() == span_from(ts@, pos as int, r.1 as int),
        well_nested(r.0),
        extends(final(diags)@, old(diags)@),
        final(diags)@.len() <= old(diags)@.len() + 5 * (r.1 - pos) + 1,
        final(diags)@.len() == old(diags)@.len() ==> trivia_of(r.0) == tokens_trivia(ts@, pos as int, r.1 as int),
        stmt_end(ts@, pos as int) is Some ==> stmt_end(ts@, pos as int) == Some(r.1 as int) && final(diags)@ == old(diags)@,
    decreases ts.len() - pos, 2nat,
{
    proof {
        reveal(stmt_end);
    }
    if pos < ts.len() {
        parse_stmt(ts, pos, diags)
    } else {
        diags.push(unexpected(ts, pos, Expected::Statement));
        let e = ts[pos - 1].whitespace.after.start;
        let st = EmptyStmt { span: span_between(ts, pos, pos), semi_whitespace: LiteralWhitespace::empty_at(e) };
        (Stmt::Empty(st), pos)
    }
}

/// How a semicolon-terminated statement ending before token `end` was
/// terminated: a written semicolon stands on the `;` token just before
/// `end`; an inserted one is used only where no `;` follows, and is reported
/// unless the end of input, a `}` or a line break allows it.
pub open spec fn semi_ok(ts: Seq<Token>, semi: Semicolon, end: int, before: Seq<Diagnostic>, after: Seq<Diagnostic>) -> bool {
    &&& semi is Explicit ==> 1 <= end <= ts.len() && ts[end - 1].kind == TokenKind::Semicolon
        && semi == Semicolon::Explicit(ts[end - 1].whitespace)
    &&& semi is Implicit ==> !at_kind(ts, end, TokenKind::Semicolon) && (!asi_allowed(ts, end) ==> after.len() > before.len())
}

/// A `break` or `continue` at `pos`: the label is taken only from the same
/// line, and the statement ends right after keyword, label and semicolon.
pub open spec fn jump_ok(ts: Seq<Token>, pos: int, label: Option<LiteralExpr>, semi: Semicolon, end: int, before: Seq<Diagnostic>, after: Seq<Diagnostic>) -> bool {
    &&& (label.is_some() <==> restricted_label(ts, pos + 1))
    &&& (label matches Some(l) ==> l.span == span_from(ts, pos + 1, pos + 2))
    &&& end == pos + 1 + (if label.is_some() { 1int } else { 0int }) + semi.spec_offset()
    &&& semi_ok(ts, semi, end, before, after)
}

/// The expression leaf that the operand token `p` makes: an identifier,
/// number or string by the token's kind, with its text span and trivia.
pub open spec fn leaf_of(ts: Seq<Token>, p: int) -> Expr {
    let l = LiteralExpr { span: span_from(ts, p, p + 1), whitespace: ts[p].whitespace };
    if ts[p].kind == TokenKind::Identifier {
        Expr::Identifier(l)
    } else if ts[p].kind == TokenKind::Number {
        Expr::Number(l)
    } else {
        Expr::Str(l)
    }
}

/// Token `p` is a single-token expression.
pub open spec fn is_operand_at(ts: Seq<Token>, p: int) -> bool {
    0 <= p < ts.len() && is_operand(ts[p].kind)
}

/// `( operand )` starts at token `p`.
pub open spec fn paren_operand(ts: Seq<Token>, p: int) -> bool {
    at_kind(ts, p, TokenKind::LParen) && is_operand_at(ts, p + 1) && at_kind(ts, p + 2, TokenKind::RParen)
}

/// Where a statement whose body ends before token `p` ends, when it is
/// properly terminated there.
pub open spec fn semi_end(ts: Seq<Token>, p: int) -> Option<int> {
    if at_kind(ts, p, TokenKind::Semicolon) {
        Some(p + 1)
    } else if asi_allowed(ts, p) {
        Some(p)
    } else {
        None
    }
}

/// Where a well-formed list of declarators `name [= operand], ...` starting
/// at token `p` ends.
pub open spec fn var_list_end(ts: Seq<Token>, p: int) -> Option<int>
    decreases ts.len() - p,
{
    if !at_kind(ts, p, TokenKind::Identifier) {
        None
    } else {
        let q = if at_kind(ts, p + 1, TokenKind::Assign) {
            if is_operand_at(ts, p + 2) { p + 3 } else { -1 }
        } else {
            p + 1
        };
        if q < 0 {
            None
        } else if at_kind(ts, q, TokenKind::Comma) {
            var_list_end(ts, q + 1)
        } else {
            Some(q)
        }
    }
}

/// The declarator read from a well-formed list starting at token `p`: its
/// name is the identifier at `p`; the `=` trivia and the value are present
/// exactly when `=` follows, the `=` trivia being that token's, and the value
/// is the operand after it.
pub open spec fn first_decl_ok(ts: Seq<Token>, p: int, d: Declarator) -> bool {
    &&& d.name.span == span_from(ts, p, p + 1)
    &&& d.name.whitespace == ts[p].whitespace
    &&& (d.value.is_some() <==> at_kind(ts, p + 1, TokenKind::Assign))
    &&& (d.initializer_whitespace matches Some(w) ==> w == ts[p + 1].whitespace)
    &&& (d.value matches Some(x) ==> x == leaf_of(ts, p + 2))
}

/// Where a well-formed `var` head starting at token `pos` ends, with its
/// semicolon when `terminated`.
pub open spec fn var_end(ts: Seq<Token>, pos: int, terminated: bool) -> Option<int> {
    match var_list_end(ts, pos + 1) {
        Some(e) => if terminated { semi_end(ts, e) } else { Some(e) },
        None => None,
    }
}

/// The grammar, as a recognizer: where the well-formed statement starting at
/// token `pos` ends, or `None` where the tokens from `pos` do not begin one.
#[verifier::opaque]
pub open spec fn stmt_end(ts: Seq<Token>, pos: int) -> Option<int>
    decreases ts.len() - pos, 0nat,
{
    if !(0 <= pos < ts.len()) {
        None
    } else {
        let k = ts[pos].kind;
        if k == TokenKind::Semicolon {
            Some(pos + 1)
        } else if k == TokenKind::LBrace {
            items_end(ts, pos + 1)
        } else if k == TokenKind::Var {
            var_end(ts, pos, true)
        } else if k == TokenKind::If {
            if paren_operand(ts, pos + 1) {
                match stmt_end(ts, pos + 4) {
                    Some(e) => if e > pos && at_kind(ts, e, TokenKind::Else) { stmt_end(ts, e + 1) } else { Some(e) },
                    None => None,
                }
            } else {
                None
            }
        } else if k == TokenKind::Switch {
            if paren_operand(ts, pos + 1) && at_kind(ts, pos + 4, TokenKind::LBrace) {
                cases_end(ts, pos + 5, false)
            } else {
                None
            }
        } else if k == TokenKind::Throw {
            if is_operand_at(ts, pos + 1) { semi_end(ts, pos + 2) } else { None }
        } else if k == TokenKind::While || k == TokenKind::With {
            if paren_operand(ts, pos + 1) { stmt_end(ts, pos + 4) } else { None }
        } else if k == TokenKind::Do {
            match stmt_end(ts, pos + 1) {
                Some(e) => if e > pos && at_kind(ts, e, TokenKind::While) && paren_operand(ts, e + 1) { Some(e + 4) } else { None },
                None => None,
            }
        } else if k == TokenKind::Break || k == TokenKind::Continue {
            semi_end(ts, if restricted_label(ts, pos + 1) { pos + 2 } else { pos + 1 })
        } else if k == TokenKind::Return {
            semi_end(ts, if restricted_operand(ts, pos + 1) { pos + 2 } else { pos + 1 })
        } else if k == TokenKind::Try {
            if at_kind(ts, pos + 1, TokenKind::LBrace) {
                match items_end(ts, pos + 2) {
                    Some(e1) => if pos < e1 <= ts.len() { handler_end(ts, e1) } else { None },
                    None => None,
                }
            } else {
                None
            }
        } else if k == TokenKind::For {
            if at_kind(ts, pos + 1, TokenKind::LParen) {
                let init = if at_kind(ts, pos + 2, TokenKind::Var) {
                    var_end(ts, pos + 2, false)
                } else if is_operand_at(ts, pos + 2) {
                    Some(pos + 3)
                } else {
                    Some(pos + 2)
                };
                match init {
                    Some(p2) => if pos < p2 <= ts.len() { for_rest_end(ts, p2, p2 > pos + 2) } else { None },
                    None => None,
                }
            } else {
                None
            }
        } else if k == TokenKind::Identifier && at_kind(ts, pos + 1, TokenKind::Colon) {
            stmt_end(ts, pos + 2)
        } else if is_operand(k) {
            semi_end(ts, pos + 1)
        } else {
            None
        }
    }
}

/// What follows a `for (` head whose initializer ends before token `p2`.
pub open spec fn for_rest_end(ts: Seq<Token>, p2: int, has_init: bool) -> Option<int>
    decreases ts.len() - p2, 1nat,
{
    if at_kind(ts, p2, TokenKind::In) {
        if has_init && is_operand_at(ts, p2 + 1) && at_kind(ts, p2 + 2, TokenKind::RParen) {
            stmt_end(ts, p2 + 3)
        } else {
            None
        }
    } else if at_kind(ts, p2, TokenKind::Semicolon) {
        let p4 = if is_operand_at(ts, p2 + 1) { p2 + 2 } else { p2 + 1 };
        if at_kind(ts, p4, TokenKind::Semicolon) {
            let p6 = if is_operand_at(ts, p4 + 1) { p4 + 2 } else { p4 + 1 };
            if at_kind(ts, p6, TokenKind::RParen) { stmt_end(ts, p6 + 1) } else { None }
        } else {
            None
        }
    } else {
        None
    }
}

/// After a `try` block ending before token `e1`: a catch clause, a finally
/// clause, or both, and where they end.
pub open spec fn handler_end(ts: Seq<Token>, e1: int) -> Option<int>
    decreases ts.len() - e1, 2nat,
{
    let has_catch = at_kind(ts, e1, TokenKind::Catch);
    let h = if has_catch {
        if at_kind(ts, e1 + 1, TokenKind::LParen) && at_kind(ts, e1 + 2, TokenKind::Identifier) && at_kind(
            ts,
            e1 + 3,
            TokenKind::RParen,
        ) && at_kind(ts, e1 + 4, TokenKind::LBrace) {
            items_end(ts, e1 + 5)
        } else {
            None
        }
    } else {
        Some(e1)
    };
    match h {
        Some(e2) => if e2 >= e1 && e2 <= ts.len() {
            if at_kind(ts, e2, TokenKind::Finally) {
                if at_kind(ts, e2 + 1, TokenKind::LBrace) { items_end(ts, e2 + 2) } else { None }
            } else if has_catch {
                Some(e2)
            } else {
                None
            }
        } else {
            None
        },
        None => None,
    }
}

/// The statements of a block from token `p` up to and including its `}`.
pub open spec fn items_end(ts: Seq<Token>, p: int) -> Option<int>
    decreases ts.len() - p, 1nat,
{
    if !(0 <= p < ts.len()) {
        None
    } else if ts[p].kind == TokenKind::RBrace {
        Some(p + 1)
    } else {
        match stmt_end(ts, p) {
            Some(e) => if p < e <= ts.len() { items_end(ts, e) } else { None },
            None => None,
        }
    }
}

/// The statements of a case from token `p` up to the next `case`,
/// `default` or `}` (or the end of input).
pub open spec fn case_body_end(ts: Seq<Token>, p: int) -> Option<int>
    decreases ts.len() - p, 1nat,
{
    if !(0 <= p < ts.len()) || ts[p].kind == TokenKind::RBrace || ts[p].kind == TokenKind::Case || ts[p].kind
        == TokenKind::Default {
        Some(p)
    } else {
        match stmt_end(ts, p) {
            Some(e) => if p < e <= ts.len() { case_body_end(ts, e) } else { None },
            None => None,
        }
    }
}

/// One well-formed `case operand:` or first `default:` clause at token `p`.
pub open spec fn case_end(ts: Seq<Token>, p: int, seen_default: bool) -> Option<int>
    decreases ts.len() - p, 2nat,
{
    if at_kind(ts, p, TokenKind::Case) && is_operand_at(ts, p + 1) && at_kind(ts, p + 2, TokenKind::Colon) {
        case_body_end(ts, p + 3)
    } else if at_kind(ts, p, TokenKind::Default) && !seen_default && at_kind(ts, p + 1, TokenKind::Colon) {
        case_body_end(ts, p + 2)
    } else {
        None
    }
}

/// The cases of a switch from token `p` up to and including its `}`, with at
/// most one `default`.
pub open spec fn cases_end(ts: Seq<Token>, p: int, seen_default: bool) -> Option<int>
    decreases ts.len() - p, 3nat,
{
    if at_kind(ts, p, TokenKind::RBrace) {
        Some(p + 1)
    } else {
        match case_end(ts, p, seen_default) {
            Some(e) => if p < e <= ts.len() { cases_end(ts, e, seen_default || ts[p].kind == TokenKind::Default) } else { None },
            None => None,
        }
    }
}

/// A recognized statement starts at a token of the input.
proof fn lemma_stmt_end_in_range(ts: Seq<Token>, pos: int)
    ensures
        stmt_end(ts, pos) is Some ==> 0 <= pos < ts.len(),
{
    reveal(stmt_end);
}

/// What `shape_ok` asks of a `for` statement.
proof fn lemma_shape_for(ts: Seq<Token>, pos: int, s: Stmt, end: int, before: Seq<Diagnostic>, after: Seq<Diagnostic>)
    requires
        0 <= pos < ts.len(),
        ts[pos].kind == TokenKind::For,
        s is For || s is ForIn,
    ensures
        shape_ok(ts, pos, s, end, before, after),
{
}

/// The grammar at an `if`.
proof fn lemma_if_end(ts: Seq<Token>, pos: int)
    requires
        0 <= pos < ts.len(),
        ts[pos].kind == TokenKind::If,
    ensures
        stmt_end(ts, pos) == (if paren_operand(ts, pos + 1) {
            match stmt_end(ts, pos + 4) {
                Some(e) => if e > pos && at_kind(ts, e, TokenKind::Else) { stmt_end(ts, e + 1) } else { Some(e) },
                None => None,
            }
        } else {
            None
        }),
{
    reveal(stmt_end);
}

/// The grammar at a `try`.
proof fn lemma_try_end(ts: Seq<Token>, pos: int)
    requires
        0 <= pos < ts.len(),
        ts[pos].kind == TokenKind::Try,
    ensures
        stmt_end(ts, pos) == (if at_kind(ts, pos + 1, TokenKind::LBrace) {
            match items_end(ts, pos + 2) {
                Some(e1) => if pos < e1 <= ts.len() { handler_end(ts, e1) } else { None },
                None => None,
            }
        } else {
            None
        }),
{
    reveal(stmt_end);
}

/// The grammar at a `for`.
proof fn lemma_for_end(ts: Seq<Token>, pos: int)
    requires
        0 <= pos < ts.len(),
        ts[pos].kind == TokenKind::For,
    ensures
        stmt_end(ts, pos) == (if at_kind(ts, pos + 1, TokenKind::LParen) {
            let init = if at_kind(ts, pos + 2, TokenKind::Var) {
                var_end(ts, pos + 2, false)
            } else if is_operand_at(ts, pos + 2) {
                Some(pos + 3)
            } else {
                Some(pos + 2)
            };
            match init {
                Some(p2) => if pos < p2 <= ts.len() { for_rest_end(ts, p2, p2 > pos + 2) } else { None },
                None => None,
            }
        } else {
            None
        }),
{
    reveal(stmt_end);
}

/// The tokens from `p` on are a sequence of well-formed statements.
pub open spec fn program_ok(ts: Seq<Token>, p: int) -> bool
    decreases ts.len() - p,
{
    if !(0 <= p < ts.len()) {
        true
    } else {
        match stmt_end(ts, p) {
            Some(e) => if p < e <= ts.len() { program_ok(ts, e) } else { false },
            None => false,
        }
    }
}

/// What the statement `s` read from token `pos` up to token `end` is, by
/// its leading token: the node kind; for the forms that end with a
/// semicolon, how they end; and that a token that cannot begin a statement
/// is reported.
pub open spec fn shape_ok(ts: Seq<Token>, pos: int, s: Stmt, end: int, before: Seq<Diagnostic>, after: Seq<Diagnostic>) -> bool
    decreases s,
{
    let k = ts[pos].kind;
    &&& k == TokenKind::Semicolon ==> s is Empty && end == pos + 1
    &&& k == TokenKind::LBrace ==> s is Block
    &&& k == TokenKind::Var ==> (s matches Stmt::Variable(v) && v.declared@.len() >= 1 && (forall|i: int|
        0 <= i < v.declared@.len() ==> (#[trigger] v.declared@[i]).wf()) && semi_ok(ts, v.semi, end, before, after)
        && (var_list_end(ts, pos + 1) is Some ==> first_decl_ok(ts, pos + 1, v.declared@[0]))
        && (v.semi is Implicit ==> v.span.end == v.declared@.last().spec_span().end))
    &&& k == TokenKind::If ==> (s matches Stmt::If(d) && d.alt.is_some() == d.else_whitespace.is_some()
        && d.span.end == (match d.alt { Some(a) => a.spec_span().end, None => d.cons.spec_span().end })
        && (paren_operand(ts, pos + 1) ==> d.condition == leaf_of(ts, pos + 2))
        && (stmt_end(ts, pos) is Some ==> (stmt_end(ts, pos + 4) matches Some(e)
            && shape_ok(ts, pos + 4, *d.cons, e, before, after)
            && (d.alt.is_some() <==> at_kind(ts, e, TokenKind::Else))
            && (d.alt matches Some(a) ==> shape_ok(ts, e + 1, *a, end, before, after)))))
    &&& k == TokenKind::Switch ==> (s matches Stmt::Switch(d) && cases_wf(d.cases@) && (forall|i: int|
        0 <= i < d.cases@.len() && is_missing((#[trigger] d.cases@[i]).test) ==> after.len() > before.len()))
    &&& k == TokenKind::Throw ==> (s matches Stmt::Throw(d) && end == pos + 1 + (if d.arg is Missing { 0int } else { 1int })
        + d.semi.spec_offset() && semi_ok(ts, d.semi, end, before, after)
        && (is_operand_at(ts, pos + 1) ==> d.arg == leaf_of(ts, pos + 1)))
    &&& k == TokenKind::While ==> (s matches Stmt::While(d) && (paren_operand(ts, pos + 1) ==> d.condition == leaf_of(ts, pos + 2))
        && (stmt_end(ts, pos) is Some ==> shape_ok(ts, pos + 4, *d.cons, end, before, after)))
    &&& k == TokenKind::Do ==> (s matches Stmt::DoWhile(d) && (stmt_end(ts, pos) is Some ==> (stmt_end(ts, pos + 1) matches Some(e)
        && shape_ok(ts, pos + 1, *d.cons, e, before, after) && d.condition == leaf_of(ts, e + 2))))
    &&& k == TokenKind::Break ==> (s matches Stmt::Break(d) && jump_ok(ts, pos, d.label, d.semi, end, before, after))
    &&& k == TokenKind::Continue ==> (s matches Stmt::Continue(d) && jump_ok(ts, pos, d.label, d.semi, end, before, after))
    &&& k == TokenKind::Return ==> (s matches Stmt::Return(d) && (d.value.is_some() <==> restricted_operand(ts, pos + 1))
        && end == pos + 1 + (if d.value.is_some() { 1int } else { 0int }) + d.semi.spec_offset()
        && semi_ok(ts, d.semi, end, before, after) && (d.value matches Some(x) ==> x == leaf_of(ts, pos + 1)))
    &&& k == TokenKind::Try ==> (s matches Stmt::Try(d) && try_ok(d, before, after)
        && d.final_whitespace.is_some() == d.finalizer.is_some()
        && (stmt_end(ts, pos) is Some ==> (items_end(ts, pos + 2) matches Some(e1)
            && (d.handler.is_some() <==> at_kind(ts, e1, TokenKind::Catch)))))
    &&& k == TokenKind::For ==> (s is For || s is ForIn)
    &&& k == TokenKind::With ==> (s matches Stmt::With(d) && (paren_operand(ts, pos + 1) ==> d.object == leaf_of(ts, pos + 2))
        && (stmt_end(ts, pos) is Some ==> shape_ok(ts, pos + 4, *d.body, end, before, after)))
    &&& is_operand(k) && k == TokenKind::Identifier && at_kind(ts, pos + 1, TokenKind::Colon) ==> (s matches Stmt::Labelled(d)
        && d.label.span == span_from(ts, pos, pos + 1)
        && (stmt_end(ts, pos) is Some ==> shape_ok(ts, pos + 2, *d.body, end, before, after)))
    &&& is_operand(k) && !(k == TokenKind::Identifier && at_kind(ts, pos + 1, TokenKind::Colon)) ==> (s matches Stmt::Expr(d)
        && d.expr == leaf_of(ts, pos) && end == pos + 1 + d.semi.spec_offset()
        && semi_ok(ts, d.semi, end, before, after))
    &&& !starts_stmt(k) ==> s is Empty && after.len() == before.len() + 1
}

/// An optional expression that stands for a missing one.
pub open spec fn is_missing(e: Option<Expr>) -> bool {
    e matches Some(x) && x is Missing
}

/// A return value follows at `pos` on the same line as the keyword.
pub open spec fn restricted_operand(ts: Seq<Token>, pos: int) -> bool {
    0 <= pos < ts.len() && !ts[pos].line_break_before && is_operand(ts[pos].kind)
}

/// A label follows at `pos` on the same line as the keyword.
pub open spec fn restricted_label(ts: Seq<Token>, pos: int) -> bool {
    0 <= pos < ts.len() && !ts[pos].line_break_before && ts[pos].kind == TokenKind::Identifier
}

/// A switch's cases: a case is the `default` one exactly when it has no
/// test, and at most one case is the `default` one.
pub open spec fn cases_wf(cases: Seq<Case>) -> bool {
    &&& forall|i: int| 0 <= i < cases.len() ==> ((#[trigger] cases[i]).default <==> cases[i].test is None)
    &&& forall|i: int, j: int|
        0 <= i < cases.len() && 0 <= j < cases.len() && i != j && (#[trigger] cases[i]).default
            ==> !(#[trigger] cases[j]).default
}

/// A `try` with neither a handler nor a finalizer is always reported.
pub open spec fn try_ok(t: TryStmt, before: Seq<Diagnostic>, after: Seq<Diagnostic>) -> bool {
    t.handler.is_none() && t.finalizer.is_none() ==> after.len() > before.len()
}

/// `{ statements }`; a missing `}` is reported.
#[verifier::spinoff_prover]
#[verifier::rlimit(100)]
fn parse_block(ts: &Vec<Token>, pos: usize, diags: &mut Vec<Diagnostic>) -> (r: (BlockStmt, usize))
    requires
        tokens_wf(ts@),
        pos < ts.len(),
        ts@[pos as int].kind == TokenKind::LBrace,
    ensures
        pos < r.1 <= ts.len(),
        r.0.span == span_from(ts@, pos as int, r.1 as int),
        block_nested(r.0),
        extends(final(diags)@, old(diags)@),
        final(diags)@.len() <= old(diags)@.len() + 5 * (r.1 - pos),
        final(diags)@.len() == old(diags)@.len() ==> block_trivia(r.0) == tokens_trivia(ts@, pos as int, r.1 as int),
        items_end(ts@, pos + 1) is Some ==> items_end(ts@, pos + 1) == Some(r.1 as int) && final(diags)@ == old(diags)@,
    decreases ts.len() - pos, 0nat,
{
    let open_ws = ts[pos].whitespace;
    let mut stmts: Vec<Stmt> = Vec::new();
    let mut p: usize = pos + 1;
    proof {
        assert(stmt_spans(stmts@) =~= Seq::<Span>::empty());
        assert(stmts_trivia_parts(stmts@) =~= Seq::<Seq<LiteralWhitespace>>::empty());
        lemma_trivia_empty(ts@, pos + 1);
    }
    while p < ts.len() && ts[p].kind != TokenKind::RBrace
        invariant
            tokens_wf(ts@),
            pos < p <= ts.len(),
            extends(diags@, old(diags)@),
            collected(ts@, stmt_spans(stmts@), pos as int, p as int),
            diags@.len() + 1 <= old(diags)@.len() + 5 * (p - pos),
            diags@.len() == old(diags)@.len() ==> stmts_trivia(stmts@) == tokens_trivia(ts@, pos + 1, p as int),
            forall|k: int| 0 <= k < stmts@.len() ==> well_nested(#[trigger] stmts@[k]),
            items_end(ts@, pos + 1) is Some ==> items_end(ts@, p as int) == items_end(ts@, pos + 1) && diags@ == old(diags)@,
        decreases ts.len() - p,
    {
        let (st, q) = parse_stmt(ts, p, diags);
        let ghost before = stmts@;
        proof {
            lemma_collect_push(ts@, stmt_spans(before), pos as int, p as int, q as int);
        }
        stmts.push(st);
        proof {
            assert(stmt_spans(stmts@) =~= stmt_spans(before).push(span_from(ts@, p as int, q as int)));
            assert forall|k: int| 0 <= k < stmts@.len() implies well_nested(#[trigger] stmts@[k]) by {
                if k < before.len() {
                    assert(stmts@[k] == before[k]);
                }
            }
            lemma_stmts_trivia_push(before, stmts@.last());
            assert(before.push(stmts@.last()) =~= stmts@);
            lemma_trivia_split(ts@, pos + 1, p as int, q as int);
        }
        p = q;
    }
    let (close_ws, p_end) = expect(ts, p, TokenKind::RBrace, diags);
    proof {
        lemma_collect_done(ts@, stmt_spans(stmts@), pos as int, p as int, pos as int, p_end as int);
    }
    let b = BlockStmt { span: span_between(ts, pos, p_end), stmts, open_brace_whitespace: open_ws, close_brace_whitespace: close_ws };
    proof {
        if diags@.len() == old(diags)@.len() {
            lemma_trivia_one(ts@, (pos) as int);
            lemma_trivia_one(ts@, (p) as int);
            lemma_trivia_split(ts@, (pos) as int, (pos + 1) as int, (p_end) as int);
            lemma_trivia_split(ts@, (pos + 1) as int, (p) as int, (p_end) as int);
            assert(block_trivia(b) =~= tokens_trivia(ts@, (pos) as int, (p_end) as int));
        }
    }
    (b, p_end)
}

/// An expression statement, or a labelled one where an identifier is
/// followed by `:`.
#[verifier::spinoff_prover]
#[verifier::rlimit(100)]
fn parse_expr_stmt(ts: &Vec<Token>, pos: usize, diags: &mut Vec<Diagnostic>) -> (r: (Stmt, usize))
    requires
        tokens_wf(ts@),
        pos < ts.len(),
        is_operand(ts@[pos as int].kind),
    ensures
        pos < r.1 <= ts.len(),
        r.0.spec_span() == span_from(ts@, pos as int, r.1 as int),
        well_nested(r.0),
        extends(final(diags)@, old(diags)@),
        final(diags)@.len() <= old(diags)@.len() + 5 * (r.1 - pos),
        final(diags)@.len() == old(diags)@.len() ==> trivia_of(r.0) == tokens_trivia(ts@, pos as int, r.1 as int),
        shape_ok(ts@, pos as int, r.0, r.1 as int, old(diags)@, final(diags)@),
        stmt_end(ts@, pos as int) is Some ==> stmt_end(ts@, pos as int) == Some(r.1 as int) && final(diags)@ == old(diags)@,
    decreases ts.len() - pos, 0nat,
{
    proof {
        reveal(stmt_end);
    }
    if ts[pos].kind == TokenKind::Identifier && at(ts, pos + 1, TokenKind::Colon) {
        let label = literal_at(ts, pos);
        let colon_ws = ts[pos + 1].whitespace;
        let (body, p) = parse_body(ts, pos + 2, diags);
        proof {
            lemma_children(ts@, seq![Some(label.span), Some(body.spec_span())], seq![(pos as int, pos + 1), (pos + 2, p as int)], pos as int, p as int);
        }
        let st = LabelledStmt { span: span_between(ts, pos, p), label, colon_whitespace: colon_ws, body: Box::new(body) };
        proof {
            if diags@.len() == old(diags)@.len() {
                lemma_trivia_one(ts@, (pos) as int);
                lemma_trivia_one(ts@, (pos + 1) as int);
                lemma_trivia_split(ts@, (pos) as int, (pos + 1) as int, (p) as int);
                lemma_trivia_split(ts@, (pos + 1) as int, (pos + 2) as int, (p) as int);
                assert(trivia_of(Stmt::Labelled(st)) =~= tokens_trivia(ts@, (pos) as int, (p) as int));
            }
        }
        (Stmt::Labelled(st), p)
    } else {
        let expr = operand_at(ts, pos);
        let (semi, p) = parse_semicolon(ts, pos + 1, diags);
        proof {
            lemma_children(ts@, seq![Some(expr.spec_span())], seq![(pos as int, pos + 1)], pos as int, p as int);
        }
        let st = ExprStmt { span: span_between(ts, pos, p), expr, semi };
        proof {
            if diags@.len() == old(diags)@.len() {
                lemma_trivia_one(ts@, (pos) as int);
                lemma_trivia_split(ts@, (pos) as int, (pos + 1) as int, (p) as int);
                assert(trivia_of(Stmt::Expr(st)) =~= tokens_trivia(ts@, (pos) as int, (p) as int));
            }
        }
        (Stmt::Expr(st), p)
    }
}

/// `if ( condition ) statement [else statement]`.
#[verifier::spinoff_prover]
#[verifier::rlimit(100)]
fn parse_if(ts: &Vec<Token>, pos: usize, diags: &mut Vec<Diagnostic>) -> (r: (Stmt, usize))
    requires
        tokens_wf(ts@),
        pos < ts.len(),
        ts@[pos as int].kind == TokenKind::If,
    ensures
        pos < r.1 <= ts.len(),
        r.0.spec_span() == span_from(ts@, pos as int, r.1 as int),
        well_nested(r.0),
        extends(final(diags)@, old(diags)@),
        final(diags)@.len() <= old(diags)@.len() + 5 * (r.1 - pos),
        r.0 is If,
        final(diags)@.len() == old(diags)@.len() ==> trivia_of(r.0) == tokens_trivia(ts@, pos as int, r.1 as int),
        shape_ok(ts@, pos as int, r.0, r.1 as int, old(diags)@, final(diags)@),
        stmt_end(ts@, pos as int) is Some ==> stmt_end(ts@, pos as int) == Some(r.1 as int) && final(diags)@ == old(diags)@,
    decreases ts.len() - pos, 0nat,
{
    proof {
        lemma_if_end(ts@, pos as int);
    }
    let if_ws = ts[pos].whitespace;
    let (open_ws, p1) = expect(ts, pos + 1, TokenKind::LParen, diags);
    let (condition, p2) = parse_expr(ts, p1, diags);
    let (close_ws, p3) = expect(ts, p2, TokenKind::RParen, diags);
    proof {
        if stmt_end(ts@, pos as int) is Some {
            assert(paren_operand(ts@, pos + 1));
            assert(p3 == pos + 4 && diags@ == old(diags)@);
        }
    }
    let ghost dc0 = diags@;
    let (cons, p4) = parse_body(ts, p3, diags);
    let ghost dc1 = diags@;
    let has_else = at(ts, p4, TokenKind::Else);
    let (else_ws, alt, p5) = if has_else {
        let ws = ts[p4].whitespace;
        let ghost da0 = diags@;
        let (alt, q) = parse_body(ts, p4 + 1, diags);
        proof {
            lemma_stmt_end_in_range(ts@, p4 + 1);
        }
        assert(stmt_end(ts@, p4 + 1) is Some ==> shape_ok(ts@, p4 + 1, alt, q as int, da0, diags@));
        (Some(ws), Some(Box::new(alt)), q)
    } else {
        (None, None, p4)
    };
    proof {
        let alt_lo: int = if has_else { p4 + 1 } else { p4 as int };
        let alt_span = opt_stmt_span(alt);
        lemma_children(ts@, seq![Some(condition.spec_span()), Some(cons.spec_span()), alt_span], seq![(p1 as int, p2 as int), (p3 as int, p4 as int), (alt_lo, p5 as int)], pos as int, p5 as int);
    }
    let st = IfStmt {
        span: span_between(ts, pos, p5),
        if_whitespace: if_ws,
        open_paren_whitespace: open_ws,
        close_paren_whitespace: close_ws,
        condition,
        cons: Box::new(cons),
        else_whitespace: else_ws,
        alt,
    };
    proof {
        if diags@.len() == old(diags)@.len() {
            lemma_if_trivia(ts@, st, pos as int, p1 as int, p2 as int, p3 as int, p4 as int, p5 as int);
        }
    }
    proof {
        assert(st.span.end == (match st.alt { Some(a) => a.spec_span().end, None => st.cons.spec_span().end }));
        if paren_operand(ts@, pos + 1) {
            assert(p1 == pos + 2);
            assert(st.condition == leaf_of(ts@, pos + 2));
        }
        if stmt_end(ts@, pos as int) is Some {
            let e = stmt_end(ts@, pos + 4)->0;
            lemma_stmt_end_in_range(ts@, pos + 4);
            assert(p4 == e);
            assert(diags@ =~= old(diags)@);
            assert(dc0 =~= old(diags)@);
            assert(dc1 =~= old(diags)@);
            assert(shape_ok(ts@, pos + 4, *st.cons, e, old(diags)@, diags@));
            assert(st.alt.is_some() <==> at_kind(ts@, e, TokenKind::Else));
            if has_else {
                assert(shape_ok(ts@, e + 1, *st.alt->0, p5 as int, old(diags)@, diags@));
            }
        }
    }
    (Stmt::If(st), p5)
}

/// `break [label]` or `continue [label]`. Like `return`, a line break right
/// after the keyword ends the statement there, before any label.
#[verifier::spinoff_prover]
#[verifier::rlimit(100)]
fn parse_jump(ts: &Vec<Token>, pos: usize, diags: &mut Vec<Diagnostic>) -> (r: (Stmt, usize))
    requires
        tokens_wf(ts@),
        pos < ts.len(),
        ts@[pos as int].kind == TokenKind::Break || ts@[pos as int].kind == TokenKind::Continue,
    ensures
        pos < r.1 <= ts.len(),
        r.0.spec_span() == span_from(ts@, pos as int, r.1 as int),
        well_nested(r.0),
        extends(final(diags)@, old(diags)@),
        final(diags)@.len() <= old(diags)@.len() + 5 * (r.1 - pos),
        ts@[pos as int].kind == TokenKind::Break ==> (r.0 matches Stmt::Break(d) && jump_ok(ts@, pos as int, d.label, d.semi, r.1 as int, old(diags)@, final(diags)@)),
        ts@[pos as int].kind == TokenKind::Continue ==> (r.0 matches Stmt::Continue(d) && jump_ok(ts@, pos as int, d.label, d.semi, r.1 as int, old(diags)@, final(diags)@)),
        final(diags)@.len() == old(diags)@.len() ==> trivia_of(r.0) == tokens_trivia(ts@, pos as int, r.1 as int),
        shape_ok(ts@, pos as int, r.0, r.1 as int, old(diags)@, final(diags)@),
        stmt_end(ts@, pos as int) is Some ==> stmt_end(ts@, pos as int) == Some(r.1 as int) && final(diags)@ == old(diags)@,
    decreases ts.len() - pos, 0nat,
{
    proof {
        reveal(stmt_end);
    }
    let kw_ws = ts[pos].whitespace;
    let (label, p1) = if pos + 1 < ts.len() && !ts[pos + 1].has_line_break_before() && ts[pos + 1].kind == TokenKind::Identifier {
        (Some(literal_at(ts, pos + 1)), pos + 2)
    } else {
        (None, pos + 1)
    };
    let (semi, p2) = parse_semicolon(ts, p1, diags);
    proof {
        let child = match label { Some(l) => Some(l.span), None => None };
        lemma_children(ts@, seq![child], seq![(pos + 1, p1 as int)], pos as int, p2 as int);
        lemma_trivia_one(ts@, (pos) as int);
        lemma_trivia_split(ts@, (pos) as int, (pos + 1) as int, (p2) as int);
        lemma_trivia_split(ts@, (pos + 1) as int, (p1) as int, (p2) as int);
        if p1 > pos + 1 {
            lemma_trivia_one(ts@, pos + 1);
        }
    }
    if ts[pos].kind == TokenKind::Break {
        let st = BreakStmt { span: span_between(ts, pos, p2), break_whitespace: kw_ws, label, semi };
        proof {
            assert(trivia_of(Stmt::Break(st)) =~= tokens_trivia(ts@, (pos) as int, (p2) as int));
        }
        (Stmt::Break(st), p2)
    } else {
        let st = ContinueStmt { span: span_between(ts, pos, p2), continue_whitespace: kw_ws, label, semi };
        proof {
            assert(trivia_of(Stmt::Continue(st)) =~= tokens_trivia(ts@, (pos) as int, (p2) as int));
        }
        (Stmt::Continue(st), p2)
    }
}

/// `return [value]`. A line break right after the keyword ends the
/// statement there, before any value.
#[verifier::spinoff_prover]
#[verifier::rlimit(100)]
fn parse_return(ts: &Vec<Token>, pos: usize, diags: &mut Vec<Diagnostic>) -> (r: (Stmt, usize))
    requires
        tokens_wf(ts@),
        pos < ts.len(),
        ts@[pos as int].kind == TokenKind::Return,
    ensures
        pos < r.1 <= ts.len(),
        r.0.spec_span() == span_from(ts@, pos as int, r.1 as int),
        well_nested(r.0),
        extends(final(diags)@, old(diags)@),
        final(diags)@.len() <= old(diags)@.len() + 5 * (r.1 - pos),
        r.0 matches Stmt::Return(d) && (d.value.is_some() <==> restricted_operand(ts@, pos + 1)),
        final(diags)@.len() == old(diags)@.len() ==> trivia_of(r.0) == tokens_trivia(ts@, pos as int, r.1 as int),
        shape_ok(ts@, pos as int, r.0, r.1 as int, old(diags)@, final(diags)@),
        stmt_end(ts@, pos as int) is Some ==> stmt_end(ts@, pos as int) == Some(r.1 as int) && final(diags)@ == old(diags)@,
    decreases ts.len() - pos, 0nat,
{
    proof {
        reveal(stmt_end);
    }
    let kw_ws = ts[pos].whitespace;
    let (value, p1) = if pos + 1 < ts.len() && !ts[pos + 1].has_line_break_before() && is_operand_kind(ts[pos + 1].kind) {
        (Some(operand_at(ts, pos + 1)), pos + 2)
    } else {
        (None, pos + 1)
    };
    let (semi, p2) = parse_semicolon(ts, p1, diags);
    proof {
        let child = match value { Some(l) => Some(l.spec_span()), None => None };
        lemma_children(ts@, seq![child], seq![(pos + 1, p1 as int)], pos as int, p2 as int);
    }
    let st = ReturnStmt { span: span_between(ts, pos, p2), return_whitespace: kw_ws, value, semi };
    proof {
        if diags@.len() == old(diags)@.len() {
            lemma_trivia_one(ts@, (pos) as int);
            lemma_trivia_split(ts@, (pos) as int, (pos + 1) as int, (p2) as int);
            lemma_trivia_split(ts@, (pos + 1) as int, (p1) as int, (p2) as int);
            if p1 > pos + 1 {
                lemma_trivia_one(ts@, pos + 1);
            }
            assert(trivia_of(Stmt::Return(st)) =~= tokens_trivia(ts@, (pos) as int, (p2) as int));
        }
    }
    (Stmt::Return(st), p2)
}

/// `throw value`.
#[verifier::spinoff_prover]
#[verifier::rlimit(100)]
fn parse_throw(ts: &Vec<Token>, pos: usize, diags: &mut Vec<Diagnostic>) -> (r: (Stmt, usize))
    requires
        tokens_wf(ts@),
        pos < ts.len(),
        ts@[pos as int].kind == TokenKind::Throw,
    ensures
        pos < r.1 <= ts.len(),
        r.0.spec_span() == span_from(ts@, pos as int, r.1 as int),
        well_nested(r.0),
        extends(final(diags)@, old(diags)@),
        final(diags)@.len() <= old(diags)@.len() + 5 * (r.1 - pos),
        r.0 is Throw,
        final(diags)@.len() == old(diags)@.len() ==> trivia_of(r.0) == tokens_trivia(ts@, pos as int, r.1 as int),
        shape_ok(ts@, pos as int, r.0, r.1 as int, old(diags)@, final(diags)@),
        stmt_end(ts@, pos as int) is Some ==> stmt_end(ts@, pos as int) == Some(r.1 as int) && final(diags)@ == old(diags)@,
    decreases ts.len() - pos, 0nat,
{
    proof {
        reveal(stmt_end);
    }
    let kw_ws = ts[pos].whitespace;
    let (arg, p1) = parse_expr(ts, pos + 1, diags);
    let (semi, p2) = parse_semicolon(ts, p1, diags);
    proof {
        lemma_children(ts@, seq![Some(arg.spec_span())], seq![(pos + 1, p1 as int)], pos as int, p2 as int);
    }
    let st = ThrowStmt { span: span_between(ts, pos, p2), arg, semi, throw_whitespace: kw_ws };
    proof {
        if diags@.len() == old(diags)@.len() {
            lemma_trivia_one(ts@, (pos) as int);
            lemma_trivia_split(ts@, (pos) as int, (pos + 1) as int, (p2) as int);
            lemma_trivia_split(ts@, (pos + 1) as int, (p1) as int, (p2) as int);
            assert(trivia_of(Stmt::Throw(st)) =~= tokens_trivia(ts@, (pos) as int, (p2) as int));
        }
    }
    (Stmt::Throw(st), p2)
}

/// `while ( condition ) statement`.
#[verifier::spinoff_prover]
#[verifier::rlimit(100)]
fn parse_while(ts: &Vec<Token>, pos: usize, diags: &mut Vec<Diagnostic>) -> (r: (Stmt, usize))
    requires
        tokens_wf(ts@),
        pos < ts.len(),
        ts@[pos as int].kind == TokenKind::While,
    ensures
        pos < r.1 <= ts.len(),
        r.0.spec_span() == span_from(ts@, pos as int, r.1 as int),
        well_nested(r.0),
        extends(final(diags)@, old(diags)@),
        final(diags)@.len() <= old(diags)@.len() + 5 * (r.1 - pos),
        r.0 is While,
        final(diags)@.len() == old(diags)@.len() ==> trivia_of(r.0) == tokens_trivia(ts@, pos as int, r.1 as int),
        shape_ok(ts@, pos as int, r.0, r.1 as int, old(diags)@, final(diags)@),
        stmt_end(ts@, pos as int) is Some ==> stmt_end(ts@, pos as int) == Some(r.1 as int) && final(diags)@ == old(diags)@,
    decreases ts.len() - pos, 0nat,
{
    proof {
        reveal(stmt_end);
    }
    let kw_ws = ts[pos].whitespace;
    let (open_ws, p1) = expect(ts, pos + 1, TokenKind::LParen, diags);
    let (condition, p2) = parse_expr(ts, p1, diags);
    let (close_ws, p3) = expect(ts, p2, TokenKind::RParen, diags);
    let (cons, p4) = parse_body(ts, p3, diags);
    proof {
        lemma_children(ts@, seq![Some(condition.spec_span()), Some(cons.spec_span())], seq![(p1 as int, p2 as int), (p3 as int, p4 as int)], pos as int, p4 as int);
    }
    let st = WhileStmt {
        span: span_between(ts, pos, p4),
        while_whitespace: kw_ws,
        open_paren_whitespace: open_ws,
        close_paren_whitespace: close_ws,
        condition,
        cons: Box::new(cons),
    };
    proof {
        if diags@.len() == old(diags)@.len() {
            lemma_trivia_one(ts@, (pos) as int);
            lemma_trivia_one(ts@, (pos + 1) as int);
            lemma_trivia_one(ts@, (p2) as int);
            lemma_trivia_split(ts@, (pos) as int, (pos + 1) as int, (p4) as int);
            lemma_trivia_split(ts@, (pos + 1) as int, (p1) as int, (p4) as int);
            lemma_trivia_split(ts@, (p1) as int, (p2) as int, (p4) as int);
            lemma_trivia_split(ts@, (p2) as int, (p3) as int, (p4) as int);
            assert(trivia_of(Stmt::While(st)) =~= tokens_trivia(ts@, (pos) as int, (p4) as int));
        }
    }
    (Stmt::While(st), p4)
}

/// `do statement while ( condition )`. The statement ends right after the
/// `)`: a `;` there is left to stand as an empty statement.
#[verifier::spinoff_prover]
#[verifier::rlimit(100)]
fn parse_do_while(ts: &Vec<Token>, pos: usize, diags: &mut Vec<Diagnostic>) -> (r: (Stmt, usize))
    requires
        tokens_wf(ts@),
        pos < ts.len(),
        ts@[pos as int].kind == TokenKind::Do,
    ensures
        pos < r.1 <= ts.len(),
        r.0.spec_span() == span_from(ts@, pos as int, r.1 as int),
        well_nested(r.0),
        extends(final(diags)@, old(diags)@),
        final(diags)@.len() <= old(diags)@.len() + 5 * (r.1 - pos),
        r.0 is DoWhile,
        final(diags)@.len() == old(diags)@.len() ==> trivia_of(r.0) == tokens_trivia(ts@, pos as int, r.1 as int),
        shape_ok(ts@, pos as int, r.0, r.1 as int, old(diags)@, final(diags)@),
        stmt_end(ts@, pos as int) is Some ==> stmt_end(ts@, pos as int) == Some(r.1 as int) && final(diags)@ == old(diags)@,
    decreases ts.len() - pos, 0nat,
{
    proof {
        reveal(stmt_end);
    }
    let kw_ws = ts[pos].whitespace;
    let (cons, p1) = parse_body(ts, pos + 1, diags);
    let (while_ws, p2) = expect(ts, p1, TokenKind::While, diags);
    let (open_ws, p3) = expect(ts, p2, TokenKind::LParen, diags);
    let (condition, p4) = parse_expr(ts, p3, diags);
    let (close_ws, p5) = expect(ts, p4, TokenKind::RParen, diags);
    proof {
        lemma_children(ts@, seq![Some(cons.spec_span()), Some(condition.spec_span())], seq![(pos + 1, p1 as int), (p3 as int, p4 as int)], pos as int, p5 as int);
    }
    let st = DoWhileStmt {
        span: span_between(ts, pos, p5),
        do_whitespace: kw_ws,
        while_whitespace: while_ws,
        open_paren_whitespace: open_ws,
        close_paren_whitespace: close_ws,
        condition,
        cons: Box::new(cons),
    };
    proof {
        if diags@.len() == old(diags)@.len() {
            lemma_do_while_trivia(ts@, st, pos as int, p1 as int, p2 as int, p3 as int, p4 as int, p5 as int);
        }
    }
    (Stmt::DoWhile(st), p5)
}

/// `with ( object ) statement`.
#[verifier::spinoff_prover]
#[verifier::rlimit(100)]
fn parse_with(ts: &Vec<Token>, pos: usize, diags: &mut Vec<Diagnostic>) -> (r: (Stmt, usize))
    requires
        tokens_wf(ts@),
        pos < ts.len(),
        ts@[pos as int].kind == TokenKind::With,
    ensures
        pos < r.1 <= ts.len(),
        r.0.spec_span() == span_from(ts@, pos as int, r.1 as int),
        well_nested(r.0),
        extends(final(diags)@, old(diags)@),
        final(diags)@.len() <= old(diags)@.len() + 5 * (r.1 - pos),
        r.0 is With,
        final(diags)@.len() == old(diags)@.len() ==> trivia_of(r.0) == tokens_trivia(ts@, pos as int, r.1 as int),
        shape_ok(ts@, pos as int, r.0, r.1 as int, old(diags)@, final(diags)@),
        stmt_end(ts@, pos as int) is Some ==> stmt_end(ts@, pos as int) == Some(r.1 as int) && final(diags)@ == old(diags)@,
    decreases ts.len() - pos, 0nat,
{
    proof {
        reveal(stmt_end);
    }
    let kw_ws = ts[pos].whitespace;
    let (open_ws, p1) = expect(ts, pos + 1, TokenKind::LParen, diags);
    let (object, p2) = parse_expr(ts, p1, diags);
    let (close_ws, p3) = expect(ts, p2, TokenKind::RParen, diags);
    let (body, p4) = parse_body(ts, p3, diags);
    proof {
        lemma_children(ts@, seq![Some(object.spec_span()), Some(body.spec_span())], seq![(p1 as int, p2 as int), (p3 as int, p4 as int)], pos as int, p4 as int);
    }
    let st = WithStmt {
        span: span_between(ts, pos, p4),
        with_whitespace: kw_ws,
        open_paren_whitespace: open_ws,
        close_paren_whitespace: close_ws,
        object,
        body: Box::new(body),
    };
    proof {
        if diags@.len() == old(diags)@.len() {
            lemma_trivia_one(ts@, (pos) as int);
            lemma_trivia_one(ts@, (pos + 1) as int);
            lemma_trivia_one(ts@, (p2) as int);
            lemma_trivia_split(ts@, (pos) as int, (pos + 1) as int, (p4) as int);
            lemma_trivia_split(ts@, (pos + 1) as int, (p1) as int, (p4) as int);
            lemma_trivia_split(ts@, (p1) as int, (p2) as int, (p4) as int);
            lemma_trivia_split(ts@, (p2) as int, (p3) as int, (p4) as int);
            assert(trivia_of(Stmt::With(st)) =~= tokens_trivia(ts@, (pos) as int, (p4) as int));
        }
    }
    (Stmt::With(st), p4)
}

/// `var name [= value], ...`, ended by a semicolon when `terminated`
/// (a `for` head's declarations are not). A missing name is reported and
/// stands as a zero-width name at the start of its declarator.
#[verifier::spinoff_prover]
#[verifier::rlimit(100)]
fn parse_var(ts: &Vec<Token>, pos: usize, diags: &mut Vec<Diagnostic>, terminated: bool) -> (r: (VarStmt, usize))
    requires
        tokens_wf(ts@),
        pos < ts.len(),
        ts@[pos as int].kind == TokenKind::Var,
    ensures
        pos < r.1 <= ts.len(),
        r.0.span == span_from(ts@, pos as int, r.1 as int),
        r.0.nested(),
        extends(final(diags)@, old(diags)@),
        final(diags)@.len() <= old(diags)@.len() + 3 * (r.1 - pos),
        r.0.declared@.len() >= 1,
        r.0.comma_whitespaces@.len() + 1 == r.0.declared@.len(),
        var_list_end(ts@, pos + 1) is Some ==> first_decl_ok(ts@, pos + 1, r.0.declared@[0]),
        r.0.semi is Implicit ==> r.0.span.end == r.0.declared@.last().spec_span().end,
        forall|i: int| 0 <= i < r.0.declared@.len() ==> (#[trigger] r.0.declared@[i]).wf(),
        !terminated ==> r.0.semi == Semicolon::Implicit,
        terminated ==> semi_ok(ts@, r.0.semi, r.1 as int, old(diags)@, final(diags)@),
        final(diags)@.len() == old(diags)@.len() ==> r.0.trivia() == tokens_trivia(ts@, pos as int, r.1 as int),
        var_end(ts@, pos as int, terminated) is Some ==> var_end(ts@, pos as int, terminated) == Some(r.1 as int) && final(diags)@ == old(diags)@,
{
    let var_ws = ts[pos].whitespace;
    let mut declared: Vec<Declarator> = Vec::new();
    let mut commas: Vec<LiteralWhitespace> = Vec::new();
    let mut p: usize = pos + 1;
    proof {
        assert(declarator_spans(declared@) =~= Seq::<Span>::empty());
        assert(items_trivia(declared@, commas@) =~= Seq::<LiteralWhitespace>::empty());
        lemma_trivia_empty(ts@, pos + 1);
    }
    loop
        invariant_except_break
            commas@.len() == declared@.len(),
            var_list_end(ts@, pos + 1) is Some ==> var_list_end(ts@, p as int) == var_list_end(ts@, pos + 1) && diags@ == old(diags)@,
            diags@.len() + 1 <= old(diags)@.len() + 2 * (p - pos),
            declared@.len() == 0 ==> p == pos + 1,
        invariant
            var_list_end(ts@, pos + 1) is Some && declared@.len() > 0 ==> first_decl_ok(ts@, pos + 1, declared@[0]),
            tokens_wf(ts@),
            pos < p <= ts.len(),
            extends(diags@, old(diags)@),
            forall|i: int| 0 <= i < declared@.len() ==> (#[trigger] declared@[i]).wf() && declared@[i].nested(),
            collected(ts@, declarator_spans(declared@), pos as int, p as int),
            diags@.len() == old(diags)@.len() ==> items_trivia(declared@, commas@) == tokens_trivia(ts@, pos + 1, p as int),
        ensures
            var_list_end(ts@, pos + 1) is Some ==> var_list_end(ts@, pos + 1) == Some(p as int) && diags@ == old(diags)@,
            declared@.len() > 0 && declared@.last().spec_span().end == text_end(ts@, p - 1),
            pos < p <= ts.len(),
            diags@.len() <= old(diags)@.len() + 2 * (p - pos),
            commas@.len() + 1 == declared@.len(),
        decreases ts.len() - p,
    {
        let start = p;
        let has_name = at(ts, start, TokenKind::Identifier);
        if !has_name {
            diags.push(unexpected(ts, start, Expected::Token(TokenKind::Identifier)));
        }
        let p1: usize = if has_name { start + 1 } else { start };
        let has_value = at(ts, p1, TokenKind::Assign);
        let (init_ws, value, p2) = if has_value {
            let ws = ts[p1].whitespace;
            let (v, q) = parse_expr(ts, p1 + 1, diags);
            (Some(ws), Some(v), q)
        } else {
            (None, None, p1)
        };
        let dspan = span_between(ts, start, p2);
        let name = if has_name {
            literal_at(ts, start)
        } else {
            LiteralExpr { span: Span::new(dspan.start, dspan.start), whitespace: LiteralWhitespace::empty_at(dspan.start) }
        };
        let d = Declarator { span: dspan, name, value, initializer_whitespace: init_ws };
        proof {
            let value_lo: int = if has_value { p1 + 1 } else { p1 as int };
            if has_name {
                lemma_children(ts@, seq![Some(name.span), opt_expr_span(value)], seq![(start as int, start + 1), (value_lo, p2 as int)], start as int, p2 as int);
            } else {
                if start < p2 {
                    lemma_span_wf(ts@, start as int, p2 as int);
                }
                if has_value {
                    lemma_span_within(ts@, value_lo, p2 as int, start as int, p2 as int);
                }
                let spans = seq![Some(name.span), opt_expr_span(value)];
                assert(spans[0] == Some(name.span));
                assert(spans[1] == opt_expr_span(value));
            }
            assert(d.nested());
            lemma_collect_push(ts@, declarator_spans(declared@), pos as int, start as int, p2 as int);
        }
        let ghost before = declared@;
        proof {
            if var_list_end(ts@, pos + 1) is Some && before.len() == 0 {
                assert(start == pos + 1);
                assert(at_kind(ts@, start as int, TokenKind::Identifier));
                assert(first_decl_ok(ts@, pos + 1, d));
            }
            assert(d.spec_span().end == text_end(ts@, p2 - 1));
        }
        declared.push(d);
        proof {
            assert(declared@.last() == d);
            assert(declarator_spans(declared@) =~= declarator_spans(before).push(dspan));
            assert forall|i: int| 0 <= i < declared@.len() implies (#[trigger] declared@[i]).wf() && declared@[i].nested() by {
                if i < before.len() {
                    assert(declared@[i] == before[i]);
                }
            }
        }
        proof {
            if var_list_end(ts@, pos + 1) is Some {
                assert(at_kind(ts@, start as int, TokenKind::Identifier));
                assert(var_list_end(ts@, start as int) == (if at_kind(ts@, p2 as int, TokenKind::Comma) {
                    var_list_end(ts@, p2 + 1)
                } else {
                    Some(p2 as int)
                }));
            }
        }
        let ghost before_cs = commas@;
        let has_comma = at(ts, p2, TokenKind::Comma);
        if has_comma {
            commas.push(ts[p2].whitespace);
        }
        proof {
            if diags@.len() == old(diags)@.len() {
                let c: Option<LiteralWhitespace> = if has_comma { Some(ts@[p2 as int].whitespace) } else { None };
                assert(commas@ =~= before_cs + opt_trivia(c));
                lemma_items_trivia_push(before, before_cs, d, c);
                lemma_trivia_one(ts@, start as int);
                if has_value {
                    lemma_trivia_one(ts@, p1 as int);
                    lemma_trivia_split(ts@, p1 as int, p1 + 1, p2 as int);
                }
                lemma_trivia_split(ts@, start as int, start + 1, p2 as int);
                assert(d.trivia() =~= tokens_trivia(ts@, start as int, p2 as int));
                let p_next: int = if has_comma { p2 + 1 } else { p2 as int };
                lemma_trivia_empty(ts@, p2 as int);
                if has_comma {
                    lemma_trivia_one(ts@, p2 as int);
                }
                lemma_trivia_split(ts@, pos + 1, start as int, p_next);
                lemma_trivia_split(ts@, start as int, p2 as int, p_next);
                assert(opt_trivia(c) =~= tokens_trivia(ts@, p2 as int, p_next));
            }
        }
        if has_comma {
            proof {
                lemma_collect_skip(ts@, declarator_spans(declared@), pos as int, p2 as int, p2 + 1);
            }
            p = p2 + 1;
        } else {
            proof {
                if var_list_end(ts@, pos + 1) is Some {
                    assert(var_list_end(ts@, start as int) == Some(p2 as int));
                    assert(diags@ == old(diags)@);
                }
            }
            p = p2;
            break;
        }
    }
    let (semi, p_end) = if terminated {
        parse_semicolon(ts, p, diags)
    } else {
        (Semicolon::Implicit, p)
    };
    proof {
        lemma_collect_done(ts@, declarator_spans(declared@), pos as int, p as int, pos as int, p_end as int);
    }
    let v = VarStmt { span: span_between(ts, pos, p_end), declared, comma_whitespaces: commas, var_whitespace: var_ws, semi };
    proof {
        if diags@.len() == old(diags)@.len() {
            lemma_trivia_one(ts@, (pos) as int);
            lemma_trivia_split(ts@, (pos) as int, (pos + 1) as int, (p_end) as int);
            lemma_trivia_split(ts@, (pos + 1) as int, (p) as int, (p_end) as int);
            lemma_trivia_empty(ts@, p as int);
            assert(v.trivia() =~= tokens_trivia(ts@, (pos) as int, (p_end) as int));
        }
    }
    (v, p_end)
}

/// The statements of one switch case, up to the next `case`, `default` or `}`.
#[verifier::spinoff_prover]
#[verifier::rlimit(100)]
fn parse_case_body(ts: &Vec<Token>, pos: usize, diags: &mut Vec<Diagnostic>) -> (r: (Vec<Stmt>, usize))
    requires
        tokens_wf(ts@),
        0 < pos <= ts.len(),
    ensures
        pos <= r.1 <= ts.len(),
        collected(ts@, stmt_spans(r.0@), pos - 1, r.1 as int),
        forall|k: int| 0 <= k < r.0@.len() ==> well_nested(#[trigger] r.0@[k]),
        extends(final(diags)@, old(diags)@),
        final(diags)@.len() <= old(diags)@.len() + 5 * (r.1 - pos),
        final(diags)@.len() == old(diags)@.len() ==> stmts_trivia(r.0@) == tokens_trivia(ts@, pos as int, r.1 as int),
        case_body_end(ts@, pos as int) is Some ==> case_body_end(ts@, pos as int) == Some(r.1 as int) && final(diags)@ == old(diags)@,
    decreases ts.len() - pos, 2nat,
{
    let mut stmts: Vec<Stmt> = Vec::new();
    let mut p: usize = pos;
    proof {
        assert(stmt_spans(stmts@) =~= Seq::<Span>::empty());
        assert(stmts_trivia_parts(stmts@) =~= Seq::<Seq<LiteralWhitespace>>::empty());
        lemma_trivia_empty(ts@, pos as int);
    }
    while p < ts.len() && ts[p].kind != TokenKind::RBrace && ts[p].kind != TokenKind::Case && ts[p].kind != TokenKind::Default
        invariant
            tokens_wf(ts@),
            0 < pos <= p <= ts.len(),
            extends(diags@, old(diags)@),
            collected(ts@, stmt_spans(stmts@), pos - 1, p as int),
            diags@.len() <= old(diags)@.len() + 5 * (p - pos),
            diags@.len() == old(diags)@.len() ==> stmts_trivia(stmts@) == tokens_trivia(ts@, pos as int, p as int),
            case_body_end(ts@, pos as int) is Some ==> case_body_end(ts@, p as int) == case_body_end(ts@, pos as int) && diags@ == old(diags)@,
            forall|k: int| 0 <= k < stmts@.len() ==> well_nested(#[trigger] stmts@[k]),
        decreases ts.len() - p,
    {
        let (st, q) = parse_stmt(ts, p, diags);
        let ghost before = stmts@;
        proof {
            lemma_collect_push(ts@, stmt_spans(before), pos - 1, p as int, q as int);
        }
        stmts.push(st);
        proof {
            lemma_stmts_trivia_push(before, stmts@.last());
            assert(before.push(stmts@.last()) =~= stmts@);
            lemma_trivia_split(ts@, pos as int, p as int, q as int);
            assert(stmt_spans(stmts@) =~= stmt_spans(before).push(span_from(ts@, p as int, q as int)));
            assert forall|k: int| 0 <= k < stmts@.len() implies well_nested(#[trigger] stmts@[k]) by {
                if k < before.len() {
                    assert(stmts@[k] == before[k]);
                }
            }
        }
        p = q;
    }
    (stmts, p)
}

/// One `case test:` or `default:` clause at `pos`. Where a `default` was
/// already seen, this one is reported and kept as an ordinary case whose
/// test is missing.
#[verifier::spinoff_prover]
#[verifier::rlimit(100)]
fn parse_case(ts: &Vec<Token>, pos: usize, diags: &mut Vec<Diagnostic>, have_default: bool) -> (r: (Case, usize))
    requires
        tokens_wf(ts@),
        0 < pos < ts.len(),
        ts@[pos as int].kind == TokenKind::Case || ts@[pos as int].kind == TokenKind::Default,
    ensures
        pos < r.1 <= ts.len(),
        r.0.span == span_from(ts@, pos as int, r.1 as int),
        case_nested(r.0),
        r.0.default <==> (ts@[pos as int].kind == TokenKind::Default && !have_default),
        r.0.default <==> r.0.test is None,
        is_missing(r.0.test) ==> final(diags)@.len() > old(diags)@.len(),
        ts@[pos as int].kind == TokenKind::Default && have_default ==> is_missing(r.0.test),
        extends(final(diags)@, old(diags)@),
        final(diags)@.len() <= old(diags)@.len() + 5 * (r.1 - pos),
        final(diags)@.len() == old(diags)@.len() ==> case_trivia(r.0) == tokens_trivia(ts@, pos as int, r.1 as int),
        case_end(ts@, pos as int, have_default) is Some ==> case_end(ts@, pos as int, have_default) == Some(r.1 as int) && final(diags)@ == old(diags)@,
    decreases ts.len() - pos, 0nat,
{
    let ws = ts[pos].whitespace;
    let is_case = ts[pos].kind == TokenKind::Case;
    let (test, p1) = if is_case {
        let (t, q) = parse_expr(ts, pos + 1, diags);
        (Some(t), q)
    } else if have_default {
        diags.push(unexpected(ts, pos, Expected::SingleDefault));
        (Some(Expr::Missing(span_between(ts, pos + 1, pos + 1))), pos + 1)
    } else {
        (None, pos + 1)
    };
    let (colon_ws, p2) = expect(ts, p1, TokenKind::Colon, diags);
    let (cons, p3) = parse_case_body(ts, p2, diags);
    proof {
        lemma_collect_done(ts@, stmt_spans(cons@), p2 - 1, p3 as int, pos as int, p3 as int);
        lemma_span_within(ts@, pos + 1, p1 as int, pos as int, p3 as int);
        lemma_text_monotone(ts@, p1 - 1, p2 - 1);
        if let Some(t) = test {
            assert(t.spec_span() == span_from(ts@, pos + 1, p1 as int));
            assert forall|k: int| 0 <= k < cons@.len() implies t.spec_span().precedes((#[trigger] cons@[k]).spec_span()) by {
                assert(stmt_spans(cons@)[k] == cons@[k].spec_span());
            }
        }
    }
    let c = Case { span: span_between(ts, pos, p3), default: !is_case && !have_default, whitespace: ws, colon_whitespace: colon_ws, test, cons };
    proof {
        if diags@.len() == old(diags)@.len() {
            lemma_trivia_one(ts@, (pos) as int);
            lemma_trivia_one(ts@, (p1) as int);
            lemma_trivia_split(ts@, (pos) as int, (pos + 1) as int, (p3) as int);
            lemma_trivia_split(ts@, (pos + 1) as int, (p1) as int, (p3) as int);
            lemma_trivia_split(ts@, (p1) as int, (p2) as int, (p3) as int);
            assert(case_trivia(c) =~= tokens_trivia(ts@, (pos) as int, (p3) as int));
        }
    }
    (c, p3)
}

/// `switch ( test ) { cases }`.
#[verifier::spinoff_prover]
#[verifier::rlimit(100)]
fn parse_switch(ts: &Vec<Token>, pos: usize, diags: &mut Vec<Diagnostic>) -> (r: (Stmt, usize))
    requires
        tokens_wf(ts@),
        pos < ts.len(),
        ts@[pos as int].kind == TokenKind::Switch,
    ensures
        pos < r.1 <= ts.len(),
        r.0.spec_span() == span_from(ts@, pos as int, r.1 as int),
        well_nested(r.0),
        extends(final(diags)@, old(diags)@),
        final(diags)@.len() <= old(diags)@.len() + 5 * (r.1 - pos),
        r.0 matches Stmt::Switch(d) && cases_wf(d.cases@),
        final(diags)@.len() == old(diags)@.len() ==> trivia_of(r.0) == tokens_trivia(ts@, pos as int, r.1 as int),
        shape_ok(ts@, pos as int, r.0, r.1 as int, old(diags)@, final(diags)@),
        stmt_end(ts@, pos as int) is Some ==> stmt_end(ts@, pos as int) == Some(r.1 as int) && final(diags)@ == old(diags)@,
    decreases ts.len() - pos, 0nat,
{
    proof {
        reveal(stmt_end);
    }
    let kw_ws = ts[pos].whitespace;
    let (open_ws, p1) = expect(ts, pos + 1, TokenKind::LParen, diags);
    let (test, p2) = parse_expr(ts, p1, diags);
    let (close_ws, p3) = expect(ts, p2, TokenKind::RParen, diags);
    let (open_brace_ws, p4) = expect(ts, p3, TokenKind::LBrace, diags);
    let has_body = p4 > p3;
    let ghost before_cases = diags@.len();
    let mut p: usize = p4;
    let mut cases: Vec<Case> = Vec::new();
    let mut have_default = false;
    proof {
        assert(case_spans(cases@) =~= Seq::<Span>::empty());
        assert(cases_trivia_parts(cases@) =~= Seq::<Seq<LiteralWhitespace>>::empty());
        lemma_trivia_empty(ts@, p4 as int);
    }
    while has_body && p < ts.len() && ts[p].kind != TokenKind::RBrace
        invariant
            tokens_wf(ts@),
            pos < p3 < p4 <= p <= ts.len() || (!has_body && p == p4),
            p4 > pos,
            extends(diags@, old(diags)@),
            cases_wf(cases@),
            !have_default ==> forall|i: int| 0 <= i < cases@.len() ==> !(#[trigger] cases@[i]).default,
            has_body ==> collected(ts@, case_spans(cases@), p3 as int, p as int),
            !has_body ==> cases@.len() == 0,
            has_body ==> diags@.len() + 1 <= old(diags)@.len() + 5 * (p - pos),
            diags@.len() >= before_cases,
            stmt_end(ts@, pos as int) is Some ==> has_body && p4 == pos + 5 && cases_end(ts@, p as int, have_default) == stmt_end(ts@, pos as int) && diags@ == old(diags)@,
            forall|i: int| 0 <= i < cases@.len() && is_missing((#[trigger] cases@[i]).test) ==> diags@.len() > old(diags)@.len(),
            !has_body ==> diags@.len() <= old(diags)@.len() + 4,
            forall|k: int| 0 <= k < cases@.len() ==> case_nested(#[trigger] cases@[k]),
            diags@.len() == old(diags)@.len() ==> has_body && cases_trivia(cases@) == tokens_trivia(ts@, p4 as int, p as int),
        decreases ts.len() - p,
    {
        let k = ts[p].kind;
        if k == TokenKind::Case || k == TokenKind::Default {
            let (c, q) = parse_case(ts, p, diags, have_default);
            proof {
                if stmt_end(ts@, pos as int) is Some {
                    assert(!at_kind(ts@, p as int, TokenKind::RBrace));
                    assert(case_end(ts@, p as int, have_default) is Some);
                    assert(cases_end(ts@, p as int, have_default) == cases_end(
                        ts@,
                        q as int,
                        have_default || k == TokenKind::Default,
                    ));
                }
            }
            let ghost before = cases@;
            proof {
                lemma_collect_push(ts@, case_spans(before), p3 as int, p as int, q as int);
            }
            cases.push(c);
            proof {
                lemma_cases_trivia_push(before, cases@.last());
                assert(before.push(cases@.last()) =~= cases@);
                lemma_trivia_split(ts@, p4 as int, p as int, q as int);
                assert(case_spans(cases@) =~= case_spans(before).push(span_from(ts@, p as int, q as int)));
                assert forall|i: int| 0 <= i < cases@.len() implies case_nested(#[trigger] cases@[i]) by {
                    if i < before.len() {
                        assert(cases@[i] == before[i]);
                    }
                }
            }
            if k == TokenKind::Default {
                have_default = true;
            }
            p = q;
        } else {
            diags.push(unexpected(ts, p, Expected::Token(TokenKind::Case)));
            proof {
                lemma_collect_skip(ts@, case_spans(cases@), p3 as int, p as int, p + 1);
            }
            p = p + 1;
        }
    }
    let (close_brace_ws, p_end) = if has_body {
        expect(ts, p, TokenKind::RBrace, diags)
    } else {
        (open_brace_ws, p)
    };
    proof {
        lemma_span_within(ts@, p1 as int, p2 as int, pos as int, p_end as int);
        if has_body {
            lemma_collect_done(ts@, case_spans(cases@), p3 as int, p as int, pos as int, p_end as int);
            lemma_text_monotone(ts@, p2 - 1, p3 as int);
            assert forall|i: int| 0 <= i < cases@.len() implies test.spec_span().precedes((#[trigger] cases@[i]).span) by {
                assert(case_spans(cases@)[i] == cases@[i].span);
            }
        }
    }
    let st = SwitchStmt {
        span: span_between(ts, pos, p_end),
        switch_whitespace: kw_ws,
        open_paren_whitespace: open_ws,
        close_paren_whitespace: close_ws,
        test,
        open_brace_whitespace: open_brace_ws,
        close_brace_whitespace: close_brace_ws,
        cases,
    };
    proof {
        if diags@.len() == old(diags)@.len() {
            lemma_switch_trivia(ts@, st, pos as int, p1 as int, p2 as int, p3 as int, p4 as int, p as int, p_end as int);
        }
    }
    (Stmt::Switch(st), p_end)
}

/// A block that the grammar requires at `pos`; where it is missing, a
/// reported zero-width empty block stands in for it.
#[verifier::spinoff_prover]
#[verifier::rlimit(100)]
fn expect_block(ts: &Vec<Token>, pos: usize, diags: &mut Vec<Diagnostic>) -> (r: (BlockStmt, usize))
    requires
        tokens_wf(ts@),
        0 < pos <= ts.len(),
    ensures
        pos <= r.1 <= ts.len(),
        r.0.span == span_from(ts@, pos as int, r.1 as int),
        block_nested(r.0),
        extends(final(diags)@, old(diags)@),
        final(diags)@.len() <= old(diags)@.len() + 5 * (r.1 - pos) + 1,
        final(diags)@.len() == old(diags)@.len() ==> block_trivia(r.0) == tokens_trivia(ts@, pos as int, r.1 as int),
        (if at_kind(ts@, pos as int, TokenKind::LBrace) { items_end(ts@, pos + 1) } else { None }) is Some ==> (if at_kind(ts@, pos as int, TokenKind::LBrace) { items_end(ts@, pos + 1) } else { None }) == Some(r.1 as int) && final(diags)@ == old(diags)@,
    decreases ts.len() - pos, 1nat,
{
    if at(ts, pos, TokenKind::LBrace) {
        parse_block(ts, pos, diags)
    } else {
        diags.push(unexpected(ts, pos, Expected::Token(TokenKind::LBrace)));
        let ws = LiteralWhitespace::empty_at(ts[pos - 1].whitespace.after.start);
        let b = BlockStmt { span: span_between(ts, pos, pos), stmts: Vec::new(), open_brace_whitespace: ws, close_brace_whitespace: ws };
        proof {
            assert(stmt_spans(b.stmts@) =~= Seq::<Span>::empty());
        }
        (b, pos)
    }
}

/// `catch ( param ) block` at `pos`; a missing parameter is reported and
/// stands as a zero-width name.
#[verifier::spinoff_prover]
#[verifier::rlimit(100)]
fn parse_catch(ts: &Vec<Token>, pos: usize, diags: &mut Vec<Diagnostic>) -> (r: (CatchClause, usize))
    requires
        tokens_wf(ts@),
        0 < pos < ts.len(),
        ts@[pos as int].kind == TokenKind::Catch,
    ensures
        pos < r.1 <= ts.len(),
        r.0.span == span_from(ts@, pos as int, r.1 as int),
        opt_ordered_inside(seq![Some(r.0.param.span), Some(r.0.body.span)], r.0.span),
        block_nested(r.0.body),
        extends(final(diags)@, old(diags)@),
        final(diags)@.len() <= old(diags)@.len() + 5 * (r.1 - pos),
        final(diags)@.len() == old(diags)@.len() ==> catch_trivia(r.0) == tokens_trivia(ts@, pos as int, r.1 as int),
        at_kind(ts@, pos + 1, TokenKind::LParen) && at_kind(ts@, pos + 2, TokenKind::Identifier) && at_kind(ts@, pos + 3, TokenKind::RParen) && at_kind(ts@, pos + 4, TokenKind::LBrace) && items_end(ts@, pos + 5) is Some ==> items_end(ts@, pos + 5) == Some(r.1 as int) && final(diags)@ == old(diags)@,
    decreases ts.len() - pos, 0nat,
{
    let catch_ws = ts[pos].whitespace;
    let (open_ws, p1) = expect(ts, pos + 1, TokenKind::LParen, diags);
    let has_param = at(ts, p1, TokenKind::Identifier);
    let param = if has_param {
        literal_at(ts, p1)
    } else {
        diags.push(unexpected(ts, p1, Expected::Token(TokenKind::Identifier)));
        let e = ts[p1 - 1].whitespace.after.start;
        LiteralExpr { span: span_between(ts, p1, p1), whitespace: LiteralWhitespace::empty_at(e) }
    };
    let p2: usize = if has_param { p1 + 1 } else { p1 };
    let (close_ws, p3) = expect(ts, p2, TokenKind::RParen, diags);
    let (body, p4) = expect_block(ts, p3, diags);
    proof {
        lemma_children(ts@, seq![Some(param.span), Some(body.span)], seq![(p1 as int, p2 as int), (p3 as int, p4 as int)], pos as int, p4 as int);
    }
    let c = CatchClause {
        span: span_between(ts, pos, p4),
        catch_whitespace: catch_ws,
        open_paren_whitespace: open_ws,
        close_paren_whitespace: close_ws,
        param,
        body,
    };
    proof {
        if diags@.len() == old(diags)@.len() {
            lemma_trivia_one(ts@, (pos) as int);
            lemma_trivia_one(ts@, (pos + 1) as int);
            lemma_trivia_one(ts@, (p1) as int);
            lemma_trivia_one(ts@, (p2) as int);
            lemma_trivia_split(ts@, (pos) as int, (pos + 1) as int, (p4) as int);
            lemma_trivia_split(ts@, (pos + 1) as int, (p1) as int, (p4) as int);
            lemma_trivia_split(ts@, (p1) as int, (p2) as int, (p4) as int);
            lemma_trivia_split(ts@, (p2) as int, (p3) as int, (p4) as int);
            assert(catch_trivia(c) =~= tokens_trivia(ts@, (pos) as int, (p4) as int));
        }
    }
    (c, p4)
}

/// `try block [catch ( param ) block] [finally block]`; a `try` with
/// neither clause is reported.
#[verifier::spinoff_prover]
#[verifier::rlimit(100)]
fn parse_try(ts: &Vec<Token>, pos: usize, diags: &mut Vec<Diagnostic>) -> (r: (Stmt, usize))
    requires
        tokens_wf(ts@),
        pos < ts.len(),
        ts@[pos as int].kind == TokenKind::Try,
    ensures
        pos < r.1 <= ts.len(),
        r.0.spec_span() == span_from(ts@, pos as int, r.1 as int),
        well_nested(r.0),
        extends(final(diags)@, old(diags)@),
        final(diags)@.len() <= old(diags)@.len() + 5 * (r.1 - pos),
        r.0 matches Stmt::Try(d) && try_ok(d, old(diags)@, final(diags)@),
        final(diags)@.len() == old(diags)@.len() ==> trivia_of(r.0) == tokens_trivia(ts@, pos as int, r.1 as int),
        shape_ok(ts@, pos as int, r.0, r.1 as int, old(diags)@, final(diags)@),
        stmt_end(ts@, pos as int) is Some ==> stmt_end(ts@, pos as int) == Some(r.1 as int) && final(diags)@ == old(diags)@,
    decreases ts.len() - pos, 0nat,
{
    proof {
        lemma_try_end(ts@, pos as int);
    }
    let kw_ws = ts[pos].whitespace;
    let (test, p1) = expect_block(ts, pos + 1, diags);
    let has_catch = at(ts, p1, TokenKind::Catch);
    let (handler, p2) = if has_catch {
        let (c, q) = parse_catch(ts, p1, diags);
        (Some(c), q)
    } else {
        (None, p1)
    };
    let has_finally = at(ts, p2, TokenKind::Finally);
    let (final_ws, finalizer, p3) = if has_finally {
        let ws = ts[p2].whitespace;
        let (b, q) = expect_block(ts, p2 + 1, diags);
        (Some(ws), Some(b), q)
    } else {
        (None, None, p2)
    };
    if handler.is_none() && finalizer.is_none() {
        diags.push(unexpected(ts, p3, Expected::CatchOrFinally));
    }
    proof {
        let fin_lo: int = if has_finally { p2 + 1 } else { p2 as int };
        let h_span = opt_catch_span(handler);
        let f_span = opt_block_span(finalizer);
        lemma_children(ts@, seq![Some(test.span), h_span, f_span], seq![(pos + 1, p1 as int), (p1 as int, p2 as int), (fin_lo, p3 as int)], pos as int, p3 as int);
    }
    let st = TryStmt { span: span_between(ts, pos, p3), try_whitespace: kw_ws, test, handler, finalizer, final_whitespace: final_ws };
    proof {
        if diags@.len() == old(diags)@.len() {
            lemma_trivia_one(ts@, (pos) as int);
            lemma_trivia_split(ts@, (pos) as int, (pos + 1) as int, (p3) as int);
            lemma_trivia_split(ts@, (pos + 1) as int, (p1) as int, (p3) as int);
            lemma_trivia_split(ts@, (p1) as int, (p2) as int, (p3) as int);
            if has_finally {
                lemma_trivia_one(ts@, p2 as int);
                lemma_trivia_split(ts@, p2 as int, p2 + 1, p3 as int);
            }
            assert(trivia_of(Stmt::Try(st)) =~= tokens_trivia(ts@, (pos) as int, (p3) as int));
        }
    }
    (Stmt::Try(st), p3)
}

/// `for ( [init] ; [test] ; [update] ) statement` or
/// `for ( left in right ) statement`.
#[verifier::spinoff_prover]
#[verifier::rlimit(100)]
fn parse_for(ts: &Vec<Token>, pos: usize, diags: &mut Vec<Diagnostic>) -> (r: (Stmt, usize))
    requires
        tokens_wf(ts@),
        pos < ts.len(),
        ts@[pos as int].kind == TokenKind::For,
    ensures
        pos < r.1 <= ts.len(),
        r.0.spec_span() == span_from(ts@, pos as int, r.1 as int),
        well_nested(r.0),
        extends(final(diags)@, old(diags)@),
        final(diags)@.len() <= old(diags)@.len() + 5 * (r.1 - pos),
        r.0 is For || r.0 is ForIn,
        final(diags)@.len() == old(diags)@.len() ==> trivia_of(r.0) == tokens_trivia(ts@, pos as int, r.1 as int),
        shape_ok(ts@, pos as int, r.0, r.1 as int, old(diags)@, final(diags)@),
        stmt_end(ts@, pos as int) is Some ==> stmt_end(ts@, pos as int) == Some(r.1 as int) && final(diags)@ == old(diags)@,
    decreases ts.len() - pos, 0nat,
{
    proof {
        lemma_for_end(ts@, pos as int);
    }
    let (open_ws, p1) = expect(ts, pos + 1, TokenKind::LParen, diags);
    proof {
        lemma_trivia_empty(ts@, p1 as int);
        if p1 < ts.len() {
            lemma_trivia_one(ts@, p1 as int);
        }
    }
    let (init, p2) = parse_for_init(ts, p1, diags);
    if at(ts, p2, TokenKind::In) {
        let left = match init {
            Some(i) => i,
            None => {
                diags.push(unexpected(ts, p2, Expected::Expression));
                ForStmtInit::Expr(Expr::Missing(span_between(ts, p2, p2)))
            },
        };
        proof {
            if init is Some {
                assert(left.trivia() == opt_init_trivia(init));
            }
        }
        let (st, e) = parse_for_in_rest(ts, pos, open_ws, p1, left, p2, diags);
        proof {
            if diags@.len() == old(diags)@.len() {
                lemma_trivia_one(ts@, (pos) as int);
                lemma_trivia_one(ts@, (pos + 1) as int);
                lemma_trivia_split(ts@, (pos) as int, (pos + 1) as int, (e) as int);
                lemma_trivia_split(ts@, (pos + 1) as int, (p1) as int, (e) as int);
                lemma_trivia_split(ts@, (p1) as int, (p2) as int, (e) as int);
                assert(trivia_of(st) =~= tokens_trivia(ts@, (pos) as int, (e) as int));
            }
        }
        proof {
            lemma_shape_for(ts@, pos as int, st, e as int, old(diags)@, diags@);
        }
        (st, e)
    } else {
        let (st, e) = parse_for_rest(ts, pos, open_ws, p1, init, p2, diags);
        proof {
            if diags@.len() == old(diags)@.len() {
                lemma_trivia_one(ts@, (pos) as int);
                lemma_trivia_one(ts@, (pos + 1) as int);
                lemma_trivia_split(ts@, (pos) as int, (pos + 1) as int, (e) as int);
                lemma_trivia_split(ts@, (pos + 1) as int, (p1) as int, (e) as int);
                lemma_trivia_split(ts@, (p1) as int, (p2) as int, (e) as int);
                assert(trivia_of(st) =~= tokens_trivia(ts@, (pos) as int, (e) as int));
            }
        }
        proof {
            lemma_shape_for(ts@, pos as int, st, e as int, old(diags)@, diags@);
        }
        (st, e)
    }
}

/// The optional initializer of a `for` head at `p1`: declarations, a
/// single operand, or nothing.
#[verifier::spinoff_prover]
#[verifier::rlimit(100)]
fn parse_for_init(ts: &Vec<Token>, p1: usize, diags: &mut Vec<Diagnostic>) -> (r: (Option<ForStmtInit>, usize))
    requires
        tokens_wf(ts@),
        0 < p1 <= ts.len(),
    ensures
        p1 <= r.1 <= ts.len(),
        r.0.is_some() <==> r.1 > p1,
        r.0 matches Some(i) ==> i.spec_span() == span_from(ts@, p1 as int, r.1 as int) && i.nested(),
        extends(final(diags)@, old(diags)@),
        final(diags)@.len() <= old(diags)@.len() + 3 * (r.1 - p1),
        final(diags)@.len() == old(diags)@.len() ==> opt_init_trivia(r.0) == tokens_trivia(ts@, p1 as int, r.1 as int),
        ({
            let want = if at_kind(ts@, p1 as int, TokenKind::Var) {
                var_end(ts@, p1 as int, false)
            } else if is_operand_at(ts@, p1 as int) {
                Some(p1 + 1)
            } else {
                Some(p1 as int)
            };
            want is Some ==> want == Some(r.1 as int) && final(diags)@ == old(diags)@
        }),
{
    proof {
        lemma_trivia_empty(ts@, p1 as int);
        if p1 < ts.len() {
            lemma_trivia_one(ts@, p1 as int);
        }
    }
    if at(ts, p1, TokenKind::Var) {
        let (v, q) = parse_var(ts, p1, diags, false);
        (Some(ForStmtInit::Var(v)), q)
    } else if p1 < ts.len() && is_operand_kind(ts[p1].kind) {
        (Some(ForStmtInit::Expr(operand_at(ts, p1))), p1 + 1)
    } else {
        (None, p1)
    }
}

/// What follows `for ( left` at `p2`, which holds `in`.
#[verifier::spinoff_prover]
#[verifier::rlimit(100)]
fn parse_for_in_rest(
    ts: &Vec<Token>,
    pos: usize,
    open_ws: LiteralWhitespace,
    p1: usize,
    left: ForStmtInit,
    p2: usize,
    diags: &mut Vec<Diagnostic>,
) -> (r: (Stmt, usize))
    requires
        tokens_wf(ts@),
        pos < p1 <= p2 < ts.len(),
        ts@[p2 as int].kind == TokenKind::In,
        left.spec_span() == span_from(ts@, p1 as int, p2 as int),
        left.nested(),
    ensures
        p2 < r.1 <= ts.len(),
        r.0.spec_span() == span_from(ts@, pos as int, r.1 as int),
        well_nested(r.0),
        extends(final(diags)@, old(diags)@),
        final(diags)@.len() <= old(diags)@.len() + 3 + 5 * (r.1 - p2 - 1),
        r.0 is ForIn,
        final(diags)@.len() == old(diags)@.len() ==> trivia_of(r.0) == seq![ts@[pos as int].whitespace, open_ws] + left.trivia() + tokens_trivia(ts@, p2 as int, r.1 as int),
        for_rest_end(ts@, p2 as int, true) is Some ==> for_rest_end(ts@, p2 as int, true) == Some(r.1 as int) && final(diags)@ == old(diags)@,
    decreases ts.len() - p2, 0nat,
{
    let kw_ws = ts[pos].whitespace;
    let in_ws = ts[p2].whitespace;
    let (right, p3) = parse_expr(ts, p2 + 1, diags);
    let (close_ws, p4) = expect(ts, p3, TokenKind::RParen, diags);
    let (body, p5) = parse_body(ts, p4, diags);
    proof {
        lemma_children(ts@, seq![Some(left.spec_span()), Some(right.spec_span()), Some(body.spec_span())], seq![(p1 as int, p2 as int), (p2 + 1, p3 as int), (p4 as int, p5 as int)], pos as int, p5 as int);
    }
    let st = ForInStmt {
        span: span_between(ts, pos, p5),
        for_whitespace: kw_ws,
        open_paren_whitespace: open_ws,
        close_paren_whitespace: close_ws,
        left,
        right,
        in_whitespace: in_ws,
        body: Box::new(body),
    };
    proof {
        if diags@.len() == old(diags)@.len() {
            lemma_trivia_one(ts@, (p2) as int);
            lemma_trivia_one(ts@, (p3) as int);
            lemma_trivia_split(ts@, (p2) as int, (p2 + 1) as int, (p5) as int);
            lemma_trivia_split(ts@, (p2 + 1) as int, (p3) as int, (p5) as int);
            lemma_trivia_split(ts@, (p3) as int, (p4) as int, (p5) as int);
            assert(trivia_of(Stmt::ForIn(st)) =~= seq![ts@[pos as int].whitespace, open_ws] + left.trivia() + tokens_trivia(ts@, p2 as int, p5 as int));
        }
    }
    (Stmt::ForIn(st), p5)
}

/// An optional single-token expression at `pos`.
fn optional_operand(ts: &Vec<Token>, pos: usize) -> (r: (Option<Expr>, usize))
    requires
        pos <= ts.len(),
    ensures
        pos <= r.1 <= pos + 1,
        r.1 <= ts.len(),
        r.0 is Some <==> r.1 == pos + 1,
        r.0 is Some <==> is_operand_at(ts@, pos as int),
        r.0 matches Some(e) ==> e.spec_span() == span_from(ts@, pos as int, r.1 as int),
        opt_expr_trivia(r.0) == tokens_trivia(ts@, pos as int, r.1 as int),
{
    proof {
        lemma_trivia_empty(ts@, pos as int);
        if pos < ts.len() {
            lemma_trivia_one(ts@, pos as int);
        }
    }
    if pos < ts.len() && is_operand_kind(ts[pos].kind) {
        (Some(operand_at(ts, pos)), pos + 1)
    } else {
        (None, pos)
    }
}

/// What follows `for ( [init]` at `p2`: the two `;`-separated clauses, `)`
/// and the body.
#[verifier::spinoff_prover]
#[verifier::rlimit(100)]
fn parse_for_rest(
    ts: &Vec<Token>,
    pos: usize,
    open_ws: LiteralWhitespace,
    p1: usize,
    init: Option<ForStmtInit>,
    p2: usize,
    diags: &mut Vec<Diagnostic>,
) -> (r: (Stmt, usize))
    requires
        tokens_wf(ts@),
        pos < p1 <= p2 <= ts.len(),
        init matches Some(i) ==> i.spec_span() == span_from(ts@, p1 as int, p2 as int) && i.nested(),
        init is None ==> p1 == p2,
        !at_kind(ts@, p2 as int, TokenKind::In),
    ensures
        p2 <= r.1 <= ts.len(),
        r.0.spec_span() == span_from(ts@, pos as int, r.1 as int),
        well_nested(r.0),
        extends(final(diags)@, old(diags)@),
        final(diags)@.len() <= old(diags)@.len() + 4 + 5 * (r.1 - p2),
        r.0 is For,
        final(diags)@.len() == old(diags)@.len() ==> trivia_of(r.0) == seq![ts@[pos as int].whitespace, open_ws] + opt_init_trivia(init) + tokens_trivia(ts@, p2 as int, r.1 as int),
        for_rest_end(ts@, p2 as int, init is Some) is Some ==> for_rest_end(ts@, p2 as int, init is Some) == Some(r.1 as int) && final(diags)@ == old(diags)@,
    decreases ts.len() - p1, 3nat,
{
    let kw_ws = ts[pos].whitespace;
    let (init_semi_ws, p3) = expect(ts, p2, TokenKind::Semicolon, diags);
    let (test, p4) = optional_operand(ts, p3);
    let (test_semi_ws, p5) = expect(ts, p4, TokenKind::Semicolon, diags);
    let (update, p6) = optional_operand(ts, p5);
    let (close_ws, p7) = expect(ts, p6, TokenKind::RParen, diags);
    proof {
        if for_rest_end(ts@, p2 as int, init is Some) is Some {
            assert(p3 == p2 + 1);
            assert(p5 == p4 + 1 && p7 == p6 + 1);
            assert(for_rest_end(ts@, p2 as int, init is Some) == stmt_end(ts@, p7 as int));
        }
    }
    let (body, p8) = parse_body(ts, p7, diags);
    proof {
        lemma_children(ts@, seq![opt_init_span(init), opt_expr_span(test), opt_expr_span(update), Some(body.spec_span())], seq![(p1 as int, p2 as int), (p3 as int, p4 as int), (p5 as int, p6 as int), (p7 as int, p8 as int)], pos as int, p8 as int);
    }
    let st = ForStmt {
        span: span_between(ts, pos, p8),
        for_whitespace: kw_ws,
        open_paren_whitespace: open_ws,
        close_paren_whitespace: close_ws,
        init,
        test,
        update,
        body: Box::new(body),
        init_semicolon_whitespace: init_semi_ws,
        test_semicolon_whitespace: test_semi_ws,
    };
    proof {
        if diags@.len() == old(diags)@.len() {
            lemma_for_trivia(ts@, st, pos as int, open_ws, init, p2 as int, p3 as int, p4 as int, p5 as int, p6 as int, p7 as int, p8 as int);
        }
    }
    (Stmt::For(st), p8)
}

/// `s` is a statement read, without any report, from one of the tokens of
/// `ts`: it starts at that token's text and meets `shape_ok` there.
pub open spec fn shaped_at(ts: Seq<Token>, s: Stmt) -> bool {
    exists|p: int, e: int|
        0 <= p < ts.len() && s.spec_span().start == text_start(ts, p) && #[trigger] shape_ok(
            ts,
            p,
            s,
            e,
            Seq::<Diagnostic>::empty(),
            Seq::<Diagnostic>::empty(),
        )
}

/// Parses a whole token stream into its statements, with the diagnostics of
/// every recoverable error in source order. It always terminates, on any
/// input; the statements follow one another over the input, each well
/// nested, and there are at most five diagnostics per token. Where no
/// diagnostic is reported, the tree is lossless: its tokens' trivia, in
/// order, are exactly those of the input tokens. A well-formed program gets
/// no diagnostic.
#[verifier::spinoff_prover]
#[verifier::rlimit(100)]
pub fn parse_program(ts: &Vec<Token>) -> (r: (Vec<Stmt>, Vec<Diagnostic>))
    requires
        tokens_wf(ts@),
    ensures
        ts@.len() == 0 ==> r.0@.len() == 0 && r.1@.len() == 0,
        ts@.len() > 0 ==> r.0@.len() > 0 && ordered_inside(stmt_spans(r.0@), span_from(ts@, 0, ts@.len() as int)),
        r.0@.len() <= ts@.len(),
        r.1@.len() <= 5 * ts@.len(),
        forall|k: int| 0 <= k < r.0@.len() ==> well_nested(#[trigger] r.0@[k]),
        r.1@.len() == 0 ==> stmts_trivia(r.0@) == tokens_trivia(ts@, 0, ts@.len() as int),
        program_ok(ts@, 0) ==> r.1@.len() == 0,
        r.1@.len() == 0 ==> forall|k: int| 0 <= k < r.0@.len() ==> shaped_at(ts@, #[trigger] r.0@[k]),
{
    let mut diags: Vec<Diagnostic> = Vec::new();
    let mut stmts: Vec<Stmt> = Vec::new();
    if ts.len() == 0 {
        proof {
            assert(stmts_trivia_parts(stmts@) =~= Seq::<Seq<LiteralWhitespace>>::empty());
            lemma_trivia_empty(ts@, 0);
        }
        return (stmts, diags);
    }
    let (first, mut p) = parse_stmt(ts, 0, &mut diags);
    proof {
        if diags@.len() == 0 {
            assert(diags@ =~= Seq::<Diagnostic>::empty());
            assert(shape_ok(ts@, 0, first, p as int, Seq::<Diagnostic>::empty(), Seq::<Diagnostic>::empty()));
            assert(shaped_at(ts@, first));
        }
        assert(stmts_trivia_parts(stmts@) =~= Seq::<Seq<LiteralWhitespace>>::empty());
        lemma_stmts_trivia_push(stmts@, first);
        assert(stmts@.push(first) =~= seq![first]);
    }
    stmts.push(first);
    proof {
        lemma_span_wf(ts@, 0, p as int);
        assert(stmt_spans(stmts@) =~= seq![span_from(ts@, 0, p as int)]);
    }
    while p < ts.len()
        invariant
            tokens_wf(ts@),
            0 < p <= ts.len(),
            0 < stmts@.len() <= p,
            diags@.len() <= 5 * p,
            forall|k: int| 0 <= k < stmts@.len() ==> well_nested(#[trigger] stmts@[k]),
            ordered_inside(stmt_spans(stmts@), span_from(ts@, 0, p as int)),
            stmts@.last().spec_span().end == text_end(ts@, p - 1),
            diags@.len() == 0 ==> stmts_trivia(stmts@) == tokens_trivia(ts@, 0, p as int),
            program_ok(ts@, 0) ==> program_ok(ts@, p as int) && diags@.len() == 0,
            diags@.len() == 0 ==> forall|k: int| 0 <= k < stmts@.len() ==> shaped_at(ts@, #[trigger] stmts@[k]),
        decreases ts.len() - p,
    {
        let ghost d0 = diags@;
        let (st, q) = parse_stmt(ts, p, &mut diags);
        let ghost before = stmts@;
        let ghost st_g = st;
        proof {
            if diags@.len() == 0 {
                assert(diags@ =~= Seq::<Diagnostic>::empty());
                assert(d0 =~= Seq::<Diagnostic>::empty());
                assert(shape_ok(ts@, p as int, st_g, q as int, Seq::<Diagnostic>::empty(), Seq::<Diagnostic>::empty()));
                assert(shaped_at(ts@, st_g));
            }
        }
        stmts.push(st);
        proof {
            lemma_span_within(ts@, p as int, q as int, 0, q as int);
            lemma_text_monotone(ts@, p - 1, q - 1);
            lemma_text_monotone(ts@, p - 1, p as int);
            assert(stmt_spans(stmts@) =~= stmt_spans(before).push(span_from(ts@, p as int, q as int)));
            assert forall|k: int| 0 <= k < stmts@.len() implies well_nested(#[trigger] stmts@[k]) by {
                if k < before.len() {
                    assert(stmts@[k] == before[k]);
                }
            }
            assert(stmt_spans(before)[before.len() - 1] == before.last().spec_span());
            lemma_stmts_trivia_push(before, st_g);
            assert(before.push(st_g) =~= stmts@);
            lemma_trivia_split(ts@, 0, p as int, q as int);
            if diags@.len() == 0 {
                assert forall|k: int| 0 <= k < stmts@.len() implies shaped_at(ts@, #[trigger] stmts@[k]) by {
                    if k < before.len() {
                        assert(stmts@[k] == before[k]);
                    }
                }
            }
        }
        p = q;
    }
    (stmts, diags)
}

} // verus!
