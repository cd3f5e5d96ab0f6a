//! Expressions and statements, and how an expression is read.
use vstd::prelude::*;

use crate::lexer::{lex, lex_line, tok_views, Tok, TokView};
use crate::text::{chars_of, texts};

verus! {

// ---- Syntax trees ----

/// An expression of the Python subset.
#[derive(Debug)]
pub enum Expr {
    Name(String),
    Lit,
    Call { name: String, args: Vec<Expr> },
    /// A call of a method of what another expression gives: `receiver.name(args)`. The name
    /// begins with its dot.
    Method { receiver: Box<Expr>, name: String, args: Vec<Expr> },
    Concat(Vec<Expr>),
}

/// A statement, with the number of its line, counted from one.
#[derive(Debug)]
pub enum Stmt {
    Assign { name: String, value: Expr, line: usize },
    Eval { value: Expr, line: usize },
}

/// An expression as a mathematical value.
#[verifier::ext_equal]
pub enum ExprView {
    Name(Seq<char>),
    Lit,
    Call { name: Seq<char>, args: Seq<ExprView> },
    Method { receiver: Box<ExprView>, name: Seq<char>, args: Seq<ExprView> },
    Concat(Seq<ExprView>),
}

/// A statement as a mathematical value.
#[verifier::ext_equal]
pub enum StmtView {
    Assign { name: Seq<char>, value: ExprView, line: nat },
    Eval { value: ExprView, line: nat },
}

impl View for Expr {
    type V = ExprView;

    open spec fn view(&self) -> ExprView
        decreases self,
    {
        match self {
            Expr::Name(n) => ExprView::Name(n@),
            Expr::Lit => ExprView::Lit,
            Expr::Call { name, args } => ExprView::Call {
                name: name@,
                args: expr_views(args@),
            },
            Expr::Method { receiver, name, args } => ExprView::Method {
                receiver: Box::new((**receiver).view()),
                name: name@,
                args: expr_views(args@),
            },
            Expr::Concat(parts) => ExprView::Concat(expr_views(parts@)),
        }
    }
}

/// The expressions that a vector holds.
pub open spec fn expr_views(v: Seq<Expr>) -> Seq<ExprView>
    decreases v,
{
    Seq::new(
        v.len(),
        |i: int|
            if 0 <= i < v.len() {
                v[i].view()
            } else {
                ExprView::Lit
            },
    )
}

/// What `expr_views` holds at each position.
pub proof fn lemma_expr_views(v: Seq<Expr>)
    ensures
        expr_views(v).len() == v.len(),
        forall|i: int| 0 <= i < v.len() ==> #[trigger] expr_views(v)[i] == v[i]@,
{
}

proof fn lemma_expr_views_push(v: Seq<Expr>, e: Expr)
    ensures
        expr_views(v.push(e)) == expr_views(v).push(e@),
{
    assert(expr_views(v.push(e)) =~= expr_views(v).push(e@));
}

impl View for Stmt {
    type V = StmtView;

    open spec fn view(&self) -> StmtView {
        match self {
            Stmt::Assign { name, value, line } => StmtView::Assign {
                name: name@,
                value: value@,
                line: *line as nat,
            },
            Stmt::Eval { value, line } => StmtView::Eval { value: value@, line: *line as nat },
        }
    }
}

impl StmtView {
    /// The expression that the statement evaluates.
    pub open spec fn expr(self) -> ExprView {
        match self {
            StmtView::Assign { name, value, line } => value,
            StmtView::Eval { value, line } => value,
        }
    }

    /// The line that the statement stands on.
    pub open spec fn at_line(self) -> nat {
        match self {
            StmtView::Assign { name, value, line } => line,
            StmtView::Eval { value, line } => line,
        }
    }
}

/// The statements that a slice holds.
pub open spec fn stmt_views(v: Seq<Stmt>) -> Seq<StmtView> {
    v.map_values(|s: Stmt| s@)
}

// ---- Nesting ----

/// How deep parentheses nest in an expression that stands as a term of a sum: those of
/// calls, and those around a sum.
pub open spec fn term_nesting(e: ExprView) -> nat
    decreases e, 0nat,
{
    match e {
        ExprView::Name(n) => 0,
        ExprView::Lit => 0,
        ExprView::Call { name, args } => 1 + exprs_nesting(args),
        ExprView::Method { receiver, name, args } => {
            let before = expr_nesting(*receiver);
            let inner = exprs_nesting(args);
            1 + if before > inner {
                before
            } else {
                inner
            }
        },
        ExprView::Concat(parts) => 1 + terms_nesting(parts),
    }
}

/// How deep parentheses nest in an expression on its own, where a sum needs none.
pub open spec fn expr_nesting(e: ExprView) -> nat
    decreases e, 1nat,
{
    match e {
        ExprView::Concat(parts) => terms_nesting(parts),
        _ => term_nesting(e),
    }
}

/// The deepest nesting among the terms of a sum.
pub open spec fn terms_nesting(es: Seq<ExprView>) -> nat
    decreases es, 2nat,
{
    if es.len() == 0 {
        0
    } else {
        let first = term_nesting(es[0]);
        let rest = terms_nesting(es.subrange(1, es.len() as int));
        if first > rest {
            first
        } else {
            rest
        }
    }
}

/// The deepest nesting among expressions that stand on their own.
pub open spec fn exprs_nesting(es: Seq<ExprView>) -> nat
    decreases es, 2nat,
{
    if es.len() == 0 {
        0
    } else {
        let first = expr_nesting(es[0]);
        let rest = exprs_nesting(es.subrange(1, es.len() as int));
        if first > rest {
            first
        } else {
            rest
        }
    }
}

/// A bound on the nesting of several expressions is one on that of each.
pub proof fn lemma_exprs_nesting(es: Seq<ExprView>, d: nat)
    ensures
        exprs_nesting(es) <= d <==> forall|i: int|
            0 <= i < es.len() ==> expr_nesting(#[trigger] es[i]) <= d,
    decreases es.len(),
{
    if es.len() > 0 {
        let rest = es.subrange(1, es.len() as int);
        lemma_exprs_nesting(rest, d);
        if exprs_nesting(es) <= d {
            assert forall|i: int| 0 <= i < es.len() implies expr_nesting(#[trigger] es[i]) <= d by {
                if i > 0 {
                    assert(rest[i - 1] == es[i]);
                }
            }
        }
        if forall|i: int| 0 <= i < es.len() ==> expr_nesting(#[trigger] es[i]) <= d {
            assert(expr_nesting(es[0]) <= d);
            assert forall|i: int| 0 <= i < rest.len() implies expr_nesting(#[trigger] rest[i])
                <= d by {
                assert(rest[i] == es[i + 1]);
            }
        }
    }
}

/// A bound on the nesting of several terms is one on that of each.
pub proof fn lemma_terms_nesting(es: Seq<ExprView>, d: nat)
    ensures
        terms_nesting(es) <= d <==> forall|i: int|
            0 <= i < es.len() ==> term_nesting(#[trigger] es[i]) <= d,
    decreases es.len(),
{
    if es.len() > 0 {
        let rest = es.subrange(1, es.len() as int);
        lemma_terms_nesting(rest, d);
        if terms_nesting(es) <= d {
            assert forall|i: int| 0 <= i < es.len() implies term_nesting(#[trigger] es[i]) <= d by {
                if i > 0 {
                    assert(rest[i - 1] == es[i]);
                }
            }
        }
        if forall|i: int| 0 <= i < es.len() ==> term_nesting(#[trigger] es[i]) <= d {
            assert(term_nesting(es[0]) <= d);
            assert forall|i: int| 0 <= i < rest.len() implies term_nesting(#[trigger] rest[i])
                <= d by {
                assert(rest[i] == es[i + 1]);
            }
        }
    }
}

// ---- The grammar ----
//
//     expr    = primary ('+' primary)*
//     primary = NAME | NAME '(' args ')' link* | '(' expr ')' link* | F-STRING | other token
//     link    = '.' NAME '(' args ')'
//     args    = nothing | expr (',' expr)*
//
// Reading never fails: a closing parenthesis may be missing, and where no token is left a
// primary is a literal. Each function takes the number of parentheses that may still be
// opened; where that is used up, what would open one is a literal.

/// How many parentheses may be open at once in a statement.
pub const MAX_NESTING: usize = 100;

/// Whether token `t` stands at position `pos`.
pub open spec fn stands_at(ts: Seq<TokView>, pos: nat, t: TokView) -> bool {
    pos < ts.len() && ts[pos as int] == t
}

/// Whether a call of a method of what stands before `pos` is written there: a name that
/// begins with a dot, and an opening parenthesis.
pub open spec fn link_at(ts: Seq<TokView>, pos: nat) -> bool {
    &&& pos < ts.len()
    &&& ts[pos as int] matches TokView::Name(name) && name.len() > 0 && name[0] == '.'
    &&& stands_at(ts, pos + 1, TokView::LParen)
}

/// The primary at `pos`, and the position after it.
pub open spec fn primary_at(ts: Seq<TokView>, pos: nat, depth: nat) -> (ExprView, nat)
    decreases depth, ts.len() - pos, 0nat,
{
    if pos >= ts.len() {
        (ExprView::Lit, pos)
    } else {
        match ts[pos as int] {
            TokView::Name(name) => if !stands_at(ts, pos + 1, TokView::LParen) {
                (ExprView::Name(name), pos + 1)
            } else if depth == 0 {
                (ExprView::Lit, pos + 1)
            } else {
                let (args, p) = call_args_at(ts, pos + 2, (depth - 1) as nat);
                let call = ExprView::Call { name, args };
                if pos <= p && stands_at(ts, p, TokView::RParen) {
                    links_at(ts, p + 1, call, depth)
                } else {
                    (call, p)
                }
            },
            TokView::LParen => if depth == 0 {
                (ExprView::Lit, pos + 1)
            } else {
                let (e, p) = expr_at(ts, pos + 1, (depth - 1) as nat);
                if pos <= p && stands_at(ts, p, TokView::RParen) {
                    links_at(ts, p + 1, e, depth)
                } else {
                    (e, p)
                }
            },
            TokView::Format(parts) => (format_expr(parts, depth), pos + 1),
            _ => (ExprView::Lit, pos + 1),
        }
    }
}

/// The concatenation that an f-string stands for: a literal, and the expressions between
/// its braces. It counts for two parentheses.
pub open spec fn format_expr(parts: Seq<Seq<char>>, depth: nat) -> ExprView
    decreases depth, 0int, 0nat,
{
    if depth < 2 {
        ExprView::Lit
    } else {
        ExprView::Concat(
            seq![ExprView::Lit] + Seq::new(
                parts.len(),
                |i: int| expr_at(lex(parts[i]), 0, (depth - 2) as nat).0,
            ),
        )
    }
}

/// What stands before `pos`, with the method calls that are chained to it there, and the
/// position after them.
pub open spec fn links_at(ts: Seq<TokView>, pos: nat, receiver: ExprView, depth: nat) -> (
    ExprView,
    nat,
)
    decreases depth, ts.len() - pos, 4nat,
{
    if depth > 0 && expr_nesting(receiver) < depth && link_at(ts, pos) {
        let (args, p) = call_args_at(ts, pos + 2, (depth - 1) as nat);
        let call = ExprView::Method {
            receiver: Box::new(receiver),
            name: ts[pos as int]->Name_0,
            args,
        };
        if pos <= p && stands_at(ts, p, TokView::RParen) {
            links_at(ts, p + 1, call, depth)
        } else {
            (call, p)
        }
    } else {
        (receiver, pos)
    }
}

/// The primaries of the sum at `pos`, and the position after it.
pub open spec fn terms_at(ts: Seq<TokView>, pos: nat, depth: nat) -> (Seq<ExprView>, nat)
    decreases depth, ts.len() - pos, 1nat,
{
    let (e, p) = primary_at(ts, pos, depth);
    if pos <= p && stands_at(ts, p, TokView::Plus) {
        let (rest, q) = terms_at(ts, p + 1, depth);
        (seq![e] + rest, q)
    } else {
        (seq![e], p)
    }
}

/// The expression at `pos`, and the position after it: a sum of one term is that term.
pub open spec fn expr_at(ts: Seq<TokView>, pos: nat, depth: nat) -> (ExprView, nat)
    decreases depth, ts.len() - pos, 2nat,
{
    let (terms, p) = terms_at(ts, pos, depth);
    (
        if terms.len() == 1 {
            terms[0]
        } else {
            ExprView::Concat(terms)
        },
        p,
    )
}

/// The expressions that start at `pos`, separated by commas, and the position after them.
pub open spec fn args_at(ts: Seq<TokView>, pos: nat, depth: nat) -> (Seq<ExprView>, nat)
    decreases depth, ts.len() - pos, 3nat,
{
    let (e, p) = expr_at(ts, pos, depth);
    if pos <= p && stands_at(ts, p, TokView::Comma) {
        let (rest, q) = args_at(ts, p + 1, depth);
        (seq![e] + rest, q)
    } else {
        (seq![e], p)
    }
}

/// The arguments of a call whose opening parenthesis stands before `pos`, and the position
/// after them.
pub open spec fn call_args_at(ts: Seq<TokView>, pos: nat, depth: nat) -> (Seq<ExprView>, nat)
    decreases depth, ts.len() - pos, 4nat,
{
    if pos >= ts.len() || stands_at(ts, pos, TokView::RParen) {
        (Seq::empty(), pos)
    } else {
        args_at(ts, pos, depth)
    }
}

// ---- The bound on nesting ----

proof fn lemma_nesting_of_position(e: ExprView)
    ensures
        expr_nesting(e) <= term_nesting(e) <= expr_nesting(e) + 1,
{
}

proof fn lemma_primary_nesting(ts: Seq<TokView>, pos: nat, depth: nat)
    ensures
        term_nesting(primary_at(ts, pos, depth).0) <= depth,
    decreases depth, ts.len() - pos, 0nat,
{
    if pos < ts.len() {
        match ts[pos as int] {
            TokView::Name(name) => {
                if stands_at(ts, pos + 1, TokView::LParen) && depth > 0 {
                    let (args, p) = call_args_at(ts, pos + 2, (depth - 1) as nat);
                    lemma_call_args_nesting(ts, pos + 2, (depth - 1) as nat);
                    let call = ExprView::Call { name, args };
                    if pos <= p && stands_at(ts, p, TokView::RParen) {
                        lemma_links_nesting(ts, p + 1, call, depth);
                    }
                }
            },
            TokView::LParen => {
                if depth > 0 {
                    let (e, p) = expr_at(ts, pos + 1, (depth - 1) as nat);
                    law_nesting_is_bounded(ts, pos + 1, (depth - 1) as nat);
                    lemma_nesting_of_position(e);
                    if pos <= p && stands_at(ts, p, TokView::RParen) {
                        lemma_links_nesting(ts, p + 1, e, depth);
                    }
                }
            },
            TokView::Format(parts) => {
                lemma_format_nesting(parts, depth);
            },
            _ => {},
        }
    }
}

proof fn lemma_format_nesting(parts: Seq<Seq<char>>, depth: nat)
    ensures
        term_nesting(format_expr(parts, depth)) <= depth,
    decreases depth, 0int, 0nat,
{
    if depth >= 2 {
        let d = (depth - 2) as nat;
        let es = format_expr(parts, depth)->Concat_0;
        assert forall|i: int| 0 <= i < es.len() implies term_nesting(#[trigger] es[i]) <= d
            + 1 by {
            if i > 0 {
                law_nesting_is_bounded(lex(parts[i - 1]), 0, d);
                assert(es[i] == expr_at(lex(parts[i - 1]), 0, d).0);
                lemma_nesting_of_position(es[i]);
            }
        }
        lemma_terms_nesting(es, d + 1);
    }
}

proof fn lemma_links_nesting(ts: Seq<TokView>, pos: nat, receiver: ExprView, depth: nat)
    requires
        term_nesting(receiver) <= depth,
    ensures
        term_nesting(links_at(ts, pos, receiver, depth).0) <= depth,
    decreases depth, ts.len() - pos, 4nat,
{
    if depth > 0 && expr_nesting(receiver) < depth && link_at(ts, pos) {
        let d = (depth - 1) as nat;
        let (args, p) = call_args_at(ts, pos + 2, d);
        lemma_call_args_nesting(ts, pos + 2, d);
        let call = ExprView::Method {
            receiver: Box::new(receiver),
            name: ts[pos as int]->Name_0,
            args,
        };
        if pos <= p && stands_at(ts, p, TokView::RParen) {
            lemma_links_nesting(ts, p + 1, call, depth);
        }
    }
}

proof fn lemma_sum_nesting(ts: Seq<TokView>, pos: nat, depth: nat)
    ensures
        terms_nesting(terms_at(ts, pos, depth).0) <= depth,
        terms_at(ts, pos, depth).0.len() >= 1,
    decreases depth, ts.len() - pos, 1nat,
{
    lemma_primary_nesting(ts, pos, depth);
    let (e, p) = primary_at(ts, pos, depth);
    if pos <= p && stands_at(ts, p, TokView::Plus) {
        lemma_sum_nesting(ts, p + 1, depth);
        let rest = terms_at(ts, p + 1, depth).0;
        lemma_terms_nesting(rest, depth);
    }
    lemma_terms_nesting(terms_at(ts, pos, depth).0, depth);
}

/// Hostile input is cut short: however many parentheses it opens, no more than `depth` of
/// them nest in the expression that is read.
pub proof fn law_nesting_is_bounded(ts: Seq<TokView>, pos: nat, depth: nat)
    ensures
        expr_nesting(expr_at(ts, pos, depth).0) <= depth,
    decreases depth, ts.len() - pos, 2nat,
{
    lemma_sum_nesting(ts, pos, depth);
    let terms = terms_at(ts, pos, depth).0;
    if terms.len() == 1 {
        lemma_terms_nesting(terms, depth);
        assert(term_nesting(terms[0]) <= depth);
        lemma_nesting_of_position(terms[0]);
    }
}

proof fn lemma_args_nesting(ts: Seq<TokView>, pos: nat, depth: nat)
    ensures
        exprs_nesting(args_at(ts, pos, depth).0) <= depth,
    decreases depth, ts.len() - pos, 3nat,
{
    law_nesting_is_bounded(ts, pos, depth);
    let (e, p) = expr_at(ts, pos, depth);
    if pos <= p && stands_at(ts, p, TokView::Comma) {
        lemma_args_nesting(ts, p + 1, depth);
        let rest = args_at(ts, p + 1, depth).0;
        lemma_exprs_nesting(rest, depth);
    }
    lemma_exprs_nesting(args_at(ts, pos, depth).0, depth);
}

proof fn lemma_call_args_nesting(ts: Seq<TokView>, pos: nat, depth: nat)
    ensures
        exprs_nesting(call_args_at(ts, pos, depth).0) <= depth,
    decreases depth, ts.len() - pos, 4nat,
{
    if !(pos >= ts.len() || stands_at(ts, pos, TokView::RParen)) {
        lemma_args_nesting(ts, pos, depth);
    }
}

/// The terms after the one that ended at `p`.
spec fn more_terms(ts: Seq<TokView>, p: nat, depth: nat) -> (Seq<ExprView>, nat) {
    if stands_at(ts, p, TokView::Plus) {
        terms_at(ts, p + 1, depth)
    } else {
        (Seq::empty(), p)
    }
}

/// The arguments after the one that ended at `p`.
spec fn more_args(ts: Seq<TokView>, p: nat, depth: nat) -> (Seq<ExprView>, nat) {
    if stands_at(ts, p, TokView::Comma) {
        args_at(ts, p + 1, depth)
    } else {
        (Seq::empty(), p)
    }
}

// ---- The parser ----

/// Whether at most `d` parentheses nest in `e` on its own.
fn expr_within(e: &Expr, d: usize) -> (r: bool)
    ensures
        r == (expr_nesting(e@) <= d),
    decreases e, 1nat,
{
    match e {
        Expr::Concat(parts) => terms_within(parts, d),
        _ => term_within(e, d),
    }
}

/// Whether at most `d` parentheses nest in `e` as a term of a sum.
fn term_within(e: &Expr, d: usize) -> (r: bool)
    ensures
        r == (term_nesting(e@) <= d),
    decreases e, 0nat,
{
    match e {
        Expr::Name(_) => true,
        Expr::Lit => true,
        Expr::Call { name: _, args } => d > 0 && exprs_within(args, d - 1),
        Expr::Method { receiver, name: _, args } => d > 0 && expr_within(receiver, d - 1)
            && exprs_within(args, d - 1),
        Expr::Concat(parts) => d > 0 && terms_within(parts, d - 1),
    }
}

fn exprs_within(es: &Vec<Expr>, d: usize) -> (r: bool)
    ensures
        r == (exprs_nesting(expr_views(es@)) <= d),
    decreases es, 2nat,
{
    let ghost views = expr_views(es@);
    proof {
        lemma_expr_views(es@);
        lemma_exprs_nesting(views, d as nat);
    }
    let mut i: usize = 0;
    while i < es.len()
        invariant
            i <= es@.len() == views.len(),
            views == expr_views(es@),
            forall|k: int| 0 <= k < i ==> expr_nesting(#[trigger] views[k]) <= d,
        decreases es@.len() - i,
    {
        assert(views[i as int] == es@[i as int]@);
        if !expr_within(&es[i], d) {
            proof {
                lemma_exprs_nesting(views, d as nat);
            }
            return false;
        }
        i += 1;
    }
    true
}

fn terms_within(es: &Vec<Expr>, d: usize) -> (r: bool)
    ensures
        r == (terms_nesting(expr_views(es@)) <= d),
    decreases es, 2nat,
{
    let ghost views = expr_views(es@);
    proof {
        lemma_expr_views(es@);
        lemma_terms_nesting(views, d as nat);
    }
    let mut i: usize = 0;
    while i < es.len()
        invariant
            i <= es@.len() == views.len(),
            views == expr_views(es@),
            forall|k: int| 0 <= k < i ==> term_nesting(#[trigger] views[k]) <= d,
        decreases es@.len() - i,
    {
        assert(views[i as int] == es@[i as int]@);
        if !term_within(&es[i], d) {
            proof {
                lemma_terms_nesting(views, d as nat);
            }
            return false;
        }
        i += 1;
    }
    true
}

/// A position in a list of tokens.
pub struct P {
    pub toks: Vec<Tok>,
    pub pos: usize,
    /// How many parentheses may still be opened.
    pub depth: usize,
}

impl P {
    /// The token at the position.
    pub fn peek(&self) -> (r: Option<&Tok>)
        ensures
            self.pos < self.toks@.len() ==> r == Some(&self.toks@[self.pos as int]),
            self.pos >= self.toks@.len() ==> r is None,
    {
        self.toks.get(self.pos)
    }

    /// Whether the token at the position is `(`, `)`, `,` or `+`, as `t` says.
    fn sees(&self, t: &Tok) -> (r: bool)
        requires
            t@ is LParen || t@ is RParen || t@ is Comma || t@ is Plus,
        ensures
            r == stands_at(tok_views(self.toks@), self.pos as nat, t@),
    {
        match (self.peek(), t) {
            (Some(Tok::LParen), Tok::LParen) => true,
            (Some(Tok::RParen), Tok::RParen) => true,
            (Some(Tok::Comma), Tok::Comma) => true,
            (Some(Tok::Plus), Tok::Plus) => true,
            _ => false,
        }
    }

    /// Whether a method call is chained at the position.
    fn sees_link(&self) -> (r: bool)
        ensures
            r == link_at(tok_views(self.toks@), self.pos as nat),
    {
        if self.pos >= self.toks.len() || self.toks.len() - self.pos < 2 {
            return false;
        }
        match (&self.toks[self.pos], &self.toks[self.pos + 1]) {
            (Tok::Name(name), Tok::LParen) => {
                let chars = chars_of(name.as_str());
                chars.len() > 0 && chars[0] == '.'
            },
            _ => false,
        }
    }

    /// Takes the token at the position and steps past it.
    pub fn next(&mut self) -> (r: Option<Tok>)
        ensures
            final(self).toks == old(self).toks,
            final(self).depth == old(self).depth,
            old(self).pos < old(self).toks@.len() ==> {
                &&& r matches Some(t) && t@ == old(self).toks@[old(self).pos as int]@
                &&& final(self).pos == old(self).pos + 1
            },
            old(self).pos >= old(self).toks@.len() ==> {
                &&& r is None
                &&& final(self).pos == old(self).pos
            },
    {
        let t = match self.toks.get(self.pos) {
            Some(t) => Some(t.clone()),
            None => None,
        };
        if t.is_some() {
            self.pos += 1;
        }
        t
    }

    /// Reads the expression at the position.
    pub fn expr(&mut self) -> (r: Expr)
        ensures
            final(self).toks == old(self).toks,
            final(self).depth == old(self).depth,
            final(self).pos >= old(self).pos,
            old(self).pos <= old(self).toks@.len() ==> final(self).pos <= old(self).toks@.len(),
            (r@, final(self).pos as nat) == expr_at(
                tok_views(old(self).toks@),
                old(self).pos as nat,
                old(self).depth as nat,
            ),
        decreases old(self).depth, old(self).toks@.len() - old(self).pos, 2nat,
    {
        let ghost ts = tok_views(self.toks@);
        let ghost start = self.pos as nat;
        let ghost d = self.depth as nat;
        let first = self.primary();
        let mut parts: Vec<Expr> = Vec::new();
        parts.push(first);
        proof {
            lemma_expr_views_push(Seq::empty(), first);
            let rest = more_terms(ts, self.pos as nat, d);
            assert(expr_views(parts@) =~= seq![first@]);
            assert(terms_at(ts, start, d).0 =~= expr_views(parts@) + rest.0);
        }
        while self.sees(&Tok::Plus)
            invariant
                self.toks == old(self).toks,
                self.depth == old(self).depth,
                d == self.depth,
                self.pos >= start,
                start == old(self).pos,
                ts == tok_views(self.toks@),
                parts@.len() >= 1,
                self.pos > start || self.pos >= self.toks@.len(),
                start <= self.toks@.len() ==> self.pos <= self.toks@.len(),
                terms_at(ts, start, d).0 == expr_views(parts@) + more_terms(
                    ts,
                    self.pos as nat,
                    d,
                ).0,
                terms_at(ts, start, d).1 == more_terms(ts, self.pos as nat, d).1,
            decreases self.toks@.len() - self.pos,
        {
            let ghost at = self.pos as nat;
            let ghost before = parts@;
            self.next();
            let e = self.primary();
            parts.push(e);
            proof {
                lemma_expr_views_push(before, e);
                let rest = more_terms(ts, self.pos as nat, d);
                assert(terms_at(ts, at + 1, d).0 =~= seq![e@] + rest.0);
                assert(expr_views(before) + (seq![e@] + rest.0) =~= expr_views(parts@) + rest.0);
            }
        }
        proof {
            lemma_expr_views(parts@);
            assert(terms_at(ts, start, d).0 =~= expr_views(parts@));
        }
        if parts.len() == 1 {
            parts.pop().unwrap()
        } else {
            Expr::Concat(parts)
        }
    }

    /// Reads the arguments of a call, and the closing parenthesis if it is there; says
    /// whether it was.
    fn call_args(&mut self) -> (r: (Vec<Expr>, bool))
        ensures
            final(self).toks == old(self).toks,
            final(self).depth == old(self).depth,
            ({
                let ts = tok_views(old(self).toks@);
                let (args, p) = call_args_at(ts, old(self).pos as nat, old(self).depth as nat);
                &&& expr_views(r.0@) == args
                &&& r.1 == stands_at(ts, p, TokView::RParen)
                &&& old(self).pos <= p
                &&& final(self).pos == p + if r.1 {
                    1int
                } else {
                    0
                }
            }),
            old(self).pos <= old(self).toks@.len() ==> final(self).pos <= old(self).toks@.len(),
        decreases old(self).depth, old(self).toks@.len() - old(self).pos, 4nat,
    {
        let ghost ts = tok_views(self.toks@);
        let ghost from = self.pos as nat;
        let ghost d = self.depth as nat;
        let mut args: Vec<Expr> = Vec::new();
        if self.pos < self.toks.len() && !self.sees(&Tok::RParen) {
            let first = self.expr();
            args.push(first);
            proof {
                lemma_expr_views_push(Seq::empty(), first);
                let rest = more_args(ts, self.pos as nat, d);
                assert(expr_views(args@) =~= seq![first@]);
                assert(args_at(ts, from, d).0 =~= expr_views(args@) + rest.0);
            }
            while self.sees(&Tok::Comma)
                invariant
                    self.toks == old(self).toks,
                    self.depth == old(self).depth,
                    d == self.depth,
                    self.pos >= from,
                    from == old(self).pos,
                    self.pos <= self.toks@.len(),
                    ts == tok_views(self.toks@),
                    args_at(ts, from, d).0 == expr_views(args@) + more_args(
                        ts,
                        self.pos as nat,
                        d,
                    ).0,
                    args_at(ts, from, d).1 == more_args(ts, self.pos as nat, d).1,
                decreases self.toks@.len() - self.pos,
            {
                let ghost at = self.pos as nat;
                let ghost before = args@;
                self.next();
                let e = self.expr();
                args.push(e);
                proof {
                    lemma_expr_views_push(before, e);
                    let rest = more_args(ts, self.pos as nat, d);
                    assert(args_at(ts, at + 1, d).0 =~= seq![e@] + rest.0);
                    assert(expr_views(before) + (seq![e@] + rest.0) =~= expr_views(args@)
                        + rest.0);
                }
            }
            assert(args_at(ts, from, d).0 =~= expr_views(args@));
        } else {
            assert(expr_views(args@) =~= Seq::empty());
        }
        let closed = self.sees(&Tok::RParen);
        if closed {
            self.next();
        }
        (args, closed)
    }

    /// Reads the method calls that are chained to `receiver` at the position.
    fn links(&mut self, receiver: Expr) -> (r: Expr)
        ensures
            final(self).toks == old(self).toks,
            final(self).depth == old(self).depth,
            final(self).pos >= old(self).pos,
            old(self).pos <= old(self).toks@.len() ==> final(self).pos <= old(self).toks@.len(),
            (r@, final(self).pos as nat) == links_at(
                tok_views(old(self).toks@),
                old(self).pos as nat,
                receiver@,
                old(self).depth as nat,
            ),
        decreases old(self).depth, old(self).toks@.len() - old(self).pos, 4nat,
    {
        let ghost ts = tok_views(self.toks@);
        let ghost d = self.depth as nat;
        let ghost whole = links_at(ts, self.pos as nat, receiver@, d);
        let mut e = receiver;
        while self.depth > 0 && self.sees_link() && expr_within(&e, self.depth - 1)
            invariant
                self.toks == old(self).toks,
                self.depth == old(self).depth,
                d == self.depth,
                ts == tok_views(self.toks@),
                self.pos >= old(self).pos,
                old(self).pos <= self.toks@.len() ==> self.pos <= self.toks@.len(),
                whole == links_at(ts, old(self).pos as nat, receiver@, d),
                whole == links_at(ts, self.pos as nat, e@, d),
            ensures
                whole == (e@, self.pos as nat),
            decreases self.toks@.len() - self.pos,
        {
            let ghost at = self.pos as nat;
            let name = match self.next() {
                Some(Tok::Name(name)) => name,
                _ => String::new(),
            };
            assert(name@ == ts[at as int]->Name_0);
            self.next();
            self.depth -= 1;
            let (args, closed) = self.call_args();
            self.depth += 1;
            e = Expr::Method { receiver: Box::new(e), name, args };
            if !closed {
                return e;
            }
        }
        e
    }

    /// The concatenation that an f-string with these interpolations stands for.
    fn format(parts: &Vec<String>, depth: usize) -> (r: Expr)
        ensures
            r@ == format_expr(texts(parts@), depth as nat),
        decreases depth, 0int, 0nat,
    {
        if depth < 2 {
            return Expr::Lit;
        }
        let ghost d = (depth - 2) as nat;
        let mut es: Vec<Expr> = Vec::new();
        es.push(Expr::Lit);
        let mut i: usize = 0;
        while i < parts.len()
            invariant
                i <= parts@.len(),
                depth >= 2,
                d == depth - 2,
                es@.len() == i + 1,
                es@[0]@ == ExprView::Lit,
                forall|k: int|
                    0 <= k < i ==> (#[trigger] es@[k + 1])@ == expr_at(lex(parts@[k]@), 0, d).0,
            decreases parts@.len() - i,
        {
            let mut p = P { toks: lex_line(parts[i].as_str()), pos: 0, depth: depth - 2 };
            let ghost before = es@;
            let e = p.expr();
            es.push(e);
            i += 1;
            assert forall|k: int| 0 <= k < i implies (#[trigger] es@[k + 1])@ == expr_at(
                lex(parts@[k]@),
                0,
                d,
            ).0 by {
                if k + 1 < before.len() {
                    assert(es@[k + 1] == before[k + 1]);
                }
            }
        }
        let r = Expr::Concat(es);
        proof {
            let views = format_expr(texts(parts@), depth as nat)->Concat_0;
            lemma_expr_views(es@);
            assert forall|j: int| 0 <= j < views.len() implies expr_views(es@)[j] == views[j] by {
                if j > 0 {
                    assert(es@[(j - 1) + 1]@ == expr_at(lex(parts@[j - 1]@), 0, d).0);
                    assert(texts(parts@)[j - 1] == parts@[j - 1]@);
                }
            }
            assert(expr_views(es@) =~= views);
        }
        r
    }

    /// Reads the primary at the position.
    pub fn primary(&mut self) -> (r: Expr)
        ensures
            final(self).toks == old(self).toks,
            final(self).depth == old(self).depth,
            final(self).pos >= old(self).pos,
            old(self).pos <= old(self).toks@.len() ==> final(self).pos <= old(self).toks@.len(),
            old(self).pos < old(self).toks@.len() ==> final(self).pos > old(self).pos,
            (r@, final(self).pos as nat) == primary_at(
                tok_views(old(self).toks@),
                old(self).pos as nat,
                old(self).depth as nat,
            ),
        decreases old(self).depth, old(self).toks@.len() - old(self).pos, 0nat,
    {
        let ghost ts = tok_views(self.toks@);
        let ghost start = self.pos as nat;
        let tok = self.next();
        if tok.is_some() {
            assert(ts[start as int] == tok->0@);
        }
        match tok {
            Some(Tok::Name(n)) => {
                if !self.sees(&Tok::LParen) {
                    Expr::Name(n)
                } else if self.depth == 0 {
                    Expr::Lit
                } else {
                    self.next();
                    self.depth -= 1;
                    let (args, closed) = self.call_args();
                    self.depth += 1;
                    let call = Expr::Call { name: n, args };
                    if closed {
                        self.links(call)
                    } else {
                        call
                    }
                }
            },
            Some(Tok::LParen) => {
                if self.depth == 0 {
                    Expr::Lit
                } else {
                    self.depth -= 1;
                    let e = self.expr();
                    self.depth += 1;
                    if self.sees(&Tok::RParen) {
                        self.next();
                        self.links(e)
                    } else {
                        e
                    }
                }
            },
            Some(Tok::Format(parts)) => P::format(&parts, self.depth),
            _ => Expr::Lit,
        }
    }
}

} // verus!
