//! The statements of a source text: what stands between the semicolons of its logical
//! lines. A logical line is one line, or several where a parenthesis is still open at the
//! end of a line.
use vstd::prelude::*;

use crate::flow::in_line_order;
use crate::grammar::{
    all_proper, expr_tokens, law_an_expression_is_read_alike_anywhere,
    law_expressions_read_as_written, proper, term_tokens,
};
use crate::lexer::{
    comment_free, law_lone_characters_are_tokens, law_names_are_tokens, law_semicolon_is_a_token,
    law_tokens_end_at_separators, law_what_is_no_token, lex, lex_line, strings_close, tok_views,
    Tok, TokView,
};
use crate::parser::{
    expr_at, expr_nesting, exprs_nesting, law_nesting_is_bounded, stands_at, stmt_views, ExprView,
    Stmt, StmtView, MAX_NESTING, P,
};
use crate::taint::{env_after, Env};
use crate::text::{
    law_last_line_needs_no_ending, law_line_feed_ends_a_line, lines, same_text, text_lines, texts,
};

verus! {

// ---- Logical lines ----

/// How many parentheses are open after the tokens `ts`, where `open` were open before them.
/// A closing parenthesis that closes none is passed over.
pub open spec fn open_after(ts: Seq<TokView>, open: nat) -> nat
    decreases ts.len(),
{
    if ts.len() == 0 {
        open
    } else {
        match ts[0] {
            TokView::LParen => open_after(ts.skip(1), open + 1),
            TokView::RParen => open_after(
                ts.skip(1),
                if open == 0 {
                    0
                } else {
                    (open - 1) as nat
                },
            ),
            _ => open_after(ts.skip(1), open),
        }
    }
}

/// How many parentheses are open after the first `n` lines.
pub open spec fn balance(ls: Seq<Seq<char>>, n: nat) -> nat
    decreases n,
{
    if n == 0 {
        0
    } else {
        open_after(lex(ls[n - 1]), balance(ls, (n - 1) as nat))
    }
}

/// The tokens of the logical line that line `n`, counted from one, belongs to, as far as
/// line `n`.
pub open spec fn joined(ls: Seq<Seq<char>>, n: nat) -> Seq<TokView>
    decreases n,
{
    if n == 0 {
        Seq::empty()
    } else if balance(ls, (n - 1) as nat) == 0 {
        lex(ls[n - 1])
    } else {
        joined(ls, (n - 1) as nat) + lex(ls[n - 1])
    }
}

/// The first line of the logical line that line `n`, counted from one, belongs to.
pub open spec fn first_line(ls: Seq<Seq<char>>, n: nat) -> nat
    decreases n,
{
    if n == 0 || balance(ls, (n - 1) as nat) == 0 {
        n
    } else {
        first_line(ls, (n - 1) as nat)
    }
}

/// Whether a logical line ends with line `n`, counted from one: no parenthesis is open, or
/// it is the last line of the text.
pub open spec fn ends_with_line(ls: Seq<Seq<char>>, n: nat) -> bool {
    balance(ls, n) == 0 || n == ls.len()
}

// ---- Pieces between semicolons ----

/// How many tokens stand before the first semicolon, or in all if there is none.
pub open spec fn piece_len(ts: Seq<TokView>) -> nat
    decreases ts.len(),
{
    if ts.len() == 0 || ts[0] is Semi {
        0
    } else {
        1 + piece_len(ts.skip(1))
    }
}

proof fn lemma_piece_len_bound(ts: Seq<TokView>)
    ensures
        piece_len(ts) <= ts.len(),
    decreases ts.len(),
{
    if ts.len() > 0 && !(ts[0] is Semi) {
        lemma_piece_len_bound(ts.skip(1));
    }
}

/// The tokens before the first semicolon as a list of pieces: nothing if there are none.
pub open spec fn first_piece(ts: Seq<TokView>) -> Seq<Seq<TokView>> {
    if piece_len(ts) == 0 {
        Seq::empty()
    } else {
        seq![ts.take(piece_len(ts) as int)]
    }
}

/// The pieces between the semicolons, without those that hold no token.
pub open spec fn pieces(ts: Seq<TokView>) -> Seq<Seq<TokView>>
    decreases ts.len(),
{
    let n = piece_len(ts);
    if n < ts.len() {
        first_piece(ts) + pieces(ts.skip(n as int + 1))
    } else {
        first_piece(ts)
    }
}

// ---- Statements ----

/// The keywords that lead a statement and are followed by an expression, or by another
/// statement. After `for` the expression is what stands behind `in`.
pub open spec fn keywords() -> Seq<Seq<char>> {
    seq![
        "return"@,
        "yield"@,
        "await"@,
        "async"@,
        "with"@,
        "if"@,
        "elif"@,
        "else"@,
        "while"@,
        "for"@,
        "assert"@,
        "raise"@,
        "from"@,
        "del"@,
        "not"@,
        "try"@,
        "except"@,
        "finally"@,
    ]
}

/// Whether a leading keyword stands at `pos`; a name that is being assigned is none.
pub open spec fn keyword_at(ts: Seq<TokView>, pos: nat) -> bool {
    &&& pos < ts.len()
    &&& ts[pos as int] matches TokView::Name(name) && keywords().contains(name)
    &&& !stands_at(ts, pos + 1, TokView::Eq)
}

/// The position after the first `in` from `pos` on, or after all tokens if there is none.
pub open spec fn after_in(ts: Seq<TokView>, pos: nat) -> nat
    decreases ts.len() - pos,
{
    if pos >= ts.len() {
        pos
    } else if ts[pos as int] == TokView::Name("in"@) {
        pos + 1
    } else {
        after_in(ts, pos + 1)
    }
}

pub proof fn lemma_after_in_bound(ts: Seq<TokView>, pos: nat)
    ensures
        after_in(ts, pos) >= pos,
        pos <= ts.len() ==> after_in(ts, pos) <= ts.len(),
    decreases ts.len() - pos,
{
    if pos < ts.len() && ts[pos as int] != TokView::Name("in"@) {
        lemma_after_in_bound(ts, pos + 1);
    }
}

/// The position after a `for` at `pos` and what it sets: behind the `in`, if anything stands
/// there, and otherwise directly behind the `for`.
pub open spec fn after_for(ts: Seq<TokView>, pos: nat) -> nat {
    let q = after_in(ts, pos + 1);
    if q < ts.len() {
        q
    } else {
        pos + 1
    }
}

/// The position after the keywords that stand at `pos`, and after what a `for` sets.
pub open spec fn after_keywords(ts: Seq<TokView>, pos: nat) -> nat
    decreases ts.len() - pos,
{
    if !keyword_at(ts, pos) {
        pos
    } else if ts[pos as int] == TokView::Name("for"@) {
        proof {
            lemma_after_in_bound(ts, pos + 1);
        }
        after_keywords(ts, after_for(ts, pos))
    } else {
        after_keywords(ts, pos + 1)
    }
}

/// Whether an assignment stands at `pos`, as far as its tokens show: a name and `=`. Of the
/// comparisons `!=`, `<=` and `>=` only the `=` is a token.
pub open spec fn assignment_at(ts: Seq<TokView>, pos: nat) -> bool {
    pos < ts.len() && ts[pos as int] is Name && stands_at(ts, pos + 1, TokView::Eq)
}

/// The keywords that another statement follows; an expression follows the others.
pub open spec fn block_keywords() -> Seq<Seq<char>> {
    seq!["else"@, "try"@, "finally"@]
}

/// Whether a statement of its own begins at `k`, where the leading keywords end: none was
/// passed over, or another statement follows the last of them.
pub open spec fn begins_statement(ts: Seq<TokView>, k: nat) -> bool {
    k == 0 || k <= ts.len() && (ts[k - 1] matches TokView::Name(word) && block_keywords().contains(
        word,
    ))
}

/// Whether what stands at `pos` takes what stands before it for an operand: a parenthesis or a
/// plus.
pub open spec fn takes_operand(ts: Seq<TokView>, pos: nat) -> bool {
    stands_at(ts, pos, TokView::LParen) || stands_at(ts, pos, TokView::Plus)
}

/// Where the expression of a statement begins whose leading keywords end at `k`. If the last
/// of them has a parenthesis directly behind it, it is read like a call: what stands in the
/// parentheses are its arguments. With a plus behind it, it is read like a term.
pub open spec fn operand_start(ts: Seq<TokView>, k: nat) -> nat {
    if k > 0 && takes_operand(ts, k) {
        (k - 1) as nat
    } else {
        k
    }
}

/// The statement that the tokens of a piece on line `line` make. Leading keywords are passed
/// over. An assignment's value is the expression after the `=`; any other piece, and what
/// follows a keyword that takes an expression, is one expression. What follows the
/// expression is ignored.
pub open spec fn statement(ts: Seq<TokView>, line: nat) -> StmtView {
    let k = after_keywords(ts, 0);
    if begins_statement(ts, k) && assignment_at(ts, k) {
        StmtView::Assign {
            name: ts[k as int]->Name_0,
            value: expr_at(ts, k + 2, MAX_NESTING as nat).0,
            line,
        }
    } else {
        StmtView::Eval { value: expr_at(ts, operand_start(ts, k), MAX_NESTING as nat).0, line }
    }
}

/// The statements of a logical line with tokens `ts` whose first line is `line`.
pub open spec fn piece_statements(ts: Seq<TokView>, line: nat) -> Seq<StmtView> {
    Seq::new(pieces(ts).len(), |i: int| statement(pieces(ts)[i], line))
}

/// The statements of the logical lines that end with one of the first `n` lines.
pub open spec fn line_statements(ls: Seq<Seq<char>>, n: nat) -> Seq<StmtView>
    decreases n,
{
    if n == 0 {
        Seq::empty()
    } else {
        let before = line_statements(ls, (n - 1) as nat);
        if ends_with_line(ls, n) {
            before + piece_statements(joined(ls, n), first_line(ls, n))
        } else {
            before
        }
    }
}

/// The statements of a source text.
pub open spec fn statements(src: Seq<char>) -> Seq<StmtView> {
    let ls = text_lines(src);
    line_statements(ls, ls.len())
}

// ---- Reading ----

/// How many parentheses are open after the tokens from `from` on, where `open` were open
/// before them.
fn still_open(toks: &Vec<Tok>, from: usize, open: usize) -> (r: usize)
    requires
        open <= from <= toks@.len(),
    ensures
        r == open_after(tok_views(toks@).skip(from as int), open as nat),
        r <= toks@.len(),
{
    let ghost ts = tok_views(toks@);
    let ghost whole = open_after(ts.skip(from as int), open as nat);
    let mut n: usize = open;
    let mut i: usize = from;
    while i < toks.len()
        invariant
            i <= toks@.len(),
            n <= i,
            ts == tok_views(toks@),
            whole == open_after(ts.skip(i as int), n as nat),
        decreases toks@.len() - i,
    {
        assert(ts.skip(i as int)[0] == toks@[i as int]@);
        assert(ts.skip(i as int).skip(1) =~= ts.skip(i + 1));
        match &toks[i] {
            Tok::LParen => {
                n += 1;
            },
            Tok::RParen => {
                if n > 0 {
                    n -= 1;
                }
            },
            _ => {},
        }
        i += 1;
    }
    n
}

/// Whether `name` is a keyword that leads a statement.
pub fn is_keyword(name: &str) -> (r: bool)
    ensures
        r == keywords().contains(name@),
{
    let list = [
        "return",
        "yield",
        "await",
        "async",
        "with",
        "if",
        "elif",
        "else",
        "while",
        "for",
        "assert",
        "raise",
        "from",
        "del",
        "not",
        "try",
        "except",
        "finally",
    ];
    let ghost views = list@.map_values(|s: &str| s@);
    assert(views =~= keywords());
    let mut i: usize = 0;
    while i < list.len()
        invariant
            i <= list@.len(),
            views == list@.map_values(|s: &str| s@),
            views == keywords(),
            forall|k: int| 0 <= k < i ==> views[k] != name@,
        decreases list@.len() - i,
    {
        assert(views[i as int] == list@[i as int]@);
        if same_text(name, list[i]) {
            return true;
        }
        i += 1;
    }
    false
}

/// The position after the first `in` from `from` on.
fn skip_in(toks: &Vec<Tok>, from: usize) -> (r: usize)
    requires
        from <= toks@.len(),
    ensures
        r == after_in(tok_views(toks@), from as nat),
        from <= r <= toks@.len(),
{
    let ghost ts = tok_views(toks@);
    let mut i: usize = from;
    while i < toks.len()
        invariant
            from <= i <= toks@.len(),
            ts == tok_views(toks@),
            after_in(ts, from as nat) == after_in(ts, i as nat),
        decreases toks@.len() - i,
    {
        assert(ts[i as int] == toks@[i as int]@);
        let found = match &toks[i] {
            Tok::Name(name) => same_text(name.as_str(), "in"),
            _ => false,
        };
        i += 1;
        if found {
            return i;
        }
    }
    i
}

/// The position after the keywords that a piece begins with.
fn skip_keywords(toks: &Vec<Tok>) -> (k: usize)
    ensures
        k == after_keywords(tok_views(toks@), 0),
        k <= toks@.len(),
{
    let ghost ts = tok_views(toks@);
    let mut k: usize = 0;
    while k < toks.len()
        invariant_except_break
            after_keywords(ts, 0) == after_keywords(ts, k as nat),
        invariant
            k <= toks@.len(),
            ts == tok_views(toks@),
        ensures
            k == after_keywords(ts, 0),
        decreases toks@.len() - k,
    {
        let assigned = k + 1 < toks.len() && matches!(&toks[k + 1], Tok::Eq);
        assert(assigned == stands_at(ts, k as nat + 1, TokView::Eq));
        let (keyword, sets) = match &toks[k] {
            Tok::Name(name) => (is_keyword(name.as_str()), same_text(name.as_str(), "for")),
            _ => (false, false),
        };
        assert(ts[k as int] == toks@[k as int]@);
        if assigned || !keyword {
            break;
        }
        let behind = if sets {
            skip_in(toks, k + 1)
        } else {
            toks.len()
        };
        k = if behind < toks.len() {
            behind
        } else {
            k + 1
        };
    }
    k
}

/// Whether `name` is a keyword that another statement follows.
pub fn is_block_keyword(name: &str) -> (r: bool)
    ensures
        r == block_keywords().contains(name@),
{
    let r = same_text(name, "else") || same_text(name, "try") || same_text(name, "finally");
    proof {
        let words = block_keywords();
        assert(words[0] == "else"@ && words[1] == "try"@ && words[2] == "finally"@);
    }
    r
}

/// Whether a statement of its own begins at `k`.
fn statement_begins(toks: &Vec<Tok>, k: usize) -> (r: bool)
    requires
        k <= toks@.len(),
    ensures
        r == begins_statement(tok_views(toks@), k as nat),
{
    if k == 0 {
        return true;
    }
    assert(tok_views(toks@)[k - 1] == toks@[k - 1]@);
    match &toks[k - 1] {
        Tok::Name(word) => is_block_keyword(word.as_str()),
        _ => false,
    }
}

/// The statement that the tokens of a piece on line `line` make.
fn read_statement(toks: Vec<Tok>, line: usize) -> (r: Stmt)
    ensures
        r@ == statement(tok_views(toks@), line as nat),
{
    let ghost ts = tok_views(toks@);
    let k = skip_keywords(&toks);
    let name: Option<String> = if toks.len() - k >= 2 && statement_begins(&toks, k) {
        assert(ts[k as int] == toks@[k as int]@ && ts[k + 1] == toks@[k + 1]@);
        match (&toks[k], &toks[k + 1]) {
            (Tok::Name(n), Tok::Eq) => Some(n.clone()),
            _ => None,
        }
    } else {
        None
    };
    match name {
        Some(name) => {
            let mut p = P { toks, pos: k + 2, depth: MAX_NESTING };
            Stmt::Assign { name, value: p.expr(), line }
        },
        None => {
            let taken = k > 0 && k < toks.len() && matches!(&toks[k], Tok::LParen | Tok::Plus);
            assert(taken == (k > 0 && takes_operand(ts, k as nat)));
            let pos: usize = if taken {
                k - 1
            } else {
                k
            };
            let mut p = P { toks, pos, depth: MAX_NESTING };
            Stmt::Eval { value: p.expr(), line }
        },
    }
}

/// The tokens from `from` up to `to`, without `to`.
fn part_of(toks: &Vec<Tok>, from: usize, to: usize) -> (r: Vec<Tok>)
    requires
        from <= to <= toks@.len(),
    ensures
        tok_views(r@) == tok_views(toks@).subrange(from as int, to as int),
{
    let ghost ts = tok_views(toks@);
    let mut out: Vec<Tok> = Vec::new();
    let mut i: usize = from;
    assert(tok_views(out@) =~= ts.subrange(from as int, from as int));
    while i < to
        invariant
            from <= i <= to <= toks@.len(),
            ts == tok_views(toks@),
            tok_views(out@) == ts.subrange(from as int, i as int),
        decreases to - i,
    {
        let t = toks[i].clone();
        let ghost before = out@;
        out.push(t);
        assert(tok_views(out@) =~= tok_views(before).push(t@));
        assert(ts.subrange(from as int, i + 1) =~= ts.subrange(from as int, i as int).push(
            ts[i as int],
        ));
        i += 1;
    }
    out
}

proof fn lemma_piece_len_is(ts: Seq<TokView>, n: nat)
    requires
        n <= ts.len(),
        forall|k: int| 0 <= k < n ==> !(#[trigger] ts[k] is Semi),
        n < ts.len() ==> ts[n as int] is Semi,
    ensures
        piece_len(ts) == n,
    decreases n,
{
    if n > 0 {
        let t = ts.skip(1);
        assert forall|k: int| 0 <= k < n - 1 implies !(#[trigger] t[k] is Semi) by {
            assert(t[k] == ts[k + 1]);
        }
        lemma_piece_len_is(t, (n - 1) as nat);
        assert(!(ts[0] is Semi));
    }
}

/// Appends the statements of the logical line `toks`, whose first line is `line`.
fn read_pieces(toks: &Vec<Tok>, line: usize, out: &mut Vec<Stmt>)
    ensures
        stmt_views(final(out)@) == stmt_views(old(out)@) + piece_statements(
            tok_views(toks@),
            line as nat,
        ),
{
    let ghost ts = tok_views(toks@);
    let ghost all = pieces(ts);
    let ghost at_first = stmt_views(out@);
    let ghost mut done: nat = 0;
    let mut start: usize = 0;
    let mut i: usize = 0;
    assert(ts.skip(0) =~= ts);
    assert(all.skip(0) =~= all);
    assert(stmt_views(out@) =~= at_first + piece_statements(ts, line as nat).take(0));
    while i < toks.len()
        invariant
            start <= i <= toks@.len(),
            ts == tok_views(toks@),
            all == pieces(ts),
            done <= all.len(),
            pieces(ts.skip(start as int)) == all.skip(done as int),
            forall|k: int| start <= k < i ==> !(#[trigger] ts[k] is Semi),
            stmt_views(out@) == at_first + piece_statements(ts, line as nat).take(done as int),
        decreases toks@.len() - i,
    {
        assert(ts[i as int] == toks@[i as int]@);
        let semi = matches!(&toks[i], Tok::Semi);
        if semi {
            let ghost rest = ts.skip(start as int);
            let ghost n = (i - start) as nat;
            proof {
                assert forall|k: int| 0 <= k < n implies !(#[trigger] rest[k] is Semi) by {
                    assert(rest[k] == ts[start + k]);
                }
                assert(rest[n as int] == ts[i as int]);
                lemma_piece_len_is(rest, n);
                assert(rest.skip(n as int + 1) =~= ts.skip(i + 1));
            }
            if i > start {
                let ghost before = out@;
                let s = read_statement(part_of(toks, start, i), line);
                out.push(s);
                proof {
                    assert(rest.take(n as int) =~= ts.subrange(start as int, i as int));
                    assert(pieces(rest).len() >= 1 && pieces(rest)[0] == rest.take(n as int));
                    assert(all.skip(done as int)[0] == all[done as int]);
                    assert(all[done as int] == rest.take(n as int));
                    lemma_one_more(before, s, at_first, ts, line as nat, done);
                    assert(pieces(rest).skip(1) =~= pieces(ts.skip(i + 1)));
                    assert(all.skip(done as int).skip(1) =~= all.skip(done + 1int));
                    done = done + 1;
                }
            } else {
                assert(pieces(rest) =~= pieces(ts.skip(i + 1)));
            }
            start = i + 1;
        }
        i += 1;
    }
    let ghost rest = ts.skip(start as int);
    let ghost n = (i - start) as nat;
    proof {
        assert forall|k: int| 0 <= k < n implies !(#[trigger] rest[k] is Semi) by {
            assert(rest[k] == ts[start + k]);
        }
        lemma_piece_len_is(rest, n);
        assert(rest.take(n as int) =~= rest);
    }
    if i > start {
        let ghost before = out@;
        let s = read_statement(part_of(toks, start, i), line);
        out.push(s);
        proof {
            assert(rest =~= ts.subrange(start as int, i as int));
            assert(pieces(rest).len() == 1 && pieces(rest)[0] == rest);
            assert(all.skip(done as int)[0] == all[done as int]);
            assert(all[done as int] == rest);
            lemma_one_more(before, s, at_first, ts, line as nat, done);
            assert(all.skip(done as int).len() == 1);
            done = done + 1;
        }
    } else {
        assert(all.skip(done as int).len() == 0);
    }
    assert(piece_statements(ts, line as nat).take(done as int) =~= piece_statements(
        ts,
        line as nat,
    ));
}

proof fn lemma_one_more(
    before: Seq<Stmt>,
    s: Stmt,
    at_first: Seq<StmtView>,
    ts: Seq<TokView>,
    line: nat,
    done: nat,
)
    requires
        done < pieces(ts).len(),
        stmt_views(before) == at_first + piece_statements(ts, line).take(done as int),
        s@ == statement(pieces(ts)[done as int], line),
    ensures
        stmt_views(before.push(s)) == at_first + piece_statements(ts, line).take(done + 1int),
{
    let all = piece_statements(ts, line);
    assert(all.take(done + 1int) =~= all.take(done as int).push(s@));
    assert(stmt_views(before.push(s)) =~= stmt_views(before).push(s@));
    assert(stmt_views(before.push(s)) =~= at_first + all.take(done + 1int));
}

/// The statements of `src`.
pub fn parse(src: &str) -> (r: Vec<Stmt>)
    ensures
        stmt_views(r@) == statements(src@),
{
    let ls = lines(src);
    let ghost views = text_lines(src@);
    let mut out: Vec<Stmt> = Vec::new();
    let mut toks: Vec<Tok> = Vec::new();
    let mut open: usize = 0;
    let mut first: usize = 0;
    let mut idx: usize = 0;
    assert(stmt_views(out@) =~= Seq::empty());
    while idx < ls.len()
        invariant
            idx <= ls@.len(),
            texts(ls@) == views,
            open == balance(views, idx as nat),
            open <= toks@.len(),
            open > 0 ==> tok_views(toks@) == joined(views, idx as nat),
            open > 0 ==> first == first_line(views, idx as nat),
            stmt_views(out@) == line_statements(views, idx as nat),
        decreases ls@.len() - idx,
    {
        assert(views[idx as int] == ls@[idx as int]@);
        let mut more = lex_line(ls[idx].as_str());
        let ghost added = more@;
        idx += 1;
        if open == 0 {
            toks = Vec::new();
            first = idx;
        }
        let from = toks.len();
        let ghost before = toks@;
        toks.append(&mut more);
        proof {
            assert(toks@ == before + added);
            assert(tok_views(toks@) =~= tok_views(before) + tok_views(added));
            assert(tok_views(toks@).skip(from as int) =~= tok_views(added));
            if open == 0 {
                assert(tok_views(before) + tok_views(added) =~= tok_views(added));
            }
        }
        open = still_open(&toks, from, open);
        if open == 0 || idx == ls.len() {
            read_pieces(&toks, first, &mut out);
        }
    }
    out
}

// ---- Laws of pieces and statements ----

/// A semicolon separates: the pieces on its two sides are those of the whole.
pub proof fn law_semicolon_separates(a: Seq<TokView>, b: Seq<TokView>)
    ensures
        pieces(a + seq![TokView::Semi] + b) == pieces(a) + pieces(b),
    decreases a.len(),
{
    let all = a + seq![TokView::Semi] + b;
    let n = piece_len(a);
    lemma_piece_len_bound(a);
    lemma_piece_of_prefix(a, b);
    assert(all.take(n as int) =~= a.take(n as int));
    if n < a.len() {
        let rest = a.skip(n as int + 1);
        law_semicolon_separates(rest, b);
        assert(all.skip(n as int + 1) =~= rest + seq![TokView::Semi] + b);
    } else {
        assert(all.skip(n as int + 1) =~= b);
    }
    assert(pieces(all) =~= pieces(a) + pieces(b));
}

proof fn lemma_piece_of_prefix(a: Seq<TokView>, b: Seq<TokView>)
    ensures
        piece_len(a + seq![TokView::Semi] + b) == piece_len(a),
    decreases a.len(),
{
    let all = a + seq![TokView::Semi] + b;
    if a.len() > 0 && !(a[0] is Semi) {
        lemma_piece_of_prefix(a.skip(1), b);
        assert(all.skip(1) =~= a.skip(1) + seq![TokView::Semi] + b);
    }
}

/// A line without a semicolon is one piece, if it holds a token.
pub proof fn law_no_semicolon_one_piece(ts: Seq<TokView>)
    requires
        ts.len() > 0,
        forall|k: int| 0 <= k < ts.len() ==> !(#[trigger] ts[k] is Semi),
    ensures
        pieces(ts) == seq![ts],
{
    lemma_piece_len_is(ts, ts.len());
    assert(ts.take(ts.len() as int) =~= ts);
}

proof fn lemma_in_moves(a: Seq<TokView>, ts: Seq<TokView>, pos: nat)
    ensures
        after_in(a + ts, a.len() + pos) == a.len() + after_in(ts, pos),
    decreases ts.len() - pos,
{
    if pos < ts.len() {
        assert((a + ts)[a.len() + pos as int] == ts[pos as int]);
        lemma_in_moves(a, ts, pos + 1);
    }
}

proof fn lemma_keywords_move(a: Seq<TokView>, ts: Seq<TokView>, pos: nat)
    ensures
        after_keywords(a + ts, a.len() + pos) == a.len() + after_keywords(ts, pos),
    decreases ts.len() - pos,
{
    let all = a + ts;
    let p = a.len() + pos;
    assert(keyword_at(all, p) == keyword_at(ts, pos)) by {
        if pos < ts.len() {
            assert(all[p as int] == ts[pos as int]);
        }
        if pos + 1 < ts.len() {
            assert(all[p + 1int] == ts[pos + 1int]);
        }
    }
    if keyword_at(ts, pos) {
        assert(all[p as int] == ts[pos as int]);
        if ts[pos as int] == TokView::Name("for"@) {
            lemma_in_moves(a, ts, pos + 1);
            lemma_after_in_bound(ts, pos + 1);
            lemma_keywords_move(a, ts, after_for(ts, pos));
        } else {
            lemma_keywords_move(a, ts, pos + 1);
        }
    }
}

/// The statement of `a + ts` is that of `ts`, where the keywords of `a` lead up to it, it takes
/// none of them for an operand, and it is no assignment behind a keyword that takes an
/// expression.
proof fn lemma_statement_moves(a: Seq<TokView>, ts: Seq<TokView>, line: nat)
    requires
        a.len() > 0,
        after_keywords(a + ts, 0) == a.len() + after_keywords(ts, 0),
        !takes_operand(ts, 0),
        assignment_at(ts, 0) ==> (a.last() matches TokView::Name(word)
            && block_keywords().contains(word)),
    ensures
        statement(a + ts, line) == statement(ts, line),
{
    let all = a + ts;
    let n = a.len();
    let k = after_keywords(ts, 0);
    let d = MAX_NESTING as nat;
    lemma_after_keywords_bound(ts, 0);
    assert(assignment_at(all, n + k) == assignment_at(ts, k)) by {
        if k < ts.len() {
            assert(all[n + k as int] == ts[k as int]);
        }
        if k + 1 < ts.len() {
            assert(all[n + k + 1int] == ts[k + 1int]);
        }
    }
    assert(takes_operand(all, n + k) == takes_operand(ts, k));
    if k < ts.len() {
        assert(all[n + k as int] == ts[k as int]);
    }
    if k > 0 {
        assert(all[n + k - 1] == ts[k - 1]);
    } else {
        assert(all[n - 1] == a.last());
    }
    law_an_expression_is_read_alike_anywhere(a, ts, operand_start(ts, k), d);
    law_an_expression_is_read_alike_anywhere(a, ts, k + 2, d);
}

proof fn lemma_after_keywords_bound(ts: Seq<TokView>, pos: nat)
    requires
        pos <= ts.len(),
    ensures
        pos <= after_keywords(ts, pos) <= ts.len(),
    decreases ts.len() - pos,
{
    if keyword_at(ts, pos) {
        if ts[pos as int] == TokView::Name("for"@) {
            lemma_after_in_bound(ts, pos + 1);
            lemma_after_keywords_bound(ts, after_for(ts, pos));
        } else {
            lemma_after_keywords_bound(ts, pos + 1);
        }
    }
}

/// A piece that begins with a name and `=` is an assignment. So is one where these follow
/// keywords, if the last of them has a statement behind it. No other is: a condition, or what
/// a keyword returns, is evaluated, whatever it compares.
pub proof fn law_what_is_an_assignment(ts: Seq<TokView>, line: nat)
    ensures
        assignment_at(ts, 0) ==> statement(ts, line) == (StmtView::Assign {
            name: ts[0]->Name_0,
            value: expr_at(ts, 2, MAX_NESTING as nat).0,
            line,
        }),
        statement(ts, line) is Assign && !assignment_at(ts, 0) ==> {
            let k = after_keywords(ts, 0);
            &&& 0 < k < ts.len()
            &&& ts[k - 1] matches TokView::Name(word) && block_keywords().contains(word)
            &&& assignment_at(ts, k)
        },
{
}

/// What follows a keyword that takes an expression is evaluated, even if it looks like an
/// assignment, as a comparison does whose first character is no token.
pub proof fn law_expression_keyword_evaluates(word: Seq<char>, ts: Seq<TokView>, line: nat)
    requires
        keywords().contains(word),
        !block_keywords().contains(word),
        word != "for"@,
        assignment_at(ts, 0),
    ensures
        statement(seq![TokView::Name(word)] + ts, line) == (StmtView::Eval {
            value: expr_at(ts, 0, MAX_NESTING as nat).0,
            line,
        }),
{
    let a = seq![TokView::Name(word)];
    let all = a + ts;
    assert(all[0] == TokView::Name(word));
    assert(all[1] == ts[0]);
    assert(keyword_at(all, 0));
    assert(!keyword_at(ts, 0));
    lemma_keywords_move(a, ts, 0);
    assert(after_keywords(all, 0) == after_keywords(all, 1));
    assert(after_keywords(all, 0) == 1);
    law_an_expression_is_read_alike_anywhere(a, ts, 0, MAX_NESTING as nat);
}

/// A group behind a keyword is read whole: what stands in the parentheses are the arguments
/// of the keyword, all of them.
pub proof fn law_group_behind_keyword_is_read_whole(
    word: Seq<char>,
    args: Seq<ExprView>,
    line: nat,
)
    requires
        keywords().contains(word),
        word != "for"@,
        all_proper(args),
        exprs_nesting(args) < MAX_NESTING,
    ensures
        statement(term_tokens(ExprView::Call { name: word, args }), line) == (StmtView::Eval {
            value: ExprView::Call { name: word, args },
            line,
        }),
{
    let call = ExprView::Call { name: word, args };
    let ts = term_tokens(call);
    let d = MAX_NESTING as nat;
    assert(ts[0] == TokView::Name(word));
    assert(ts[1] == TokView::LParen);
    assert(keyword_at(ts, 0));
    assert(!keyword_at(ts, 1));
    assert(after_keywords(ts, 0) == after_keywords(ts, 1));
    assert(after_keywords(ts, 0) == 1);
    assert(proper(call)) by {
        assert forall|i: int| 0 <= i < args.len() implies proper(#[trigger] args[i]) by {}
    }
    law_expressions_read_as_written(ts, 0, call, d);
}

/// A leading keyword changes nothing: the statement is that of what follows it, if that does
/// not begin with a parenthesis or a plus, and is no assignment unless the keyword has a
/// statement behind it.
pub proof fn law_leading_keyword_is_passed_over(word: Seq<char>, ts: Seq<TokView>, line: nat)
    requires
        keywords().contains(word),
        word != "for"@,
        !stands_at(ts, 0, TokView::Eq),
        !takes_operand(ts, 0),
        assignment_at(ts, 0) ==> block_keywords().contains(word),
    ensures
        statement(seq![TokView::Name(word)] + ts, line) == statement(ts, line),
{
    let a = seq![TokView::Name(word)];
    let all = a + ts;
    assert(all[0] == TokView::Name(word));
    if ts.len() > 0 {
        assert(all[1] == ts[0]);
    }
    assert(keyword_at(all, 0));
    lemma_keywords_move(a, ts, 0);
    assert(after_keywords(all, 0) == after_keywords(all, 1));
    lemma_statement_moves(a, ts, line);
}

proof fn lemma_after_in_is(ts: Seq<TokView>, pos: nat, n: nat)
    requires
        pos <= n < ts.len(),
        ts[n as int] == TokView::Name("in"@),
        forall|k: int| pos <= k < n ==> #[trigger] ts[k] != TokView::Name("in"@),
    ensures
        after_in(ts, pos) == n + 1,
    decreases n - pos,
{
    if pos < n {
        assert(ts[pos as int] != TokView::Name("in"@));
        lemma_after_in_is(ts, pos + 1, n);
    }
}

/// A `for` and the names that it sets change nothing: the statement is that of what follows
/// the `in`, if that does not begin with a parenthesis or a plus and is no assignment.
pub proof fn law_for_is_passed_over(names: Seq<TokView>, ts: Seq<TokView>, line: nat)
    requires
        names.len() > 0,
        ts.len() > 0,
        !(names[0] is Eq),
        forall|k: int| 0 <= k < names.len() ==> #[trigger] names[k] != TokView::Name("in"@),
        !takes_operand(ts, 0),
        !assignment_at(ts, 0),
    ensures
        statement(
            (seq![TokView::Name("for"@)] + names).push(TokView::Name("in"@)) + ts,
            line,
        ) == statement(ts, line),
{
    let a = (seq![TokView::Name("for"@)] + names).push(TokView::Name("in"@));
    let all = a + ts;
    let n = names.len() + 1;
    assert(all[0] == TokView::Name("for"@));
    assert(all[1] == names[0]);
    assert(keywords()[9] == "for"@);
    assert(keyword_at(all, 0));
    assert(all[n as int] == TokView::Name("in"@));
    assert forall|k: int| 1 <= k < n implies #[trigger] all[k] != TokView::Name("in"@) by {
        assert(all[k] == names[k - 1]);
    }
    lemma_after_in_is(all, 1, n);
    lemma_keywords_move(a, ts, 0);
    assert(after_keywords(all, 0) == after_keywords(all, a.len()));
    lemma_statement_moves(a, ts, line);
}

/// However deep a text nests its parentheses, the expressions of its statements nest no
/// deeper than `MAX_NESTING`.
pub proof fn law_statements_nest_within_bound(src: Seq<char>, k: int)
    requires
        0 <= k < statements(src).len(),
    ensures
        expr_nesting(statements(src)[k].expr()) <= MAX_NESTING,
{
    let s = statements(src)[k];
    assert(statements(src).contains(s));
    law_statements_are_pieces(src, s);
    let ls = text_lines(src);
    let n = choose|n: nat|
        1 <= n <= ls.len() && ends_with_line(ls, n) && #[trigger] piece_statements(
            joined(ls, n),
            first_line(ls, n),
        ).contains(s);
    let all = piece_statements(joined(ls, n), first_line(ls, n));
    let i = choose|i: int| 0 <= i < all.len() && all[i] == s;
    let ts = pieces(joined(ls, n))[i];
    let p = after_keywords(ts, 0);
    law_nesting_is_bounded(ts, operand_start(ts, p), MAX_NESTING as nat);
    law_nesting_is_bounded(ts, p + 2, MAX_NESTING as nat);
}

proof fn lemma_contains_concat(a: Seq<StmtView>, b: Seq<StmtView>, s: StmtView)
    ensures
        (a + b).contains(s) <==> a.contains(s) || b.contains(s),
{
    if a.contains(s) {
        let i = choose|i: int| 0 <= i < a.len() && a[i] == s;
        assert((a + b)[i] == s);
    }
    if b.contains(s) {
        let i = choose|i: int| 0 <= i < b.len() && b[i] == s;
        assert((a + b)[a.len() + i] == s);
    }
}

proof fn lemma_statements_are_pieces(ls: Seq<Seq<char>>, n: nat, s: StmtView)
    requires
        n <= ls.len(),
    ensures
        line_statements(ls, n).contains(s) <==> exists|m: nat|
            1 <= m <= n && ends_with_line(ls, m) && #[trigger] piece_statements(
                joined(ls, m),
                first_line(ls, m),
            ).contains(s),
    decreases n,
{
    if n > 0 {
        let before = line_statements(ls, (n - 1) as nat);
        let own = piece_statements(joined(ls, n), first_line(ls, n));
        lemma_statements_are_pieces(ls, (n - 1) as nat, s);
        lemma_contains_concat(before, own, s);
    }
}

/// The statements of a text are those of its logical lines, each the statement of one piece,
/// and there are no others.
pub proof fn law_statements_are_pieces(src: Seq<char>, s: StmtView)
    ensures
        statements(src).contains(s) <==> exists|n: nat|
            1 <= n <= text_lines(src).len() && ends_with_line(text_lines(src), n)
                && #[trigger] piece_statements(
                joined(text_lines(src), n),
                first_line(text_lines(src), n),
            ).contains(s),
{
    lemma_statements_are_pieces(text_lines(src), text_lines(src).len(), s);
}

proof fn lemma_first_line_bounds(ls: Seq<Seq<char>>, n: nat)
    ensures
        first_line(ls, n) <= n,
        n >= 1 ==> first_line(ls, n) >= 1,
    decreases n,
{
    if n > 0 && balance(ls, (n - 1) as nat) != 0 {
        lemma_first_line_bounds(ls, (n - 1) as nat);
    }
}

proof fn lemma_line_order(ls: Seq<Seq<char>>, n: nat)
    requires
        n <= ls.len(),
    ensures
        in_line_order(line_statements(ls, n)),
        forall|k: int|
            0 <= k < line_statements(ls, n).len() ==> 1 <= (#[trigger] line_statements(
                ls,
                n,
            )[k]).at_line() <= n,
        n < ls.len() && balance(ls, n) != 0 ==> forall|k: int|
            0 <= k < line_statements(ls, n).len() ==> (#[trigger] line_statements(
                ls,
                n,
            )[k]).at_line() < first_line(ls, n),
    decreases n,
{
    if n > 0 {
        let m = (n - 1) as nat;
        lemma_line_order(ls, m);
        lemma_first_line_bounds(ls, n);
        let before = line_statements(ls, m);
        let all = line_statements(ls, n);
        let first = first_line(ls, n);
        assert forall|k: int| 0 <= k < before.len() implies (#[trigger] before[k]).at_line()
            < first by {}
        assert forall|k: int| before.len() <= k < all.len() implies (#[trigger] all[k]).at_line()
            == first by {
            let own = piece_statements(joined(ls, n), first);
            assert(all[k] == own[k - before.len()]);
        }
        assert forall|i: int, j: int| 0 <= i < j < all.len() implies #[trigger] all[i].at_line()
            <= #[trigger] all[j].at_line() by {
            if i < before.len() {
                assert(all[i] == before[i]);
            }
            if j < before.len() {
                assert(all[j] == before[j]);
            }
        }
        assert forall|k: int| 0 <= k < all.len() implies 1 <= (#[trigger] all[k]).at_line()
            <= n by {
            if k < before.len() {
                assert(all[k] == before[k]);
            }
        }
    }
}

/// Statements come in the order of their lines, which are lines of the text.
pub proof fn law_statements_in_line_order(src: Seq<char>)
    ensures
        in_line_order(statements(src)),
        forall|k: int|
            0 <= k < statements(src).len() ==> 1 <= (#[trigger] statements(src)[k]).at_line()
                <= text_lines(src).len(),
{
    lemma_line_order(text_lines(src), text_lines(src).len());
}

/// A line that no parenthesis is open before or after is a logical line of its own: its
/// pieces are statements of that line.
pub proof fn law_closed_line_stands_alone(src: Seq<char>, i: int)
    requires
        0 <= i < text_lines(src).len(),
        balance(text_lines(src), i as nat) == 0,
        balance(text_lines(src), i as nat + 1) == 0,
    ensures
        forall|p: int|
            0 <= p < pieces(lex(text_lines(src)[i])).len() ==> statements(src).contains(
                statement(#[trigger] pieces(lex(text_lines(src)[i]))[p], i as nat + 1),
            ),
{
    let ls = text_lines(src);
    let n = i as nat + 1;
    let ps = pieces(lex(ls[i]));
    assert(joined(ls, n) == lex(ls[i]));
    assert(first_line(ls, n) == n);
    let own = piece_statements(joined(ls, n), first_line(ls, n));
    assert forall|p: int| 0 <= p < ps.len() implies statements(src).contains(
        statement(#[trigger] ps[p], n),
    ) by {
        let s = statement(ps[p], n);
        assert(own[p] == s);
        assert(own.contains(s));
        law_statements_are_pieces(src, s);
    }
}

/// Where a parenthesis is open at the end of a line, the next line continues it.
pub proof fn law_open_parenthesis_joins_lines(ls: Seq<Seq<char>>, n: nat)
    requires
        0 < n < ls.len(),
        balance(ls, n) > 0,
    ensures
        !ends_with_line(ls, n),
        joined(ls, n + 1) == joined(ls, n) + lex(ls[n as int]),
        first_line(ls, n + 1) == first_line(ls, n),
{
}

proof fn lemma_of_prefix(a: Seq<Seq<char>>, b: Seq<Seq<char>>, n: nat)
    requires
        n <= a.len(),
    ensures
        balance(a + b, n) == balance(a, n),
        joined(a + b, n) == joined(a, n),
        first_line(a + b, n) == first_line(a, n),
    decreases n,
{
    if n > 0 {
        lemma_of_prefix(a, b, (n - 1) as nat);
        assert((a + b)[n - 1] == a[n - 1]);
    }
}

proof fn lemma_statements_of_prefix(a: Seq<Seq<char>>, b: Seq<Seq<char>>, n: nat)
    requires
        n <= a.len(),
        balance(a, a.len()) == 0,
    ensures
        line_statements(a + b, n) == line_statements(a, n),
    decreases n,
{
    if n > 0 {
        lemma_statements_of_prefix(a, b, (n - 1) as nat);
        lemma_of_prefix(a, b, n);
    }
}

proof fn lemma_statements_grow(ls: Seq<Seq<char>>, m: nat, n: nat)
    requires
        m <= n,
    ensures
        line_statements(ls, m).is_prefix_of(line_statements(ls, n)),
    decreases n,
{
    if m < n {
        lemma_statements_grow(ls, m, (n - 1) as nat);
        let short = line_statements(ls, m);
        let mid = line_statements(ls, (n - 1) as nat);
        let long = line_statements(ls, n);
        assert(short =~= mid.subrange(0, short.len() as int));
        assert(short =~= long.subrange(0, short.len() as int));
    }
}

/// Lines that are added below a text which closes its parentheses leave its statements as
/// they are, in front of their own.
pub proof fn law_added_lines_only_add_statements(above: Seq<char>, below: Seq<char>)
    requires
        above.len() > 0 ==> above.last() == '\n',
        balance(text_lines(above), text_lines(above).len()) == 0,
    ensures
        statements(above).is_prefix_of(statements(above + below)),
{
    let a = text_lines(above);
    let b = text_lines(below);
    crate::text::law_lines_of_concatenation(above, below);
    lemma_statements_of_prefix(a, b, a.len());
    lemma_statements_grow(a + b, a.len(), (a + b).len());
}

// ---- What a piece says ----

/// The words that lead a statement, and those of them that another statement follows.
pub proof fn law_keywords(word: Seq<char>)
    ensures
        keywords().contains(word) <==> {
            ||| word == "return"@ || word == "yield"@ || word == "await"@ || word == "async"@
            ||| word == "with"@ || word == "if"@ || word == "elif"@ || word == "else"@
            ||| word == "while"@ || word == "for"@ || word == "assert"@ || word == "raise"@
            ||| word == "from"@ || word == "del"@ || word == "not"@ || word == "try"@
            ||| word == "except"@ || word == "finally"@
        },
        block_keywords().contains(word) <==> word == "else"@ || word == "try"@ || word
            == "finally"@,
{
    let k = keywords();
    assert(k[0] == "return"@ && k[1] == "yield"@ && k[2] == "await"@ && k[3] == "async"@ && k[4]
        == "with"@ && k[5] == "if"@ && k[6] == "elif"@ && k[7] == "else"@ && k[8] == "while"@
        && k[9] == "for"@ && k[10] == "assert"@ && k[11] == "raise"@ && k[12] == "from"@ && k[13]
        == "del"@ && k[14] == "not"@ && k[15] == "try"@ && k[16] == "except"@ && k[17]
        == "finally"@);
    let b = block_keywords();
    assert(b[0] == "else"@ && b[1] == "try"@ && b[2] == "finally"@);
}

/// A name and `=` make an assignment, whatever the name and whatever follows: the variable is
/// that name, the value what is read behind the `=` with a hundred parentheses at most.
pub proof fn law_name_and_equals_assign(x: Seq<char>, value: Seq<TokView>, line: nat)
    ensures
        statement(seq![TokView::Name(x), TokView::Eq] + value, line) == (StmtView::Assign {
            name: x,
            value: expr_at(value, 0, 100).0,
            line,
        }),
{
    let a = seq![TokView::Name(x), TokView::Eq];
    let ts = a + value;
    assert(ts[0] == TokView::Name(x));
    assert(ts[1] == TokView::Eq);
    assert(!keyword_at(ts, 0));
    law_an_expression_is_read_alike_anywhere(a, value, 0, 100);
}

/// Any other piece that no keyword leads is evaluated, from its first token on.
pub proof fn law_other_pieces_are_evaluated(ts: Seq<TokView>, line: nat)
    requires
        !(ts.len() >= 2 && ts[0] is Name && ts[1] is Eq),
        ts.len() > 0 ==> (ts[0] matches TokView::Name(word) ==> !keywords().contains(word)),
    ensures
        statement(ts, line) == (StmtView::Eval { value: expr_at(ts, 0, 100).0, line }),
{
    assert(!keyword_at(ts, 0));
}

proof fn lemma_blanks(blanks: Seq<char>, rest: Seq<char>)
    requires
        forall|i: int| 0 <= i < blanks.len() ==> #[trigger] blanks[i] == ' ',
    ensures
        lex(blanks + rest) == lex(rest),
    decreases blanks.len(),
{
    if blanks.len() > 0 {
        let b = blanks.skip(1);
        assert forall|i: int| 0 <= i < b.len() implies #[trigger] b[i] == ' ' by {
            assert(b[i] == blanks[i + 1]);
        }
        lemma_blanks(b, rest);
        assert(blanks[0] == ' ');
        assert(blanks + rest =~= seq![' '] + (b + rest));
        law_what_is_no_token(' ', b + rest);
    } else {
        assert(blanks + rest =~= rest);
    }
}

/// A line that adds to a variable with `+=` is no assignment: it is evaluated, so that no
/// variable's taint changes by it.
pub proof fn law_adding_to_a_variable_is_no_assignment(
    x: Seq<char>,
    blanks: Seq<char>,
    rest: Seq<char>,
    line: nat,
    env: Env,
)
    requires
        x.len() > 0,
        forall|i: int|
            0 <= i < x.len() ==> crate::text::is_alphanumeric(#[trigger] x[i]) || x[i] == '_'
                || x[i] == '.',
        !('0' <= x[0] <= '9'),
        !crate::text::is_whitespace(x[0]),
        x != "for"@,
        forall|i: int| 0 <= i < blanks.len() ==> #[trigger] blanks[i] == ' ',
    ensures
        statement(lex(x + (blanks + (seq!['+', '='] + rest))), line) is Eval,
        env_after(statement(lex(x + (blanks + (seq!['+', '='] + rest))), line), env) == env,
{
    let tail = seq!['+', '='] + rest;
    let after = blanks + tail;
    assert(tail =~= seq!['+'] + (seq!['='] + rest));
    lemma_blanks(blanks, tail);
    law_lone_characters_are_tokens(seq!['='] + rest);
    if blanks.len() > 0 {
        assert(after[0] == blanks[0]);
    } else {
        assert(after =~= tail);
    }
    law_names_are_tokens(x, after);
    let ts = lex(x + after);
    let more = lex(seq!['='] + rest);
    assert(ts =~= seq![TokView::Name(x), TokView::Plus] + more);
    assert(ts[0] == TokView::Name(x));
    assert(ts[1] == TokView::Plus);
    assert(!keyword_at(ts, 1));
    if keyword_at(ts, 0) {
        assert(after_keywords(ts, 0) == after_keywords(ts, 1));
    }
}

/// A keyword with a parenthesis or a plus directly behind it is an operand of what follows: the
/// whole piece is evaluated, from the keyword on, so that nothing of it is lost.
pub proof fn law_keyword_can_be_an_operand(word: Seq<char>, ts: Seq<TokView>, line: nat)
    requires
        keywords().contains(word),
        word != "for"@,
        ts.len() > 0,
        ts[0] is LParen || ts[0] is Plus,
    ensures
        statement(seq![TokView::Name(word)] + ts, line) == (StmtView::Eval {
            value: expr_at(seq![TokView::Name(word)] + ts, 0, 100).0,
            line,
        }),
{
    let all = seq![TokView::Name(word)] + ts;
    assert(all[0] == TokView::Name(word));
    assert(all[1] == ts[0]);
    assert(keyword_at(all, 0));
    assert(!keyword_at(all, 1));
    assert(after_keywords(all, 0) == after_keywords(all, 1));
    assert(after_keywords(all, 0) == 1);
}

/// The same behind the `in` of a `for`: what stands there in parentheses, or after a plus, is
/// evaluated from the `in` on.
pub proof fn law_in_can_be_an_operand(names: Seq<TokView>, ts: Seq<TokView>, line: nat)
    requires
        names.len() > 0,
        !(names[0] is Eq),
        forall|k: int| 0 <= k < names.len() ==> #[trigger] names[k] != TokView::Name("in"@),
        ts.len() > 0,
        ts[0] is LParen || ts[0] is Plus,
    ensures
        statement(
            (seq![TokView::Name("for"@)] + names).push(TokView::Name("in"@)) + ts,
            line,
        ) == (StmtView::Eval {
            value: expr_at(seq![TokView::Name("in"@)] + ts, 0, 100).0,
            line,
        }),
{
    let a = seq![TokView::Name("for"@)] + names;
    let b = seq![TokView::Name("in"@)] + ts;
    let all = a.push(TokView::Name("in"@)) + ts;
    let n = names.len() + 1;
    assert(all =~= a + b);
    assert(all[0] == TokView::Name("for"@));
    assert(all[1] == names[0]);
    law_keywords("for"@);
    assert(keyword_at(all, 0));
    assert(all[n as int] == TokView::Name("in"@));
    assert forall|k: int| 1 <= k < n implies #[trigger] all[k] != TokView::Name("in"@) by {
        assert(all[k] == names[k - 1]);
    }
    lemma_after_in_is(all, 1, n);
    assert(all[n + 1int] == ts[0]);
    assert(!keyword_at(all, n + 1));
    assert(after_keywords(all, 0) == after_keywords(all, n + 1));
    assert(after_keywords(all, 0) == n + 1);
    law_an_expression_is_read_alike_anywhere(a, b, 0, 100);
    assert(stands_at(all, n + 1, TokView::LParen) || stands_at(all, n + 1, TokView::Plus));
}

proof fn lemma_no_in(ts: Seq<TokView>, pos: nat)
    requires
        pos <= ts.len(),
        forall|k: int| pos <= k < ts.len() ==> #[trigger] ts[k] != TokView::Name("in"@),
    ensures
        after_in(ts, pos) == ts.len(),
    decreases ts.len() - pos,
{
    if pos < ts.len() {
        assert(ts[pos as int] != TokView::Name("in"@));
        lemma_no_in(ts, pos + 1);
    }
}

/// A `for` without an `in` is passed over like any other keyword that takes an expression.
pub proof fn law_for_without_in_is_passed_over(ts: Seq<TokView>, line: nat)
    requires
        forall|k: int| 0 <= k < ts.len() ==> #[trigger] ts[k] != TokView::Name("in"@),
        !stands_at(ts, 0, TokView::Eq),
        !takes_operand(ts, 0),
        !assignment_at(ts, 0),
    ensures
        statement(seq![TokView::Name("for"@)] + ts, line) == statement(ts, line),
{
    let a = seq![TokView::Name("for"@)];
    let all = a + ts;
    assert(all[0] == TokView::Name("for"@));
    if ts.len() > 0 {
        assert(all[1] == ts[0]);
    }
    law_keywords("for"@);
    assert(keyword_at(all, 0));
    assert forall|k: int| 1 <= k < all.len() implies #[trigger] all[k] != TokView::Name(
        "in"@,
    ) by {
        assert(all[k] == ts[k - 1]);
    }
    lemma_no_in(all, 1);
    lemma_keywords_move(a, ts, 0);
    assert(after_keywords(all, 0) == after_keywords(all, 1));
    lemma_statement_moves(a, ts, line);
}

/// A call nested `k` deep in calls of the same function, around a variable.
pub open spec fn nested_call(f: Seq<char>, x: Seq<char>, k: nat) -> ExprView
    decreases k,
{
    if k == 0 {
        ExprView::Name(x)
    } else {
        ExprView::Call { name: f, args: seq![nested_call(f, x, (k - 1) as nat)] }
    }
}

proof fn lemma_nested_call(f: Seq<char>, x: Seq<char>, k: nat)
    ensures
        proper(nested_call(f, x, k)),
        expr_nesting(nested_call(f, x, k)) == k,
    decreases k,
{
    if k > 0 {
        lemma_nested_call(f, x, (k - 1) as nat);
        let args = seq![nested_call(f, x, (k - 1) as nat)];
        assert(proper(args[0]));
        crate::parser::lemma_exprs_nesting(args, (k - 1) as nat);
        if k > 1 {
            crate::parser::lemma_exprs_nesting(args, (k - 2) as nat);
            assert(expr_nesting(args[0]) > k - 2);
        }
        assert(exprs_nesting(args) == k - 1);
    }
}

/// Calls may nest a hundred deep: a piece that is written so is read so.
pub proof fn law_hundred_calls_may_nest(f: Seq<char>, x: Seq<char>, k: nat, line: nat)
    requires
        k <= 100,
        !keywords().contains(f),
        !keywords().contains(x),
    ensures
        statement(expr_tokens(nested_call(f, x, k)), line) == (StmtView::Eval {
            value: nested_call(f, x, k),
            line,
        }),
{
    let e = nested_call(f, x, k);
    let ts = expr_tokens(e);
    lemma_nested_call(f, x, k);
    law_expressions_read_as_written(ts, 0, e, 100);
    if k == 0 {
        assert(ts =~= seq![TokView::Name(x)]);
    } else {
        assert(ts[0] == TokView::Name(f));
        assert(ts[1] == TokView::LParen);
    }
    law_other_pieces_are_evaluated(ts, line);
}

// ---- How the parts of a text make up its statements ----

/// A line without a token has no statement.
pub proof fn law_no_token_no_statement(line: Seq<char>)
    requires
        !line.contains('\n'),
        lex(line).len() == 0,
    ensures
        statements(line).len() == 0,
        pieces(Seq::empty()).len() == 0,
{
    law_statements_of_one_line(line);
    assert(lex(line) =~= Seq::empty());
    assert(pieces(Seq::empty()) =~= Seq::empty());
}

/// Parentheses are counted from token to token: an opening one adds one, a closing one takes
/// one away while there is any, no other token changes the number.
pub proof fn law_parentheses_are_counted(a: Seq<TokView>, b: Seq<TokView>, open: nat)
    ensures
        open_after(Seq::empty(), open) == open,
        open_after(a + b, open) == open_after(b, open_after(a, open)),
        open_after(seq![TokView::LParen], open) == open + 1,
        open_after(seq![TokView::RParen], open + 1) == open,
        open_after(seq![TokView::RParen], 0) == 0,
        a.len() == 1 && !(a[0] is LParen) && !(a[0] is RParen) ==> open_after(a, open) == open,
    decreases a.len(),
{
    let none = Seq::<TokView>::empty();
    let l = seq![TokView::LParen];
    let r = seq![TokView::RParen];
    assert(l.skip(1) =~= none);
    assert(r.skip(1) =~= none);
    assert(open_after(l, open) == open_after(none, open + 1));
    assert(open_after(r, open + 1) == open_after(none, open));
    assert(open_after(r, 0) == open_after(none, 0));
    if a.len() == 0 {
        assert(a + b =~= b);
    } else {
        assert((a + b).skip(1) =~= a.skip(1) + b);
        assert((a + b)[0] == a[0]);
        if a.len() == 1 {
            assert(a.skip(1) =~= none);
            assert(open_after(none, open) == open);
        }
        let next: nat = match a[0] {
            TokView::LParen => open + 1,
            TokView::RParen => if open == 0 {
                0
            } else {
                (open - 1) as nat
            },
            _ => open,
        };
        law_parentheses_are_counted(a.skip(1), b, next);
    }
}

proof fn lemma_lexed_flatten(ls: Seq<Seq<char>>, n: nat)
    requires
        n > 0,
    ensures
        Seq::new(n, |i: int| lex(ls[i])).flatten() == Seq::new(
            (n - 1) as nat,
            |i: int| lex(ls[i]),
        ).flatten() + lex(ls[n - 1]),
{
    let prior = Seq::new((n - 1) as nat, |i: int| lex(ls[i]));
    prior.lemma_flatten_push(lex(ls[n - 1]));
    assert(Seq::new(n, |i: int| lex(ls[i])) =~= prior.push(lex(ls[n - 1])));
}

/// The parentheses that are open after some lines are those that are open after all their
/// tokens.
pub proof fn law_balance_counts_all_tokens(ls: Seq<Seq<char>>, n: nat)
    ensures
        balance(ls, n) == open_after(Seq::new(n, |i: int| lex(ls[i])).flatten(), 0),
    decreases n,
{
    let all = Seq::new(n, |i: int| lex(ls[i])).flatten();
    if n == 0 {
        assert(all =~= Seq::empty());
    } else {
        let m = (n - 1) as nat;
        law_balance_counts_all_tokens(ls, m);
        lemma_lexed_flatten(ls, n);
        law_parentheses_are_counted(
            Seq::new(m, |i: int| lex(ls[i])).flatten(),
            lex(ls[n - 1]),
            0,
        );
    }
}

proof fn lemma_one_logical_line(ls: Seq<Seq<char>>, n: nat)
    requires
        0 < n <= ls.len(),
        forall|m: nat| 0 < m < n ==> #[trigger] balance(ls, m) > 0,
    ensures
        joined(ls, n) == Seq::new(n, |i: int| lex(ls[i])).flatten(),
        first_line(ls, n) == 1,
        line_statements(ls, (n - 1) as nat).len() == 0,
    decreases n,
{
    lemma_lexed_flatten(ls, n);
    if n == 1 {
        let none = Seq::new(0, |i: int| lex(ls[i]));
        assert(none.flatten() =~= Seq::empty());
        assert(none.flatten() + lex(ls[0]) =~= lex(ls[0]));
    } else {
        let m = (n - 1) as nat;
        lemma_one_logical_line(ls, m);
        assert(balance(ls, m) > 0);
    }
}

/// A text whose parentheses stay open from its first line to its last is one logical line: its
/// statements are those of all its tokens together, and stand on line one.
pub proof fn law_lines_with_open_parentheses_are_one(src: Seq<char>)
    requires
        text_lines(src).len() > 0,
        forall|m: nat| 0 < m < text_lines(src).len() ==> #[trigger] balance(text_lines(src), m) > 0,
    ensures
        ({
            let n = text_lines(src).len();
            let ts = Seq::new(n, |i: int| lex(text_lines(src)[i])).flatten();
            &&& statements(src).len() == pieces(ts).len()
            &&& forall|i: int|
                0 <= i < pieces(ts).len() ==> #[trigger] statements(src)[i] == statement(
                    pieces(ts)[i],
                    1,
                )
        }),
{
    let ls = text_lines(src);
    let n = ls.len();
    lemma_one_logical_line(ls, n);
    let own = piece_statements(joined(ls, n), 1);
    assert(line_statements(ls, n) =~= own);
}

/// A text of one line has the statements of its pieces, all on line one.
pub proof fn law_statements_of_one_line(line: Seq<char>)
    requires
        !line.contains('\n'),
    ensures
        statements(line).len() == pieces(lex(line)).len(),
        forall|i: int|
            0 <= i < statements(line).len() ==> #[trigger] statements(line)[i] == statement(
                pieces(lex(line))[i],
                1,
            ),
{
    law_last_line_needs_no_ending(line);
    let ls = text_lines(line);
    if line.len() > 0 {
        assert(ls[0] == line);
        assert(balance(ls, 0) == 0);
        assert(joined(ls, 1) == lex(line));
        assert(first_line(ls, 1) == 1);
        assert(line_statements(ls, 0) =~= Seq::empty());
        assert(line_statements(ls, 1) =~= piece_statements(lex(line), 1));
    } else {
        assert(lex(line) =~= Seq::empty());
        assert(pieces(lex(line)) =~= Seq::empty());
    }
}

/// A semicolon outside strings and comments separates statements: those on its two sides are
/// the ones that each side has on its own.
pub proof fn law_statements_around_a_semicolon(a: Seq<char>, b: Seq<char>)
    requires
        !a.contains('\n'),
        !b.contains('\n'),
        strings_close(a),
        comment_free(a),
    ensures
        statements(a + (seq![';'] + b)) == statements(a) + statements(b),
{
    let all = a + (seq![';'] + b);
    assert(!all.contains('\n')) by {
        if all.contains('\n') {
            let i = choose|i: int| 0 <= i < all.len() && all[i] == '\n';
            if i < a.len() {
                assert(a.contains(a[i]));
            } else if i > a.len() {
                assert(b.contains(b[i - a.len() - 1]));
            }
        }
    }
    law_semicolon_is_a_token(a, b);
    assert(lex(a) + (seq![TokView::Semi] + lex(b)) =~= lex(a) + seq![TokView::Semi] + lex(b));
    law_semicolon_separates(lex(a), lex(b));
    law_statements_of_one_line(all);
    law_statements_of_one_line(a);
    law_statements_of_one_line(b);
    assert(statements(all) =~= statements(a) + statements(b));
}

/// A line break inside parentheses is like a blank: the statements are those of the text with
/// a blank in its place.
pub proof fn law_line_break_in_parentheses_is_a_blank(a: Seq<char>, b: Seq<char>)
    requires
        !a.contains('\n'),
        !b.contains('\n'),
        a.len() > 0 ==> a.last() != '\r',
        strings_close(a),
        comment_free(a),
        open_after(lex(a), 0) > 0,
    ensures
        statements(a + (seq!['\n'] + b)) == statements(a + (seq![' '] + b)),
{
    let two = a + (seq!['\n'] + b);
    let one = a + (seq![' '] + b);
    assert(!one.contains('\n')) by {
        if one.contains('\n') {
            let i = choose|i: int| 0 <= i < one.len() && one[i] == '\n';
            if i < a.len() {
                assert(a.contains(a[i]));
            } else if i > a.len() {
                assert(b.contains(b[i - a.len() - 1]));
            }
        }
    }
    law_tokens_end_at_separators(a, seq![' '] + b);
    law_what_is_no_token(' ', b);
    law_statements_of_one_line(one);
    law_line_feed_ends_a_line(a, b);
    law_last_line_needs_no_ending(b);
    let ls = text_lines(two);
    let ts = lex(a) + lex(b);
    assert(ls[0] == a);
    assert(balance(ls, 0) == 0);
    assert(joined(ls, 1) == lex(a));
    assert(balance(ls, 1) > 0);
    assert(first_line(ls, 1) == 1);
    assert(line_statements(ls, 0) =~= Seq::empty());
    if b.len() > 0 {
        assert(ls =~= seq![a, b]);
        assert(line_statements(ls, 1) =~= Seq::empty());
        assert(joined(ls, 2) == ts);
        assert(first_line(ls, 2) == 1);
        assert(line_statements(ls, 2) =~= piece_statements(ts, 1));
    } else {
        assert(ls =~= seq![a]);
        assert(lex(b) =~= Seq::empty());
        assert(ts =~= lex(a));
        assert(line_statements(ls, 1) =~= piece_statements(ts, 1));
    }
    assert(statements(two) =~= statements(one));
}

/// A statement moved down by `n` lines.
pub open spec fn moved_down(s: StmtView, n: nat) -> StmtView {
    match s {
        StmtView::Assign { name, value, line } => StmtView::Assign { name, value, line: line + n },
        StmtView::Eval { value, line } => StmtView::Eval { value, line: line + n },
    }
}

proof fn lemma_below(a: Seq<Seq<char>>, b: Seq<Seq<char>>, m: nat)
    requires
        balance(a, a.len()) == 0,
        m <= b.len(),
    ensures
        balance(a + b, a.len() + m) == balance(b, m),
        m > 0 ==> joined(a + b, a.len() + m) == joined(b, m),
        m > 0 ==> first_line(a + b, a.len() + m) == a.len() + first_line(b, m),
    decreases m,
{
    if m == 0 {
        lemma_of_prefix(a, b, a.len());
    } else {
        lemma_below(a, b, (m - 1) as nat);
        assert((a + b)[a.len() + m - 1] == b[m - 1]);
        assert((a.len() + m - 1) as nat == a.len() + (m - 1) as nat);
    }
}

proof fn lemma_statements_below(a: Seq<Seq<char>>, b: Seq<Seq<char>>, m: nat)
    requires
        balance(a, a.len()) == 0,
        m <= b.len(),
    ensures
        line_statements(a + b, a.len() + m) == line_statements(a, a.len()) + line_statements(
            b,
            m,
        ).map_values(|s: StmtView| moved_down(s, a.len())),
    decreases m,
{
    let above = line_statements(a, a.len());
    let down = |s: StmtView| moved_down(s, a.len());
    if m == 0 {
        lemma_statements_of_prefix(a, b, a.len());
        assert(line_statements(b, 0).map_values(down) =~= Seq::empty());
        assert(above + line_statements(b, 0).map_values(down) =~= above);
    } else {
        let k = (m - 1) as nat;
        lemma_statements_below(a, b, k);
        lemma_below(a, b, m);
        let n = a.len() + m;
        assert((n - 1) as nat == a.len() + k);
        if ends_with_line(b, m) {
            let own = piece_statements(joined(b, m), first_line(b, m));
            let moved = piece_statements(joined(a + b, n), first_line(a + b, n));
            assert(moved =~= own.map_values(down));
            assert((line_statements(b, k) + own).map_values(down) =~= line_statements(
                b,
                k,
            ).map_values(down) + moved);
            assert(line_statements(a + b, n) =~= above + line_statements(b, m).map_values(down));
        }
    }
}

/// What stands below a text that closes its parentheses is read as a text of its own: its
/// statements follow those above, with their lines counted on.
pub proof fn law_statements_of_two_texts(above: Seq<char>, below: Seq<char>)
    requires
        above.len() > 0 ==> above.last() == '\n',
        balance(text_lines(above), text_lines(above).len()) == 0,
    ensures
        statements(above + below) == statements(above) + statements(below).map_values(
            |s: StmtView| moved_down(s, text_lines(above).len()),
        ),
{
    let a = text_lines(above);
    let b = text_lines(below);
    crate::text::law_lines_of_concatenation(above, below);
    lemma_statements_below(a, b, b.len());
}

} // verus!
