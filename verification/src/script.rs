//! What one more line does to a script: which variables it taints or clears, and which
//! findings it adds.
use vstd::prelude::*;

use crate::analysis::analysis;
use crate::finding::FindingView;
use crate::flow::{is_line_of, law_tainted_variables_are_flows, lemma_flow_starts};
use crate::grammar::{
    arg_tokens, expr_tokens, law_expressions_read_as_written, law_single_tokens, proper,
    term_tokens,
};
use crate::lexer::{
    law_equals_signs, law_lone_characters_are_tokens, law_names_are_tokens, lex, TokView,
};
use crate::parser::{expr_at, terms_at, ExprView, StmtView};
use crate::provenance::{
    law_calls_pass_taint_on, law_findings_of_calls, law_findings_of_parts,
    law_first_tainted_part_decides, law_one_more_statement, law_taint_of_names,
};
use crate::rules::{class_of, source_calls, source_names};
use crate::statements::{
    balance, keywords, law_name_and_equals_assign, law_no_semicolon_one_piece,
    law_other_pieces_are_evaluated, law_statements_in_line_order, law_statements_of_one_line,
    law_statements_of_two_texts, moved_down, statement, statements,
};
use crate::taint::{env_at, Env};
use crate::text::{law_last_line_needs_no_ending, law_line_feed_ends_a_line, text_lines};

verus! {

/// The variables that are tainted at the end of a script, with the lines that the data came
/// along.
pub open spec fn tainted_after(src: Seq<char>) -> Env {
    env_at(statements(src), statements(src).len())
}

/// Whether a text is one name: letters, digits, underscores and dots, and no digit in front.
pub open spec fn plain_name(s: Seq<char>) -> bool {
    &&& s.len() > 0
    &&& forall|i: int|
        0 <= i < s.len() ==> crate::text::is_alphanumeric(#[trigger] s[i]) || s[i] == '_' || s[i]
            == '.'
    &&& !('0' <= s[0] <= '9')
    &&& !crate::text::is_whitespace(s[0])
}

/// Whether a script ends with a line ending, or is empty, and closes its parentheses.
pub open spec fn complete(src: Seq<char>) -> bool {
    &&& src.len() > 0 ==> src.last() == '\n'
    &&& balance(text_lines(src), text_lines(src).len()) == 0
}

proof fn lemma_no_line_feed(s: Seq<char>)
    requires
        plain_name(s),
    ensures
        !s.contains('\n'),
        !s.contains('\r'),
{
    if s.contains('\n') {
        let i = choose|i: int| 0 <= i < s.len() && s[i] == '\n';
        assert(crate::text::is_alphanumeric(s[i]) || s[i] == '_' || s[i] == '.');
    }
    if s.contains('\r') {
        let i = choose|i: int| 0 <= i < s.len() && s[i] == '\r';
        assert(crate::text::is_alphanumeric(s[i]) || s[i] == '_' || s[i] == '.');
    }
}

proof fn lemma_contains_concat(a: Seq<char>, b: Seq<char>, c: char)
    ensures
        (a + b).contains(c) <==> a.contains(c) || b.contains(c),
{
    if a.contains(c) {
        let i = choose|i: int| 0 <= i < a.len() && a[i] == c;
        assert((a + b)[i] == c);
    }
    if b.contains(c) {
        let i = choose|i: int| 0 <= i < b.len() && b[i] == c;
        assert((a + b)[a.len() + i] == c);
    }
}

/// A line of one statement adds that statement.
proof fn lemma_one_statement(above: Seq<char>, line: Seq<char>, s: StmtView)
    requires
        complete(above),
        !line.contains('\n'),
        !line.contains('\r'),
        lex(line).len() > 0,
        forall|k: int| 0 <= k < lex(line).len() ==> !(#[trigger] lex(line)[k] is Semi),
        statement(lex(line), 1) == s,
    ensures
        statements(above + (line + seq!['\n'])) == statements(above).push(
            moved_down(s, text_lines(above).len()),
        ),
{
    let n = text_lines(above).len();
    let none = Seq::<char>::empty();
    let below = line + seq!['\n'];
    assert(line.len() > 0) by {
        if line.len() == 0 {
            assert(lex(line).len() == 0);
        }
    }
    assert(line.last() != '\r') by {
        assert(line.contains(line.last()));
    }
    assert(below =~= line + (seq!['\n'] + none));
    law_line_feed_ends_a_line(line, none);
    law_last_line_needs_no_ending(line);
    law_last_line_needs_no_ending(none);
    assert(text_lines(below) =~= seq![line]);
    assert(statements(below) == statements(line));
    law_statements_of_one_line(line);
    law_no_semicolon_one_piece(lex(line));
    assert(statements(below) =~= seq![s]);
    law_statements_of_two_texts(above, below);
    let down = |t: StmtView| moved_down(t, n);
    assert(seq![s].map_values(down) =~= seq![moved_down(s, n)]);
    assert(statements(above) + seq![moved_down(s, n)] =~= statements(above).push(
        moved_down(s, n),
    ));
}

/// A call line: the name of a function and a variable in parentheses.
pub open spec fn call_line(f: Seq<char>, x: Seq<char>) -> Seq<char> {
    f + (seq!['('] + (x + (seq![')'] + seq!['\n'])))
}

/// A line that gives a variable to a sink adds one finding if the variable is tainted, at the
/// end, and none if it is not. The finding has the class of the sink, and its path is the
/// lines that the data came along and then the line itself. No variable changes.
pub proof fn law_sink_line(above: Seq<char>, f: Seq<char>, x: Seq<char>)
    requires
        complete(above),
        plain_name(f),
        !keywords().contains(f),
        plain_name(x),
        !source_names().contains(x),
    ensures
        ({
            let after = above + call_line(f, x);
            let n = text_lines(above).len() + 1;
            &&& tainted_after(after) == tainted_after(above)
            &&& match class_of(f) {
                Some(vuln) => if tainted_after(above).contains_key(x) {
                    analysis(after) == analysis(above).push(
                        FindingView { vuln, path: tainted_after(above)[x].push(n) },
                    )
                } else {
                    analysis(after) == analysis(above)
                },
                None => analysis(after) == analysis(above),
            }
        }),
{
    let line = f + (seq!['('] + (x + seq![')']));
    let args = seq![ExprView::Name(x)];
    let call = ExprView::Call { name: f, args };
    let none = Seq::<char>::empty();
    lemma_no_line_feed(f);
    lemma_no_line_feed(x);
    lemma_contains_concat(x, seq![')'], '\n');
    lemma_contains_concat(x, seq![')'], '\r');
    lemma_contains_concat(seq!['('], x + seq![')'], '\n');
    lemma_contains_concat(seq!['('], x + seq![')'], '\r');
    lemma_contains_concat(f, seq!['('] + (x + seq![')']), '\n');
    lemma_contains_concat(f, seq!['('] + (x + seq![')']), '\r');
    law_names_are_tokens(f, seq!['('] + (x + seq![')']));
    law_lone_characters_are_tokens(x + seq![')']);
    law_names_are_tokens(x, seq![')']);
    law_lone_characters_are_tokens(none);
    assert(seq![')'] + none =~= seq![')']);
    assert(lex(none) =~= Seq::empty());
    let ts = lex(line);
    let want = seq![TokView::Name(f), TokView::LParen, TokView::Name(x), TokView::RParen];
    assert(ts =~= want);
    assert(arg_tokens(args) == expr_tokens(args[0]));
    assert(expr_tokens(args[0]) == term_tokens(args[0]));
    assert(expr_tokens(call) == term_tokens(call));
    assert(expr_tokens(call) =~= want);
    assert(proper(call)) by {
        assert(proper(args[0]));
    }
    crate::parser::lemma_exprs_nesting(args, 0);
    law_expressions_read_as_written(ts, 0, call, 100);
    law_other_pieces_are_evaluated(ts, 1);
    let s = StmtView::Eval { value: call, line: 1 };
    lemma_one_statement(above, line, s);
    assert(call_line(f, x) =~= line + seq!['\n']);
    let n = text_lines(above).len() + 1;
    let env = tainted_after(above);
    law_one_more_statement(statements(above), moved_down(s, text_lines(above).len()));
    law_findings_of_calls(f, args, env, n);
    law_findings_of_parts(ExprView::Name(x), Seq::empty(), x, env, n);
    law_first_tainted_part_decides(ExprView::Name(x), Seq::empty(), env, n);
    law_taint_of_names(x, env, n);
    assert(seq![ExprView::Name(x)] + Seq::<ExprView>::empty() =~= args);
    let after = above + call_line(f, x);
    if class_of(f) is Some && env.contains_key(x) {
        assert(analysis(after) =~= analysis(above).push(
            FindingView { vuln: class_of(f)->0, path: env[x].push(n) },
        ));
    } else {
        assert(analysis(after) =~= analysis(above));
    }
}

/// The lines that data came along are lines of the script.
proof fn lemma_lines_above(above: Seq<char>, x: Seq<char>)
    requires
        tainted_after(above).contains_key(x),
    ensures
        tainted_after(above)[x].len() > 0,
        tainted_after(above)[x].last() <= text_lines(above).len(),
{
    let stmts = statements(above);
    let chain = tainted_after(above)[x];
    law_tainted_variables_are_flows(stmts, stmts.len(), x);
    lemma_flow_starts(stmts, stmts.len(), x, chain);
    law_statements_in_line_order(above);
    assert(is_line_of(stmts, stmts.len(), chain[chain.len() - 1]));
}

/// A copy line: a variable, an equals sign and another variable.
pub open spec fn copy_line(y: Seq<char>, x: Seq<char>) -> Seq<char> {
    y + (seq!['='] + (x + seq!['\n']))
}

/// A line that copies a variable copies its taint: along the lines of the one, and then the
/// line itself. Copying a clean variable clears the other. It adds no finding, and changes no
/// other variable.
pub proof fn law_copy_line(above: Seq<char>, y: Seq<char>, x: Seq<char>)
    requires
        complete(above),
        plain_name(y),
        plain_name(x),
        !source_names().contains(x),
    ensures
        ({
            let after = above + copy_line(y, x);
            let env = tainted_after(above);
            let n = text_lines(above).len() + 1;
            &&& analysis(after) == analysis(above)
            &&& env.contains_key(x) ==> tainted_after(after) == env.insert(y, env[x].push(n))
            &&& !env.contains_key(x) ==> tainted_after(after) == env.remove(y)
        }),
{
    let line = y + (seq!['='] + x);
    let none = Seq::<char>::empty();
    lemma_no_line_feed(y);
    lemma_no_line_feed(x);
    lemma_contains_concat(seq!['='], x, '\n');
    lemma_contains_concat(seq!['='], x, '\r');
    lemma_contains_concat(y, seq!['='] + x, '\n');
    lemma_contains_concat(y, seq!['='] + x, '\r');
    law_names_are_tokens(y, seq!['='] + x);
    assert(crate::text::is_alphanumeric(x[0]) || x[0] == '_' || x[0] == '.');
    law_equals_signs(x);
    law_names_are_tokens(x, none);
    assert(x + none =~= x);
    assert(lex(none) =~= Seq::empty());
    let ts = lex(line);
    let value = seq![TokView::Name(x)];
    assert(lex(x) =~= value);
    assert(ts =~= seq![TokView::Name(y), TokView::Eq] + value);
    law_name_and_equals_assign(y, value, 1);
    law_single_tokens(value, 0, 100);
    assert(terms_at(value, 0, 100) == (seq![ExprView::Name(x)], 1nat));
    assert(expr_at(value, 0, 100).0 == ExprView::Name(x));
    let s = StmtView::Assign { name: y, value: ExprView::Name(x), line: 1 };
    lemma_one_statement(above, line, s);
    assert(copy_line(y, x) =~= line + seq!['\n']);
    let n = text_lines(above).len() + 1;
    let env = tainted_after(above);
    law_one_more_statement(statements(above), moved_down(s, text_lines(above).len()));
    law_findings_of_parts(ExprView::Lit, Seq::empty(), x, env, n);
    law_taint_of_names(x, env, n);
    if env.contains_key(x) {
        lemma_lines_above(above, x);
    }
    assert(analysis(above + copy_line(y, x)) =~= analysis(above));
}

/// A source line: a variable, an equals sign and a call without arguments.
pub open spec fn source_line(y: Seq<char>, g: Seq<char>) -> Seq<char> {
    y + (seq!['='] + (g + (seq!['(', ')'] + seq!['\n'])))
}

/// A line that sets a variable from a call of a source taints it: the data comes from this
/// line. It adds no finding, and changes no other variable. Where the call is no source, the
/// variable is cleared.
pub proof fn law_source_line(above: Seq<char>, y: Seq<char>, g: Seq<char>)
    requires
        complete(above),
        plain_name(y),
        plain_name(g),
    ensures
        ({
            let after = above + source_line(y, g);
            let env = tainted_after(above);
            let n = text_lines(above).len() + 1;
            &&& analysis(after) == analysis(above)
            &&& source_calls().contains(g) ==> tainted_after(after) == env.insert(y, seq![n])
            &&& !source_calls().contains(g) ==> tainted_after(after) == env.remove(y)
        }),
{
    let tail = g + seq!['(', ')'];
    let line = y + (seq!['='] + tail);
    let none = Seq::<char>::empty();
    let call = ExprView::Call { name: g, args: Seq::empty() };
    lemma_no_line_feed(y);
    lemma_no_line_feed(g);
    lemma_contains_concat(g, seq!['(', ')'], '\n');
    lemma_contains_concat(g, seq!['(', ')'], '\r');
    lemma_contains_concat(seq!['='], tail, '\n');
    lemma_contains_concat(seq!['='], tail, '\r');
    lemma_contains_concat(y, seq!['='] + tail, '\n');
    lemma_contains_concat(y, seq!['='] + tail, '\r');
    law_names_are_tokens(y, seq!['='] + tail);
    assert(tail[0] == g[0]);
    assert(crate::text::is_alphanumeric(g[0]) || g[0] == '_' || g[0] == '.');
    law_equals_signs(tail);
    law_names_are_tokens(g, seq!['(', ')']);
    assert(seq!['(', ')'] =~= seq!['('] + seq![')']);
    law_lone_characters_are_tokens(seq![')']);
    law_lone_characters_are_tokens(none);
    assert(seq![')'] + none =~= seq![')']);
    assert(lex(none) =~= Seq::empty());
    let value = seq![TokView::Name(g), TokView::LParen, TokView::RParen];
    assert(lex(tail) =~= value);
    let ts = lex(line);
    assert(ts =~= seq![TokView::Name(y), TokView::Eq] + value);
    law_name_and_equals_assign(y, value, 1);
    assert(arg_tokens(Seq::empty()) =~= Seq::empty());
    assert(expr_tokens(call) == term_tokens(call));
    assert(expr_tokens(call) =~= value);
    crate::parser::lemma_exprs_nesting(Seq::empty(), 0);
    law_expressions_read_as_written(value, 0, call, 100);
    let s = StmtView::Assign { name: y, value: call, line: 1 };
    lemma_one_statement(above, line, s);
    assert(source_line(y, g) =~= line + seq!['\n']);
    let n = text_lines(above).len() + 1;
    let env = tainted_after(above);
    law_one_more_statement(statements(above), moved_down(s, text_lines(above).len()));
    law_calls_pass_taint_on(g, ExprView::Lit, Seq::empty(), env, n);
    law_findings_of_calls(g, Seq::empty(), env, n);
    law_findings_of_parts(ExprView::Lit, Seq::empty(), g, env, n);
    law_first_tainted_part_decides(ExprView::Lit, Seq::empty(), env, n);
    crate::rules::law_sources(g);
    assert(analysis(above + source_line(y, g)) =~= analysis(above));
}

} // verus!
