//! How the provenance of data is built, one expression and one statement at a time, and which
//! findings come of it.
use vstd::prelude::*;

use crate::finding::FindingView;
use crate::flow::{brings, flows_to, last_set, law_tainted_variables_are_flows, sets};
use crate::parser::{ExprView, StmtView};
use crate::rules::{class_of, law_sources, source_calls, source_names};
use crate::taint::{
    call_findings, env_after, env_at, findings_of, first_taint, sinks_in, sinks_in_all, taint_of,
    Env,
};

verus! {

// ---- Expressions ----

/// A bare source starts a provenance on its line; any other name carries what its variable
/// does, and a literal nothing.
pub proof fn law_taint_of_names(n: Seq<char>, env: Env, line: nat)
    ensures
        n == "sys.argv"@ || n == "request.args"@ || n == "request.form"@ || n == "request.data"@
            || n == "request.values"@ ==> taint_of(ExprView::Name(n), env, line) == Some(
            seq![line],
        ),
        !source_names().contains(n) && env.contains_key(n) ==> taint_of(
            ExprView::Name(n),
            env,
            line,
        ) == Some(env[n]),
        !source_names().contains(n) && !env.contains_key(n) ==> taint_of(
            ExprView::Name(n),
            env,
            line,
        ) is None,
        taint_of(ExprView::Lit, env, line) is None,
{
    law_sources(n);
}

/// A concatenation carries what its first part does if that is tainted, and what the rest of
/// it does if not: every part counts, and the first tainted one decides.
pub proof fn law_first_tainted_part_decides(e: ExprView, rest: Seq<ExprView>, env: Env, line: nat)
    ensures
        taint_of(e, env, line) is Some ==> taint_of(
            ExprView::Concat(seq![e] + rest),
            env,
            line,
        ) == taint_of(e, env, line),
        taint_of(e, env, line) is None ==> taint_of(
            ExprView::Concat(seq![e] + rest),
            env,
            line,
        ) == taint_of(ExprView::Concat(rest), env, line),
        taint_of(ExprView::Concat(Seq::empty()), env, line) is None,
{
    let es = seq![e] + rest;
    assert(es[0] == e);
    assert(es.subrange(1, es.len() as int) =~= rest);
    assert(taint_of(ExprView::Concat(es), env, line) == first_taint(es, env, line));
    assert(taint_of(ExprView::Concat(rest), env, line) == first_taint(rest, env, line));
    assert(first_taint(Seq::empty(), env, line) is None);
}

/// A call of a source starts a provenance on its line. Any other call, whatever its name,
/// carries what a concatenation of its arguments does, and a method call what one of its
/// receiver and its arguments does.
pub proof fn law_calls_pass_taint_on(
    name: Seq<char>,
    receiver: ExprView,
    args: Seq<ExprView>,
    env: Env,
    line: nat,
)
    ensures
        name == "input"@ || name == "request.args.get"@ || name == "request.form.get"@ || name
            == "request.values.get"@ || name == "os.getenv"@ ==> taint_of(
            ExprView::Call { name, args },
            env,
            line,
        ) == Some(seq![line]),
        !source_calls().contains(name) ==> taint_of(ExprView::Call { name, args }, env, line)
            == taint_of(ExprView::Concat(args), env, line),
        taint_of(ExprView::Method { receiver: Box::new(receiver), name, args }, env, line)
            == taint_of(ExprView::Concat(seq![receiver] + args), env, line),
{
    law_sources(name);
    let es = seq![receiver] + args;
    assert(es[0] == receiver);
    assert(es.subrange(1, es.len() as int) =~= args);
    assert(taint_of(ExprView::Concat(es), env, line) == first_taint(es, env, line));
}

// ---- Findings of an expression ----

/// The findings of a concatenation are those of its first part and then those of the rest;
/// names and literals have none.
pub proof fn law_findings_of_parts(
    e: ExprView,
    rest: Seq<ExprView>,
    n: Seq<char>,
    env: Env,
    line: nat,
)
    ensures
        sinks_in(ExprView::Concat(seq![e] + rest), env, line) == sinks_in(e, env, line)
            + sinks_in(ExprView::Concat(rest), env, line),
        sinks_in(ExprView::Concat(Seq::empty()), env, line).len() == 0,
        sinks_in(ExprView::Name(n), env, line).len() == 0,
        sinks_in(ExprView::Lit, env, line).len() == 0,
{
    let es = seq![e] + rest;
    assert(es[0] == e);
    assert(es.subrange(1, es.len() as int) =~= rest);
    assert(sinks_in(ExprView::Concat(es), env, line) == sinks_in_all(es, env, line));
    assert(sinks_in(ExprView::Concat(rest), env, line) == sinks_in_all(rest, env, line));
    assert(sinks_in_all(Seq::empty(), env, line) =~= Seq::empty());
}

/// A call of a sink has one finding of its own if an argument is tainted, whichever it is: its
/// class, and the provenance of that argument with the line of the call behind it. The
/// findings of what stands in the call follow. No other call has one of its own.
pub proof fn law_findings_of_calls(name: Seq<char>, args: Seq<ExprView>, env: Env, line: nat)
    ensures
        ({
            let inner = sinks_in(ExprView::Concat(args), env, line);
            let found = sinks_in(ExprView::Call { name, args }, env, line);
            match (class_of(name), taint_of(ExprView::Concat(args), env, line)) {
                (Some(vuln), Some(chain)) => found == seq![
                    FindingView { vuln, path: chain.push(line) },
                ] + inner,
                _ => found == inner,
            }
        }),
{
    let inner = sinks_in_all(args, env, line);
    assert(Seq::<FindingView>::empty() + inner =~= inner);
}

/// A method call has the same finding of its own that a call has with these arguments, and
/// then those of its receiver and of its arguments.
pub proof fn law_findings_of_method_calls(
    receiver: ExprView,
    name: Seq<char>,
    args: Seq<ExprView>,
    env: Env,
    line: nat,
)
    ensures
        ({
            let inner = sinks_in(receiver, env, line) + sinks_in(
                ExprView::Concat(args),
                env,
                line,
            );
            let call = ExprView::Method { receiver: Box::new(receiver), name, args };
            match (class_of(name), taint_of(ExprView::Concat(args), env, line)) {
                (Some(vuln), Some(chain)) => sinks_in(call, env, line) == seq![
                    FindingView { vuln, path: chain.push(line) },
                ] + inner,
                _ => sinks_in(call, env, line) == inner,
            }
        }),
{
    let own = call_findings(name, args, env, line);
    let before = sinks_in(receiver, env, line);
    let inner = sinks_in_all(args, env, line);
    assert(own + before + inner =~= own + (before + inner));
    assert(Seq::<FindingView>::empty() + (before + inner) =~= before + inner);
}

// ---- Statements ----

/// An assignment of tainted data taints the variable: its provenance is that of the value with
/// the line of the assignment behind it, unless it ends with that line already. One of clean
/// data clears the variable. No other variable changes, and none by any other statement.
pub proof fn law_what_a_statement_does(
    x: Seq<char>,
    value: ExprView,
    line: nat,
    env: Env,
    y: Seq<char>,
)
    ensures
        ({
            let after = env_after(StmtView::Assign { name: x, value, line }, env);
            &&& match taint_of(value, env, line) {
                Some(came) => after.contains_key(x) && {
                    ||| came.len() > 0 && came.last() == line && after[x] == came
                    ||| !(came.len() > 0 && came.last() == line) && after[x] == came.push(line)
                },
                None => !after.contains_key(x),
            }
            &&& y != x ==> after.contains_key(y) == env.contains_key(y)
            &&& y != x && env.contains_key(y) ==> after[y] == env[y]
        }),
        env_after(StmtView::Eval { value, line }, env) == env,
{
}

/// What a statement evaluates, and where it stands, is what it was made of.
pub proof fn law_parts_of_a_statement(x: Seq<char>, value: ExprView, line: nat)
    ensures
        (StmtView::Assign { name: x, value, line }).expr() == value,
        (StmtView::Assign { name: x, value, line }).at_line() == line,
        (StmtView::Eval { value, line }).expr() == value,
        (StmtView::Eval { value, line }).at_line() == line,
{
}

/// Statements take effect one after the other. The findings of each, all of them, follow those
/// of the statements before it, and are judged by the variables that are tainted before it.
pub proof fn law_one_more_statement(stmts: Seq<StmtView>, s: StmtView)
    ensures
        env_at(Seq::empty(), 0).is_empty(),
        findings_of(Seq::empty(), 0).len() == 0,
        env_at(stmts.push(s), stmts.len() + 1) == env_after(s, env_at(stmts, stmts.len())),
        findings_of(stmts.push(s), stmts.len() + 1) == findings_of(stmts, stmts.len())
            + sinks_in(s.expr(), env_at(stmts, stmts.len()), s.at_line()),
{
    let all = stmts.push(s);
    crate::flow::law_analysis_goes_forward(stmts, all, stmts.len());
    assert(all[stmts.len() as int] == s);
}

// ---- Variables ----

/// The provenance of a variable ends on the line of the statement that last set it.
pub proof fn law_provenance_ends_where_the_variable_was_set(
    stmts: Seq<StmtView>,
    n: nat,
    x: Seq<char>,
    chain: Seq<nat>,
    j: int,
)
    requires
        flows_to(stmts, n, x, chain),
        0 <= j < n,
        stmts[j] matches StmtView::Assign { name, .. } && name == x,
        forall|k: int|
            j < k < n ==> !(#[trigger] stmts[k] matches StmtView::Assign { name, .. } && name
                == x),
    ensures
        chain.len() > 0,
        chain.last() == stmts[j].at_line(),
{
    let i = choose|i: int| #[trigger] last_set(stmts, i, n, x) && brings(stmts, i, chain);
    assert(sets(stmts[j], x));
    assert(sets(stmts[i], x));
    if i < j {
        assert(!sets(stmts[j], x));
    }
    if j < i {
        assert(!(stmts[i] matches StmtView::Assign { name, .. } && name == x));
    }
    assert(i == j);
}

/// The same of what the engine keeps: a tainted variable's lines end where it was last set.
pub proof fn law_kept_provenance_ends_where_the_variable_was_set(
    stmts: Seq<StmtView>,
    n: nat,
    x: Seq<char>,
    j: int,
)
    requires
        n <= stmts.len(),
        env_at(stmts, n).contains_key(x),
        0 <= j < n,
        stmts[j] matches StmtView::Assign { name, .. } && name == x,
        forall|k: int|
            j < k < n ==> !(#[trigger] stmts[k] matches StmtView::Assign { name, .. } && name
                == x),
    ensures
        env_at(stmts, n)[x].len() > 0,
        env_at(stmts, n)[x].last() == stmts[j].at_line(),
{
    law_tainted_variables_are_flows(stmts, n, x);
    law_provenance_ends_where_the_variable_was_set(stmts, n, x, env_at(stmts, n)[x], j);
}

/// Whether the first `n` statements hand data on from variable to variable: the first sets one
/// from a call of `source`, and each of the others sets one from that of the statement before
/// it, on a later line.
pub open spec fn handed_on(
    stmts: Seq<StmtView>,
    source: Seq<char>,
    names: Seq<Seq<char>>,
    n: nat,
) -> bool {
    &&& 0 < n <= stmts.len()
    &&& n <= names.len()
    &&& stmts[0] == (StmtView::Assign {
        name: names[0],
        value: ExprView::Call { name: source, args: Seq::empty() },
        line: stmts[0].at_line(),
    })
    &&& forall|i: int|
        0 < i < n ==> #[trigger] stmts[i] == (StmtView::Assign {
            name: names[i],
            value: ExprView::Name(names[i - 1]),
            line: stmts[i].at_line(),
        })
    &&& forall|i: int| 0 <= i < n ==> !source_names().contains(#[trigger] names[i])
    &&& forall|i: int, j: int|
        0 <= i < j < n ==> (#[trigger] stmts[i]).at_line() < (#[trigger] stmts[j]).at_line()
}

proof fn lemma_handed_on(
    stmts: Seq<StmtView>,
    source: Seq<char>,
    names: Seq<Seq<char>>,
    n: nat,
)
    requires
        handed_on(stmts, source, names, n),
        source_calls().contains(source),
    ensures
        env_at(stmts, n).contains_key(names[n - 1]),
        env_at(stmts, n)[names[n - 1]] == Seq::new(n, |i: int| stmts[i].at_line()),
        findings_of(stmts, n).len() == 0,
    decreases n,
{
    let s = stmts[n - 1];
    let m = (n - 1) as nat;
    let env = env_at(stmts, m);
    let lines = Seq::new(n, |i: int| stmts[i].at_line());
    assert(findings_of(stmts, 0).len() == 0);
    if n == 1 {
        assert(lines =~= seq![s.at_line()]);
        assert(first_taint(Seq::empty(), env, s.at_line()) is None);
        assert(sinks_in_all(Seq::empty(), env, s.at_line()).len() == 0);
        assert(sinks_in(s.expr(), env, s.at_line()).len() == 0);
    } else {
        lemma_handed_on(stmts, source, names, m);
        let prior = Seq::new(m, |i: int| stmts[i].at_line());
        assert(!source_names().contains(names[n - 2]));
        assert(stmts[n - 2].at_line() < stmts[n - 1].at_line());
        assert(prior.last() == stmts[n - 2].at_line());
        assert(lines =~= prior.push(s.at_line()));
        assert(sinks_in(s.expr(), env, s.at_line()).len() == 0);
    }
}

/// Every line that data passes is on the path. Where a call of a source sets a variable, the
/// data is handed on from variable to variable, and the last is given to a sink, there is one
/// finding, and its path is the lines of all these statements, none left out.
pub proof fn law_every_hop_is_on_the_path(
    stmts: Seq<StmtView>,
    source: Seq<char>,
    names: Seq<Seq<char>>,
    sink: Seq<char>,
    line: nat,
)
    requires
        source == "input"@ || source == "request.args.get"@ || source == "request.form.get"@
            || source == "request.values.get"@ || source == "os.getenv"@,
        handed_on(stmts, source, names, stmts.len()),
        class_of(sink) is Some,
    ensures
        findings_of(
            stmts.push(
                StmtView::Eval {
                    value: ExprView::Call {
                        name: sink,
                        args: seq![ExprView::Name(names[stmts.len() - 1])],
                    },
                    line,
                },
            ),
            stmts.len() + 1,
        ) == seq![
            FindingView {
                vuln: class_of(sink)->0,
                path: Seq::new(stmts.len(), |i: int| stmts[i].at_line()).push(line),
            },
        ],
{
    let n = stmts.len();
    let x = names[n - 1];
    let env = env_at(stmts, n);
    let args = seq![ExprView::Name(x)];
    let s = StmtView::Eval { value: ExprView::Call { name: sink, args }, line };
    law_sources(source);
    lemma_handed_on(stmts, source, names, n);
    law_one_more_statement(stmts, s);
    law_findings_of_calls(sink, args, env, line);
    law_findings_of_parts(ExprView::Name(x), Seq::empty(), x, env, line);
    law_first_tainted_part_decides(ExprView::Name(x), Seq::empty(), env, line);
    law_taint_of_names(x, env, line);
    assert(seq![ExprView::Name(x)] + Seq::<ExprView>::empty() =~= args);
    assert(!source_names().contains(names[n - 1]));
    let lines = Seq::new(n, |i: int| stmts[i].at_line());
    assert(findings_of(stmts.push(s), n + 1) =~= seq![
        FindingView { vuln: class_of(sink)->0, path: lines.push(line) },
    ]);
}

} // verus!
