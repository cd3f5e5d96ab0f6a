//! The taint engine: which expressions carry attacker-controlled data, along which lines
//! it came, and which sink calls it reaches.
use vstd::hash_map::StringHashMap;
use vstd::prelude::*;

use crate::finding::{finding_views, nats, Finding, FindingView};
use crate::parser::{expr_views, stmt_views, Expr, ExprView, Stmt, StmtView};
use crate::rules::{class_of, is_source_call, is_source_name, sink_class};

verus! {

// ---- The model ----

/// The tainted variables, each with its provenance: the lines from the source to the one
/// where the variable was set.
pub type Env = Map<Seq<char>, Seq<nat>>;

/// The provenance of the data that an expression on line `line` carries; none if it is
/// clean. A source starts a provenance on its line. A concatenation, and a call that is no
/// source, carries what the first of its tainted operands does; what a method is called on
/// is an operand, the first.
pub open spec fn taint_of(e: ExprView, env: Env, line: nat) -> Option<Seq<nat>>
    decreases e,
{
    match e {
        ExprView::Name(n) => if crate::rules::source_names().contains(n) {
            Some(seq![line])
        } else if env.contains_key(n) {
            Some(env[n])
        } else {
            None
        },
        ExprView::Lit => None,
        ExprView::Concat(parts) => first_taint(parts, env, line),
        ExprView::Call { name, args } => if crate::rules::source_calls().contains(name) {
            Some(seq![line])
        } else {
            first_taint(args, env, line)
        },
        ExprView::Method { receiver, name, args } => match taint_of(*receiver, env, line) {
            Some(chain) => Some(chain),
            None => first_taint(args, env, line),
        },
    }
}

/// The provenance of the first tainted expression.
pub open spec fn first_taint(es: Seq<ExprView>, env: Env, line: nat) -> Option<Seq<nat>>
    decreases es,
{
    if es.len() == 0 {
        None
    } else {
        match taint_of(es[0], env, line) {
            Some(chain) => Some(chain),
            None => first_taint(es.subrange(1, es.len() as int), env, line),
        }
    }
}

/// The finding of one call: it is a sink, and one of its arguments is tainted. The path is
/// the provenance of the first tainted argument, and then the line of the call. What a method
/// is called on is no argument of it.
pub open spec fn call_findings(name: Seq<char>, args: Seq<ExprView>, env: Env, line: nat) -> Seq<
    FindingView,
> {
    match (class_of(name), first_taint(args, env, line)) {
        (Some(vuln), Some(chain)) => seq![FindingView { vuln, path: chain.push(line) }],
        _ => Seq::empty(),
    }
}

/// The findings of every call in an expression: a call's own before those of its
/// operands, and these from left to right.
pub open spec fn sinks_in(e: ExprView, env: Env, line: nat) -> Seq<FindingView>
    decreases e,
{
    match e {
        ExprView::Call { name, args } => call_findings(name, args, env, line) + sinks_in_all(
            args,
            env,
            line,
        ),
        ExprView::Method { receiver, name, args } => call_findings(name, args, env, line)
            + sinks_in(*receiver, env, line) + sinks_in_all(args, env, line),
        ExprView::Concat(parts) => sinks_in_all(parts, env, line),
        _ => Seq::empty(),
    }
}

/// The findings of several expressions, from left to right.
pub open spec fn sinks_in_all(es: Seq<ExprView>, env: Env, line: nat) -> Seq<FindingView>
    decreases es,
{
    if es.len() == 0 {
        Seq::empty()
    } else {
        sinks_in(es[0], env, line) + sinks_in_all(es.subrange(1, es.len() as int), env, line)
    }
}

/// The provenance of a variable that is set on `line` from data with provenance `chain`.
pub open spec fn extended(chain: Seq<nat>, line: nat) -> Seq<nat> {
    if chain.len() > 0 && chain.last() == line {
        chain
    } else {
        chain.push(line)
    }
}

/// The tainted variables after a statement: an assignment taints its variable, or clears
/// it if the value is clean; no statement changes any other variable.
pub open spec fn env_after(s: StmtView, env: Env) -> Env {
    match s {
        StmtView::Assign { name, value, line } => match taint_of(value, env, line) {
            Some(chain) => env.insert(name, extended(chain, line)),
            None => env.remove(name),
        },
        StmtView::Eval { value, line } => env,
    }
}

/// The tainted variables after the first `n` statements.
pub open spec fn env_at(stmts: Seq<StmtView>, n: nat) -> Env
    decreases n,
{
    if n == 0 {
        Map::empty()
    } else {
        env_after(stmts[n - 1], env_at(stmts, (n - 1) as nat))
    }
}

/// The findings of the first `n` statements, each judged by the variables that are tainted
/// before it.
pub open spec fn findings_of(stmts: Seq<StmtView>, n: nat) -> Seq<FindingView>
    decreases n,
{
    if n == 0 {
        Seq::empty()
    } else {
        let s = stmts[n - 1];
        findings_of(stmts, (n - 1) as nat) + sinks_in(
            s.expr(),
            env_at(stmts, (n - 1) as nat),
            s.at_line(),
        )
    }
}

/// The tainted variables that a map holds.
pub open spec fn env_view(m: Map<Seq<char>, Vec<usize>>) -> Env {
    m.map_values(|v: Vec<usize>| nats(v@))
}

/// A provenance, if there is one, as natural numbers.
pub open spec fn chain_view(c: Option<Vec<usize>>) -> Option<Seq<nat>> {
    match c {
        Some(v) => Some(nats(v@)),
        None => None,
    }
}

// ---- The engine ----

/// If this expression is tainted, its provenance (source ... here).
pub fn expr_taint(e: &Expr, tainted: &StringHashMap<Vec<usize>>, line: usize) -> (r: Option<
    Vec<usize>,
>)
    ensures
        chain_view(r) == taint_of(e@, env_view(tainted@), line as nat),
    decreases e,
{
    match e {
        Expr::Name(n) => {
            if is_source_name(n.as_str()) {
                let chain = vec![line];
                assert(nats(chain@) =~= seq![line as nat]);
                Some(chain)
            } else {
                match tainted.get(n.as_str()) {
                    Some(chain) => {
                        let copy = chain.clone();
                        assert(copy@ =~= chain@);
                        Some(copy)
                    },
                    None => None,
                }
            }
        },
        Expr::Lit => None,
        Expr::Concat(parts) => first_tainted(parts, tainted, line),
        Expr::Call { name, args } => {
            if is_source_call(name.as_str()) {
                let chain = vec![line];
                assert(nats(chain@) =~= seq![line as nat]);
                Some(chain)
            } else {
                // A call that is no source passes taint through from a tainted argument.
                first_tainted(args, tainted, line)
            }
        },
        Expr::Method { receiver, name: _, args } => {
            let t = expr_taint(receiver, tainted, line);
            if t.is_some() {
                t
            } else {
                first_tainted(args, tainted, line)
            }
        },
    }
}

/// The provenance of the first tainted expression.
fn first_tainted(es: &Vec<Expr>, tainted: &StringHashMap<Vec<usize>>, line: usize) -> (r: Option<
    Vec<usize>,
>)
    ensures
        chain_view(r) == first_taint(expr_views(es@), env_view(tainted@), line as nat),
    decreases es,
{
    let ghost views = expr_views(es@);
    let ghost env = env_view(tainted@);
    let mut i: usize = 0;
    assert(views.subrange(0, views.len() as int) =~= views);
    while i < es.len()
        invariant
            i <= es@.len(),
            views == expr_views(es@),
            env == env_view(tainted@),
            first_taint(views, env, line as nat) == first_taint(
                views.subrange(i as int, views.len() as int),
                env,
                line as nat,
            ),
        decreases es@.len() - i,
    {
        let ghost rest = views.subrange(i as int, views.len() as int);
        assert(rest[0] == es@[i as int]@);
        assert(rest.subrange(1, rest.len() as int) =~= views.subrange(
            i + 1,
            views.len() as int,
        ));
        let t = expr_taint(&es[i], tainted, line);
        if t.is_some() {
            return t;
        }
        i += 1;
    }
    None
}

/// Records the finding of a call of `name`, if it is a sink and an argument is tainted.
fn find_call(
    name: &String,
    args: &Vec<Expr>,
    line: usize,
    tainted: &StringHashMap<Vec<usize>>,
    findings: &mut Vec<Finding>,
)
    ensures
        finding_views(final(findings)@) == finding_views(old(findings)@) + call_findings(
            name@,
            expr_views(args@),
            env_view(tainted@),
            line as nat,
        ),
{
    let ghost before = finding_views(findings@);
    if let Some(class) = sink_class(name.as_str()) {
        if let Some(chain) = first_tainted(args, tainted, line) {
            let mut path = chain;
            path.push(line);
            assert(nats(path@) =~= nats(chain@).push(line as nat));
            let f = Finding { vuln: class.to_owned(), path };
            let ghost list = findings@;
            findings.push(f);
            assert(finding_views(findings@) =~= finding_views(list).push(f@));
        }
    }
    assert(finding_views(findings@) =~= before + call_findings(
        name@,
        expr_views(args@),
        env_view(tainted@),
        line as nat,
    ));
}

/// Records a finding for every sink call in this expression that has a tainted argument.
pub fn find_sinks(
    e: &Expr,
    line: usize,
    tainted: &StringHashMap<Vec<usize>>,
    findings: &mut Vec<Finding>,
)
    ensures
        finding_views(final(findings)@) == finding_views(old(findings)@) + sinks_in(
            e@,
            env_view(tainted@),
            line as nat,
        ),
    decreases e,
{
    let ghost before = finding_views(findings@);
    let ghost env = env_view(tainted@);
    match e {
        Expr::Call { name, args } => {
            find_call(name, args, line, tainted, findings);
            find_all_sinks(args, line, tainted, findings);
            assert(finding_views(findings@) =~= before + sinks_in(e@, env, line as nat));
        },
        Expr::Method { receiver, name, args } => {
            find_call(name, args, line, tainted, findings);
            find_sinks(receiver, line, tainted, findings);
            find_all_sinks(args, line, tainted, findings);
            assert(finding_views(findings@) =~= before + sinks_in(e@, env, line as nat));
        },
        Expr::Concat(parts) => {
            find_all_sinks(parts, line, tainted, findings);
        },
        _ => {
            assert(before + Seq::<FindingView>::empty() =~= before);
        },
    }
}

/// Records the findings of several expressions, from left to right.
fn find_all_sinks(
    es: &Vec<Expr>,
    line: usize,
    tainted: &StringHashMap<Vec<usize>>,
    findings: &mut Vec<Finding>,
)
    ensures
        finding_views(final(findings)@) == finding_views(old(findings)@) + sinks_in_all(
            expr_views(es@),
            env_view(tainted@),
            line as nat,
        ),
    decreases es,
{
    let ghost before = finding_views(findings@);
    let ghost views = expr_views(es@);
    let ghost env = env_view(tainted@);
    let ghost all = sinks_in_all(views, env, line as nat);
    let mut i: usize = 0;
    assert(views.subrange(0, views.len() as int) =~= views);
    while i < es.len()
        invariant
            i <= es@.len(),
            views == expr_views(es@),
            env == env_view(tainted@),
            before + all == finding_views(findings@) + sinks_in_all(
                views.subrange(i as int, views.len() as int),
                env,
                line as nat,
            ),
        decreases es@.len() - i,
    {
        let ghost rest = views.subrange(i as int, views.len() as int);
        let ghost sofar = finding_views(findings@);
        let ghost tail = sinks_in_all(
            views.subrange(i + 1, views.len() as int),
            env,
            line as nat,
        );
        assert(rest[0] == es@[i as int]@);
        assert(rest.subrange(1, rest.len() as int) =~= views.subrange(
            i + 1,
            views.len() as int,
        ));
        find_sinks(&es[i], line, tainted, findings);
        assert(sofar + (sinks_in(rest[0], env, line as nat) + tail) =~= finding_views(findings@)
            + tail);
        i += 1;
    }
    assert(finding_views(findings@) + Seq::<FindingView>::empty() =~= finding_views(findings@));
}

/// Follows the taint through the statements and reports every sink it reaches.
pub fn run_taint(stmts: &[Stmt]) -> (r: Vec<Finding>)
    ensures
        finding_views(r@) == findings_of(stmt_views(stmts@), stmts@.len()),
{
    let mut tainted: StringHashMap<Vec<usize>> = StringHashMap::new();
    let mut findings: Vec<Finding> = Vec::new();
    let ghost views = stmt_views(stmts@);
    let mut i: usize = 0;
    assert(finding_views(findings@) =~= Seq::empty());
    assert(env_view(tainted@) =~= Map::empty());
    while i < stmts.len()
        invariant
            i <= stmts@.len(),
            views == stmt_views(stmts@),
            env_view(tainted@) == env_at(views, i as nat),
            finding_views(findings@) == findings_of(views, i as nat),
        decreases stmts@.len() - i,
    {
        let stmt = &stmts[i];
        assert(views[i as int] == stmt@);
        let ghost env = env_view(tainted@);
        let (value, line): (&Expr, usize) = match stmt {
            Stmt::Assign { value, line, .. } => (value, *line),
            Stmt::Eval { value, line } => (value, *line),
        };
        // Any tainted data that reaches a sink call in this statement is a finding.
        find_sinks(value, line, &tainted, &mut findings);
        // Then the assigned variable takes the taint of the value.
        if let Stmt::Assign { name, .. } = stmt {
            let ghost map = tainted@;
            match expr_taint(value, &tainted, line) {
                Some(chain) => {
                    let mut chain = chain;
                    let ghost came = chain@;
                    if chain.len() == 0 || chain[chain.len() - 1] != line {
                        chain.push(line);
                        assert(nats(chain@) =~= nats(came).push(line as nat));
                    }
                    assert(nats(chain@) == extended(nats(came), line as nat));
                    tainted.insert(name.clone(), chain);
                    assert(env_view(tainted@) =~= env.insert(name@, nats(chain@)));
                },
                None => {
                    tainted.remove(name.as_str());
                    assert(env_view(tainted@) =~= env.remove(name@));
                },
            }
        }
        assert(env_view(tainted@) == env_after(stmt@, env));
        i += 1;
    }
    findings
}

} // verus!
