//! What a finding means: a flow of data through the statements, from a source to a sink.
//!
//! The functions here say what it is for data to flow, without any reference to how the
//! engine computes it. The laws say that the engine reports the flows, all of them and
//! nothing else.
use vstd::prelude::*;

use crate::finding::FindingView;
use crate::lexer::lex;
use crate::parser::{expr_at, format_expr, ExprView, StmtView};
use crate::rules::class_of;
use crate::taint::{
    call_findings, env_after, env_at, extended, findings_of, first_taint, sinks_in, sinks_in_all,
    taint_of, Env,
};

verus! {

// ---- Expressions ----

/// Whether a source stands anywhere in an expression.
pub open spec fn holds_source(e: ExprView) -> bool
    decreases e,
{
    match e {
        ExprView::Name(n) => crate::rules::source_names().contains(n),
        ExprView::Lit => false,
        ExprView::Concat(parts) => exists|i: int|
            0 <= i < parts.len() && holds_source(#[trigger] parts[i]),
        ExprView::Call { name, args } => crate::rules::source_calls().contains(name) || exists|
            i: int,
        |
            0 <= i < args.len() && holds_source(#[trigger] args[i]),
        ExprView::Method { receiver, name, args } => holds_source(*receiver) || exists|i: int|
            0 <= i < args.len() && holds_source(#[trigger] args[i]),
    }
}

/// Whether variable `x` stands anywhere in an expression.
pub open spec fn reads(e: ExprView, x: Seq<char>) -> bool
    decreases e,
{
    match e {
        ExprView::Name(n) => n == x,
        ExprView::Lit => false,
        ExprView::Concat(parts) => exists|i: int|
            0 <= i < parts.len() && reads(#[trigger] parts[i], x),
        ExprView::Call { name, args } => exists|i: int|
            0 <= i < args.len() && reads(#[trigger] args[i], x),
        ExprView::Method { receiver, name, args } => reads(*receiver, x) || exists|i: int|
            0 <= i < args.len() && reads(#[trigger] args[i], x),
    }
}

/// Whether a call of `f` with arguments `actual` stands anywhere in an expression. What a
/// method is called on is no argument.
pub open spec fn calls(e: ExprView, f: Seq<char>, actual: Seq<ExprView>) -> bool
    decreases e,
{
    match e {
        ExprView::Name(n) => false,
        ExprView::Lit => false,
        ExprView::Concat(parts) => exists|i: int|
            0 <= i < parts.len() && calls(#[trigger] parts[i], f, actual),
        ExprView::Call { name, args } => (name == f && args == actual) || exists|i: int|
            0 <= i < args.len() && calls(#[trigger] args[i], f, actual),
        ExprView::Method { receiver, name, args } => (name == f && args == actual) || calls(
            *receiver,
            f,
            actual,
        ) || exists|i: int| 0 <= i < args.len() && calls(#[trigger] args[i], f, actual),
    }
}

// ---- Flows ----

/// Whether a statement sets variable `x`.
pub open spec fn sets(s: StmtView, x: Seq<char>) -> bool {
    s matches StmtView::Assign { name, .. } && name == x
}

/// Whether statement `j` is the last of the first `n` to set variable `x`.
pub open spec fn last_set(stmts: Seq<StmtView>, j: int, n: nat, x: Seq<char>) -> bool {
    &&& 0 <= j < n
    &&& sets(stmts[j], x)
    &&& forall|k: int| j < k < n ==> !sets(#[trigger] stmts[k], x)
}

/// Whether data from a source reaches variable `x`, as the first `n` statements leave it,
/// along the lines of `chain`: the statement that last set `x` brought it.
pub open spec fn flows_to(stmts: Seq<StmtView>, n: nat, x: Seq<char>, chain: Seq<nat>) -> bool
    decreases n, 0nat,
{
    exists|j: int| #[trigger] last_set(stmts, j, n, x) && brings(stmts, j, chain)
}

/// Whether the value that statement `j` evaluates carries data from a source, and `chain` is
/// the lines that the data came along and then the line of the statement, where it is not
/// the last of them already.
pub open spec fn brings(stmts: Seq<StmtView>, j: int, chain: Seq<nat>) -> bool
    decreases j as nat, 2nat,
{
    let e = stmts[j].expr();
    let line = stmts[j].at_line();
    ||| carries(stmts, j, e, chain) && chain == extended(chain, line)
    ||| carries(stmts, j, e, chain.drop_last()) && chain == extended(chain.drop_last(), line)
}

/// Whether expression `e`, evaluated by statement `k`, carries data that came from a source
/// along the lines of `chain`: the source stands in `e` itself, or `e` reads a variable
/// that the data had reached.
pub open spec fn carries(stmts: Seq<StmtView>, k: int, e: ExprView, chain: Seq<nat>) -> bool
    decreases k as nat, 1nat,
{
    ||| chain == seq![stmts[k].at_line()] && holds_source(e)
    ||| exists|y: Seq<char>| #[trigger] reads(e, y) && flows_to(stmts, k as nat, y, chain)
}

/// Whether statement `k` calls `f` with arguments `args`, one of which carries data that
/// came along `path`; the last line of `path` is the line of the call.
pub open spec fn reaches(
    stmts: Seq<StmtView>,
    k: int,
    f: Seq<char>,
    args: Seq<ExprView>,
    path: Seq<nat>,
) -> bool {
    &&& 0 <= k < stmts.len()
    &&& calls(stmts[k].expr(), f, args)
    &&& path.len() >= 2
    &&& path.last() == stmts[k].at_line()
    &&& exists|i: int|
        0 <= i < args.len() && #[trigger] carries(stmts, k, args[i], path.drop_last())
}

/// Whether no statement stands on an earlier line than the one before it.
pub open spec fn in_line_order(stmts: Seq<StmtView>) -> bool {
    forall|i: int, j: int|
        0 <= i < j < stmts.len() ==> #[trigger] stmts[i].at_line() <= #[trigger] stmts[j].at_line()
}

/// Whether each number is greater than the one before it.
pub open spec fn increasing(s: Seq<nat>) -> bool {
    forall|i: int, j: int| 0 <= i < j < s.len() ==> s[i] < s[j]
}

// ---- Operands ----

/// Whether `es` are the operands of `e`: the parts of a concatenation or the arguments of a
/// call, after what a method is called on.
pub open spec fn operands(e: ExprView, es: Seq<ExprView>) -> bool {
    match e {
        ExprView::Concat(parts) => parts == es,
        ExprView::Call { name, args } => args == es,
        ExprView::Method { receiver, name, args } => seq![*receiver] + args == es,
        _ => false,
    }
}

/// An operand is smaller than what it is an operand of.
proof fn lemma_operand_is_smaller(e: ExprView, es: Seq<ExprView>, i: int)
    requires
        operands(e, es),
        0 <= i < es.len(),
    ensures
        decreases_to!(e => es[i]),
{
    match e {
        ExprView::Concat(parts) => {
            assert(decreases_to!(e => parts[i]));
        },
        ExprView::Call { name, args } => {
            assert(decreases_to!(e => args[i]));
        },
        ExprView::Method { receiver, name, args } => {
            if i == 0 {
                assert(decreases_to!(e => *receiver));
                assert(es[i] == *receiver);
            } else {
                assert(decreases_to!(e => args[i - 1]));
                assert(es[i] == args[i - 1]);
            }
        },
        _ => {},
    }
}

proof fn lemma_reads_operand(e: ExprView, es: Seq<ExprView>, x: Seq<char>)
    requires
        operands(e, es),
    ensures
        reads(e, x) <==> exists|i: int| 0 <= i < es.len() && reads(#[trigger] es[i], x),
{
    match e {
        ExprView::Concat(parts) => {
            if reads(e, x) {
                let i = choose|i: int| 0 <= i < parts.len() && reads(#[trigger] parts[i], x);
                assert(reads(es[i], x));
            }
            if exists|i: int| 0 <= i < es.len() && reads(#[trigger] es[i], x) {
                let i = choose|i: int| 0 <= i < es.len() && reads(#[trigger] es[i], x);
                assert(reads(parts[i], x));
            }
        },
        ExprView::Call { name, args } => {
            if reads(e, x) {
                let i = choose|i: int| 0 <= i < args.len() && reads(#[trigger] args[i], x);
                assert(reads(es[i], x));
            }
            if exists|i: int| 0 <= i < es.len() && reads(#[trigger] es[i], x) {
                let i = choose|i: int| 0 <= i < es.len() && reads(#[trigger] es[i], x);
                assert(reads(args[i], x));
            }
        },
        ExprView::Method { receiver, name, args } => {
            assert(es[0] == *receiver);
            if reads(e, x) && !reads(*receiver, x) {
                let i = choose|i: int| 0 <= i < args.len() && reads(#[trigger] args[i], x);
                assert(es[i + 1] == args[i]);
            }
            if exists|i: int| 0 <= i < es.len() && reads(#[trigger] es[i], x) {
                let i = choose|i: int| 0 <= i < es.len() && reads(#[trigger] es[i], x);
                if i > 0 {
                    assert(reads(args[i - 1], x));
                }
            }
        },
        _ => {},
    }
}

proof fn lemma_source_operand(e: ExprView, es: Seq<ExprView>)
    requires
        operands(e, es),
        e matches ExprView::Call { name, .. } ==> !crate::rules::source_calls().contains(name),
    ensures
        holds_source(e) <==> exists|i: int| 0 <= i < es.len() && holds_source(#[trigger] es[i]),
{
    match e {
        ExprView::Concat(parts) => {
            if holds_source(e) {
                let i = choose|i: int| 0 <= i < parts.len() && holds_source(#[trigger] parts[i]);
                assert(holds_source(es[i]));
            }
            if exists|i: int| 0 <= i < es.len() && holds_source(#[trigger] es[i]) {
                let i = choose|i: int| 0 <= i < es.len() && holds_source(#[trigger] es[i]);
                assert(holds_source(parts[i]));
            }
        },
        ExprView::Call { name, args } => {
            if holds_source(e) {
                let i = choose|i: int| 0 <= i < args.len() && holds_source(#[trigger] args[i]);
                assert(holds_source(es[i]));
            }
            if exists|i: int| 0 <= i < es.len() && holds_source(#[trigger] es[i]) {
                let i = choose|i: int| 0 <= i < es.len() && holds_source(#[trigger] es[i]);
                assert(holds_source(args[i]));
            }
        },
        ExprView::Method { receiver, name, args } => {
            assert(es[0] == *receiver);
            if holds_source(e) && !holds_source(*receiver) {
                let i = choose|i: int| 0 <= i < args.len() && holds_source(#[trigger] args[i]);
                assert(es[i + 1] == args[i]);
            }
            if exists|i: int| 0 <= i < es.len() && holds_source(#[trigger] es[i]) {
                let i = choose|i: int| 0 <= i < es.len() && holds_source(#[trigger] es[i]);
                if i > 0 {
                    assert(holds_source(args[i - 1]));
                }
            }
        },
        _ => {},
    }
}

// ---- Taint of an expression ----

/// The first tainted expression of several decides; none is tainted if no one is.
proof fn lemma_first_taint(es: Seq<ExprView>, env: Env, line: nat)
    ensures
        match first_taint(es, env, line) {
            Some(chain) => exists|i: int|
                0 <= i < es.len() && #[trigger] taint_of(es[i], env, line) == Some(chain),
            None => forall|i: int|
                0 <= i < es.len() ==> #[trigger] taint_of(es[i], env, line) is None,
        },
    decreases es.len(),
{
    if es.len() > 0 {
        let rest = es.subrange(1, es.len() as int);
        lemma_first_taint(rest, env, line);
        match taint_of(es[0], env, line) {
            Some(chain) => {},
            None => {
                match first_taint(rest, env, line) {
                    Some(chain) => {
                        let i = choose|i: int|
                            0 <= i < rest.len() && #[trigger] taint_of(rest[i], env, line) == Some(
                                chain,
                            );
                        assert(rest[i] == es[i + 1]);
                    },
                    None => {
                        assert forall|i: int| 0 <= i < es.len() implies #[trigger] taint_of(
                            es[i],
                            env,
                            line,
                        ) is None by {
                            if i > 0 {
                                assert(rest[i - 1] == es[i]);
                            }
                        }
                    },
                }
            },
        }
    }
}

/// Taint passes through assignments, concatenations and calls alike: an expression is
/// tainted if and only if a source stands in it or it reads a tainted variable, however
/// deep in it, and its provenance is that of one of them.
pub proof fn law_taint_of_expression(e: ExprView, env: Env, line: nat)
    ensures
        taint_of(e, env, line) is Some <==> holds_source(e) || exists|x: Seq<char>| #[trigger]
            reads(e, x) && env.contains_key(x),
        taint_of(e, env, line) matches Some(chain) ==> {
            ||| chain == seq![line] && holds_source(e)
            ||| exists|x: Seq<char>| #[trigger]
                reads(e, x) && env.contains_key(x) && env[x] == chain
        },
    decreases e, 1nat,
{
    match e {
        ExprView::Name(n) => {
            assert(reads(e, n));
        },
        ExprView::Lit => {},
        ExprView::Concat(parts) => {
            lemma_taint_of_operands(e, parts, env, line);
        },
        ExprView::Call { name, args } => {
            if !crate::rules::source_calls().contains(name) {
                lemma_taint_of_operands(e, args, env, line);
            }
        },
        ExprView::Method { receiver, name, args } => {
            let es = seq![*receiver] + args;
            lemma_taint_of_operands(e, es, env, line);
            assert(es[0] == *receiver);
            assert(es.subrange(1, es.len() as int) =~= args);
        },
    }
}

proof fn lemma_taint_of_operands(e: ExprView, es: Seq<ExprView>, env: Env, line: nat)
    requires
        operands(e, es),
        e matches ExprView::Call { name, .. } ==> !crate::rules::source_calls().contains(name),
    ensures
        first_taint(es, env, line) is Some <==> holds_source(e) || exists|x: Seq<char>| #[trigger]
            reads(e, x) && env.contains_key(x),
        first_taint(es, env, line) matches Some(chain) ==> {
            ||| chain == seq![line] && holds_source(e)
            ||| exists|x: Seq<char>| #[trigger]
                reads(e, x) && env.contains_key(x) && env[x] == chain
        },
    decreases e, 0nat,
{
    lemma_first_taint(es, env, line);
    lemma_source_operand(e, es);
    assert forall|i: int| 0 <= i < es.len() implies {
        &&& #[trigger] taint_of(es[i], env, line) is Some <==> holds_source(es[i]) || exists|
            x: Seq<char>,
        | #[trigger]
            reads(es[i], x) && env.contains_key(x)
        &&& taint_of(es[i], env, line) matches Some(chain) ==> {
            ||| chain == seq![line] && holds_source(es[i])
            ||| exists|x: Seq<char>| #[trigger]
                reads(es[i], x) && env.contains_key(x) && env[x] == chain
        }
    } by {
        lemma_operand_is_smaller(e, es, i);
        law_taint_of_expression(es[i], env, line);
    }
    match first_taint(es, env, line) {
        Some(chain) => {
            let i = choose|i: int|
                0 <= i < es.len() && #[trigger] taint_of(es[i], env, line) == Some(chain);
            if chain == seq![line] && holds_source(es[i]) {
            } else {
                let x = choose|x: Seq<char>| #[trigger]
                    reads(es[i], x) && env.contains_key(x) && env[x] == chain;
                lemma_reads_operand(e, es, x);
            }
        },
        None => {
            if holds_source(e) {
                let i = choose|i: int| 0 <= i < es.len() && holds_source(#[trigger] es[i]);
                assert(taint_of(es[i], env, line) is Some);
            }
            assert forall|x: Seq<char>| #[trigger] reads(e, x) implies !env.contains_key(x) by {
                lemma_reads_operand(e, es, x);
                let i = choose|i: int| 0 <= i < es.len() && reads(#[trigger] es[i], x);
                assert(taint_of(es[i], env, line) is None);
            }
        },
    }
}

/// An f-string carries what stands between its braces: the sources there, and the variables.
pub proof fn law_format_strings_carry_their_interpolations(
    parts: Seq<Seq<char>>,
    depth: nat,
    i: int,
    x: Seq<char>,
)
    requires
        depth >= 2,
        0 <= i < parts.len(),
    ensures
        ({
            let part = expr_at(lex(parts[i]), 0, (depth - 2) as nat).0;
            let whole = format_expr(parts, depth);
            &&& holds_source(part) ==> holds_source(whole)
            &&& reads(part, x) ==> reads(whole, x)
        }),
{
    let part = expr_at(lex(parts[i]), 0, (depth - 2) as nat).0;
    let whole = format_expr(parts, depth);
    let es = whole->Concat_0;
    assert(es[i + 1] == part);
    lemma_source_operand(whole, es);
    lemma_reads_operand(whole, es, x);
}

/// A method call carries what it is called on, as it carries its arguments.
pub proof fn law_method_calls_carry_their_receiver(
    receiver: ExprView,
    method: Seq<char>,
    args: Seq<ExprView>,
    x: Seq<char>,
)
    ensures
        ({
            let call = ExprView::Method { receiver: Box::new(receiver), name: method, args };
            &&& holds_source(receiver) ==> holds_source(call)
            &&& reads(receiver, x) ==> reads(call, x)
        }),
{
}

/// What a method is called on is no argument of it: where the arguments are clean, a call has
/// no finding but those of the calls that stand in it.
pub proof fn law_receiver_alone_is_no_finding(
    receiver: ExprView,
    method: Seq<char>,
    args: Seq<ExprView>,
    env: Env,
    line: nat,
)
    requires
        forall|i: int| 0 <= i < args.len() ==> #[trigger] taint_of(args[i], env, line) is None,
    ensures
        sinks_in(
            ExprView::Method { receiver: Box::new(receiver), name: method, args },
            env,
            line,
        ) == sinks_in(receiver, env, line) + sinks_in_all(args, env, line),
{
    lemma_first_taint(args, env, line);
    assert(Seq::<FindingView>::empty() + sinks_in(receiver, env, line) =~= sinks_in(
        receiver,
        env,
        line,
    ));
}

// ---- Tainted variables ----

/// A statement that does not set `x` leaves its taint as it was.
pub proof fn law_other_variables_keep_their_taint(s: StmtView, env: Env, x: Seq<char>)
    requires
        !sets(s, x),
    ensures
        env_after(s, env).contains_key(x) == env.contains_key(x),
        env.contains_key(x) ==> env_after(s, env)[x] == env[x],
{
}

/// Reassigning clean clears taint: after an assignment the variable is tainted if and only
/// if the value holds a source or reads a variable that was tainted before.
pub proof fn law_assignment_decides_taint(x: Seq<char>, value: ExprView, line: nat, env: Env)
    ensures
        env_after(StmtView::Assign { name: x, value, line }, env).contains_key(x) <==> holds_source(
            value,
        ) || exists|y: Seq<char>| #[trigger] reads(value, y) && env.contains_key(y),
{
    law_taint_of_expression(value, env, line);
}

proof fn lemma_unset_keeps(stmts: Seq<StmtView>, m: nat, n: nat, x: Seq<char>)
    requires
        m <= n,
        forall|k: int| m <= k < n ==> !sets(#[trigger] stmts[k], x),
    ensures
        env_at(stmts, n).contains_key(x) == env_at(stmts, m).contains_key(x),
    decreases n,
{
    if m < n {
        lemma_unset_keeps(stmts, m, (n - 1) as nat, x);
        assert(!sets(stmts[n - 1], x));
    }
}

/// A flow into a variable that no further statement sets stays.
proof fn lemma_flow_stays(stmts: Seq<StmtView>, n: nat, x: Seq<char>, chain: Seq<nat>)
    requires
        flows_to(stmts, n, x, chain),
        !sets(stmts[n as int], x),
    ensures
        flows_to(stmts, n + 1, x, chain),
{
    let j = choose|j: int| #[trigger] last_set(stmts, j, n, x) && brings(stmts, j, chain);
    assert(last_set(stmts, j, n + 1, x));
}

/// The provenance of a tainted variable is a flow into it.
proof fn lemma_env_flows(stmts: Seq<StmtView>, n: nat, x: Seq<char>)
    requires
        n <= stmts.len(),
        env_at(stmts, n).contains_key(x),
    ensures
        flows_to(stmts, n, x, env_at(stmts, n)[x]),
    decreases n,
{
    let m = (n - 1) as nat;
    let s = stmts[m as int];
    let env = env_at(stmts, m);
    if sets(s, x) {
        let line = s.at_line();
        let came = taint_of(s.expr(), env, line)->0;
        let chain = extended(came, line);
        law_taint_of_expression(s.expr(), env, line);
        assert(last_set(stmts, m as int, n, x));
        if came == seq![line] && holds_source(s.expr()) {
        } else {
            let y = choose|y: Seq<char>| #[trigger]
                reads(s.expr(), y) && env.contains_key(y) && env[y] == came;
            lemma_env_flows(stmts, m, y);
            assert(reads(s.expr(), y) && flows_to(stmts, m, y, came));
        }
        assert(carries(stmts, m as int, s.expr(), came));
        if chain != came {
            assert(chain.drop_last() =~= came);
        }
        assert(brings(stmts, m as int, chain));
    } else {
        lemma_env_flows(stmts, m, x);
        lemma_flow_stays(stmts, m, x, env_at(stmts, m)[x]);
    }
}

/// An expression that carries data from a source is tainted.
proof fn lemma_carrier_is_tainted(stmts: Seq<StmtView>, k: int, e: ExprView, chain: Seq<nat>)
    requires
        0 <= k <= stmts.len(),
        carries(stmts, k, e, chain),
    ensures
        taint_of(e, env_at(stmts, k as nat), stmts[k].at_line()) is Some,
    decreases k, 1nat,
{
    let env = env_at(stmts, k as nat);
    law_taint_of_expression(e, env, stmts[k].at_line());
    if !holds_source(e) {
        let y = choose|y: Seq<char>| #[trigger]
            reads(e, y) && flows_to(stmts, k as nat, y, chain);
        lemma_flow_taints(stmts, k as nat, y, chain);
        assert(reads(e, y) && env.contains_key(y));
    }
}

/// A flow into a variable taints it.
proof fn lemma_flow_taints(stmts: Seq<StmtView>, n: nat, x: Seq<char>, chain: Seq<nat>)
    requires
        n <= stmts.len(),
        flows_to(stmts, n, x, chain),
    ensures
        env_at(stmts, n).contains_key(x),
    decreases n, 0nat,
{
    let j = choose|j: int| #[trigger] last_set(stmts, j, n, x) && brings(stmts, j, chain);
    let s = stmts[j];
    if carries(stmts, j, s.expr(), chain) {
        lemma_carrier_is_tainted(stmts, j, s.expr(), chain);
    } else {
        lemma_carrier_is_tainted(stmts, j, s.expr(), chain.drop_last());
    }
    assert(env_at(stmts, (j + 1) as nat).contains_key(x));
    lemma_unset_keeps(stmts, (j + 1) as nat, n, x);
}

/// A variable is tainted if and only if data from a source flows to it, and its provenance
/// is such a flow.
pub proof fn law_tainted_variables_are_flows(stmts: Seq<StmtView>, n: nat, x: Seq<char>)
    requires
        n <= stmts.len(),
    ensures
        env_at(stmts, n).contains_key(x) <==> exists|chain: Seq<nat>|
            flows_to(stmts, n, x, chain),
        env_at(stmts, n).contains_key(x) ==> flows_to(stmts, n, x, env_at(stmts, n)[x]),
{
    if env_at(stmts, n).contains_key(x) {
        lemma_env_flows(stmts, n, x);
    }
    if exists|chain: Seq<nat>| flows_to(stmts, n, x, chain) {
        let chain = choose|chain: Seq<nat>| flows_to(stmts, n, x, chain);
        lemma_flow_taints(stmts, n, x, chain);
    }
}

// ---- Sinks ----

/// Whether `f` is the finding of a call of `name` with arguments `args`.
spec fn found_by(
    f: FindingView,
    name: Seq<char>,
    args: Seq<ExprView>,
    env: Env,
    line: nat,
) -> bool {
    &&& class_of(name) == Some(f.vuln)
    &&& first_taint(args, env, line) matches Some(chain) && f.path == chain.push(line)
}

/// Whether an expression is a call of `f` with arguments `a`.
spec fn is_call(e: ExprView, f: Seq<char>, a: Seq<ExprView>) -> bool {
    match e {
        ExprView::Call { name, args } => name == f && args == a,
        ExprView::Method { receiver, name, args } => name == f && args == a,
        _ => false,
    }
}

proof fn lemma_calls_operand(e: ExprView, es: Seq<ExprView>, f: Seq<char>, a: Seq<ExprView>)
    requires
        operands(e, es),
    ensures
        calls(e, f, a) <==> is_call(e, f, a) || exists|i: int|
            0 <= i < es.len() && calls(#[trigger] es[i], f, a),
{
    match e {
        ExprView::Concat(parts) => {
            if calls(e, f, a) {
                let i = choose|i: int| 0 <= i < parts.len() && calls(#[trigger] parts[i], f, a);
                assert(calls(es[i], f, a));
            }
            if exists|i: int| 0 <= i < es.len() && calls(#[trigger] es[i], f, a) {
                let i = choose|i: int| 0 <= i < es.len() && calls(#[trigger] es[i], f, a);
                assert(calls(parts[i], f, a));
            }
        },
        ExprView::Call { name, args } => {
            if calls(e, f, a) && !(name == f && args == a) {
                let i = choose|i: int| 0 <= i < args.len() && calls(#[trigger] args[i], f, a);
                assert(calls(es[i], f, a));
            }
            if exists|i: int| 0 <= i < es.len() && calls(#[trigger] es[i], f, a) {
                let i = choose|i: int| 0 <= i < es.len() && calls(#[trigger] es[i], f, a);
                assert(calls(args[i], f, a));
            }
        },
        ExprView::Method { receiver, name, args } => {
            assert(es[0] == *receiver);
            if calls(e, f, a) && !(name == f && args == a) && !calls(*receiver, f, a) {
                let i = choose|i: int| 0 <= i < args.len() && calls(#[trigger] args[i], f, a);
                assert(es[i + 1] == args[i]);
            }
            if exists|i: int| 0 <= i < es.len() && calls(#[trigger] es[i], f, a) {
                let i = choose|i: int| 0 <= i < es.len() && calls(#[trigger] es[i], f, a);
                if i > 0 {
                    assert(calls(args[i - 1], f, a));
                }
            }
        },
        _ => {},
    }
}

proof fn lemma_contains_concat(a: Seq<FindingView>, b: Seq<FindingView>, f: FindingView)
    ensures
        (a + b).contains(f) <==> a.contains(f) || b.contains(f),
{
    if a.contains(f) {
        let i = choose|i: int| 0 <= i < a.len() && a[i] == f;
        assert((a + b)[i] == f);
    }
    if b.contains(f) {
        let i = choose|i: int| 0 <= i < b.len() && b[i] == f;
        assert((a + b)[a.len() + i] == f);
    }
}

proof fn lemma_sinks_in_all(es: Seq<ExprView>, env: Env, line: nat, f: FindingView)
    ensures
        sinks_in_all(es, env, line).contains(f) <==> exists|i: int|
            0 <= i < es.len() && sinks_in(#[trigger] es[i], env, line).contains(f),
    decreases es.len(),
{
    if es.len() > 0 {
        let rest = es.subrange(1, es.len() as int);
        lemma_sinks_in_all(rest, env, line, f);
        lemma_contains_concat(sinks_in(es[0], env, line), sinks_in_all(rest, env, line), f);
        if sinks_in_all(rest, env, line).contains(f) {
            let i = choose|i: int|
                0 <= i < rest.len() && sinks_in(#[trigger] rest[i], env, line).contains(f);
            assert(es[i + 1] == rest[i]);
        }
        if exists|i: int| 0 <= i < es.len() && sinks_in(#[trigger] es[i], env, line).contains(f) {
            let i = choose|i: int|
                0 <= i < es.len() && sinks_in(#[trigger] es[i], env, line).contains(f);
            if i > 0 {
                assert(rest[i - 1] == es[i]);
            }
        }
    }
}

proof fn lemma_sinks_of_operands(
    e: ExprView,
    es: Seq<ExprView>,
    env: Env,
    line: nat,
    f: FindingView,
)
    requires
        operands(e, es),
    ensures
        sinks_in_all(es, env, line).contains(f) <==> exists|
            i: int,
            name: Seq<char>,
            args: Seq<ExprView>,
        |
            0 <= i < es.len() && #[trigger] calls(es[i], name, args) && found_by(
                f,
                name,
                args,
                env,
                line,
            ),
    decreases e, 0nat,
{
    lemma_sinks_in_all(es, env, line, f);
    if sinks_in_all(es, env, line).contains(f) {
        let i = choose|i: int|
            0 <= i < es.len() && sinks_in(#[trigger] es[i], env, line).contains(f);
        lemma_operand_is_smaller(e, es, i);
        lemma_sinks_in(es[i], env, line, f);
        let (name, args) = choose|name: Seq<char>, args: Seq<ExprView>| #[trigger]
            calls(es[i], name, args) && found_by(f, name, args, env, line);
        assert(calls(es[i], name, args));
    }
    if exists|i: int, name: Seq<char>, args: Seq<ExprView>|
        0 <= i < es.len() && #[trigger] calls(es[i], name, args) && found_by(
            f,
            name,
            args,
            env,
            line,
        ) {
        let (i, name, args) = choose|i: int, name: Seq<char>, args: Seq<ExprView>|
            0 <= i < es.len() && #[trigger] calls(es[i], name, args) && found_by(
                f,
                name,
                args,
                env,
                line,
            );
        lemma_operand_is_smaller(e, es, i);
        lemma_sinks_in(es[i], env, line, f);
    }
}

/// The finding of a call itself.
proof fn lemma_own_finding(
    name: Seq<char>,
    args: Seq<ExprView>,
    env: Env,
    line: nat,
    f: FindingView,
)
    ensures
        call_findings(name, args, env, line).contains(f) <==> found_by(f, name, args, env, line),
{
    let own = call_findings(name, args, env, line);
    if own.contains(f) {
        assert(own[0] == f);
    }
    if found_by(f, name, args, env, line) {
        assert(own[0] =~= f);
        assert(own.contains(f));
    }
}

/// The findings of an expression are those of the calls that stand in it.
proof fn lemma_sinks_in(e: ExprView, env: Env, line: nat, f: FindingView)
    ensures
        sinks_in(e, env, line).contains(f) <==> exists|name: Seq<char>, args: Seq<ExprView>|
            #[trigger]
            calls(e, name, args) && found_by(f, name, args, env, line),
    decreases e, 1nat,
{
    match e {
        ExprView::Concat(parts) => {
            lemma_sinks_of_operands(e, parts, env, line, f);
            lemma_calls_of_operands(e, parts, env, line, f);
        },
        ExprView::Call { name, args } => {
            let own = call_findings(name, args, env, line);
            lemma_contains_concat(own, sinks_in_all(args, env, line), f);
            lemma_sinks_of_operands(e, args, env, line, f);
            lemma_calls_of_operands(e, args, env, line, f);
            lemma_own_finding(name, args, env, line, f);
            assert(is_call(e, name, args));
        },
        ExprView::Method { receiver, name, args } => {
            let es = seq![*receiver] + args;
            let own = call_findings(name, args, env, line);
            let inner = sinks_in(*receiver, env, line) + sinks_in_all(args, env, line);
            assert(es[0] == *receiver);
            assert(es.subrange(1, es.len() as int) =~= args);
            assert(sinks_in_all(es, env, line) == inner);
            assert(sinks_in(e, env, line) =~= own + inner);
            lemma_contains_concat(own, inner, f);
            lemma_sinks_of_operands(e, es, env, line, f);
            lemma_calls_of_operands(e, es, env, line, f);
            lemma_own_finding(name, args, env, line, f);
            assert(is_call(e, name, args));
        },
        _ => {},
    }
}

/// The calls that stand in an expression are the expression itself and those in its
/// operands.
proof fn lemma_calls_of_operands(
    e: ExprView,
    es: Seq<ExprView>,
    env: Env,
    line: nat,
    f: FindingView,
)
    requires
        operands(e, es),
    ensures
        (exists|name: Seq<char>, args: Seq<ExprView>| #[trigger]
            calls(e, name, args) && found_by(f, name, args, env, line)) <==> {
            ||| exists|name: Seq<char>, args: Seq<ExprView>| #[trigger]
                is_call(e, name, args) && found_by(f, name, args, env, line)
            ||| exists|i: int, name: Seq<char>, args: Seq<ExprView>|
                0 <= i < es.len() && #[trigger] calls(es[i], name, args) && found_by(
                    f,
                    name,
                    args,
                    env,
                    line,
                )
        },
{
    assert forall|name: Seq<char>, args: Seq<ExprView>| #[trigger]
        calls(e, name, args) && found_by(f, name, args, env, line) implies is_call(
        e,
        name,
        args,
    ) || exists|i: int|
        0 <= i < es.len() && #[trigger] calls(es[i], name, args) && found_by(
            f,
            name,
            args,
            env,
            line,
        ) by {
        lemma_calls_operand(e, es, name, args);
        if !is_call(e, name, args) {
            let i = choose|i: int| 0 <= i < es.len() && calls(#[trigger] es[i], name, args);
            assert(calls(es[i], name, args));
        }
    }
    assert forall|i: int, name: Seq<char>, args: Seq<ExprView>|
        0 <= i < es.len() && #[trigger] calls(es[i], name, args) implies calls(e, name, args) by {
        lemma_calls_operand(e, es, name, args);
        assert(calls(es[i], name, args));
    }
    assert forall|name: Seq<char>, args: Seq<ExprView>| #[trigger]
        is_call(e, name, args) implies calls(e, name, args) by {
        lemma_calls_operand(e, es, name, args);
    }
}

/// The findings of the first `n` statements are those of each of them.
proof fn lemma_findings_of(stmts: Seq<StmtView>, n: nat, f: FindingView)
    ensures
        findings_of(stmts, n).contains(f) <==> exists|k: int|
            0 <= k < n && sinks_in(
                (#[trigger] stmts[k]).expr(),
                env_at(stmts, k as nat),
                stmts[k].at_line(),
            ).contains(f),
    decreases n,
{
    if n > 0 {
        let m = (n - 1) as nat;
        let s = stmts[m as int];
        lemma_findings_of(stmts, m, f);
        lemma_contains_concat(
            findings_of(stmts, m),
            sinks_in(s.expr(), env_at(stmts, m), s.at_line()),
            f,
        );
    }
}

/// The finding of a sink call in statement `k` is a flow that reaches the call.
proof fn lemma_found_reaches(
    stmts: Seq<StmtView>,
    k: int,
    name: Seq<char>,
    args: Seq<ExprView>,
    f: FindingView,
)
    requires
        0 <= k < stmts.len(),
        calls(stmts[k].expr(), name, args),
        found_by(f, name, args, env_at(stmts, k as nat), stmts[k].at_line()),
    ensures
        reaches(stmts, k, name, args, f.path),
{
    let env = env_at(stmts, k as nat);
    let line = stmts[k].at_line();
    let chain = first_taint(args, env, line)->0;
    lemma_first_taint(args, env, line);
    let i = choose|i: int|
        0 <= i < args.len() && #[trigger] taint_of(args[i], env, line) == Some(chain);
    law_taint_of_expression(args[i], env, line);
    assert(f.path.drop_last() =~= chain);
    if chain == seq![line] && holds_source(args[i]) {
    } else {
        let x = choose|x: Seq<char>| #[trigger]
            reads(args[i], x) && env.contains_key(x) && env[x] == chain;
        law_tainted_variables_are_flows(stmts, k as nat, x);
        assert(reads(args[i], x) && flows_to(stmts, k as nat, x, chain));
    }
    assert(carries(stmts, k, args[i], chain));
}

/// No false path: every finding names the class of a sink call that data from a source
/// reaches along exactly the lines of its path.
pub proof fn law_every_finding_is_a_flow(stmts: Seq<StmtView>, f: FindingView)
    requires
        findings_of(stmts, stmts.len()).contains(f),
    ensures
        exists|k: int, name: Seq<char>, args: Seq<ExprView>| #[trigger]
            reaches(stmts, k, name, args, f.path) && class_of(name) == Some(f.vuln),
{
    lemma_findings_of(stmts, stmts.len(), f);
    let k = choose|k: int|
        0 <= k < stmts.len() && sinks_in(
            (#[trigger] stmts[k]).expr(),
            env_at(stmts, k as nat),
            stmts[k].at_line(),
        ).contains(f);
    let env = env_at(stmts, k as nat);
    let line = stmts[k].at_line();
    lemma_sinks_in(stmts[k].expr(), env, line, f);
    let (name, args) = choose|name: Seq<char>, args: Seq<ExprView>| #[trigger]
        calls(stmts[k].expr(), name, args) && found_by(f, name, args, env, line);
    lemma_found_reaches(stmts, k, name, args, f);
}

/// No missed path: if data from a source reaches a sink call, there is a finding of that
/// class whose path is a flow that reaches the same call.
pub proof fn law_every_flow_is_found(
    stmts: Seq<StmtView>,
    k: int,
    name: Seq<char>,
    args: Seq<ExprView>,
    path: Seq<nat>,
)
    requires
        reaches(stmts, k, name, args, path),
        class_of(name) is Some,
    ensures
        exists|f: FindingView| #[trigger]
            findings_of(stmts, stmts.len()).contains(f) && class_of(name) == Some(f.vuln)
                && reaches(stmts, k, name, args, f.path),
{
    let env = env_at(stmts, k as nat);
    let line = stmts[k].at_line();
    let chain = path.drop_last();
    let i = choose|i: int| 0 <= i < args.len() && #[trigger] carries(stmts, k, args[i], chain);
    law_taint_of_expression(args[i], env, line);
    if !holds_source(args[i]) {
        let y = choose|y: Seq<char>| #[trigger]
            reads(args[i], y) && flows_to(stmts, k as nat, y, chain);
        law_tainted_variables_are_flows(stmts, k as nat, y);
        assert(env.contains_key(y));
    }
    assert(taint_of(args[i], env, line) is Some);
    lemma_first_taint(args, env, line);
    let f = FindingView {
        vuln: class_of(name)->0,
        path: first_taint(args, env, line)->0.push(line),
    };
    assert(found_by(f, name, args, env, line));
    lemma_sinks_in(stmts[k].expr(), env, line, f);
    lemma_findings_of(stmts, stmts.len(), f);
    lemma_found_reaches(stmts, k, name, args, f);
}

// ---- The shape of a path ----

/// Whether `line` is the line of one of the first `n` statements.
pub open spec fn is_line_of(stmts: Seq<StmtView>, n: nat, line: nat) -> bool {
    exists|k: int| 0 <= k < n && (#[trigger] stmts[k]).at_line() == line
}

/// Whether a source stands on `line`, in one of the first `n` statements.
pub open spec fn source_on(stmts: Seq<StmtView>, n: nat, line: nat) -> bool {
    exists|k: int|
        0 <= k < n && (#[trigger] stmts[k]).at_line() == line && holds_source(stmts[k].expr())
}

pub proof fn lemma_flow_starts(stmts: Seq<StmtView>, n: nat, x: Seq<char>, chain: Seq<nat>)
    requires
        n <= stmts.len(),
        flows_to(stmts, n, x, chain),
    ensures
        chain.len() > 0,
        source_on(stmts, n, chain.first()),
        forall|i: int| 0 <= i < chain.len() ==> is_line_of(stmts, n, #[trigger] chain[i]),
    decreases n,
{
    let j = choose|j: int| #[trigger] last_set(stmts, j, n, x) && brings(stmts, j, chain);
    let s = stmts[j];
    let came = if carries(stmts, j, s.expr(), chain) && chain == extended(chain, s.at_line()) {
        chain
    } else {
        chain.drop_last()
    };
    if came == seq![s.at_line()] && holds_source(s.expr()) {
        assert(stmts[j].at_line() == came.first());
    } else {
        let y = choose|y: Seq<char>| #[trigger]
            reads(s.expr(), y) && flows_to(stmts, j as nat, y, came);
        lemma_flow_starts(stmts, j as nat, y, came);
        let b = choose|b: int|
            0 <= b < j && (#[trigger] stmts[b]).at_line() == came.first() && holds_source(
                stmts[b].expr(),
            );
        assert(stmts[b].at_line() == came.first());
    }
    assert(chain.first() == came.first());
    assert forall|i: int| 0 <= i < chain.len() implies is_line_of(
        stmts,
        n,
        #[trigger] chain[i],
    ) by {
        if i < came.len() && came != seq![s.at_line()] {
            assert(came[i] == chain[i]);
            assert(is_line_of(stmts, j as nat, came[i]));
            let k = choose|k: int| 0 <= k < j && (#[trigger] stmts[k]).at_line() == came[i];
            assert(stmts[k].at_line() == chain[i]);
        } else {
            if i < came.len() {
                assert(came[i] == chain[i]);
            }
            assert(stmts[j].at_line() == chain[i]);
        }
    }
}

proof fn lemma_flow_grows(stmts: Seq<StmtView>, n: nat, x: Seq<char>, chain: Seq<nat>)
    requires
        in_line_order(stmts),
        n <= stmts.len(),
        flows_to(stmts, n, x, chain),
    ensures
        increasing(chain),
    decreases n,
{
    let j = choose|j: int| #[trigger] last_set(stmts, j, n, x) && brings(stmts, j, chain);
    let s = stmts[j];
    let line = s.at_line();
    let came = if carries(stmts, j, s.expr(), chain) && chain == extended(chain, line) {
        chain
    } else {
        chain.drop_last()
    };
    if came == seq![line] && holds_source(s.expr()) {
    } else {
        let y = choose|y: Seq<char>| #[trigger]
            reads(s.expr(), y) && flows_to(stmts, j as nat, y, came);
        lemma_flow_starts(stmts, j as nat, y, came);
        lemma_flow_grows(stmts, j as nat, y, came);
        let last = came.len() - 1;
        assert(is_line_of(stmts, j as nat, came[last]));
        let k = choose|k: int| 0 <= k < j && (#[trigger] stmts[k]).at_line() == came[last];
        assert(stmts[k].at_line() <= stmts[j].at_line());
    }
    assert forall|a: int, b: int| 0 <= a < b < chain.len() implies chain[a] < chain[b] by {
        if b < came.len() {
            assert(came[a] < came[b]);
        } else {
            assert(came[a] <= came.last());
        }
    }
}

/// A path starts at a source: a source stands on its first line, and each of its lines is
/// the line of a statement.
pub proof fn law_path_starts_at_a_source(
    stmts: Seq<StmtView>,
    k: int,
    name: Seq<char>,
    args: Seq<ExprView>,
    path: Seq<nat>,
)
    requires
        reaches(stmts, k, name, args, path),
    ensures
        source_on(stmts, stmts.len(), path.first()),
        forall|i: int| 0 <= i < path.len() ==> is_line_of(stmts, stmts.len(), #[trigger] path[i]),
{
    let chain = path.drop_last();
    let i = choose|i: int| 0 <= i < args.len() && #[trigger] carries(stmts, k, args[i], chain);
    let s = stmts[k];
    assert(s.at_line() == path.last());
    assert(path.first() == chain.first());
    if chain == seq![s.at_line()] && holds_source(args[i]) {
        lemma_source_in_call(s.expr(), name, args, i);
        assert(stmts[k].at_line() == path.first());
        assert forall|j: int| 0 <= j < path.len() implies is_line_of(
            stmts,
            stmts.len(),
            #[trigger] path[j],
        ) by {
            if j < chain.len() {
                assert(path[j] == chain[j]);
            }
            assert(stmts[k].at_line() == path[j]);
        }
    } else {
        let y = choose|y: Seq<char>| #[trigger]
            reads(args[i], y) && flows_to(stmts, k as nat, y, chain);
        lemma_flow_starts(stmts, k as nat, y, chain);
        let b = choose|b: int|
            0 <= b < k && (#[trigger] stmts[b]).at_line() == chain.first() && holds_source(
                stmts[b].expr(),
            );
        assert(stmts[b].at_line() == path.first());
        assert forall|j: int| 0 <= j < path.len() implies is_line_of(
            stmts,
            stmts.len(),
            #[trigger] path[j],
        ) by {
            if j < chain.len() {
                assert(is_line_of(stmts, k as nat, chain[j]));
                let c = choose|c: int| 0 <= c < k && (#[trigger] stmts[c]).at_line() == chain[j];
                assert(stmts[c].at_line() == path[j]);
            } else {
                assert(stmts[k].at_line() == path[j]);
            }
        }
    }
}

/// A path runs forward: its lines before the last grow, and the sink stands on the last
/// line, which is the line before it or a later one.
pub proof fn law_path_runs_forward(
    stmts: Seq<StmtView>,
    k: int,
    name: Seq<char>,
    args: Seq<ExprView>,
    path: Seq<nat>,
)
    requires
        in_line_order(stmts),
        reaches(stmts, k, name, args, path),
    ensures
        increasing(path.drop_last()),
        path[path.len() - 2] <= path.last(),
{
    let chain = path.drop_last();
    let i = choose|i: int| 0 <= i < args.len() && #[trigger] carries(stmts, k, args[i], chain);
    if chain == seq![stmts[k].at_line()] && holds_source(args[i]) {
    } else {
        let y = choose|y: Seq<char>| #[trigger]
            reads(args[i], y) && flows_to(stmts, k as nat, y, chain);
        lemma_flow_starts(stmts, k as nat, y, chain);
        lemma_flow_grows(stmts, k as nat, y, chain);
        assert(is_line_of(stmts, k as nat, chain[chain.len() - 1]));
        let c = choose|c: int|
            0 <= c < k && (#[trigger] stmts[c]).at_line() == chain[chain.len() - 1];
        assert(stmts[c].at_line() <= stmts[k].at_line());
    }
}

/// A source in an argument of a call stands in every expression that the call stands in.
proof fn lemma_source_in_call(e: ExprView, f: Seq<char>, a: Seq<ExprView>, i: int)
    requires
        calls(e, f, a),
        0 <= i < a.len(),
        holds_source(a[i]),
    ensures
        holds_source(e),
    decreases e,
{
    match e {
        ExprView::Concat(parts) => {
            lemma_calls_operand(e, parts, f, a);
            let p = choose|p: int| 0 <= p < parts.len() && calls(#[trigger] parts[p], f, a);
            lemma_source_in_call(parts[p], f, a, i);
            lemma_source_operand(e, parts);
        },
        ExprView::Call { name, args } => {
            if !crate::rules::source_calls().contains(name) {
                lemma_source_operand(e, args);
                if name == f && args == a {
                    assert(holds_source(args[i]));
                } else {
                    lemma_calls_operand(e, args, f, a);
                    let p = choose|p: int| 0 <= p < args.len() && calls(#[trigger] args[p], f, a);
                    lemma_source_in_call(args[p], f, a, i);
                }
            }
        },
        ExprView::Method { receiver, name, args } => {
            let es = seq![*receiver] + args;
            lemma_source_operand(e, es);
            if name == f && args == a {
                assert(es[i + 1] == args[i]);
                assert(holds_source(es[i + 1]));
            } else {
                lemma_calls_operand(e, es, f, a);
                let p = choose|p: int| 0 <= p < es.len() && calls(#[trigger] es[p], f, a);
                lemma_operand_is_smaller(e, es, p);
                lemma_source_in_call(es[p], f, a, i);
            }
        },
        _ => {},
    }
}

/// Where no source stands, nothing is found.
pub proof fn law_no_source_no_finding(stmts: Seq<StmtView>)
    requires
        forall|k: int| 0 <= k < stmts.len() ==> !holds_source((#[trigger] stmts[k]).expr()),
    ensures
        findings_of(stmts, stmts.len()).len() == 0,
{
    let fs = findings_of(stmts, stmts.len());
    if fs.len() > 0 {
        let f = fs[0];
        assert(fs.contains(f));
        law_every_finding_is_a_flow(stmts, f);
        let (k, name, args) = choose|k: int, name: Seq<char>, args: Seq<ExprView>| #[trigger]
            reaches(stmts, k, name, args, f.path) && class_of(name) == Some(f.vuln);
        law_path_starts_at_a_source(stmts, k, name, args, f.path);
    }
}

// ---- Findings in order ----

/// The analysis goes forward: what follows in the program takes nothing from the findings
/// of what stands before it, and adds its own after them.
pub proof fn law_analysis_goes_forward(a: Seq<StmtView>, b: Seq<StmtView>, m: nat)
    requires
        m <= a.len(),
        m <= b.len(),
        forall|i: int| 0 <= i < m ==> a[i] == b[i],
    ensures
        env_at(a, m) == env_at(b, m),
        findings_of(a, m) == findings_of(b, m),
        findings_of(a, m).is_prefix_of(findings_of(b, b.len())),
{
    lemma_agree(a, b, m);
    lemma_findings_grow(b, m, b.len());
}

proof fn lemma_agree(a: Seq<StmtView>, b: Seq<StmtView>, m: nat)
    requires
        m <= a.len(),
        m <= b.len(),
        forall|i: int| 0 <= i < m ==> a[i] == b[i],
    ensures
        env_at(a, m) == env_at(b, m),
        findings_of(a, m) == findings_of(b, m),
    decreases m,
{
    if m > 0 {
        lemma_agree(a, b, (m - 1) as nat);
        assert(a[m - 1] == b[m - 1]);
    }
}

proof fn lemma_findings_grow(stmts: Seq<StmtView>, m: nat, n: nat)
    requires
        m <= n,
    ensures
        findings_of(stmts, m).is_prefix_of(findings_of(stmts, n)),
    decreases n,
{
    if m < n {
        lemma_findings_grow(stmts, m, (n - 1) as nat);
        let short = findings_of(stmts, m);
        let mid = findings_of(stmts, (n - 1) as nat);
        let long = findings_of(stmts, n);
        assert(short =~= mid.subrange(0, short.len() as int));
        assert(short =~= long.subrange(0, short.len() as int));
    }
}

/// Findings come in the order of their sinks.
pub proof fn law_findings_in_sink_order(stmts: Seq<StmtView>, i: int, j: int)
    requires
        in_line_order(stmts),
        0 <= i < j < findings_of(stmts, stmts.len()).len(),
    ensures
        findings_of(stmts, stmts.len())[i].path.last() <= findings_of(
            stmts,
            stmts.len(),
        )[j].path.last(),
{
    lemma_sink_order(stmts, stmts.len(), i, j);
}

proof fn lemma_sink_line(e: ExprView, env: Env, line: nat, i: int)
    requires
        0 <= i < sinks_in(e, env, line).len(),
    ensures
        sinks_in(e, env, line)[i].path.last() == line,
{
    let f = sinks_in(e, env, line)[i];
    assert(sinks_in(e, env, line).contains(f));
    lemma_sinks_in(e, env, line, f);
}

proof fn lemma_sink_order(stmts: Seq<StmtView>, n: nat, i: int, j: int)
    requires
        in_line_order(stmts),
        n <= stmts.len(),
        0 <= i < j < findings_of(stmts, n).len(),
    ensures
        findings_of(stmts, n)[i].path.last() <= findings_of(stmts, n)[j].path.last(),
    decreases n,
{
    let m = (n - 1) as nat;
    let s = stmts[m as int];
    let prior = findings_of(stmts, m);
    let own = sinks_in(s.expr(), env_at(stmts, m), s.at_line());
    if j < prior.len() {
        lemma_sink_order(stmts, m, i, j);
    } else {
        lemma_sink_line(s.expr(), env_at(stmts, m), s.at_line(), j - prior.len());
        if i < prior.len() {
            let f = prior[i];
            assert(prior.contains(f));
            lemma_findings_of(stmts, m, f);
            let k = choose|k: int|
                0 <= k < m && sinks_in(
                    (#[trigger] stmts[k]).expr(),
                    env_at(stmts, k as nat),
                    stmts[k].at_line(),
                ).contains(f);
            lemma_sinks_in(stmts[k].expr(), env_at(stmts, k as nat), stmts[k].at_line(), f);
            assert(stmts[k].at_line() <= s.at_line());
        } else {
            lemma_sink_line(s.expr(), env_at(stmts, m), s.at_line(), i - prior.len());
        }
    }
}

} // verus!
