//! The analysis of a source text.
use vstd::prelude::*;

use crate::finding::{finding_views, Finding, FindingView};
use crate::flow::{
    holds_source, increasing, is_line_of, law_analysis_goes_forward, law_every_finding_is_a_flow,
    law_every_flow_is_found, law_findings_in_sink_order, law_no_source_no_finding,
    law_path_runs_forward, law_path_starts_at_a_source, reaches, source_on,
};
use crate::parser::ExprView;
use crate::rules::class_of;
use crate::statements::{
    balance, law_added_lines_only_add_statements, law_statements_in_line_order, parse, statements,
};
use crate::taint::{findings_of, run_taint};
use crate::text::text_lines;

verus! {

// ---- Analysis ----

/// The findings of a source text.
pub open spec fn analysis(src: Seq<char>) -> Seq<FindingView> {
    let stmts = statements(src);
    findings_of(stmts, stmts.len())
}

/// Whether a path leads from one line of a text of `n` lines to another, at least.
pub open spec fn path_within(path: Seq<nat>, n: nat) -> bool {
    &&& path.len() >= 2
    &&& forall|i: int| 0 <= i < path.len() ==> 1 <= #[trigger] path[i] <= n
}

/// Analyzes a source text of the Python subset and returns the paths from sources to
/// sinks. Each path has at least two lines, and all of them are lines of the text.
pub fn analyze(src: &str) -> (r: Vec<Finding>)
    ensures
        finding_views(r@) == analysis(src@),
        forall|i: int|
            0 <= i < r@.len() ==> path_within((#[trigger] r@[i])@.path, text_lines(src@).len()),
{
    let stmts = parse(src);
    let r = run_taint(stmts.as_slice());
    proof {
        assert forall|i: int| 0 <= i < r@.len() implies path_within(
            (#[trigger] r@[i])@.path,
            text_lines(src@).len(),
        ) by {
            assert(finding_views(r@)[i] == r@[i]@);
            law_paths_stay_in_the_text(src@, r@[i]@);
        }
    }
    r
}

// ---- Laws of the analysis ----

/// Every finding is real: its path is a flow of data from a source, along lines that only
/// grow, into a call of a sink of its class on the last line.
pub proof fn law_analysis_finds_only_flows(src: Seq<char>, f: FindingView)
    requires
        analysis(src).contains(f),
    ensures
        exists|k: int, name: Seq<char>, args: Seq<ExprView>| #[trigger]
            reaches(statements(src), k, name, args, f.path) && class_of(name) == Some(f.vuln),
        source_on(statements(src), statements(src).len(), f.path.first()),
        increasing(f.path.drop_last()),
        f.path[f.path.len() - 2] <= f.path.last(),
{
    let stmts = statements(src);
    law_statements_in_line_order(src);
    law_every_finding_is_a_flow(stmts, f);
    let (k, name, args) = choose|k: int, name: Seq<char>, args: Seq<ExprView>| #[trigger]
        reaches(stmts, k, name, args, f.path) && class_of(name) == Some(f.vuln);
    law_path_starts_at_a_source(stmts, k, name, args, f.path);
    law_path_runs_forward(stmts, k, name, args, f.path);
}

/// Every flow is found: if data from a source reaches a call of a sink, the analysis has a
/// finding of its class whose path is a flow into that call.
pub proof fn law_analysis_finds_every_flow(
    src: Seq<char>,
    k: int,
    name: Seq<char>,
    args: Seq<ExprView>,
    path: Seq<nat>,
)
    requires
        reaches(statements(src), k, name, args, path),
        class_of(name) is Some,
    ensures
        exists|f: FindingView| #[trigger]
            analysis(src).contains(f) && class_of(name) == Some(f.vuln) && reaches(
                statements(src),
                k,
                name,
                args,
                f.path,
            ),
{
    let stmts = statements(src);
    law_every_flow_is_found(stmts, k, name, args, path);
    let f = choose|f: FindingView| #[trigger]
        findings_of(stmts, stmts.len()).contains(f) && class_of(name) == Some(f.vuln) && reaches(
            stmts,
            k,
            name,
            args,
            f.path,
        );
    assert(analysis(src).contains(f));
}

/// A text without a source has no findings.
pub proof fn law_no_source_in_the_text_no_finding(src: Seq<char>)
    requires
        forall|k: int|
            0 <= k < statements(src).len() ==> !holds_source(
                (#[trigger] statements(src)[k]).expr(),
            ),
    ensures
        analysis(src).len() == 0,
{
    law_no_source_no_finding(statements(src));
}

/// Every path has at least two lines, and all of them are lines of the text.
pub proof fn law_paths_stay_in_the_text(src: Seq<char>, f: FindingView)
    requires
        analysis(src).contains(f),
    ensures
        path_within(f.path, text_lines(src).len()),
{
    let stmts = statements(src);
    law_statements_in_line_order(src);
    law_every_finding_is_a_flow(stmts, f);
    let (k, name, args) = choose|k: int, name: Seq<char>, args: Seq<ExprView>| #[trigger]
        reaches(stmts, k, name, args, f.path) && class_of(name) == Some(f.vuln);
    law_path_starts_at_a_source(stmts, k, name, args, f.path);
    assert forall|i: int| 0 <= i < f.path.len() implies 1 <= #[trigger] f.path[i] <= text_lines(
        src,
    ).len() by {
        assert(is_line_of(stmts, stmts.len(), f.path[i]));
    }
}

/// Findings come in the order of their sinks.
pub proof fn law_analysis_in_sink_order(src: Seq<char>, i: int, j: int)
    requires
        0 <= i < j < analysis(src).len(),
    ensures
        analysis(src)[i].path.last() <= analysis(src)[j].path.last(),
{
    law_statements_in_line_order(src);
    law_findings_in_sink_order(statements(src), i, j);
}

/// Lines that are added below a text which closes its parentheses leave its findings as they
/// are, in front of their own.
pub proof fn law_added_lines_only_add_findings(above: Seq<char>, below: Seq<char>)
    requires
        above.len() > 0 ==> above.last() == '\n',
        balance(text_lines(above), text_lines(above).len()) == 0,
    ensures
        analysis(above).is_prefix_of(analysis(above + below)),
{
    law_added_lines_only_add_statements(above, below);
    let s = statements(above);
    let t = statements(above + below);
    assert(s =~= t.subrange(0, s.len() as int));
    assert forall|i: int| 0 <= i < s.len() implies s[i] == t[i] by {
        assert(s[i] == t.subrange(0, s.len() as int)[i]);
    }
    law_analysis_goes_forward(s, t, s.len());
}

} // verus!
