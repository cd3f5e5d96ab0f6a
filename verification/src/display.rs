//! How findings are shown.
use vstd::prelude::*;

use crate::analysis::{analysis, analyze, law_paths_stay_in_the_text};
use crate::finding::{finding_views, nats, Finding, FindingView};
use crate::rules::{severity, severity_of};
use crate::text::{
    decimal, decimal_text, lemma_decimal_one_line, lemma_lines_are_single, lemma_one_line,
    lemma_trimmed, lines, one_line, text_lines, texts, trim, trimmed,
};

verus! {

// ---- Traces ----

/// One line of a path: what it is on the path, its number, and its text.
#[derive(Debug)]
pub struct Hop {
    pub tag: String,
    pub line: usize,
    pub code: String,
}

/// A finding with the text of its lines.
#[derive(Debug)]
pub struct Trace {
    /// The vulnerability class.
    pub vuln: String,
    pub severity: String,
    /// Line numbers from the source to the sink.
    pub path: Vec<usize>,
    /// The lines of the path.
    pub hops: Vec<Hop>,
}

/// A line of a path as a mathematical value.
#[verifier::ext_equal]
pub struct HopView {
    pub tag: Seq<char>,
    pub line: nat,
    pub code: Seq<char>,
}

/// A trace as a mathematical value.
#[verifier::ext_equal]
pub struct TraceView {
    pub vuln: Seq<char>,
    pub severity: Seq<char>,
    pub path: Seq<nat>,
    pub hops: Seq<HopView>,
}

impl View for Hop {
    type V = HopView;

    open spec fn view(&self) -> HopView {
        HopView { tag: self.tag@, line: self.line as nat, code: self.code@ }
    }
}

/// The lines of a path that a vector holds.
pub open spec fn hop_views(v: Seq<Hop>) -> Seq<HopView> {
    v.map_values(|h: Hop| h@)
}

impl View for Trace {
    type V = TraceView;

    open spec fn view(&self) -> TraceView {
        TraceView {
            vuln: self.vuln@,
            severity: self.severity@,
            path: nats(self.path@),
            hops: hop_views(self.hops@),
        }
    }
}

/// The traces that a vector holds.
pub open spec fn trace_views(v: Seq<Trace>) -> Seq<TraceView> {
    v.map_values(|t: Trace| t@)
}

/// What line `i` of a path of `n` lines is: the source, the sink, or a step between them.
pub open spec fn hop_tag(i: int, n: nat) -> Seq<char> {
    if i == 0 {
        "source"@
    } else if i == n - 1 {
        "sink"@
    } else {
        "flows"@
    }
}

/// The text of line `line`, counted from one, without the white space around it; nothing
/// if there is no such line.
pub open spec fn code_on(ls: Seq<Seq<char>>, line: nat) -> Seq<char> {
    if 1 <= line <= ls.len() {
        trimmed(ls[line - 1])
    } else {
        Seq::empty()
    }
}

/// The trace of a finding in the text `src`.
pub open spec fn trace_of(src: Seq<char>, f: FindingView) -> TraceView {
    TraceView {
        vuln: f.vuln,
        severity: severity_of(f.vuln),
        path: f.path,
        hops: Seq::new(
            f.path.len(),
            |i: int|
                HopView {
                    tag: hop_tag(i, f.path.len()),
                    line: f.path[i],
                    code: code_on(text_lines(src), f.path[i]),
                },
        ),
    }
}

/// The traces of the findings of a source text.
pub open spec fn scan_of(src: Seq<char>) -> Seq<TraceView> {
    analysis(src).map_values(|f: FindingView| trace_of(src, f))
}

/// Whether every line of a path has a number, counted from one.
pub open spec fn numbered(path: Seq<nat>) -> bool {
    forall|i: int| 0 <= i < path.len() ==> #[trigger] path[i] >= 1
}

/// Traces a finding through the source text. The lines of a path are counted from one.
pub fn trace(src: &str, f: &Finding) -> (r: Trace)
    requires
        numbered(f@.path),
    ensures
        r@ == trace_of(src@, f@),
{
    let ls = lines(src);
    let ghost views = text_lines(src@);
    let ghost whole = trace_of(src@, f@).hops;
    let mut hops: Vec<Hop> = Vec::new();
    let mut i: usize = 0;
    assert(hop_views(hops@) =~= whole.take(0));
    while i < f.path.len()
        invariant
            i <= f.path@.len(),
            texts(ls@) == views,
            views == text_lines(src@),
            numbered(f@.path),
            whole == trace_of(src@, f@).hops,
            hop_views(hops@) == whole.take(i as int),
        decreases f.path@.len() - i,
    {
        let line = f.path[i];
        assert(f@.path[i as int] == line);
        let code = if line - 1 < ls.len() {
            assert(views[line - 1] == ls@[line - 1]@);
            trim(ls[line - 1].as_str())
        } else {
            String::new()
        };
        let tag = if i == 0 {
            "source"
        } else if i == f.path.len() - 1 {
            "sink"
        } else {
            "flows"
        };
        let hop = Hop { tag: tag.to_owned(), line, code };
        let ghost before = hops@;
        hops.push(hop);
        assert(hop_views(hops@) =~= hop_views(before).push(hop@));
        assert(hop@ == whole[i as int]);
        assert(whole.take(i + 1) =~= whole.take(i as int).push(hop@));
        i += 1;
    }
    assert(whole.take(whole.len() as int) =~= whole);
    let path = f.path.clone();
    assert(path@ =~= f.path@);
    Trace { vuln: f.vuln.clone(), severity: severity(f.vuln.as_str()).to_owned(), path, hops }
}

/// Analyzes a source text and traces each finding through it.
pub fn scan(src: &str) -> (r: Vec<Trace>)
    ensures
        trace_views(r@) == scan_of(src@),
{
    let findings = analyze(src);
    let ghost fs = analysis(src@);
    let ghost whole = scan_of(src@);
    let mut out: Vec<Trace> = Vec::new();
    let mut i: usize = 0;
    assert(trace_views(out@) =~= whole.take(0));
    while i < findings.len()
        invariant
            i <= findings@.len(),
            finding_views(findings@) == fs,
            fs == analysis(src@),
            whole == scan_of(src@),
            trace_views(out@) == whole.take(i as int),
        decreases findings@.len() - i,
    {
        let ghost f = findings@[i as int]@;
        assert(fs[i as int] == f);
        proof {
            law_paths_stay_in_the_text(src@, f);
        }
        let t = trace(src, &findings[i]);
        let ghost before = out@;
        out.push(t);
        assert(trace_views(out@) =~= trace_views(before).push(t@));
        assert(whole.take(i + 1) =~= whole.take(i as int).push(whole[i as int]));
        i += 1;
    }
    assert(whole.take(whole.len() as int) =~= whole);
    out
}

// ---- Showing a finding ----

/// The line that opens the display of a finding of class `vuln`, without its line ending.
pub open spec fn heading_line(vuln: Seq<char>) -> Seq<char> {
    vuln + " ["@ + severity_of(vuln) + "]: tainted data reaches a "@ + vuln + " sink"@
}

/// The text that opens the display of a finding of class `vuln`.
pub open spec fn heading(vuln: Seq<char>) -> Seq<char> {
    heading_line(vuln) + "\n"@
}

/// The display of line `i` of a path, without its line ending.
pub open spec fn hop_line(ls: Seq<Seq<char>>, path: Seq<nat>, i: int) -> Seq<char> {
    "  ["@ + hop_tag(i, path.len()) + "] line "@ + decimal(path[i]) + ": "@ + code_on(ls, path[i])
}

/// The display of line `i` of a path.
pub open spec fn hop(ls: Seq<Seq<char>>, path: Seq<nat>, i: int) -> Seq<char> {
    hop_line(ls, path, i) + "\n"@
}

/// The display of the first `n` lines of a path.
pub open spec fn hops(ls: Seq<Seq<char>>, path: Seq<nat>, n: nat) -> Seq<char>
    decreases n,
{
    if n == 0 {
        Seq::empty()
    } else {
        hops(ls, path, (n - 1) as nat) + hop(ls, path, n - 1)
    }
}

/// The display of a finding: the heading, and then the path, one line for each of its
/// lines.
pub open spec fn rendering(src: Seq<char>, f: FindingView) -> Seq<char> {
    heading(f.vuln) + hops(text_lines(src), f.path, f.path.len())
}

proof fn lemma_concat_one_line(a: Seq<char>, b: Seq<char>)
    requires
        one_line(a),
        one_line(b),
    ensures
        one_line(a + b),
{
    assert forall|i: int| 0 <= i < (a + b).len() implies #[trigger] (a + b)[i] != '\n' by {
        if i < a.len() {
            assert(a[i] != '\n');
        } else {
            assert(b[i - a.len()] != '\n');
        }
    }
}

proof fn lemma_hop_is_one_line(src: Seq<char>, path: Seq<nat>, i: int)
    ensures
        text_lines(hop(text_lines(src), path, i)) == seq![hop_line(text_lines(src), path, i)],
        hop(text_lines(src), path, i).last() == '\n',
{
    let ls = text_lines(src);
    let tag = hop_tag(i, path.len());
    let number = decimal(path[i]);
    let code = code_on(ls, path[i]);
    let shown = hop_line(ls, path, i);
    reveal_strlit("  [");
    reveal_strlit("] line ");
    reveal_strlit(": ");
    reveal_strlit("\n");
    reveal_strlit("source");
    reveal_strlit("sink");
    reveal_strlit("flows");
    lemma_decimal_one_line(path[i]);
    lemma_lines_are_single(src);
    if 1 <= path[i] <= ls.len() {
        lemma_trimmed(ls[path[i] - 1]);
    }
    assert(one_line(tag));
    lemma_concat_one_line("  ["@, tag);
    lemma_concat_one_line("  ["@ + tag, "] line "@);
    lemma_concat_one_line("  ["@ + tag + "] line "@, number);
    lemma_concat_one_line("  ["@ + tag + "] line "@ + number, ": "@);
    lemma_concat_one_line("  ["@ + tag + "] line "@ + number + ": "@, code);
    if code.len() == 0 {
        assert(shown.last() == ": "@[1]);
    } else {
        assert(shown.last() == code.last());
    }
    lemma_one_line(shown);
    assert(hop(ls, path, i) =~= shown.push('\n'));
}

proof fn lemma_hops_are_lines(src: Seq<char>, path: Seq<nat>, n: nat)
    ensures
        text_lines(hops(text_lines(src), path, n)) == Seq::new(
            n,
            |i: int| hop_line(text_lines(src), path, i),
        ),
        n > 0 ==> hops(text_lines(src), path, n).last() == '\n',
        n == 0 ==> hops(text_lines(src), path, n).len() == 0,
        n > 0 ==> hops(text_lines(src), path, n).len() > 0,
    decreases n,
{
    let ls = text_lines(src);
    if n == 0 {
        assert(text_lines(hops(ls, path, n)) =~= Seq::new(n, |i: int| hop_line(ls, path, i)));
    } else {
        let m = (n - 1) as nat;
        lemma_hops_are_lines(src, path, m);
        lemma_hop_is_one_line(src, path, m as int);
        crate::text::law_lines_of_concatenation(hops(ls, path, m), hop(ls, path, m as int));
        reveal_strlit("\n");
        assert(text_lines(hops(ls, path, n)) =~= Seq::new(n, |i: int| hop_line(ls, path, i)));
    }
}

proof fn lemma_severity_one_line(vuln: Seq<char>)
    ensures
        one_line(severity_of(vuln)),
{
    reveal_strlit("critical");
    reveal_strlit("high");
    reveal_strlit("medium");
    reveal_strlit("low");
}

/// The display of a finding has one line for each line of the path, in order, below a
/// heading that names the class and its severity.
pub proof fn law_display_is_the_path(src: Seq<char>, f: FindingView)
    requires
        one_line(f.vuln),
    ensures
        text_lines(rendering(src, f)) == seq![heading_line(f.vuln)] + Seq::new(
            f.path.len(),
            |i: int| hop_line(text_lines(src), f.path, i),
        ),
{
    let ls = text_lines(src);
    let v = f.vuln;
    let grave = severity_of(v);
    let first = heading_line(v);
    reveal_strlit(" [");
    reveal_strlit("]: tainted data reaches a ");
    reveal_strlit(" sink");
    reveal_strlit("\n");
    lemma_severity_one_line(v);
    lemma_concat_one_line(v, " ["@);
    lemma_concat_one_line(v + " ["@, grave);
    lemma_concat_one_line(v + " ["@ + grave, "]: tainted data reaches a "@);
    lemma_concat_one_line(v + " ["@ + grave + "]: tainted data reaches a "@, v);
    lemma_concat_one_line(v + " ["@ + grave + "]: tainted data reaches a "@ + v, " sink"@);
    assert(first.last() == " sink"@[4]);
    lemma_one_line(first);
    assert(heading(v) =~= first.push('\n'));
    lemma_hops_are_lines(src, f.path, f.path.len());
    crate::text::law_lines_of_concatenation(heading(v), hops(ls, f.path, f.path.len()));
}

/// The text that opens the display of a finding.
fn heading_text(vuln: &str, grave: &str) -> (r: String)
    requires
        grave@ == severity_of(vuln@),
    ensures
        r@ == heading(vuln@),
{
    let mut out = String::new();
    out.append(vuln);
    out.append(" [");
    out.append(grave);
    out.append("]: tainted data reaches a ");
    out.append(vuln);
    out.append(" sink");
    out.append("\n");
    assert(out@ =~= heading(vuln@));
    out
}

/// The display of one line of a path.
fn hop_text(tag: &str, line: usize, code: &str) -> (r: String)
    ensures
        r@ == "  ["@ + tag@ + "] line "@ + decimal(line as nat) + ": "@ + code@ + "\n"@,
{
    let number = decimal_text(line);
    let mut out = String::from_str("  [");
    out.append(tag);
    out.append("] line ");
    out.append(number.as_str());
    out.append(": ");
    out.append(code);
    out.append("\n");
    out
}

/// Renders a finding as its source-to-sink chain against the source text. The lines of a
/// path are counted from one.
pub fn render(src: &str, f: &Finding) -> (r: String)
    requires
        numbered(f@.path),
    ensures
        r@ == rendering(src@, f@),
{
    let t = trace(src, f);
    let ghost views = text_lines(src@);
    let ghost path = f@.path;
    let mut out = heading_text(f.vuln.as_str(), t.severity.as_str());
    let mut i: usize = 0;
    assert(out@ =~= heading(f@.vuln) + hops(views, path, 0));
    assert(t@.hops.len() == path.len());
    while i < t.hops.len()
        invariant
            i <= t.hops@.len() == path.len(),
            t@ == trace_of(src@, f@),
            views == text_lines(src@),
            path == f@.path,
            out@ == heading(f@.vuln) + hops(views, path, i as nat),
        decreases t.hops@.len() - i,
    {
        let h = &t.hops[i];
        assert(t@.hops[i as int] == h@);
        let shown = hop_text(h.tag.as_str(), h.line, h.code.as_str());
        assert(shown@ == hop(views, path, i as int));
        out.append(shown.as_str());
        i += 1;
        proof {
            assert(heading(f@.vuln) + hops(views, path, (i - 1) as nat) + shown@ =~= heading(
                f@.vuln,
            ) + hops(views, path, i as nat));
        }
    }
    out
}

// ---- The report of a scan ----

/// The displays of the first `n` findings, with an empty line after each.
pub open spec fn renderings(src: Seq<char>, fs: Seq<FindingView>, n: nat) -> Seq<char>
    decreases n,
{
    if n == 0 {
        Seq::empty()
    } else {
        renderings(src, fs, (n - 1) as nat) + rendering(src, fs[n - 1]) + "\n"@
    }
}

/// What a scan of `file` prints: the findings under the name of the file, and their number.
pub open spec fn report_text(file: Seq<char>, src: Seq<char>, fs: Seq<FindingView>) -> Seq<char> {
    if fs.len() == 0 {
        "no tainted path to a command sink in "@ + file + "\n"@
    } else {
        "== "@ + file + " ==\n"@ + renderings(src, fs, fs.len()) + "\n"@ + decimal(fs.len())
            + " tainted path(s) across 1 file(s)\n"@
    }
}

/// The exit code of a scan: one if it found anything and `exit_zero` does not ask for zero.
pub fn exit_code(findings: &Vec<Finding>, exit_zero: bool) -> (r: u8)
    ensures
        r == if findings@.len() > 0 && !exit_zero {
            1u8
        } else {
            0u8
        },
{
    if findings.len() > 0 && !exit_zero {
        1
    } else {
        0
    }
}

/// The report of the findings in the text `src` of `file`.
pub fn report(file: &str, src: &str, findings: &Vec<Finding>) -> (r: String)
    requires
        forall|i: int| 0 <= i < findings@.len() ==> numbered((#[trigger] findings@[i])@.path),
    ensures
        r@ == report_text(file@, src@, finding_views(findings@)),
{
    let mut out = String::new();
    if findings.len() == 0 {
        out.append("no tainted path to a command sink in ");
        out.append(file);
        out.append("\n");
        assert(out@ =~= report_text(file@, src@, finding_views(findings@)));
        return out;
    }
    let ghost fs = finding_views(findings@);
    out.append("== ");
    out.append(file);
    out.append(" ==\n");
    let ghost start = "== "@ + file@ + " ==\n"@;
    assert(out@ =~= start + renderings(src@, fs, 0));
    let mut i: usize = 0;
    while i < findings.len()
        invariant
            i <= findings@.len(),
            fs == finding_views(findings@),
            forall|k: int| 0 <= k < findings@.len() ==> numbered((#[trigger] findings@[k])@.path),
            out@ == start + renderings(src@, fs, i as nat),
        decreases findings@.len() - i,
    {
        assert(fs[i as int] == findings@[i as int]@);
        let shown = render(src, &findings[i]);
        out.append(shown.as_str());
        out.append("\n");
        i += 1;
        assert(out@ =~= start + renderings(src@, fs, i as nat));
    }
    out.append("\n");
    let number = decimal_text(findings.len());
    out.append(number.as_str());
    out.append(" tainted path(s) across 1 file(s)\n");
    assert(out@ =~= report_text(file@, src@, fs));
    out
}

// ---- Laws of what is shown ----

/// The display of a finding, line by line. The heading names the class twice and its severity.
/// Then comes each line of the path, in order and under its number, with the text that stands
/// there, trimmed: the first as the source, the last as the sink, those between as flows.
pub proof fn law_display_line_by_line(src: Seq<char>, f: FindingView, i: int)
    requires
        one_line(f.vuln),
        0 <= i < f.path.len(),
    ensures
        text_lines(rendering(src, f)).len() == f.path.len() + 1,
        text_lines(rendering(src, f))[0] == f.vuln + " ["@ + severity_of(f.vuln)
            + "]: tainted data reaches a "@ + f.vuln + " sink"@,
        ({
            let shown = text_lines(rendering(src, f))[i + 1];
            let ls = text_lines(src);
            let tag = if i == 0 {
                "source"@
            } else if i == f.path.len() - 1 {
                "sink"@
            } else {
                "flows"@
            };
            let start = "  ["@ + tag + "] line "@ + decimal(f.path[i]) + ": "@;
            &&& 1 <= f.path[i] <= ls.len() ==> shown == start + trimmed(ls[f.path[i] - 1])
            &&& !(1 <= f.path[i] <= ls.len()) ==> shown == start
        }),
{
    law_display_is_the_path(src, f);
    let shown = text_lines(rendering(src, f))[i + 1];
    assert(shown == hop_line(text_lines(src), f.path, i));
    if !(1 <= f.path[i] <= text_lines(src).len()) {
        let start = "  ["@ + hop_tag(i, f.path.len()) + "] line "@ + decimal(f.path[i]) + ": "@;
        assert(start + Seq::<char>::empty() =~= start);
    }
}

proof fn lemma_hops_flatten(ls: Seq<Seq<char>>, path: Seq<nat>, n: nat)
    ensures
        hops(ls, path, n) == Seq::new(n, |i: int| hop_line(ls, path, i) + "\n"@).flatten(),
    decreases n,
{
    let parts = Seq::new(n, |i: int| hop_line(ls, path, i) + "\n"@);
    if n == 0 {
        assert(parts.flatten() =~= Seq::empty());
    } else {
        let m = (n - 1) as nat;
        let prior = Seq::new(m, |i: int| hop_line(ls, path, i) + "\n"@);
        let own = hop_line(ls, path, n - 1) + "\n"@;
        lemma_hops_flatten(ls, path, m);
        assert(parts =~= prior.push(own));
        prior.lemma_flatten_push(own);
    }
}

/// The display of a finding as one text, whatever its class: the heading, and then for each
/// hop of its trace one line, all of them ended by a line feed.
pub proof fn law_display_as_a_text(src: Seq<char>, f: FindingView)
    ensures
        rendering(src, f) == f.vuln + " ["@ + severity_of(f.vuln) + "]: tainted data reaches a "@
            + f.vuln + " sink"@ + "\n"@ + Seq::new(
            f.path.len(),
            |i: int|
                "  ["@ + trace_of(src, f).hops[i].tag + "] line "@ + decimal(f.path[i]) + ": "@
                    + trace_of(src, f).hops[i].code + "\n"@,
        ).flatten(),
{
    let ls = text_lines(src);
    lemma_hops_flatten(ls, f.path, f.path.len());
    let shown = Seq::new(f.path.len(), |i: int| hop_line(ls, f.path, i) + "\n"@);
    let said = Seq::new(
        f.path.len(),
        |i: int|
            "  ["@ + trace_of(src, f).hops[i].tag + "] line "@ + decimal(f.path[i]) + ": "@
                + trace_of(src, f).hops[i].code + "\n"@,
    );
    assert(shown =~= said);
}

/// The trace of a finding and its display say the same: class, severity and path are the
/// finding's own, and there is one hop for each line of the path, which the display shows.
pub proof fn law_trace_says_what_is_shown(src: Seq<char>, f: FindingView, i: int)
    requires
        one_line(f.vuln),
        0 <= i < f.path.len(),
    ensures
        ({
            let t = trace_of(src, f);
            let hop = t.hops[i];
            &&& t.vuln == f.vuln
            &&& t.path == f.path
            &&& t.hops.len() == f.path.len()
            &&& hop.line == f.path[i]
            &&& text_lines(rendering(src, f))[0] == t.vuln + " ["@ + t.severity
                + "]: tainted data reaches a "@ + t.vuln + " sink"@
            &&& text_lines(rendering(src, f))[i + 1] == "  ["@ + hop.tag + "] line "@ + decimal(
                hop.line,
            ) + ": "@ + hop.code
        }),
{
    law_display_is_the_path(src, f);
    assert(text_lines(rendering(src, f))[i + 1] == hop_line(text_lines(src), f.path, i));
}

/// A scan traces every finding of the text, each once and in order.
pub proof fn law_scan_traces_every_finding(src: Seq<char>)
    ensures
        scan_of(src).len() == analysis(src).len(),
        forall|i: int|
            0 <= i < analysis(src).len() ==> #[trigger] scan_of(src)[i] == trace_of(
                src,
                analysis(src)[i],
            ),
{
}

proof fn lemma_renderings_flatten(src: Seq<char>, fs: Seq<FindingView>, n: nat)
    requires
        n <= fs.len(),
    ensures
        renderings(src, fs, n) == Seq::new(
            n,
            |i: int| rendering(src, fs[i]) + "\n"@,
        ).flatten(),
    decreases n,
{
    let parts = Seq::new(n, |i: int| rendering(src, fs[i]) + "\n"@);
    if n == 0 {
        assert(parts.flatten() =~= Seq::empty());
    } else {
        let m = (n - 1) as nat;
        let prior = Seq::new(m, |i: int| rendering(src, fs[i]) + "\n"@);
        let own = rendering(src, fs[n - 1]) + "\n"@;
        lemma_renderings_flatten(src, fs, m);
        assert(parts =~= prior.push(own));
        prior.lemma_flatten_push(own);
        assert(renderings(src, fs, m) + rendering(src, fs[n - 1]) + "\n"@ =~= renderings(
            src,
            fs,
            m,
        ) + own);
    }
}

/// A report shows every finding: under the name of the file the display of each, in order and
/// with an empty line behind it, none left out and none added; then an empty line, and how
/// many there are.
pub proof fn law_report_shows_every_finding(
    file: Seq<char>,
    src: Seq<char>,
    fs: Seq<FindingView>,
)
    requires
        fs.len() > 0,
    ensures
        report_text(file, src, fs) == "== "@ + file + " ==\n"@ + Seq::new(
            fs.len(),
            |i: int| rendering(src, fs[i]) + "\n"@,
        ).flatten() + "\n"@ + decimal(fs.len()) + " tainted path(s) across 1 file(s)\n"@,
{
    lemma_renderings_flatten(src, fs, fs.len());
}

/// The display of every finding stands in the report.
pub proof fn law_every_finding_stands_in_the_report(
    file: Seq<char>,
    src: Seq<char>,
    fs: Seq<FindingView>,
    i: int,
)
    requires
        0 <= i < fs.len(),
    ensures
        exists|before: Seq<char>, after: Seq<char>|
            report_text(file, src, fs) == #[trigger] (before + rendering(src, fs[i]) + after),
{
    let shown = rendering(src, fs[i]);
    lemma_rendering_stands(src, fs, fs.len(), i);
    let (b, a) = choose|b: Seq<char>, a: Seq<char>|
        renderings(src, fs, fs.len()) == #[trigger] (b + shown + a);
    let before = "== "@ + file + " ==\n"@ + b;
    let after = a + "\n"@ + decimal(fs.len()) + " tainted path(s) across 1 file(s)\n"@;
    assert(report_text(file, src, fs) =~= before + shown + after);
}

proof fn lemma_rendering_stands(src: Seq<char>, fs: Seq<FindingView>, n: nat, i: int)
    requires
        0 <= i < n <= fs.len(),
    ensures
        exists|before: Seq<char>, after: Seq<char>|
            renderings(src, fs, n) == #[trigger] (before + rendering(src, fs[i]) + after),
    decreases n,
{
    let shown = rendering(src, fs[i]);
    let prior = renderings(src, fs, (n - 1) as nat);
    if i == n - 1 {
        assert(renderings(src, fs, n) =~= prior + shown + "\n"@);
    } else {
        lemma_rendering_stands(src, fs, (n - 1) as nat, i);
        let (b, a) = choose|b: Seq<char>, a: Seq<char>| prior == #[trigger] (b + shown + a);
        let after = a + rendering(src, fs[n - 1]) + "\n"@;
        assert(renderings(src, fs, n) =~= b + shown + after);
    }
}

/// The report of more findings shows those of fewer first: between the name of the file and
/// the count, one more finding adds its display and an empty line.
pub proof fn law_one_more_finding_in_the_report(
    file: Seq<char>,
    src: Seq<char>,
    fs: Seq<FindingView>,
    f: FindingView,
)
    requires
        fs.len() > 0,
    ensures
        ({
            let end = "\n"@ + decimal(fs.len()) + " tainted path(s) across 1 file(s)\n"@;
            let next = "\n"@ + decimal(fs.len() + 1) + " tainted path(s) across 1 file(s)\n"@;
            exists|shown: Seq<char>|
                {
                    &&& report_text(file, src, fs) == #[trigger] (shown + end)
                    &&& report_text(file, src, fs.push(f)) == shown + (rendering(src, f) + "\n"@)
                        + next
                }
        }),
{
    let n = fs.len();
    let all = fs.push(f);
    let start = "== "@ + file + " ==\n"@;
    let end = "\n"@ + decimal(n) + " tainted path(s) across 1 file(s)\n"@;
    let next = "\n"@ + decimal(n + 1) + " tainted path(s) across 1 file(s)\n"@;
    lemma_same_renderings(src, fs, all, n);
    let shown = start + renderings(src, fs, n);
    assert(report_text(file, src, fs) =~= shown + end);
    assert(all[n as int] == f);
    assert(renderings(src, all, n + 1) == renderings(src, all, n) + rendering(src, f) + "\n"@);
    assert(report_text(file, src, all) =~= shown + (rendering(src, f) + "\n"@) + next);
}

proof fn lemma_same_renderings(
    src: Seq<char>,
    a: Seq<FindingView>,
    b: Seq<FindingView>,
    n: nat,
)
    requires
        n <= a.len(),
        n <= b.len(),
        forall|i: int| 0 <= i < n ==> a[i] == b[i],
    ensures
        renderings(src, a, n) == renderings(src, b, n),
    decreases n,
{
    if n > 0 {
        lemma_same_renderings(src, a, b, (n - 1) as nat);
        assert(a[n - 1] == b[n - 1]);
    }
}

/// A scan that found nothing says so, of its file.
pub proof fn law_report_of_a_clean_file(file: Seq<char>, src: Seq<char>)
    ensures
        report_text(file, src, Seq::empty()) == "no tainted path to a command sink in "@ + file
            + "\n"@,
{
}

} // verus!
