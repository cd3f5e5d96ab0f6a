use lint_owl::{analyze, render, Finding};

#[test]
fn finds_source_to_sink_path() {
    let src = "cmd = input()\nfull = \"ping \" + cmd\nos.system(full)\n";
    let f = analyze(src);
    assert_eq!(f.len(), 1);
    assert_eq!(f[0].vuln, "command-injection");
    assert_eq!(f[0].source_line(), 1);
    assert_eq!(f[0].sink_line(), 3);
    assert_eq!(f[0].path, vec![1, 2, 3]);
}

#[test]
fn no_finding_when_sink_arg_is_a_literal() {
    let src = "os.system(\"ls -la\")\n";
    assert!(analyze(src).is_empty());
}

#[test]
fn no_finding_when_source_never_reaches_sink() {
    let src = "cmd = input()\nsafe = \"ls\"\nos.system(safe)\n";
    assert!(analyze(src).is_empty());
}

#[test]
fn reassigning_clean_clears_taint() {
    let src = "x = input()\nx = \"ls\"\nos.system(x)\n";
    assert!(analyze(src).is_empty());
}

#[test]
fn direct_source_into_sink() {
    let src = "os.system(input())\n";
    let f = analyze(src);
    assert_eq!(f.len(), 1);
    assert_eq!(f[0].path, vec![1, 1]);
}

#[test]
fn bare_name_source_sys_argv() {
    let src = "arg = sys.argv\nos.system(arg)\n";
    let f = analyze(src);
    assert_eq!(f.len(), 1);
    assert_eq!(f[0].source_line(), 1);
}

#[test]
fn detects_sql_injection() {
    let src = "name = request.args.get(\"name\")\nq = \"SELECT * FROM u WHERE n = \" + name\ncur.execute(q)\n";
    let f = analyze(src);
    assert_eq!(f.len(), 1);
    assert_eq!(f[0].vuln, "sql-injection");
}

#[test]
fn detects_ssrf() {
    let src = "url = request.args.get(\"url\")\nrequests.get(url)\n";
    let f = analyze(src);
    assert_eq!(f.len(), 1);
    assert_eq!(f[0].vuln, "ssrf");
}

#[test]
fn detects_path_traversal() {
    let src = "p = request.args.get(\"file\")\nopen(p)\n";
    let f = analyze(src);
    assert_eq!(f.len(), 1);
    assert_eq!(f[0].vuln, "path-traversal");
}

#[test]
fn detects_insecure_deserialization() {
    let src = "blob = request.data\npickle.loads(blob)\n";
    let f = analyze(src);
    assert_eq!(f.len(), 1);
    assert_eq!(f[0].vuln, "insecure-deserialization");
}

fn finding(vuln: &str, path: Vec<usize>) -> Finding {
    Finding {
        vuln: String::from(vuln),
        path,
    }
}

#[test]
fn empty_path_has_line_zero_at_both_ends() {
    let f = finding("ssrf", vec![]);
    assert_eq!(f.source_line(), 0);
    assert_eq!(f.sink_line(), 0);
}

#[test]
fn clone_keeps_class_and_path() {
    let f = finding("ssrf", vec![2, 5]).clone();
    assert_eq!(f.vuln, "ssrf");
    assert_eq!(f.path, vec![2, 5]);
}

#[test]
fn renders_every_hop() {
    let src = "  host = request.args.get(\"h\")\ncmd = \"ping \" + host \n\tos.system(cmd)\n";
    let f = analyze(src);
    assert_eq!(f.len(), 1);
    assert_eq!(
        render(src, &f[0]),
        "command-injection [critical]: tainted data reaches a command-injection sink\n  \
         [source] line 1: host = request.args.get(\"h\")\n  \
         [flows] line 2: cmd = \"ping \" + host\n  \
         [sink] line 3: os.system(cmd)\n"
    );
}

#[test]
fn renders_lines_beyond_the_text_as_empty() {
    let f = finding("ssrf", vec![1, 12]);
    assert_eq!(
        render("\u{a0}x\u{3000}", &f),
        "ssrf [high]: tainted data reaches a ssrf sink\n  [source] line 1: x\n  [sink] line 12: \n"
    );
}

#[test]
fn renders_a_single_line_as_the_source() {
    let f = finding("ssrf", vec![1]);
    assert_eq!(
        render("a\nb", &f),
        "ssrf [high]: tainted data reaches a ssrf sink\n  [source] line 1: a\n"
    );
}

#[test]
fn taint_passes_through_calls_and_concatenation() {
    let src = "a = input()\nb = clean(1, wrap(a))\nc = \"x\" + (b + \"y\")\neval(c)\n";
    let f = analyze(src);
    assert_eq!(f.len(), 1);
    assert_eq!(f[0].path, vec![1, 2, 3, 4]);
}

#[test]
fn first_tainted_operand_gives_the_path() {
    let src = "a = input()\nb = os.getenv(\"B\")\nos.popen(b + a)\nos.popen(a + b)\n";
    let f = analyze(src);
    assert_eq!(f.len(), 2);
    assert_eq!(f[0].path, vec![2, 3]);
    assert_eq!(f[1].path, vec![1, 4]);
}

#[test]
fn outer_sink_comes_before_inner_sink() {
    let f = analyze("eval(open(input()))\n");
    assert_eq!(f.len(), 2);
    assert_eq!(f[0].vuln, "command-injection");
    assert_eq!(f[1].vuln, "path-traversal");
    assert_eq!(f[0].path, vec![1, 1]);
    assert_eq!(f[1].path, vec![1, 1]);
}

#[test]
fn sinks_in_an_assignment_see_the_taint_before_it() {
    let f = analyze("x = eval(x)\nx = input()\nx = eval(x)\n");
    assert_eq!(f.len(), 1);
    assert_eq!(f[0].path, vec![2, 3]);
}

#[test]
fn a_variable_set_from_itself_keeps_its_provenance() {
    let f = analyze("x = input()\nx = x + \"a\"\nx = \"b\" + x\nexec(x)\n");
    assert_eq!(f.len(), 1);
    assert_eq!(f[0].path, vec![1, 2, 3, 4]);
}

#[test]
fn other_variables_keep_their_taint() {
    let f = analyze("x = input()\ny = x\nx = 1\neval(y)\neval(x)\n");
    assert_eq!(f.len(), 1);
    assert_eq!(f[0].path, vec![1, 2, 4]);
}

#[test]
fn no_source_no_finding() {
    assert!(analyze("a = b\nos.system(a + b + c(d))\nopen(a)\n").is_empty());
}

#[test]
fn a_comparison_is_no_assignment() {
    let f = analyze("x == input()\neval(x)\n");
    assert!(f.is_empty());
}

#[test]
fn added_lines_only_add_findings() {
    let above = "x = input()\neval(x)\n";
    let below = "x = 2\neval(x)\nopen(sys.argv)\n";
    let all = format!("{}{}", above, below);
    let f = analyze(above);
    let g = analyze(&all);
    assert_eq!(f.len(), 1);
    assert_eq!(g.len(), 2);
    assert_eq!(g[0].path, f[0].path);
    assert_eq!(g[1].path, vec![5, 5]);
}

#[test]
fn findings_come_in_the_order_of_their_sinks() {
    let f = analyze("a = input()\nb = input()\neval(b)\nopen(a)\nexec(b)\n");
    let sinks: Vec<usize> = f.iter().map(|x| x.sink_line()).collect();
    assert_eq!(sinks, vec![3, 4, 5]);
}

#[test]
fn blank_lines_and_comments_count_as_lines() {
    let src = "\r\n# eval(input())\r\nx = input() # source\r\n\r\neval(x)";
    let f = analyze(src);
    assert_eq!(f.len(), 1);
    assert_eq!(f[0].path, vec![3, 5]);
}

#[test]
fn missing_parentheses_are_forgiven() {
    let f = analyze("os.system(\"a\" + input(\n");
    assert_eq!(f.len(), 1);
    assert_eq!(f[0].path, vec![1, 1]);
}

#[test]
fn what_follows_the_expression_is_ignored() {
    assert!(analyze("x y eval(input())\n").is_empty());
    assert!(analyze("x = 1 - eval(input())\n").is_empty());
}

#[test]
fn empty_text_has_no_findings() {
    assert!(analyze("").is_empty());
    assert!(analyze("\n\n").is_empty());
}

#[test]
fn report_of_a_clean_file() {
    assert_eq!(
        lint_owl::display::report("a.py", "x = 1\n", &vec![]),
        "no tainted path to a command sink in a.py\n"
    );
}

#[test]
fn report_of_one_finding() {
    let src = "\n\n\nhost = request.args.get(\"host\")\ncmd = \"ping -c 1 \" + host\nos.system(cmd)\n";
    assert_eq!(
        lint_owl::display::report("examples/vuln.py", src, &analyze(src)),
        "== examples/vuln.py ==\n\
         command-injection [critical]: tainted data reaches a command-injection sink\n  \
         [source] line 4: host = request.args.get(\"host\")\n  \
         [flows] line 5: cmd = \"ping -c 1 \" + host\n  \
         [sink] line 6: os.system(cmd)\n\
         \n\
         \n\
         1 tainted path(s) across 1 file(s)\n"
    );
}

#[test]
fn report_of_findings() {
    let src = "eval(input())\nopen(input())\n";
    let f = analyze(src);
    assert_eq!(
        lint_owl::display::report("b.py", src, &f),
        "== b.py ==\n\
         command-injection [critical]: tainted data reaches a command-injection sink\n  \
         [source] line 1: eval(input())\n  [sink] line 1: eval(input())\n\n\
         path-traversal [medium]: tainted data reaches a path-traversal sink\n  \
         [source] line 2: open(input())\n  [sink] line 2: open(input())\n\n\n\
         2 tainted path(s) across 1 file(s)\n"
    );
}

#[test]
fn trace_of_a_finding() {
    let src = "a = input()\n  b = a\nopen(b)\n";
    let traces = lint_owl::display::scan(src);
    assert_eq!(traces.len(), 1);
    assert_eq!(traces[0].vuln, "path-traversal");
    assert_eq!(traces[0].severity, "medium");
    assert_eq!(traces[0].path, vec![1, 2, 3]);
    let hops: Vec<(&str, usize, &str)> = traces[0]
        .hops
        .iter()
        .map(|h| (h.tag.as_str(), h.line, h.code.as_str()))
        .collect();
    assert_eq!(
        hops,
        vec![("source", 1, "a = input()"), ("flows", 2, "b = a"), ("sink", 3, "open(b)")]
    );
    assert!(lint_owl::display::scan("open(b)\n").is_empty());
    let t = lint_owl::display::trace("x", &finding("other", vec![9]));
    assert_eq!(t.severity, "low");
    assert_eq!(t.hops[0].tag, "source");
    assert_eq!(t.hops[0].code, "");
}

fn paths(src: &str) -> Vec<(String, Vec<usize>)> {
    analyze(src).into_iter().map(|f| (f.vuln, f.path)).collect()
}

fn one(vuln: &str, path: Vec<usize>) -> Vec<(String, Vec<usize>)> {
    vec![(String::from(vuln), path)]
}

#[test]
fn flows_through_statements_of_one_line() {
    let found = one("command-injection", vec![1, 1]);
    assert_eq!(paths("a = input(); os.system(a)\n"), found);
    assert_eq!(paths("a = input(); b = a; c = b + a; eval(c)\n"), found);
    assert!(paths("a = input(); a = 1; eval(a)\n").is_empty());
    assert_eq!(
        paths("a = input(); b = a\nc = b; d = c\neval(d); eval(1)\n"),
        one("command-injection", vec![1, 2, 3])
    );
}

#[test]
fn flows_through_calls_of_several_lines() {
    assert_eq!(
        paths("x = input()\nos.system(\n  \"ls \" +\n  x\n)\neval(1)\n"),
        one("command-injection", vec![1, 2])
    );
    assert_eq!(
        paths("x = request.args.get(\n  \"a\",\n)\nopen(x)\n"),
        one("path-traversal", vec![1, 4])
    );
}

#[test]
fn flows_through_chained_calls() {
    assert_eq!(
        paths("q = input()\nconn.cursor().execute(q)\n"),
        one("sql-injection", vec![1, 2])
    );
    assert_eq!(
        paths("x = input().strip().lower()\neval(x)\n"),
        one("command-injection", vec![1, 2])
    );
    assert_eq!(
        paths("x = open(sys.argv).read()\n"),
        one("path-traversal", vec![1, 1])
    );
}

#[test]
fn what_a_method_is_called_on_is_no_argument() {
    assert!(paths("connect(input()).execute(\"SELECT 1\")\n").is_empty());
    assert!(paths("c = input()\nwrap(c).execute(1).execute(2)\n").is_empty());
    assert_eq!(
        paths("connect(input()).execute(sys.argv)\n"),
        one("sql-injection", vec![1, 1])
    );
    assert_eq!(
        paths("x = connect(input()).execute(\"SELECT 1\")\neval(x)\n"),
        one("command-injection", vec![1, 2])
    );
    assert_eq!(
        paths("a = input()\nb = input()\nx = f(a).g(b)\neval(x)\n"),
        one("command-injection", vec![1, 3, 4])
    );
    let f = analyze("open(input()).write(eval(input()))\n");
    assert_eq!(f.len(), 2);
    assert_eq!(f[0].vuln, "path-traversal");
    assert_eq!(f[1].vuln, "command-injection");
}

#[test]
fn comparisons_leave_taint_as_it_is() {
    for op in ["!=", "<=", ">="] {
        for word in ["if", "while", "return"] {
            let kept = format!("x = input()\n{} x {} 1:\nos.system(x)\n", word, op);
            assert_eq!(paths(&kept), one("command-injection", vec![1, 3]));
            let clean = format!("x = 1\n{} x {} input():\nos.system(x)\n", word, op);
            assert!(paths(&clean).is_empty());
        }
    }
    assert_eq!(
        paths("try: x = input()\nelse: x = 1\neval(x)\nfinally: x = input()\neval(x)\n"),
        one("command-injection", vec![4, 5])
    );
}

#[test]
fn flows_into_groups_behind_keywords() {
    assert_eq!(
        paths("cmd = input()\nreturn (a, os.system(cmd))\n"),
        one("command-injection", vec![1, 2])
    );
    assert_eq!(
        paths("q = input()\nwith (open(p), open(q)):\n"),
        one("path-traversal", vec![1, 2])
    );
}

#[test]
fn a_scan_exits_with_one_if_it_finds_anything() {
    let f = analyze("eval(input())\n");
    assert_eq!(lint_owl::display::exit_code(&f, false), 1);
    assert_eq!(lint_owl::display::exit_code(&f, true), 0);
    assert_eq!(lint_owl::display::exit_code(&vec![], false), 0);
    assert_eq!(lint_owl::display::exit_code(&vec![], true), 0);
}

#[test]
fn flows_in_statements_led_by_a_keyword() {
    assert_eq!(
        paths("p = input()\nwith open(p) as f:\n"),
        one("path-traversal", vec![1, 2])
    );
    assert_eq!(paths("return eval(input())\n"), one("command-injection", vec![1, 1]));
    assert_eq!(
        paths("p = input()\nfor line in open(p):\n"),
        one("path-traversal", vec![1, 2])
    );
    assert_eq!(
        paths("try: x = input()\nfinally: exec(x)\n"),
        one("command-injection", vec![1, 2])
    );
}

#[test]
fn flows_through_format_strings() {
    assert_eq!(
        paths("x = input()\nos.system(f\"ls {x}\")\n"),
        one("command-injection", vec![1, 2])
    );
    assert_eq!(
        paths("q = f'{1}{sys.argv}'\ncur.execute(q)\n"),
        one("sql-injection", vec![1, 2])
    );
    assert!(paths("x = input()\nos.system(f\"ls {{x}}\")\n").is_empty());
    assert!(paths("x = input()\nos.system(\"ls {x}\")\n").is_empty());
}

#[test]
fn every_function_of_subprocess_is_a_sink() {
    assert_eq!(
        paths("x = input()\nsubprocess.check_call(x)\nsubprocess.getoutput(x)\n"),
        vec![
            (String::from("command-injection"), vec![1, 2]),
            (String::from("command-injection"), vec![1, 3]),
        ]
    );
}

#[test]
fn sinks_stay_in_order_on_shared_lines() {
    let f = analyze("a = input(); eval(a); open(a)\nexec(\na); open(a)\n");
    let sinks: Vec<usize> = f.iter().map(|x| x.sink_line()).collect();
    assert_eq!(sinks, vec![1, 1, 2, 2]);
}

#[test]
fn hostile_input_ends() {
    let deep = format!("eval({}input()", "(".repeat(100000));
    assert!(analyze(&deep).is_empty());
    let near = format!("eval({}input()", "(".repeat(50));
    assert_eq!(paths(&near), one("command-injection", vec![1, 1]));
}
