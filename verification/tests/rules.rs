use lint_owl::rules::{is_source_call, is_source_name, severity, sink_class};

#[test]
fn every_sink_has_its_class() {
    let table: Vec<(&str, Vec<&str>)> = vec![
        (
            "command-injection",
            vec![
                "os.system",
                "os.popen",
                "subprocess.run",
                "subprocess.call",
                "subprocess.Popen",
                "subprocess.check_output",
                "subprocess.check_call",
                "subprocess.getoutput",
                "subprocess.execute",
                "subprocess.",
                "eval",
                "exec",
            ],
        ),
        (
            "sql-injection",
            vec!["execute", "cur.execute", "a.b.executemany", ".execute"],
        ),
        (
            "ssrf",
            vec![
                "requests.get",
                "requests.post",
                "requests.put",
                "requests.delete",
                "requests.head",
                "requests.request",
                "urllib.request.urlopen",
                "urlopen",
                "httpx.get",
                "httpx.post",
                "u.urlopen",
            ],
        ),
        ("path-traversal", vec!["open"]),
        (
            "insecure-deserialization",
            vec![
                "pickle.loads",
                "pickle.load",
                "yaml.load",
                "marshal.loads",
                "dill.loads",
            ],
        ),
    ];
    for (class, names) in table {
        for name in names {
            assert_eq!(sink_class(name), Some(class));
        }
    }
}

#[test]
fn other_calls_are_no_sinks() {
    for name in ["", "print", "executemany", "os.open", "Eval", "system", "requests.patch", "subprocess", "my.subprocess.run"] {
        assert_eq!(sink_class(name), None);
    }
}

#[test]
fn sources() {
    for name in [
        "input",
        "request.args.get",
        "request.form.get",
        "request.values.get",
        "os.getenv",
    ] {
        assert!(is_source_call(name));
        assert!(!is_source_name(name));
    }
    for name in [
        "sys.argv",
        "request.args",
        "request.form",
        "request.data",
        "request.values",
    ] {
        assert!(is_source_name(name));
        assert!(!is_source_call(name));
    }
    assert!(!is_source_call("raw_input"));
    assert!(!is_source_name("argv"));
}

#[test]
fn every_class_has_its_severity() {
    assert_eq!(severity("command-injection"), "critical");
    assert_eq!(severity("insecure-deserialization"), "critical");
    assert_eq!(severity("sql-injection"), "high");
    assert_eq!(severity("ssrf"), "high");
    assert_eq!(severity("path-traversal"), "medium");
    assert_eq!(severity("other"), "low");
}
