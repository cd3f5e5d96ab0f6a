use lint_owl::display::scan;
use lint_owl::mcp::{address, handle, read_request, respond, respond_to, Answer, Reply};
use lint_owl::server::{scan_response, Body, ScanOutcome};
use serde_json::Value;

#[test]
fn initialize_names_protocol_and_server() {
    match handle("initialize", "", "") {
        Reply::Answered(Answer::Initialized { protocol, server }) => {
            assert_eq!(protocol, "2024-11-05");
            assert_eq!(server, "lint-owl");
        }
        other => panic!("{:?}", other),
    }
}

#[test]
fn ping_is_answered_with_nothing() {
    assert!(matches!(
        handle("ping", "", ""),
        Reply::Answered(Answer::Pong)
    ));
}

#[test]
fn initialized_notification_is_silent() {
    assert!(matches!(
        handle("notifications/initialized", "", ""),
        Reply::Silent
    ));
}

#[test]
fn the_scan_tool_is_listed() {
    match handle("tools/list", "", "") {
        Reply::Answered(Answer::Tools {
            name,
            description,
            argument,
            argument_description,
        }) => {
            assert_eq!(name, "lint_owl_scan");
            assert!(description.starts_with("Scan source code (Python subset)"));
            assert_eq!(argument, "code");
            assert_eq!(argument_description, "The source code to scan.");
        }
        other => panic!("{:?}", other),
    }
}

#[test]
fn unknown_method_is_refused() {
    match handle("tools/drop", "", "") {
        Reply::Refused(code, message) => {
            assert_eq!(code, -32601);
            assert_eq!(message, "method not found: tools/drop");
        }
        other => panic!("{:?}", other),
    }
}

#[test]
fn unknown_tool_is_an_error_of_the_call() {
    match handle("tools/call", "rm", "eval(input())") {
        Reply::Answered(Answer::ToolError(message)) => assert_eq!(message, "unknown tool: rm"),
        other => panic!("{:?}", other),
    }
}

#[test]
fn a_scan_returns_the_findings() {
    match handle("tools/call", "lint_owl_scan", "x = input()\neval(x)\n") {
        Reply::Answered(Answer::Scanned(fs)) => {
            assert_eq!(fs.len(), 1);
            assert_eq!(fs[0].path, vec![1, 2]);
            assert_eq!(fs[0].severity, "critical");
            assert_eq!(fs[0].hops.len(), 2);
            assert_eq!(fs[0].hops[0].code, "x = input()");
            assert_eq!(fs[0].hops[1].tag, "sink");
        }
        other => panic!("{:?}", other),
    }
}

#[test]
fn a_line_is_answered_with_its_id() {
    let line = "{\"id\": 7, \"method\": \"tools/call\", \"params\": {\"name\": \"lint_owl_scan\", \"arguments\": {\"code\": \"eval(input())\\n\"}}}";
    let e = respond(line).unwrap();
    assert_eq!(e.id, Value::from(7));
    match e.reply {
        Reply::Answered(Answer::Scanned(fs)) => {
            assert_eq!(fs.len(), 1);
            assert_eq!(fs[0].vuln, "command-injection");
            assert_eq!(fs[0].path, vec![1, 1]);
        }
        other => panic!("{:?}", other),
    }
}

#[test]
fn an_id_may_be_null() {
    let e = respond("{\"id\": null, \"method\": \"ping\"}").unwrap();
    assert_eq!(e.id, Value::Null);
    assert!(matches!(e.reply, Reply::Answered(Answer::Pong)));
}

#[test]
fn no_answer_without_an_id() {
    assert!(respond("{\"method\": \"ping\"}").is_none());
    assert!(respond("{\"method\": \"nonsense\"}").is_none());
    assert!(respond("[1, 2]").is_none());
    assert!(respond("{\"id\": 1, \"method\": \"notifications/initialized\"}").is_none());
}

#[test]
fn no_answer_to_blank_or_broken_lines() {
    assert!(respond("").is_none());
    assert!(respond(" \t\u{3000}").is_none());
    assert!(respond("{\"id\": 1, \"method\": \"ping\"").is_none());
    assert!(respond("{\"id\": 1} x").is_none());
}

#[test]
fn missing_and_wrong_fields_read_as_empty() {
    let doc: Value = serde_json::from_str(
        "{\"id\": \"a\", \"method\": 5, \"params\": {\"name\": [], \"arguments\": \"code\"}}",
    )
    .unwrap();
    let r = read_request(&doc);
    assert_eq!(r.id, Some(Value::from("a")));
    assert_eq!(r.method, "");
    assert_eq!(r.tool, "");
    assert_eq!(r.code, "");
    match respond_to(&doc).unwrap().reply {
        Reply::Refused(code, message) => {
            assert_eq!(code, -32601);
            assert_eq!(message, "method not found: ");
        }
        other => panic!("{:?}", other),
    }
}

#[test]
fn fields_are_read_where_they_stand() {
    let doc: Value = serde_json::from_str(
        "{\"method\": \"m\", \"params\": {\"name\": \"t\", \"arguments\": {\"code\": \"c\"}}}",
    )
    .unwrap();
    let r = read_request(&doc);
    assert!(r.id.is_none());
    assert_eq!(r.method, "m");
    assert_eq!(r.tool, "t");
    assert_eq!(r.code, "c");
}

#[test]
fn a_tool_call_without_params_names_no_tool() {
    let e = respond("{\"id\": 2, \"method\": \"tools/call\"}").unwrap();
    match e.reply {
        Reply::Answered(Answer::ToolError(message)) => assert_eq!(message, "unknown tool: "),
        other => panic!("{:?}", other),
    }
}

#[test]
fn silence_and_missing_ids_are_not_addressed() {
    assert!(address(Some(Value::from(1)), Reply::Silent).is_none());
    assert!(address(None, Reply::Answered(Answer::Pong)).is_none());
    assert_eq!(
        address(Some(Value::from(1)), Reply::Answered(Answer::Pong))
            .unwrap()
            .id,
        Value::from(1)
    );
}

#[test]
fn scan_responses() {
    let found = scan("requests.get(input())\n");
    let done = scan_response(ScanOutcome::Done(found));
    assert_eq!(done.status, 200);
    assert!(matches!(done.body, Body::Findings(ref fs) if fs.len() == 1));
    let failed = scan_response(ScanOutcome::Failed);
    assert_eq!(failed.status, 500);
    assert!(matches!(failed.body, Body::Error(ref m) if m == "scan task failed"));
    let late = scan_response(ScanOutcome::TimedOut);
    assert_eq!(late.status, 504);
    assert!(matches!(late.body, Body::Error(ref m) if m == "scan timed out"));
}
