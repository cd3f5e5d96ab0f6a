//! The dialogue of the tool server, by which a client asks for the findings of some code:
//! JSON-RPC 2.0, one message on a line.
use serde_json::Value;
use vstd::prelude::*;

use crate::display::{scan, scan_of, trace_views, Trace, TraceView};
use crate::json::{
    copy_value, get_member, get_text, json_document, json_members, json_string, member,
    read_document, text_member,
};
use crate::text::{same_text, trim, trimmed};

verus! {

// ---- Replies ----

/// The result of a request that was carried out.
#[derive(Debug)]
pub enum Answer {
    /// The server speaks version `protocol`, and its name is `server`.
    Initialized { protocol: String, server: String },
    /// An empty result.
    Pong,
    /// The server has one tool.
    Tools { name: String, description: String, argument: String, argument_description: String },
    /// What a scan found.
    Scanned(Vec<Trace>),
    /// The tool call failed with this message.
    ToolError(String),
}

/// What becomes of a request.
#[derive(Debug)]
pub enum Reply {
    Answered(Answer),
    /// An error with its code and message.
    Refused(i64, String),
    /// Nothing is sent.
    Silent,
}

/// An answer as a mathematical value.
#[verifier::ext_equal]
pub enum AnswerView {
    Initialized { protocol: Seq<char>, server: Seq<char> },
    Pong,
    Tools {
        name: Seq<char>,
        description: Seq<char>,
        argument: Seq<char>,
        argument_description: Seq<char>,
    },
    Scanned(Seq<TraceView>),
    ToolError(Seq<char>),
}

/// A reply as a mathematical value.
#[verifier::ext_equal]
pub enum ReplyView {
    Answered(AnswerView),
    Refused(int, Seq<char>),
    Silent,
}

impl View for Answer {
    type V = AnswerView;

    open spec fn view(&self) -> AnswerView {
        match self {
            Answer::Initialized { protocol, server } => AnswerView::Initialized {
                protocol: protocol@,
                server: server@,
            },
            Answer::Pong => AnswerView::Pong,
            Answer::Tools { name, description, argument, argument_description } =>
            AnswerView::Tools {
                name: name@,
                description: description@,
                argument: argument@,
                argument_description: argument_description@,
            },
            Answer::Scanned(ts) => AnswerView::Scanned(trace_views(ts@)),
            Answer::ToolError(m) => AnswerView::ToolError(m@),
        }
    }
}

impl View for Reply {
    type V = ReplyView;

    open spec fn view(&self) -> ReplyView {
        match self {
            Reply::Answered(a) => ReplyView::Answered(a@),
            Reply::Refused(code, message) => ReplyView::Refused(*code as int, message@),
            Reply::Silent => ReplyView::Silent,
        }
    }
}

/// The one tool of the server.
pub open spec fn scan_tool() -> AnswerView {
    AnswerView::Tools {
        name: "lint_owl_scan"@,
        description: "Scan source code (Python subset) and return data-flow paths from an untrusted source to a dangerous sink (command injection, SQL injection, SSRF, path traversal, insecure deserialization). Each finding lists the source line, the flow, and the sink line."@,
        argument: "code"@,
        argument_description: "The source code to scan."@,
    }
}

/// What a call of tool `tool` on `code` answers.
pub open spec fn tool_answer(tool: Seq<char>, code: Seq<char>) -> AnswerView {
    if tool == "lint_owl_scan"@ {
        AnswerView::Scanned(scan_of(code))
    } else {
        AnswerView::ToolError("unknown tool: "@ + tool)
    }
}

/// The reply to a request for `method`; `tool` and `code` are what a tool call names.
pub open spec fn reply_to(method: Seq<char>, tool: Seq<char>, code: Seq<char>) -> ReplyView {
    if method == "initialize"@ {
        ReplyView::Answered(
            AnswerView::Initialized { protocol: "2024-11-05"@, server: "lint-owl"@ },
        )
    } else if method == "notifications/initialized"@ {
        ReplyView::Silent
    } else if method == "ping"@ {
        ReplyView::Answered(AnswerView::Pong)
    } else if method == "tools/list"@ {
        ReplyView::Answered(scan_tool())
    } else if method == "tools/call"@ {
        ReplyView::Answered(tool_answer(tool, code))
    } else {
        ReplyView::Refused(-32601, "method not found: "@ + method)
    }
}

/// The reply to a request for `method`; `tool` and `code` are what a tool call names.
pub fn handle(method: &str, tool: &str, code: &str) -> (r: Reply)
    ensures
        r@ == reply_to(method@, tool@, code@),
{
    if same_text(method, "initialize") {
        Reply::Answered(
            Answer::Initialized { protocol: "2024-11-05".to_owned(), server: "lint-owl".to_owned() },
        )
    } else if same_text(method, "notifications/initialized") {
        Reply::Silent
    } else if same_text(method, "ping") {
        Reply::Answered(Answer::Pong)
    } else if same_text(method, "tools/list") {
        Reply::Answered(
            Answer::Tools {
                name: "lint_owl_scan".to_owned(),
                description:
                    "Scan source code (Python subset) and return data-flow paths from an untrusted source to a dangerous sink (command injection, SQL injection, SSRF, path traversal, insecure deserialization). Each finding lists the source line, the flow, and the sink line.".to_owned(),
                argument: "code".to_owned(),
                argument_description: "The source code to scan.".to_owned(),
            },
        )
    } else if same_text(method, "tools/call") {
        if same_text(tool, "lint_owl_scan") {
            Reply::Answered(Answer::Scanned(scan(code)))
        } else {
            let mut message = String::from_str("unknown tool: ");
            message.append(tool);
            Reply::Answered(Answer::ToolError(message))
        }
    } else {
        let mut message = String::from_str("method not found: ");
        message.append(method);
        Reply::Refused(-32601, message)
    }
}

// ---- Requests ----

/// What the server reads in a request.
pub struct Request {
    /// The request's identifier; a notification has none.
    pub id: Option<Value>,
    pub method: String,
    /// The tool that a tool call names.
    pub tool: String,
    /// The code that a tool call is about.
    pub code: String,
}

/// The tool that a request names in `params.name`; empty if it names none.
pub open spec fn tool_in(doc: Value) -> Seq<char> {
    match member(doc, "params"@) {
        Some(params) => text_member(params, "name"@),
        None => Seq::empty(),
    }
}

/// The code that a request holds in `params.arguments.code`; empty if it holds none.
pub open spec fn code_in(doc: Value) -> Seq<char> {
    match member(doc, "params"@) {
        Some(params) => match member(params, "arguments"@) {
            Some(arguments) => text_member(arguments, "code"@),
            None => Seq::empty(),
        },
        None => Seq::empty(),
    }
}

/// Reads a request. What is missing, or is no string where one is due, reads as empty.
pub fn read_request(doc: &Value) -> (r: Request)
    ensures
        r.id == member(*doc, "id"@),
        r.method@ == text_member(*doc, "method"@),
        r.tool@ == tool_in(*doc),
        r.code@ == code_in(*doc),
{
    let id = match get_member(doc, "id") {
        Some(id) => Some(copy_value(id)),
        None => None,
    };
    let method = get_text(doc, "method");
    match get_member(doc, "params") {
        Some(params) => {
            let tool = get_text(params, "name");
            let code = match get_member(params, "arguments") {
                Some(arguments) => get_text(arguments, "code"),
                None => String::new(),
            };
            Request { id, method, tool, code }
        },
        None => Request { id, method, tool: String::new(), code: String::new() },
    }
}

// ---- The dialogue ----

/// What is sent back: a reply, with the identifier of the request that it answers.
pub struct Envelope {
    pub id: Value,
    pub reply: Reply,
}

/// The reply goes back with the identifier of the request; nothing goes back to a request
/// without one, or if the reply is silence.
pub open spec fn addressed(id: Option<Value>, reply: ReplyView) -> Option<(Value, ReplyView)> {
    match id {
        Some(id) => if reply is Silent {
            None
        } else {
            Some((id, reply))
        },
        None => None,
    }
}

/// An envelope as a mathematical value.
pub open spec fn envelope_view(e: Option<Envelope>) -> Option<(Value, ReplyView)> {
    match e {
        Some(e) => Some((e.id, e.reply@)),
        None => None,
    }
}

/// Addresses a reply to the request with identifier `id`.
pub fn address(id: Option<Value>, reply: Reply) -> (r: Option<Envelope>)
    ensures
        envelope_view(r) == addressed(id, reply@),
{
    match reply {
        Reply::Silent => None,
        reply => match id {
            Some(id) => Some(Envelope { id, reply }),
            None => None,
        },
    }
}

/// What is sent back for a message, given the document that it holds.
pub open spec fn response_to(doc: Value) -> Option<(Value, ReplyView)> {
    addressed(
        member(doc, "id"@),
        reply_to(text_member(doc, "method"@), tool_in(doc), code_in(doc)),
    )
}

/// What is sent back for a message, given the document that it holds.
pub fn respond_to(doc: &Value) -> (r: Option<Envelope>)
    ensures
        envelope_view(r) == response_to(*doc),
{
    let request = read_request(doc);
    let reply = handle(request.method.as_str(), request.tool.as_str(), request.code.as_str());
    address(request.id, reply)
}

/// What is sent back for a line of input: nothing if it is blank or holds no document.
pub open spec fn response(line: Seq<char>) -> Option<(Value, ReplyView)> {
    if trimmed(line).len() == 0 {
        None
    } else {
        match json_document(line) {
            Some(doc) => response_to(doc),
            None => None,
        }
    }
}

/// What is sent back for a line of input.
pub fn respond(line: &str) -> (r: Option<Envelope>)
    ensures
        envelope_view(r) == response(line@),
{
    let content = trim(line);
    if content.as_str().is_empty() {
        return None;
    }
    match read_document(line) {
        Ok(doc) => respond_to(&doc),
        Err(_) => None,
    }
}

// ---- Laws of the dialogue ----

/// A notification, which has no identifier, is never answered.
pub proof fn law_notifications_are_not_answered(doc: Value)
    requires
        member(doc, "id"@) is None,
    ensures
        response_to(doc) is None,
{
}

/// Whatever is sent back carries the identifier of the request, and is the result or the
/// error of its method.
pub proof fn law_responses_carry_the_request_id(line: Seq<char>)
    requires
        response(line) is Some,
    ensures
        json_document(line) is Some,
        member(json_document(line)->0, "id"@) == Some((response(line)->0).0),
        (response(line)->0).1 !is Silent,
{
}

/// Whether the server knows a method.
pub open spec fn is_method(method: Seq<char>) -> bool {
    ||| method == "initialize"@
    ||| method == "notifications/initialized"@
    ||| method == "ping"@
    ||| method == "tools/list"@
    ||| method == "tools/call"@
}

/// A request is refused if and only if its method is unknown, and the refusal names the
/// method.
pub proof fn law_unknown_methods_are_refused(
    method: Seq<char>,
    tool: Seq<char>,
    code: Seq<char>,
)
    ensures
        reply_to(method, tool, code) is Refused <==> !is_method(method),
        !is_method(method) ==> reply_to(method, tool, code) == ReplyView::Refused(
            -32601,
            "method not found: "@ + method,
        ),
{
}

/// What each method answers: the handshake names the protocol and the server, the listing has
/// the one tool with its one argument, a call of that tool has the traces of its code, and a
/// call of any other says which tool is unknown.
pub proof fn law_what_methods_answer(tool: Seq<char>, code: Seq<char>)
    ensures
        reply_to("initialize"@, tool, code) == ReplyView::Answered(
            AnswerView::Initialized { protocol: "2024-11-05"@, server: "lint-owl"@ },
        ),
        reply_to("notifications/initialized"@, tool, code) == ReplyView::Silent,
        reply_to("ping"@, tool, code) == ReplyView::Answered(AnswerView::Pong),
        reply_to("tools/list"@, tool, code) matches ReplyView::Answered(answer) && (answer matches
            AnswerView::Tools { name, description, argument, argument_description } && name
            == "lint_owl_scan"@ && argument == "code"@ && argument_description
            == "The source code to scan."@ && description
            == "Scan source code (Python subset) and return data-flow paths from an untrusted source to a dangerous sink (command injection, SQL injection, SSRF, path traversal, insecure deserialization). Each finding lists the source line, the flow, and the sink line."@),
        reply_to("tools/call"@, "lint_owl_scan"@, code) == ReplyView::Answered(
            AnswerView::Scanned(scan_of(code)),
        ),
        tool != "lint_owl_scan"@ ==> reply_to("tools/call"@, tool, code) == ReplyView::Answered(
            AnswerView::ToolError("unknown tool: "@ + tool),
        ),
{
    reveal_strlit("initialize");
    reveal_strlit("notifications/initialized");
    reveal_strlit("ping");
    reveal_strlit("tools/list");
    reveal_strlit("tools/call");
    assert("initialize"@.len() == 10 && "initialize"@[0] == 'i');
    assert("notifications/initialized"@.len() == 25);
    assert("ping"@.len() == 4);
    assert("tools/list"@.len() == 10 && "tools/list"@[0] == 't' && "tools/list"@[6] == 'l');
    assert("tools/call"@.len() == 10 && "tools/call"@[6] == 'c');
}

/// Every request with an identifier is answered, but for the one notification that asks for
/// silence: the line is not blank and holds a document with an identifier and a method.
pub proof fn law_requests_are_answered(line: Seq<char>, doc: Value, id: Value, method: Seq<char>)
    requires
        trimmed(line).len() > 0,
        json_document(line) == Some(doc),
        json_members(doc).contains_key("id"@),
        json_members(doc)["id"@] == id,
        json_members(doc).contains_key("method"@),
        json_string(json_members(doc)["method"@]) == Some(method),
        method != "notifications/initialized"@,
    ensures
        response(line) == Some((id, reply_to(method, tool_in(doc), code_in(doc)))),
{
}

/// A scan over the wire is answered with the traces of its code: the request calls the tool by
/// its name, and holds the code among the arguments.
pub proof fn law_scan_requests_are_answered_with_traces(
    line: Seq<char>,
    doc: Value,
    id: Value,
    params: Value,
    arguments: Value,
    code: Seq<char>,
)
    requires
        trimmed(line).len() > 0,
        json_document(line) == Some(doc),
        json_members(doc).contains_key("id"@),
        json_members(doc)["id"@] == id,
        json_members(doc).contains_key("method"@),
        json_string(json_members(doc)["method"@]) == Some("tools/call"@),
        json_members(doc).contains_key("params"@),
        json_members(doc)["params"@] == params,
        json_members(params).contains_key("name"@),
        json_string(json_members(params)["name"@]) == Some("lint_owl_scan"@),
        json_members(params).contains_key("arguments"@),
        json_members(params)["arguments"@] == arguments,
        json_members(arguments).contains_key("code"@),
        json_string(json_members(arguments)["code"@]) == Some(code),
    ensures
        response(line) == Some((id, ReplyView::Answered(AnswerView::Scanned(scan_of(code))))),
{
    law_what_methods_answer("lint_owl_scan"@, code);
}

/// A blank line, a line without a document, and a document without an identifier are not
/// answered.
pub proof fn law_what_is_not_answered(line: Seq<char>)
    ensures
        trimmed(line).len() == 0 ==> response(line) is None,
        json_document(line) is None ==> response(line) is None,
        json_document(line) matches Some(doc) && !json_members(doc).contains_key("id"@)
            ==> response(line) is None,
{
}

/// What a request lacks, or has as something other than a string, reads as empty.
pub proof fn law_missing_members_read_as_empty(doc: Value, key: Seq<char>)
    ensures
        !json_members(doc).contains_key(key) ==> text_member(doc, key).len() == 0,
        json_members(doc).contains_key(key) && json_string(json_members(doc)[key]) is None
            ==> text_member(doc, key).len() == 0,
        json_members(doc).contains_key(key) ==> (json_string(json_members(doc)[key]) matches Some(
            text,
        ) ==> text_member(doc, key) == text),
        !json_members(doc).contains_key("params"@) ==> tool_in(doc).len() == 0 && code_in(
            doc,
        ).len() == 0,
{
}

} // verus!
