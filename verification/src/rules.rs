//! What counts as a source and as a sink.
use vstd::prelude::*;

use crate::text::{
    ends_with, has_prefix, has_suffix, law_beginnings_and_ends, same_text, starts_with,
};

verus! {

/// Calls that return attacker-controlled data, such as `input()`.
pub open spec fn source_calls() -> Seq<Seq<char>> {
    seq![
        "input"@,
        "request.args.get"@,
        "request.form.get"@,
        "request.values.get"@,
        "os.getenv"@,
    ]
}

/// Bare names that are attacker-controlled, such as `sys.argv`.
pub open spec fn source_names() -> Seq<Seq<char>> {
    seq![
        "sys.argv"@,
        "request.args"@,
        "request.form"@,
        "request.data"@,
        "request.values"@,
    ]
}

/// Command-execution sinks by name. Tainted data reaching one is command injection.
pub open spec fn command_sinks() -> Seq<Seq<char>> {
    seq![
        "os.system"@,
        "os.popen"@,
        "eval"@,
        "exec"@,
    ]
}

/// Calls that fetch a URL.
pub open spec fn ssrf_sinks() -> Seq<Seq<char>> {
    seq![
        "requests.get"@,
        "requests.post"@,
        "requests.put"@,
        "requests.delete"@,
        "requests.head"@,
        "requests.request"@,
        "urllib.request.urlopen"@,
        "urlopen"@,
        "httpx.get"@,
        "httpx.post"@,
    ]
}

/// Calls that rebuild objects from bytes.
pub open spec fn deserialize_sinks() -> Seq<Seq<char>> {
    seq![
        "pickle.loads"@,
        "pickle.load"@,
        "yaml.load"@,
        "marshal.loads"@,
        "dill.loads"@,
    ]
}

/// Whether a call by this name runs a command: every function of `subprocess` does.
pub open spec fn is_command_call(name: Seq<char>) -> bool {
    command_sinks().contains(name) || has_prefix(name, "subprocess."@)
}

/// Whether a call by this name hands a query to a database.
pub open spec fn is_query_call(name: Seq<char>) -> bool {
    name == "execute"@ || has_suffix(name, ".execute"@) || has_suffix(name, ".executemany"@)
}

/// Whether a call by this name fetches a URL.
pub open spec fn is_fetch_call(name: Seq<char>) -> bool {
    ssrf_sinks().contains(name) || has_suffix(name, ".urlopen"@)
}

/// The vulnerability class that a called function is a sink for. A function of `subprocess`
/// runs a command whatever its own name is.
pub open spec fn class_of(name: Seq<char>) -> Option<Seq<char>> {
    if is_command_call(name) {
        Some("command-injection"@)
    } else if is_query_call(name) {
        Some("sql-injection"@)
    } else if is_fetch_call(name) {
        Some("ssrf"@)
    } else if name == "open"@ {
        Some("path-traversal"@)
    } else if deserialize_sinks().contains(name) {
        Some("insecure-deserialization"@)
    } else {
        None
    }
}

/// How grave a finding of class `vuln` is.
pub open spec fn severity_of(vuln: Seq<char>) -> Seq<char> {
    if vuln == "command-injection"@ || vuln == "insecure-deserialization"@ {
        "critical"@
    } else if vuln == "sql-injection"@ || vuln == "ssrf"@ {
        "high"@
    } else if vuln == "path-traversal"@ {
        "medium"@
    } else {
        "low"@
    }
}

/// Whether a name of at least five characters has the given last, fourth last and fifth last
/// character.
spec fn ends_in(name: Seq<char>, last: char, fourth: char, fifth: char) -> bool {
    let n = name.len() as int;
    n >= 5 && name[n - 1] == last && name[n - 4] == fourth && name[n - 5] == fifth
}

proof fn lemma_ends_like(name: Seq<char>, suffix: Seq<char>)
    requires
        has_suffix(name, suffix),
        suffix.len() >= 5,
    ensures
        ends_in(
            name,
            suffix[suffix.len() - 1],
            suffix[suffix.len() - 4],
            suffix[suffix.len() - 5],
        ),
{
    let from = name.len() - suffix.len();
    assert(name.skip(from)[suffix.len() - 1] == suffix[suffix.len() - 1]);
    assert(name.skip(from)[suffix.len() - 4] == suffix[suffix.len() - 4]);
    assert(name.skip(from)[suffix.len() - 5] == suffix[suffix.len() - 5]);
}

spec fn has_command_ending(name: Seq<char>) -> bool {
    ||| ends_in(name, 'm', 's', 'y')
    ||| ends_in(name, 'n', 'o', 'p')
    ||| name.len() == 4 && name[0] == 'e' && name[1] == 'v'
    ||| name.len() == 4 && name[0] == 'e' && name[1] == 'x'
}

proof fn lemma_command_ending(name: Seq<char>)
    requires
        command_sinks().contains(name),
    ensures
        has_command_ending(name),
{
    reveal_strlit("os.system");
    reveal_strlit("os.popen");
    reveal_strlit("eval");
    reveal_strlit("exec");
}

spec fn has_query_ending(name: Seq<char>) -> bool {
    ||| ends_in(name, 'e', 'c', 'e')
    ||| ends_in(name, 'y', 'm', 'e')
}

proof fn lemma_query_ending(name: Seq<char>)
    requires
        is_query_call(name),
    ensures
        has_query_ending(name),
{
    reveal_strlit("execute");
    reveal_strlit(".execute");
    reveal_strlit(".executemany");
    if has_suffix(name, ".execute"@) {
        lemma_ends_like(name, ".execute"@);
    }
    if has_suffix(name, ".executemany"@) {
        lemma_ends_like(name, ".executemany"@);
    }
}

spec fn has_fetch_ending(name: Seq<char>) -> bool {
    ||| ends_in(name, 't', '.', 's')
    ||| ends_in(name, 't', 'p', '.')
    ||| ends_in(name, 'e', 'l', 'e')
    ||| ends_in(name, 'd', 'h', '.')
    ||| ends_in(name, 't', 'u', 'q')
    ||| ends_in(name, 'n', 'o', 'l')
    ||| ends_in(name, 't', '.', 'x')
}

proof fn lemma_fetch_ending(name: Seq<char>)
    requires
        is_fetch_call(name),
    ensures
        has_fetch_ending(name),
{
    reveal_strlit("requests.get");
    reveal_strlit("requests.post");
    reveal_strlit("requests.put");
    reveal_strlit("requests.delete");
    reveal_strlit("requests.head");
    reveal_strlit("requests.request");
    reveal_strlit("urllib.request.urlopen");
    reveal_strlit("urlopen");
    reveal_strlit("httpx.get");
    reveal_strlit("httpx.post");
    reveal_strlit(".urlopen");
    if has_suffix(name, ".urlopen"@) {
        lemma_ends_like(name, ".urlopen"@);
    }
}

spec fn has_deserialize_ending(name: Seq<char>) -> bool {
    ||| ends_in(name, 's', 'o', 'l')
    ||| ends_in(name, 'd', 'l', '.')
}

proof fn lemma_deserialize_ending(name: Seq<char>)
    requires
        deserialize_sinks().contains(name),
    ensures
        has_deserialize_ending(name),
        name[0] != 's',
{
    reveal_strlit("pickle.loads");
    reveal_strlit("pickle.load");
    reveal_strlit("yaml.load");
    reveal_strlit("marshal.loads");
    reveal_strlit("dill.loads");
}

/// Each class is a rule of its own. Only a name under `subprocess.` can fall under two of
/// them (`subprocess.execute`), and command injection comes first.
pub proof fn law_classes_do_not_overlap(name: Seq<char>)
    ensures
        class_of(name) == Some("command-injection"@) <==> is_command_call(name),
        class_of(name) == Some("sql-injection"@) <==> is_query_call(name) && !has_prefix(
            name,
            "subprocess."@,
        ),
        class_of(name) == Some("ssrf"@) <==> is_fetch_call(name) && !has_prefix(
            name,
            "subprocess."@,
        ),
        class_of(name) == Some("path-traversal"@) <==> name == "open"@,
        class_of(name) == Some("insecure-deserialization"@) <==> deserialize_sinks().contains(
            name,
        ),
{
    reveal_strlit("command-injection");
    reveal_strlit("sql-injection");
    reveal_strlit("ssrf");
    reveal_strlit("path-traversal");
    reveal_strlit("insecure-deserialization");
    assert("command-injection"@.len() == 17);
    assert("sql-injection"@.len() == 13);
    assert("ssrf"@.len() == 4);
    assert("path-traversal"@.len() == 14);
    assert("insecure-deserialization"@.len() == 24);
    reveal_strlit("open");
    assert("open"@.len() == 4 && "open"@[0] == 'o');
    reveal_strlit("subprocess.");
    if has_prefix(name, "subprocess."@) {
        assert("subprocess."@.len() == 11 && "subprocess."@[0] == 's');
        assert(name.take(11)[0] == name[0]);
    }
    if is_query_call(name) {
        lemma_query_ending(name);
    }
    if is_fetch_call(name) {
        lemma_fetch_ending(name);
    }
    if command_sinks().contains(name) {
        lemma_command_ending(name);
    }
    if deserialize_sinks().contains(name) {
        lemma_deserialize_ending(name);
    }
}

/// Whether `name` is one of the texts in `list`.
fn is_one_of(name: &str, list: &[&'static str]) -> (r: bool)
    ensures
        r == list@.map_values(|s: &str| s@).contains(name@),
{
    let ghost views = list@.map_values(|s: &str| s@);
    let mut i: usize = 0;
    while i < list.len()
        invariant
            i <= list@.len(),
            views == list@.map_values(|s: &str| s@),
            forall|k: int| 0 <= k < i ==> views[k] != name@,
        decreases list@.len() - i,
    {
        if same_text(list[i], name) {
            assert(views[i as int] == name@);
            return true;
        }
        i += 1;
    }
    false
}

/// Whether a call by this name returns attacker-controlled data.
pub fn is_source_call(name: &str) -> (r: bool)
    ensures
        r == source_calls().contains(name@),
{
    let list = [
        "input",
        "request.args.get",
        "request.form.get",
        "request.values.get",
        "os.getenv",
    ];
    assert(list@.map_values(|s: &str| s@) =~= source_calls());
    is_one_of(name, &list)
}

/// Whether this bare name is attacker-controlled.
pub fn is_source_name(name: &str) -> (r: bool)
    ensures
        r == source_names().contains(name@),
{
    let list = ["sys.argv", "request.args", "request.form", "request.data", "request.values"];
    assert(list@.map_values(|s: &str| s@) =~= source_names());
    is_one_of(name, &list)
}

fn is_command_sink(name: &str) -> (r: bool)
    ensures
        r == command_sinks().contains(name@),
{
    let list = [
        "os.system",
        "os.popen",
        "eval",
        "exec",
    ];
    assert(list@.map_values(|s: &str| s@) =~= command_sinks());
    is_one_of(name, &list)
}

fn is_ssrf_sink(name: &str) -> (r: bool)
    ensures
        r == ssrf_sinks().contains(name@),
{
    let list = [
        "requests.get",
        "requests.post",
        "requests.put",
        "requests.delete",
        "requests.head",
        "requests.request",
        "urllib.request.urlopen",
        "urlopen",
        "httpx.get",
        "httpx.post",
    ];
    assert(list@.map_values(|s: &str| s@) =~= ssrf_sinks());
    is_one_of(name, &list)
}

fn is_deserialize_sink(name: &str) -> (r: bool)
    ensures
        r == deserialize_sinks().contains(name@),
{
    let list = ["pickle.loads", "pickle.load", "yaml.load", "marshal.loads", "dill.loads"];
    assert(list@.map_values(|s: &str| s@) =~= deserialize_sinks());
    is_one_of(name, &list)
}

/// Which vulnerability class, if any, a called function is a sink for.
pub fn sink_class(name: &str) -> (r: Option<&'static str>)
    ensures
        match r {
            Some(class) => class_of(name@) == Some(class@),
            None => class_of(name@) is None,
        },
{
    if is_command_sink(name) || starts_with(name, "subprocess.") {
        return Some("command-injection");
    }
    if same_text(name, "execute") || ends_with(name, ".execute") || ends_with(
        name,
        ".executemany",
    ) {
        return Some("sql-injection");
    }
    if is_ssrf_sink(name) || ends_with(name, ".urlopen") {
        return Some("ssrf");
    }
    if same_text(name, "open") {
        return Some("path-traversal");
    }
    if is_deserialize_sink(name) {
        return Some("insecure-deserialization");
    }
    None
}

/// How grave a finding of class `vuln` is.
pub fn severity(vuln: &str) -> (r: &'static str)
    ensures
        r@ == severity_of(vuln@),
{
    if same_text(vuln, "command-injection") || same_text(vuln, "insecure-deserialization") {
        "critical"
    } else if same_text(vuln, "sql-injection") || same_text(vuln, "ssrf") {
        "high"
    } else if same_text(vuln, "path-traversal") {
        "medium"
    } else {
        "low"
    }
}

// ---- Laws of the rules ----

/// What runs a command: the two functions of `os`, `eval` and `exec`, and whatever stands
/// under `subprocess.`; nothing else.
pub proof fn law_command_sinks(name: Seq<char>)
    ensures
        class_of(name) == Some("command-injection"@) <==> {
            ||| name == "os.system"@
            ||| name == "os.popen"@
            ||| name == "eval"@
            ||| name == "exec"@
            ||| exists|rest: Seq<char>| name == #[trigger] ("subprocess."@ + rest)
        },
{
    law_classes_do_not_overlap(name);
    law_beginnings_and_ends(name, "subprocess."@);
    lemma_four(name, "os.system"@, "os.popen"@, "eval"@, "exec"@);
}

/// What hands a query to a database: whatever is called `execute`, alone or as the last part
/// of a dotted name, and `executemany` as the last part of one; nothing under `subprocess.`.
pub proof fn law_query_sinks(name: Seq<char>)
    ensures
        class_of(name) == Some("sql-injection"@) <==> {
            &&& name == "execute"@ || (exists|rest: Seq<char>| name == #[trigger] (rest
                + ".execute"@)) || (exists|rest: Seq<char>| name == #[trigger] (rest
                + ".executemany"@))
            &&& !(exists|rest: Seq<char>| name == #[trigger] ("subprocess."@ + rest))
        },
{
    law_classes_do_not_overlap(name);
    law_beginnings_and_ends(name, "subprocess."@);
    law_beginnings_and_ends(name, ".execute"@);
    law_beginnings_and_ends(name, ".executemany"@);
}

/// What fetches a URL: the calls of `requests`, `urllib` and `httpx` that are named here, and
/// `urlopen` as the last part of a dotted name; nothing under `subprocess.`.
pub proof fn law_fetch_sinks(name: Seq<char>)
    ensures
        class_of(name) == Some("ssrf"@) <==> {
            &&& {
                ||| name == "requests.get"@
                ||| name == "requests.post"@
                ||| name == "requests.put"@
                ||| name == "requests.delete"@
                ||| name == "requests.head"@
                ||| name == "requests.request"@
                ||| name == "urllib.request.urlopen"@
                ||| name == "urlopen"@
                ||| name == "httpx.get"@
                ||| name == "httpx.post"@
                ||| exists|rest: Seq<char>| name == #[trigger] (rest + ".urlopen"@)
            }
            &&& !(exists|rest: Seq<char>| name == #[trigger] ("subprocess."@ + rest))
        },
{
    law_classes_do_not_overlap(name);
    law_beginnings_and_ends(name, "subprocess."@);
    law_beginnings_and_ends(name, ".urlopen"@);
    let list = ssrf_sinks();
    assert(list[0] == "requests.get"@ && list[1] == "requests.post"@ && list[2]
        == "requests.put"@ && list[3] == "requests.delete"@ && list[4] == "requests.head"@
        && list[5] == "requests.request"@ && list[6] == "urllib.request.urlopen"@ && list[7]
        == "urlopen"@ && list[8] == "httpx.get"@ && list[9] == "httpx.post"@);
}

/// What opens a file by its path, and what rebuilds objects from bytes.
pub proof fn law_file_and_object_sinks(name: Seq<char>)
    ensures
        class_of(name) == Some("path-traversal"@) <==> name == "open"@,
        class_of(name) == Some("insecure-deserialization"@) <==> {
            ||| name == "pickle.loads"@
            ||| name == "pickle.load"@
            ||| name == "yaml.load"@
            ||| name == "marshal.loads"@
            ||| name == "dill.loads"@
        },
{
    law_classes_do_not_overlap(name);
    let list = deserialize_sinks();
    assert(list[0] == "pickle.loads"@ && list[1] == "pickle.load"@ && list[2] == "yaml.load"@
        && list[3] == "marshal.loads"@ && list[4] == "dill.loads"@);
}

/// There are five classes and no other, and a name that is in none of them is no sink.
pub proof fn law_five_classes(name: Seq<char>)
    ensures
        class_of(name) matches Some(class) ==> {
            ||| class == "command-injection"@
            ||| class == "sql-injection"@
            ||| class == "ssrf"@
            ||| class == "path-traversal"@
            ||| class == "insecure-deserialization"@
        },
{
}

proof fn lemma_four(
    name: Seq<char>,
    a: Seq<char>,
    b: Seq<char>,
    c: Seq<char>,
    d: Seq<char>,
)
    ensures
        seq![a, b, c, d].contains(name) <==> name == a || name == b || name == c || name == d,
{
    let list = seq![a, b, c, d];
    assert(list[0] == a && list[1] == b && list[2] == c && list[3] == d);
}

/// What attacker-controlled data comes from: five calls and five bare names.
pub proof fn law_sources(name: Seq<char>)
    ensures
        source_calls().contains(name) <==> {
            ||| name == "input"@
            ||| name == "request.args.get"@
            ||| name == "request.form.get"@
            ||| name == "request.values.get"@
            ||| name == "os.getenv"@
        },
        source_names().contains(name) <==> {
            ||| name == "sys.argv"@
            ||| name == "request.args"@
            ||| name == "request.form"@
            ||| name == "request.data"@
            ||| name == "request.values"@
        },
{
    let c = source_calls();
    assert(c[0] == "input"@ && c[1] == "request.args.get"@ && c[2] == "request.form.get"@ && c[3]
        == "request.values.get"@ && c[4] == "os.getenv"@);
    let n = source_names();
    assert(n[0] == "sys.argv"@ && n[1] == "request.args"@ && n[2] == "request.form"@ && n[3]
        == "request.data"@ && n[4] == "request.values"@);
}

/// How grave each class is.
pub proof fn law_severities(vuln: Seq<char>)
    ensures
        severity_of(vuln) == "critical"@ <==> vuln == "command-injection"@ || vuln
            == "insecure-deserialization"@,
        severity_of(vuln) == "high"@ <==> vuln == "sql-injection"@ || vuln == "ssrf"@,
        severity_of(vuln) == "medium"@ <==> vuln == "path-traversal"@,
        severity_of(vuln) == "critical"@ || severity_of(vuln) == "high"@ || severity_of(vuln)
            == "medium"@ || severity_of(vuln) == "low"@,
{
    reveal_strlit("critical");
    reveal_strlit("high");
    reveal_strlit("medium");
    reveal_strlit("low");
    assert("critical"@.len() == 8 && "high"@.len() == 4 && "medium"@.len() == 6 && "low"@.len()
        == 3);
    reveal_strlit("command-injection");
    reveal_strlit("insecure-deserialization");
    reveal_strlit("sql-injection");
    reveal_strlit("ssrf");
    reveal_strlit("path-traversal");
    assert("command-injection"@.len() == 17 && "insecure-deserialization"@.len() == 24
        && "sql-injection"@.len() == 13 && "ssrf"@.len() == 4 && "path-traversal"@.len() == 14);
}

} // verus!
