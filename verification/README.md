# Lint-Owl

A taint analyzer for a Python subset, verified with Verus. Its result is the data-flow path
from an untrusted source to a dangerous sink: the line of the source, each line that passes
the data on, the line of the sink.

    == ping.py ==
    command-injection [critical]: tainted data reaches a command-injection sink
      [source] line 1: cmd = input()
      [flows] line 2: full = "ping " + cmd
      [sink] line 3: os.system(full)


    1 tainted path(s) across 1 file(s)

What it reads: assignments, calls, string concatenation, f-strings (`f"ls {x}"`), method
chaining (`conn.cursor().execute(q)`), statements led by a keyword (`with open(p) as f:`,
`return run(x)`), several statements on a line with semicolons between them, and calls that
run over several lines. A statement counts as standing on the first of its lines.

What is proved:

- `analyze` reports exactly the flows: every finding is a flow of data from a source along
  the lines of its path into a sink call (`analysis::law_analysis_finds_only_flows`), and
  every flow into a sink call has its finding (`analysis::law_analysis_finds_every_flow`).
- Assigning a clean value clears a variable, and touches no other
  (`flow::law_assignment_decides_taint`, `flow::law_other_variables_keep_their_taint`).
- Expressions are read as they are written (`grammar::law_expressions_read_as_written`), and
  statements are the pieces of the logical lines (`statements::law_statements_are_pieces`,
  `statements::law_semicolon_separates`).
- A condition is evaluated and sets nothing (`statements::law_what_is_an_assignment`).
- What a method is called on carries data, but is no argument of a sink
  (`flow::law_method_calls_carry_their_receiver`, `flow::law_receiver_alone_is_no_finding`).
- Nesting is bounded: past `MAX_NESTING` open parentheses a primary is a literal, so hostile
  input is cut short instead of running the parser out of stack
  (`parser::law_nesting_is_bounded`, `statements::law_statements_nest_within_bound`).
- No function of the library panics, and each states its result in its contract.

Limits: one scope, no control flow, no sanitizers; strings end with their line, three quotes
in a row have no meaning of their own, and the arguments of a call are read up to the first
that is given by keyword. Findings are candidate paths that a person confirms.

A scan exits with one if it finds anything, with zero if it does not or `--exit-zero` is
given.

Layout: `src/` is the verified library, `tests/` runs it, `app/` is the command line, the
HTTP service and the tool server around it.

    lint-owl scan FILE [--json] [--exit-zero]
    lint-owl serve --port 8080
    lint-owl mcp
