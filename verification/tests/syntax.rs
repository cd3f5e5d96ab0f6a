use lint_owl::lexer::{lex_line, Tok};
use lint_owl::parser::{Expr, Stmt, MAX_NESTING, P};
use lint_owl::statements::{is_block_keyword, is_keyword, parse};

fn shown(line: &str) -> String {
    let mut out = String::new();
    for t in lex_line(line) {
        match t {
            Tok::Name(n) => {
                out.push('<');
                out.push_str(&n);
                out.push('>');
            }
            Tok::Lit => out.push('L'),
            Tok::LParen => out.push('('),
            Tok::RParen => out.push(')'),
            Tok::Comma => out.push(','),
            Tok::Plus => out.push('+'),
            Tok::Eq => out.push('='),
            Tok::Semi => out.push(';'),
            Tok::Format(parts) => {
                out.push('{');
                out.push_str(&parts.join("|"));
                out.push('}');
            }
        }
    }
    out
}

fn tree(e: &Expr) -> String {
    match e {
        Expr::Name(n) => n.clone(),
        Expr::Lit => String::from("L"),
        Expr::Call { name, args } => {
            let inner: Vec<String> = args.iter().map(tree).collect();
            format!("{}({})", name, inner.join(","))
        }
        Expr::Method {
            receiver,
            name,
            args,
        } => {
            let inner: Vec<String> = args.iter().map(tree).collect();
            format!("{}{}({})", tree(receiver), name, inner.join(","))
        }
        Expr::Concat(parts) => {
            let inner: Vec<String> = parts.iter().map(tree).collect();
            format!("[{}]", inner.join("+"))
        }
    }
}

fn read(line: &str) -> String {
    let mut p = P {
        toks: lex_line(line),
        pos: 0,
        depth: MAX_NESTING,
    };
    tree(&p.expr())
}

#[test]
fn tokens_of_an_assignment() {
    assert_eq!(shown("full = \"ping \" + cmd"), "<full>=L+<cmd>");
}

#[test]
fn every_kind_of_token() {
    assert_eq!(shown("f(a, 1.5 + 'x') == b = 2"), "<f>(<a>,L+L)L<b>=L");
}

#[test]
fn equals_signs_pair_from_the_left() {
    assert_eq!(shown("==="), "L=");
    assert_eq!(shown("====") , "LL");
    assert_eq!(shown("= ="), "==");
}

#[test]
fn strings_end_at_their_own_quote() {
    assert_eq!(shown("'a\"b' x"), "L<x>");
    assert_eq!(shown("\"a'b\" x"), "L<x>");
    assert_eq!(shown("\"a\\\"b\" x"), "L<x>");
    assert_eq!(shown("\"a\\\\\" x"), "L<x>");
    assert_eq!(shown("x 'open"), "<x>L");
    assert_eq!(shown("x 'open\\"), "<x>L");
    assert_eq!(shown("''"), "L");
}

#[test]
fn comments_run_to_the_end_of_the_line() {
    assert_eq!(shown("# a + b"), "");
    assert_eq!(shown("a # + b"), "<a>");
    assert_eq!(shown("'#' a"), "L<a>");
    assert_eq!(shown("'a # b"), "L");
}

#[test]
fn numbers_and_names() {
    assert_eq!(shown("12.5.6"), "L");
    assert_eq!(shown("1abc"), "L<abc>");
    assert_eq!(shown("a1.b_2"), "<a1.b_2>");
    assert_eq!(shown(".5"), "<.5>");
    assert_eq!(shown("_x.y"), "<_x.y>");
}

#[test]
fn characters_beyond_ascii() {
    assert_eq!(shown("é²\u{a0}日本"), "<é²><日本>");
    assert_eq!(shown("\u{3000}x\u{2014}y"), "<x><y>");
}

#[test]
fn other_characters_are_skipped() {
    assert_eq!(shown("a[0]: {b} % c"), "<a>L<b><c>");
}

#[test]
fn tokens_can_be_copied() {
    let toks = lex_line("a ( ) , + = 1 ; f'{x} {y}'");
    let mut copies = Vec::new();
    for t in &toks {
        copies.push(t.clone());
    }
    assert_eq!(format!("{:?}", copies), format!("{:?}", toks));
}

#[test]
fn calls_and_sums() {
    assert_eq!(read("a"), "a");
    assert_eq!(read("a + b + c"), "[a+b+c]");
    assert_eq!(read("f()"), "f()");
    assert_eq!(read("f(a, g(b) + 1, 2)"), "f(a,[g(b)+L],L)");
    assert_eq!(read("(a)"), "a");
    assert_eq!(read("(a + b) + c"), "[[a+b]+c]");
}

#[test]
fn reading_never_fails() {
    assert_eq!(read(""), "L");
    assert_eq!(read("+"), "L");
    assert_eq!(read("a +"), "[a+L]");
    assert_eq!(read("f("), "f()");
    assert_eq!(read("f(a,"), "f(a,L)");
    assert_eq!(read("f(,)"), "f(L)");
    assert_eq!(read("(((a"), "a");
    assert_eq!(read(") b"), "L");
}

#[test]
fn what_stands_at_the_position() {
    let mut p = P {
        toks: lex_line("a("),
        pos: 0,
        depth: MAX_NESTING,
    };
    assert!(matches!(p.peek(), Some(Tok::Name(_))));
    assert!(matches!(p.next(), Some(Tok::Name(_))));
    assert!(matches!(p.next(), Some(Tok::LParen)));
    assert!(p.peek().is_none());
    assert!(p.next().is_none());
    assert_eq!(p.pos, 2);
    assert_eq!(tree(&p.primary()), "L");
    assert_eq!(p.pos, 2);
}

fn listed(src: &str) -> Vec<String> {
    let mut seen = Vec::new();
    for s in &parse(src) {
        match s {
            Stmt::Assign { name, value, line } => {
                seen.push(format!("{} {} = {}", line, name, tree(value)))
            }
            Stmt::Eval { value, line } => seen.push(format!("{} {}", line, tree(value))),
        }
    }
    seen
}

#[test]
fn one_statement_for_each_line_with_a_token() {
    assert_eq!(
        listed("\nx = f(1) y\n  # nothing\n\"s\" + x\nx = = 2\n= 3\n"),
        vec!["2 x = f(L)", "4 [L+x]", "5 x = L", "6 L"]
    );
}

#[test]
fn semicolons_separate_statements() {
    assert_eq!(shown("a;b"), "<a>;<b>");
    assert_eq!(shown("'a;b';# c;d"), "L;");
    assert_eq!(
        listed("a = input(); os.system(a)\n"),
        vec!["1 a = input()", "1 os.system(a)"]
    );
    assert_eq!(listed(";; x ;;y = 1; # z; w\n;\n"), vec!["1 x", "1 y = L"]);
    assert_eq!(listed("x = ';' + y; z"), vec!["1 x = [L+y]", "1 z"]);
}

#[test]
fn open_parentheses_join_lines() {
    assert_eq!(listed("os.system(\n  x\n)\n"), vec!["1 os.system(x)"]);
    assert_eq!(
        listed("a\ny = f( # one\n  g(1,\n\n    b),\n  c)\nz\n"),
        vec!["1 a", "2 y = f(g(L,b),c)", "7 z"]
    );
    assert_eq!(listed("f(a); g(\nb); h\n"), vec!["1 f(a)", "1 g(b)", "1 h"]);
    assert_eq!(listed("x = '('\ny # (\nz\n"), vec!["1 x = L", "2 y", "3 z"]);
    assert_eq!(listed("a))\nf(b)\n"), vec!["1 a", "2 f(b)"]);
    assert_eq!(listed("f(a,\nb\n"), vec!["1 f(a,b)"]);
}

#[test]
fn calls_can_be_chained() {
    assert_eq!(read("conn.cursor().execute(q)"), "conn.cursor().execute(q)");
    assert_eq!(read("a(1).b(2).c(3)"), "a(L).b(L).c(L)");
    assert_eq!(read("(x + y).strip()"), "[x+y].strip()");
    assert_eq!(read("a().b"), "a()");
    assert_eq!(read("a() .b() + c"), "[a().b()+c]");
    assert_eq!(read("a() b()"), "a()");
    assert_eq!(read("f(a().b(c), d)"), "f(a().b(c),d)");
    assert_eq!(read("a().b(c"), "a().b(c)");
    assert_eq!(read("a().b(c.d().e("), "a().b(c.d().e())");
    let mut p = P {
        toks: lex_line("a(1).b(2)"),
        pos: 0,
        depth: MAX_NESTING,
    };
    match p.expr() {
        Expr::Method {
            receiver,
            name,
            args,
        } => {
            assert_eq!(tree(&receiver), "a(L)");
            assert_eq!(name, ".b");
            assert_eq!(args.len(), 1);
        }
        other => panic!("{:?}", other),
    }
    assert!(matches!(
        parse(".execute(q)\n").pop(),
        Some(Stmt::Eval { value: Expr::Call { .. }, line: 1 })
    ));
}

#[test]
fn keywords_lead_statements() {
    assert_eq!(listed("with open(p) as f:\n"), vec!["1 open(p)"]);
    assert_eq!(listed("return run(x)\n"), vec!["1 run(x)"]);
    assert_eq!(listed("if not a(b):\nelif c(d):\n"), vec!["1 a(b)", "2 c(d)"]);
    assert_eq!(listed("else: x = f(1)\n"), vec!["1 x = f(L)"]);
    assert_eq!(listed("async with a() as b:\nreturn await c(d)"), vec!["1 a()", "2 c(d)"]);
    assert_eq!(listed("return\ntry:\n"), vec!["1 L", "2 L"]);
    assert_eq!(listed("not = 2\nreturned(x)\n"), vec!["1 not = L", "2 returned(x)"]);
    assert_eq!(listed("x; return y; z"), vec!["1 x", "1 y", "1 z"]);
}

#[test]
fn comparisons_behind_keywords_are_evaluated() {
    for op in ["!=", "<=", ">=", "=", ":="] {
        for word in ["if", "elif", "while", "return", "assert", "if not", "yield", "with"] {
            assert_eq!(listed(&format!("{} x {} f(y):\n", word, op)), vec!["1 x"]);
        }
        assert_eq!(listed(&format!("for a in x {} 1:\n", op)), vec!["1 x"]);
        assert_eq!(listed(&format!("else: return x {} 1\n", op)), vec!["1 x"]);
    }
    assert_eq!(listed("if x == 1:\nif x < 1:\n"), vec!["1 x", "2 x"]);
}

#[test]
fn statements_behind_keywords_assign() {
    for word in ["else", "try", "finally"] {
        assert!(is_block_keyword(word));
        assert_eq!(listed(&format!("{}: x = f(y)\n", word)), vec!["1 x = f(y)"]);
    }
    for word in ["", "if", "return", "for", "with", "elsewhere"] {
        assert!(!is_block_keyword(word));
    }
    assert_eq!(listed("if = 1\n"), vec!["1 if = L"]);
}

#[test]
fn groups_behind_keywords_are_read_whole() {
    assert_eq!(
        listed("return (a, os.system(cmd))\n"),
        vec!["1 return(a,os.system(cmd))"]
    );
    assert_eq!(listed("with (open(p), open(q)):\n"), vec!["1 with(open(p),open(q))"]);
    assert_eq!(listed("if not (a, b):\n"), vec!["1 not(a,b)"]);
    assert_eq!(listed("for x in (f(a), g(b)):\n"), vec!["1 in(f(a),g(b))"]);
    assert_eq!(listed("return(x) + f(y)\n"), vec!["1 [return(x)+f(y)]"]);
    assert_eq!(listed("return (a + b).c(d)\n"), vec!["1 return([a+b]).c(d)"]);
    assert_eq!(listed("return (\n  a,\n  b,\n)\n"), vec!["1 return(a,b,L)"]);
    assert_eq!(listed("(a, b)\n"), vec!["1 a"]);
    assert_eq!(listed("return + f(x)\n"), vec!["1 [return+f(x)]"]);
}

#[test]
fn a_for_is_read_behind_its_in() {
    assert_eq!(listed("for line in open(p):\n"), vec!["1 open(p)"]);
    assert_eq!(listed("async for (a, b) in await f(x):"), vec!["1 f(x)"]);
    assert_eq!(listed("for x\nfor = 1\nfor in in g(y)\n"), vec!["1 x", "2 for = L", "3 in"]);
    assert_eq!(listed("for (f(x), y)\nfor x in\n"), vec!["1 for(f(x),y)", "2 x"]);
}

#[test]
fn the_keywords() {
    for word in [
        "return", "yield", "await", "async", "with", "if", "elif", "else", "while", "assert",
        "raise", "from", "del", "not", "try", "except", "finally",
    ] {
        assert!(is_keyword(word));
        assert_eq!(listed(&format!("{} run(x)\n", word)), vec!["1 run(x)"]);
    }
    assert!(is_keyword("for"));
    for word in ["", "Return", "returns", "re", "def", "print"] {
        assert!(!is_keyword(word));
    }
}

#[test]
fn format_strings_hold_their_interpolations() {
    assert_eq!(shown("f\"ls {x}\""), "{x}");
    assert_eq!(shown("F'{a}{b + c} {d!r:>{w}}' + g"), "{a|b + c|d!r:>{w}}+<g>");
    assert_eq!(shown("rf'{a}' fr'{b}' Rf\"{c}\""), "{a}{b}{c}");
    assert_eq!(shown("f'none' f'{{a}}' f''"), "LLL");
    assert_eq!(shown("f'{{{a}}}'"), "{a}");
    assert_eq!(shown("f'{a"), "{a}");
    assert_eq!(shown("f'{a' b"), "{a}<b>");
    assert_eq!(shown("'{a}' b'{c}' f '{d}' ff'{e}'"), "L<b>L<f>L<ff>L");
    assert_eq!(shown("f'}{a}'"), "{a}");
    assert_eq!(read("os.system(f\"ls {x}\")"), "os.system([L+x])");
    assert_eq!(read("f'{a}{b + c} {d!r:>{w}}' + g"), "[[L+a+[b+c]+d]+g]");
    assert_eq!(read("f'{run(f\"{y}\")}'"), "[L+run([L+y])]");
    assert_eq!(read("f'{}'"), "[L+L]");
}

/// How many parentheses nest in an expression.
fn nesting(e: &Expr, term: bool) -> usize {
    match e {
        Expr::Name(_) | Expr::Lit => 0,
        Expr::Call { args, .. } => 1 + args.iter().map(|a| nesting(a, false)).max().unwrap_or(0),
        Expr::Method { receiver, args, .. } => {
            let inner = args.iter().map(|a| nesting(a, false)).max().unwrap_or(0);
            1 + inner.max(nesting(receiver, false))
        }
        Expr::Concat(parts) => {
            (if term { 1 } else { 0 })
                + parts.iter().map(|p| nesting(p, true)).max().unwrap_or(0)
        }
    }
}

fn value(s: &Stmt) -> &Expr {
    match s {
        Stmt::Assign { value, .. } => value,
        Stmt::Eval { value, .. } => value,
    }
}

#[test]
fn hostile_nesting_is_cut_short() {
    for (open, close) in [("f(", ")"), ("(a + ", ")"), ("f(", ""), ("(", ""), ("f'{", "}'")] {
        let src = format!("x = {}y{}", open.repeat(100000), close.repeat(100000));
        let stmts = parse(&src);
        assert!(stmts.len() >= 1);
        for s in &stmts {
            assert!(nesting(value(s), false) <= MAX_NESTING);
        }
    }
    let stmts = parse(&format!("a(){}", ".b()".repeat(100000)));
    assert_eq!(nesting(value(&stmts[0]), false), MAX_NESTING);
}

#[test]
fn nesting_up_to_the_bound_is_read() {
    let calls = |n: usize| format!("{}y{}", "f(".repeat(n), ")".repeat(n));
    assert_eq!(read(&calls(MAX_NESTING)), calls(MAX_NESTING));
    assert_eq!(
        read(&calls(MAX_NESTING + 1)),
        format!("{}L{}", "f(".repeat(MAX_NESTING), ")".repeat(MAX_NESTING))
    );
    let mut p = P {
        toks: lex_line("f(g(x), h) + f'{a}' + (b)"),
        pos: 0,
        depth: 1,
    };
    assert_eq!(tree(&p.expr()), "f(L)");
    let mut p = P {
        toks: lex_line("f(g(x))"),
        pos: 0,
        depth: 2,
    };
    assert_eq!(tree(&p.expr()), "f(g(x))");
    assert_eq!(p.pos, 7);
    assert_eq!(p.depth, 2);
}

#[test]
fn ascii_name_characters() {
    for code in 0u8..128 {
        let c = code as char;
        let joined = matches!(shown(&format!("a{}a", c)).as_str(), s if s == format!("<a{}a>", c));
        let expected = matches!(c, '0'..='9' | 'A'..='Z' | 'a'..='z' | '_' | '.');
        assert_eq!(joined, expected);
    }
}
