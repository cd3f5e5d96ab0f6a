//! How an expression is written, and that it is read as it was written.
use vstd::prelude::*;

use crate::lexer::{lex, TokView};
use crate::parser::{
    args_at, call_args_at, expr_at, expr_nesting, exprs_nesting, lemma_exprs_nesting,
    lemma_terms_nesting, link_at, links_at, primary_at, stands_at, term_nesting, terms_at,
    terms_nesting, ExprView,
};

verus! {

/// An expression as a term of a sum: a sum stands in parentheses there.
pub open spec fn term_tokens(e: ExprView) -> Seq<TokView>
    decreases e, 0nat,
{
    match e {
        ExprView::Name(n) => seq![TokView::Name(n)],
        ExprView::Lit => seq![TokView::Lit],
        ExprView::Call { name, args } => seq![TokView::Name(name), TokView::LParen] + arg_tokens(
            args,
        ) + seq![TokView::RParen],
        ExprView::Method { receiver, name, args } => term_tokens(*receiver) + (seq![
            TokView::Name(name),
            TokView::LParen,
        ] + (arg_tokens(args) + seq![TokView::RParen])),
        ExprView::Concat(parts) => seq![TokView::LParen] + sum_tokens(parts)
            + seq![TokView::RParen],
    }
}

/// An expression on its own or as an argument.
pub open spec fn expr_tokens(e: ExprView) -> Seq<TokView>
    decreases e, 1nat,
{
    match e {
        ExprView::Concat(parts) => sum_tokens(parts),
        _ => term_tokens(e),
    }
}

/// The terms of a sum, with `+` between them.
pub open spec fn sum_tokens(parts: Seq<ExprView>) -> Seq<TokView>
    decreases parts, 2nat,
{
    if parts.len() == 0 {
        Seq::empty()
    } else if parts.len() == 1 {
        term_tokens(parts[0])
    } else {
        term_tokens(parts[0]) + (seq![TokView::Plus] + sum_tokens(
            parts.subrange(1, parts.len() as int),
        ))
    }
}

/// The arguments of a call, with commas between them.
pub open spec fn arg_tokens(args: Seq<ExprView>) -> Seq<TokView>
    decreases args, 2nat,
{
    if args.len() == 0 {
        Seq::empty()
    } else if args.len() == 1 {
        expr_tokens(args[0])
    } else {
        expr_tokens(args[0]) + (seq![TokView::Comma] + arg_tokens(
            args.subrange(1, args.len() as int),
        ))
    }
}

/// Whether every sum in an expression has at least two terms, and every method has a name
/// with a dot and is called on what ends in a parenthesis.
pub open spec fn proper(e: ExprView) -> bool
    decreases e,
{
    match e {
        ExprView::Name(n) => true,
        ExprView::Lit => true,
        ExprView::Call { name, args } => forall|i: int|
            0 <= i < args.len() ==> proper(#[trigger] args[i]),
        ExprView::Method { receiver, name, args } => {
            &&& !(*receiver is Name || *receiver is Lit)
            &&& proper(*receiver)
            &&& name.len() > 0 && name[0] == '.'
            &&& forall|i: int| 0 <= i < args.len() ==> proper(#[trigger] args[i])
        },
        ExprView::Concat(parts) => parts.len() >= 2 && forall|i: int|
            0 <= i < parts.len() ==> proper(#[trigger] parts[i]),
    }
}

/// Whether every one of several expressions is proper.
pub open spec fn all_proper(es: Seq<ExprView>) -> bool {
    forall|i: int| 0 <= i < es.len() ==> proper(#[trigger] es[i])
}

/// Whether the tokens of `part` stand in `ts` from position `pos` on.
pub open spec fn written_at(ts: Seq<TokView>, pos: nat, part: Seq<TokView>) -> bool {
    &&& pos + part.len() <= ts.len()
    &&& forall|i: int| 0 <= i < part.len() ==> #[trigger] part[i] == ts[pos + i]
}

proof fn lemma_written_parts(ts: Seq<TokView>, pos: nat, a: Seq<TokView>, b: Seq<TokView>)
    requires
        written_at(ts, pos, a + b),
    ensures
        written_at(ts, pos, a),
        written_at(ts, pos + a.len(), b),
{
    assert forall|i: int| 0 <= i < a.len() implies #[trigger] a[i] == ts[pos + i] by {
        assert((a + b)[i] == ts[pos + i]);
    }
    assert forall|i: int| 0 <= i < b.len() implies #[trigger] b[i] == ts[pos + a.len() + i] by {
        assert((a + b)[a.len() + i] == ts[pos + a.len() + i]);
    }
}

proof fn lemma_tokens_nonempty(e: ExprView)
    requires
        proper(e),
    ensures
        expr_tokens(e).len() > 0,
        term_tokens(e).len() > 0,
        !(expr_tokens(e)[0] is RParen),
        !(term_tokens(e)[0] is RParen),
    decreases e,
{
    if let ExprView::Concat(parts) = e {
        assert(proper(parts[0]));
        lemma_tokens_nonempty(parts[0]);
        let first = term_tokens(parts[0]);
        assert(sum_tokens(parts)[0] == first[0]);
    }
    if let ExprView::Method { receiver, .. } = e {
        lemma_tokens_nonempty(*receiver);
        assert(term_tokens(e)[0] == term_tokens(*receiver)[0]);
    }
}

/// The arguments of a call are read as they were written, up to a closing parenthesis.
proof fn lemma_call_args_read(ts: Seq<TokView>, pos: nat, args: Seq<ExprView>, depth: nat)
    requires
        all_proper(args),
        written_at(ts, pos, arg_tokens(args)),
        stands_at(ts, pos + arg_tokens(args).len(), TokView::RParen),
        exprs_nesting(args) <= depth,
    ensures
        call_args_at(ts, pos, depth) == (args, pos + arg_tokens(args).len()),
    decreases args, 3nat,
{
    let inner = arg_tokens(args);
    if args.len() > 0 {
        lemma_args_read(ts, pos, args, depth);
        assert(proper(args[0]));
        lemma_tokens_nonempty(args[0]);
        assert(inner[0] == expr_tokens(args[0])[0]);
        assert(inner[0] == ts[pos + 0int]);
    } else {
        assert(args =~= Seq::empty());
    }
}

/// A call, a method call or a sum in parentheses is read up to its closing parenthesis, and
/// then what is chained to it.
proof fn lemma_receiver_read(ts: Seq<TokView>, pos: nat, e: ExprView, depth: nat)
    requires
        !(e is Name || e is Lit),
        proper(e),
        written_at(ts, pos, term_tokens(e)),
        term_nesting(e) <= depth,
    ensures
        primary_at(ts, pos, depth) == links_at(ts, pos + term_tokens(e).len(), e, depth),
    decreases e, 0nat,
{
    lemma_tokens_nonempty(e);
    let toks = term_tokens(e);
    assert(toks[0] == ts[pos + 0int]);
    match e {
        ExprView::Call { name, args } => {
            let open = seq![TokView::Name(name), TokView::LParen];
            let inner = arg_tokens(args);
            let close = seq![TokView::RParen];
            lemma_written_parts(ts, pos, open + inner, close);
            lemma_written_parts(ts, pos, open, inner);
            assert(open[1] == ts[pos + 1int]);
            assert(close[0] == ts[pos + (open + inner).len() + 0int]);
            lemma_call_args_read(ts, pos + 2, args, (depth - 1) as nat);
        },
        ExprView::Method { receiver, name, args } => {
            let base = term_tokens(*receiver);
            let open = seq![TokView::Name(name), TokView::LParen];
            let inner = arg_tokens(args);
            let close = seq![TokView::RParen];
            let p = pos + base.len();
            lemma_written_parts(ts, pos, base, open + (inner + close));
            lemma_written_parts(ts, p, open, inner + close);
            lemma_written_parts(ts, p + 2, inner, close);
            assert(open[0] == ts[p + 0int]);
            assert(open[1] == ts[p + 1int]);
            assert(close[0] == ts[p + 2 + inner.len() + 0int]);
            lemma_receiver_read(ts, pos, *receiver, depth);
            lemma_call_args_read(ts, p + 2, args, (depth - 1) as nat);
            let end = p + 2 + inner.len() + 1;
            assert(links_at(ts, p, *receiver, depth) == links_at(ts, end, e, depth));
            assert(end == pos + toks.len());
        },
        ExprView::Concat(parts) => {
            let open = seq![TokView::LParen];
            let inner = sum_tokens(parts);
            let close = seq![TokView::RParen];
            lemma_written_parts(ts, pos, open + inner, close);
            lemma_written_parts(ts, pos, open, inner);
            assert(close[0] == ts[pos + (open + inner).len() + 0int]);
            lemma_sum_read(ts, pos + 1, parts, (depth - 1) as nat);
        },
        _ => {},
    }
}

proof fn lemma_term_read(ts: Seq<TokView>, pos: nat, e: ExprView, depth: nat)
    requires
        proper(e),
        written_at(ts, pos, term_tokens(e)),
        term_nesting(e) <= depth,
        !continues_at(ts, pos + term_tokens(e).len()),
    ensures
        primary_at(ts, pos, depth) == (e, pos + term_tokens(e).len()),
    decreases e, 1nat,
{
    lemma_tokens_nonempty(e);
    let toks = term_tokens(e);
    assert(toks[0] == ts[pos + 0int]);
    match e {
        ExprView::Name(n) => {},
        ExprView::Lit => {},
        _ => {
            lemma_receiver_read(ts, pos, e, depth);
        },
    }
}

proof fn lemma_sum_read(ts: Seq<TokView>, pos: nat, parts: Seq<ExprView>, depth: nat)
    requires
        parts.len() > 0,
        all_proper(parts),
        written_at(ts, pos, sum_tokens(parts)),
        terms_nesting(parts) <= depth,
        !stands_at(ts, pos + sum_tokens(parts).len(), TokView::Plus),
        !continues_at(ts, pos + sum_tokens(parts).len()),
    ensures
        terms_at(ts, pos, depth) == (parts, pos + sum_tokens(parts).len()),
    decreases parts, 2nat,
{
    let first = term_tokens(parts[0]);
    assert(proper(parts[0]));
    lemma_terms_nesting(parts, depth);
    assert(term_nesting(parts[0]) <= depth);
    if parts.len() == 1 {
        lemma_term_read(ts, pos, parts[0], depth);
        assert(seq![parts[0]] =~= parts);
    } else {
        let rest = parts.subrange(1, parts.len() as int);
        let plus = seq![TokView::Plus];
        let tail = plus + sum_tokens(rest);
        lemma_written_parts(ts, pos, first, tail);
        lemma_written_parts(ts, pos + first.len(), plus, sum_tokens(rest));
        assert(plus[0] == ts[pos + first.len() + 0int]);
        assert(all_proper(rest)) by {
            assert forall|i: int| 0 <= i < rest.len() implies proper(#[trigger] rest[i]) by {
                assert(rest[i] == parts[i + 1]);
            }
        }
        lemma_term_read(ts, pos, parts[0], depth);
        assert(pos + first.len() + plus.len() + sum_tokens(rest).len() == pos + sum_tokens(
            parts,
        ).len());
        lemma_sum_read(ts, pos + first.len() + 1, rest, depth);
        assert(seq![parts[0]] + rest =~= parts);
    }
}

proof fn lemma_args_read(ts: Seq<TokView>, pos: nat, args: Seq<ExprView>, depth: nat)
    requires
        args.len() > 0,
        all_proper(args),
        written_at(ts, pos, arg_tokens(args)),
        exprs_nesting(args) <= depth,
        !stands_at(ts, pos + arg_tokens(args).len(), TokView::Comma),
        !stands_at(ts, pos + arg_tokens(args).len(), TokView::Plus),
        !continues_at(ts, pos + arg_tokens(args).len()),
    ensures
        args_at(ts, pos, depth) == (args, pos + arg_tokens(args).len()),
    decreases args, 2nat,
{
    let first = expr_tokens(args[0]);
    assert(proper(args[0]));
    lemma_exprs_nesting(args, depth);
    assert(expr_nesting(args[0]) <= depth);
    if args.len() == 1 {
        law_expressions_read_as_written(ts, pos, args[0], depth);
        assert(seq![args[0]] =~= args);
    } else {
        let rest = args.subrange(1, args.len() as int);
        let comma = seq![TokView::Comma];
        let tail = comma + arg_tokens(rest);
        lemma_written_parts(ts, pos, first, tail);
        lemma_written_parts(ts, pos + first.len(), comma, arg_tokens(rest));
        assert(comma[0] == ts[pos + first.len() + 0int]);
        assert(all_proper(rest)) by {
            assert forall|i: int| 0 <= i < rest.len() implies proper(#[trigger] rest[i]) by {
                assert(rest[i] == args[i + 1]);
            }
        }
        law_expressions_read_as_written(ts, pos, args[0], depth);
        assert(pos + first.len() + comma.len() + arg_tokens(rest).len() == pos + arg_tokens(
            args,
        ).len());
        lemma_args_read(ts, pos + first.len() + 1, rest, depth);
        assert(seq![args[0]] + rest =~= args);
    }
}

/// Whether what stands at `pos` would continue the primary before it: a parenthesis, which
/// makes a call of a name, or a chained method call.
pub open spec fn continues_at(ts: Seq<TokView>, pos: nat) -> bool {
    stands_at(ts, pos, TokView::LParen) || link_at(ts, pos)
}

/// An expression is read as it was written: names, literals, calls with their arguments,
/// chained method calls, and sums of at least two terms, nested as deep as parentheses may be opened. What
/// follows it must not continue it.
pub proof fn law_expressions_read_as_written(ts: Seq<TokView>, pos: nat, e: ExprView, depth: nat)
    requires
        proper(e),
        written_at(ts, pos, expr_tokens(e)),
        expr_nesting(e) <= depth,
        !stands_at(ts, pos + expr_tokens(e).len(), TokView::Plus),
        !continues_at(ts, pos + expr_tokens(e).len()),
    ensures
        expr_at(ts, pos, depth) == (e, pos + expr_tokens(e).len()),
    decreases e, 2nat,
{
    match e {
        ExprView::Concat(parts) => {
            lemma_sum_read(ts, pos, parts, depth);
        },
        _ => {
            lemma_term_read(ts, pos, e, depth);
        },
    }
}

// ---- What follows ----

/// Whether an expression can end before `pos`: no plus stands there, no parenthesis, and no
/// name that begins with a dot.
pub open spec fn may_end_at(ts: Seq<TokView>, pos: nat) -> bool {
    pos < ts.len() ==> match ts[pos as int] {
        TokView::Plus => false,
        TokView::LParen => false,
        TokView::Name(name) => name.len() == 0 || name[0] != '.',
        _ => true,
    }
}

/// An expression ends where nothing continues it, and what follows it leaves it as it is.
pub proof fn law_what_follows_changes_nothing(ts: Seq<TokView>, pos: nat, e: ExprView, depth: nat)
    requires
        proper(e),
        written_at(ts, pos, expr_tokens(e)),
        expr_nesting(e) <= depth,
        may_end_at(ts, pos + expr_tokens(e).len()),
    ensures
        expr_at(ts, pos, depth) == (e, pos + expr_tokens(e).len()),
{
    law_expressions_read_as_written(ts, pos, e, depth);
}

/// The tokens of a call of `name` with arguments `args` that is left open.
pub open spec fn open_call_tokens(name: Seq<char>, args: Seq<ExprView>) -> Seq<TokView> {
    seq![TokView::Name(name), TokView::LParen] + arg_tokens(args)
}

/// A call keeps the arguments that were read, whatever stands behind them: if it is no closing
/// parenthesis, and nothing that continues the last of them, the call ends there with all of
/// them.
pub proof fn law_arguments_are_kept(
    ts: Seq<TokView>,
    pos: nat,
    name: Seq<char>,
    args: Seq<ExprView>,
    depth: nat,
)
    requires
        all_proper(args),
        args.len() > 0,
        exprs_nesting(args) < depth,
        written_at(ts, pos, open_call_tokens(name, args)),
        may_end_at(ts, pos + open_call_tokens(name, args).len()),
        !stands_at(ts, pos + open_call_tokens(name, args).len(), TokView::Comma),
        !stands_at(ts, pos + open_call_tokens(name, args).len(), TokView::RParen),
    ensures
        primary_at(ts, pos, depth) == (
            ExprView::Call { name, args },
            pos + open_call_tokens(name, args).len(),
        ),
{
    let open = seq![TokView::Name(name), TokView::LParen];
    let inner = arg_tokens(args);
    lemma_written_parts(ts, pos, open, inner);
    assert(open[0] == ts[pos + 0int]);
    assert(open[1] == ts[pos + 1int]);
    lemma_args_read(ts, pos + 2, args, (depth - 1) as nat);
    assert(proper(args[0]));
    lemma_tokens_nonempty(args[0]);
    assert(inner[0] == expr_tokens(args[0])[0]);
    assert(inner[0] == ts[pos + 2 + 0int]);
}

proof fn lemma_arg_tokens_push(args: Seq<ExprView>, e: ExprView)
    requires
        args.len() > 0,
    ensures
        arg_tokens(args.push(e)) == arg_tokens(args) + (seq![TokView::Comma] + expr_tokens(e)),
    decreases args.len(),
{
    let all = args.push(e);
    let rest = all.subrange(1, all.len() as int);
    let tail = args.subrange(1, args.len() as int);
    assert(all[0] == args[0]);
    assert(arg_tokens(all) == expr_tokens(all[0]) + (seq![TokView::Comma] + arg_tokens(rest)));
    if args.len() == 1 {
        assert(rest =~= seq![e]);
        assert(arg_tokens(seq![e]) == expr_tokens(seq![e][0]));
        assert(arg_tokens(args) == expr_tokens(args[0]));
    } else {
        assert(rest =~= tail.push(e));
        lemma_arg_tokens_push(tail, e);
        assert(expr_tokens(args[0]) + (seq![TokView::Comma] + (arg_tokens(tail) + (seq![
            TokView::Comma,
        ] + expr_tokens(e)))) =~= arg_tokens(args) + (seq![TokView::Comma] + expr_tokens(e)));
    }
}

/// Positional arguments are kept in front of one that is given by keyword: a call of `name`
/// with `args`, a comma, a name and `=` is read as a call whose arguments are `args` and then
/// that name.
pub proof fn law_positional_arguments_are_kept(
    ts: Seq<TokView>,
    pos: nat,
    name: Seq<char>,
    args: Seq<ExprView>,
    keyword: Seq<char>,
    depth: nat,
)
    requires
        all_proper(args),
        args.len() > 0,
        exprs_nesting(args) < depth,
        written_at(
            ts,
            pos,
            seq![TokView::Name(name), TokView::LParen] + (arg_tokens(args) + seq![
                TokView::Comma,
                TokView::Name(keyword),
                TokView::Eq,
            ]),
        ),
    ensures
        primary_at(ts, pos, depth) == (
            ExprView::Call { name, args: args.push(ExprView::Name(keyword)) },
            pos + 2 + arg_tokens(args).len() + 2,
        ),
{
    let open = seq![TokView::Name(name), TokView::LParen];
    let word = ExprView::Name(keyword);
    let all = args.push(word);
    let d = (depth - 1) as nat;
    lemma_arg_tokens_push(args, word);
    let inner = arg_tokens(all);
    let end = seq![TokView::Eq];
    assert(open + (arg_tokens(args) + seq![
        TokView::Comma,
        TokView::Name(keyword),
        TokView::Eq,
    ]) =~= (open + inner) + end);
    lemma_written_parts(ts, pos, open + inner, end);
    assert(end[0] == ts[pos + (open + inner).len() + 0int]);
    assert(all_proper(all)) by {
        assert forall|i: int| 0 <= i < all.len() implies proper(#[trigger] all[i]) by {
            if i < args.len() {
                assert(all[i] == args[i]);
            }
        }
    }
    lemma_exprs_nesting(args, d);
    assert forall|i: int| 0 <= i < all.len() implies expr_nesting(#[trigger] all[i]) <= d by {
        if i < args.len() {
            assert(all[i] == args[i]);
        }
    }
    lemma_exprs_nesting(all, d);
    law_arguments_are_kept(ts, pos, name, all, depth);
}

/// A call without arguments is a call, whether it is closed or the tokens end.
pub proof fn law_empty_calls(ts: Seq<TokView>, pos: nat, name: Seq<char>, depth: nat)
    requires
        depth > 0,
        written_at(ts, pos, seq![TokView::Name(name), TokView::LParen]),
        pos + 2 == ts.len() || ts[pos + 2int] is RParen,
    ensures
        pos + 2 == ts.len() ==> primary_at(ts, pos, depth) == (
            ExprView::Call { name, args: Seq::empty() },
            pos + 2,
        ),
        pos + 2 < ts.len() && may_end_at(ts, pos + 3) ==> primary_at(ts, pos, depth) == (
            ExprView::Call { name, args: Seq::empty() },
            pos + 3,
        ),
{
    let open = seq![TokView::Name(name), TokView::LParen];
    assert(open[0] == ts[pos + 0int]);
    assert(open[1] == ts[pos + 1int]);
    let call = ExprView::Call { name, args: Seq::<ExprView>::empty() };
    if pos + 2 < ts.len() && may_end_at(ts, pos + 3) {
        assert(!link_at(ts, pos + 3));
        assert(links_at(ts, pos + 3, call, depth) == (call, pos + 3));
    }
}

/// A group that is left open is what stands in it.
pub proof fn law_open_groups(ts: Seq<TokView>, pos: nat, e: ExprView, depth: nat)
    requires
        proper(e),
        expr_nesting(e) < depth,
        written_at(ts, pos, seq![TokView::LParen] + expr_tokens(e)),
        may_end_at(ts, pos + 1 + expr_tokens(e).len()),
        !stands_at(ts, pos + 1 + expr_tokens(e).len(), TokView::RParen),
    ensures
        primary_at(ts, pos, depth) == (e, pos + 1 + expr_tokens(e).len()),
{
    let open = seq![TokView::LParen];
    lemma_written_parts(ts, pos, open, expr_tokens(e));
    assert(open[0] == ts[pos + 0int]);
    law_expressions_read_as_written(ts, pos + 1, e, (depth - 1) as nat);
}

/// A group in parentheses is what stands in it, if nothing is chained to it.
pub proof fn law_closed_groups(ts: Seq<TokView>, pos: nat, e: ExprView, depth: nat)
    requires
        proper(e),
        expr_nesting(e) < depth,
        written_at(ts, pos, seq![TokView::LParen] + (expr_tokens(e) + seq![TokView::RParen])),
        may_end_at(ts, pos + 2 + expr_tokens(e).len()),
    ensures
        primary_at(ts, pos, depth) == (e, pos + 2 + expr_tokens(e).len()),
{
    let open = seq![TokView::LParen];
    let close = seq![TokView::RParen];
    let p = pos + 1 + expr_tokens(e).len();
    lemma_written_parts(ts, pos, open, expr_tokens(e) + close);
    lemma_written_parts(ts, pos + 1, expr_tokens(e), close);
    assert(open[0] == ts[pos + 0int]);
    assert(close[0] == ts[p + 0int]);
    law_expressions_read_as_written(ts, pos + 1, e, (depth - 1) as nat);
    assert(!link_at(ts, p + 1));
    assert(links_at(ts, p + 1, e, depth) == (e, p + 1));
}

/// A method call keeps the arguments that were read, and what it is called on, whatever stands
/// behind them.
pub proof fn law_method_arguments_are_kept(
    ts: Seq<TokView>,
    pos: nat,
    receiver: ExprView,
    name: Seq<char>,
    args: Seq<ExprView>,
    depth: nat,
)
    requires
        !(receiver is Name || receiver is Lit),
        proper(receiver),
        expr_nesting(receiver) < depth,
        name.len() > 0 && name[0] == '.',
        all_proper(args),
        args.len() > 0,
        exprs_nesting(args) < depth,
        written_at(ts, pos, term_tokens(receiver) + open_call_tokens(name, args)),
        ({
            let end = pos + term_tokens(receiver).len() + open_call_tokens(name, args).len();
            &&& may_end_at(ts, end)
            &&& !stands_at(ts, end, TokView::Comma)
            &&& !stands_at(ts, end, TokView::RParen)
        }),
    ensures
        primary_at(ts, pos, depth) == (
            ExprView::Method { receiver: Box::new(receiver), name, args },
            pos + term_tokens(receiver).len() + open_call_tokens(name, args).len(),
        ),
{
    let base = term_tokens(receiver);
    let open = seq![TokView::Name(name), TokView::LParen];
    let inner = arg_tokens(args);
    let p = pos + base.len();
    lemma_written_parts(ts, pos, base, open + inner);
    lemma_written_parts(ts, p, open, inner);
    assert(open[0] == ts[p + 0int]);
    assert(open[1] == ts[p + 1int]);
    lemma_receiver_read(ts, pos, receiver, depth);
    lemma_args_read(ts, p + 2, args, (depth - 1) as nat);
    assert(proper(args[0]));
    lemma_tokens_nonempty(args[0]);
    assert(inner[0] == expr_tokens(args[0])[0]);
    assert(inner[0] == ts[p + 2 + 0int]);
    let end = p + 2 + inner.len();
    assert(call_args_at(ts, p + 2, (depth - 1) as nat) == (args, end));
    let call = ExprView::Method { receiver: Box::new(receiver), name, args };
    assert(link_at(ts, p));
    assert(links_at(ts, p, receiver, depth) == (call, end));
}

/// A token that begins no name, group or f-string is a literal, and one is read where none is
/// left; a name that no parenthesis follows is that name.
pub proof fn law_single_tokens(ts: Seq<TokView>, pos: nat, depth: nat)
    ensures
        pos >= ts.len() ==> primary_at(ts, pos, depth) == (ExprView::Lit, pos),
        pos < ts.len() ==> match ts[pos as int] {
            TokView::Name(name) => !(pos + 1 < ts.len() && ts[pos + 1int] is LParen)
                ==> primary_at(ts, pos, depth) == (ExprView::Name(name), pos + 1),
            TokView::LParen => true,
            TokView::Format(parts) => true,
            _ => primary_at(ts, pos, depth) == (ExprView::Lit, pos + 1),
        },
{
}

/// Where no parenthesis may be opened any more, what would open one is a literal, and reading
/// goes on behind it.
pub proof fn law_used_up_depth_is_a_literal(ts: Seq<TokView>, pos: nat)
    requires
        pos < ts.len(),
        ts[pos as int] is LParen || (ts[pos as int] is Name && pos + 1 < ts.len() && ts[pos
            + 1int] is LParen),
    ensures
        primary_at(ts, pos, 0) == (ExprView::Lit, pos + 1),
{
}

/// An f-string is a concatenation of a literal and its interpolations, in order, each read
/// like an expression of its own.
pub proof fn law_format_strings_are_concatenations(
    ts: Seq<TokView>,
    pos: nat,
    parts: Seq<Seq<char>>,
    depth: nat,
)
    requires
        pos < ts.len(),
        ts[pos as int] == TokView::Format(parts),
        depth >= 2,
    ensures
        primary_at(ts, pos, depth).1 == pos + 1,
        primary_at(ts, pos, depth).0 matches ExprView::Concat(es) && {
            &&& es.len() == parts.len() + 1
            &&& es[0] == ExprView::Lit
            &&& forall|i: int|
                0 <= i < parts.len() ==> es[i + 1] == #[trigger] expr_at(
                    lex(parts[i]),
                    0,
                    (depth - 2) as nat,
                ).0
        },
{
}

// ---- How readings make up one another ----

/// A sum is read from left to right, whatever its terms are: behind a plus stands another
/// expression, whose terms follow; without one the expression is its first term.
pub proof fn law_sums_are_read_term_by_term(ts: Seq<TokView>, pos: nat, depth: nat)
    ensures
        ({
            let (first, p) = primary_at(ts, pos, depth);
            let (rest, q) = expr_at(ts, p + 1, depth);
            let (whole, end) = expr_at(ts, pos, depth);
            if pos <= p < ts.len() && ts[p as int] is Plus {
                &&& end == q
                &&& whole matches ExprView::Concat(terms) && terms.len() >= 2 && terms[0] == first
                    && (if terms.len() == 2 {
                    terms[1] == rest
                } else {
                    rest == ExprView::Concat(terms.skip(1))
                })
            } else {
                whole == first && end == p
            }
        }),
{
    let (first, p) = primary_at(ts, pos, depth);
    if pos <= p && stands_at(ts, p, TokView::Plus) {
        let rest = terms_at(ts, p + 1, depth).0;
        let terms = terms_at(ts, pos, depth).0;
        assert(rest.len() >= 1);
        assert(terms =~= seq![first] + rest);
        assert(terms.skip(1) =~= rest);
    }
}

/// Arguments are read from left to right, whatever they are: behind a comma stand further
/// ones, all of which follow.
pub proof fn law_arguments_are_read_one_by_one(ts: Seq<TokView>, pos: nat, depth: nat)
    requires
        pos < ts.len(),
        !(ts[pos as int] is RParen),
    ensures
        ({
            let (first, p) = expr_at(ts, pos, depth);
            let (args, end) = call_args_at(ts, pos, depth);
            if pos <= p < ts.len() && ts[p as int] is Comma {
                args == seq![first] + args_at(ts, p + 1, depth).0 && end == args_at(
                    ts,
                    p + 1,
                    depth,
                ).1
            } else {
                args == seq![first] && end == p
            }
        }),
        args_at(ts, pos, depth) == call_args_at(ts, pos, depth),
{
}

/// A name with a parenthesis behind it is a call of that name with the arguments that stand
/// there. Where it is closed, what is chained to it follows.
pub proof fn law_calls_are_read_with_their_arguments(
    ts: Seq<TokView>,
    pos: nat,
    name: Seq<char>,
    depth: nat,
)
    requires
        pos + 1 < ts.len(),
        ts[pos as int] == TokView::Name(name),
        ts[pos + 1int] is LParen,
        depth > 0,
    ensures
        ({
            let (args, p) = call_args_at(ts, pos + 2, (depth - 1) as nat);
            let call = ExprView::Call { name, args };
            if pos <= p < ts.len() && ts[p as int] is RParen {
                primary_at(ts, pos, depth) == links_at(ts, p + 1, call, depth)
            } else {
                primary_at(ts, pos, depth) == (call, p)
            }
        }),
{
}

/// A name that begins with a dot, with a parenthesis behind it, is a method call on what stands
/// before it, with the arguments that stand there. Where it is closed, what is chained to it
/// follows.
pub proof fn law_chains_are_read_link_by_link(
    ts: Seq<TokView>,
    pos: nat,
    receiver: ExprView,
    name: Seq<char>,
    depth: nat,
)
    requires
        pos + 1 < ts.len(),
        ts[pos as int] == TokView::Name(name),
        name.len() > 0 && name[0] == '.',
        ts[pos + 1int] is LParen,
        expr_nesting(receiver) < depth,
    ensures
        ({
            let (args, p) = call_args_at(ts, pos + 2, (depth - 1) as nat);
            let call = ExprView::Method { receiver: Box::new(receiver), name, args };
            if pos <= p < ts.len() && ts[p as int] is RParen {
                links_at(ts, pos, receiver, depth) == links_at(ts, p + 1, call, depth)
            } else {
                links_at(ts, pos, receiver, depth) == (call, p)
            }
        }),
{
}

// ---- What stands before ----

proof fn lemma_primary_moves(a: Seq<TokView>, ts: Seq<TokView>, pos: nat, depth: nat)
    ensures
        primary_at(a + ts, a.len() + pos, depth) == (
            primary_at(ts, pos, depth).0,
            a.len() + primary_at(ts, pos, depth).1,
        ),
    decreases depth, ts.len() - pos, 0nat,
{
    let all = a + ts;
    let n = a.len();
    if pos < ts.len() {
        assert(all[n + pos as int] == ts[pos as int]);
        assert(stands_at(all, n + pos + 1, TokView::LParen) == stands_at(
            ts,
            pos + 1,
            TokView::LParen,
        ));
        if depth > 0 {
            let d = (depth - 1) as nat;
            match ts[pos as int] {
                TokView::Name(name) => {
                    if stands_at(ts, pos + 1, TokView::LParen) {
                        lemma_call_args_move(a, ts, pos + 2, d);
                        let (args, p) = call_args_at(ts, pos + 2, d);
                        assert(stands_at(all, n + p, TokView::RParen) == stands_at(
                            ts,
                            p,
                            TokView::RParen,
                        ));
                        if pos <= p && stands_at(ts, p, TokView::RParen) {
                            let call = ExprView::Call { name, args };
                            lemma_links_move(a, ts, p + 1, call, depth);
                        }
                    }
                },
                TokView::LParen => {
                    law_an_expression_is_read_alike_anywhere(a, ts, pos + 1, d);
                    let (e, p) = expr_at(ts, pos + 1, d);
                    assert(stands_at(all, n + p, TokView::RParen) == stands_at(
                        ts,
                        p,
                        TokView::RParen,
                    ));
                    if pos <= p && stands_at(ts, p, TokView::RParen) {
                        lemma_links_move(a, ts, p + 1, e, depth);
                    }
                },
                _ => {},
            }
        }
    }
}

proof fn lemma_links_move(
    a: Seq<TokView>,
    ts: Seq<TokView>,
    pos: nat,
    receiver: ExprView,
    depth: nat,
)
    ensures
        links_at(a + ts, a.len() + pos, receiver, depth) == (
            links_at(ts, pos, receiver, depth).0,
            a.len() + links_at(ts, pos, receiver, depth).1,
        ),
    decreases depth, ts.len() - pos, 4nat,
{
    let all = a + ts;
    let n = a.len();
    assert(link_at(all, n + pos) == link_at(ts, pos)) by {
        if pos < ts.len() {
            assert(all[n + pos as int] == ts[pos as int]);
        }
        if pos + 1 < ts.len() {
            assert(all[n + pos + 1int] == ts[pos + 1int]);
        }
    }
    if depth > 0 && expr_nesting(receiver) < depth && link_at(ts, pos) {
        let d = (depth - 1) as nat;
        assert(all[n + pos as int] == ts[pos as int]);
        lemma_call_args_move(a, ts, pos + 2, d);
        let (args, p) = call_args_at(ts, pos + 2, d);
        assert(stands_at(all, n + p, TokView::RParen) == stands_at(ts, p, TokView::RParen));
        if pos <= p && stands_at(ts, p, TokView::RParen) {
            let call = ExprView::Method {
                receiver: Box::new(receiver),
                name: ts[pos as int]->Name_0,
                args,
            };
            lemma_links_move(a, ts, p + 1, call, depth);
        }
    }
}

proof fn lemma_terms_move(a: Seq<TokView>, ts: Seq<TokView>, pos: nat, depth: nat)
    ensures
        terms_at(a + ts, a.len() + pos, depth) == (
            terms_at(ts, pos, depth).0,
            a.len() + terms_at(ts, pos, depth).1,
        ),
    decreases depth, ts.len() - pos, 1nat,
{
    lemma_primary_moves(a, ts, pos, depth);
    let p = primary_at(ts, pos, depth).1;
    assert(stands_at(a + ts, a.len() + p, TokView::Plus) == stands_at(ts, p, TokView::Plus));
    if pos <= p && stands_at(ts, p, TokView::Plus) {
        lemma_terms_move(a, ts, p + 1, depth);
    }
}

proof fn lemma_args_move(a: Seq<TokView>, ts: Seq<TokView>, pos: nat, depth: nat)
    ensures
        args_at(a + ts, a.len() + pos, depth) == (
            args_at(ts, pos, depth).0,
            a.len() + args_at(ts, pos, depth).1,
        ),
    decreases depth, ts.len() - pos, 3nat,
{
    law_an_expression_is_read_alike_anywhere(a, ts, pos, depth);
    let p = expr_at(ts, pos, depth).1;
    assert(stands_at(a + ts, a.len() + p, TokView::Comma) == stands_at(ts, p, TokView::Comma));
    if pos <= p && stands_at(ts, p, TokView::Comma) {
        lemma_args_move(a, ts, p + 1, depth);
    }
}

proof fn lemma_call_args_move(a: Seq<TokView>, ts: Seq<TokView>, pos: nat, depth: nat)
    ensures
        call_args_at(a + ts, a.len() + pos, depth) == (
            call_args_at(ts, pos, depth).0,
            a.len() + call_args_at(ts, pos, depth).1,
        ),
    decreases depth, ts.len() - pos, 4nat,
{
    assert(stands_at(a + ts, a.len() + pos, TokView::RParen) == stands_at(
        ts,
        pos,
        TokView::RParen,
    ));
    if !(pos >= ts.len() || stands_at(ts, pos, TokView::RParen)) {
        lemma_args_move(a, ts, pos, depth);
    }
}

/// What stands before an expression does not change how it is read.
pub proof fn law_an_expression_is_read_alike_anywhere(
    a: Seq<TokView>,
    ts: Seq<TokView>,
    pos: nat,
    depth: nat,
)
    ensures
        expr_at(a + ts, a.len() + pos, depth) == (
            expr_at(ts, pos, depth).0,
            a.len() + expr_at(ts, pos, depth).1,
        ),
    decreases depth, ts.len() - pos, 2nat,
{
    lemma_terms_move(a, ts, pos, depth);
}

} // verus!
