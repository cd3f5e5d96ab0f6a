//! The tokens of one line of source.
use vstd::prelude::*;

use crate::text::{chars_of, string_of, texts};

verus! {

/// A token of the Python subset.
#[derive(Debug)]
pub enum Tok {
    /// An identifier, with its dots: `os.system` is one name.
    Name(String),
    /// A string, a number, or the comparison `==`.
    Lit,
    LParen,
    RParen,
    Comma,
    Plus,
    Eq,
    /// The semicolon between two statements of a line.
    Semi,
    /// An f-string, with the texts between its braces.
    Format(Vec<String>),
}

/// A token as a mathematical value.
#[verifier::ext_equal]
pub enum TokView {
    Name(Seq<char>),
    Lit,
    LParen,
    RParen,
    Comma,
    Plus,
    Eq,
    Semi,
    Format(Seq<Seq<char>>),
}

impl View for Tok {
    type V = TokView;

    open spec fn view(&self) -> TokView {
        match self {
            Tok::Name(n) => TokView::Name(n@),
            Tok::Lit => TokView::Lit,
            Tok::LParen => TokView::LParen,
            Tok::RParen => TokView::RParen,
            Tok::Comma => TokView::Comma,
            Tok::Plus => TokView::Plus,
            Tok::Eq => TokView::Eq,
            Tok::Semi => TokView::Semi,
            Tok::Format(parts) => TokView::Format(texts(parts@)),
        }
    }
}

impl Clone for Tok {
    fn clone(&self) -> (r: Tok)
        ensures
            r@ == self@,
    {
        match self {
            Tok::Name(n) => Tok::Name(n.clone()),
            Tok::Lit => Tok::Lit,
            Tok::LParen => Tok::LParen,
            Tok::RParen => Tok::RParen,
            Tok::Comma => Tok::Comma,
            Tok::Plus => Tok::Plus,
            Tok::Eq => Tok::Eq,
            Tok::Semi => Tok::Semi,
            Tok::Format(parts) => {
                let copy = parts.clone();
                assert(texts(copy@) =~= texts(parts@));
                Tok::Format(copy)
            },
        }
    }
}

/// The tokens that a vector holds.
pub open spec fn tok_views(v: Seq<Tok>) -> Seq<TokView> {
    v.map_values(|t: Tok| t@)
}

/// Whether `c` can stand in a name.
pub open spec fn is_name_char(c: char) -> bool {
    crate::text::is_alphanumeric(c) || c == '_' || c == '.'
}

/// Whether `c` is a decimal digit.
pub open spec fn is_digit(c: char) -> bool {
    '0' <= c <= '9'
}

/// Whether `c` can follow the first digit of a number.
pub open spec fn is_number_char(c: char) -> bool {
    is_digit(c) || c == '.'
}

/// How many characters a string literal takes after its opening quote `q`: up to and with
/// the next `q`, or all of them if none closes it. A backslash takes the character after
/// it out of consideration.
pub open spec fn string_len(s: Seq<char>, q: char) -> nat
    decreases s.len(),
{
    if s.len() == 0 {
        0
    } else if s[0] == '\\' {
        if s.len() == 1 {
            1
        } else {
            2 + string_len(s.skip(2), q)
        }
    } else if s[0] == q {
        1
    } else {
        1 + string_len(s.skip(1), q)
    }
}

pub proof fn lemma_string_len_bound(s: Seq<char>, q: char)
    ensures
        string_len(s, q) <= s.len(),
    decreases s.len(),
{
    if s.len() > 0 {
        if s[0] == '\\' {
            if s.len() > 1 {
                lemma_string_len_bound(s.skip(2), q);
            }
        } else if s[0] != q {
            lemma_string_len_bound(s.skip(1), q);
        }
    }
}

/// Whether a string literal is closed: `q` stands after the opening quote, not counting
/// what a backslash takes out of consideration.
pub open spec fn string_closes(s: Seq<char>, q: char) -> bool
    decreases s.len(),
{
    if s.len() == 0 {
        false
    } else if s[0] == '\\' {
        s.len() > 1 && string_closes(s.skip(2), q)
    } else {
        s[0] == q || string_closes(s.skip(1), q)
    }
}

proof fn lemma_closed_string_nonempty(s: Seq<char>, q: char)
    requires
        string_closes(s, q),
    ensures
        string_len(s, q) >= 1,
{
}

/// The text of a string literal after its opening quote `q`, without the closing one.
pub open spec fn string_text(s: Seq<char>, q: char) -> Seq<char> {
    if string_closes(s, q) {
        s.take(string_len(s, q) - 1)
    } else {
        s.take(string_len(s, q) as int)
    }
}

/// Whether `c` opens a string literal.
pub open spec fn is_quote(c: char) -> bool {
    c == '"' || c == '\''
}

/// Whether a name in front of a string makes it an f-string: an `f`, alone or with the `r`
/// of a raw string, in either case.
pub open spec fn is_format_prefix(name: Seq<char>) -> bool {
    ||| name.len() == 1 && (name[0] == 'f' || name[0] == 'F')
    ||| {
        &&& name.len() == 2
        &&& (name[0] == 'f' || name[0] == 'F') && (name[1] == 'r' || name[1] == 'R') || (name[0]
            == 'r' || name[0] == 'R') && (name[1] == 'f' || name[1] == 'F')
    }
}

/// How many characters stand before the brace that closes an opened one, or in all if none
/// does; `inner` braces have been opened in between.
pub open spec fn brace_len(s: Seq<char>, inner: nat) -> nat
    decreases s.len(),
{
    if s.len() == 0 {
        0
    } else if s[0] == '{' {
        1 + brace_len(s.skip(1), inner + 1)
    } else if s[0] == '}' {
        if inner == 0 {
            0
        } else {
            1 + brace_len(s.skip(1), (inner - 1) as nat)
        }
    } else {
        1 + brace_len(s.skip(1), inner)
    }
}

pub proof fn lemma_brace_len_bound(s: Seq<char>, inner: nat)
    ensures
        brace_len(s, inner) <= s.len(),
    decreases s.len(),
{
    if s.len() > 0 {
        lemma_brace_len_bound(s.skip(1), inner + 1);
        lemma_brace_len_bound(s.skip(1), inner);
        if inner > 0 {
            lemma_brace_len_bound(s.skip(1), (inner - 1) as nat);
        }
    }
}

/// The texts between the braces of an f-string with text `s`. Two opening braces in a row
/// stand for one and open nothing.
pub open spec fn interpolations(s: Seq<char>) -> Seq<Seq<char>>
    decreases s.len(),
{
    if s.len() == 0 {
        Seq::empty()
    } else if s[0] != '{' {
        interpolations(s.skip(1))
    } else if s.len() > 1 && s[1] == '{' {
        interpolations(s.skip(2))
    } else {
        proof {
            lemma_brace_len_bound(s.skip(1), 0);
        }
        let n = brace_len(s.skip(1), 0) as int;
        let rest = if n + 1 < s.len() {
            s.skip(n + 2)
        } else {
            Seq::empty()
        };
        seq![s.subrange(1, n + 1)] + interpolations(rest)
    }
}

/// The token of a string literal with text `s`, behind an `f`.
pub open spec fn format_token(s: Seq<char>) -> TokView {
    if interpolations(s).len() == 0 {
        TokView::Lit
    } else {
        TokView::Format(interpolations(s))
    }
}

/// What stands at the head of a nonempty `s` that does not begin with `#`: the token, if
/// there is one, and how many characters it takes. White space and the characters outside
/// the subset (brackets, colons, other operators) are one character each and no token.
pub open spec fn head(s: Seq<char>) -> (Option<TokView>, nat) {
    let c = s[0];
    if crate::text::is_whitespace(c) {
        (None, 1)
    } else if c == '(' {
        (Some(TokView::LParen), 1)
    } else if c == ')' {
        (Some(TokView::RParen), 1)
    } else if c == ',' {
        (Some(TokView::Comma), 1)
    } else if c == '+' {
        (Some(TokView::Plus), 1)
    } else if c == '=' {
        if s.len() > 1 && s[1] == '=' {
            (Some(TokView::Lit), 2)
        } else {
            (Some(TokView::Eq), 1)
        }
    } else if c == ';' {
        (Some(TokView::Semi), 1)
    } else if is_quote(c) {
        (Some(TokView::Lit), 1 + string_len(s.skip(1), c))
    } else if is_digit(c) {
        (Some(TokView::Lit), crate::text::run_len(s, |x: char| is_number_char(x)))
    } else if is_name_char(c) {
        let n = crate::text::run_len(s, |x: char| is_name_char(x));
        let name = s.take(n as int);
        if is_format_prefix(name) && n < s.len() && is_quote(s[n as int]) {
            let body = s.skip(n as int + 1);
            let q = s[n as int];
            (Some(format_token(string_text(body, q))), n + 1 + string_len(body, q))
        } else {
            (Some(TokView::Name(name)), n)
        }
    } else {
        (None, 1)
    }
}

pub proof fn lemma_head_bounds(s: Seq<char>)
    requires
        s.len() > 0,
    ensures
        1 <= head(s).1 <= s.len(),
{
    lemma_string_len_bound(s.skip(1), s[0]);
    crate::text::lemma_run_len_bounds(s, |x: char| is_number_char(x));
    crate::text::lemma_run_len_bounds(s, |x: char| is_name_char(x));
    let n = crate::text::run_len(s, |x: char| is_name_char(x));
    if n < s.len() {
        lemma_string_len_bound(s.skip(n as int + 1), s[n as int]);
    }
}

/// The tokens of a line. A `#` outside a string starts a comment, which runs to the end of
/// the line.
pub open spec fn lex(s: Seq<char>) -> Seq<TokView>
    decreases s.len(),
{
    if s.len() == 0 || s[0] == '#' {
        Seq::empty()
    } else {
        proof {
            lemma_head_bounds(s);
        }
        let (tok, n) = head(s);
        let rest = lex(s.skip(n as int));
        match tok {
            Some(t) => seq![t] + rest,
            None => rest,
        }
    }
}

/// Whether the string literal at the head of `s`, if one stands there, is closed.
pub open spec fn head_string_closes(s: Seq<char>) -> bool {
    let n = crate::text::run_len(s, |x: char| is_name_char(x));
    &&& is_quote(s[0]) ==> string_closes(s.skip(1), s[0])
    &&& !is_digit(s[0]) && is_format_prefix(s.take(n as int)) && n < s.len() && is_quote(
        s[n as int],
    ) ==> string_closes(s.skip(n as int + 1), s[n as int])
}

/// Whether every string literal of a line, before its comment, is closed.
pub open spec fn strings_close(s: Seq<char>) -> bool
    decreases s.len(),
{
    if s.len() == 0 || s[0] == '#' {
        true
    } else {
        proof {
            lemma_head_bounds(s);
        }
        &&& head_string_closes(s)
        &&& strings_close(s.skip(head(s).1 as int))
    }
}

proof fn lemma_closed_string(a: Seq<char>, b: Seq<char>, q: char)
    requires
        string_closes(a, q),
    ensures
        string_len(a + b, q) == string_len(a, q),
        string_closes(a + b, q),
        string_text(a + b, q) == string_text(a, q),
    decreases a.len(),
{
    if a[0] == '\\' {
        lemma_closed_string(a.skip(2), b, q);
        assert((a + b).skip(2) =~= a.skip(2) + b);
    } else if a[0] != q {
        lemma_closed_string(a.skip(1), b, q);
        assert((a + b).skip(1) =~= a.skip(1) + b);
    }
    lemma_string_len_bound(a, q);
    lemma_closed_string_nonempty(a, q);
    assert(string_text(a + b, q) =~= string_text(a, q));
}

/// Whether a text starts with a character that continues no token: a blank, a comment, a
/// parenthesis, a comma, a plus or a semicolon.
pub open spec fn ends_tokens(s: Seq<char>) -> bool {
    s.len() > 0 && (s[0] == '#' || s[0] == ';' || s[0] == '+' || s[0] == ',' || s[0] == '('
        || s[0] == ')' || s[0] == ' ')
}

/// What stands at the head of a line is the same whatever such text follows the line.
proof fn lemma_head_stays(line: Seq<char>, tail: Seq<char>)
    requires
        line.len() > 0,
        line[0] != '#',
        head_string_closes(line),
        ends_tokens(tail),
    ensures
        head(line + tail) == head(line),
        (line + tail).skip(head(line).1 as int) == line.skip(head(line).1 as int) + tail,
{
    let all = line + tail;
    lemma_head_bounds(line);
    let n = head(line).1;
    crate::text::lemma_run_len_prefix(line, tail, |x: char| is_number_char(x));
    crate::text::lemma_run_len_prefix(line, tail, |x: char| is_name_char(x));
    assert(all.skip(1) =~= line.skip(1) + tail);
    if is_quote(line[0]) {
        lemma_closed_string(line.skip(1), tail, line[0]);
    }
    let m = crate::text::run_len(line, |x: char| is_name_char(x)) as int;
    crate::text::lemma_run_len_bounds(line, |x: char| is_name_char(x));
    assert(all.take(m) =~= line.take(m));
    if m < line.len() {
        assert(all.skip(m + 1) =~= line.skip(m + 1) + tail);
        if !is_digit(line[0]) && is_format_prefix(line.take(m)) && is_quote(line[m]) {
            lemma_closed_string(line.skip(m + 1), tail, line[m]);
        }
    }
    assert(all[0] == line[0]);
    assert(all.take(n as int) =~= line.take(n as int));
    assert(all.skip(n as int) =~= line.skip(n as int) + tail);
}

/// A comment says nothing: where a line's strings are closed, a `#` and what follows it
/// add no token.
pub proof fn law_comment_is_ignored(line: Seq<char>, comment: Seq<char>)
    requires
        strings_close(line),
        comment.len() > 0,
        comment[0] == '#',
    ensures
        lex(line + comment) == lex(line),
    decreases line.len(),
{
    if line.len() == 0 {
        assert(line + comment =~= comment);
    } else if line[0] != '#' {
        lemma_head_bounds(line);
        lemma_head_stays(line, comment);
        law_comment_is_ignored(line.skip(head(line).1 as int), comment);
    }
}

/// Whether a line has no comment.
pub open spec fn comment_free(s: Seq<char>) -> bool
    decreases s.len(),
{
    if s.len() == 0 {
        true
    } else {
        proof {
            lemma_head_bounds(s);
        }
        s[0] != '#' && comment_free(s.skip(head(s).1 as int))
    }
}

/// A semicolon outside strings and comments is a token of its own, between the tokens on its
/// two sides.
pub proof fn law_semicolon_is_a_token(line: Seq<char>, rest: Seq<char>)
    requires
        strings_close(line),
        comment_free(line),
    ensures
        lex(line + (seq![';'] + rest)) == lex(line) + (seq![TokView::Semi] + lex(rest)),
    decreases line.len(),
{
    let tail = seq![';'] + rest;
    let all = line + tail;
    if line.len() == 0 {
        assert(all =~= tail);
        assert(tail.skip(1) =~= rest);
        assert(all[0] == ';');
        assert(lex(line) + (seq![TokView::Semi] + lex(rest)) =~= seq![TokView::Semi] + lex(rest));
    } else {
        lemma_head_bounds(line);
        lemma_head_stays(line, tail);
        let (tok, n) = head(line);
        law_semicolon_is_a_token(line.skip(n as int), rest);
        assert(all[0] == line[0]);
        if let Some(t) = tok {
            assert(seq![t] + (lex(line.skip(n as int)) + (seq![TokView::Semi] + lex(rest)))
                =~= lex(line) + (seq![TokView::Semi] + lex(rest)));
        }
    }
}

/// One step of `lex` at position `i` of a line whose tokens before `i` are `before`.
proof fn lemma_lex_step(line: Seq<char>, i: int, before: Seq<TokView>)
    requires
        0 <= i < line.len(),
        line[i] != '#',
        lex(line) == before + lex(line.skip(i)),
    ensures
        1 <= head(line.skip(i)).1 <= line.len() - i,
        match head(line.skip(i)).0 {
            Some(t) => lex(line) == before.push(t) + lex(line.skip(i + head(line.skip(i)).1)),
            None => lex(line) == before + lex(line.skip(i + head(line.skip(i)).1)),
        },
{
    let s = line.skip(i);
    lemma_head_bounds(s);
    let (tok, n) = head(s);
    assert(s.skip(n as int) =~= line.skip(i + n));
    if let Some(t) = tok {
        assert(before + (seq![t] + lex(line.skip(i + n))) =~= before.push(t) + lex(
            line.skip(i + n),
        ));
    }
}

/// Whether `c` can stand in a name.
fn name_char(c: char) -> (r: bool)
    ensures
        r == is_name_char(c),
{
    c.is_alphanumeric() || c == '_' || c == '.'
}

/// The position after the string literal whose opening quote `q` stands before `from`, and
/// whether it is closed.
fn string_end(chars: &Vec<char>, from: usize, q: char) -> (r: (usize, bool))
    requires
        from <= chars@.len(),
        q != '\\',
    ensures
        r.0 == from + string_len(chars@.skip(from as int), q),
        r.0 <= chars@.len(),
        r.1 == string_closes(chars@.skip(from as int), q),
{
    let mut i: usize = from;
    let mut closed = false;
    let ghost whole = string_len(chars@.skip(from as int), q);
    let ghost closes = string_closes(chars@.skip(from as int), q);
    proof {
        lemma_string_len_bound(chars@.skip(from as int), q);
    }
    while i < chars.len()
        invariant_except_break
            whole == i - from + string_len(chars@.skip(i as int), q),
            closes == string_closes(chars@.skip(i as int), q),
            !closed,
        invariant
            from <= i <= chars@.len(),
        ensures
            whole == i - from,
            closes == closed,
        decreases chars@.len() - i,
    {
        let ghost s = chars@.skip(i as int);
        let c = chars[i];
        assert(s.skip(1) =~= chars@.skip(i + 1));
        i += 1;
        if c == '\\' {
            if i < chars.len() {
                assert(s.skip(2) =~= chars@.skip(i + 1));
                i += 1;
            }
        } else if c == q {
            closed = true;
            break;
        }
    }
    (i, closed)
}

/// The position of the brace that closes one opened before `from`, or `to` if none does
/// before it.
fn brace_end(chars: &Vec<char>, from: usize, to: usize) -> (end: usize)
    requires
        from <= to <= chars@.len(),
    ensures
        end == from + brace_len(chars@.subrange(from as int, to as int), 0),
        end <= to,
{
    let mut i: usize = from;
    let mut inner: usize = 0;
    let ghost whole = brace_len(chars@.subrange(from as int, to as int), 0);
    while i < to
        invariant_except_break
            whole == i - from + brace_len(chars@.subrange(i as int, to as int), inner as nat),
        invariant
            from <= i <= to <= chars@.len(),
            inner <= i - from,
        ensures
            whole == i - from,
        decreases to - i,
    {
        let ghost s = chars@.subrange(i as int, to as int);
        let c = chars[i];
        assert(s.skip(1) =~= chars@.subrange(i + 1, to as int));
        assert(s[0] == c);
        if c == '{' {
            inner += 1;
        } else if c == '}' {
            if inner == 0 {
                break;
            }
            inner -= 1;
        }
        i += 1;
    }
    i
}

/// The texts between the braces of the f-string text from `from` up to `to`.
fn interpolation_texts(chars: &Vec<char>, from: usize, to: usize) -> (r: Vec<String>)
    requires
        from <= to <= chars@.len(),
    ensures
        texts(r@) == interpolations(chars@.subrange(from as int, to as int)),
{
    let mut out: Vec<String> = Vec::new();
    let mut i: usize = from;
    let ghost all = interpolations(chars@.subrange(from as int, to as int));
    assert(texts(out@) =~= Seq::empty());
    assert(texts(out@) + all =~= all);
    while i < to
        invariant
            from <= i <= to <= chars@.len(),
            all == texts(out@) + interpolations(chars@.subrange(i as int, to as int)),
        decreases to - i,
    {
        let ghost s = chars@.subrange(i as int, to as int);
        assert(s[0] == chars@[i as int]);
        assert(s.skip(1) =~= chars@.subrange(i + 1, to as int));
        if chars[i] != '{' {
            i += 1;
        } else if i + 1 < to && chars[i + 1] == '{' {
            assert(s[1] == chars@[i + 1]);
            assert(s.skip(2) =~= chars@.subrange(i + 2, to as int));
            i += 2;
        } else {
            if i + 1 < to {
                assert(s[1] == chars@[i + 1]);
            }
            let end = brace_end(chars, i + 1, to);
            let part = string_of(chars, i + 1, end);
            let ghost before = out@;
            let ghost n = brace_len(s.skip(1), 0) as int;
            assert(s.subrange(1, n + 1) =~= part@);
            out.push(part);
            i = if end < to {
                end + 1
            } else {
                to
            };
            proof {
                let rest = if n + 1 < s.len() {
                    s.skip(n + 2)
                } else {
                    Seq::empty()
                };
                assert(rest =~= chars@.subrange(i as int, to as int));
                assert(texts(out@) =~= texts(before).push(part@));
                assert(texts(before) + (seq![part@] + interpolations(rest)) =~= texts(out@)
                    + interpolations(rest));
            }
        }
    }
    assert(texts(out@) + interpolations(Seq::empty()) =~= texts(out@));
    assert(chars@.subrange(to as int, to as int) =~= Seq::empty());
    out
}

/// The token of the f-string whose text stands from `from` up to `to`.
fn format_tok(chars: &Vec<char>, from: usize, to: usize) -> (r: Tok)
    requires
        from <= to <= chars@.len(),
    ensures
        r@ == format_token(chars@.subrange(from as int, to as int)),
{
    let parts = interpolation_texts(chars, from, to);
    assert(texts(parts@).len() == parts@.len());
    if parts.len() == 0 {
        Tok::Lit
    } else {
        Tok::Format(parts)
    }
}

/// Whether the name from `from` up to `to` makes an f-string of a string behind it.
fn format_prefix(chars: &Vec<char>, from: usize, to: usize) -> (r: bool)
    requires
        from <= to <= chars@.len(),
    ensures
        r == is_format_prefix(chars@.subrange(from as int, to as int)),
{
    let ghost name = chars@.subrange(from as int, to as int);
    if to - from == 1 {
        assert(name[0] == chars@[from as int]);
        chars[from] == 'f' || chars[from] == 'F'
    } else if to - from == 2 {
        assert(name[0] == chars@[from as int] && name[1] == chars@[from + 1]);
        let a = chars[from];
        let b = chars[from + 1];
        (a == 'f' || a == 'F') && (b == 'r' || b == 'R') || (a == 'r' || a == 'R') && (b == 'f'
            || b == 'F')
    } else {
        false
    }
}

/// The position after the number that starts at `from`.
fn number_end(chars: &Vec<char>, from: usize) -> (end: usize)
    requires
        from < chars@.len(),
    ensures
        end == from + crate::text::run_len(
            chars@.skip(from as int),
            |x: char| is_number_char(x),
        ),
        end <= chars@.len(),
{
    let mut i: usize = from;
    let ghost s = chars@.skip(from as int);
    let ghost p = |x: char| is_number_char(x);
    while i < chars.len() && (('0' <= chars[i] && chars[i] <= '9') || chars[i] == '.')
        invariant
            from <= i <= chars@.len(),
            s == chars@.skip(from as int),
            forall|k: int| from <= k < i ==> is_number_char(#[trigger] chars@[k]),
        ensures
            i < chars@.len() ==> !is_number_char(chars@[i as int]),
        decreases chars@.len() - i,
    {
        i += 1;
    }
    proof {
        assert forall|k: int| 0 <= k < i - from implies p(#[trigger] s[k]) by {
            assert(s[k] == chars@[from + k]);
        }
        crate::text::lemma_run_len_is(s, p, (i - from) as nat);
    }
    i
}

/// The position after the name that starts at `from`.
fn name_end(chars: &Vec<char>, from: usize) -> (end: usize)
    requires
        from < chars@.len(),
    ensures
        end == from + crate::text::run_len(chars@.skip(from as int), |x: char| is_name_char(x)),
        end <= chars@.len(),
{
    let mut i: usize = from;
    let ghost s = chars@.skip(from as int);
    let ghost p = |x: char| is_name_char(x);
    while i < chars.len() && name_char(chars[i])
        invariant
            from <= i <= chars@.len(),
            s == chars@.skip(from as int),
            forall|k: int| from <= k < i ==> is_name_char(#[trigger] chars@[k]),
        ensures
            i < chars@.len() ==> !is_name_char(chars@[i as int]),
        decreases chars@.len() - i,
    {
        i += 1;
    }
    proof {
        assert forall|k: int| 0 <= k < i - from implies p(#[trigger] s[k]) by {
            assert(s[k] == chars@[from + k]);
        }
        crate::text::lemma_run_len_is(s, p, (i - from) as nat);
    }
    i
}

/// The tokens of `line`.
pub fn lex_line(line: &str) -> (toks: Vec<Tok>)
    ensures
        tok_views(toks@) == lex(line@),
{
    let chars = chars_of(line);
    let mut toks: Vec<Tok> = Vec::new();
    let mut i: usize = 0;
    assert(line@.skip(0) =~= line@);
    assert(tok_views(toks@) =~= Seq::empty());
    while i < chars.len()
        invariant_except_break
            lex(line@) == tok_views(toks@) + lex(line@.skip(i as int)),
        invariant
            chars@ == line@,
            i <= chars@.len(),
        ensures
            lex(line@) == tok_views(toks@),
        decreases chars@.len() - i,
    {
        let c = chars[i];
        let ghost s = line@.skip(i as int);
        let ghost before = toks@;
        if c == '#' {
            assert(tok_views(toks@) + Seq::<TokView>::empty() =~= tok_views(toks@));
            break;
        }
        proof {
            lemma_lex_step(line@, i as int, tok_views(toks@));
            assert(s[0] == c);
        }
        let (tok, end): (Option<Tok>, usize) = if c.is_whitespace() {
            (None, i + 1)
        } else if c == '(' {
            (Some(Tok::LParen), i + 1)
        } else if c == ')' {
            (Some(Tok::RParen), i + 1)
        } else if c == ',' {
            (Some(Tok::Comma), i + 1)
        } else if c == '+' {
            (Some(Tok::Plus), i + 1)
        } else if c == '=' {
            if i + 1 < chars.len() && chars[i + 1] == '=' {
                (Some(Tok::Lit), i + 2)
            } else {
                (Some(Tok::Eq), i + 1)
            }
        } else if c == ';' {
            (Some(Tok::Semi), i + 1)
        } else if c == '"' || c == '\'' {
            assert(s.skip(1) =~= line@.skip(i + 1));
            (Some(Tok::Lit), string_end(&chars, i + 1, c).0)
        } else if '0' <= c && c <= '9' {
            (Some(Tok::Lit), number_end(&chars, i))
        } else if name_char(c) {
            let end = name_end(&chars, i);
            assert(s.take(end - i) =~= line@.subrange(i as int, end as int));
            if end < chars.len() && (chars[end] == '"' || chars[end] == '\'') && format_prefix(
                &chars,
                i,
                end,
            ) {
                let (after, closed) = string_end(&chars, end + 1, chars[end]);
                let ghost body = s.skip(end - i + 1);
                assert(body =~= line@.skip(end + 1));
                assert(s[end - i] == line@[end as int]);
                proof {
                    if closed {
                        lemma_closed_string_nonempty(body, chars@[end as int]);
                    }
                }
                let to: usize = if closed {
                    after - 1
                } else {
                    after
                };
                assert(string_text(body, chars@[end as int]) =~= line@.subrange(
                    end + 1,
                    to as int,
                ));
                (Some(format_tok(&chars, end + 1, to)), after)
            } else {
                let name = string_of(&chars, i, end);
                if end < chars.len() {
                    assert(s[end - i] == line@[end as int]);
                }
                (Some(Tok::Name(name)), end)
            }
        } else {
            (None, i + 1)
        };
        assert(end == i + head(s).1);
        match tok {
            Some(t) => {
                assert(head(s).0 == Some(t@));
                toks.push(t);
                assert(tok_views(toks@) =~= tok_views(before).push(t@));
            },
            None => {
                assert(head(s).0 is None);
            },
        }
        i = end;
    }
    assert(tok_views(toks@) + Seq::<TokView>::empty() =~= tok_views(toks@));
    toks
}

// ---- Laws of tokens ----

/// A parenthesis, a comma, a plus or a semicolon is a token of its own, whatever follows it.
pub proof fn law_lone_characters_are_tokens(rest: Seq<char>)
    ensures
        lex(seq!['('] + rest) == seq![TokView::LParen] + lex(rest),
        lex(seq![')'] + rest) == seq![TokView::RParen] + lex(rest),
        lex(seq![','] + rest) == seq![TokView::Comma] + lex(rest),
        lex(seq!['+'] + rest) == seq![TokView::Plus] + lex(rest),
        lex(seq![';'] + rest) == seq![TokView::Semi] + lex(rest),
{
    assert((seq!['('] + rest).skip(1) =~= rest);
    assert((seq![')'] + rest).skip(1) =~= rest);
    assert((seq![','] + rest).skip(1) =~= rest);
    assert((seq!['+'] + rest).skip(1) =~= rest);
    assert((seq![';'] + rest).skip(1) =~= rest);
}

/// An equals sign is a token of its own, but two in a row are a comparison, which is no
/// assignment.
pub proof fn law_equals_signs(rest: Seq<char>)
    ensures
        rest.len() == 0 || rest[0] != '=' ==> lex(seq!['='] + rest) == seq![TokView::Eq] + lex(
            rest,
        ),
        lex(seq!['=', '='] + rest) == seq![TokView::Lit] + lex(rest),
{
    let one = seq!['='] + rest;
    let two = seq!['=', '='] + rest;
    assert(one.skip(1) =~= rest);
    if rest.len() > 0 {
        assert(one[1] == rest[0]);
    }
    assert(two[1] == '=');
    assert(two.skip(2) =~= rest);
}

/// White space, and a character that belongs to no token, changes nothing; a `#` ends the
/// line.
pub proof fn law_what_is_no_token(c: char, rest: Seq<char>)
    ensures
        crate::text::is_whitespace(c) ==> lex(seq![c] + rest) == lex(rest),
        ({
            &&& c != '#' && c != '(' && c != ')' && c != ',' && c != '+' && c != '=' && c != ';'
            &&& c != '"' && c != '\'' && c != '_' && c != '.'
            &&& !crate::text::is_alphanumeric(c)
        }) ==> lex(seq![c] + rest) == lex(rest),
        lex(seq!['#'] + rest).len() == 0,
{
    let s = seq![c] + rest;
    assert(s.skip(1) =~= rest);
    assert(s[0] == c);
    assert((seq!['#'] + rest)[0] == '#');
    assert(!crate::text::is_whitespace('#'));
}

/// A name is one token, dots and all, up to the first character that cannot stand in a name.
/// In front of a quote this does not hold of the prefixes of f-strings.
pub proof fn law_names_are_tokens(name: Seq<char>, rest: Seq<char>)
    requires
        name.len() > 0,
        forall|i: int|
            0 <= i < name.len() ==> crate::text::is_alphanumeric(#[trigger] name[i]) || name[i]
                == '_' || name[i] == '.',
        !('0' <= name[0] <= '9'),
        !crate::text::is_whitespace(name[0]),
        rest.len() > 0 ==> !crate::text::is_alphanumeric(rest[0]) && rest[0] != '_' && rest[0]
            != '.',
        rest.len() > 0 && (rest[0] == '"' || rest[0] == '\'') ==> !is_format_prefix(name),
    ensures
        lex(name + rest) == seq![TokView::Name(name)] + lex(rest),
{
    let s = name + rest;
    let p = |x: char| is_name_char(x);
    assert forall|k: int| 0 <= k < name.len() implies p(#[trigger] s[k]) by {
        assert(s[k] == name[k]);
    }
    if rest.len() > 0 {
        assert(s[name.len() as int] == rest[0]);
    }
    crate::text::lemma_run_len_is(s, p, name.len());
    assert(s.take(name.len() as int) =~= name);
    assert(s.skip(name.len() as int) =~= rest);
    assert(s[0] == name[0]);
}

/// A number is one literal, up to the first character that is neither a digit nor a dot.
pub proof fn law_numbers_are_literals(number: Seq<char>, rest: Seq<char>)
    requires
        number.len() > 0,
        '0' <= number[0] <= '9',
        forall|i: int|
            0 <= i < number.len() ==> '0' <= #[trigger] number[i] <= '9' || number[i] == '.',
        rest.len() > 0 ==> !('0' <= rest[0] <= '9') && rest[0] != '.',
    ensures
        lex(number + rest) == seq![TokView::Lit] + lex(rest),
{
    let s = number + rest;
    let p = |x: char| is_number_char(x);
    assert forall|k: int| 0 <= k < number.len() implies p(#[trigger] s[k]) by {
        assert(s[k] == number[k]);
    }
    if rest.len() > 0 {
        assert(s[number.len() as int] == rest[0]);
    }
    crate::text::lemma_run_len_is(s, p, number.len());
    assert(s.skip(number.len() as int) =~= rest);
    assert(s[0] == number[0]);
}

/// A string is one literal, whatever stands in it. It ends with the quote that opened it, or
/// with the line. A backslash takes the meaning from the character after it.
pub proof fn law_strings_are_literals(q: char, c: char, rest: Seq<char>)
    requires
        q == '"' || q == '\'',
    ensures
        lex(seq![q, q] + rest) == seq![TokView::Lit] + lex(rest),
        c != q && c != '\\' ==> lex(seq![q, c] + rest) == lex(seq![q] + rest),
        lex(seq![q, '\\', c] + rest) == lex(seq![q] + rest),
        lex(seq![q]) == seq![TokView::Lit],
        lex(seq![q, '\\']) == seq![TokView::Lit],
{
    let plain = seq![q] + rest;
    assert(plain.skip(1) =~= rest);
    lemma_head_bounds(plain);
    let n = string_len(rest, q) as int;
    let a = seq![q, q] + rest;
    assert(a.skip(1) =~= seq![q] + rest);
    assert(a.skip(1)[0] == q);
    assert(a.skip(2) =~= rest);
    let b = seq![q, c] + rest;
    if c != q && c != '\\' {
        assert(b.skip(1) =~= seq![c] + rest);
        assert(b.skip(1).skip(1) =~= rest);
        assert(b.skip(2 + n) =~= plain.skip(1 + n));
    }
    let e = seq![q, '\\', c] + rest;
    assert(e.skip(1) =~= seq!['\\', c] + rest);
    assert(e.skip(1).skip(2) =~= rest);
    assert(e.skip(3 + n) =~= plain.skip(1 + n));
    let one = seq![q];
    assert(one.skip(1) =~= Seq::empty());
    assert(string_len(Seq::empty(), q) == 0);
    assert(lex(Seq::empty()) =~= Seq::empty());
    assert(head(one) == (Some(TokView::Lit), 1nat));
    assert(lex(one) =~= seq![TokView::Lit]);
    let two = seq![q, '\\'];
    assert(two.skip(1) =~= seq!['\\']);
    assert(string_len(seq!['\\'], q) == 1);
    assert(two.skip(2) =~= Seq::empty());
    assert(lex(two) =~= seq![TokView::Lit]);
}

/// The prefixes that make an f-string of a string: `f` and `F`, and these together with the
/// `r` or `R` of a raw string, in either order.
pub proof fn law_format_prefixes(name: Seq<char>)
    ensures
        is_format_prefix(name) <==> {
            ||| name == seq!['f'] || name == seq!['F']
            ||| name == seq!['f', 'r'] || name == seq!['f', 'R']
            ||| name == seq!['F', 'r'] || name == seq!['F', 'R']
            ||| name == seq!['r', 'f'] || name == seq!['r', 'F']
            ||| name == seq!['R', 'f'] || name == seq!['R', 'F']
        },
{
    if name.len() == 1 {
        assert(name =~= seq![name[0]]);
    }
    if name.len() == 2 {
        assert(name =~= seq![name[0], name[1]]);
    }
}

proof fn lemma_plain_string(body: Seq<char>, q: char, rest: Seq<char>)
    requires
        q != '\\',
        !body.contains(q),
        !body.contains('\\'),
    ensures
        string_len(body + (seq![q] + rest), q) == body.len() + 1,
        string_closes(body + (seq![q] + rest), q),
    decreases body.len(),
{
    let s = body + (seq![q] + rest);
    if body.len() > 0 {
        assert(body.contains(body[0]));
        assert(s[0] == body[0]);
        assert(s.skip(1) =~= body.skip(1) + (seq![q] + rest));
        assert forall|c: char| body.skip(1).contains(c) implies body.contains(c) by {
            let i = choose|i: int| 0 <= i < body.len() - 1 && body.skip(1)[i] == c;
            assert(body[i + 1] == c);
        }
        lemma_plain_string(body.skip(1), q, rest);
    } else {
        assert(s[0] == q);
    }
}

/// An f-string is one token, with the texts between its braces; without any it is a literal
/// like any other string.
pub proof fn law_format_strings_are_tokens(
    prefix: Seq<char>,
    q: char,
    body: Seq<char>,
    rest: Seq<char>,
)
    requires
        is_format_prefix(prefix),
        q == '"' || q == '\'',
        !body.contains(q),
        !body.contains('\\'),
    ensures
        interpolations(body).len() > 0 ==> lex(prefix + (seq![q] + (body + (seq![q] + rest))))
            == seq![TokView::Format(interpolations(body))] + lex(rest),
        interpolations(body).len() == 0 ==> lex(prefix + (seq![q] + (body + (seq![q] + rest))))
            == seq![TokView::Lit] + lex(rest),
{
    let tail = body + (seq![q] + rest);
    let s = prefix + (seq![q] + tail);
    let p = |x: char| is_name_char(x);
    let n = prefix.len();
    assert forall|k: int| 0 <= k < n implies p(#[trigger] s[k]) by {
        assert(s[k] == prefix[k]);
    }
    assert(s[n as int] == q);
    crate::text::lemma_run_len_is(s, p, n);
    assert(s.take(n as int) =~= prefix);
    assert(s.skip(n as int + 1) =~= tail);
    lemma_plain_string(body, q, rest);
    assert(tail.take(body.len() as int) =~= body);
    assert(s[0] == prefix[0]);
    assert(s.skip(n as int + 1 + body.len() as int + 1) =~= rest);
}

proof fn lemma_open_string(body: Seq<char>, q: char)
    requires
        !body.contains(q),
        !body.contains('\\'),
    ensures
        string_len(body, q) == body.len(),
        !string_closes(body, q),
    decreases body.len(),
{
    if body.len() > 0 {
        assert(body.contains(body[0]));
        assert forall|c: char| body.skip(1).contains(c) implies body.contains(c) by {
            let i = choose|i: int| 0 <= i < body.len() - 1 && body.skip(1)[i] == c;
            assert(body[i + 1] == c);
        }
        lemma_open_string(body.skip(1), q);
    }
}

/// An f-string that is not closed runs to the end of the line, with the texts between its
/// braces.
pub proof fn law_open_format_strings_are_tokens(prefix: Seq<char>, q: char, body: Seq<char>)
    requires
        is_format_prefix(prefix),
        q == '"' || q == '\'',
        !body.contains(q),
        !body.contains('\\'),
    ensures
        interpolations(body).len() > 0 ==> lex(prefix + (seq![q] + body)) == seq![
            TokView::Format(interpolations(body)),
        ],
        interpolations(body).len() == 0 ==> lex(prefix + (seq![q] + body)) == seq![TokView::Lit],
{
    let s = prefix + (seq![q] + body);
    let p = |x: char| is_name_char(x);
    let n = prefix.len();
    assert forall|k: int| 0 <= k < n implies p(#[trigger] s[k]) by {
        assert(s[k] == prefix[k]);
    }
    assert(s[n as int] == q);
    crate::text::lemma_run_len_is(s, p, n);
    assert(s.take(n as int) =~= prefix);
    assert(s.skip(n as int + 1) =~= body);
    lemma_open_string(body, q);
    assert(body.take(body.len() as int) =~= body);
    assert(s[0] == prefix[0]);
    let none = Seq::<char>::empty();
    assert(s.skip(n as int + 1 + body.len() as int) =~= none);
    assert(lex(none) =~= Seq::empty());
    assert(lex(s) =~= seq![format_token(body)]);
}

proof fn lemma_brace_text(part: Seq<char>, inner: nat, tail: Seq<char>)
    requires
        !part.contains('{'),
        !part.contains('}'),
    ensures
        brace_len(part + tail, inner) == part.len() + brace_len(tail, inner),
    decreases part.len(),
{
    if part.len() > 0 {
        let s = part + tail;
        assert(part.contains(part[0]));
        assert(s[0] == part[0]);
        assert(s.skip(1) =~= part.skip(1) + tail);
        assert forall|c: char| part.skip(1).contains(c) implies part.contains(c) by {
            let i = choose|i: int| 0 <= i < part.len() - 1 && part.skip(1)[i] == c;
            assert(part[i + 1] == c);
        }
        lemma_brace_text(part.skip(1), inner, tail);
    } else {
        assert(part + tail =~= tail);
    }
}

/// The interpolations of an f-string are the texts between its braces, in order. Other text
/// adds none, two opening braces in a row open none, and one that is not closed runs to the
/// end.
pub proof fn law_interpolations(part: Seq<char>, c: char, rest: Seq<char>)
    requires
        !part.contains('{'),
        !part.contains('}'),
    ensures
        interpolations(Seq::<char>::empty()).len() == 0,
        c != '{' ==> interpolations(seq![c] + rest) == interpolations(rest),
        interpolations(seq!['{', '{'] + rest) == interpolations(rest),
        interpolations(seq!['{'] + (part + (seq!['}'] + rest))) == seq![part] + interpolations(
            rest,
        ),
        interpolations(seq!['{'] + part) == seq![part],
{
    let a = seq![c] + rest;
    assert(a.skip(1) =~= rest);
    let d = seq!['{', '{'] + rest;
    assert(d[1] == '{');
    assert(d.skip(2) =~= rest);
    let tail = seq!['}'] + rest;
    let s = seq!['{'] + (part + tail);
    assert(s.skip(1) =~= part + tail);
    lemma_brace_text(part, 0, tail);
    assert(tail[0] == '}');
    assert(brace_len(tail, 0) == 0);
    if part.len() > 0 {
        assert(part.contains(part[0]));
        assert(s[1] == part[0]);
    } else {
        assert(s[1] == '}');
    }
    let n = part.len() as int;
    assert(s.subrange(1, n + 1) =~= part);
    assert(s.skip(n + 2) =~= rest);
    assert(s[0] == '{');
    let open = seq!['{'] + part;
    assert(open.skip(1) =~= part);
    assert(part + Seq::<char>::empty() =~= part);
    lemma_brace_text(part, 0, Seq::empty());
    assert(brace_len(part, 0) == n);
    if part.len() > 0 {
        assert(part.contains(part[0]));
        assert(open[1] == part[0]);
    }
    assert(open.subrange(1, n + 1) =~= part);
    assert(interpolations(Seq::<char>::empty()) =~= Seq::empty());
    assert(open.len() == n + 1 && open[0] == '{');
    assert(interpolations(open) == seq![open.subrange(1, n + 1)] + interpolations(Seq::empty()));
    assert(interpolations(open) =~= seq![part]);
}

/// Braces may nest in an interpolation: it ends with the brace that closes the one that opened
/// it.
pub proof fn law_nested_braces(a: Seq<char>, b: Seq<char>, c: Seq<char>, rest: Seq<char>)
    requires
        a.len() > 0,
        !a.contains('{') && !a.contains('}'),
        !b.contains('{') && !b.contains('}'),
        !c.contains('{') && !c.contains('}'),
    ensures
        interpolations(
            seq!['{'] + (a + (seq!['{'] + (b + (seq!['}'] + (c + (seq!['}'] + rest)))))),
        ) == seq![a + (seq!['{'] + (b + (seq!['}'] + c)))] + interpolations(rest),
{
    let end = seq!['}'] + rest;
    let t3 = c + end;
    let t2 = seq!['}'] + t3;
    let t1 = b + t2;
    let t0 = seq!['{'] + t1;
    let whole = a + t0;
    let s = seq!['{'] + whole;
    let part = a + (seq!['{'] + (b + (seq!['}'] + c)));
    assert(s.skip(1) =~= whole);
    lemma_brace_text(a, 0, t0);
    assert(t0.skip(1) =~= t1);
    lemma_brace_text(b, 1, t2);
    assert(t2[0] == '}' && t2.skip(1) =~= t3);
    lemma_brace_text(c, 0, end);
    assert(end[0] == '}');
    assert(brace_len(end, 0) == 0);
    assert(brace_len(t2, 1) == 1 + brace_len(t3, 0));
    assert(brace_len(t0, 0) == 1 + brace_len(t1, 1));
    let n = part.len() as int;
    assert(brace_len(whole, 0) == n);
    assert(a.contains(a[0]));
    assert(s[0] == '{' && s[1] == a[0]);
    assert(s.subrange(1, n + 1) =~= part);
    assert(s.skip(n + 2) =~= rest);
}

/// Tokens do not reach over a blank, a parenthesis, a comma, a plus or a semicolon outside
/// strings and comments: the tokens on its two sides are read each on its own.
pub proof fn law_tokens_end_at_separators(line: Seq<char>, tail: Seq<char>)
    requires
        strings_close(line),
        comment_free(line),
        tail.len() > 0,
        tail[0] == ' ' || tail[0] == '(' || tail[0] == ')' || tail[0] == ',' || tail[0] == '+'
            || tail[0] == ';',
    ensures
        lex(line + tail) == lex(line) + lex(tail),
    decreases line.len(),
{
    let all = line + tail;
    if line.len() == 0 {
        assert(all =~= tail);
        assert(lex(line) + lex(tail) =~= lex(tail));
    } else {
        lemma_head_bounds(line);
        lemma_head_stays(line, tail);
        let (tok, n) = head(line);
        law_tokens_end_at_separators(line.skip(n as int), tail);
        assert(all[0] == line[0]);
        if let Some(t) = tok {
            assert(seq![t] + (lex(line.skip(n as int)) + lex(tail)) =~= lex(line) + lex(tail));
        }
    }
}

/// A plus outside strings and comments is a token of its own, between the tokens on its two
/// sides, even where an equals sign follows it.
pub proof fn law_plus_is_a_token(line: Seq<char>, rest: Seq<char>)
    requires
        strings_close(line),
        comment_free(line),
    ensures
        lex(line + (seq!['+'] + rest)) == lex(line) + (seq![TokView::Plus] + lex(rest)),
{
    law_tokens_end_at_separators(line, seq!['+'] + rest);
    law_lone_characters_are_tokens(rest);
}

} // verus!
