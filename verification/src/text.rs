//! Text as sequences of characters: lines, trimming, comparison, decimal numbers.
use vstd::prelude::*;

verus! {

// ---- Character classes ----

/// What `char::is_alphanumeric` answers for a character beyond ASCII.
pub uninterp spec fn wide_alphanumeric(c: char) -> bool;

/// The white space of Unicode, the characters with the property `White_Space`: the blank,
/// the control characters from tab to carriage return, and the separators.
pub open spec fn is_whitespace(c: char) -> bool {
    ||| c == ' '
    ||| '\t' <= c <= '\r'
    ||| c == '\u{85}'
    ||| c == '\u{a0}'
    ||| c == '\u{1680}'
    ||| '\u{2000}' <= c <= '\u{200a}'
    ||| c == '\u{2028}'
    ||| c == '\u{2029}'
    ||| c == '\u{202f}'
    ||| c == '\u{205f}'
    ||| c == '\u{3000}'
}

/// Unicode letters and numbers: in ASCII the ten digits and the two alphabets.
pub open spec fn is_alphanumeric(c: char) -> bool {
    if c <= '\x7f' {
        '0' <= c <= '9' || 'A' <= c <= 'Z' || 'a' <= c <= 'z'
    } else {
        wide_alphanumeric(c)
    }
}

/// `char::is_whitespace`: trusted to tell the characters with Unicode's property
/// `White_Space` from all others.
pub assume_specification[ char::is_whitespace ](c: char) -> (r: bool)
    ensures
        r == is_whitespace(c),
;

/// `char::is_alphanumeric`: trusted to answer for ASCII as Unicode's `Alphabetic` and
/// numeric properties do, and beyond ASCII to depend on the character alone.
pub assume_specification[ char::is_alphanumeric ](c: char) -> (r: bool)
    ensures
        c <= '\x7f' ==> r == ('0' <= c <= '9' || 'A' <= c <= 'Z' || 'a' <= c <= 'z'),
        c > '\x7f' ==> r == wide_alphanumeric(c),
;

/// `String::push`: trusted to put the character at the end and to change nothing else.
pub assume_specification[ String::push ](s: &mut String, c: char)
    ensures
        final(s)@ == old(s)@.push(c),
;

// ---- Runs of characters ----

/// How many of the first characters of `s` satisfy `p`, up to the first that does not.
pub open spec fn run_len(s: Seq<char>, p: spec_fn(char) -> bool) -> nat
    decreases s.len(),
{
    if s.len() == 0 || !p(s[0]) {
        0
    } else {
        1 + run_len(s.skip(1), p)
    }
}

pub proof fn lemma_run_len_bounds(s: Seq<char>, p: spec_fn(char) -> bool)
    ensures
        run_len(s, p) <= s.len(),
        s.len() > 0 && p(s[0]) ==> run_len(s, p) >= 1,
    decreases s.len(),
{
    if s.len() > 0 && p(s[0]) {
        lemma_run_len_bounds(s.skip(1), p);
    }
}

/// A run of `n` characters that ends at the end of the text or before a character outside
/// the run is the whole run.
pub proof fn lemma_run_len_is(s: Seq<char>, p: spec_fn(char) -> bool, n: nat)
    requires
        n <= s.len(),
        forall|k: int| 0 <= k < n ==> p(#[trigger] s[k]),
        n < s.len() ==> !p(s[n as int]),
    ensures
        run_len(s, p) == n,
    decreases n,
{
    if n > 0 {
        let t = s.skip(1);
        assert forall|k: int| 0 <= k < n - 1 implies p(#[trigger] t[k]) by {
            assert(t[k] == s[k + 1]);
        }
        lemma_run_len_is(t, p, (n - 1) as nat);
        assert(p(s[0]));
    }
}

/// What follows a run and does not continue it does not change it.
pub proof fn lemma_run_len_prefix(a: Seq<char>, b: Seq<char>, p: spec_fn(char) -> bool)
    requires
        run_len(a, p) < a.len() || b.len() == 0 || !p(b[0]),
    ensures
        run_len(a + b, p) == run_len(a, p),
    decreases a.len(),
{
    if a.len() == 0 {
        assert(a + b =~= b);
    } else if p(a[0]) {
        lemma_run_len_prefix(a.skip(1), b, p);
        assert((a + b).skip(1) =~= a.skip(1) + b);
    }
}

/// Every character of a run belongs to it.
proof fn lemma_run_len_within(s: Seq<char>, p: spec_fn(char) -> bool)
    ensures
        forall|k: int| 0 <= k < run_len(s, p) ==> p(#[trigger] s[k]),
    decreases s.len(),
{
    if s.len() > 0 && p(s[0]) {
        lemma_run_len_within(s.skip(1), p);
        lemma_run_len_bounds(s.skip(1), p);
        assert forall|k: int| 0 <= k < run_len(s, p) implies p(#[trigger] s[k]) by {
            if k > 0 {
                assert(s.skip(1)[k - 1] == s[k]);
            }
        }
    }
}

/// A run ends no later than at a character outside it.
proof fn lemma_run_len_stops(s: Seq<char>, p: spec_fn(char) -> bool, i: int)
    requires
        0 <= i < s.len(),
        !p(s[i]),
    ensures
        run_len(s, p) <= i,
    decreases i,
{
    if i > 0 && p(s[0]) {
        assert(s.skip(1)[i - 1] == s[i]);
        lemma_run_len_stops(s.skip(1), p, i - 1);
    }
}

// ---- Strings from and to characters ----

/// The characters of `s`, in order.
pub fn chars_of(s: &str) -> (r: Vec<char>)
    ensures
        r@ == s@,
{
    let mut out: Vec<char> = Vec::new();
    for c in it: s.chars()
        invariant
            out@ == s@.take(it.index() as int),
            it.seq() == s@,
    {
        out.push(c);
    }
    out
}

/// The string made of the characters from `from` up to `to`, without `to`.
pub fn string_of(chars: &Vec<char>, from: usize, to: usize) -> (r: String)
    requires
        from <= to <= chars@.len(),
    ensures
        r@ == chars@.subrange(from as int, to as int),
{
    let mut out = String::new();
    let mut i: usize = from;
    while i < to
        invariant
            from <= i <= to <= chars@.len(),
            out@ == chars@.subrange(from as int, i as int),
        decreases to - i,
    {
        out.push(chars[i]);
        i += 1;
    }
    out
}

/// Whether two texts are the same.
pub fn same_text(a: &str, b: &str) -> (r: bool)
    ensures
        r == (a@ == b@),
{
    let x = chars_of(a);
    let y = chars_of(b);
    if x.len() != y.len() {
        return false;
    }
    let mut i: usize = 0;
    while i < x.len()
        invariant
            i <= x@.len() == y@.len(),
            x@ == a@,
            y@ == b@,
            forall|k: int| 0 <= k < i ==> x@[k] == y@[k],
        decreases x@.len() - i,
    {
        if x[i] != y[i] {
            return false;
        }
        i += 1;
    }
    assert(x@ =~= y@);
    true
}

/// Whether `s` ends in `suffix`.
pub open spec fn has_suffix(s: Seq<char>, suffix: Seq<char>) -> bool {
    &&& suffix.len() <= s.len()
    &&& s.skip(s.len() - suffix.len()) == suffix
}

/// Whether `s` ends in `suffix`.
pub fn ends_with(s: &str, suffix: &str) -> (r: bool)
    ensures
        r == has_suffix(s@, suffix@),
{
    let x = chars_of(s);
    let y = chars_of(suffix);
    if y.len() > x.len() {
        return false;
    }
    let n: usize = x.len();
    let from: usize = n - y.len();
    let mut i: usize = 0;
    while i < y.len()
        invariant
            n == x@.len(),
            from == n - y@.len(),
            i <= y@.len() <= n,
            x@ == s@,
            y@ == suffix@,
            forall|k: int| 0 <= k < i ==> x@[from + k] == y@[k],
        decreases y@.len() - i,
    {
        if x[from + i] != y[i] {
            assert(x@.skip(from as int)[i as int] != y@[i as int]);
            return false;
        }
        i += 1;
    }
    assert(x@.skip(from as int) =~= y@);
    true
}

/// Whether `s` begins with `prefix`.
pub open spec fn has_prefix(s: Seq<char>, prefix: Seq<char>) -> bool {
    &&& prefix.len() <= s.len()
    &&& s.take(prefix.len() as int) == prefix
}

/// Whether `s` begins with `prefix`.
pub fn starts_with(s: &str, prefix: &str) -> (r: bool)
    ensures
        r == has_prefix(s@, prefix@),
{
    let x = chars_of(s);
    let y = chars_of(prefix);
    if y.len() > x.len() {
        return false;
    }
    let mut i: usize = 0;
    while i < y.len()
        invariant
            i <= y@.len() <= x@.len(),
            x@ == s@,
            y@ == prefix@,
            forall|k: int| 0 <= k < i ==> x@[k] == y@[k],
        decreases y@.len() - i,
    {
        if x[i] != y[i] {
            assert(x@.take(y@.len() as int)[i as int] != y@[i as int]);
            return false;
        }
        i += 1;
    }
    assert(x@.take(y@.len() as int) =~= y@);
    true
}

// ---- Lines ----

/// A line's text without the carriage return of a `\r\n` ending.
pub open spec fn without_cr(s: Seq<char>) -> Seq<char> {
    if s.len() > 0 && s.last() == '\r' {
        s.drop_last()
    } else {
        s
    }
}

pub open spec fn in_line(c: char) -> bool {
    c != '\n'
}

/// The lines of a text: each ends in `\n` or `\r\n`, which is not part of it. The last
/// line need not have an ending, and an ending at the end of the text opens no further
/// line.
pub open spec fn text_lines(s: Seq<char>) -> Seq<Seq<char>>
    decreases s.len(),
{
    let n = run_len(s, |c: char| in_line(c));
    if s.len() == 0 {
        Seq::empty()
    } else if n < s.len() {
        seq![without_cr(s.take(n as int))] + text_lines(s.skip(n as int + 1))
    } else {
        seq![s]
    }
}

/// The texts that a vector of strings holds.
pub open spec fn texts(v: Seq<String>) -> Seq<Seq<char>> {
    v.map_values(|s: String| s@)
}

/// The lines of `src`.
pub fn lines(src: &str) -> (r: Vec<String>)
    ensures
        texts(r@) == text_lines(src@),
{
    let chars = chars_of(src);
    let mut out: Vec<String> = Vec::new();
    let mut start: usize = 0;
    let mut i: usize = 0;
    let ghost p = |c: char| in_line(c);
    assert(src@.skip(0) =~= src@);
    assert(texts(out@) =~= Seq::empty());
    while i < chars.len()
        invariant
            start <= i <= chars@.len(),
            chars@ == src@,
            p == (|c: char| in_line(c)),
            forall|k: int| start <= k < i ==> src@[k] != '\n',
            text_lines(src@) == texts(out@) + text_lines(src@.skip(start as int)),
        decreases chars@.len() - i,
    {
        if chars[i] == '\n' {
            let end: usize = if i > start && chars[i - 1] == '\r' {
                i - 1
            } else {
                i
            };
            let line = string_of(&chars, start, end);
            let ghost rest = src@.skip(start as int);
            proof {
                lemma_run_len_is(rest, p, (i - start) as nat);
                assert(rest.take(i - start) =~= src@.subrange(start as int, i as int));
                assert(without_cr(rest.take(i - start)) =~= line@);
                assert(rest.skip(i - start + 1) =~= src@.skip(i + 1));
            }
            let ghost before = out@;
            out.push(line);
            i += 1;
            start = i;
            proof {
                assert(texts(out@) =~= texts(before) + seq![line@]);
                assert(text_lines(rest) == seq![line@] + text_lines(src@.skip(start as int)));
                assert(texts(before) + (seq![line@] + text_lines(src@.skip(start as int)))
                    =~= texts(out@) + text_lines(src@.skip(start as int)));
            }
        } else {
            i += 1;
        }
    }
    if start < chars.len() {
        let line = string_of(&chars, start, chars.len());
        let ghost rest = src@.skip(start as int);
        proof {
            lemma_run_len_is(rest, p, rest.len());
            assert(rest =~= line@);
        }
        let ghost before = out@;
        out.push(line);
        proof {
            assert(texts(out@) =~= texts(before) + seq![line@]);
        }
    } else {
        assert(texts(out@) + Seq::<Seq<char>>::empty() =~= texts(out@));
    }
    out
}

/// A text that ends in a line ending keeps its lines whatever follows it.
pub proof fn law_lines_of_concatenation(a: Seq<char>, b: Seq<char>)
    requires
        a.len() > 0 ==> a.last() == '\n',
    ensures
        text_lines(a + b) == text_lines(a) + text_lines(b),
    decreases a.len(),
{
    let p = |c: char| in_line(c);
    if a.len() == 0 {
        assert(a + b =~= b);
        assert(text_lines(a) + text_lines(b) =~= text_lines(b));
    } else {
        let n = run_len(a, p);
        lemma_run_len_stops(a, p, a.len() - 1);
        lemma_run_len_prefix(a, b, p);
        assert((a + b).take(n as int) =~= a.take(n as int));
        assert((a + b).skip(n as int + 1) =~= a.skip(n as int + 1) + b);
        law_lines_of_concatenation(a.skip(n as int + 1), b);
        assert(text_lines(a + b) =~= text_lines(a) + text_lines(b));
    }
}

/// Whether a text has no line ending.
pub open spec fn one_line(s: Seq<char>) -> bool {
    forall|i: int| 0 <= i < s.len() ==> #[trigger] s[i] != '\n'
}

pub proof fn lemma_lines_are_single(s: Seq<char>)
    ensures
        forall|i: int| 0 <= i < text_lines(s).len() ==> one_line(#[trigger] text_lines(s)[i]),
    decreases s.len(),
{
    let p = |c: char| in_line(c);
    let n = run_len(s, p);
    if s.len() > 0 {
        lemma_run_len_within(s, p);
        lemma_run_len_bounds(s, p);
        if n < s.len() {
            let first = without_cr(s.take(n as int));
            assert forall|k: int| 0 <= k < first.len() implies #[trigger] first[k] != '\n' by {
                assert(p(s[k]));
            }
            lemma_lines_are_single(s.skip(n as int + 1));
            let rest = text_lines(s.skip(n as int + 1));
            assert forall|i: int| 0 <= i < text_lines(s).len() implies one_line(
                #[trigger] text_lines(s)[i],
            ) by {
                if i > 0 {
                    assert(text_lines(s)[i] == rest[i - 1]);
                }
            }
        } else {
            assert forall|k: int| 0 <= k < s.len() implies #[trigger] s[k] != '\n' by {
                assert(p(s[k]));
            }
        }
    }
}

/// A text without line ending, and then a newline, is one line.
pub proof fn lemma_one_line(t: Seq<char>)
    requires
        one_line(t),
        t.len() > 0 ==> t.last() != '\r',
    ensures
        text_lines(t.push('\n')) == seq![t],
{
    let s = t.push('\n');
    let p = |c: char| in_line(c);
    assert forall|k: int| 0 <= k < t.len() implies p(#[trigger] s[k]) by {
        assert(t[k] != '\n');
    }
    lemma_run_len_is(s, p, t.len());
    assert(s.take(t.len() as int) =~= t);
    assert(s.skip(t.len() as int + 1) =~= Seq::empty());
    assert(text_lines(Seq::empty()) =~= Seq::empty());
    assert(text_lines(s) =~= seq![t]);
}

// ---- Trimming ----

/// A text without the white space at its two ends.
pub open spec fn trimmed(s: Seq<char>) -> Seq<char>
    decreases s.len(),
{
    if s.len() == 0 {
        s
    } else if is_whitespace(s[0]) {
        trimmed(s.skip(1))
    } else if is_whitespace(s.last()) {
        trimmed(s.drop_last())
    } else {
        s
    }
}

/// Trimming leaves a part of the text that does not end in white space.
pub proof fn lemma_trimmed(s: Seq<char>)
    ensures
        one_line(s) ==> one_line(trimmed(s)),
        trimmed(s).len() > 0 ==> !is_whitespace(trimmed(s)[0]) && !is_whitespace(
            trimmed(s).last(),
        ),
    decreases s.len(),
{
    if s.len() > 0 {
        if is_whitespace(s[0]) {
            lemma_trimmed(s.skip(1));
            if one_line(s) {
                assert forall|i: int| 0 <= i < s.len() - 1 implies #[trigger] s.skip(1)[i]
                    != '\n' by {
                    assert(s[i + 1] != '\n');
                }
            }
        } else if is_whitespace(s.last()) {
            lemma_trimmed(s.drop_last());
            if one_line(s) {
                assert forall|i: int| 0 <= i < s.len() - 1 implies #[trigger] s.drop_last()[i]
                    != '\n' by {
                    assert(s[i] != '\n');
                }
            }
        }
    }
}

/// `s` without the white space at its two ends.
pub fn trim(s: &str) -> (r: String)
    ensures
        r@ == trimmed(s@),
{
    let chars = chars_of(s);
    let mut from: usize = 0;
    let mut to: usize = chars.len();
    assert(s@.subrange(0, to as int) =~= s@);
    while from < to && chars[from].is_whitespace()
        invariant
            chars@ == s@,
            from <= to == chars@.len(),
            trimmed(s@) == trimmed(s@.subrange(from as int, to as int)),
        ensures
            from < to ==> !is_whitespace(s@[from as int]),
        decreases to - from,
    {
        assert(s@.subrange(from as int, to as int).skip(1) =~= s@.subrange(from + 1, to as int));
        from += 1;
    }
    while from < to && chars[to - 1].is_whitespace()
        invariant
            chars@ == s@,
            from <= to <= chars@.len(),
            from < to ==> !is_whitespace(s@[from as int]),
            trimmed(s@) == trimmed(s@.subrange(from as int, to as int)),
        ensures
            from < to ==> !is_whitespace(s@[to - 1]),
        decreases to - from,
    {
        assert(s@.subrange(from as int, to as int).drop_last() =~= s@.subrange(
            from as int,
            to - 1,
        ));
        to -= 1;
    }
    string_of(&chars, from, to)
}

// ---- Decimal numbers ----

/// The character of a decimal digit.
pub open spec fn digit_char(d: nat) -> char {
    ('0' as nat + d) as char
}

/// `n` in decimal, without leading zeros.
pub open spec fn decimal(n: nat) -> Seq<char>
    decreases n,
{
    if n < 10 {
        seq![digit_char(n)]
    } else {
        decimal(n / 10).push(digit_char(n % 10))
    }
}

pub proof fn lemma_decimal_one_line(n: nat)
    ensures
        one_line(decimal(n)),
    decreases n,
{
    if n >= 10 {
        lemma_decimal_one_line(n / 10);
        let d = decimal(n);
        assert forall|i: int| 0 <= i < d.len() implies #[trigger] d[i] != '\n' by {
            if i < d.len() - 1 {
                assert(d[i] == decimal(n / 10)[i]);
            }
        }
    }
}

/// `n` in decimal, without leading zeros.
pub fn decimal_text(n: usize) -> (r: String)
    ensures
        r@ == decimal(n as nat),
    decreases n,
{
    let mut out = if n < 10 {
        String::new()
    } else {
        decimal_text(n / 10)
    };
    let d: u8 = (n % 10) as u8;
    out.push(('0' as u8 + d) as char);
    assert(out@ =~= decimal(n as nat));
    out
}

// ---- Laws of texts ----

/// A text begins with `prefix` if and only if something can be put behind `prefix` to make it,
/// and ends in `suffix` if and only if something can be put in front of `suffix`.
pub proof fn law_beginnings_and_ends(s: Seq<char>, t: Seq<char>)
    ensures
        has_prefix(s, t) <==> exists|rest: Seq<char>| s == #[trigger] (t + rest),
        has_suffix(s, t) <==> exists|rest: Seq<char>| s == #[trigger] (rest + t),
{
    if has_prefix(s, t) {
        assert(s =~= t + s.skip(t.len() as int));
    }
    if exists|rest: Seq<char>| s == #[trigger] (t + rest) {
        let rest = choose|rest: Seq<char>| s == #[trigger] (t + rest);
        assert((t + rest).take(t.len() as int) =~= t);
    }
    if has_suffix(s, t) {
        assert(s =~= s.take(s.len() - t.len()) + t);
    }
    if exists|rest: Seq<char>| s == #[trigger] (rest + t) {
        let rest = choose|rest: Seq<char>| s == #[trigger] (rest + t);
        assert((rest + t).skip(rest.len() as int) =~= t);
    }
}

/// A line feed ends a line, and what follows it is read as a text of its own. A carriage
/// return directly before it belongs to the ending.
pub proof fn law_line_feed_ends_a_line(line: Seq<char>, rest: Seq<char>)
    requires
        !line.contains('\n'),
    ensures
        line.len() == 0 || line.last() != '\r' ==> text_lines(line + (seq!['\n'] + rest)) == seq![
            line,
        ] + text_lines(rest),
        line.len() > 0 && line.last() == '\r' ==> text_lines(line + (seq!['\n'] + rest)) == seq![
            line.drop_last(),
        ] + text_lines(rest),
{
    let s = line + (seq!['\n'] + rest);
    let p = |c: char| in_line(c);
    assert forall|k: int| 0 <= k < line.len() implies p(#[trigger] s[k]) by {
        assert(s[k] == line[k]);
        assert(line.contains(line[k]));
    }
    assert(s[line.len() as int] == '\n');
    lemma_run_len_is(s, p, line.len());
    assert(s.take(line.len() as int) =~= line);
    assert(s.skip(line.len() as int + 1) =~= rest);
}

/// What follows the last line feed is a line, if it is not empty; nothing is taken from it.
pub proof fn law_last_line_needs_no_ending(line: Seq<char>)
    requires
        !line.contains('\n'),
    ensures
        line.len() > 0 ==> text_lines(line) == seq![line],
        line.len() == 0 ==> text_lines(line).len() == 0,
{
    let p = |c: char| in_line(c);
    assert forall|k: int| 0 <= k < line.len() implies p(#[trigger] line[k]) by {
        assert(line.contains(line[k]));
    }
    lemma_run_len_is(line, p, line.len());
}

/// Trimming takes white space from the two ends, all of it and nothing else.
pub proof fn law_trimming(before: Seq<char>, core: Seq<char>, after: Seq<char>)
    requires
        forall|i: int| 0 <= i < before.len() ==> is_whitespace(#[trigger] before[i]),
        forall|i: int| 0 <= i < after.len() ==> is_whitespace(#[trigger] after[i]),
        core.len() > 0 ==> !is_whitespace(core[0]) && !is_whitespace(core.last()),
    ensures
        trimmed(before + core + after) == core,
    decreases before.len() + after.len(),
{
    let s = before + core + after;
    if before.len() > 0 {
        assert(s[0] == before[0]);
        assert(s.skip(1) =~= before.skip(1) + core + after);
        assert forall|i: int| 0 <= i < before.len() - 1 implies is_whitespace(
            #[trigger] before.skip(1)[i],
        ) by {
            assert(before.skip(1)[i] == before[i + 1]);
        }
        law_trimming(before.skip(1), core, after);
    } else if after.len() > 0 {
        if core.len() == 0 {
            lemma_trimmed_white(after);
            assert(s =~= after);
            assert(trimmed(s) =~= core);
        } else {
            assert(s[0] == core[0]);
            assert(s.last() == after.last());
            assert(s.drop_last() =~= before + core + after.drop_last());
            assert forall|i: int| 0 <= i < after.len() - 1 implies is_whitespace(
                #[trigger] after.drop_last()[i],
            ) by {
                assert(after.drop_last()[i] == after[i]);
            }
            law_trimming(before, core, after.drop_last());
        }
    } else {
        assert(s =~= core);
    }
}

proof fn lemma_trimmed_white(s: Seq<char>)
    requires
        forall|i: int| 0 <= i < s.len() ==> is_whitespace(#[trigger] s[i]),
    ensures
        trimmed(s).len() == 0,
    decreases s.len(),
{
    if s.len() > 0 {
        assert forall|i: int| 0 <= i < s.len() - 1 implies is_whitespace(
            #[trigger] s.skip(1)[i],
        ) by {
            assert(s.skip(1)[i] == s[i + 1]);
        }
        lemma_trimmed_white(s.skip(1));
    }
}

/// The number that decimal digits stand for.
pub open spec fn decimal_value(digits: Seq<char>) -> int
    decreases digits.len(),
{
    if digits.len() == 0 {
        0
    } else {
        10 * decimal_value(digits.drop_last()) + (digits.last() as int - '0' as int)
    }
}

/// A number is written in digits that stand for it, without a zero in front.
pub proof fn law_decimal_stands_for_the_number(n: nat)
    ensures
        decimal_value(decimal(n)) == n,
        decimal(n).len() > 0,
        forall|i: int| 0 <= i < decimal(n).len() ==> '0' <= #[trigger] decimal(n)[i] <= '9',
        decimal(n)[0] == '0' ==> n == 0 && decimal(n).len() == 1,
    decreases n,
{
    let d = decimal(n);
    if n < 10 {
        assert(d.drop_last() =~= Seq::empty());
        assert(decimal_value(d.drop_last()) == 0);
    } else {
        law_decimal_stands_for_the_number(n / 10);
        let e = decimal(n / 10);
        assert(d.drop_last() =~= e);
        assert forall|i: int| 0 <= i < d.len() implies '0' <= #[trigger] d[i] <= '9' by {
            if i < e.len() {
                assert(d[i] == e[i]);
            }
        }
        assert(d[0] == e[0]);
    }
}

} // verus!
