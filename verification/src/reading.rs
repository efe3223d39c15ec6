//! What whole documents built from plain parts read as.
//!
//! Each law here builds its input from explicit characters (words, keys,
//! separators, literals) and says what `document_value` gives for it, for every
//! choice of the parts.
use vstd::prelude::*;
use crate::model::{JValue, bool_text, int_literal_value};
use crate::grammar::{
    is_blank, is_line_break, is_digit, char_at, starts_comment, comment_end, skip_ws, skip_gap,
    newline_sep, comma_sep, key_run_end, key_end, digit_run_end, int_literal_end,
    float_literal_end, word_at, lemma_digit_run_bounds, parse_value, parse_list, list_items,
    more_values_comma, more_values_nl, parse_def, more_defs_nl, parse_object, def_items,
    more_defs_comma, root_values, root_defs, document_value,
};
use crate::margins::{is_gap, law_blank_margins};

verus! {

// ----------------------------------------------------------------------------
// Building documents
// ----------------------------------------------------------------------------

/// The literal `true` or `false`, letter by letter.
pub open spec fn word(b: bool) -> Seq<char> {
    if b {
        seq!['t', 'r', 'u', 'e']
    } else {
        seq!['f', 'a', 'l', 's', 'e']
    }
}

/// Each boolean of `bs` as a value.
pub open spec fn bools(bs: Seq<bool>) -> Seq<JValue> {
    bs.map_values(|b: bool| JValue::Bool(b))
}

/// `sep` before the word of each boolean of `bs`, in order.
pub open spec fn sep_tail(bs: Seq<bool>, sep: Seq<char>) -> Seq<char>
    decreases bs.len(),
{
    if bs.len() == 0 {
        Seq::empty()
    } else {
        sep + word(bs[0]) + sep_tail(bs.skip(1), sep)
    }
}

/// The words of `bs` with `sep` between each two.
pub open spec fn joined(bs: Seq<bool>, sep: Seq<char>) -> Seq<char> {
    if bs.len() == 0 {
        Seq::empty()
    } else {
        word(bs[0]) + sep_tail(bs.skip(1), sep)
    }
}

/// An ASCII letter or digit, `.`, `-` or `_`.
pub open spec fn ascii_key_char(c: char) -> bool {
    ('a' <= c && c <= 'z') || ('A' <= c && c <= 'Z') || ('0' <= c && c <= '9') || c == '.'
        || c == '-' || c == '_'
}

/// ASCII decimal digits only.
pub open spec fn digits_only(d: Seq<char>) -> bool {
    forall|x: int| 0 <= x < d.len() ==> '0' <= #[trigger] d[x] && d[x] <= '9'
}

/// A minus sign, or nothing.
pub open spec fn minus(negative: bool) -> Seq<char> {
    if negative {
        seq!['-']
    } else {
        Seq::empty()
    }
}

/// A text that holds no line break.
pub open spec fn line_break_free(c: Seq<char>) -> bool {
    forall|k: int| 0 <= k < c.len() ==> c[k] != '\n' && c[k] != '\r'
}

// ----------------------------------------------------------------------------
// Reading the parts
// ----------------------------------------------------------------------------

proof fn lemma_split(s: Seq<char>, i: int, a: Seq<char>, b: Seq<char>)
    requires
        0 <= i <= s.len(),
        s.subrange(i, s.len() as int) == a + b,
    ensures
        forall|x: int| 0 <= x < a.len() ==> #[trigger] s[i + x] == a[x],
        s.subrange(i + a.len(), s.len() as int) == b,
        s.len() == i + a.len() + b.len(),
{
    let t = s.subrange(i, s.len() as int);
    assert(t.len() == s.len() - i);
    assert(t.len() == (a + b).len());
    assert((a + b).len() == a.len() + b.len());
    assert(s.len() == i + a.len() + b.len());
    assert forall|x: int| 0 <= x < a.len() implies #[trigger] s[i + x] == a[x] by {
        assert(t[x] == s[i + x]);
        assert((a + b)[x] == a[x]);
    }
    let u = s.subrange(i + a.len(), s.len() as int);
    assert forall|x: int| 0 <= x < b.len() implies u[x] == b[x] by {
        assert(u[x] == s[i + a.len() + x]);
        assert(t[a.len() + x] == s[i + a.len() + x]);
        assert((a + b)[a.len() + x] == b[x]);
    }
    assert(u =~= b);
}

/// A word followed by anything reads as its boolean.
proof fn lemma_word_value(s: Seq<char>, i: int, b: bool, rest: Seq<char>)
    requires
        0 <= i <= s.len(),
        s.subrange(i, s.len() as int) == word(b) + rest,
    ensures
        parse_value(s, i) == Some((JValue::Bool(b), i + word(b).len())),
        s[i] == (if b { 't' } else { 'f' }),
        s.subrange(i + word(b).len(), s.len() as int) == rest,
        i + word(b).len() <= s.len(),
{
    let w = word(b);
    lemma_split(s, i, w, rest);
    assert(s[i + 0] == w[0]);
    assert(w =~= bool_text(b));
    assert(s.subrange(i, i + w.len()) =~= w) by {
        assert forall|x: int| 0 <= x < w.len() implies s.subrange(i, i + w.len())[x] == w[x] by {
            assert(s[i + x] == w[x]);
        }
    }
    if !b {
        if word_at(s, i, bool_text(true)) {
            assert(s.subrange(i, i + 4)[0] == s[i]);
        }
    }
}

/// Blanks and comments read nothing at a word.
proof fn lemma_gap_at_word(s: Seq<char>, i: int)
    requires
        0 <= i < s.len(),
        s[i] == 't' || s[i] == 'f' || s[i] == ']' || s[i] == ',' || s[i] == '\n' || s[i] == '[',
    ensures
        skip_ws(s, i) == i,
        s[i] != '\n' ==> skip_gap(s, i) == i,
{
}

/// A line break: `\n`, or `\r\n`.
pub open spec fn line_break(crlf: bool) -> Seq<char> {
    if crlf {
        seq!['\r', '\n']
    } else {
        seq!['\n']
    }
}

/// A line break followed by `blank_lines` empty lines.
pub open spec fn line_sep(crlf: bool, blank_lines: nat) -> Seq<char> {
    line_break(crlf) + Seq::new(blank_lines, |k: int| '\n')
}

/// From `x`, line feeds up to `y`, where a word starts, are one gap.
proof fn lemma_skip_line_feeds(s: Seq<char>, x: int, y: int)
    requires
        0 <= x <= y < s.len(),
        forall|k: int| x <= k < y ==> #[trigger] s[k] == '\n',
        s[y] == 't' || s[y] == 'f',
    ensures
        skip_gap(s, x) == y,
    decreases y - x,
{
    if x < y {
        assert(s[x] == '\n');
        lemma_skip_line_feeds(s, x + 1, y);
    }
}

/// What may close newline-separated words: the end of the input, or a line
/// break and `]` that end it.
pub open spec fn closing(bracket: bool) -> Seq<char> {
    if bracket {
        seq!['\n', ']']
    } else {
        Seq::empty()
    }
}

/// At `]` no value stands.
proof fn lemma_no_value_at_close(s: Seq<char>, i: int)
    requires
        0 <= i < s.len(),
        s[i] == ']',
    ensures
        parse_value(s, i) is None,
{
    if word_at(s, i, bool_text(true)) {
        assert(s.subrange(i, i + 4)[0] == s[i]);
    }
    if word_at(s, i, bool_text(false)) {
        assert(s.subrange(i, i + 5)[0] == s[i]);
    }
}

/// Words separated by line breaks after `i`, up to what closes them, are read in order.
proof fn lemma_nl_tail(
    s: Seq<char>,
    i: int,
    bs: Seq<bool>,
    crlf: bool,
    blank_lines: nat,
    bracket: bool,
    acc: Seq<JValue>,
)
    requires
        0 <= i <= s.len(),
        s.subrange(i, s.len() as int) == sep_tail(bs, line_sep(crlf, blank_lines)) + closing(
            bracket,
        ),
    ensures
        more_values_nl(s, i, acc) == (acc + bools(bs), s.len() - closing(bracket).len()),
        bracket || bs.len() > 0 ==> i < s.len() && (s[i] == '\r' || s[i] == '\n'),
        bracket ==> 2 <= s.len() && s[s.len() - 2] == '\n' && s[s.len() - 1] == ']',
    decreases bs.len(),
{
    let sep = line_sep(crlf, blank_lines);
    let close = closing(bracket);
    if bs.len() == 0 {
        assert(sep_tail(bs, sep) + close =~= close);
        assert(acc + bools(bs) =~= acc);
        if bracket {
            lemma_split(s, i, close, Seq::empty());
            assert(s[i + 0] == '\n');
            assert(s[i + 1] == ']');
            assert(skip_ws(s, i) == i);
            assert(skip_gap(s, i + 1) == i + 1);
            assert(newline_sep(s, i) == Some(i + 1));
            lemma_no_value_at_close(s, i + 1);
        } else {
            assert(s.subrange(i, s.len() as int).len() == 0);
            assert(newline_sep(s, i) is None);
        }
    } else {
        let w = word(bs[0]);
        let rest = sep_tail(bs.skip(1), sep) + close;
        assert(sep + w + sep_tail(bs.skip(1), sep) + close =~= sep + (w + rest));
        lemma_split(s, i, sep, w + rest);
        let m = i + sep.len();
        lemma_word_value(s, m, bs[0], rest);
        assert(s[i + 0] == sep[0]);
        assert(skip_ws(s, i) == i);
        let st = if crlf {
            i + 1
        } else {
            i
        };
        assert forall|k: int| st <= k < m implies #[trigger] s[k] == '\n' by {
            assert(s[i + (k - i)] == sep[k - i]);
        }
        lemma_skip_line_feeds(s, st, m);
        if crlf {
            assert(s[i + 0] == '\r');
        }
        assert(skip_gap(s, i) == m);
        assert(newline_sep(s, i) == Some(m));
        let next = acc.push(JValue::Bool(bs[0]));
        lemma_nl_tail(s, m + w.len(), bs.skip(1), crlf, blank_lines, bracket, next);
        assert(acc.push(JValue::Bool(bs[0])) + bools(bs.skip(1)) =~= acc + bools(bs));
    }
}

/// A comma, with one space after it or none.
pub open spec fn comma(spaced: bool) -> Seq<char> {
    if spaced {
        seq![',', ' ']
    } else {
        seq![',']
    }
}

/// Comma-separated words after `i`, up to a closing `]` that ends the input,
/// are read in order.
proof fn lemma_comma_tail(
    s: Seq<char>,
    i: int,
    bs: Seq<bool>,
    spaced: bool,
    trailing: bool,
    acc: Seq<JValue>,
)
    requires
        0 <= i <= s.len(),
        s.subrange(i, s.len() as int) == sep_tail(bs, comma(spaced)) + list_end(trailing),
    ensures
        more_values_comma(s, i, acc) == (acc + bools(bs), s.len() - list_end(trailing).len()),
        s[s.len() - 1] == ']',
        trailing ==> s[s.len() - 2] == ',',
        i < s.len(),
    decreases bs.len(),
{
    let sep = comma(spaced);
    let close = list_end(trailing);
    if bs.len() == 0 {
        assert(sep_tail(bs, sep) + close =~= close);
        lemma_split(s, i, close, Seq::empty());
        assert(acc + bools(bs) =~= acc);
        if trailing {
            assert(s[i + 0] == ',');
            assert(s[i + 1] == ']');
            assert(skip_ws(s, i) == i);
            assert(skip_ws(s, i + 1) == i + 1);
            assert(comma_sep(s, i) == Some(i + 1));
            lemma_no_value_at_close(s, i + 1);
        } else {
            assert(s[i + 0] == ']');
            lemma_gap_at_word(s, i);
            assert(comma_sep(s, i) is None);
        }
    } else {
        let w = word(bs[0]);
        let rest = sep_tail(bs.skip(1), sep);
        assert(sep + w + rest + close =~= sep + (w + (rest + close)));
        lemma_split(s, i, sep, w + (rest + close));
        assert(s[i + 0] == ',');
        let m = i + sep.len();
        lemma_word_value(s, m, bs[0], rest + close);
        lemma_gap_at_word(s, i);
        lemma_gap_at_word(s, m);
        if spaced {
            assert(s[i + 1] == ' ');
            assert(skip_ws(s, i + 1) == skip_ws(s, i + 2));
        }
        assert(comma_sep(s, i) == Some(m));
        let next = acc.push(JValue::Bool(bs[0]));
        lemma_comma_tail(s, m + w.len(), bs.skip(1), spaced, trailing, next);
        assert(next + bools(bs.skip(1)) =~= acc + bools(bs));
    }
}

/// What closes comma-separated words: `]`, or a trailing comma and `]`.
pub open spec fn list_end(trailing: bool) -> Seq<char> {
    if trailing {
        seq![',', ']']
    } else {
        seq![']']
    }
}

/// The end of the input reads no more values and no separator.
proof fn lemma_at_end(s: Seq<char>, acc: Seq<JValue>)
    ensures
        more_values_nl(s, s.len() as int, acc) == (acc, s.len() as int),
        skip_gap(s, s.len() as int) == s.len(),
{
    assert(skip_ws(s, s.len() as int) == s.len());
}

/// The end of the input reads no more definitions.
proof fn lemma_defs_at_end(s: Seq<char>, defs: Seq<(Seq<char>, JValue)>)
    ensures
        more_defs_nl(s, s.len() as int, defs) == (defs, s.len() as int),
        skip_gap(s, s.len() as int) == s.len(),
{
    assert(skip_ws(s, s.len() as int) == s.len());
}

/// The key characters before a `:` at `n` form one key run.
proof fn lemma_key_run(s: Seq<char>, x: int, n: int)
    requires
        0 <= x <= n < s.len(),
        forall|y: int| 0 <= y < n ==> ascii_key_char(#[trigger] s[y]),
        s[n] == ':',
    ensures
        key_run_end(s, x) == n,
    decreases n - x,
{
    if x < n {
        assert(ascii_key_char(s[x]));
        lemma_key_run(s, x + 1, n);
    }
}

/// A digit run that starts before a `:` at `n` ends by `n`.
proof fn lemma_digit_run_within(s: Seq<char>, x: int, n: int)
    requires
        0 <= x <= n < s.len(),
        s[n] == ':',
    ensures
        digit_run_end(s, x) <= n,
    decreases n - x,
{
    if x < n && is_digit(s[x]) {
        lemma_digit_run_within(s, x + 1, n);
    }
}

/// A digit run over `s[x..e]` ends at `e`.
proof fn lemma_digits_to(s: Seq<char>, x: int, e: int)
    requires
        0 <= x <= e <= s.len(),
        forall|y: int| x <= y < e ==> is_digit(#[trigger] s[y]),
        e == s.len() || !is_digit(s[e]),
    ensures
        digit_run_end(s, x) == e,
    decreases e - x,
{
    if x < e {
        assert(is_digit(s[x]));
        lemma_digits_to(s, x + 1, e);
    }
}

/// Nothing that a value reads from the start of `s` goes past a `:` at `n`.
proof fn lemma_value_within(s: Seq<char>, n: int)
    requires
        0 < n < s.len(),
        forall|y: int| 0 <= y < n ==> ascii_key_char(#[trigger] s[y]),
        s[n] == ':',
    ensures
        parse_value(s, 0) matches Some((_, e)) ==> 0 <= e <= n,
{
    let j = if char_at(s, 0, '-') {
        1int
    } else {
        0int
    };
    if j + 1 <= n {
        lemma_digit_run_within(s, j + 1, n);
        lemma_digit_run_bounds(s, j + 1);
    }
    if let Some(e) = int_literal_end(s, 0) {
        if char_at(s, e, '.') && e + 1 < s.len() && is_digit(s[e + 1]) {
            lemma_digit_run_within(s, e + 2, n);
            lemma_digit_run_bounds(s, e + 2);
        }
    }
    assert(int_literal_end(s, 0) matches Some(e) ==> e <= n);
    assert(float_literal_end(s, 0) matches Some(e) ==> e <= n);
    assert(ascii_key_char(s[0]));
    assert(word_at(s, 0, bool_text(true)) ==> 4 <= n) by {
        if word_at(s, 0, bool_text(true)) && n < 4 {
            assert(s.subrange(0, 4)[n] == s[n]);
            if n == 1 {
                assert(bool_text(true)[1] == 'r');
            } else if n == 2 {
                assert(bool_text(true)[2] == 'u');
            } else {
                assert(bool_text(true)[3] == 'e');
            }
        }
    }
    assert(word_at(s, 0, bool_text(false)) ==> 5 <= n) by {
        if word_at(s, 0, bool_text(false)) && n < 5 {
            assert(s.subrange(0, 5)[n] == s[n]);
            if n == 1 {
                assert(bool_text(false)[1] == 'a');
            } else if n == 2 {
                assert(bool_text(false)[2] == 'l');
            } else if n == 3 {
                assert(bool_text(false)[3] == 's');
            } else {
                assert(bool_text(false)[4] == 'e');
            }
        }
    }
}

// ----------------------------------------------------------------------------
// Single reading steps
// ----------------------------------------------------------------------------

/// At `[`, a value is a list.
proof fn step_value_list(s: Seq<char>, i: int)
    requires
        0 <= i < s.len(),
        s[i] == '[',
    ensures
        parse_value(s, i) == parse_list(s, i),
{
}

/// A list: `[`, a gap, its items, a gap, `]`.
proof fn step_list(s: Seq<char>, i: int, j: int, vs: Seq<JValue>, e: int, m: int)
    requires
        char_at(s, i, '['),
        skip_gap(s, i + 1) == j,
        list_items(s, j) == (vs, e),
        skip_gap(s, e) == m,
        char_at(s, m, ']'),
    ensures
        parse_list(s, i) == Some((JValue::List(vs), m + 1)),
{
}

/// Items read with commas, at least two of them.
proof fn step_comma_items(s: Seq<char>, j: int, v: JValue, k: int, cs: Seq<JValue>, ce: int)
    requires
        parse_value(s, j) == Some((v, k)),
        j < k <= s.len(),
        more_values_comma(s, k, seq![v]) == (cs, ce),
        cs.len() > 1,
    ensures
        list_items(s, j) == (cs, ce),
{
}

/// A float literal where no other value starts is a float.
proof fn step_value_float(s: Seq<char>, i: int, e: int)
    requires
        0 <= i < s.len(),
        s[i] == '-' || is_digit(s[i]),
        float_literal_end(s, i) == Some(e),
    ensures
        parse_value(s, i) == Some((JValue::Float(s.subrange(i, e)), e)),
{
    if word_at(s, i, bool_text(true)) {
        assert(s.subrange(i, i + 4)[0] == s[i]);
    }
    if word_at(s, i, bool_text(false)) {
        assert(s.subrange(i, i + 5)[0] == s[i]);
    }
}

/// `key: value` is a definition.
proof fn step_def(s: Seq<char>, e: int, m: int, v: JValue, k: int)
    requires
        0 < s.len(),
        s[0] != '!',
        key_end(s, 0) == Some(e),
        skip_ws(s, e) == e,
        char_at(s, e, ':'),
        0 < e,
        skip_ws(s, e + 1) == m,
        parse_value(s, m) == Some((v, k)),
    ensures
        parse_def(s, 0) == Some(((s.subrange(0, e), v), k)),
{
}

/// A document that reads as a sequence of values to its end.
proof fn step_document_values(s: Seq<char>, vs: Seq<JValue>)
    requires
        root_values(s, skip_gap(s, 0)) == (vs, s.len() as int),
    ensures
        document_value(s) == Some(JValue::List(vs)),
{
    lemma_at_end(s, Seq::empty());
}

/// The values of a document from a first value on.
proof fn step_root_values(s: Seq<char>, i: int, v: JValue, k: int, vs: Seq<JValue>, e: int)
    requires
        parse_value(s, i) == Some((v, k)),
        i < k <= s.len(),
        more_values_nl(s, k, seq![v]) == (vs, e),
    ensures
        root_values(s, i) == (vs, e),
{
}

/// No newline separator: no more values.
proof fn step_no_more_values(s: Seq<char>, e: int, acc: Seq<JValue>)
    requires
        0 <= e <= s.len(),
        newline_sep(s, e) is None,
    ensures
        more_values_nl(s, e, acc) == (acc, e),
{
}

/// A document that reads as no sequence of values, and as one definition to its end.
proof fn step_document_def(s: Seq<char>, d: (Seq<char>, JValue))
    requires
        skip_gap(s, 0) == 0,
        skip_gap(s, root_values(s, 0).1) != s.len(),
        parse_def(s, 0) == Some((d, s.len() as int)),
        0 < s.len(),
    ensures
        document_value(s) == Some(JValue::Object(seq![d])),
{
    lemma_defs_at_end(s, seq![d]);
}

// ----------------------------------------------------------------------------
// Laws
// ----------------------------------------------------------------------------

/// A line from `//` to its end is a comment, whatever follows the two slashes:
/// a document read after such a line reads as the document alone.
pub proof fn law_comment_line(c: Seq<char>, s: Seq<char>)
    requires
        line_break_free(c),
    ensures
        document_value(seq!['/', '/'] + c + seq!['\n'] + s) == document_value(s),
{
    let p = seq!['/', '/'] + c + seq!['\n'];
    let n: int = c.len() as int + 2;
    assert(p.len() == n + 1);
    assert(p[0] == '/' && p[1] == '/');
    assert(p[n] == '\n');
    assert forall|k: int| 2 <= k < n implies p[k] != '\n' && p[k] != '\r' by {
        assert(p[k] == c[k - 2]);
    }
    assert forall|x: int| 2 <= x <= n implies comment_end(p, x) == n by {
        lemma_comment_tail(p, 2, x, n);
    }
    assert(starts_comment(p, 0));
    assert(skip_gap(p, n + 1) == n + 1);
    assert(skip_gap(p, n) == n + 1);
    assert(skip_gap(p, 0) == skip_gap(p, comment_end(p, 2)));
    assert(is_gap(p));
    let q = Seq::<char>::empty();
    assert(is_gap(q));
    law_blank_margins(p, s, q);
    assert(p + s + q =~= p + s);
}

/// A comment body from `a` runs up to the line break at `n`.
proof fn lemma_comment_tail(p: Seq<char>, a: int, x: int, n: int)
    requires
        a <= x <= n < p.len(),
        0 <= a,
        p[n] == '\n',
        forall|k: int| a <= k < n ==> p[k] != '\n' && p[k] != '\r',
    ensures
        comment_end(p, x) == n,
    decreases n - x,
{
    if x < n {
        lemma_comment_tail(p, a, x + 1, n);
    }
}

/// A document of values on lines of their own (ended by `\n` or by `\r\n`,
/// with any number of blank lines between them) reads as the list of those
/// values, in order, however many there are.
pub proof fn law_newline_values(bs: Seq<bool>, crlf: bool, blank_lines: nat)
    requires
        bs.len() >= 1,
    ensures
        document_value(joined(bs, line_sep(crlf, blank_lines))) == Some(JValue::List(bools(bs))),
{
    let s = joined(bs, line_sep(crlf, blank_lines));
    lemma_newline_values(s, bs, crlf, blank_lines);
    step_document_values(s, bools(bs));
}

/// Words on lines of their own, from the start to the end of `s`.
proof fn lemma_newline_values(s: Seq<char>, bs: Seq<bool>, crlf: bool, blank_lines: nat)
    requires
        bs.len() >= 1,
        s == joined(bs, line_sep(crlf, blank_lines)),
    ensures
        root_values(s, skip_gap(s, 0)) == (bools(bs), s.len() as int),
{
    let w = word(bs[0]);
    let rest = sep_tail(bs.skip(1), line_sep(crlf, blank_lines));
    assert(s.subrange(0, s.len() as int) =~= s);
    lemma_word_value(s, 0, bs[0], rest);
    lemma_gap_at_word(s, 0);
    assert(rest + closing(false) =~= rest);
    let first = seq![JValue::Bool(bs[0])];
    lemma_nl_tail(s, w.len() as int, bs.skip(1), crlf, blank_lines, false, first);
    lemma_bools_cons(bs);
    step_root_values(s, 0, JValue::Bool(bs[0]), w.len() as int, bools(bs), s.len() as int);
}

/// Items on lines of their own make a list too: `[`, a line break, the
/// values each on its own line (blank lines between them allowed), a line
/// break, `]` reads as the list of those values, in order, however many there are.
pub proof fn law_newline_list(bs: Seq<bool>, crlf: bool, blank_lines: nat)
    requires
        bs.len() >= 1,
    ensures
        document_value(
            seq!['[', '\n'] + joined(bs, line_sep(crlf, blank_lines)) + seq!['\n', ']'],
        ) == Some(JValue::List(seq![JValue::List(bools(bs))])),
{
    let s = seq!['[', '\n'] + joined(bs, line_sep(crlf, blank_lines)) + seq!['\n', ']'];
    let items = seq![JValue::List(bools(bs))];
    lemma_newline_list_value(s, bs, crlf, blank_lines);
    lemma_gap_at_word(s, 0);
    lemma_at_end(s, items);
    step_root_values(s, 0, JValue::List(bools(bs)), s.len() as int, items, s.len() as int);
    step_document_values(s, items);
}

/// A bracketed list of words on lines of their own reads as the list of their booleans.
proof fn lemma_newline_list_value(s: Seq<char>, bs: Seq<bool>, crlf: bool, blank_lines: nat)
    requires
        bs.len() >= 1,
        s == seq!['[', '\n'] + joined(bs, line_sep(crlf, blank_lines)) + seq!['\n', ']'],
    ensures
        parse_value(s, 0) == Some((JValue::List(bools(bs)), s.len() as int)),
        s[0] == '[',
{
    let e = s.len() - 2;
    lemma_newline_list_items(s, bs, crlf, blank_lines);
    assert(skip_gap(s, 2) == 2);
    assert(skip_gap(s, 1) == 2);
    assert(skip_gap(s, e + 1) == e + 1);
    assert(skip_gap(s, e) == e + 1);
    step_list(s, 0, 2, bools(bs), e, e + 1);
    step_value_list(s, 0);
}

/// Inside `[` and a line break, the words on lines of their own are the list's items.
proof fn lemma_newline_list_items(s: Seq<char>, bs: Seq<bool>, crlf: bool, blank_lines: nat)
    requires
        bs.len() >= 1,
        s == seq!['[', '\n'] + joined(bs, line_sep(crlf, blank_lines)) + seq!['\n', ']'],
    ensures
        list_items(s, 2) == (bools(bs), s.len() - 2),
        s[0] == '[',
        s[1] == '\n',
        s[2] == 't' || s[2] == 'f',
        4 <= s.len(),
        s[s.len() - 2] == '\n',
        s[s.len() - 1] == ']',
{
    let sep = line_sep(crlf, blank_lines);
    let w = word(bs[0]);
    let rest = sep_tail(bs.skip(1), sep) + closing(true);
    lemma_newline_list_text(s, bs, crlf, blank_lines);
    lemma_word_value(s, 2, bs[0], rest);
    let k: int = 2 + w.len() as int;
    lemma_nl_tail(s, k, bs.skip(1), crlf, blank_lines, true, seq![JValue::Bool(bs[0])]);
    lemma_bools_cons(bs);
    lemma_nl_list_items(s, k, bs, sep);
}

/// `[`, a line break, then the first word and the rest.
proof fn lemma_newline_list_text(s: Seq<char>, bs: Seq<bool>, crlf: bool, blank_lines: nat)
    requires
        bs.len() >= 1,
        s == seq!['[', '\n'] + joined(bs, line_sep(crlf, blank_lines)) + seq!['\n', ']'],
    ensures
        s[0] == '[',
        s[1] == '\n',
        s.subrange(2, s.len() as int) == word(bs[0]) + (sep_tail(
            bs.skip(1),
            line_sep(crlf, blank_lines),
        ) + closing(true)),
{
    let w = word(bs[0]);
    let rest = sep_tail(bs.skip(1), line_sep(crlf, blank_lines)) + closing(true);
    assert(s.subrange(0, s.len() as int) =~= s);
    assert(s =~= seq!['[', '\n'] + (w + rest));
    lemma_split(s, 0, seq!['[', '\n'], w + rest);
    assert(s[0int + 0] == '[');
    assert(s[0int + 1] == '\n');
}

proof fn lemma_bools_cons(bs: Seq<bool>)
    requires
        bs.len() > 0,
    ensures
        seq![JValue::Bool(bs[0])] + bools(bs.skip(1)) == bools(bs),
{
    assert(seq![JValue::Bool(bs[0])] + bools(bs.skip(1)) =~= bools(bs));
}

/// The words inside the brackets are newline-separated, not comma-separated.
proof fn lemma_nl_list_items(s: Seq<char>, k: int, bs: Seq<bool>, sep: Seq<char>)
    requires
        bs.len() >= 1,
        2 < k < s.len(),
        parse_value(s, 2) == Some((JValue::Bool(bs[0]), k)),
        s[k] == '\r' || s[k] == '\n',
        more_values_nl(s, k, seq![JValue::Bool(bs[0])]) == (bools(bs), s.len() - 2),
    ensures
        list_items(s, 2) == (bools(bs), s.len() - 2),
{
    assert(skip_ws(s, k) == k);
    assert(comma_sep(s, k) is None);
}

/// A bracketed list of comma-separated words reads as the list of their booleans.
proof fn lemma_bracket_list(s: Seq<char>, bs: Seq<bool>, spaced: bool)
    requires
        bs.len() >= 2,
        s == seq!['['] + joined(bs, comma(spaced)) + seq![']'],
    ensures
        parse_value(s, 0) == Some((JValue::List(bools(bs)), s.len() as int)),
        s[0] == '[',
{
    let e = s.len() - 1;
    assert(list_end(false) == seq![']']);
    lemma_bracket_items(s, bs, spaced, false);
    lemma_gap_at_word(s, 1);
    lemma_gap_at_word(s, e);
    step_list(s, 0, 1, bools(bs), e, e);
    step_value_list(s, 0);
}

/// The comma-separated words inside the brackets read as the list's items.
proof fn lemma_bracket_items(s: Seq<char>, bs: Seq<bool>, spaced: bool, trailing: bool)
    requires
        bs.len() >= 2,
        s == seq!['['] + joined(bs, comma(spaced)) + list_end(trailing),
    ensures
        list_items(s, 1) == (bools(bs), s.len() - list_end(trailing).len()),
        s[0] == '[',
        s[1] == 't' || s[1] == 'f',
        s[s.len() - 1] == ']',
        trailing ==> s[s.len() - 2] == ',',
        2 < s.len(),
{
    let sep = comma(spaced);
    let rest = sep_tail(bs.skip(1), sep) + list_end(trailing);
    let w = word(bs[0]);
    lemma_bracket_text(s, bs, spaced, trailing);
    lemma_word_value(s, 1, bs[0], rest);
    let k: int = 1 + w.len() as int;
    lemma_comma_tail(s, k, bs.skip(1), spaced, trailing, seq![JValue::Bool(bs[0])]);
    lemma_bools_cons(bs);
    step_comma_items(s, 1, JValue::Bool(bs[0]), k, bools(bs), s.len() - list_end(trailing).len());
}

/// `[`, then the first word and the rest.
proof fn lemma_bracket_text(s: Seq<char>, bs: Seq<bool>, spaced: bool, trailing: bool)
    requires
        bs.len() >= 2,
        s == seq!['['] + joined(bs, comma(spaced)) + list_end(trailing),
    ensures
        s[0] == '[',
        s.subrange(1, s.len() as int) == word(bs[0]) + (sep_tail(bs.skip(1), comma(spaced))
            + list_end(trailing)),
{
    let w = word(bs[0]);
    let rest = sep_tail(bs.skip(1), comma(spaced)) + list_end(trailing);
    assert(s.subrange(0, s.len() as int) =~= s);
    assert(s =~= seq!['['] + (w + rest));
    lemma_split(s, 0, seq!['['], w + rest);
    assert(s[0int + 0] == '[');
}

/// The items of a list may be separated by a bare comma or by a comma and a
/// space: `[a,b,c]` and `[a, b, c]` both read as the list of `a`, `b`, `c`, in
/// order, for any number of items from two on.
pub proof fn law_comma_list(bs: Seq<bool>, spaced: bool)
    requires
        bs.len() >= 2,
    ensures
        document_value(seq!['['] + joined(bs, comma(spaced)) + seq![']']) == Some(
            JValue::List(seq![JValue::List(bools(bs))]),
        ),
{
    let s = seq!['['] + joined(bs, comma(spaced)) + seq![']'];
    let items = seq![JValue::List(bools(bs))];
    lemma_bracket_list(s, bs, spaced);
    lemma_gap_at_word(s, 0);
    lemma_at_end(s, items);
    step_root_values(s, 0, JValue::List(bools(bs)), s.len() as int, items, s.len() as int);
    step_document_values(s, items);
}

/// A key and a `:` at `n`, at the start of `s`, do not read as a document of values.
proof fn lemma_key_not_values(s: Seq<char>, n: int)
    requires
        0 < n < s.len(),
        forall|y: int| 0 <= y < n ==> ascii_key_char(#[trigger] s[y]),
        s[n] == ':',
    ensures
        skip_gap(s, 0) == 0,
        skip_gap(s, root_values(s, 0).1) != s.len(),
{
    lemma_value_within(s, n);
    assert(ascii_key_char(s[0]));
    match parse_value(s, 0) {
        Some((v, e)) => {
            if e < n {
                assert(ascii_key_char(s[e]));
            }
            assert(skip_ws(s, e) == e);
            assert(newline_sep(s, e) is None);
            step_no_more_values(s, e, seq![v]);
            if 0 < e {
                step_root_values(s, 0, v, e, seq![v], e);
            }
            assert(skip_gap(s, e) == e);
        },
        None => {},
    }
}

/// A blank: a space, or a tab.
pub open spec fn blank(tab: bool) -> char {
    if tab {
        '\t'
    } else {
        ' '
    }
}

/// Every nonempty run of ASCII letters, digits, `.`, `-` and `_` is a key: the
/// document `key: true` (or `key: false`, with a space or a tab after the
/// colon) reads as the object whose one member is that key with that boolean.
pub proof fn law_key_definition(k: Seq<char>, b: bool, tab: bool)
    requires
        k.len() >= 1,
        forall|x: int| 0 <= x < k.len() ==> ascii_key_char(#[trigger] k[x]),
    ensures
        document_value(k + seq![':', blank(tab)] + word(b)) == Some(
            JValue::Object(seq![(k, JValue::Bool(b))]),
        ),
{
    let s = k + seq![':', blank(tab)] + word(b);
    let n = k.len() as int;
    lemma_key_text(s, k, b, tab);
    // no value stands at the start: whatever is read there stops by the `:`
    lemma_key_not_values(s, n);
    // the key runs up to the `:`
    lemma_key_head(s, k);
    step_def(s, n, n + 2, JValue::Bool(b), s.len() as int);
    step_document_def(s, (k, JValue::Bool(b)));
}

/// `key: ` and a word, character by character.
proof fn lemma_key_text(s: Seq<char>, k: Seq<char>, b: bool, tab: bool)
    requires
        k.len() >= 1,
        forall|x: int| 0 <= x < k.len() ==> ascii_key_char(#[trigger] k[x]),
        s == k + seq![':', blank(tab)] + word(b),
    ensures
        forall|y: int| 0 <= y < k.len() ==> #[trigger] s[y] == k[y],
        forall|y: int| 0 <= y < k.len() ==> ascii_key_char(#[trigger] s[y]),
        s[k.len() as int] == ':',
        is_blank(s[k.len() as int + 1]),
        parse_value(s, k.len() as int + 2) == Some((JValue::Bool(b), s.len() as int)),
        s[k.len() as int + 2] == 't' || s[k.len() as int + 2] == 'f',
{
    let head = k + seq![':', blank(tab)];
    let n = k.len() as int;
    assert(s.subrange(0, s.len() as int) =~= s);
    lemma_split(s, 0, head, word(b) + Seq::empty());
    assert forall|y: int| 0 <= y < n implies #[trigger] s[y] == k[y] by {
        assert(s[0 + y] == head[y]);
        assert(head[y] == k[y]);
    }
    assert(s[0 + n] == head[n]);
    assert(s[0 + (n + 1)] == head[n + 1]);
    lemma_word_value(s, n + 2, b, Seq::empty());
}

/// The key of `key: ` runs up to the `:`, and the value starts after the blank.
proof fn lemma_key_head(s: Seq<char>, k: Seq<char>)
    requires
        k.len() >= 1,
        k.len() as int + 2 < s.len(),
        forall|y: int| 0 <= y < k.len() ==> #[trigger] s[y] == k[y],
        forall|y: int| 0 <= y < k.len() ==> ascii_key_char(#[trigger] s[y]),
        s[k.len() as int] == ':',
        is_blank(s[k.len() as int + 1]),
        s[k.len() as int + 2] == 't' || s[k.len() as int + 2] == 'f',
    ensures
        key_end(s, 0) == Some(k.len() as int),
        s.subrange(0, k.len() as int) == k,
        skip_ws(s, k.len() as int) == k.len(),
        skip_ws(s, k.len() as int + 1) == k.len() as int + 2,
        s[0] != '!',
{
    let n = k.len() as int;
    lemma_key_run(s, 1, n);
    assert(ascii_key_char(s[0]));
    assert(s.subrange(0, n) =~= k) by {
        assert forall|y: int| 0 <= y < n implies s.subrange(0, n)[y] == k[y] by {
            assert(s[y] == k[y]);
        }
    }
    assert(skip_ws(s, n + 2) == n + 2);
}

/// The text `x: f` for a float literal `f`, read character by character.
proof fn lemma_float_text(negative: bool, ip: Seq<char>, frac: Seq<char>)
    requires
        ip.len() >= 1,
        digits_only(ip),
        ip.len() == 1 || ip[0] != '0',
        frac.len() >= 1,
        digits_only(frac),
    ensures
        ({
            let f = minus(negative) + ip + seq!['.'] + frac;
            let s = seq!['x', ':', ' '] + f;
            &&& 3 < s.len()
            &&& s[0] == 'x' && s[1] == ':' && s[2] == ' '
            &&& s[3] == '-' || is_digit(s[3])
            &&& float_literal_end(s, 3) == Some(s.len() as int)
            &&& s.subrange(3, s.len() as int) == f
        }),
{
    let sign = minus(negative);
    let dot = seq!['.'];
    let pre = seq!['x', ':', ' '];
    let f = sign + ip + dot + frac;
    let s = pre + f;
    let a: int = 3 + sign.len() as int;
    let p: int = a + ip.len() as int;
    assert(s.subrange(0, s.len() as int) =~= s);
    assert(s =~= pre + (sign + (ip + (dot + frac))));
    lemma_split(s, 0, pre, sign + (ip + (dot + frac)));
    lemma_split(s, 3, sign, ip + (dot + frac));
    lemma_split(s, a, ip, dot + frac);
    lemma_split(s, p, dot, frac);
    lemma_split(s, p + 1, frac, Seq::empty());
    assert(s[0int + 0] == 'x');
    assert(s[0int + 1] == ':');
    assert(s[0int + 2] == ' ');
    assert(s[p + 0] == '.');
    assert(s[a + 0] == ip[0]);
    if negative {
        assert(s[3int + 0] == '-');
    }
    assert(f =~= sign + (ip + (dot + frac)));
    // the literal: sign, integer part, `.`, fraction
    assert forall|y: int| a + 1 <= y < p implies is_digit(#[trigger] s[y]) by {
        assert(s[a + (y - a)] == ip[y - a]);
    }
    lemma_digits_to(s, a + 1, p);
    assert forall|y: int| p + 1 <= y < s.len() implies is_digit(#[trigger] s[y]) by {
        assert(s[(p + 1) + (y - p - 1)] == frac[y - p - 1]);
    }
    lemma_digits_to(s, p + 2, s.len() as int);
    assert(int_literal_end(s, 3) == Some(p));
    assert(s[(p + 1) + 0] == frac[0]);
    assert(float_literal_end(s, 3) == Some(s.len() as int));
    assert(s.subrange(3, s.len() as int) == f);
}

/// Every integer literal followed by `.` and one or more digits is a float
/// literal: the document `x: f` for such a text `f` reads as the object whose
/// one member is `x` with the float written `f`.
pub proof fn law_float_definition(negative: bool, ip: Seq<char>, frac: Seq<char>)
    requires
        ip.len() >= 1,
        digits_only(ip),
        ip.len() == 1 || ip[0] != '0',
        frac.len() >= 1,
        digits_only(frac),
    ensures
        ({
            let f = minus(negative) + ip + seq!['.'] + frac;
            document_value(seq!['x', ':', ' '] + f) == Some(
                JValue::Object(seq![(seq!['x'], JValue::Float(f))]),
            )
        }),
{
    let f = minus(negative) + ip + seq!['.'] + frac;
    let s = seq!['x', ':', ' '] + f;
    lemma_float_text(negative, ip, frac);
    step_value_float(s, 3, s.len() as int);
    lemma_x_colon(s);
    step_def(s, 1, 3, JValue::Float(f), s.len() as int);
    step_document_def(s, (seq!['x'], JValue::Float(f)));
}

/// At a sign or a digit where no float literal stands, an integer literal is an integer.
proof fn step_value_int(s: Seq<char>, i: int, e: int)
    requires
        0 <= i < s.len(),
        s[i] == '-' || is_digit(s[i]),
        float_literal_end(s, i) is None,
        int_literal_end(s, i) == Some(e),
    ensures
        parse_value(s, i) == Some((JValue::Int(int_literal_value(s.subrange(i, e))), e)),
{
    if word_at(s, i, bool_text(true)) {
        assert(s.subrange(i, i + 4)[0] == s[i]);
    }
    if word_at(s, i, bool_text(false)) {
        assert(s.subrange(i, i + 5)[0] == s[i]);
    }
}

/// No newline separator: no more definitions.
proof fn step_no_more_defs(s: Seq<char>, e: int, acc: Seq<(Seq<char>, JValue)>)
    requires
        0 <= e <= s.len(),
        newline_sep(s, e) is None,
    ensures
        more_defs_nl(s, e, acc) == (acc, e),
{
}

/// `x: ` at the start of `s`: no value stands there, and `x` is a key.
proof fn lemma_x_colon(s: Seq<char>)
    requires
        3 < s.len(),
        s[0] == 'x',
        s[1] == ':',
        s[2] == ' ',
        !is_blank(s[3]),
        s[3] != '/',
    ensures
        skip_gap(s, 0) == 0,
        root_values(s, 0) == (Seq::<JValue>::empty(), 0int),
        key_end(s, 0) == Some(1int),
        s.subrange(0, 1) == seq!['x'],
        skip_ws(s, 1) == 1,
        skip_ws(s, 2) == 3,
{
    assert(key_run_end(s, 1) == 1);
    assert(s.subrange(0, 1) =~= seq!['x']);
    assert(skip_ws(s, 3) == 3);
    assert(parse_value(s, 0) is None) by {
        if word_at(s, 0, bool_text(true)) {
            assert(s.subrange(0, 4)[0] == s[0]);
        }
        if word_at(s, 0, bool_text(false)) {
            assert(s.subrange(0, 5)[0] == s[0]);
        }
    }
}

/// A document whose first definition stops before its end, at no separator, is refused.
proof fn step_document_rejected(s: Seq<char>, d: (Seq<char>, JValue), e: int)
    requires
        skip_gap(s, 0) == 0,
        root_values(s, 0) == (Seq::<JValue>::empty(), 0int),
        parse_def(s, 0) == Some((d, e)),
        0 < e < s.len(),
        !is_blank(s[e]),
        !is_line_break(s[e]),
        s[e] != '/',
    ensures
        document_value(s) is None,
{
    assert(skip_ws(s, e) == e);
    step_no_more_defs(s, e, seq![d]);
    assert(skip_gap(s, e) == e);
}

/// An integer literal may not start with a zero followed by more digits:
/// `x: 07` (or `x: -012`, and the like) is not a document.
pub proof fn law_leading_zero(negative: bool, ds: Seq<char>)
    requires
        ds.len() >= 1,
        digits_only(ds),
    ensures
        document_value(seq!['x', ':', ' '] + minus(negative) + seq!['0'] + ds) is None,
{
    let sign = minus(negative);
    let pre = seq!['x', ':', ' '];
    let zero = seq!['0'];
    let s = pre + sign + zero + ds;
    let a: int = 3 + sign.len() as int;
    assert(s.subrange(0, s.len() as int) =~= s);
    assert(s =~= pre + (sign + (zero + ds)));
    lemma_split(s, 0, pre, sign + (zero + ds));
    lemma_split(s, 3, sign, zero + ds);
    lemma_split(s, a, zero, ds);
    assert(s[0int + 0] == 'x');
    assert(s[0int + 1] == ':');
    assert(s[0int + 2] == ' ');
    assert(s[a + 0] == '0');
    assert(s[(a + 1) + 0] == ds[0]);
    if negative {
        assert(s[3int + 0] == '-');
    }
    assert(int_literal_end(s, 3) == Some(a + 1));
    assert(float_literal_end(s, 3) is None);
    step_value_int(s, 3, a + 1);
    lemma_x_colon(s);
    let v = JValue::Int(int_literal_value(s.subrange(3, a + 1)));
    step_def(s, 1, 3, v, a + 1);
    step_document_rejected(s, (seq!['x'], v), a + 1);
}

/// A float literal needs digits after its `.`: `x: 1.` (for any integer
/// literal before the `.`) is not a document.
pub proof fn law_float_needs_fraction(negative: bool, ip: Seq<char>)
    requires
        ip.len() >= 1,
        digits_only(ip),
        ip.len() == 1 || ip[0] != '0',
    ensures
        document_value(seq!['x', ':', ' '] + minus(negative) + ip + seq!['.']) is None,
{
    let s = seq!['x', ':', ' '] + minus(negative) + ip + seq!['.'];
    let p: int = 3 + minus(negative).len() as int + ip.len() as int;
    lemma_trailing_dot_text(s, negative, ip);
    step_value_int(s, 3, p);
    lemma_x_colon(s);
    let v = JValue::Int(int_literal_value(s.subrange(3, p)));
    step_def(s, 1, 3, v, p);
    step_document_rejected(s, (seq!['x'], v), p);
}

/// The text `x: ` and an integer literal with a `.` after it, character by character.
proof fn lemma_trailing_dot_text(s: Seq<char>, negative: bool, ip: Seq<char>)
    requires
        ip.len() >= 1,
        digits_only(ip),
        ip.len() == 1 || ip[0] != '0',
        s == seq!['x', ':', ' '] + minus(negative) + ip + seq!['.'],
    ensures
        ({
            let p = 3 + minus(negative).len() as int + ip.len() as int;
            &&& s[0] == 'x' && s[1] == ':' && s[2] == ' '
            &&& s[3] == '-' || is_digit(s[3])
            &&& s[3] != '/' && !is_blank(s[3])
            &&& s.len() == p + 1 && s[p] == '.'
            &&& int_literal_end(s, 3) == Some(p)
            &&& float_literal_end(s, 3) is None
        }),
{
    let sign = minus(negative);
    let pre = seq!['x', ':', ' '];
    let dot = seq!['.'];
    let a: int = 3 + sign.len() as int;
    let p: int = a + ip.len() as int;
    assert(s.subrange(0, s.len() as int) =~= s);
    assert(s =~= pre + (sign + (ip + dot)));
    lemma_split(s, 0, pre, sign + (ip + dot));
    lemma_split(s, 3, sign, ip + dot);
    lemma_split(s, a, ip, dot);
    assert(s[0int + 0] == 'x');
    assert(s[0int + 1] == ':');
    assert(s[0int + 2] == ' ');
    assert(s[p + 0] == '.');
    assert(s[a + 0] == ip[0]);
    if negative {
        assert(s[3int + 0] == '-');
    }
    assert forall|y: int| a + 1 <= y < p implies is_digit(#[trigger] s[y]) by {
        assert(s[a + (y - a)] == ip[y - a]);
    }
    lemma_digits_to(s, a + 1, p);
    assert(int_literal_end(s, 3) == Some(p));
    assert(s.len() == p + 1);
}

/// A float literal needs digits before its `.`: `x: .5` (for any digits after
/// the `.`) is not a document.
pub proof fn law_float_needs_integer_part(frac: Seq<char>)
    requires
        frac.len() >= 1,
        digits_only(frac),
    ensures
        document_value(seq!['x', ':', ' ', '.'] + frac) is None,
{
    let pre = seq!['x', ':', ' ', '.'];
    let s = pre + frac;
    assert(s.subrange(0, s.len() as int) =~= s);
    lemma_split(s, 0, pre, frac);
    assert(s[0int + 0] == 'x');
    assert(s[0int + 1] == ':');
    assert(s[0int + 2] == ' ');
    assert(s[0int + 3] == '.');
    lemma_x_colon(s);
    assert(parse_value(s, 3) is None) by {
        if word_at(s, 3, bool_text(true)) {
            assert(s.subrange(3, 7)[0] == s[3]);
        }
        if word_at(s, 3, bool_text(false)) {
            assert(s.subrange(3, 8)[0] == s[3]);
        }
    }
    assert(parse_def(s, 0) == Some(((seq!['x'], JValue::Bool(true)), 1int)));
    step_document_rejected(s, (seq!['x'], JValue::Bool(true)), 1);
}

// ----------------------------------------------------------------------------
// Flags: documents and objects of definitions
// ----------------------------------------------------------------------------

/// The definition `x` (true) or `!x` (false).
pub open spec fn flag(b: bool) -> Seq<char> {
    if b {
        seq!['x']
    } else {
        seq!['!', 'x']
    }
}

/// The member that the definition `flag(b)` stands for.
pub open spec fn flag_member(b: bool) -> (Seq<char>, JValue) {
    (seq!['x'], JValue::Bool(b))
}

/// The members that the definitions of `bs` stand for, in order.
pub open spec fn flag_members(bs: Seq<bool>) -> Seq<(Seq<char>, JValue)> {
    bs.map_values(|b: bool| flag_member(b))
}

/// `sep` before the definition of each boolean of `bs`, in order.
pub open spec fn flag_tail(bs: Seq<bool>, sep: Seq<char>) -> Seq<char>
    decreases bs.len(),
{
    if bs.len() == 0 {
        Seq::empty()
    } else {
        sep + flag(bs[0]) + flag_tail(bs.skip(1), sep)
    }
}

/// The definitions of `bs` with `sep` between each two.
pub open spec fn flags_joined(bs: Seq<bool>, sep: Seq<char>) -> Seq<char> {
    if bs.len() == 0 {
        Seq::empty()
    } else {
        flag(bs[0]) + flag_tail(bs.skip(1), sep)
    }
}

/// A definition `x` or `!x`, followed by a line break, a comma, a `}` or nothing.
proof fn lemma_flag_def(s: Seq<char>, i: int, b: bool, rest: Seq<char>)
    requires
        0 <= i <= s.len(),
        s.subrange(i, s.len() as int) == flag(b) + rest,
        rest.len() == 0 || rest[0] == '\n' || rest[0] == ',' || rest[0] == '}',
    ensures
        parse_def(s, i) == Some((flag_member(b), i + flag(b).len())),
        s[i] == (if b { 'x' } else { '!' }),
        s.subrange(i + flag(b).len(), s.len() as int) == rest,
        i + flag(b).len() <= s.len(),
{
    let f = flag(b);
    lemma_split(s, i, f, rest);
    let e = i + f.len();
    assert(s[i + 0] == f[0]);
    if rest.len() > 0 {
        assert(rest =~= seq![rest[0]] + rest.skip(1));
        lemma_split(s, e, seq![rest[0]], rest.skip(1));
        assert(s[e + 0] == rest[0]);
    }
    assert(key_run_end(s, e) == e);
    assert(skip_ws(s, e) == e);
    if b {
        assert(key_end(s, i) == Some(e));
        assert(s.subrange(i, e) =~= seq!['x']);
        assert(!char_at(s, e, ':'));
    } else {
        assert(s[i + 1] == 'x');
        assert(skip_ws(s, i + 1) == i + 1);
        assert(key_end(s, i + 1) == Some(e));
        assert(s.subrange(i + 1, e) =~= seq!['x']);
    }
}

/// Newline-separated definitions after `i`, to the end, are read in order.
proof fn lemma_flag_lines(s: Seq<char>, i: int, bs: Seq<bool>, acc: Seq<(Seq<char>, JValue)>)
    requires
        0 <= i <= s.len(),
        s.subrange(i, s.len() as int) == flag_tail(bs, seq!['\n']),
    ensures
        more_defs_nl(s, i, acc) == (acc + flag_members(bs), s.len() as int),
    decreases bs.len(),
{
    let nl = seq!['\n'];
    if bs.len() == 0 {
        assert(s.subrange(i, s.len() as int).len() == 0);
        assert(acc + flag_members(bs) =~= acc);
        assert(skip_ws(s, i) == i);
        step_no_more_defs(s, i, acc);
    } else {
        let f = flag(bs[0]);
        let rest = flag_tail(bs.skip(1), nl);
        assert(nl + f + rest =~= nl + (f + rest));
        lemma_split(s, i, nl, f + rest);
        assert(s[i + 0] == '\n');
        if rest.len() > 0 {
            assert(rest[0] == '\n');
        }
        lemma_flag_def(s, i + 1, bs[0], rest);
        assert(skip_ws(s, i) == i);
        assert(skip_gap(s, i + 1) == i + 1);
        assert(skip_gap(s, i) == i + 1);
        assert(newline_sep(s, i) == Some(i + 1));
        lemma_flag_lines(s, i + 1 + f.len(), bs.skip(1), acc.push(flag_member(bs[0])));
        assert(acc.push(flag_member(bs[0])) + flag_members(bs.skip(1)) =~= acc + flag_members(bs));
    }
}

/// A document of newline-separated definitions reads as the object of those
/// definitions, in order, however many there are.
pub proof fn law_definition_lines(bs: Seq<bool>)
    requires
        bs.len() >= 1,
    ensures
        document_value(flags_joined(bs, seq!['\n'])) == Some(JValue::Object(flag_members(bs))),
{
    let s = flags_joined(bs, seq!['\n']);
    lemma_definition_lines(s, bs);
    lemma_flags_not_values(s);
    step_document_defs(s, flag_members(bs));
}

/// Definitions on lines of their own, from the start to the end of `s`.
proof fn lemma_definition_lines(s: Seq<char>, bs: Seq<bool>)
    requires
        bs.len() >= 1,
        s == flags_joined(bs, seq!['\n']),
    ensures
        root_defs(s, 0) == Some((flag_members(bs), s.len() as int)),
        0 < s.len(),
        s[0] == 'x' || s[0] == '!',
{
    let f = flag(bs[0]);
    let rest = flag_tail(bs.skip(1), seq!['\n']);
    assert(s.subrange(0, s.len() as int) =~= s);
    if rest.len() > 0 {
        assert(rest[0] == '\n');
    }
    lemma_flag_def(s, 0, bs[0], rest);
    lemma_flag_lines(s, f.len() as int, bs.skip(1), seq![flag_member(bs[0])]);
    lemma_flag_members_cons(bs);
    step_root_defs(s, flag_member(bs[0]), f.len() as int, flag_members(bs));
}

/// A document that starts with `x` or `!x` reads as no sequence of values.
proof fn lemma_flags_not_values(s: Seq<char>)
    requires
        0 < s.len(),
        s[0] == 'x' || s[0] == '!',
    ensures
        skip_gap(s, 0) == 0,
        root_values(s, 0) == (Seq::<JValue>::empty(), 0int),
{
    assert(parse_value(s, 0) is None) by {
        if word_at(s, 0, bool_text(true)) {
            assert(s.subrange(0, 4)[0] == s[0]);
        }
        if word_at(s, 0, bool_text(false)) {
            assert(s.subrange(0, 5)[0] == s[0]);
        }
    }
}

/// The definitions of a document from a first definition on.
proof fn step_root_defs(s: Seq<char>, d: (Seq<char>, JValue), k: int, ds: Seq<(Seq<char>, JValue)>)
    requires
        parse_def(s, 0) == Some((d, k)),
        0 < k <= s.len(),
        more_defs_nl(s, k, seq![d]) == (ds, s.len() as int),
    ensures
        root_defs(s, 0) == Some((ds, s.len() as int)),
{
}

/// A document that reads as no sequence of values, and as definitions to its end.
proof fn step_document_defs(s: Seq<char>, ds: Seq<(Seq<char>, JValue)>)
    requires
        skip_gap(s, 0) == 0,
        root_values(s, 0) == (Seq::<JValue>::empty(), 0int),
        0 < s.len(),
        root_defs(s, 0) == Some((ds, s.len() as int)),
    ensures
        document_value(s) == Some(JValue::Object(ds)),
{
    lemma_at_end(s, Seq::empty());
}

/// At `{`, a value is an object.
proof fn step_value_object(s: Seq<char>, i: int)
    requires
        0 <= i < s.len(),
        s[i] == '{',
    ensures
        parse_value(s, i) == parse_object(s, i),
{
}

/// An object with no `#id`: `{`, a gap, its definitions, a gap, `}`.
proof fn step_object(s: Seq<char>, i: int, ds: Seq<(Seq<char>, JValue)>, e: int)
    requires
        char_at(s, i, '{'),
        skip_gap(s, i + 1) == i + 1,
        def_items(s, i + 1) == (ds, e),
        skip_gap(s, e) == e,
        char_at(s, e, '}'),
    ensures
        parse_object(s, i) == Some((JValue::Object(ds), e + 1)),
{
    assert(Seq::<(Seq<char>, JValue)>::empty() + ds =~= ds);
}

/// Definitions read with commas, at least two of them.
proof fn step_comma_defs(
    s: Seq<char>,
    j: int,
    d: (Seq<char>, JValue),
    k: int,
    cs: Seq<(Seq<char>, JValue)>,
    ce: int,
)
    requires
        parse_def(s, j) == Some((d, k)),
        j < k <= s.len(),
        more_defs_comma(s, k, seq![d]) == (cs, ce),
        cs.len() > 1,
    ensures
        def_items(s, j) == (cs, ce),
{
}

/// Comma-separated definitions after `i`, up to a closing `}` that ends the
/// input, are read in order.
proof fn lemma_flag_commas(
    s: Seq<char>,
    i: int,
    bs: Seq<bool>,
    spaced: bool,
    acc: Seq<(Seq<char>, JValue)>,
)
    requires
        0 <= i <= s.len(),
        s.subrange(i, s.len() as int) == flag_tail(bs, comma(spaced)) + seq!['}'],
    ensures
        more_defs_comma(s, i, acc) == (acc + flag_members(bs), s.len() - 1),
        i < s.len(),
        s[s.len() - 1] == '}',
    decreases bs.len(),
{
    let sep = comma(spaced);
    if bs.len() == 0 {
        assert(flag_tail(bs, sep) + seq!['}'] =~= seq!['}']);
        lemma_split(s, i, seq!['}'], Seq::empty());
        assert(s[i + 0] == '}');
        assert(skip_ws(s, i) == i);
        assert(comma_sep(s, i) is None);
        assert(acc + flag_members(bs) =~= acc);
    } else {
        let f = flag(bs[0]);
        let rest = flag_tail(bs.skip(1), sep) + seq!['}'];
        assert(sep + f + flag_tail(bs.skip(1), sep) + seq!['}'] =~= sep + (f + rest));
        lemma_split(s, i, sep, f + rest);
        assert(s[i + 0] == ',');
        let m = i + sep.len();
        if bs.skip(1).len() > 0 {
            lemma_flag_tail_start(bs.skip(1), sep);
            assert(rest[0] == flag_tail(bs.skip(1), sep)[0]);
        } else {
            assert(rest =~= seq!['}']);
        }
        lemma_flag_def(s, m, bs[0], rest);
        assert(skip_ws(s, i) == i);
        assert(skip_ws(s, m) == m);
        if spaced {
            assert(s[i + 1] == ' ');
            assert(skip_ws(s, i + 1) == skip_ws(s, i + 2));
        }
        assert(comma_sep(s, i) == Some(m));
        lemma_flag_commas(s, m + f.len(), bs.skip(1), spaced, acc.push(flag_member(bs[0])));
        assert(acc.push(flag_member(bs[0])) + flag_members(bs.skip(1)) =~= acc + flag_members(bs));
    }
}

proof fn lemma_flag_tail_start(bs: Seq<bool>, sep: Seq<char>)
    requires
        bs.len() > 0,
        sep.len() > 0,
    ensures
        flag_tail(bs, sep).len() > 0,
        flag_tail(bs, sep)[0] == sep[0],
{
    let t = sep + flag(bs[0]) + flag_tail(bs.skip(1), sep);
    assert(flag_tail(bs, sep) == t);
    assert(t[0] == (sep + flag(bs[0]))[0]);
}

/// The definitions inside braces, comma-separated, read as the object's members.
proof fn lemma_flag_members_cons(bs: Seq<bool>)
    requires
        bs.len() > 0,
    ensures
        seq![flag_member(bs[0])] + flag_members(bs.skip(1)) == flag_members(bs),
{
    assert(seq![flag_member(bs[0])] + flag_members(bs.skip(1)) =~= flag_members(bs));
}

proof fn lemma_brace_defs(s: Seq<char>, bs: Seq<bool>, spaced: bool)
    requires
        bs.len() >= 2,
        s == seq!['{'] + flags_joined(bs, comma(spaced)) + seq!['}'],
    ensures
        def_items(s, 1) == (flag_members(bs), s.len() - 1),
        s[0] == '{',
        s[1] == 'x' || s[1] == '!',
        s[s.len() - 1] == '}',
        2 < s.len(),
{
    let sep = comma(spaced);
    let rest = flag_tail(bs.skip(1), sep) + seq!['}'];
    lemma_brace_text(s, bs, spaced);
    lemma_flag_def(s, 1, bs[0], rest);
    let k: int = 1 + flag(bs[0]).len() as int;
    lemma_flag_commas(s, k, bs.skip(1), spaced, seq![flag_member(bs[0])]);
    lemma_flag_members_cons(bs);
    step_comma_defs(s, 1, flag_member(bs[0]), k, flag_members(bs), s.len() - 1);
}

/// `{`, then the first definition and the rest, which starts with a comma.
proof fn lemma_brace_text(s: Seq<char>, bs: Seq<bool>, spaced: bool)
    requires
        bs.len() >= 2,
        s == seq!['{'] + flags_joined(bs, comma(spaced)) + seq!['}'],
    ensures
        s[0] == '{',
        s.subrange(1, s.len() as int) == flag(bs[0]) + (flag_tail(bs.skip(1), comma(spaced))
            + seq!['}']),
        (flag_tail(bs.skip(1), comma(spaced)) + seq!['}'])[0] == ',',
{
    let sep = comma(spaced);
    let f = flag(bs[0]);
    let rest = flag_tail(bs.skip(1), sep) + seq!['}'];
    assert(s.subrange(0, s.len() as int) =~= s);
    assert(s =~= seq!['{'] + (f + rest));
    lemma_split(s, 0, seq!['{'], f + rest);
    assert(s[0int + 0] == '{');
    lemma_flag_tail_start(bs.skip(1), sep);
    assert(rest[0] == flag_tail(bs.skip(1), sep)[0]);
}

/// The definitions of an object may be separated by a bare comma or by a
/// comma and a space: `{a,!b}` and `{a, !b}` both read as the object with
/// those members, in order, for any number of members from two on.
pub proof fn law_comma_object(bs: Seq<bool>, spaced: bool)
    requires
        bs.len() >= 2,
    ensures
        document_value(seq!['{'] + flags_joined(bs, comma(spaced)) + seq!['}']) == Some(
            JValue::List(seq![JValue::Object(flag_members(bs))]),
        ),
{
    let s = seq!['{'] + flags_joined(bs, comma(spaced)) + seq!['}'];
    let e = s.len() - 1;
    let items = seq![JValue::Object(flag_members(bs))];
    lemma_brace_defs(s, bs, spaced);
    assert(skip_gap(s, 1) == 1);
    assert(skip_gap(s, e) == e);
    step_object(s, 0, flag_members(bs), e);
    step_value_object(s, 0);
    assert(skip_gap(s, 0) == 0);
    lemma_at_end(s, items);
    step_root_values(s, 0, JValue::Object(flag_members(bs)), s.len() as int, items, s.len() as int);
    step_document_values(s, items);
}

/// A comment may end a line that holds a value: `a //note`, a line break and
/// `b` read as the list of `a` and `b`, whatever the comment says.
pub proof fn law_trailing_comment(b1: bool, c: Seq<char>, b2: bool)
    requires
        line_break_free(c),
    ensures
        document_value(word(b1) + seq![' ', '/', '/'] + c + seq!['\n'] + word(b2)) == Some(
            JValue::List(seq![JValue::Bool(b1), JValue::Bool(b2)]),
        ),
{
    let s = word(b1) + seq![' ', '/', '/'] + c + seq!['\n'] + word(b2);
    let vs = seq![JValue::Bool(b1), JValue::Bool(b2)];
    let n1 = word(b1).len() as int;
    lemma_trailing_comment_values(s, b1, c, b2);
    lemma_word_start(s, b1, c, b2);
    lemma_gap_at_word(s, 0);
    step_root_values(s, 0, JValue::Bool(b1), n1, vs, s.len() as int);
    step_document_values(s, vs);
}

/// The first word of the line, and where it ends.
proof fn lemma_word_start(s: Seq<char>, b1: bool, c: Seq<char>, b2: bool)
    requires
        s == word(b1) + seq![' ', '/', '/'] + c + seq!['\n'] + word(b2),
    ensures
        parse_value(s, 0) == Some((JValue::Bool(b1), word(b1).len() as int)),
        s[0] == 't' || s[0] == 'f',
        word(b1).len() < s.len(),
{
    let rest = seq![' ', '/', '/'] + c + seq!['\n'] + word(b2);
    assert(s.subrange(0, s.len() as int) =~= s);
    assert(s =~= word(b1) + rest);
    lemma_word_value(s, 0, b1, rest);
}

/// After the first word, the comment and the line break separate the second word.
proof fn lemma_trailing_comment_values(s: Seq<char>, b1: bool, c: Seq<char>, b2: bool)
    requires
        line_break_free(c),
        s == word(b1) + seq![' ', '/', '/'] + c + seq!['\n'] + word(b2),
    ensures
        more_values_nl(s, word(b1).len() as int, seq![JValue::Bool(b1)]) == (
            seq![JValue::Bool(b1), JValue::Bool(b2)],
            s.len() as int,
        ),
{
    let n1 = word(b1).len() as int;
    let l = n1 + 3 + c.len();
    let vs = seq![JValue::Bool(b1), JValue::Bool(b2)];
    lemma_trailing_comment_sep(s, b1, c, b2);
    lemma_at_end(s, vs);
    assert(seq![JValue::Bool(b1)].push(JValue::Bool(b2)) =~= vs);
    step_more_values(s, n1, l + 1, JValue::Bool(b2), s.len() as int, seq![JValue::Bool(b1)], (
        vs,
        s.len() as int,
    ));
}

/// One more value after a newline separator.
proof fn step_more_values(
    s: Seq<char>,
    i: int,
    m: int,
    v: JValue,
    k: int,
    acc: Seq<JValue>,
    res: (Seq<JValue>, int),
)
    requires
        0 <= i <= s.len(),
        newline_sep(s, i) == Some(m),
        parse_value(s, m) == Some((v, k)),
        m < k <= s.len(),
        more_values_nl(s, k, acc.push(v)) == res,
    ensures
        more_values_nl(s, i, acc) == res,
{
}

/// The blank, the comment and the line break after the first word are a
/// newline separator, and the second word follows it.
proof fn lemma_trailing_comment_sep(s: Seq<char>, b1: bool, c: Seq<char>, b2: bool)
    requires
        line_break_free(c),
        s == word(b1) + seq![' ', '/', '/'] + c + seq!['\n'] + word(b2),
    ensures
        ({
            let n1 = word(b1).len() as int;
            let l = n1 + 3 + c.len();
            &&& newline_sep(s, n1) == Some(l + 1)
            &&& parse_value(s, l + 1) == Some((JValue::Bool(b2), s.len() as int))
            &&& 0 <= n1 < l + 1 < s.len()
        }),
{
    let n1 = word(b1).len() as int;
    let l = n1 + 3 + c.len();
    lemma_trailing_comment_text(s, b1, c, b2);
    lemma_comment_tail(s, n1 + 3, n1 + 3, l);
    assert(skip_ws(s, n1 + 1) == l);
    assert(skip_ws(s, n1) == l);
    lemma_word_value(s, l + 1, b2, Seq::empty());
    assert(skip_gap(s, l + 1) == l + 1);
    assert(skip_gap(s, l) == l + 1);
}

/// A word, ` //`, a comment, a line break and a word, character by character.
proof fn lemma_trailing_comment_text(s: Seq<char>, b1: bool, c: Seq<char>, b2: bool)
    requires
        line_break_free(c),
        s == word(b1) + seq![' ', '/', '/'] + c + seq!['\n'] + word(b2),
    ensures
        ({
            let n1 = word(b1).len() as int;
            let l = n1 + 3 + c.len();
            &&& s[n1] == ' ' && s[n1 + 1] == '/' && s[n1 + 2] == '/'
            &&& l < s.len() && s[l] == '\n'
            &&& forall|k: int| n1 + 3 <= k < l ==> s[k] != '\n' && s[k] != '\r'
            &&& s.subrange(l + 1, s.len() as int) == word(b2) + Seq::<char>::empty()
        }),
{
    let n1 = word(b1).len() as int;
    let mid = seq![' ', '/', '/'] + c + seq!['\n'];
    let l = n1 + 3 + c.len();
    assert(s.subrange(0, s.len() as int) =~= s);
    assert(s =~= word(b1) + (mid + word(b2)));
    lemma_split(s, 0, word(b1), mid + word(b2));
    lemma_split(s, n1, mid, word(b2));
    assert(s[n1 + 0] == ' ');
    assert(s[n1 + 1] == '/');
    assert(s[n1 + 2] == '/');
    assert(s[n1 + (3 + c.len())] == '\n');
    assert forall|k: int| n1 + 3 <= k < l implies s[k] != '\n' && s[k] != '\r' by {
        assert(s[n1 + (k - n1)] == mid[k - n1]);
        assert(mid[k - n1] == c[k - n1 - 3]);
    }
    assert(word(b2) + Seq::<char>::empty() =~= word(b2));
}

/// A list may not end with a comma: `[a, b,]` (with or without a space after
/// each comma) is not a document, for any number of items from two on.
pub proof fn law_trailing_comma(bs: Seq<bool>, spaced: bool)
    requires
        bs.len() >= 2,
    ensures
        document_value(seq!['['] + joined(bs, comma(spaced)) + seq![',', ']']) is None,
{
    let s = seq!['['] + joined(bs, comma(spaced)) + seq![',', ']'];
    let e = s.len() - 2;
    assert(list_end(true) == seq![',', ']']);
    lemma_bracket_items(s, bs, spaced, true);
    lemma_gap_at_word(s, 1);
    assert(skip_gap(s, e) == e);
    step_list_unclosed(s, 0, 1, e);
    step_value_list(s, 0);
    lemma_gap_at_word(s, 0);
    assert(key_end(s, 0) is None);
    step_document_none(s);
}

/// A list whose items are not followed by `]` is no list.
proof fn step_list_unclosed(s: Seq<char>, i: int, j: int, e: int)
    requires
        char_at(s, i, '['),
        skip_gap(s, i + 1) == j,
        list_items(s, j).1 == e,
        skip_gap(s, e) == e,
        !char_at(s, e, ']'),
    ensures
        parse_list(s, i) is None,
{
}

/// A document where neither a value nor a definition starts is refused.
proof fn step_document_none(s: Seq<char>)
    requires
        0 < s.len(),
        skip_gap(s, 0) == 0,
        parse_value(s, 0) is None,
        parse_def(s, 0) is None,
    ensures
        document_value(s) is None,
{
}

/// A text of blanks, line breaks and comments only (the empty text among
/// them) is the document of no values: the empty list.
pub proof fn law_empty_document(g: Seq<char>)
    requires
        is_gap(g),
    ensures
        document_value(g) == Some(JValue::List(Seq::empty())),
{
    lemma_at_end(g, Seq::empty());
    assert(parse_value(g, g.len() as int) is None);
}

} // verus!
