//! Blank lines and comments around a document do not change what it reads as.
//!
//! The proof embeds a document `s` at offset `o` in a longer input `t` whose
//! part after `s` is a gap that starts with a line break and holds no quote,
//! and shows that each grammar function reads the same from the same place.
use vstd::prelude::*;
use crate::model::JValue;
use crate::grammar::{
    is_blank, is_line_break, is_digit, is_key_char, char_at, comment_end, starts_comment,
    skip_ws, skip_gap, newline_sep, comma_sep, key_run_end, key_end, digit_run_end,
    int_literal_end, float_literal_end, word_at, string_body_end, parse_value, parse_list,
    list_items, more_values_comma, more_values_nl, parse_object, def_items, more_defs_comma,
    more_defs_nl, parse_def, root_values, root_defs, document_value, id_member, lemma_skip_ws,
    lemma_skip_gap, lemma_comment_end, lemma_comma_sep, lemma_newline_sep,
};
use crate::model::bool_text;

verus! {

/// `s` stands in `t` from offset `o`; what follows it in `t` is blanks, line
/// breaks and comments, starts with a line break, and holds no `"`.
pub open spec fn embeds(t: Seq<char>, s: Seq<char>, o: int) -> bool {
    &&& 0 <= o
    &&& o + s.len() <= t.len()
    &&& forall|k: int| 0 <= k < s.len() ==> #[trigger] t[k + o] == s[k]
    &&& o + s.len() < t.len() ==> is_line_break(t[o + s.len()])
    &&& skip_gap(t, o + s.len()) == t.len()
    &&& forall|k: int| o + s.len() <= k < t.len() ==> #[trigger] t[k] != '"'
}

/// A result read from `s`, moved by `o`.
pub open spec fn moved<A>(r: Option<(A, int)>, o: int) -> Option<(A, int)> {
    match r {
        Some((a, k)) => Some((a, k + o)),
        None => None,
    }
}

proof fn lemma_subrange(t: Seq<char>, s: Seq<char>, o: int, a: int, b: int)
    requires
        embeds(t, s, o),
        0 <= a <= b <= s.len(),
    ensures
        t.subrange(a + o, b + o) == s.subrange(a, b),
{
    assert forall|k: int| 0 <= k < b - a implies t.subrange(a + o, b + o)[k] == s.subrange(
        a,
        b,
    )[k] by {
        assert(t[(a + k) + o] == s[a + k]);
    }
    assert(t.subrange(a + o, b + o) =~= s.subrange(a, b));
}

/// Just after `s`, `t` holds a line break or ends.
proof fn lemma_at_end(t: Seq<char>, s: Seq<char>, o: int)
    requires
        embeds(t, s, o),
    ensures
        !(0 <= s.len() + o < t.len() && (is_blank(t[s.len() + o]) || is_digit(t[s.len() + o])
            || is_key_char(t[s.len() + o]) || t[s.len() + o] == '/' || t[s.len() + o] == '-'
            || t[s.len() + o] == ',' || t[s.len() + o] == ':' || t[s.len() + o] == '.'
            || t[s.len() + o] == '"' || t[s.len() + o] == '\\' || t[s.len() + o] == '['
            || t[s.len() + o] == ']' || t[s.len() + o] == '{' || t[s.len() + o] == '}'
            || t[s.len() + o] == '#' || t[s.len() + o] == '!')),
{
}

proof fn lemma_comment_end_m(t: Seq<char>, s: Seq<char>, o: int, i: int)
    requires
        embeds(t, s, o),
        0 <= i <= s.len(),
    ensures
        comment_end(t, i + o) == comment_end(s, i) + o,
    decreases s.len() - i,
{
    lemma_at_end(t, s, o);
    if i < s.len() {
        assert(t[i + o] == s[i]);
        if !is_line_break(s[i]) {
            lemma_comment_end_m(t, s, o, i + 1);
            assert(i + 1 + o == i + o + 1);
        }
    }
}

proof fn lemma_skip_ws_m(t: Seq<char>, s: Seq<char>, o: int, i: int)
    requires
        embeds(t, s, o),
        0 <= i <= s.len(),
    ensures
        skip_ws(t, i + o) == skip_ws(s, i) + o,
    decreases s.len() - i,
{
    lemma_at_end(t, s, o);
    if i < s.len() {
        assert(t[i + o] == s[i]);
        if i + 1 < s.len() {
            assert(t[i + 1 + o] == s[i + 1]);
        }
        if is_blank(s[i]) {
            lemma_skip_ws_m(t, s, o, i + 1);
            assert(i + 1 + o == i + o + 1);
        } else if starts_comment(s, i) {
            lemma_comment_end_m(t, s, o, i + 2);
            assert(i + 2 + o == i + o + 2);
        } else {
            assert(!starts_comment(t, i + o));
        }
    }
}

proof fn lemma_skip_gap_m(t: Seq<char>, s: Seq<char>, o: int, i: int)
    requires
        embeds(t, s, o),
        0 <= i <= s.len(),
    ensures
        i <= skip_gap(s, i) <= s.len(),
        skip_gap(s, i) < s.len() ==> skip_gap(t, i + o) == skip_gap(s, i) + o,
        skip_gap(s, i) == s.len() ==> skip_gap(t, i + o) == t.len(),
    decreases s.len() - i,
{
    lemma_skip_gap(s, i);
    lemma_at_end(t, s, o);
    if i < s.len() {
        assert(t[i + o] == s[i]);
        if i + 1 < s.len() {
            assert(t[i + 1 + o] == s[i + 1]);
        }
        if is_blank(s[i]) || is_line_break(s[i]) {
            lemma_skip_gap_m(t, s, o, i + 1);
            assert(i + 1 + o == i + o + 1);
        } else if starts_comment(s, i) {
            lemma_comment_end(s, i + 2);
            lemma_comment_end_m(t, s, o, i + 2);
            assert(i + 2 + o == i + o + 2);
            lemma_skip_gap_m(t, s, o, comment_end(s, i + 2));
        } else {
            assert(!starts_comment(t, i + o));
        }
    }
}

proof fn lemma_newline_sep_m(t: Seq<char>, s: Seq<char>, o: int, i: int)
    requires
        embeds(t, s, o),
        0 <= i <= s.len(),
    ensures
        newline_sep(s, i) matches Some(m) ==> i < m <= s.len(),
        newline_sep(s, i) matches Some(m) ==> (m < s.len() ==> newline_sep(t, i + o) == Some(
            m + o,
        )),
        newline_sep(s, i) matches Some(m) ==> (m == s.len() ==> newline_sep(t, i + o) == Some(
            t.len() as int,
        )),
        newline_sep(s, i) is None ==> newline_sep(t, i + o) is None || newline_sep(t, i + o)
            == Some(t.len() as int),
{
    lemma_newline_sep(s, i);
    lemma_skip_ws_m(t, s, o, i);
    lemma_skip_ws(s, i);
    lemma_at_end(t, s, o);
    let j = skip_ws(s, i);
    if j < s.len() {
        assert(t[j + o] == s[j]);
        lemma_skip_gap_m(t, s, o, j);
    } else {
        if j + o < t.len() {
            assert(skip_gap(t, j + o) == t.len());
        }
    }
}

proof fn lemma_comma_sep_m(t: Seq<char>, s: Seq<char>, o: int, i: int)
    requires
        embeds(t, s, o),
        0 <= i <= s.len(),
    ensures
        comma_sep(t, i + o) == moved_pos(comma_sep(s, i), o),
        comma_sep(s, i) matches Some(m) ==> i < m <= s.len(),
{
    lemma_comma_sep(s, i);
    lemma_skip_ws_m(t, s, o, i);
    lemma_skip_ws(s, i);
    lemma_at_end(t, s, o);
    let j = skip_ws(s, i);
    if j < s.len() {
        assert(t[j + o] == s[j]);
        if s[j] == ',' {
            lemma_skip_ws_m(t, s, o, j + 1);
            assert(j + 1 + o == j + o + 1);
        }
    }
}

/// A position read from `s`, moved by `o`.
pub open spec fn moved_pos(r: Option<int>, o: int) -> Option<int> {
    match r {
        Some(k) => Some(k + o),
        None => None,
    }
}

proof fn lemma_key_run_m(t: Seq<char>, s: Seq<char>, o: int, i: int)
    requires
        embeds(t, s, o),
        0 <= i <= s.len(),
    ensures
        key_run_end(t, i + o) == key_run_end(s, i) + o,
        i <= key_run_end(s, i) <= s.len(),
    decreases s.len() - i,
{
    lemma_at_end(t, s, o);
    if i < s.len() {
        assert(t[i + o] == s[i]);
        if is_key_char(s[i]) {
            lemma_key_run_m(t, s, o, i + 1);
            assert(i + 1 + o == i + o + 1);
        }
    }
}

proof fn lemma_key_end_m(t: Seq<char>, s: Seq<char>, o: int, i: int)
    requires
        embeds(t, s, o),
        0 <= i <= s.len(),
    ensures
        key_end(t, i + o) == moved_pos(key_end(s, i), o),
        key_end(s, i) matches Some(e) ==> i < e <= s.len(),
{
    lemma_at_end(t, s, o);
    if i < s.len() {
        assert(t[i + o] == s[i]);
        if is_key_char(s[i]) {
            lemma_key_run_m(t, s, o, i + 1);
            assert(i + 1 + o == i + o + 1);
        }
    }
}

proof fn lemma_digit_run_m(t: Seq<char>, s: Seq<char>, o: int, i: int)
    requires
        embeds(t, s, o),
        0 <= i <= s.len(),
    ensures
        digit_run_end(t, i + o) == digit_run_end(s, i) + o,
        i <= digit_run_end(s, i) <= s.len(),
    decreases s.len() - i,
{
    lemma_at_end(t, s, o);
    if i < s.len() {
        assert(t[i + o] == s[i]);
        if is_digit(s[i]) {
            lemma_digit_run_m(t, s, o, i + 1);
            assert(i + 1 + o == i + o + 1);
        }
    }
}

proof fn lemma_int_literal_m(t: Seq<char>, s: Seq<char>, o: int, i: int)
    requires
        embeds(t, s, o),
        0 <= i <= s.len(),
    ensures
        int_literal_end(t, i + o) == moved_pos(int_literal_end(s, i), o),
        int_literal_end(s, i) matches Some(e) ==> i < e <= s.len(),
{
    lemma_at_end(t, s, o);
    if i < s.len() {
        assert(t[i + o] == s[i]);
    }
    let j = if char_at(s, i, '-') {
        i + 1
    } else {
        i
    };
    assert(char_at(t, i + o, '-') == char_at(s, i, '-'));
    if j < s.len() {
        assert(t[j + o] == s[j]);
    }
    assert(char_at(t, j + o, '0') == char_at(s, j, '0'));
    if j < s.len() && !char_at(s, j, '0') {
        lemma_digit_run_m(t, s, o, j + 1);
        assert(j + 1 + o == j + o + 1);
    }
}

proof fn lemma_float_literal_m(t: Seq<char>, s: Seq<char>, o: int, i: int)
    requires
        embeds(t, s, o),
        0 <= i <= s.len(),
    ensures
        float_literal_end(t, i + o) == moved_pos(float_literal_end(s, i), o),
        float_literal_end(s, i) matches Some(e) ==> i < e <= s.len(),
{
    lemma_int_literal_m(t, s, o, i);
    lemma_at_end(t, s, o);
    if let Some(j) = int_literal_end(s, i) {
        if j < s.len() {
            assert(t[j + o] == s[j]);
        }
        if j + 1 < s.len() {
            assert(t[j + 1 + o] == s[j + 1]);
        }
        if char_at(s, j, '.') && j + 1 < s.len() && is_digit(s[j + 1]) {
            lemma_digit_run_m(t, s, o, j + 2);
            assert(j + 2 + o == j + o + 2);
        } else {
            assert(!(char_at(t, j + o, '.') && 0 <= j + o + 1 < t.len() && is_digit(
                t[j + o + 1],
            )));
        }
    }
}

proof fn lemma_word_m(t: Seq<char>, s: Seq<char>, o: int, i: int, w: Seq<char>)
    requires
        embeds(t, s, o),
        0 <= i <= s.len(),
        w.len() > 0,
        forall|k: int| 0 <= k < w.len() ==> !is_line_break(#[trigger] w[k]),
    ensures
        word_at(t, i + o, w) == word_at(s, i, w),
{
    if i + w.len() <= s.len() {
        lemma_subrange(t, s, o, i, i + w.len());
    } else if word_at(t, i + o, w) {
        let k = s.len() - i;
        assert(t.subrange(i + o, i + o + w.len())[k] == t[s.len() + o]);
        assert(is_line_break(t[o + s.len()]));
        assert(!is_line_break(w[k]));
    }
}

proof fn lemma_no_quote_after(t: Seq<char>, s: Seq<char>, o: int, x: int)
    requires
        embeds(t, s, o),
        o + s.len() <= x,
    ensures
        string_body_end(t, x) is None,
    decreases t.len() - x,
{
    if 0 <= x < t.len() && t[x] != '"' {
        if t[x] == '\\' {
            if x + 1 < t.len() {
                lemma_no_quote_after(t, s, o, x + 2);
            }
        } else {
            lemma_no_quote_after(t, s, o, x + 1);
        }
    }
}

proof fn lemma_string_body_m(t: Seq<char>, s: Seq<char>, o: int, i: int)
    requires
        embeds(t, s, o),
        0 <= i <= s.len() + 1,
    ensures
        string_body_end(t, i + o) == moved_pos(string_body_end(s, i), o),
        string_body_end(s, i) matches Some(e) ==> i <= e < s.len(),
    decreases s.len() - i,
{
    if i >= s.len() {
        lemma_no_quote_after(t, s, o, i + o);
    } else {
        assert(t[i + o] == s[i]);
        if s[i] == '"' {
        } else if s[i] == '\\' {
            if i + 1 < s.len() {
                assert(t[i + 1 + o] == s[i + 1]);
                if crate::model::escape_target(s[i + 1]) is Some {
                    lemma_string_body_m(t, s, o, i + 2);
                    assert(i + 2 + o == i + o + 2);
                }
            } else {
                lemma_at_end(t, s, o);
            }
        } else {
            lemma_string_body_m(t, s, o, i + 1);
            assert(i + 1 + o == i + o + 1);
        }
    }
}

// ----------------------------------------------------------------------------
// Values and definitions read the same
// ----------------------------------------------------------------------------

proof fn lemma_value_m(t: Seq<char>, s: Seq<char>, o: int, i: int)
    requires
        embeds(t, s, o),
        0 <= i <= s.len(),
    ensures
        parse_value(t, i + o) == moved(parse_value(s, i), o),
        parse_value(s, i) matches Some((_, k)) ==> i < k <= s.len(),
    decreases s.len() - i, 3int,
{
    lemma_at_end(t, s, o);
    if i == s.len() {
        lemma_word_m(t, s, o, i, bool_text(true));
        lemma_word_m(t, s, o, i, bool_text(false));
        lemma_float_literal_m(t, s, o, i);
        lemma_int_literal_m(t, s, o, i);
    } else {
        assert(t[i + o] == s[i]);
        let c = s[i];
        if c == '#' || c == '{' {
            lemma_object_m(t, s, o, i);
        } else if c == '[' {
            lemma_list_m(t, s, o, i);
        } else if c == '"' {
            lemma_string_body_m(t, s, o, i + 1);
            assert(i + 1 + o == i + o + 1);
            if let Some(e) = string_body_end(s, i + 1) {
                lemma_subrange(t, s, o, i + 1, e);
                assert(e + 1 + o == e + o + 1);
            }
        } else {
            lemma_word_m(t, s, o, i, bool_text(true));
            lemma_word_m(t, s, o, i, bool_text(false));
            lemma_float_literal_m(t, s, o, i);
            lemma_int_literal_m(t, s, o, i);
            if let Some(e) = float_literal_end(s, i) {
                lemma_subrange(t, s, o, i, e);
            }
            if let Some(e) = int_literal_end(s, i) {
                lemma_subrange(t, s, o, i, e);
            }
        }
    }
}

proof fn lemma_list_m(t: Seq<char>, s: Seq<char>, o: int, i: int)
    requires
        embeds(t, s, o),
        0 <= i < s.len(),
    ensures
        parse_list(t, i + o) == moved(parse_list(s, i), o),
        parse_list(s, i) matches Some((_, k)) ==> i < k <= s.len(),
    decreases s.len() - i, 2int,
{
    assert(t[i + o] == s[i]);
    if s[i] == '[' {
        lemma_skip_gap_m(t, s, o, i + 1);
        assert(i + 1 + o == i + o + 1);
        let j = skip_gap(s, i + 1);
        if j < s.len() {
            lemma_list_items_m(t, s, o, j);
            let e = list_items(s, j).1;
            lemma_skip_gap_m(t, s, o, e);
            let m = skip_gap(s, e);
            if m < s.len() {
                assert(t[m + o] == s[m]);
                assert(m + 1 + o == m + o + 1);
            }
        } else {
            assert(parse_value(s, j) is None);
            assert(parse_value(t, t.len() as int) is None);
            lemma_skip_gap(t, t.len() as int);
        }
    }
}

proof fn lemma_list_items_m(t: Seq<char>, s: Seq<char>, o: int, j: int)
    requires
        embeds(t, s, o),
        0 <= j <= s.len(),
    ensures
        list_items(t, j + o) == (list_items(s, j).0, list_items(s, j).1 + o),
        j <= list_items(s, j).1 <= s.len(),
    decreases s.len() - j, 4int,
{
    lemma_value_m(t, s, o, j);
    if let Some((v, k)) = parse_value(s, j) {
        assert(j + o < k + o <= t.len());
        lemma_more_values_comma_m(t, s, o, k, seq![v]);
        lemma_more_values_nl_m(t, s, o, k, seq![v]);
    }
}

proof fn lemma_more_values_comma_m(t: Seq<char>, s: Seq<char>, o: int, i: int, acc: Seq<JValue>)
    requires
        embeds(t, s, o),
        0 <= i <= s.len(),
    ensures
        more_values_comma(t, i + o, acc) == (
            more_values_comma(s, i, acc).0,
            more_values_comma(s, i, acc).1 + o,
        ),
        i <= more_values_comma(s, i, acc).1 <= s.len(),
    decreases s.len() - i, 0int,
{
    lemma_comma_sep_m(t, s, o, i);
    if let Some(m) = comma_sep(s, i) {
        lemma_value_m(t, s, o, m);
        if let Some((v, k)) = parse_value(s, m) {
            assert(m + o < k + o <= t.len());
            lemma_more_values_comma_m(t, s, o, k, acc.push(v));
        }
    }
}

proof fn lemma_more_values_nl_m(t: Seq<char>, s: Seq<char>, o: int, i: int, acc: Seq<JValue>)
    requires
        embeds(t, s, o),
        0 <= i <= s.len(),
    ensures
        more_values_nl(t, i + o, acc) == (
            more_values_nl(s, i, acc).0,
            more_values_nl(s, i, acc).1 + o,
        ),
        i <= more_values_nl(s, i, acc).1 <= s.len(),
    decreases s.len() - i, 0int,
{
    lemma_newline_sep_m(t, s, o, i);
    assert(parse_value(t, t.len() as int) is None);
    if let Some(m) = newline_sep(s, i) {
        if m < s.len() {
            lemma_value_m(t, s, o, m);
            if let Some((v, k)) = parse_value(s, m) {
                assert(m + o < k + o <= t.len());
                lemma_more_values_nl_m(t, s, o, k, acc.push(v));
            }
        } else {
            assert(parse_value(s, m) is None);
        }
    }
}

proof fn lemma_object_m(t: Seq<char>, s: Seq<char>, o: int, i: int)
    requires
        embeds(t, s, o),
        0 <= i < s.len(),
    ensures
        parse_object(t, i + o) == moved(parse_object(s, i), o),
        parse_object(s, i) matches Some((_, k)) ==> i < k <= s.len(),
    decreases s.len() - i, 2int,
{
    assert(t[i + o] == s[i]);
    let mut b = i;
    if s[i] == '#' {
        lemma_skip_ws_m(t, s, o, i + 1);
        lemma_skip_ws(s, i + 1);
        assert(i + 1 + o == i + o + 1);
        let k = skip_ws(s, i + 1);
        lemma_key_end_m(t, s, o, k);
        if let Some(e) = key_end(s, k) {
            lemma_subrange(t, s, o, k, e);
            lemma_skip_ws_m(t, s, o, e);
            lemma_skip_ws(s, e);
            b = skip_ws(s, e);
        } else {
            return;
        }
    }
    lemma_at_end(t, s, o);
    if b < s.len() {
        assert(t[b + o] == s[b]);
    }
    if char_at(s, b, '{') {
        lemma_skip_gap_m(t, s, o, b + 1);
        assert(b + 1 + o == b + o + 1);
        let j = skip_gap(s, b + 1);
        if j < s.len() {
            lemma_def_items_m(t, s, o, j);
            let e = def_items(s, j).1;
            lemma_skip_gap_m(t, s, o, e);
            let m = skip_gap(s, e);
            if m < s.len() {
                assert(t[m + o] == s[m]);
                assert(m + 1 + o == m + o + 1);
            }
        } else {
            assert(parse_def(s, j) is None);
            assert(parse_def(t, t.len() as int) is None);
            lemma_skip_gap(t, t.len() as int);
        }
    }
}

proof fn lemma_def_items_m(t: Seq<char>, s: Seq<char>, o: int, j: int)
    requires
        embeds(t, s, o),
        0 <= j <= s.len(),
    ensures
        def_items(t, j + o) == (def_items(s, j).0, def_items(s, j).1 + o),
        j <= def_items(s, j).1 <= s.len(),
    decreases s.len() - j, 4int,
{
    lemma_def_m(t, s, o, j);
    if let Some((d, k)) = parse_def(s, j) {
        assert(j + o < k + o <= t.len());
        lemma_more_defs_comma_m(t, s, o, k, seq![d]);
        lemma_more_defs_nl_m(t, s, o, k, seq![d]);
    }
}

proof fn lemma_more_defs_comma_m(
    t: Seq<char>,
    s: Seq<char>,
    o: int,
    i: int,
    acc: Seq<(Seq<char>, JValue)>,
)
    requires
        embeds(t, s, o),
        0 <= i <= s.len(),
    ensures
        more_defs_comma(t, i + o, acc) == (
            more_defs_comma(s, i, acc).0,
            more_defs_comma(s, i, acc).1 + o,
        ),
        i <= more_defs_comma(s, i, acc).1 <= s.len(),
    decreases s.len() - i, 0int,
{
    lemma_comma_sep_m(t, s, o, i);
    if let Some(m) = comma_sep(s, i) {
        lemma_def_m(t, s, o, m);
        if let Some((d, k)) = parse_def(s, m) {
            assert(m + o < k + o <= t.len());
            lemma_more_defs_comma_m(t, s, o, k, acc.push(d));
        }
    }
}

proof fn lemma_more_defs_nl_m(
    t: Seq<char>,
    s: Seq<char>,
    o: int,
    i: int,
    acc: Seq<(Seq<char>, JValue)>,
)
    requires
        embeds(t, s, o),
        0 <= i <= s.len(),
    ensures
        more_defs_nl(t, i + o, acc) == (more_defs_nl(s, i, acc).0, more_defs_nl(s, i, acc).1 + o),
        i <= more_defs_nl(s, i, acc).1 <= s.len(),
    decreases s.len() - i, 0int,
{
    lemma_newline_sep_m(t, s, o, i);
    assert(parse_def(t, t.len() as int) is None);
    if let Some(m) = newline_sep(s, i) {
        if m < s.len() {
            lemma_def_m(t, s, o, m);
            if let Some((d, k)) = parse_def(s, m) {
                assert(m + o < k + o <= t.len());
                lemma_more_defs_nl_m(t, s, o, k, acc.push(d));
            }
        } else {
            assert(parse_def(s, m) is None);
        }
    }
}

proof fn lemma_def_m(t: Seq<char>, s: Seq<char>, o: int, i: int)
    requires
        embeds(t, s, o),
        0 <= i <= s.len(),
    ensures
        parse_def(t, i + o) == moved(parse_def(s, i), o),
        parse_def(s, i) matches Some((_, k)) ==> i < k <= s.len(),
    decreases s.len() - i, 3int,
{
    lemma_at_end(t, s, o);
    if i < s.len() {
        assert(t[i + o] == s[i]);
        if s[i] == '!' {
            lemma_skip_ws_m(t, s, o, i + 1);
            lemma_skip_ws(s, i + 1);
            assert(i + 1 + o == i + o + 1);
            let k = skip_ws(s, i + 1);
            lemma_key_end_m(t, s, o, k);
            if let Some(e) = key_end(s, k) {
                lemma_subrange(t, s, o, k, e);
            }
        } else {
            lemma_key_end_m(t, s, o, i);
            if let Some(e) = key_end(s, i) {
                lemma_subrange(t, s, o, i, e);
                lemma_skip_ws_m(t, s, o, e);
                lemma_skip_ws(s, e);
                let c = skip_ws(s, e);
                if c < s.len() {
                    assert(t[c + o] == s[c]);
                }
                if char_at(s, c, ':') {
                    lemma_skip_ws_m(t, s, o, c + 1);
                    lemma_skip_ws(s, c + 1);
                    assert(c + 1 + o == c + o + 1);
                    lemma_value_m(t, s, o, skip_ws(s, c + 1));
                }
            }
        }
    } else {
        assert(parse_def(s, i) is None);
    }
}


// ----------------------------------------------------------------------------
// Blank lines and comments before the document
// ----------------------------------------------------------------------------

proof fn lemma_comment_end_before_break(p: Seq<char>, y: int)
    requires
        0 <= y < p.len(),
        is_line_break(p[p.len() - 1]),
    ensures
        comment_end(p, y) < p.len(),
    decreases p.len() - y,
{
    if !is_line_break(p[y]) {
        lemma_comment_end_before_break(p, y + 1);
    }
}

proof fn lemma_prefix_comment_end(t: Seq<char>, p: Seq<char>, y: int)
    requires
        p.len() <= t.len(),
        forall|k: int| 0 <= k < p.len() ==> #[trigger] t[k] == p[k],
        0 <= y <= p.len(),
        comment_end(p, y) < p.len(),
    ensures
        comment_end(t, y) == comment_end(p, y),
    decreases p.len() - y,
{
    assert(t[y] == p[y]);
    if !is_line_break(p[y]) {
        lemma_prefix_comment_end(t, p, y + 1);
    }
}

proof fn lemma_prefix_gap(t: Seq<char>, p: Seq<char>, x: int)
    requires
        p.len() <= t.len(),
        forall|k: int| 0 <= k < p.len() ==> #[trigger] t[k] == p[k],
        0 <= x <= p.len(),
        skip_gap(p, x) == p.len(),
        p.len() > 0 ==> is_line_break(p[p.len() - 1]),
    ensures
        skip_gap(t, x) == skip_gap(t, p.len() as int),
    decreases p.len() - x,
{
    if x < p.len() {
        assert(t[x] == p[x]);
        if x + 1 < p.len() {
            assert(t[x + 1] == p[x + 1]);
        }
        if is_blank(p[x]) || is_line_break(p[x]) {
            lemma_prefix_gap(t, p, x + 1);
        } else if starts_comment(p, x) {
            lemma_comment_end_before_break(p, x + 2);
            lemma_prefix_comment_end(t, p, x + 2);
            lemma_comment_end(p, x + 2);
            lemma_prefix_gap(t, p, comment_end(p, x + 2));
        } else {
            assert(skip_gap(p, x) == x);
        }
    }
}

/// `g` is blanks, line breaks and line comments only.
pub open spec fn is_gap(g: Seq<char>) -> bool {
    skip_gap(g, 0) == g.len()
}

/// Blank lines and comment lines before a document, and blank lines and
/// comments after it (from a line break on, holding no `"`), do not change
/// what it reads as.
#[verifier::rlimit(40)]
pub proof fn law_blank_margins(p: Seq<char>, s: Seq<char>, q: Seq<char>)
    requires
        is_gap(p),
        p.len() > 0 ==> is_line_break(p[p.len() - 1]),
        is_gap(q),
        q.len() > 0 ==> is_line_break(q[0]),
        forall|k: int| 0 <= k < q.len() ==> q[k] != '"',
    ensures
        document_value(p + s + q) == document_value(s),
{
    let t = p + s + q;
    let o = p.len() as int;
    let u = p + s;
    assert forall|k: int| 0 <= k < s.len() implies #[trigger] t[k + o] == s[k] by {
        assert(t[k + o] == u[k + o]);
    }
    assert forall|k: int| o + s.len() <= k < t.len() implies #[trigger] t[k] != '"' by {
        assert(t[k] == q[k - u.len()]);
    }
    if o + s.len() < t.len() {
        assert(t[o + s.len()] == q[0]);
    }
    // the part of `t` after `s` is `q`, which is a gap
    assert(embeds(t, q, u.len() as int)) by {
        assert forall|k: int| 0 <= k < q.len() implies #[trigger] t[k + u.len()] == q[k] by {
        }
        lemma_skip_gap(t, t.len() as int);
    }
    lemma_skip_gap_m(t, q, u.len() as int, 0);
    assert(embeds(t, s, o));
    // the part of `t` before `s` is `p`, which is a gap
    assert forall|k: int| 0 <= k < p.len() implies #[trigger] t[k] == p[k] by {
        assert(t[k] == u[k]);
    }
    lemma_prefix_gap(t, p, 0);
    lemma_skip_gap_m(t, s, o, 0);
    let i = skip_gap(s, 0);
    lemma_skip_gap(t, t.len() as int);
    if i < s.len() {
        lemma_value_m(t, s, o, i);
        if let Some((v, k)) = parse_value(s, i) {
            lemma_more_values_nl_m(t, s, o, k, seq![v]);
        }
        let e = root_values(s, i).1;
        assert(root_values(t, i + o) == (root_values(s, i).0, e + o));
        assert(i <= e <= s.len()) by {
            if let Some((v, k)) = parse_value(s, i) {
                lemma_more_values_nl_m(t, s, o, k, seq![v]);
            }
        }
        lemma_skip_gap_m(t, s, o, e);
        lemma_def_m(t, s, o, i);
        if let Some((d, k)) = parse_def(s, i) {
            lemma_more_defs_nl_m(t, s, o, k, seq![d]);
            let e2 = more_defs_nl(s, k, seq![d]).1;
            lemma_skip_gap_m(t, s, o, e2);
        }
    } else {
        assert(parse_value(s, i) is None);
        assert(parse_value(t, t.len() as int) is None);
    }
}

} // verus!
