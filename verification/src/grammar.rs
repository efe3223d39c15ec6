//! The Junk grammar, as a parsing expression grammar over the characters of the input.
//!
//! Each function reads `s` from position `i` and says what is found there and
//! where it ends. Alternatives are tried in order and the first that matches
//! is taken; repetitions are greedy.
//!
//! - Blanks (space, tab) and line comments (`//` to the end of the line) may
//!   stand between any two tokens; line breaks (`\n`, `\r\n`, `\r`) separate
//!   the items of a document, and of a newline-separated list or object.
//! - A document is a newline-separated sequence of values (a list, tried
//!   first) or of definitions (an object), with blank lines, comments and
//!   surrounding blanks allowed.
//! - A value is an object (`#id { .. }` or `{ .. }`), a list (`[ .. ]`), a
//!   float (`-1.5`), an integer (`-7`), `true`, `false`, or a string (`"..."`).
//! - The items of a list, and the definitions of an object, are either
//!   comma-separated (at least two) or newline-separated; line breaks may
//!   follow the opening and precede the closing bracket.
//! - A definition is `key: value`, `!key` (false) or `key` (true); a key is a
//!   run of ASCII letters, digits, `.`, `-` and `_`.
//!
//! Conditions such as `j < k <= s.len()` on where an item ends always hold
//! (every item reads at least one character); they bound the recursion.
use vstd::prelude::*;
use crate::model::{JValue, escape_target, unescaped, bool_text, int_literal_value, ints_fit};

verus! {

// ----------------------------------------------------------------------------
// Character classes
// ----------------------------------------------------------------------------

/// Space or tab.
pub open spec fn is_blank(c: char) -> bool {
    c == ' ' || c == '\t'
}

/// A character that starts a line break.
pub open spec fn is_line_break(c: char) -> bool {
    c == '\n' || c == '\r'
}

/// An ASCII decimal digit.
pub open spec fn is_digit(c: char) -> bool {
    '0' <= c && c <= '9'
}

/// An ASCII decimal digit other than `0`.
pub open spec fn is_nonzero_digit(c: char) -> bool {
    '1' <= c && c <= '9'
}

/// A character that may stand in a key: an ASCII letter or digit, `.`, `-` or `_`.
pub open spec fn is_key_char(c: char) -> bool {
    ('a' <= c && c <= 'z') || ('A' <= c && c <= 'Z') || is_digit(c) || c == '.' || c == '-'
        || c == '_'
}

/// `s` holds character `c` at position `i`.
pub open spec fn char_at(s: Seq<char>, i: int, c: char) -> bool {
    0 <= i < s.len() && s[i] == c
}

// ----------------------------------------------------------------------------
// Blanks, comments, line breaks
// ----------------------------------------------------------------------------

/// The end of a comment body that starts at `i`: the first line break at or after `i`, or the end.
pub open spec fn comment_end(s: Seq<char>, i: int) -> int
    decreases s.len() - i,
{
    if 0 <= i < s.len() && !is_line_break(s[i]) {
        comment_end(s, i + 1)
    } else {
        i
    }
}

/// A line comment starts at `i`.
pub open spec fn starts_comment(s: Seq<char>, i: int) -> bool {
    char_at(s, i, '/') && char_at(s, i + 1, '/')
}

/// The end of the blanks and the line comment that may follow `i`; never past a line break.
pub open spec fn skip_ws(s: Seq<char>, i: int) -> int
    decreases s.len() - i,
{
    if 0 <= i < s.len() && is_blank(s[i]) {
        skip_ws(s, i + 1)
    } else if starts_comment(s, i) {
        comment_end(s, i + 2)
    } else {
        i
    }
}

/// The end of the blanks, comments and line breaks that follow `i`.
pub open spec fn skip_gap(s: Seq<char>, i: int) -> int
    decreases s.len() - i,
{
    if 0 <= i < s.len() && (is_blank(s[i]) || is_line_break(s[i])) {
        skip_gap(s, i + 1)
    } else if starts_comment(s, i) {
        proof {
            lemma_comment_end(s, i + 2);
        }
        skip_gap(s, comment_end(s, i + 2))
    } else {
        i
    }
}

/// A newline separator at `i`: blanks or a comment, a line break, then any gap.
/// Gives the position after it.
pub open spec fn newline_sep(s: Seq<char>, i: int) -> Option<int> {
    let j = skip_ws(s, i);
    if 0 <= j < s.len() && is_line_break(s[j]) {
        Some(skip_gap(s, j))
    } else {
        None
    }
}

/// A comma separator at `i`, with blanks or comments around the comma (no line break).
pub open spec fn comma_sep(s: Seq<char>, i: int) -> Option<int> {
    let j = skip_ws(s, i);
    if char_at(s, j, ',') {
        Some(skip_ws(s, j + 1))
    } else {
        None
    }
}

pub proof fn lemma_comment_end(s: Seq<char>, i: int)
    requires
        0 <= i,
    ensures
        i <= comment_end(s, i),
        i <= s.len() ==> comment_end(s, i) <= s.len(),
    decreases s.len() - i,
{
    if 0 <= i < s.len() && !is_line_break(s[i]) {
        lemma_comment_end(s, i + 1);
    }
}

pub proof fn lemma_skip_ws(s: Seq<char>, i: int)
    requires
        0 <= i,
    ensures
        i <= skip_ws(s, i),
        i <= s.len() ==> skip_ws(s, i) <= s.len(),
    decreases s.len() - i,
{
    if 0 <= i < s.len() && is_blank(s[i]) {
        lemma_skip_ws(s, i + 1);
    } else if starts_comment(s, i) {
        lemma_comment_end(s, i + 2);
    }
}

pub proof fn lemma_skip_gap(s: Seq<char>, i: int)
    requires
        0 <= i,
    ensures
        i <= skip_gap(s, i),
        i <= s.len() ==> skip_gap(s, i) <= s.len(),
    decreases s.len() - i,
{
    if 0 <= i < s.len() && (is_blank(s[i]) || is_line_break(s[i])) {
        lemma_skip_gap(s, i + 1);
    } else if starts_comment(s, i) {
        lemma_comment_end(s, i + 2);
        lemma_skip_gap(s, comment_end(s, i + 2));
    }
}

pub proof fn lemma_newline_sep(s: Seq<char>, i: int)
    requires
        0 <= i <= s.len(),
    ensures
        newline_sep(s, i) matches Some(m) ==> i < m <= s.len(),
{
    lemma_skip_ws(s, i);
    let j = skip_ws(s, i);
    if 0 <= j < s.len() && is_line_break(s[j]) {
        lemma_skip_gap(s, j);
        assert(skip_gap(s, j) == skip_gap(s, j + 1));
        lemma_skip_gap(s, j + 1);
    }
}

pub proof fn lemma_comma_sep(s: Seq<char>, i: int)
    requires
        0 <= i <= s.len(),
    ensures
        comma_sep(s, i) matches Some(m) ==> i < m <= s.len(),
{
    lemma_skip_ws(s, i);
    let j = skip_ws(s, i);
    if char_at(s, j, ',') {
        lemma_skip_ws(s, j + 1);
    }
}

// ----------------------------------------------------------------------------
// Keys and literals
// ----------------------------------------------------------------------------

/// The end of the run of key characters from `i`.
pub open spec fn key_run_end(s: Seq<char>, i: int) -> int
    decreases s.len() - i,
{
    if 0 <= i < s.len() && is_key_char(s[i]) {
        key_run_end(s, i + 1)
    } else {
        i
    }
}

/// A key at `i` (at least one key character); gives its end.
pub open spec fn key_end(s: Seq<char>, i: int) -> Option<int> {
    if 0 <= i < s.len() && is_key_char(s[i]) {
        Some(key_run_end(s, i + 1))
    } else {
        None
    }
}

/// The end of the run of digits from `i`.
pub open spec fn digit_run_end(s: Seq<char>, i: int) -> int
    decreases s.len() - i,
{
    if 0 <= i < s.len() && is_digit(s[i]) {
        digit_run_end(s, i + 1)
    } else {
        i
    }
}

/// An integer literal at `i`: an optional `-`, then `0` or a nonzero digit and
/// more digits (no leading zeros). Gives its end.
pub open spec fn int_literal_end(s: Seq<char>, i: int) -> Option<int> {
    let j = if char_at(s, i, '-') {
        i + 1
    } else {
        i
    };
    if char_at(s, j, '0') {
        Some(j + 1)
    } else if 0 <= j < s.len() && is_nonzero_digit(s[j]) {
        Some(digit_run_end(s, j + 1))
    } else {
        None
    }
}

/// A float literal at `i`: an integer literal, `.`, and at least one digit. Gives its end.
pub open spec fn float_literal_end(s: Seq<char>, i: int) -> Option<int> {
    match int_literal_end(s, i) {
        Some(j) => if char_at(s, j, '.') && 0 <= j + 1 < s.len() && is_digit(s[j + 1]) {
            Some(digit_run_end(s, j + 2))
        } else {
            None
        },
        None => None,
    }
}

/// `lit` is exactly an integer literal.
pub open spec fn is_int_literal(lit: Seq<char>) -> bool {
    int_literal_end(lit, 0) == Some(lit.len() as int)
}

/// `lit` is exactly a float literal.
pub open spec fn is_float_literal(lit: Seq<char>) -> bool {
    float_literal_end(lit, 0) == Some(lit.len() as int)
}

/// `s` holds the characters of `w` from position `i`.
pub open spec fn word_at(s: Seq<char>, i: int, w: Seq<char>) -> bool {
    0 <= i && i + w.len() <= s.len() && s.subrange(i, i + w.len()) == w
}

/// The closing quote of a string body that starts at `i`, if every backslash
/// before it starts a valid escape sequence.
pub open spec fn string_body_end(s: Seq<char>, i: int) -> Option<int>
    decreases s.len() - i,
{
    if !(0 <= i < s.len()) {
        None
    } else if s[i] == '"' {
        Some(i)
    } else if s[i] == '\\' {
        if 0 <= i + 1 < s.len() && escape_target(s[i + 1]) is Some {
            string_body_end(s, i + 2)
        } else {
            None
        }
    } else {
        string_body_end(s, i + 1)
    }
}

// ----------------------------------------------------------------------------
// Values and definitions
// ----------------------------------------------------------------------------

/// A value at `i`, and where it ends.
pub open spec fn parse_value(s: Seq<char>, i: int) -> Option<(JValue, int)>
    decreases s.len() - i, 3int,
{
    if !(0 <= i < s.len()) {
        None
    } else if s[i] == '#' || s[i] == '{' {
        parse_object(s, i)
    } else if s[i] == '[' {
        parse_list(s, i)
    } else if s[i] == '"' {
        match string_body_end(s, i + 1) {
            Some(e) => Some((JValue::Str(unescaped(s.subrange(i + 1, e))), e + 1)),
            None => None,
        }
    } else if word_at(s, i, bool_text(true)) {
        Some((JValue::Bool(true), i + 4))
    } else if word_at(s, i, bool_text(false)) {
        Some((JValue::Bool(false), i + 5))
    } else {
        match float_literal_end(s, i) {
            Some(e) => Some((JValue::Float(s.subrange(i, e)), e)),
            None => match int_literal_end(s, i) {
                Some(e) => Some((JValue::Int(int_literal_value(s.subrange(i, e))), e)),
                None => None,
            },
        }
    }
}

/// A list at `i`: `[`, its items, `]`.
pub open spec fn parse_list(s: Seq<char>, i: int) -> Option<(JValue, int)>
    decreases s.len() - i, 2int,
{
    if !char_at(s, i, '[') {
        None
    } else {
        proof {
            lemma_skip_gap(s, i + 1);
        }
        let j = skip_gap(s, i + 1);
        let (vs, e) = list_items(s, j);
        let m = skip_gap(s, e);
        if char_at(s, m, ']') {
            Some((JValue::List(vs), m + 1))
        } else {
            None
        }
    }
}

/// The items of a list from `j`: comma-separated if there are at least two so,
/// else newline-separated; none if no value stands at `j`. Gives where they end.
pub open spec fn list_items(s: Seq<char>, j: int) -> (Seq<JValue>, int)
    decreases s.len() - j, 4int,
{
    match parse_value(s, j) {
        Some((v, k)) => if j < k <= s.len() {
            let (cs, ce) = more_values_comma(s, k, seq![v]);
            if cs.len() > 1 {
                (cs, ce)
            } else {
                more_values_nl(s, k, seq![v])
            }
        } else {
            (Seq::empty(), j)
        },
        None => (Seq::empty(), j),
    }
}

/// Greedily more values after `i`, each after a comma separator; appended to `acc`.
pub open spec fn more_values_comma(s: Seq<char>, i: int, acc: Seq<JValue>) -> (Seq<JValue>, int)
    decreases s.len() - i, 0int,
{
    if !(0 <= i <= s.len()) {
        (acc, i)
    } else {
        match comma_sep(s, i) {
            Some(m) => {
                proof {
                    lemma_comma_sep(s, i);
                }
                match parse_value(s, m) {
                    Some((v, k)) => if m < k <= s.len() {
                        more_values_comma(s, k, acc.push(v))
                    } else {
                        (acc, i)
                    },
                    None => (acc, i),
                }
            },
            None => (acc, i),
        }
    }
}

/// Greedily more values after `i`, each after a newline separator; appended to `acc`.
pub open spec fn more_values_nl(s: Seq<char>, i: int, acc: Seq<JValue>) -> (Seq<JValue>, int)
    decreases s.len() - i, 0int,
{
    if !(0 <= i <= s.len()) {
        (acc, i)
    } else {
        match newline_sep(s, i) {
            Some(m) => {
                proof {
                    lemma_newline_sep(s, i);
                }
                match parse_value(s, m) {
                    Some((v, k)) => if m < k <= s.len() {
                        more_values_nl(s, k, acc.push(v))
                    } else {
                        (acc, i)
                    },
                    None => (acc, i),
                }
            },
            None => (acc, i),
        }
    }
}

/// The `"id"` definition that an object's `#id` stands for.
pub open spec fn id_member(id: Seq<char>) -> (Seq<char>, JValue) {
    (seq!['i', 'd'], JValue::Str(id))
}

/// An object at `i`: an optional `#id`, `{`, its definitions, `}`.
pub open spec fn parse_object(s: Seq<char>, i: int) -> Option<(JValue, int)>
    decreases s.len() - i, 2int,
{
    if !(0 <= i < s.len()) {
        None
    } else {
        // the optional `#id`, then the position of `{`
        let head: Option<(Seq<(Seq<char>, JValue)>, int)> = if s[i] == '#' {
            let k = skip_ws(s, i + 1);
            match key_end(s, k) {
                Some(e) => Some((seq![id_member(s.subrange(k, e))], skip_ws(s, e))),
                None => None,
            }
        } else {
            Some((Seq::empty(), i))
        };
        match head {
            Some((id, b)) => if char_at(s, b, '{') && i <= b {
                proof {
                    lemma_skip_gap(s, b + 1);
                }
                let j = skip_gap(s, b + 1);
                let (ds, e) = def_items(s, j);
                let m = skip_gap(s, e);
                if char_at(s, m, '}') {
                    Some((JValue::Object(id + ds), m + 1))
                } else {
                    None
                }
            } else {
                None
            },
            None => None,
        }
    }
}

/// The definitions of an object from `j`: comma-separated if there are at least
/// two so, else newline-separated; none if no definition stands at `j`.
pub open spec fn def_items(s: Seq<char>, j: int) -> (Seq<(Seq<char>, JValue)>, int)
    decreases s.len() - j, 4int,
{
    match parse_def(s, j) {
        Some((d, k)) => if j < k <= s.len() {
            let (cs, ce) = more_defs_comma(s, k, seq![d]);
            if cs.len() > 1 {
                (cs, ce)
            } else {
                more_defs_nl(s, k, seq![d])
            }
        } else {
            (Seq::empty(), j)
        },
        None => (Seq::empty(), j),
    }
}

/// Greedily more definitions after `i`, each after a comma separator; appended to `acc`.
pub open spec fn more_defs_comma(s: Seq<char>, i: int, acc: Seq<(Seq<char>, JValue)>) -> (Seq<
    (Seq<char>, JValue),
>, int)
    decreases s.len() - i, 0int,
{
    if !(0 <= i <= s.len()) {
        (acc, i)
    } else {
        match comma_sep(s, i) {
            Some(m) => {
                proof {
                    lemma_comma_sep(s, i);
                }
                match parse_def(s, m) {
                    Some((d, k)) => if m < k <= s.len() {
                        more_defs_comma(s, k, acc.push(d))
                    } else {
                        (acc, i)
                    },
                    None => (acc, i),
                }
            },
            None => (acc, i),
        }
    }
}

/// Greedily more definitions after `i`, each after a newline separator; appended to `acc`.
pub open spec fn more_defs_nl(s: Seq<char>, i: int, acc: Seq<(Seq<char>, JValue)>) -> (Seq<
    (Seq<char>, JValue),
>, int)
    decreases s.len() - i, 0int,
{
    if !(0 <= i <= s.len()) {
        (acc, i)
    } else {
        match newline_sep(s, i) {
            Some(m) => {
                proof {
                    lemma_newline_sep(s, i);
                }
                match parse_def(s, m) {
                    Some((d, k)) => if m < k <= s.len() {
                        more_defs_nl(s, k, acc.push(d))
                    } else {
                        (acc, i)
                    },
                    None => (acc, i),
                }
            },
            None => (acc, i),
        }
    }
}

/// A definition at `i`: `key: value`, else `!key` (false), else `key` (true).
pub open spec fn parse_def(s: Seq<char>, i: int) -> Option<((Seq<char>, JValue), int)>
    decreases s.len() - i, 3int,
{
    if !(0 <= i < s.len()) {
        None
    } else if s[i] == '!' {
        let k = skip_ws(s, i + 1);
        match key_end(s, k) {
            Some(e) => Some(((s.subrange(k, e), JValue::Bool(false)), e)),
            None => None,
        }
    } else {
        match key_end(s, i) {
            Some(e) => {
                let key = s.subrange(i, e);
                let c = skip_ws(s, e);
                let value = if char_at(s, c, ':') && i < c {
                    proof {
                        lemma_skip_ws(s, c + 1);
                    }
                    match parse_value(s, skip_ws(s, c + 1)) {
                        Some((v, k)) => Some((v, k)),
                        None => None,
                    }
                } else {
                    None
                };
                match value {
                    Some((v, k)) => Some(((key, v), k)),
                    None => Some(((key, JValue::Bool(true)), e)),
                }
            },
            None => None,
        }
    }
}

// ----------------------------------------------------------------------------
// Documents
// ----------------------------------------------------------------------------

/// The values of a document from `i`, newline-separated (possibly none).
pub open spec fn root_values(s: Seq<char>, i: int) -> (Seq<JValue>, int) {
    match parse_value(s, i) {
        Some((v, k)) => if i < k <= s.len() {
            more_values_nl(s, k, seq![v])
        } else {
            (Seq::empty(), i)
        },
        None => (Seq::empty(), i),
    }
}

/// The definitions of a document from `i`, newline-separated (at least one).
pub open spec fn root_defs(s: Seq<char>, i: int) -> Option<(Seq<(Seq<char>, JValue)>, int)> {
    match parse_def(s, i) {
        Some((d, k)) => if i < k <= s.len() {
            Some(more_defs_nl(s, k, seq![d]))
        } else {
            None
        },
        None => None,
    }
}

/// The value that a whole document stands for: a list of its values if the
/// document is a sequence of values, else an object of its definitions if it is
/// a sequence of definitions; `None` if it is neither.
pub open spec fn document_value(s: Seq<char>) -> Option<JValue> {
    let i = skip_gap(s, 0);
    let (vs, e) = root_values(s, i);
    if skip_gap(s, e) == s.len() {
        Some(JValue::List(vs))
    } else {
        match root_defs(s, i) {
            Some((ds, e2)) => if skip_gap(s, e2) == s.len() {
                Some(JValue::Object(ds))
            } else {
                None
            },
            None => None,
        }
    }
}

/// Where reading stops in an input that is not a document: the furthest point
/// to which its start reads as a sequence of values or of definitions.
pub open spec fn stop_offset(s: Seq<char>) -> int {
    let i = skip_gap(s, 0);
    let e1 = skip_gap(s, root_values(s, i).1);
    let e2 = match root_defs(s, i) {
        Some((_, e)) => skip_gap(s, e),
        None => i,
    };
    if e1 >= e2 {
        e1
    } else {
        e2
    }
}

/// The number of line feeds in `t`.
pub open spec fn line_feeds(t: Seq<char>) -> nat
    decreases t.len(),
{
    if t.len() == 0 {
        0
    } else {
        line_feeds(t.drop_last()) + if t.last() == '\n' {
            1nat
        } else {
            0nat
        }
    }
}

/// The start of the line that holds position `off`: just after the last line feed before it.
pub open spec fn line_start(s: Seq<char>, off: int) -> int
    decreases off,
{
    if off <= 0 {
        0
    } else if s[off - 1] == '\n' {
        off
    } else {
        line_start(s, off - 1)
    }
}

/// The line of position `off`, counted from 0: the line feeds before it.
pub open spec fn line_of(s: Seq<char>, off: int) -> int {
    line_feeds(s.take(off)) as int
}

/// The column of position `off`, counted from 0: the characters between the
/// start of its line and it.
pub open spec fn column_of(s: Seq<char>, off: int) -> int {
    off - line_start(s, off)
}

/// If the input is a document, every integer in it fits a signed 64-bit integer.
pub open spec fn document_ints_fit(s: Seq<char>) -> bool {
    match document_value(s) {
        Some(v) => ints_fit(v),
        None => true,
    }
}


// ----------------------------------------------------------------------------
// Facts about the grammar used by the parser
// ----------------------------------------------------------------------------

/// The comma-separated repetition only appends to what it was given.
pub proof fn lemma_more_values_comma_extends(s: Seq<char>, i: int, acc: Seq<JValue>)
    ensures
        more_values_comma(s, i, acc).0.len() >= acc.len(),
        more_values_comma(s, i, acc).0.len() == acc.len() ==> more_values_comma(s, i, acc).0
            == acc,
    decreases s.len() - i,
{
    if 0 <= i <= s.len() {
        if let Some(m) = comma_sep(s, i) {
            lemma_comma_sep(s, i);
            if let Some((v, k)) = parse_value(s, m) {
                if m < k <= s.len() {
                    lemma_more_values_comma_extends(s, k, acc.push(v));
                }
            }
        }
    }
}

/// The comma-separated repetition only appends to what it was given.
pub proof fn lemma_more_defs_comma_extends(s: Seq<char>, i: int, acc: Seq<(Seq<char>, JValue)>)
    ensures
        more_defs_comma(s, i, acc).0.len() >= acc.len(),
        more_defs_comma(s, i, acc).0.len() == acc.len() ==> more_defs_comma(s, i, acc).0 == acc,
    decreases s.len() - i,
{
    if 0 <= i <= s.len() {
        if let Some(m) = comma_sep(s, i) {
            lemma_comma_sep(s, i);
            if let Some((d, k)) = parse_def(s, m) {
                if m < k <= s.len() {
                    lemma_more_defs_comma_extends(s, k, acc.push(d));
                }
            }
        }
    }
}

/// A digit run read within `s[i..e]` ends where it ends in `s`, if it ends by `e`.
pub proof fn lemma_digit_run_shift(s: Seq<char>, i: int, e: int, j: int)
    requires
        0 <= i <= j <= digit_run_end(s, j) <= e <= s.len(),
    ensures
        digit_run_end(s.subrange(i, e), j - i) == digit_run_end(s, j) - i,
    decreases s.len() - j,
{
    let r = digit_run_end(s, j);
    let t = s.subrange(i, e);
    if j < e {
        assert(t[j - i] == s[j]);
    }
    if j < r {
        assert(is_digit(s[j]));
        assert(digit_run_end(s, j) == digit_run_end(s, j + 1));
        lemma_digit_run_shift(s, i, e, j + 1);
        assert(digit_run_end(t, j - i) == digit_run_end(t, j - i + 1));
    } else {
        if j < s.len() {
            lemma_digit_run_bounds(s, j + 1);
        }
    }
}

pub proof fn lemma_digit_run_bounds(s: Seq<char>, j: int)
    requires
        0 <= j <= s.len(),
    ensures
        j <= digit_run_end(s, j) <= s.len(),
    decreases s.len() - j,
{
    if j < s.len() && is_digit(s[j]) {
        lemma_digit_run_bounds(s, j + 1);
    }
}

/// A digit run that reaches the end of `s` holds only digits.
pub proof fn lemma_run_all_digits(s: Seq<char>, j: int)
    requires
        0 <= j <= s.len(),
        digit_run_end(s, j) == s.len(),
    ensures
        forall|k: int| j <= k < s.len() ==> is_digit(#[trigger] s[k]),
    decreases s.len() - j,
{
    if j < s.len() {
        lemma_run_all_digits(s, j + 1);
    }
}

/// An integer literal found in `s` is, alone, an integer literal.
pub proof fn lemma_int_literal_alone(s: Seq<char>, i: int)
    requires
        0 <= i <= s.len(),
        int_literal_end(s, i) is Some,
    ensures
        is_int_literal(s.subrange(i, int_literal_end(s, i)->0)),
        i < int_literal_end(s, i)->0 <= s.len(),
{
    let e = int_literal_end(s, i)->0;
    let j = if char_at(s, i, '-') { i + 1 } else { i };
    if !char_at(s, j, '0') {
        lemma_digit_run_bounds(s, j + 1);
        lemma_digit_run_shift(s, i, e, j + 1);
    }
}

/// A float literal found in `s` is, alone, a float literal.
pub proof fn lemma_float_literal_alone(s: Seq<char>, i: int)
    requires
        0 <= i <= s.len(),
        float_literal_end(s, i) is Some,
    ensures
        is_float_literal(s.subrange(i, float_literal_end(s, i)->0)),
        i < float_literal_end(s, i)->0 <= s.len(),
{
    let j = int_literal_end(s, i)->0;
    let e = float_literal_end(s, i)->0;
    assert(e == digit_run_end(s, j + 2));
    lemma_int_literal_alone(s, i);
    lemma_digit_run_bounds(s, j + 2);
    lemma_digit_run_shift(s, i, e, j + 2);
    let k = if char_at(s, i, '-') { i + 1 } else { i };
    if !char_at(s, k, '0') {
        lemma_digit_run_bounds(s, k + 1);
        lemma_digit_run_shift(s, i, e, k + 1);
    }
}

} // verus!
