//! Scanning of blanks, comments, separators, keys and literals.
use vstd::prelude::*;
use crate::model::escape_target;
use crate::grammar::{
    is_blank, is_line_break, is_digit, is_nonzero_digit, is_key_char, char_at, comment_end,
    skip_ws, skip_gap, newline_sep, comma_sep, key_run_end, key_end, digit_run_end,
    int_literal_end, float_literal_end, word_at, string_body_end,
};

verus! {

pub(crate) fn blank(c: char) -> (b: bool)
    ensures
        b == is_blank(c),
{
    c == ' ' || c == '\t'
}

pub(crate) fn line_break(c: char) -> (b: bool)
    ensures
        b == is_line_break(c),
{
    c == '\n' || c == '\r'
}

pub(crate) fn digit(c: char) -> (b: bool)
    ensures
        b == is_digit(c),
{
    '0' <= c && c <= '9'
}

pub(crate) fn nonzero_digit(c: char) -> (b: bool)
    ensures
        b == is_nonzero_digit(c),
{
    '1' <= c && c <= '9'
}

pub(crate) fn key_char(c: char) -> (b: bool)
    ensures
        b == is_key_char(c),
{
    ('a' <= c && c <= 'z') || ('A' <= c && c <= 'Z') || ('0' <= c && c <= '9') || c == '.' || c
        == '-' || c == '_'
}

/// Whether `s` holds `c` at `i`.
pub(crate) fn at(s: &Vec<char>, i: usize, c: char) -> (b: bool)
    ensures
        b == char_at(s@, i as int, c),
{
    i < s.len() && s[i] == c
}

pub(crate) fn escape_letter(c: char) -> (r: Option<char>)
    ensures
        r == escape_target(c),
{
    if c == '"' {
        Some('"')
    } else if c == '\\' {
        Some('\\')
    } else if c == 'n' {
        Some('\n')
    } else if c == 'r' {
        Some('\r')
    } else if c == 't' {
        Some('\t')
    } else {
        None
    }
}

pub(crate) fn scan_comment_end(s: &Vec<char>, i: usize) -> (r: usize)
    requires
        i <= s.len(),
    ensures
        r == comment_end(s@, i as int),
        i <= r <= s.len(),
{
    let mut j = i;
    while j < s.len() && !line_break(s[j])
        invariant
            i <= j <= s.len(),
            comment_end(s@, j as int) == comment_end(s@, i as int),
        decreases s.len() - j,
    {
        j += 1;
    }
    j
}

pub(crate) fn scan_ws(s: &Vec<char>, i: usize) -> (r: usize)
    requires
        i <= s.len(),
    ensures
        r == skip_ws(s@, i as int),
        i <= r <= s.len(),
{
    let mut j = i;
    while j < s.len() && blank(s[j])
        invariant
            i <= j <= s.len(),
            skip_ws(s@, j as int) == skip_ws(s@, i as int),
        decreases s.len() - j,
    {
        j += 1;
    }
    if at(s, j, '/') && at(s, j + 1, '/') {
        scan_comment_end(s, j + 2)
    } else {
        j
    }
}

pub(crate) fn scan_gap(s: &Vec<char>, i: usize) -> (r: usize)
    requires
        i <= s.len(),
    ensures
        r == skip_gap(s@, i as int),
        i <= r <= s.len(),
{
    let mut j = i;
    loop
        invariant
            i <= j <= s.len(),
            skip_gap(s@, j as int) == skip_gap(s@, i as int),
        decreases s.len() - j,
    {
        if j < s.len() && (blank(s[j]) || line_break(s[j])) {
            j += 1;
        } else if at(s, j, '/') && at(s, j + 1, '/') {
            j = scan_comment_end(s, j + 2);
        } else {
            return j;
        }
    }
}

pub(crate) fn scan_newline_sep(s: &Vec<char>, i: usize) -> (r: Option<usize>)
    requires
        i <= s.len(),
    ensures
        r matches Some(m) ==> newline_sep(s@, i as int) == Some(m as int),
        r is None ==> newline_sep(s@, i as int) is None,
        r matches Some(m) ==> i < m <= s.len(),
{
    let j = scan_ws(s, i);
    if j < s.len() && line_break(s[j]) {
        let m = scan_gap(s, j);
        proof {
            crate::grammar::lemma_newline_sep(s@, i as int);
        }
        Some(m)
    } else {
        None
    }
}

pub(crate) fn scan_comma_sep(s: &Vec<char>, i: usize) -> (r: Option<usize>)
    requires
        i <= s.len(),
    ensures
        r matches Some(m) ==> comma_sep(s@, i as int) == Some(m as int),
        r is None ==> comma_sep(s@, i as int) is None,
        r matches Some(m) ==> i < m <= s.len(),
{
    let j = scan_ws(s, i);
    if at(s, j, ',') {
        Some(scan_ws(s, j + 1))
    } else {
        None
    }
}

pub(crate) fn scan_key(s: &Vec<char>, i: usize) -> (r: Option<usize>)
    requires
        i <= s.len(),
    ensures
        r matches Some(e) ==> key_end(s@, i as int) == Some(e as int),
        r is None ==> key_end(s@, i as int) is None,
        r matches Some(e) ==> i < e <= s.len(),
{
    if i < s.len() && key_char(s[i]) {
        let mut j = i + 1;
        while j < s.len() && key_char(s[j])
            invariant
                i < j <= s.len(),
                key_run_end(s@, j as int) == key_run_end(s@, i + 1),
            decreases s.len() - j,
        {
            j += 1;
        }
        Some(j)
    } else {
        None
    }
}

pub(crate) fn scan_digits(s: &Vec<char>, i: usize) -> (r: usize)
    requires
        i <= s.len(),
    ensures
        r == digit_run_end(s@, i as int),
        i <= r <= s.len(),
{
    let mut j = i;
    while j < s.len() && digit(s[j])
        invariant
            i <= j <= s.len(),
            digit_run_end(s@, j as int) == digit_run_end(s@, i as int),
        decreases s.len() - j,
    {
        j += 1;
    }
    j
}

pub(crate) fn scan_int_literal(s: &Vec<char>, i: usize) -> (r: Option<usize>)
    requires
        i <= s.len(),
    ensures
        r matches Some(e) ==> int_literal_end(s@, i as int) == Some(e as int),
        r is None ==> int_literal_end(s@, i as int) is None,
        r matches Some(e) ==> i < e <= s.len(),
{
    let j = if at(s, i, '-') {
        i + 1
    } else {
        i
    };
    if at(s, j, '0') {
        Some(j + 1)
    } else if j < s.len() && nonzero_digit(s[j]) {
        Some(scan_digits(s, j + 1))
    } else {
        None
    }
}

pub(crate) fn scan_float_literal(s: &Vec<char>, i: usize) -> (r: Option<usize>)
    requires
        i <= s.len(),
    ensures
        r matches Some(e) ==> float_literal_end(s@, i as int) == Some(e as int),
        r is None ==> float_literal_end(s@, i as int) is None,
        r matches Some(e) ==> i < e <= s.len(),
{
    match scan_int_literal(s, i) {
        Some(j) => if at(s, j, '.') && j + 1 < s.len() && digit(s[j + 1]) {
            Some(scan_digits(s, j + 2))
        } else {
            None
        },
        None => None,
    }
}

/// Whether `s` holds the characters of `w` from `i`.
pub(crate) fn scan_word(s: &Vec<char>, i: usize, w: &[char]) -> (b: bool)
    requires
        i <= s.len(),
    ensures
        b == word_at(s@, i as int, w@),
{
    if w.len() > s.len() - i {
        return false;
    }
    let mut k: usize = 0;
    while k < w.len()
        invariant
            k <= w.len(),
            i + w.len() <= s.len(),
            s@.subrange(i as int, i + k) == w@.take(k as int),
        decreases w.len() - k,
    {
        if s[i + k] != w[k] {
            assert(s@.subrange(i as int, i + w.len())[k as int] != w@[k as int]);
            return false;
        }
        k += 1;
        assert(s@.subrange(i as int, i + k) =~= w@.take(k as int));
    }
    assert(w@.take(k as int) =~= w@);
    true
}

pub(crate) fn scan_string_body(s: &Vec<char>, i: usize) -> (r: Option<usize>)
    requires
        i <= s.len(),
    ensures
        r matches Some(e) ==> string_body_end(s@, i as int) == Some(e as int),
        r is None ==> string_body_end(s@, i as int) is None,
        r matches Some(e) ==> i <= e < s.len(),
{
    let mut j = i;
    loop
        invariant
            i <= j <= s.len(),
            string_body_end(s@, j as int) == string_body_end(s@, i as int),
        decreases s.len() - j,
    {
        if j >= s.len() {
            return None;
        } else if s[j] == '"' {
            return Some(j);
        } else if s[j] == '\\' {
            if j + 1 < s.len() && escape_letter(s[j + 1]).is_some() {
                j += 2;
            } else {
                return None;
            }
        } else {
            j += 1;
        }
    }
}

} // verus!
