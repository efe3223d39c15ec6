//! Escape sequences: resolving them in string literals, writing them in JSON.
use vstd::prelude::*;
use crate::model::{escapes_valid, unescaped, escape_char, escape_json, hex_digit};
use crate::grammar::string_body_end;
use crate::text::{chars_of, push_char};
use crate::lex::escape_letter;

verus! {

broadcast use vstd::string::group_string_axioms;

/// Resolves the escape sequences of `s[from..to]`.
pub(crate) fn unescape_span(s: &Vec<char>, from: usize, to: usize) -> (r: String)
    requires
        from <= to <= s.len(),
        escapes_valid(s@.subrange(from as int, to as int)),
    ensures
        r@ == unescaped(s@.subrange(from as int, to as int)),
{
    let ghost t = s@.subrange(from as int, to as int);
    let mut r = String::new();
    let mut j = from;
    while j < to
        invariant
            from <= j <= to <= s.len(),
            escapes_valid(s@.subrange(j as int, to as int)),
            r@ + unescaped(s@.subrange(j as int, to as int)) == unescaped(t),
        decreases to - j,
    {
        let ghost rest = s@.subrange(j as int, to as int);
        let c = s[j];
        if c == '\\' {
            assert(rest[0] == '\\');
            let e = escape_letter(s[j + 1]);
            match e {
                Some(x) => push_char(&mut r, x),
                None => {
                    assert(false);
                },
            }
            assert(rest.skip(2) =~= s@.subrange(j + 2, to as int));
            j += 2;
        } else {
            push_char(&mut r, c);
            assert(rest.skip(1) =~= s@.subrange(j + 1, to as int));
            j += 1;
        }
    }
    assert(s@.subrange(j as int, to as int) =~= Seq::<char>::empty());
    assert(r@ + Seq::<char>::empty() =~= r@);
    r
}

/// Resolves the escape sequences of a string literal's body: `\"`, `\n`,
/// `\r`, `\t` and `\\` stand for a quote, a line feed, a carriage return, a
/// tab and a backslash; every other character stands for itself.
pub fn unescape(s: &str) -> (r: String)
    requires
        escapes_valid(s@),
    ensures
        r@ == unescaped(s@),
{
    let v = chars_of(s);
    assert(v@.subrange(0, v@.len() as int) =~= v@);
    unescape_span(&v, 0, v.len())
}

pub proof fn lemma_string_body_escapes(s: Seq<char>, i: int)
    requires
        0 <= i,
        string_body_end(s, i) is Some,
    ensures
        escapes_valid(s.subrange(i, string_body_end(s, i)->0)),
        i <= string_body_end(s, i)->0 < s.len(),
    decreases s.len() - i,
{
    let e = string_body_end(s, i)->0;
    if s[i] == '"' {
        assert(s.subrange(i, e) =~= Seq::<char>::empty());
    } else if s[i] == '\\' {
        lemma_string_body_escapes(s, i + 2);
        assert(s.subrange(i, e).skip(2) =~= s.subrange(i + 2, e));
    } else {
        lemma_string_body_escapes(s, i + 1);
        assert(s.subrange(i, e).skip(1) =~= s.subrange(i + 1, e));
    }
}

pub proof fn lemma_escape_json_push(a: Seq<char>, c: char)
    ensures
        escape_json(a.push(c)) == escape_json(a) + escape_char(c),
    decreases a.len(),
{
    if a.len() == 0 {
        assert(a.push(c).skip(1) =~= Seq::<char>::empty());
        assert(escape_json(Seq::<char>::empty()) =~= Seq::<char>::empty());
        assert(escape_json(a.push(c)) =~= escape_char(c) + Seq::<char>::empty());
        assert(a =~= Seq::<char>::empty());
    } else {
        lemma_escape_json_push(a.skip(1), c);
        assert(a.push(c).skip(1) =~= a.skip(1).push(c));
        assert(escape_json(a.push(c)) =~= escape_json(a) + escape_char(c));
    }
}

/// A character's code is a Unicode scalar value.
proof fn lemma_char_range(c: char)
    ensures
        0 <= c as int,
        (c as int) < 0x110000,
{
}

/// The lowercase hexadecimal digit of `d`.
fn hex_char(d: u32) -> (r: char)
    requires
        d < 16,
    ensures
        r == hex_digit(d as int),
{
    match d {
        0 => '0',
        1 => '1',
        2 => '2',
        3 => '3',
        4 => '4',
        5 => '5',
        6 => '6',
        7 => '7',
        8 => '8',
        9 => '9',
        10 => 'a',
        11 => 'b',
        12 => 'c',
        13 => 'd',
        14 => 'e',
        _ => 'f',
    }
}

/// Appends the escaped form of `t` to `out`.
pub(crate) fn push_escaped(out: &mut String, t: &String)
    ensures
        final(out)@ == old(out)@ + escape_json(t@),
{
    let ghost start = out@;
    let v = chars_of(t.as_str());
    let mut i: usize = 0;
    while i < v.len()
        invariant
            i <= v.len(),
            v@ == t@,
            out@ == start + escape_json(v@.take(i as int)),
        decreases v.len() - i,
    {
        let c = v[i];
        proof {
            lemma_escape_json_push(v@.take(i as int), c);
            assert(v@.take(i as int).push(c) =~= v@.take(i + 1));
        }
        if c == '"' {
            push_char(out, '\\');
            push_char(out, '"');
        } else if c == '\\' {
            push_char(out, '\\');
            push_char(out, '\\');
        } else if c == '\n' {
            push_char(out, '\\');
            push_char(out, 'n');
        } else if c == '\r' {
            push_char(out, '\\');
            push_char(out, 'r');
        } else if c == '\t' {
            push_char(out, '\\');
            push_char(out, 't');
        } else if ' ' > c {
            proof {
                lemma_char_range(c);
            }
            let n = c as u32;
            push_char(out, '\\');
            push_char(out, 'u');
            push_char(out, '0');
            push_char(out, '0');
            push_char(out, hex_char(n / 16));
            push_char(out, hex_char(n % 16));
        } else {
            push_char(out, c);
        }
        i += 1;
        assert(out@ =~= start + escape_json(v@.take(i as int)));
    }
    assert(v@.take(i as int) =~= t@);
}

} // verus!
