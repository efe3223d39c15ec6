//! The abstract model of a Junk document and of its JSON text.
use vstd::prelude::*;

verus! {

/// A parsed Junk value, as the contracts speak of it.
///
/// A float is held by the text of its literal: its JSON form is whatever the
/// float renderer that the caller supplies makes of that text.
pub enum JValue {
    /// An ordered sequence of values.
    List(Seq<JValue>),
    /// Key-value definitions, in source order (an object's `#id` comes first, as `"id"`).
    Object(Seq<(Seq<char>, JValue)>),
    /// An integer, by its mathematical value.
    Int(int),
    /// A float, by the text of its literal.
    Float(Seq<char>),
    /// A boolean.
    Bool(bool),
    /// A string, after its escape sequences were resolved.
    Str(Seq<char>),
}

// ----------------------------------------------------------------------------
// Characters and escapes
// ----------------------------------------------------------------------------

/// The character that an escape sequence `\c` stands for, if `c` is a valid escape letter.
pub open spec fn escape_target(c: char) -> Option<char> {
    if c == '"' {
        Some('"')
    } else if c == '\\' {
        Some('\\')
    } else if c == 'n' {
        Some('\n')
    } else if c == 'r' {
        Some('\r')
    } else if c == 't' {
        Some('\t')
    } else {
        None
    }
}

/// Every backslash of `t` starts a valid two-character escape sequence.
pub open spec fn escapes_valid(t: Seq<char>) -> bool
    decreases t.len(),
{
    if t.len() == 0 {
        true
    } else if t[0] == '\\' {
        t.len() >= 2 && escape_target(t[1]) is Some && escapes_valid(t.skip(2))
    } else {
        escapes_valid(t.skip(1))
    }
}

/// The text that a string literal body stands for: each escape sequence is
/// replaced by the character it names.
pub open spec fn unescaped(t: Seq<char>) -> Seq<char>
    decreases t.len(),
{
    if t.len() == 0 {
        Seq::empty()
    } else if t[0] == '\\' && t.len() >= 2 {
        let c = match escape_target(t[1]) {
            Some(e) => e,
            None => t[1],
        };
        seq![c] + unescaped(t.skip(2))
    } else {
        seq![t[0]] + unescaped(t.skip(1))
    }
}

/// A control character (below U+0020) other than line feed, carriage return and tab.
pub open spec fn is_other_control(c: char) -> bool {
    (c as int) < 0x20 && c != '\n' && c != '\r' && c != '\t'
}

/// The lowercase hexadecimal digit of `0 <= d < 16`.
pub open spec fn hex_digit(d: int) -> char {
    if d < 10 {
        digit_char(d)
    } else {
        (d - 10 + 'a' as int) as char
    }
}

/// How one character of a string is written inside a JSON string literal:
/// `"` and `\` behind a backslash, line feed, carriage return and tab as
/// `\n`, `\r`, `\t`, every other control character as `\u00XX`.
pub open spec fn escape_char(c: char) -> Seq<char> {
    if c == '"' {
        seq!['\\', '"']
    } else if c == '\\' {
        seq!['\\', '\\']
    } else if c == '\n' {
        seq!['\\', 'n']
    } else if c == '\r' {
        seq!['\\', 'r']
    } else if c == '\t' {
        seq!['\\', 't']
    } else if is_other_control(c) {
        seq!['\\', 'u', '0', '0', hex_digit((c as int) / 16), hex_digit((c as int) % 16)]
    } else {
        seq![c]
    }
}

/// The escaped form of a string, character by character.
pub open spec fn escape_json(t: Seq<char>) -> Seq<char>
    decreases t.len(),
{
    if t.len() == 0 {
        Seq::empty()
    } else {
        escape_char(t[0]) + escape_json(t.skip(1))
    }
}

/// A string as a JSON string literal.
pub open spec fn quoted(t: Seq<char>) -> Seq<char> {
    seq!['"'] + escape_json(t) + seq!['"']
}

// ----------------------------------------------------------------------------
// Integers
// ----------------------------------------------------------------------------

/// The value of a decimal digit character.
pub open spec fn digit_value(c: char) -> int {
    c as int - '0' as int
}

/// The character of a decimal digit `0 <= d < 10`.
pub open spec fn digit_char(d: int) -> char {
    (d + '0' as int) as char
}

/// The value of a sequence of decimal digits, most significant first.
pub open spec fn digits_value(d: Seq<char>) -> int
    decreases d.len(),
{
    if d.len() == 0 {
        0
    } else {
        digits_value(d.drop_last()) * 10 + digit_value(d.last())
    }
}

/// The value of an integer literal: an optional `-` followed by digits.
pub open spec fn int_literal_value(lit: Seq<char>) -> int {
    if lit.len() > 0 && lit[0] == '-' {
        -digits_value(lit.drop_first())
    } else {
        digits_value(lit)
    }
}

/// The decimal text of a natural number, without leading zeros.
pub open spec fn nat_text(n: nat) -> Seq<char>
    decreases n,
{
    if n < 10 {
        seq![digit_char(n as int)]
    } else {
        nat_text(n / 10) + seq![digit_char((n % 10) as int)]
    }
}

/// The decimal text of an integer, as a signed 64-bit integer is displayed.
pub open spec fn int_text(n: int) -> Seq<char> {
    if n < 0 {
        seq!['-'] + nat_text((-n) as nat)
    } else {
        nat_text(n as nat)
    }
}

/// `n` is a value of a signed 64-bit integer.
pub open spec fn fits_i64(n: int) -> bool {
    i64::MIN <= n <= i64::MAX
}

// ----------------------------------------------------------------------------
// JSON text of a value
// ----------------------------------------------------------------------------

/// The word `true` or `false`.
pub open spec fn bool_text(b: bool) -> Seq<char> {
    if b {
        seq!['t', 'r', 'u', 'e']
    } else {
        seq!['f', 'a', 'l', 's', 'e']
    }
}

/// The separator between the items of a list or an object: a comma and a space.
pub open spec fn item_sep() -> Seq<char> {
    seq![',', ' ']
}

/// The single-line JSON text of a value. `float_text` gives the text of each
/// float from the text of its literal.
pub open spec fn json(v: JValue, float_text: spec_fn(Seq<char>) -> Seq<char>) -> Seq<char>
    decreases v,
{
    match v {
        JValue::List(vs) => seq!['['] + json_items(vs, float_text) + seq![']'],
        JValue::Object(ds) => seq!['{'] + json_members(ds, float_text) + seq!['}'],
        JValue::Int(n) => int_text(n),
        JValue::Float(lit) => float_text(lit),
        JValue::Bool(b) => bool_text(b),
        JValue::Str(t) => quoted(t),
    }
}

/// The items of a list, separated by `, `.
pub open spec fn json_items(vs: Seq<JValue>, float_text: spec_fn(Seq<char>) -> Seq<char>) -> Seq<
    char,
>
    decreases vs,
{
    if vs.len() == 0 {
        Seq::empty()
    } else if vs.len() == 1 {
        json(vs[0], float_text)
    } else {
        json_items(vs.drop_last(), float_text) + item_sep() + json(vs.last(), float_text)
    }
}

/// One definition of an object: the key in quotes, a colon and a space, the value.
/// The key is written as it stands: keys hold only letters, digits, `.`, `-` and `_`.
pub open spec fn json_member(d: (Seq<char>, JValue), float_text: spec_fn(Seq<char>) -> Seq<char>) -> Seq<
    char,
>
    decreases d,
{
    seq!['"'] + d.0 + seq!['"', ':', ' '] + json(d.1, float_text)
}

/// The definitions of an object, separated by `, `.
pub open spec fn json_members(
    ds: Seq<(Seq<char>, JValue)>,
    float_text: spec_fn(Seq<char>) -> Seq<char>,
) -> Seq<char>
    decreases ds,
{
    if ds.len() == 0 {
        Seq::empty()
    } else if ds.len() == 1 {
        json_member(ds[0], float_text)
    } else {
        json_members(ds.drop_last(), float_text) + item_sep() + json_member(ds.last(), float_text)
    }
}

/// Every integer in `v` is a value of a signed 64-bit integer.
pub open spec fn ints_fit(v: JValue) -> bool
    decreases v,
{
    match v {
        JValue::List(vs) => items_fit(vs),
        JValue::Object(ds) => members_fit(ds),
        JValue::Int(n) => fits_i64(n),
        _ => true,
    }
}

/// Every integer in each of `vs` fits a signed 64-bit integer.
pub open spec fn items_fit(vs: Seq<JValue>) -> bool
    decreases vs,
{
    if vs.len() == 0 {
        true
    } else {
        items_fit(vs.drop_last()) && ints_fit(vs.last())
    }
}

/// Every integer in the values of `ds` fits a signed 64-bit integer.
pub open spec fn members_fit(ds: Seq<(Seq<char>, JValue)>) -> bool
    decreases ds,
{
    if ds.len() == 0 {
        true
    } else {
        members_fit(ds.drop_last()) && ints_fit(ds.last().1)
    }
}


pub proof fn lemma_digit_char_value(c: char)
    requires
        '0' <= c && c <= '9',
    ensures
        digit_char(digit_value(c)) == c,
        0 <= digit_value(c) < 10,
{
}

} // verus!
