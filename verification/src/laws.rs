//! Properties of the library as a whole.
use vstd::prelude::*;
use crate::model::{
    JValue, escape_target, escapes_valid, unescaped, escape_char, escape_json, quoted, json,
    json_items, json_member, json_members, nat_text, bool_text, item_sep, digit_char,
    is_other_control, hex_digit,
};
use crate::grammar::{
    parse_value, string_body_end, is_line_break, is_key_char, key_end, key_run_end, parse_list,
    list_items, more_values_comma, more_values_nl, parse_object, def_items, more_defs_comma,
    more_defs_nl, parse_def, document_value, skip_ws, skip_gap, comma_sep, newline_sep, char_at,
    lemma_skip_ws, lemma_skip_gap, lemma_comma_sep, lemma_newline_sep, id_member,
    is_float_literal, lemma_float_literal_alone, float_literal_end,
};

verus! {

/// `t` holds no control character other than line feed, carriage return and tab:
/// the characters whose JSON escapes are also Junk escapes.
pub open spec fn junk_escapable(t: Seq<char>) -> bool {
    forall|k: int| 0 <= k < t.len() ==> !is_other_control(#[trigger] t[k])
}

/// Resolving the escape sequences of a string's JSON-escaped form gives the
/// string back, and that form holds only valid escape sequences, for a string
/// without control characters other than line feed, carriage return and tab
/// (the others are written `\u00XX`, which Junk strings do not read).
pub proof fn law_unescape_inverts_escape(t: Seq<char>)
    requires
        junk_escapable(t),
    ensures
        escapes_valid(escape_json(t)),
        unescaped(escape_json(t)) == t,
    decreases t.len(),
{
    if t.len() > 0 {
        assert(forall|k: int| 0 <= k < t.skip(1).len() ==> t.skip(1)[k] == t[k + 1]);
        law_unescape_inverts_escape(t.skip(1));
        let c = t[0];
        assert(!is_other_control(c));
        let e = escape_char(c);
        let r = escape_json(t.skip(1));
        let w = e + r;
        assert(escape_json(t) == w);
        if e.len() == 2 {
            assert(w[0] == '\\');
            assert(w[1] == e[1]);
            assert(escape_target(e[1]) == Some(c));
            assert(w.skip(2) =~= r);
        } else {
            assert(e == seq![c]);
            assert(w[0] == c && c != '\\');
            assert(w.skip(1) =~= r);
        }
        assert(seq![c] + t.skip(1) =~= t);
    } else {
        assert(escape_json(t) =~= Seq::<char>::empty());
        assert(unescaped(Seq::<char>::empty()) =~= Seq::<char>::empty());
    }
}

proof fn lemma_escaped_body_end(p: Seq<char>, t: Seq<char>)
    requires
        junk_escapable(t),
    ensures
        string_body_end(p + escape_json(t) + seq!['"'], p.len() as int) == Some(
            p.len() + escape_json(t).len() as int,
        ),
    decreases t.len(),
{
    let q = p + escape_json(t) + seq!['"'];
    if t.len() == 0 {
        assert(escape_json(t) =~= Seq::<char>::empty());
        assert(q[p.len() as int] == '"');
    } else {
        let c = t[0];
        let e = escape_char(c);
        let p2 = p + e;
        assert(!is_other_control(c));
        assert(forall|k: int| 0 <= k < t.skip(1).len() ==> t.skip(1)[k] == t[k + 1]);
        lemma_escaped_body_end(p2, t.skip(1));
        assert(p2 + escape_json(t.skip(1)) + seq!['"'] =~= q);
        assert(q[p.len() as int] == e[0]);
        if e.len() == 2 {
            assert(q[p.len() + 1int] == e[1]);
        }
    }
}

/// A string written as a JSON string literal reads back, as a Junk string
/// literal, as the same string, when it holds no control character other
/// than line feed, carriage return and tab.
pub proof fn law_string_literal_roundtrip(t: Seq<char>)
    requires
        junk_escapable(t),
    ensures
        parse_value(quoted(t), 0) == Some((JValue::Str(t), quoted(t).len() as int)),
{
    let q = quoted(t);
    lemma_escaped_body_end(seq!['"'], t);
    assert(q =~= seq!['"'] + escape_json(t) + seq!['"']);
    assert(q.subrange(1, q.len() - 1) =~= escape_json(t));
    law_unescape_inverts_escape(t);
}


// ----------------------------------------------------------------------------
// The JSON text of a document holds no control character, so is one line
// ----------------------------------------------------------------------------

/// `t` holds no control character (none below U+0020).
pub open spec fn control_free(t: Seq<char>) -> bool {
    forall|k: int| 0 <= k < t.len() ==> 0x20 <= #[trigger] t[k] as int
}

/// `t` holds no line break.
pub open spec fn line_free(t: Seq<char>) -> bool {
    forall|k: int| 0 <= k < t.len() ==> !is_line_break(#[trigger] t[k])
}

/// No key in `v` holds a control character, and every float in `v` holds a float literal.
pub open spec fn plain_parts(v: JValue) -> bool
    decreases v,
{
    match v {
        JValue::List(vs) => items_plain_parts(vs),
        JValue::Object(ds) => members_plain_parts(ds),
        JValue::Float(lit) => is_float_literal(lit),
        _ => true,
    }
}

/// `plain_parts` holds of each of `vs`.
pub open spec fn items_plain_parts(vs: Seq<JValue>) -> bool
    decreases vs,
{
    if vs.len() == 0 {
        true
    } else {
        items_plain_parts(vs.drop_last()) && plain_parts(vs.last())
    }
}

/// No key of `ds` holds a control character, and `plain_parts` holds of their values.
pub open spec fn members_plain_parts(ds: Seq<(Seq<char>, JValue)>) -> bool
    decreases ds,
{
    if ds.len() == 0 {
        true
    } else {
        members_plain_parts(ds.drop_last()) && control_free(ds.last().0) && plain_parts(
            ds.last().1,
        )
    }
}

proof fn lemma_control_free_concat(a: Seq<char>, b: Seq<char>)
    requires
        control_free(a),
        control_free(b),
    ensures
        control_free(a + b),
{
    assert forall|k: int| 0 <= k < (a + b).len() implies 0x20 <= #[trigger] (a + b)[k] as int by {
        if k < a.len() {
            assert((a + b)[k] == a[k]);
        } else {
            assert((a + b)[k] == b[k - a.len()]);
        }
    }
}

proof fn lemma_hex_digit(d: int)
    requires
        0 <= d < 16,
    ensures
        0x20 <= hex_digit(d) as int,
{
    if d < 10 {
        assert(digit_char(d) as int == d + 48);
    } else {
        assert(((d - 10 + 'a' as int) as char) as int == d + 87);
    }
}

proof fn lemma_escape_char_control_free(c: char)
    ensures
        control_free(escape_char(c)),
{
    let e = escape_char(c);
    assert(0 <= c as int);
    if is_other_control(c) && c != '"' && c != '\\' {
        lemma_hex_digit((c as int) / 16);
        lemma_hex_digit((c as int) % 16);
    }
    assert forall|k: int| 0 <= k < e.len() implies 0x20 <= #[trigger] e[k] as int by {
    }
}

proof fn lemma_escape_control_free(t: Seq<char>)
    ensures
        control_free(escape_json(t)),
    decreases t.len(),
{
    if t.len() > 0 {
        lemma_escape_control_free(t.skip(1));
        let e = escape_char(t[0]);
        lemma_escape_char_control_free(t[0]);
        lemma_control_free_concat(e, escape_json(t.skip(1)));
    }
}

proof fn lemma_nat_text_control_free(n: nat)
    ensures
        control_free(nat_text(n)),
    decreases n,
{
    let d = (n % 10) as int;
    assert(digit_char(d) as int == d + 48);
    if n >= 10 {
        lemma_nat_text_control_free(n / 10);
        lemma_control_free_concat(nat_text(n / 10), seq![digit_char(d)]);
    } else {
        assert(n % 10 == n);
    }
}

/// The JSON text of a value holds no raw control character (all are escaped in
/// strings), when its keys hold none and the text written for each float
/// literal holds none.
pub proof fn law_json_control_free(v: JValue, ft: spec_fn(Seq<char>) -> Seq<char>)
    requires
        plain_parts(v),
        forall|lit: Seq<char>| is_float_literal(lit) ==> control_free(#[trigger] ft(lit)),
    ensures
        control_free(json(v, ft)),
    decreases v,
{
    match v {
        JValue::List(vs) => {
            lemma_json_items_control_free(vs, ft);
            lemma_control_free_concat(seq!['['], json_items(vs, ft));
            lemma_control_free_concat(seq!['['] + json_items(vs, ft), seq![']']);
        },
        JValue::Object(ds) => {
            lemma_json_members_control_free(ds, ft);
            lemma_control_free_concat(seq!['{'], json_members(ds, ft));
            lemma_control_free_concat(seq!['{'] + json_members(ds, ft), seq!['}']);
        },
        JValue::Int(n) => {
            if n < 0 {
                lemma_nat_text_control_free((-n) as nat);
                lemma_control_free_concat(seq!['-'], nat_text((-n) as nat));
            } else {
                lemma_nat_text_control_free(n as nat);
            }
        },
        JValue::Float(lit) => {
            assert(control_free(ft(lit)));
        },
        JValue::Bool(b) => {
            assert(control_free(bool_text(b)));
        },
        JValue::Str(t) => {
            lemma_escape_control_free(t);
            lemma_control_free_concat(seq!['"'], escape_json(t));
            lemma_control_free_concat(seq!['"'] + escape_json(t), seq!['"']);
        },
    }
}

proof fn lemma_json_items_control_free(vs: Seq<JValue>, ft: spec_fn(Seq<char>) -> Seq<char>)
    requires
        items_plain_parts(vs),
        forall|lit: Seq<char>| is_float_literal(lit) ==> control_free(#[trigger] ft(lit)),
    ensures
        control_free(json_items(vs, ft)),
    decreases vs,
{
    if vs.len() == 1 {
        assert(vs.last() == vs[0]);
        law_json_control_free(vs[0], ft);
    } else if vs.len() > 1 {
        lemma_json_items_control_free(vs.drop_last(), ft);
        law_json_control_free(vs.last(), ft);
        lemma_control_free_concat(json_items(vs.drop_last(), ft), item_sep());
        lemma_control_free_concat(json_items(vs.drop_last(), ft) + item_sep(), json(vs.last(), ft));
    }
}

proof fn lemma_json_member_control_free(d: (Seq<char>, JValue), ft: spec_fn(Seq<char>) -> Seq<char>)
    requires
        control_free(d.0),
        plain_parts(d.1),
        forall|lit: Seq<char>| is_float_literal(lit) ==> control_free(#[trigger] ft(lit)),
    ensures
        control_free(json_member(d, ft)),
    decreases d,
{
    law_json_control_free(d.1, ft);
    lemma_control_free_concat(seq!['"'], d.0);
    lemma_control_free_concat(seq!['"'] + d.0, seq!['"', ':', ' ']);
    lemma_control_free_concat(seq!['"'] + d.0 + seq!['"', ':', ' '], json(d.1, ft));
}

proof fn lemma_json_members_control_free(
    ds: Seq<(Seq<char>, JValue)>,
    ft: spec_fn(Seq<char>) -> Seq<char>,
)
    requires
        members_plain_parts(ds),
        forall|lit: Seq<char>| is_float_literal(lit) ==> control_free(#[trigger] ft(lit)),
    ensures
        control_free(json_members(ds, ft)),
    decreases ds,
{
    if ds.len() == 1 {
        assert(ds.last() == ds[0]);
        lemma_json_member_control_free(ds[0], ft);
    } else if ds.len() > 1 {
        lemma_json_members_control_free(ds.drop_last(), ft);
        lemma_json_member_control_free(ds.last(), ft);
        lemma_control_free_concat(json_members(ds.drop_last(), ft), item_sep());
        lemma_control_free_concat(
            json_members(ds.drop_last(), ft) + item_sep(),
            json_member(ds.last(), ft),
        );
    }
}


proof fn lemma_key_run(s: Seq<char>, j: int)
    requires
        0 <= j <= s.len(),
    ensures
        j <= key_run_end(s, j) <= s.len(),
        forall|t: int| j <= t < key_run_end(s, j) ==> is_key_char(#[trigger] s[t]),
    decreases s.len() - j,
{
    if j < s.len() && is_key_char(s[j]) {
        lemma_key_run(s, j + 1);
    }
}

/// A key read from the input holds no control character.
proof fn lemma_key_control_free(s: Seq<char>, k: int)
    requires
        0 <= k <= s.len(),
        key_end(s, k) is Some,
    ensures
        k < key_end(s, k)->0 <= s.len(),
        control_free(s.subrange(k, key_end(s, k)->0)),
{
    lemma_key_run(s, k + 1);
    let e = key_end(s, k)->0;
    assert forall|t: int| 0 <= t < e - k implies 0x20 <= #[trigger] s.subrange(k, e)[t] as int by {
        assert(s.subrange(k, e)[t] == s[k + t]);
        assert(is_key_char(s[k + t]));
    }
}

proof fn lemma_items_push(vs: Seq<JValue>, v: JValue)
    ensures
        items_plain_parts(vs.push(v)) == (items_plain_parts(vs) && plain_parts(v)),
{
    assert(vs.push(v).drop_last() =~= vs);
}

proof fn lemma_members_push(ds: Seq<(Seq<char>, JValue)>, d: (Seq<char>, JValue))
    ensures
        members_plain_parts(ds.push(d)) == (members_plain_parts(ds) && control_free(d.0)
            && plain_parts(d.1)),
{
    assert(ds.push(d).drop_last() =~= ds);
}

proof fn lemma_members_append(a: Seq<(Seq<char>, JValue)>, b: Seq<(Seq<char>, JValue)>)
    requires
        members_plain_parts(a),
        members_plain_parts(b),
    ensures
        members_plain_parts(a + b),
    decreases b.len(),
{
    if b.len() == 0 {
        assert(a + b =~= a);
    } else {
        lemma_members_append(a, b.drop_last());
        assert((a + b).drop_last() =~= a + b.drop_last());
        assert((a + b).last() == b.last());
    }
}

proof fn lemma_value_keys(s: Seq<char>, i: int)
    ensures
        parse_value(s, i) matches Some((v, _)) ==> plain_parts(v),
    decreases s.len() - i, 3int,
{
    if 0 <= i < s.len() {
        if s[i] == '#' || s[i] == '{' {
            lemma_object_keys(s, i);
        } else if s[i] == '[' {
            lemma_list_keys(s, i);
        } else if float_literal_end(s, i) is Some {
            lemma_float_literal_alone(s, i);
        }
    }
}

proof fn lemma_list_keys(s: Seq<char>, i: int)
    ensures
        parse_list(s, i) matches Some((v, _)) ==> plain_parts(v),
    decreases s.len() - i, 2int,
{
    if char_at(s, i, '[') {
        lemma_skip_gap(s, i + 1);
        lemma_list_items_keys(s, skip_gap(s, i + 1));
    }
}

proof fn lemma_list_items_keys(s: Seq<char>, j: int)
    ensures
        items_plain_parts(list_items(s, j).0),
    decreases s.len() - j, 4int,
{
    lemma_value_keys(s, j);
    if let Some((v, k)) = parse_value(s, j) {
        if j < k <= s.len() {
            lemma_items_push(Seq::empty(), v);
            assert(Seq::<JValue>::empty().push(v) =~= seq![v]);
            lemma_more_values_comma_keys(s, k, seq![v]);
            lemma_more_values_nl_keys(s, k, seq![v]);
        }
    }
}

proof fn lemma_more_values_comma_keys(s: Seq<char>, i: int, acc: Seq<JValue>)
    requires
        items_plain_parts(acc),
    ensures
        items_plain_parts(more_values_comma(s, i, acc).0),
    decreases s.len() - i, 0int,
{
    if 0 <= i <= s.len() {
        if let Some(m) = comma_sep(s, i) {
            lemma_comma_sep(s, i);
            lemma_value_keys(s, m);
            if let Some((v, k)) = parse_value(s, m) {
                if m < k <= s.len() {
                    lemma_items_push(acc, v);
                    lemma_more_values_comma_keys(s, k, acc.push(v));
                }
            }
        }
    }
}

proof fn lemma_more_values_nl_keys(s: Seq<char>, i: int, acc: Seq<JValue>)
    requires
        items_plain_parts(acc),
    ensures
        items_plain_parts(more_values_nl(s, i, acc).0),
    decreases s.len() - i, 0int,
{
    if 0 <= i <= s.len() {
        if let Some(m) = newline_sep(s, i) {
            lemma_newline_sep(s, i);
            lemma_value_keys(s, m);
            if let Some((v, k)) = parse_value(s, m) {
                if m < k <= s.len() {
                    lemma_items_push(acc, v);
                    lemma_more_values_nl_keys(s, k, acc.push(v));
                }
            }
        }
    }
}

proof fn lemma_object_keys(s: Seq<char>, i: int)
    ensures
        parse_object(s, i) matches Some((v, _)) ==> plain_parts(v),
    decreases s.len() - i, 2int,
{
    if 0 <= i < s.len() {
        if let Some((JValue::Object(all), _)) = parse_object(s, i) {
            let mut id: Seq<(Seq<char>, JValue)> = Seq::empty();
            let mut b = i;
            if s[i] == '#' {
                let k = skip_ws(s, i + 1);
                let e = key_end(s, k)->0;
                id = seq![id_member(s.subrange(k, e))];
                b = skip_ws(s, e);
                lemma_members_push(Seq::empty(), id_member(s.subrange(k, e)));
                assert(Seq::<(Seq<char>, JValue)>::empty().push(id_member(s.subrange(k, e))) =~= id);
                assert(control_free(seq!['i', 'd']));
            }
            lemma_skip_gap(s, b + 1);
            let j = skip_gap(s, b + 1);
            lemma_def_items_keys(s, j);
            lemma_members_append(id, def_items(s, j).0);
        }
    }
}

proof fn lemma_def_items_keys(s: Seq<char>, j: int)
    ensures
        members_plain_parts(def_items(s, j).0),
    decreases s.len() - j, 4int,
{
    lemma_def_keys(s, j);
    if let Some((d, k)) = parse_def(s, j) {
        if j < k <= s.len() {
            lemma_members_push(Seq::empty(), d);
            assert(Seq::<(Seq<char>, JValue)>::empty().push(d) =~= seq![d]);
            lemma_more_defs_comma_keys(s, k, seq![d]);
            lemma_more_defs_nl_keys(s, k, seq![d]);
        }
    }
}

proof fn lemma_more_defs_comma_keys(s: Seq<char>, i: int, acc: Seq<(Seq<char>, JValue)>)
    requires
        members_plain_parts(acc),
    ensures
        members_plain_parts(more_defs_comma(s, i, acc).0),
    decreases s.len() - i, 0int,
{
    if 0 <= i <= s.len() {
        if let Some(m) = comma_sep(s, i) {
            lemma_comma_sep(s, i);
            lemma_def_keys(s, m);
            if let Some((d, k)) = parse_def(s, m) {
                if m < k <= s.len() {
                    lemma_members_push(acc, d);
                    lemma_more_defs_comma_keys(s, k, acc.push(d));
                }
            }
        }
    }
}

proof fn lemma_more_defs_nl_keys(s: Seq<char>, i: int, acc: Seq<(Seq<char>, JValue)>)
    requires
        members_plain_parts(acc),
    ensures
        members_plain_parts(more_defs_nl(s, i, acc).0),
    decreases s.len() - i, 0int,
{
    if 0 <= i <= s.len() {
        if let Some(m) = newline_sep(s, i) {
            lemma_newline_sep(s, i);
            lemma_def_keys(s, m);
            if let Some((d, k)) = parse_def(s, m) {
                if m < k <= s.len() {
                    lemma_members_push(acc, d);
                    lemma_more_defs_nl_keys(s, k, acc.push(d));
                }
            }
        }
    }
}

proof fn lemma_def_keys(s: Seq<char>, i: int)
    ensures
        parse_def(s, i) matches Some((d, _)) ==> control_free(d.0) && plain_parts(d.1),
    decreases s.len() - i, 3int,
{
    if 0 <= i < s.len() {
        if s[i] == '!' {
            let k = skip_ws(s, i + 1);
            lemma_skip_ws(s, i + 1);
            if key_end(s, k) is Some {
                lemma_key_control_free(s, k);
            }
        } else if key_end(s, i) is Some {
            lemma_key_control_free(s, i);
            let e = key_end(s, i)->0;
            let c = skip_ws(s, e);
            lemma_skip_ws(s, e);
            if char_at(s, c, ':') && i < c {
                lemma_skip_ws(s, c + 1);
                lemma_value_keys(s, skip_ws(s, c + 1));
            }
        }
    }
}

/// The JSON text of a document holds no control character, so is one line, when the text written for
/// each float literal is.
pub proof fn law_output_single_line(s: Seq<char>, ft: spec_fn(Seq<char>) -> Seq<char>)
    requires
        document_value(s) is Some,
        forall|lit: Seq<char>| is_float_literal(lit) ==> control_free(#[trigger] ft(lit)),
    ensures
        control_free(json(document_value(s)->0, ft)),
{
    let i = skip_gap(s, 0);
    lemma_skip_gap(s, 0);
    if let Some((v, k)) = parse_value(s, i) {
        lemma_value_keys(s, i);
        if i < k <= s.len() {
            lemma_items_push(Seq::empty(), v);
            assert(Seq::<JValue>::empty().push(v) =~= seq![v]);
            lemma_more_values_nl_keys(s, k, seq![v]);
        }
    }
    lemma_def_keys(s, i);
    if let Some((d, k)) = parse_def(s, i) {
        if i < k <= s.len() {
            lemma_members_push(Seq::empty(), d);
            assert(Seq::<(Seq<char>, JValue)>::empty().push(d) =~= seq![d]);
            lemma_more_defs_nl_keys(s, k, seq![d]);
        }
    }
    law_json_control_free(document_value(s)->0, ft);
    let out = json(document_value(s)->0, ft);
    assert forall|k: int| 0 <= k < out.len() implies !is_line_break(#[trigger] out[k]) by {
        assert(0x20 <= out[k] as int);
    }
}


// ----------------------------------------------------------------------------
// Objects and definitions
// ----------------------------------------------------------------------------

/// An object written `#name { .. }` has `"id": "name"` as its first
/// definition, followed by the definitions between its braces, in order.
pub proof fn law_object_id_first(s: Seq<char>, i: int)
    requires
        char_at(s, i, '#'),
        parse_value(s, i) is Some,
    ensures
        ({
            let k = skip_ws(s, i + 1);
            let e = key_end(s, k)->0;
            &&& key_end(s, k) is Some
            &&& parse_value(s, i) matches Some((JValue::Object(ds), _)) && ds == seq![
                id_member(s.subrange(k, e)),
            ] + def_items(s, skip_gap(s, skip_ws(s, e) + 1)).0 && ds[0] == (
                seq!['i', 'd'],
                JValue::Str(s.subrange(k, e)),
            )
        }),
{
}

/// An object written `{ .. }` holds exactly the definitions between its
/// braces, in order, with no `"id"` added; `{}` holds none.
pub proof fn law_object_without_id(s: Seq<char>, i: int)
    requires
        char_at(s, i, '{'),
        parse_value(s, i) is Some,
    ensures
        parse_value(s, i) matches Some((JValue::Object(ds), _)) && ds == def_items(
            s,
            skip_gap(s, i + 1),
        ).0,
        char_at(s, skip_gap(s, i + 1), '}') ==> (parse_value(s, i) matches Some(
            (JValue::Object(ds), _),
        ) && ds.len() == 0),
{
    let j = skip_gap(s, i + 1);
    if char_at(s, j, '}') {
        assert(key_end(s, j) is None);
        assert(parse_def(s, j) is None);
    }
}

/// A list holds exactly the items between its brackets, in order; `[]` holds none.
pub proof fn law_list_items(s: Seq<char>, i: int)
    requires
        char_at(s, i, '['),
        parse_value(s, i) is Some,
    ensures
        parse_value(s, i) matches Some((JValue::List(vs), _)) && vs == list_items(
            s,
            skip_gap(s, i + 1),
        ).0,
        char_at(s, skip_gap(s, i + 1), ']') ==> (parse_value(s, i) matches Some(
            (JValue::List(vs), _),
        ) && vs.len() == 0),
{
    let j = skip_gap(s, i + 1);
    if char_at(s, j, ']') {
        assert(parse_value(s, j) is None);
    }
}

/// A definition `key: value` pairs the key with the value read after the colon.
pub proof fn law_value_def(s: Seq<char>, i: int)
    requires
        key_end(s, i) is Some,
        char_at(s, skip_ws(s, key_end(s, i)->0), ':'),
        parse_value(s, skip_ws(s, skip_ws(s, key_end(s, i)->0) + 1)) is Some,
    ensures
        ({
            let e = key_end(s, i)->0;
            let (v, k) = parse_value(s, skip_ws(s, skip_ws(s, e) + 1))->0;
            parse_def(s, i) == Some(((s.subrange(i, e), v), k))
        }),
{
    let e = key_end(s, i)->0;
    lemma_key_run(s, i + 1);
    lemma_skip_ws(s, e);
}

/// A definition `!key` sets the key to false; a bare `key` (not followed by a
/// colon and a value) sets it to true.
pub proof fn law_flags(s: Seq<char>, i: int)
    ensures
        char_at(s, i, '!') && key_end(s, skip_ws(s, i + 1)) is Some ==> parse_def(s, i) == Some(
            (
                (
                    s.subrange(skip_ws(s, i + 1), key_end(s, skip_ws(s, i + 1))->0),
                    JValue::Bool(false),
                ),
                key_end(s, skip_ws(s, i + 1))->0,
            ),
        ),
        key_end(s, i) is Some && !char_at(s, skip_ws(s, key_end(s, i)->0), ':') ==> parse_def(
            s,
            i,
        ) == Some(((s.subrange(i, key_end(s, i)->0), JValue::Bool(true)), key_end(s, i)->0)),
{
}

} // verus!
