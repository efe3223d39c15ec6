//! The parser: reads a Junk document into a [`Value`], as the grammar says.
use vstd::prelude::*;
use crate::model::JValue;
use crate::grammar::{
    parse_value, parse_list, list_items, more_values_comma, more_values_nl, parse_object,
    def_items, more_defs_comma, more_defs_nl, parse_def, root_values, root_defs, document_value,
    stop_offset, line_of, column_of, line_feeds, line_start,
    lemma_int_literal_alone, lemma_float_literal_alone,
    lemma_more_values_comma_extends, lemma_more_defs_comma_extends, id_member,
};
use crate::value::{
    Value, Def, value_models, def_models, values_wf, defs_wf, lemma_value_models_push,
    lemma_def_models_push, lemma_defs_append,
};
use crate::lex::{
    at, scan_ws, scan_gap, scan_newline_sep, scan_comma_sep, scan_key, scan_int_literal,
    scan_float_literal, scan_word, scan_string_body,
};
use crate::escape::{unescape_span, lemma_string_body_escapes};
use crate::text::{chars_of, push_char, span_string};

verus! {

/// The input is not a Junk document. `line` and `column` (both counted from 0,
/// the column in characters) locate where reading stopped: the furthest point
/// to which the start of the input reads as a sequence of values or of
/// definitions.
#[derive(Debug)]
pub struct SyntaxError {
    pub line: usize,
    pub column: usize,
}

/// The line and column of position `off`.
fn position(s: &Vec<char>, off: usize) -> (r: (usize, usize))
    requires
        off <= s.len(),
    ensures
        r.0 == line_of(s@, off as int),
        r.1 == column_of(s@, off as int),
{
    let mut line: usize = 0;
    let mut column: usize = 0;
    let mut k: usize = 0;
    while k < off
        invariant
            k <= off <= s.len(),
            line == line_feeds(s@.take(k as int)),
            column == k - line_start(s@, k as int),
            line <= k,
            column <= k,
        decreases off - k,
    {
        assert(s@.take(k + 1).drop_last() =~= s@.take(k as int));
        if s[k] == '\n' {
            line += 1;
            column = 0;
        } else {
            column += 1;
        }
        k += 1;
    }
    (line, column)
}

/// A value at `i`, and where it ends.
fn value_at(s: &Vec<char>, i: usize) -> (r: Option<(Value, usize)>)
    requires
        i <= s.len(),
    ensures
        r matches Some((v, k)) ==> parse_value(s@, i as int) == Some((v.model(), k as int))
            && v.wf() && i < k <= s.len(),
        r is None ==> parse_value(s@, i as int) is None,
    decreases s.len() - i, 3int,
{
    if i >= s.len() {
        return None;
    }
    let c = s[i];
    if c == '#' || c == '{' {
        object_at(s, i)
    } else if c == '[' {
        list_at(s, i)
    } else if c == '"' {
        match scan_string_body(s, i + 1) {
            Some(e) => {
                proof {
                    lemma_string_body_escapes(s@, i + 1);
                }
                let t = unescape_span(s, i + 1, e);
                Some((Value::Str(t), e + 1))
            },
            None => None,
        }
    } else if scan_word(s, i, &['t', 'r', 'u', 'e']) {
        Some((Value::Bool(true), i + 4))
    } else if scan_word(s, i, &['f', 'a', 'l', 's', 'e']) {
        Some((Value::Bool(false), i + 5))
    } else {
        match scan_float_literal(s, i) {
            Some(e) => {
                proof {
                    lemma_float_literal_alone(s@, i as int);
                }
                Some((Value::Float(span_string(s, i, e)), e))
            },
            None => match scan_int_literal(s, i) {
                Some(e) => {
                    proof {
                        lemma_int_literal_alone(s@, i as int);
                    }
                    Some((Value::Int(span_string(s, i, e)), e))
                },
                None => None,
            },
        }
    }
}

/// A list at `i`, and where it ends.
fn list_at(s: &Vec<char>, i: usize) -> (r: Option<(Value, usize)>)
    requires
        i <= s.len(),
    ensures
        r matches Some((v, k)) ==> parse_list(s@, i as int) == Some((v.model(), k as int))
            && v.wf() && i < k <= s.len(),
        r is None ==> parse_list(s@, i as int) is None,
    decreases s.len() - i, 2int,
{
    if !at(s, i, '[') {
        return None;
    }
    let j = scan_gap(s, i + 1);
    let (vs, e) = list_items_at(s, j);
    let m = scan_gap(s, e);
    if at(s, m, ']') {
        Some((Value::List(vs), m + 1))
    } else {
        None
    }
}

/// The items of a list from `j`, and where they end.
fn list_items_at(s: &Vec<char>, j: usize) -> (r: (Vec<Value>, usize))
    requires
        j <= s.len(),
    ensures
        list_items(s@, j as int) == (value_models(r.0@), r.1 as int),
        values_wf(r.0@),
        j <= r.1 <= s.len(),
    decreases s.len() - j, 4int,
{
    match value_at(s, j) {
        None => {
            let empty: Vec<Value> = Vec::new();
            assert(value_models(empty@) =~= Seq::<JValue>::empty());
            (empty, j)
        },
        Some((v, k)) => {
            let ghost first = v.model();
            let mut acc: Vec<Value> = Vec::new();
            proof {
                lemma_value_models_push(acc@, v);
                assert(value_models(acc@) =~= Seq::<JValue>::empty());
            }
            acc.push(v);
            assert(value_models(acc@) =~= seq![first]);
            let (cs, ce) = more_values_comma_at(s, k, acc);
            if cs.len() > 1 {
                (cs, ce)
            } else {
                proof {
                    lemma_more_values_comma_extends(s@, k as int, seq![first]);
                }
                more_values_nl_at(s, k, cs)
            }
        },
    }
}

/// Greedily more values after `i`, each after a comma separator, appended to `acc`.
fn more_values_comma_at(s: &Vec<char>, i: usize, acc0: Vec<Value>) -> (r: (Vec<Value>, usize))
    requires
        i <= s.len(),
        values_wf(acc0@),
    ensures
        more_values_comma(s@, i as int, value_models(acc0@)) == (value_models(r.0@), r.1 as int),
        values_wf(r.0@),
        i <= r.1 <= s.len(),
    decreases s.len() - i, 0int,
{
    let ghost start = acc0@;
    let mut acc = acc0;
    let mut p = i;
    #[verifier::loop_isolation(false)]
    loop
        invariant
            i <= p <= s.len(),
            values_wf(acc@),
            more_values_comma(s@, p as int, value_models(acc@)) == more_values_comma(
                s@,
                i as int,
                value_models(start),
            ),
        decreases s.len() - p,
    {
        match scan_comma_sep(s, p) {
            None => return (acc, p),
            Some(m) => match value_at(s, m) {
                None => return (acc, p),
                Some((v, k)) => {
                    proof {
                        lemma_value_models_push(acc@, v);
                    }
                    acc.push(v);
                    p = k;
                },
            },
        }
    }
}

/// Greedily more values after `i`, each after a newline separator, appended to `acc`.
fn more_values_nl_at(s: &Vec<char>, i: usize, acc0: Vec<Value>) -> (r: (Vec<Value>, usize))
    requires
        i <= s.len(),
        values_wf(acc0@),
    ensures
        more_values_nl(s@, i as int, value_models(acc0@)) == (value_models(r.0@), r.1 as int),
        values_wf(r.0@),
        i <= r.1 <= s.len(),
    decreases s.len() - i, 0int,
{
    let ghost start = acc0@;
    let mut acc = acc0;
    let mut p = i;
    #[verifier::loop_isolation(false)]
    loop
        invariant
            i <= p <= s.len(),
            values_wf(acc@),
            more_values_nl(s@, p as int, value_models(acc@)) == more_values_nl(
                s@,
                i as int,
                value_models(start),
            ),
        decreases s.len() - p,
    {
        match scan_newline_sep(s, p) {
            None => return (acc, p),
            Some(m) => match value_at(s, m) {
                None => return (acc, p),
                Some((v, k)) => {
                    proof {
                        lemma_value_models_push(acc@, v);
                    }
                    acc.push(v);
                    p = k;
                },
            },
        }
    }
}

/// The definition that stands for an object's `#id`.
fn id_def(s: &Vec<char>, k: usize, e: usize) -> (d: Def)
    requires
        k <= e <= s.len(),
    ensures
        (d.key@, d.value.model()) == id_member(s@.subrange(k as int, e as int)),
        d.value.wf(),
{
    let mut key = String::new();
    push_char(&mut key, 'i');
    push_char(&mut key, 'd');
    assert(key@ =~= seq!['i', 'd']);
    Def { key, value: Value::Str(span_string(s, k, e)) }
}

/// An object at `i`, and where it ends.
fn object_at(s: &Vec<char>, i: usize) -> (r: Option<(Value, usize)>)
    requires
        i <= s.len(),
    ensures
        r matches Some((v, k)) ==> parse_object(s@, i as int) == Some((v.model(), k as int))
            && v.wf() && i < k <= s.len(),
        r is None ==> parse_object(s@, i as int) is None,
    decreases s.len() - i, 2int,
{
    if i >= s.len() {
        return None;
    }
    let mut defs: Vec<Def> = Vec::new();
    let mut b = i;
    if s[i] == '#' {
        let k = scan_ws(s, i + 1);
        match scan_key(s, k) {
            Some(e) => {
                let d = id_def(s, k, e);
                proof {
                    lemma_def_models_push(defs@, d);
                    assert(def_models(defs@) =~= Seq::<(Seq<char>, JValue)>::empty());
                }
                defs.push(d);
                b = scan_ws(s, e);
            },
            None => {
                return None;
            },
        }
    } else {
        assert(def_models(defs@) =~= Seq::<(Seq<char>, JValue)>::empty());
    }
    if !at(s, b, '{') {
        return None;
    }
    let j = scan_gap(s, b + 1);
    let (mut ds, e) = def_items_at(s, j);
    let m = scan_gap(s, e);
    if at(s, m, '}') {
        let ghost before = defs@;
        let ghost items = ds@;
        defs.append(&mut ds);
        proof {
            lemma_defs_append(before, items);
        }
        Some((Value::Object(defs), m + 1))
    } else {
        None
    }
}

/// The definitions of an object from `j`, and where they end.
fn def_items_at(s: &Vec<char>, j: usize) -> (r: (Vec<Def>, usize))
    requires
        j <= s.len(),
    ensures
        def_items(s@, j as int) == (def_models(r.0@), r.1 as int),
        defs_wf(r.0@),
        j <= r.1 <= s.len(),
    decreases s.len() - j, 4int,
{
    match def_at(s, j) {
        None => {
            let empty: Vec<Def> = Vec::new();
            assert(def_models(empty@) =~= Seq::<(Seq<char>, JValue)>::empty());
            (empty, j)
        },
        Some((d, k)) => {
            let ghost first = (d.key@, d.value.model());
            let mut acc: Vec<Def> = Vec::new();
            proof {
                lemma_def_models_push(acc@, d);
                assert(def_models(acc@) =~= Seq::<(Seq<char>, JValue)>::empty());
            }
            acc.push(d);
            assert(def_models(acc@) =~= seq![first]);
            let (cs, ce) = more_defs_comma_at(s, k, acc);
            if cs.len() > 1 {
                (cs, ce)
            } else {
                proof {
                    lemma_more_defs_comma_extends(s@, k as int, seq![first]);
                }
                more_defs_nl_at(s, k, cs)
            }
        },
    }
}

/// Greedily more definitions after `i`, each after a comma separator, appended to `acc`.
fn more_defs_comma_at(s: &Vec<char>, i: usize, acc0: Vec<Def>) -> (r: (Vec<Def>, usize))
    requires
        i <= s.len(),
        defs_wf(acc0@),
    ensures
        more_defs_comma(s@, i as int, def_models(acc0@)) == (def_models(r.0@), r.1 as int),
        defs_wf(r.0@),
        i <= r.1 <= s.len(),
    decreases s.len() - i, 0int,
{
    let ghost start = acc0@;
    let mut acc = acc0;
    let mut p = i;
    #[verifier::loop_isolation(false)]
    loop
        invariant
            i <= p <= s.len(),
            defs_wf(acc@),
            more_defs_comma(s@, p as int, def_models(acc@)) == more_defs_comma(
                s@,
                i as int,
                def_models(start),
            ),
        decreases s.len() - p,
    {
        match scan_comma_sep(s, p) {
            None => return (acc, p),
            Some(m) => match def_at(s, m) {
                None => return (acc, p),
                Some((d, k)) => {
                    proof {
                        lemma_def_models_push(acc@, d);
                    }
                    acc.push(d);
                    p = k;
                },
            },
        }
    }
}

/// Greedily more definitions after `i`, each after a newline separator, appended to `acc`.
fn more_defs_nl_at(s: &Vec<char>, i: usize, acc0: Vec<Def>) -> (r: (Vec<Def>, usize))
    requires
        i <= s.len(),
        defs_wf(acc0@),
    ensures
        more_defs_nl(s@, i as int, def_models(acc0@)) == (def_models(r.0@), r.1 as int),
        defs_wf(r.0@),
        i <= r.1 <= s.len(),
    decreases s.len() - i, 0int,
{
    let ghost start = acc0@;
    let mut acc = acc0;
    let mut p = i;
    #[verifier::loop_isolation(false)]
    loop
        invariant
            i <= p <= s.len(),
            defs_wf(acc@),
            more_defs_nl(s@, p as int, def_models(acc@)) == more_defs_nl(
                s@,
                i as int,
                def_models(start),
            ),
        decreases s.len() - p,
    {
        match scan_newline_sep(s, p) {
            None => return (acc, p),
            Some(m) => match def_at(s, m) {
                None => return (acc, p),
                Some((d, k)) => {
                    proof {
                        lemma_def_models_push(acc@, d);
                    }
                    acc.push(d);
                    p = k;
                },
            },
        }
    }
}

/// A definition at `i`, and where it ends.
fn def_at(s: &Vec<char>, i: usize) -> (r: Option<(Def, usize)>)
    requires
        i <= s.len(),
    ensures
        r matches Some((d, k)) ==> parse_def(s@, i as int) == Some(((d.key@, d.value.model()), k as int))
            && d.value.wf() && i < k <= s.len(),
        r is None ==> parse_def(s@, i as int) is None,
    decreases s.len() - i, 3int,
{
    if i >= s.len() {
        return None;
    }
    if s[i] == '!' {
        let k = scan_ws(s, i + 1);
        match scan_key(s, k) {
            Some(e) => Some((Def { key: span_string(s, k, e), value: Value::Bool(false) }, e)),
            None => None,
        }
    } else {
        match scan_key(s, i) {
            Some(e) => {
                let key = span_string(s, i, e);
                let c = scan_ws(s, e);
                if at(s, c, ':') {
                    let v0 = scan_ws(s, c + 1);
                    match value_at(s, v0) {
                        Some((v, k)) => {
                            return Some((Def { key, value: v }, k));
                        },
                        None => {},
                    }
                }
                Some((Def { key, value: Value::Bool(true) }, e))
            },
            None => None,
        }
    }
}

/// Reads a whole document: a list of its values if it is a sequence of
/// values, else an object of its definitions if it is a sequence of
/// definitions, else a syntax error.
pub fn parse_document(input: &str) -> (r: Result<Value, SyntaxError>)
    ensures
        r matches Ok(v) ==> document_value(input@) == Some(v.model()) && v.wf(),
        r is Err <==> document_value(input@) is None,
        r matches Err(e) ==> e.line == line_of(input@, stop_offset(input@)) && e.column
            == column_of(input@, stop_offset(input@)),
{
    let s = chars_of(input);
    let i = scan_gap(&s, 0);
    let (vs, e) = match value_at(&s, i) {
        Some((v, k)) => {
            let ghost first = v.model();
            let mut acc: Vec<Value> = Vec::new();
            proof {
                lemma_value_models_push(acc@, v);
                assert(value_models(acc@) =~= Seq::<JValue>::empty());
            }
            acc.push(v);
            assert(value_models(acc@) =~= seq![first]);
            more_values_nl_at(&s, k, acc)
        },
        None => {
            let empty: Vec<Value> = Vec::new();
            assert(value_models(empty@) =~= Seq::<JValue>::empty());
            (empty, i)
        },
    };
    assert(root_values(s@, i as int) == (value_models(vs@), e as int));
    let e1 = scan_gap(&s, e);
    if e1 == s.len() {
        return Ok(Value::List(vs));
    }
    let e2 = match def_at(&s, i) {
        Some((d, k)) => {
            let ghost first = (d.key@, d.value.model());
            let mut acc: Vec<Def> = Vec::new();
            proof {
                lemma_def_models_push(acc@, d);
                assert(def_models(acc@) =~= Seq::<(Seq<char>, JValue)>::empty());
            }
            acc.push(d);
            assert(def_models(acc@) =~= seq![first]);
            let (ds, e2) = more_defs_nl_at(&s, k, acc);
            assert(root_defs(s@, i as int) == Some((def_models(ds@), e2 as int)));
            let e2 = scan_gap(&s, e2);
            if e2 == s.len() {
                return Ok(Value::Object(ds));
            }
            e2
        },
        None => i,
    };
    let off = if e1 >= e2 {
        e1
    } else {
        e2
    };
    let (line, column) = position(&s, off);
    Err(SyntaxError { line, column })
}

} // verus!
