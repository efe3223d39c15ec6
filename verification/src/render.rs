//! Writing a parsed value as single-line JSON text.
use vstd::prelude::*;
use vstd::string::StringExecFns;
use crate::model::{
    json, json_items, json_member, json_members, int_text, nat_text, int_literal_value,
    digits_value, digit_value, lemma_digit_char_value, quoted,
};
use crate::grammar::{
    lemma_run_all_digits, is_digit, is_nonzero_digit, is_int_literal, is_float_literal,
    digit_run_end, char_at,
};
use crate::value::{Value, value_models, def_models, lemma_values_wf_index, lemma_defs_wf_index};
use crate::text::{chars_of, push_char};
use crate::escape::push_escaped;

verus! {

broadcast use vstd::string::group_string_axioms;

// ----------------------------------------------------------------------------
// The float renderer supplied by the caller
// ----------------------------------------------------------------------------

/// `out` is a text that `f` may give for the float literal `lit`.
pub open spec fn renders<F: Fn(&str) -> String>(f: F, lit: Seq<char>, out: Seq<char>) -> bool {
    exists|a: &str, r: String| a@ == lit && r@ == out && #[trigger] call_ensures(f, (a,), r)
}

/// `f` may be called on every float literal, and gives one text for each.
pub open spec fn float_renderer<F: Fn(&str) -> String>(f: F) -> bool {
    &&& forall|a: &str| is_float_literal(a@) ==> #[trigger] call_requires(f, (a,))
    &&& forall|lit: Seq<char>, o1: Seq<char>, o2: Seq<char>|
        is_float_literal(lit) && #[trigger] renders(f, lit, o1) && #[trigger] renders(f, lit, o2)
            ==> o1 == o2
}

/// The text that `f` gives for each float literal.
pub open spec fn float_texts<F: Fn(&str) -> String>(f: F) -> spec_fn(Seq<char>) -> Seq<char> {
    |lit: Seq<char>| choose|o: Seq<char>| renders(f, lit, o)
}

// ----------------------------------------------------------------------------
// Integer literals and their decimal text
// ----------------------------------------------------------------------------

/// The text of an integer literal as its value is displayed: the literal
/// itself, except that `-0` is displayed as `0`.
pub open spec fn canonical_int(lit: Seq<char>) -> Seq<char> {
    if lit == seq!['-', '0'] {
        seq!['0']
    } else {
        lit
    }
}

proof fn lemma_digits_value_positive(d: Seq<char>)
    requires
        d.len() >= 1,
        forall|k: int| 0 <= k < d.len() ==> is_digit(#[trigger] d[k]),
        is_nonzero_digit(d[0]),
    ensures
        digits_value(d) >= 1,
    decreases d.len(),
{
    lemma_digit_char_value(d.last());
    if d.len() > 1 {
        let p = d.drop_last();
        assert(forall|k: int| 0 <= k < p.len() ==> is_digit(#[trigger] p[k])) by {
            assert(forall|k: int| 0 <= k < p.len() ==> p[k] == d[k]);
        }
        assert(p[0] == d[0]);
        lemma_digits_value_positive(p);
        assert(digits_value(d) == digits_value(p) * 10 + digit_value(d.last()));
    } else {
        assert(d.drop_last() =~= Seq::<char>::empty());
        assert(digits_value(Seq::<char>::empty()) == 0);
        assert(d.last() == d[0]);
    }
}

/// A digit sequence without leading zeros is the decimal text of its value.
proof fn lemma_nat_text_of_digits(d: Seq<char>)
    requires
        d.len() >= 1,
        forall|k: int| 0 <= k < d.len() ==> is_digit(#[trigger] d[k]),
        d.len() == 1 || is_nonzero_digit(d[0]),
    ensures
        digits_value(d) >= 0,
        nat_text(digits_value(d) as nat) == d,
    decreases d.len(),
{
    lemma_digit_char_value(d.last());
    if d.len() == 1 {
        assert(d.drop_last() =~= Seq::<char>::empty());
        assert(digits_value(Seq::<char>::empty()) == 0);
        assert(d.last() == d[0]);
        assert(digits_value(d) == digit_value(d[0]));
        assert(nat_text(digits_value(d) as nat) =~= d);
    } else {
        let p = d.drop_last();
        assert(forall|k: int| 0 <= k < p.len() ==> is_digit(#[trigger] p[k])) by {
            assert(forall|k: int| 0 <= k < p.len() ==> p[k] == d[k]);
        }
        lemma_nat_text_of_digits(p);
        lemma_digits_value_positive(p);
        let n = digits_value(d);
        let x = digit_value(d.last());
        assert(n == digits_value(p) * 10 + x);
        assert(n >= 10);
        assert(n / 10 == digits_value(p));
        assert(n % 10 == x);
        assert(nat_text(n as nat) =~= p + seq![d.last()]);
        assert(p + seq![d.last()] =~= d);
    }
}

/// The decimal text of an integer literal's value is the literal, `-0` aside.
pub proof fn law_int_literal_text(lit: Seq<char>)
    requires
        is_int_literal(lit),
    ensures
        int_text(int_literal_value(lit)) == canonical_int(lit),
{
    let neg = char_at(lit, 0, '-');
    let j: int = if neg { 1 } else { 0 };
    let d = lit.subrange(j, lit.len() as int);
    if char_at(lit, j, '0') {
        assert(lit.len() == j + 1);
        assert(d =~= seq!['0']);
        lemma_nat_text_of_digits(d);
    } else {
        lemma_run_all_digits(lit, j + 1);
        assert(forall|k: int| 0 <= k < d.len() ==> is_digit(#[trigger] d[k])) by {
            assert(forall|k: int| 0 <= k < d.len() ==> d[k] == lit[k + j]);
        }
        lemma_nat_text_of_digits(d);
        lemma_digits_value_positive(d);
    }
    if neg {
        assert(lit.drop_first() =~= d);
        assert(int_literal_value(lit) == -digits_value(d));
        if char_at(lit, j, '0') {
            assert(lit =~= seq!['-', '0']);
            assert(d.drop_last() =~= Seq::<char>::empty());
            assert(digits_value(Seq::<char>::empty()) == 0);
            assert(d.last() == '0');
            assert(digits_value(d) == 0);
            assert(int_text(0) == nat_text(0));
        } else {
            assert(lit[0] == '-' && lit[1] != '0');
            assert(lit != seq!['-', '0']);
            assert(seq!['-'] + d =~= lit);
            assert(int_text(-digits_value(d)) == seq!['-'] + nat_text(digits_value(d) as nat));
        }
    } else {
        assert(d =~= lit);
        assert(int_literal_value(lit) == digits_value(d));
        assert(lit.len() == 0 || lit[0] != '-');
        assert(lit != seq!['-', '0']);
    }
}

// ----------------------------------------------------------------------------
// Rendering
// ----------------------------------------------------------------------------

/// Appends the characters of `w` to `out`.
fn push_word(out: &mut String, w: &[char])
    ensures
        final(out)@ == old(out)@ + w@,
{
    let mut i: usize = 0;
    while i < w.len()
        invariant
            i <= w.len(),
            out@ == old(out)@ + w@.take(i as int),
        decreases w.len() - i,
    {
        push_char(out, w[i]);
        i += 1;
        assert(out@ =~= old(out)@ + w@.take(i as int));
    }
    assert(w@.take(i as int) =~= w@);
}

/// Appends the text of a float: what the renderer gives for its literal.
fn push_float<F: Fn(&str) -> String>(out: &mut String, lit: &String, f: &F)
    requires
        is_float_literal(lit@),
        float_renderer(*f),
    ensures
        final(out)@ == old(out)@ + float_texts(*f)(lit@),
{
    let a: &str = lit.as_str();
    assert(call_requires(*f, (a,)));
    let r = f(a);
    proof {
        assert(renders(*f, lit@, r@));
        let o = float_texts(*f)(lit@);
        assert(renders(*f, lit@, o));
    }
    out.append(r.as_str());
}

/// Appends the decimal text of an integer literal's value.
fn push_int(out: &mut String, lit: &String)
    requires
        is_int_literal(lit@),
    ensures
        final(out)@ == old(out)@ + int_text(int_literal_value(lit@)),
{
    proof {
        law_int_literal_text(lit@);
    }
    let cs = chars_of(lit.as_str());
    if cs.len() == 2 && cs[0] == '-' && cs[1] == '0' {
        assert(lit@ =~= seq!['-', '0']);
        push_char(out, '0');
        assert(seq!['0'] == Seq::<char>::empty().push('0'));
    } else {
        assert(lit@ != seq!['-', '0']);
        out.append(lit.as_str());
    }
}

/// Appends the JSON text of `v`.
fn render_value<F: Fn(&str) -> String>(v: &Value, f: &F, out: &mut String)
    requires
        v.wf(),
        float_renderer(*f),
    ensures
        final(out)@ == old(out)@ + json(v.model(), float_texts(*f)),
    decreases v,
{
    let ghost ft = float_texts(*f);
    match v {
        Value::List(vs) => {
            let ghost ms = value_models(vs@);
            push_char(out, '[');
            let ghost start = out@;
            let mut i: usize = 0;
            while i < vs.len()
                invariant
                    i <= vs.len(),
                    ms == value_models(vs@),
                    v.wf(),
                    *v == Value::List(*vs),
                    float_renderer(*f),
                    ft == float_texts(*f),
                    out@ == start + json_items(ms.take(i as int), ft),
                decreases vs.len() - i,
            {
                proof {
                    lemma_values_wf_index(vs@, i as int);
                }
                let ghost before = out@;
                if i > 0 {
                    push_char(out, ',');
                    push_char(out, ' ');
                }
                render_value(&vs[i], f, out);
                proof {
                    let t = ms.take(i + 1);
                    assert(t.drop_last() =~= ms.take(i as int));
                    assert(t.last() == vs@[i as int].model());
                    if i == 0 {
                        assert(json_items(t, ft) == json(t[0], ft));
                        assert(out@ =~= start + json_items(t, ft));
                    } else {
                        assert(out@ =~= start + json_items(t, ft));
                    }
                }
                i += 1;
            }
            assert(ms.take(i as int) =~= ms);
            push_char(out, ']');
            assert(out@ =~= old(out)@ + json(v.model(), ft));
        },
        Value::Object(ds) => {
            let ghost ms = def_models(ds@);
            push_char(out, '{');
            let ghost start = out@;
            let mut i: usize = 0;
            while i < ds.len()
                invariant
                    i <= ds.len(),
                    ms == def_models(ds@),
                    v.wf(),
                    *v == Value::Object(*ds),
                    float_renderer(*f),
                    ft == float_texts(*f),
                    out@ == start + json_members(ms.take(i as int), ft),
                decreases ds.len() - i,
            {
                proof {
                    lemma_defs_wf_index(ds@, i as int);
                }
                if i > 0 {
                    push_char(out, ',');
                    push_char(out, ' ');
                }
                let ghost before = out@;
                let d = &ds[i];
                push_char(out, '"');
                out.append(d.key.as_str());
                push_char(out, '"');
                push_char(out, ':');
                push_char(out, ' ');
                render_value(&d.value, f, out);
                proof {
                    let t = ms.take(i + 1);
                    assert(t.drop_last() =~= ms.take(i as int));
                    assert(t.last() == (d.key@, d.value.model()));
                    assert(out@ =~= before + json_member(t.last(), ft));
                    if i == 0 {
                        assert(json_members(t, ft) == json_member(t[0], ft));
                        assert(out@ =~= start + json_members(t, ft));
                    } else {
                        assert(out@ =~= start + json_members(t, ft));
                    }
                }
                i += 1;
            }
            assert(ms.take(i as int) =~= ms);
            push_char(out, '}');
            assert(out@ =~= old(out)@ + json(v.model(), ft));
        },
        Value::Int(lit) => {
            push_int(out, lit);
        },
        Value::Float(lit) => {
            push_float(out, lit, f);
        },
        Value::Bool(b) => {
            if *b {
                push_word(out, &['t', 'r', 'u', 'e']);
            } else {
                push_word(out, &['f', 'a', 'l', 's', 'e']);
            }
        },
        Value::Str(t) => {
            push_char(out, '"');
            push_escaped(out, t);
            push_char(out, '"');
            assert(out@ =~= old(out)@ + quoted(t@));
        },
    }
}

impl Value {
    /// The single-line JSON text of this value. Each float is written as
    /// `render_float` writes its literal.
    pub fn to_json<F: Fn(&str) -> String>(&self, render_float: &F) -> (r: String)
        requires
            self.wf(),
            float_renderer(*render_float),
        ensures
            r@ == json(self.model(), float_texts(*render_float)),
    {
        let mut out = String::new();
        render_value(self, render_float, &mut out);
        assert(out@ =~= json(self.model(), float_texts(*render_float)));
        out
    }
}

} // verus!
