//! Whether the integers of a value fit a signed 64-bit integer.
use vstd::prelude::*;
use crate::model::{
    JValue, ints_fit, items_fit, members_fit, fits_i64, int_literal_value, digits_value,
    lemma_digit_char_value,
};
use crate::grammar::{lemma_run_all_digits, is_digit, is_int_literal, char_at, digit_run_end};
use crate::value::{Value, value_models, def_models, lemma_values_wf_index, lemma_defs_wf_index};
use crate::text::chars_of;

verus! {

broadcast use vstd::string::group_string_axioms;

proof fn lemma_digits_value_nonneg(d: Seq<char>)
    requires
        forall|k: int| 0 <= k < d.len() ==> is_digit(#[trigger] d[k]),
    ensures
        digits_value(d) >= 0,
    decreases d.len(),
{
    if d.len() > 0 {
        let p = d.drop_last();
        assert(forall|k: int| 0 <= k < p.len() ==> p[k] == d[k]);
        lemma_digits_value_nonneg(p);
        lemma_digit_char_value(d.last());
    }
}

/// The value of a prefix of a digit sequence is at most the value of the whole.
proof fn lemma_digits_value_prefix(d: Seq<char>, k: int)
    requires
        0 <= k <= d.len(),
        forall|j: int| 0 <= j < d.len() ==> is_digit(#[trigger] d[j]),
    ensures
        digits_value(d.take(k)) <= digits_value(d),
    decreases d.len(),
{
    if k < d.len() {
        let p = d.drop_last();
        assert(forall|j: int| 0 <= j < p.len() ==> p[j] == d[j]);
        lemma_digits_value_prefix(p, k);
        assert(p.take(k) =~= d.take(k));
        lemma_digits_value_nonneg(p);
        lemma_digit_char_value(d.last());
    } else {
        assert(d.take(k) =~= d);
    }
}

/// Whether the value of an integer literal fits a signed 64-bit integer.
fn literal_fits(lit: &String) -> (r: bool)
    requires
        is_int_literal(lit@),
    ensures
        r == fits_i64(int_literal_value(lit@)),
{
    let cs = chars_of(lit.as_str());
    let neg = cs.len() > 0 && cs[0] == '-';
    let start: usize = if neg { 1 } else { 0 };
    let limit: u128 = if neg { 9223372036854775808 } else { 9223372036854775807 };
    let ghost d = cs@.subrange(start as int, cs@.len() as int);
    proof {
        if char_at(cs@, start as int, '0') {
            assert(cs@.len() == start + 1);
        } else {
            lemma_run_all_digits(cs@, start + 1);
        }
        assert(forall|k: int| 0 <= k < d.len() ==> is_digit(#[trigger] d[k])) by {
            assert(forall|k: int| 0 <= k < d.len() ==> d[k] == cs@[k + start]);
        }
        if neg {
            assert(cs@.drop_first() =~= d);
            assert(cs@[0] == '-');
        } else {
            assert(cs@ =~= d);
        }
        assert(cs@.subrange(start as int, start as int) =~= Seq::<char>::empty());
    }
    let mut acc: u128 = 0;
    let mut i: usize = start;
    while i < cs.len()
        invariant
            start <= i <= cs.len(),
            d == cs@.subrange(start as int, cs@.len() as int),
            forall|k: int| 0 <= k < d.len() ==> is_digit(#[trigger] d[k]),
            acc == digits_value(cs@.subrange(start as int, i as int)),
            acc <= limit,
            limit <= 9223372036854775808,
            neg ==> int_literal_value(lit@) == -digits_value(d) && limit == 9223372036854775808,
            !neg ==> int_literal_value(lit@) == digits_value(d) && limit == 9223372036854775807,
        decreases cs.len() - i,
    {
        let c = cs[i];
        proof {
            assert(c == d[i - start]);
            lemma_digit_char_value(c);
            assert(cs@.subrange(start as int, i + 1).drop_last() =~= cs@.subrange(
                start as int,
                i as int,
            ));
        }
        let x = (c as u32 - '0' as u32) as u128;
        acc = acc * 10 + x;
        i += 1;
        if acc > limit {
            proof {
                assert(cs@.subrange(start as int, i as int) =~= d.take(i - start));
                lemma_digits_value_prefix(d, i - start);
            }
            return false;
        }
    }
    assert(cs@.subrange(start as int, i as int) =~= d);
    true
}

proof fn lemma_items_fit_index(vs: Seq<JValue>, k: int)
    requires
        items_fit(vs),
        0 <= k < vs.len(),
    ensures
        ints_fit(vs[k]),
    decreases vs.len(),
{
    if k < vs.len() - 1 {
        lemma_items_fit_index(vs.drop_last(), k);
    }
}

proof fn lemma_members_fit_index(ds: Seq<(Seq<char>, JValue)>, k: int)
    requires
        members_fit(ds),
        0 <= k < ds.len(),
    ensures
        ints_fit(ds[k].1),
    decreases ds.len(),
{
    if k < ds.len() - 1 {
        lemma_members_fit_index(ds.drop_last(), k);
    }
}

impl Value {
    /// Whether every integer in this value fits a signed 64-bit integer.
    pub fn ints_fit(&self) -> (r: bool)
        requires
            self.wf(),
        ensures
            r == ints_fit(self.model()),
        decreases self,
    {
        match self {
            Value::List(vs) => {
                let ghost ms = value_models(vs@);
                let mut i: usize = 0;
                while i < vs.len()
                    invariant
                        i <= vs.len(),
                        ms == value_models(vs@),
                        self.wf(),
                        *self == Value::List(*vs),
                        items_fit(ms.take(i as int)),
                    decreases vs.len() - i,
                {
                    proof {
                        lemma_values_wf_index(vs@, i as int);
                        assert(ms.take(i + 1).drop_last() =~= ms.take(i as int));
                    }
                    if !vs[i].ints_fit() {
                        proof {
                            if items_fit(ms) {
                                lemma_items_fit_index(ms, i as int);
                            }
                        }
                        return false;
                    }
                    i += 1;
                }
                assert(ms.take(i as int) =~= ms);
                true
            },
            Value::Object(ds) => {
                let ghost ms = def_models(ds@);
                let mut i: usize = 0;
                while i < ds.len()
                    invariant
                        i <= ds.len(),
                        ms == def_models(ds@),
                        self.wf(),
                        *self == Value::Object(*ds),
                        members_fit(ms.take(i as int)),
                    decreases ds.len() - i,
                {
                    proof {
                        lemma_defs_wf_index(ds@, i as int);
                        assert(ms.take(i + 1).drop_last() =~= ms.take(i as int));
                    }
                    if !ds[i].value.ints_fit() {
                        proof {
                            if members_fit(ms) {
                                lemma_members_fit_index(ms, i as int);
                            }
                        }
                        return false;
                    }
                    i += 1;
                }
                assert(ms.take(i as int) =~= ms);
                true
            },
            Value::Int(lit) => literal_fits(lit),
            _ => true,
        }
    }
}

} // verus!
