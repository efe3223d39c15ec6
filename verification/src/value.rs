//! The parsed form of a Junk document.
use vstd::prelude::*;
use crate::model::{JValue, int_literal_value};
use crate::grammar::{is_int_literal, is_float_literal};

verus! {

/// A parsed Junk value.
///
/// Integers and floats are held by the text of their literals; strings after
/// their escape sequences were resolved.
#[derive(Debug)]
pub enum Value {
    /// An ordered sequence of values: `[a, b, c]`.
    List(Vec<Value>),
    /// Key-value definitions, in order; an object's `#id` comes first, as `id`.
    Object(Vec<Def>),
    /// A signed 64-bit integer, by its literal.
    Int(String),
    /// A 64-bit floating-point number, by its literal.
    Float(String),
    /// A boolean.
    Bool(bool),
    /// A string.
    Str(String),
}

/// A key-value definition within an object body.
///
/// Definitions come in three forms:
/// - Positive flag: `key` → `key: true`
/// - Negative flag: `!key` → `key: false`
/// - Value assignment: `key: value`
#[derive(Debug)]
pub struct Def {
    pub key: String,
    pub value: Value,
}

impl Value {
    /// The abstract value that this value stands for.
    pub open spec fn model(self) -> JValue
        decreases self,
    {
        match self {
            Value::List(vs) => JValue::List(value_models(vs@)),
            Value::Object(ds) => JValue::Object(def_models(ds@)),
            Value::Int(lit) => JValue::Int(int_literal_value(lit@)),
            Value::Float(lit) => JValue::Float(lit@),
            Value::Bool(b) => JValue::Bool(b),
            Value::Str(t) => JValue::Str(t@),
        }
    }

    /// Every integer holds an integer literal and every float a float literal.
    pub open spec fn wf(self) -> bool
        decreases self,
    {
        match self {
            Value::List(vs) => values_wf(vs@),
            Value::Object(ds) => defs_wf(ds@),
            Value::Int(lit) => is_int_literal(lit@),
            Value::Float(lit) => is_float_literal(lit@),
            Value::Bool(_) => true,
            Value::Str(_) => true,
        }
    }
}

/// The abstract values of a sequence of values.
pub open spec fn value_models(vs: Seq<Value>) -> Seq<JValue>
    decreases vs,
{
    Seq::new(
        vs.len(),
        |i: int|
            if 0 <= i < vs.len() {
                vs[i].model()
            } else {
                JValue::Bool(false)
            },
    )
}

/// The abstract definitions of a sequence of definitions.
pub open spec fn def_models(ds: Seq<Def>) -> Seq<(Seq<char>, JValue)>
    decreases ds,
{
    Seq::new(
        ds.len(),
        |i: int|
            if 0 <= i < ds.len() {
                (ds[i].key@, ds[i].value.model())
            } else {
                (Seq::empty(), JValue::Bool(false))
            },
    )
}

/// Each of `vs` is well-formed.
pub open spec fn values_wf(vs: Seq<Value>) -> bool
    decreases vs,
{
    if vs.len() == 0 {
        true
    } else {
        values_wf(vs.drop_last()) && vs.last().wf()
    }
}

/// The value of each of `ds` is well-formed.
pub open spec fn defs_wf(ds: Seq<Def>) -> bool
    decreases ds,
{
    if ds.len() == 0 {
        true
    } else {
        defs_wf(ds.drop_last()) && ds.last().value.wf()
    }
}

pub proof fn lemma_value_models_push(vs: Seq<Value>, v: Value)
    ensures
        value_models(vs.push(v)) == value_models(vs).push(v.model()),
        values_wf(vs.push(v)) == (values_wf(vs) && v.wf()),
{
    assert(value_models(vs.push(v)) =~= value_models(vs).push(v.model()));
    assert(vs.push(v).drop_last() =~= vs);
}

pub proof fn lemma_def_models_push(ds: Seq<Def>, d: Def)
    ensures
        def_models(ds.push(d)) == def_models(ds).push((d.key@, d.value.model())),
        defs_wf(ds.push(d)) == (defs_wf(ds) && d.value.wf()),
{
    assert(def_models(ds.push(d)) =~= def_models(ds).push((d.key@, d.value.model())));
    assert(ds.push(d).drop_last() =~= ds);
}

pub proof fn lemma_defs_append(a: Seq<Def>, b: Seq<Def>)
    ensures
        def_models(a + b) == def_models(a) + def_models(b),
        defs_wf(a + b) == (defs_wf(a) && defs_wf(b)),
    decreases b.len(),
{
    assert(def_models(a + b) =~= def_models(a) + def_models(b));
    if b.len() > 0 {
        lemma_defs_append(a, b.drop_last());
        assert((a + b).drop_last() =~= a + b.drop_last());
    } else {
        assert(a + b =~= a);
    }
}

pub proof fn lemma_values_wf_index(vs: Seq<Value>, i: int)
    requires
        values_wf(vs),
        0 <= i < vs.len(),
    ensures
        vs[i].wf(),
    decreases vs.len(),
{
    if i < vs.len() - 1 {
        lemma_values_wf_index(vs.drop_last(), i);
    }
}

pub proof fn lemma_defs_wf_index(ds: Seq<Def>, i: int)
    requires
        defs_wf(ds),
        0 <= i < ds.len(),
    ensures
        ds[i].value.wf(),
    decreases ds.len(),
{
    if i < ds.len() - 1 {
        lemma_defs_wf_index(ds.drop_last(), i);
    }
}

} // verus!
