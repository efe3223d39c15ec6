//! The JSON text of values built from plain parts.
use vstd::prelude::*;
use crate::model::{JValue, json, json_items, json_members, json_member, bool_text, item_sep};
use crate::reading::{word, bools, sep_tail, joined};

verus! {

/// A comma and a space, as JSON output separates items.
pub open spec fn comma_space() -> Seq<char> {
    seq![',', ' ']
}

proof fn lemma_sep_tail_push(xs: Seq<bool>, b: bool, sep: Seq<char>)
    ensures
        sep_tail(xs.push(b), sep) == sep_tail(xs, sep) + sep + word(b),
    decreases xs.len(),
{
    if xs.len() == 0 {
        assert(xs.push(b).skip(1) =~= Seq::<bool>::empty());
        assert(xs.push(b)[0] == b);
        assert(sep_tail(xs.push(b).skip(1), sep) =~= Seq::<char>::empty());
        assert(sep_tail(xs.push(b), sep) =~= sep + word(b) + Seq::<char>::empty());
        assert(sep_tail(xs, sep) + sep + word(b) =~= sep + word(b));
    } else {
        assert(xs.push(b).skip(1) =~= xs.skip(1).push(b));
        assert(xs.push(b)[0] == xs[0]);
        lemma_sep_tail_push(xs.skip(1), b, sep);
        assert(sep_tail(xs.push(b), sep) =~= sep + word(xs[0]) + (sep_tail(xs.skip(1), sep) + sep
            + word(b)));
        assert(sep_tail(xs, sep) + sep + word(b) =~= sep + word(xs[0]) + sep_tail(xs.skip(1), sep)
            + sep + word(b));
    }
}

proof fn lemma_joined_push(xs: Seq<bool>, b: bool, sep: Seq<char>)
    requires
        xs.len() >= 1,
    ensures
        joined(xs.push(b), sep) == joined(xs, sep) + sep + word(b),
{
    assert(xs.push(b).skip(1) =~= xs.skip(1).push(b));
    assert(xs.push(b)[0] == xs[0]);
    lemma_sep_tail_push(xs.skip(1), b, sep);
    assert(joined(xs.push(b), sep) =~= joined(xs, sep) + sep + word(b));
}

proof fn lemma_bool_items(bs: Seq<bool>, ft: spec_fn(Seq<char>) -> Seq<char>)
    requires
        bs.len() >= 1,
    ensures
        json_items(bools(bs), ft) == joined(bs, comma_space()),
    decreases bs.len(),
{
    let vs = bools(bs);
    assert(vs.len() == bs.len());
    assert(word(bs.last()) =~= bool_text(bs.last()));
    assert(vs[0] == JValue::Bool(bs[0]));
    assert(vs.last() == JValue::Bool(bs.last()));
    if bs.len() == 1 {
        assert(bs.skip(1) =~= Seq::<bool>::empty());
        assert(joined(bs, comma_space()) =~= word(bs[0]));
        assert(word(bs[0]) =~= bool_text(bs[0]));
        assert(json_items(vs, ft) == json(vs[0], ft));
        assert(json(vs[0], ft) == bool_text(bs[0]));
    } else {
        let front = bs.drop_last();
        assert(vs.drop_last() =~= bools(front));
        lemma_bool_items(front, ft);
        assert(bs =~= front.push(bs.last()));
        lemma_joined_push(front, bs.last(), comma_space());
        assert(item_sep() =~= comma_space());
        assert(json(vs.last(), ft) == word(bs.last()));
        assert(json_items(vs, ft) == json_items(vs.drop_last(), ft) + item_sep() + json(
            vs.last(),
            ft,
        ));
        assert(joined(bs, comma_space()) == joined(front, comma_space()) + comma_space() + word(
            bs.last(),
        ));
        assert(json_items(vs.drop_last(), ft) == joined(front, comma_space()));
    }
}

/// A list of booleans is written as `[`, the words `true` and `false` in
/// order with `, ` between each two, and `]`.
pub proof fn law_json_bool_list(bs: Seq<bool>, ft: spec_fn(Seq<char>) -> Seq<char>)
    ensures
        json(JValue::List(bools(bs)), ft) == seq!['['] + joined(bs, comma_space()) + seq![']'],
{
    if bs.len() == 0 {
        assert(bools(bs).len() == 0);
        assert(seq!['['] + joined(bs, comma_space()) + seq![']'] =~= seq!['['] + Seq::<
            char,
        >::empty() + seq![']']);
    } else {
        lemma_bool_items(bs, ft);
    }
}

/// A member is written as its key in double quotes, `: ` and its value; an
/// object with one more member is written with `, ` and that member before
/// its closing `}`.
pub proof fn law_json_object_push(
    ds: Seq<(Seq<char>, JValue)>,
    k: Seq<char>,
    v: JValue,
    ft: spec_fn(Seq<char>) -> Seq<char>,
)
    ensures
        ({
            let member = seq!['"'] + k + seq!['"', ':', ' '] + json(v, ft);
            let before = json(JValue::Object(ds), ft);
            &&& ds.len() == 0 ==> json(JValue::Object(ds.push((k, v))), ft) == seq!['{'] + member
                + seq!['}']
            &&& ds.len() > 0 ==> json(JValue::Object(ds.push((k, v))), ft) == before.take(
                before.len() - 1,
            ) + comma_space() + member + seq!['}']
        }),
{
    let member = seq!['"'] + k + seq!['"', ':', ' '] + json(v, ft);
    let all = ds.push((k, v));
    assert(json_member((k, v), ft) == member);
    assert(all.last() == (k, v));
    assert(all.drop_last() =~= ds);
    if ds.len() == 0 {
        assert(all.len() == 1);
        assert(all[0] == (k, v));
        assert(json_members(all, ft) == member);
    } else {
        let before = json(JValue::Object(ds), ft);
        let inner = json_members(ds, ft);
        assert(before == seq!['{'] + inner + seq!['}']);
        assert(before.take(before.len() - 1) =~= seq!['{'] + inner);
        assert(json_members(all, ft) == inner + item_sep() + member);
        assert(item_sep() =~= comma_space());
        assert(json(JValue::Object(all), ft) =~= seq!['{'] + inner + comma_space() + member
            + seq!['}']);
    }
}

} // verus!
