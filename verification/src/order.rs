//! The configuration reference does not depend on the order in which a
//! schema's objects hold their entries: values equal up to that order
//! render the same Markdown.
use vstd::prelude::*;
use crate::json::{
    Json, JsonView, jview, spec_get, str_at, array_at, object_at, entry_index, lemma_entry_index,
    key_pos, lemma_key_pos, entries_view, items_view, lemma_items_view, lemma_entries_view, keys_of,
    entries_get,
};
use crate::json::{json_size, items_size, lemma_at_smaller, lemma_size_positive};
use crate::schema::{reordered, reordered_items, reordered_entries, keys_covered, keys_distinct};
use crate::doc::{
    ref_name, single_all_of, md_type, md_type_list, md_any_of, md_primitive, md_default,
    desc_or_empty, value_at, md_row, md_rows, md_field_table, first_str, tagged_title,
    variant_title, drop_type_key, md_variant_fields, md_variant, md_variants, md_values,
    md_definition_body, md_definition, md_definitions, definitions_of, md_head, md_tail,
    md_reference,
};
use crate::text::{sort_seqs, texts_distinct, lemma_sort_same_texts};

verus! {

proof fn lemma_entry_index_is_key_pos(es: Seq<(String, Json)>, k: Seq<char>)
    ensures
        entry_index(es, k) == key_pos(entries_view(es), k),
{
    let ev = entries_view(es);
    lemma_entry_index(es, k);
    lemma_key_pos(ev, k);
    lemma_entries_view(es);
    match entry_index(es, k) {
        Some(i) => {
            assert(ev[i].0 == k);
            match key_pos(ev, k) {
                Some(j) => {
                    if j < i {
                        assert(es[j].0@ == ev[j].0);
                    }
                    if i < j {
                        assert(ev[i].0 == k);
                    }
                },
                None => {},
            }
        },
        None => {
            if let Some(j) = key_pos(ev, k) {
                assert(es[j].0@ == ev[j].0);
            }
        },
    }
}

proof fn lemma_reordered_entries_at(x: Seq<(Seq<char>, JsonView)>, y: Seq<(Seq<char>, JsonView)>)
    requires
        reordered_entries(x, y),
    ensures
        forall|i: int| 0 <= i < x.len() ==> (key_pos(y, (#[trigger] x[i]).0) matches Some(j) && reordered(x[i].1, y[j].1)),
    decreases x.len(),
{
    if x.len() > 0 {
        let n = x.len() - 1;
        let init = x.subrange(0, n);
        lemma_reordered_entries_at(init, y);
        assert forall|i: int| 0 <= i < x.len() implies (key_pos(y, (#[trigger] x[i]).0) matches Some(j) && reordered(x[i].1, y[j].1)) by {
            if i < n {
                assert(init[i] == x[i]);
            }
        }
    }
}

proof fn lemma_reordered_items_at(x: Seq<JsonView>, y: Seq<JsonView>)
    requires
        x.len() == y.len(),
        reordered_items(x, y),
    ensures
        forall|i: int| 0 <= i < x.len() ==> reordered(#[trigger] x[i], y[i]),
    decreases x.len(),
{
    if x.len() > 0 {
        let n = x.len() - 1;
        lemma_reordered_items_at(x.subrange(0, n), y.subrange(0, n));
        assert forall|i: int| 0 <= i < x.len() implies reordered(#[trigger] x[i], y[i]) by {
            if i < n {
                assert(x.subrange(0, n)[i] == x[i]);
                assert(y.subrange(0, n)[i] == y[i]);
            }
        }
    }
}

/// Looking a key up in two values equal up to entry order finds values
/// equal up to entry order, or nothing in both.
pub proof fn lemma_get_reordered(a: Json, b: Json, k: Seq<char>)
    requires
        reordered(a@, b@),
    ensures
        spec_get(a, k) is None <==> spec_get(b, k) is None,
        spec_get(a, k) matches Some(v) ==> (spec_get(b, k) matches Some(w) && reordered(v@, w@)),
{
    match a {
        Json::Object(ea) => {
            if let Json::Object(eb) = b {
                let xv = entries_view(ea@);
                let yv = entries_view(eb@);
                lemma_entry_index_is_key_pos(ea@, k);
                lemma_entry_index_is_key_pos(eb@, k);
                lemma_entries_view(ea@);
                lemma_entries_view(eb@);
                lemma_reordered_entries_at(xv, yv);
                lemma_key_pos(xv, k);
                lemma_key_pos(yv, k);
                match key_pos(xv, k) {
                    Some(i) => {
                        assert(xv[i].0 == k);
                        let j = key_pos(yv, xv[i].0)->0;
                        assert(xv[i].1 == ea@[i].1@);
                        assert(yv[j].1 == eb@[j].1@);
                    },
                    None => {
                        if let Some(j) = key_pos(yv, k) {
                            assert(keys_covered(yv, xv));
                            assert(key_pos(xv, yv[j].0) is Some);
                        }
                    },
                }
            }
        },
        _ => {},
    }
}

/// The text under a key is the same in two values equal up to entry order.
pub proof fn lemma_str_at_reordered(a: Json, b: Json, k: Seq<char>)
    requires
        reordered(a@, b@),
    ensures
        str_at(a, k) == str_at(b, k),
{
    lemma_get_reordered(a, b, k);
}

/// The items under a key of two values equal up to entry order: both
/// absent, or of the same length and equal up to entry order item by item.
pub proof fn lemma_array_at_reordered(a: Json, b: Json, k: Seq<char>)
    requires
        reordered(a@, b@),
    ensures
        array_at(a, k) is None <==> array_at(b, k) is None,
        array_at(a, k) matches Some(x) ==> (array_at(b, k) matches Some(y) && x@.len() == y@.len()
            && forall|i: int| 0 <= i < x@.len() ==> reordered((#[trigger] x@[i])@, y@[i]@)),
{
    lemma_get_reordered(a, b, k);
    if let Some(Json::Array(x)) = spec_get(a, k) {
        if let Some(Json::Array(y)) = spec_get(b, k) {
            lemma_items_view(x@);
            lemma_items_view(y@);
            lemma_reordered_items_at(items_view(x@), items_view(y@));
            assert forall|i: int| 0 <= i < x@.len() implies reordered((#[trigger] x@[i])@, y@[i]@) by {
                assert(items_view(x@)[i] == jview(x@[i]));
                assert(items_view(y@)[i] == jview(y@[i]));
            }
        }
    }
}

/// The entries under a key of two values equal up to entry order: both
/// absent, or equal up to entry order as objects.
pub proof fn lemma_object_at_reordered(a: Json, b: Json, k: Seq<char>)
    requires
        reordered(a@, b@),
    ensures
        object_at(a, k) is None <==> object_at(b, k) is None,
        object_at(a, k) matches Some(x) ==> (object_at(b, k) matches Some(y) && reordered(
            Json::Object(x)@,
            Json::Object(y)@,
        )),
{
    lemma_get_reordered(a, b, k);
}

/// Two values equal up to entry order that are arrays: their items, in
/// order, are equal up to entry order.
proof fn lemma_array_value(v: Json, w: Json)
    requires
        reordered(v@, w@),
        v is Array,
    ensures
        w is Array,
        w->Array_0@.len() == v->Array_0@.len(),
        forall|i: int| 0 <= i < v->Array_0@.len() ==> reordered((#[trigger] v->Array_0@[i])@, w->Array_0@[i]@),
{
    let x = v->Array_0;
    let y = w->Array_0;
    lemma_items_view(x@);
    lemma_items_view(y@);
    lemma_reordered_items_at(items_view(x@), items_view(y@));
    assert forall|i: int| 0 <= i < x@.len() implies reordered((#[trigger] x@[i])@, y@[i]@) by {
        assert(items_view(x@)[i] == jview(x@[i]));
        assert(items_view(y@)[i] == jview(y@[i]));
    }
}

proof fn lemma_md_type(a: Json, b: Json)
    requires
        reordered(a@, b@),
    ensures
        md_type(a) == md_type(b),
    decreases json_size(a), 2nat, 0nat,
{
    lemma_at_smaller(a, "allOf"@);
    lemma_at_smaller(a, "anyOf"@);
    lemma_str_at_reordered(a, b, "$ref"@);
    lemma_array_at_reordered(a, b, "allOf"@);
    if ref_name(a) is Some {
    } else if single_all_of(a) is Some {
        let x = array_at(a, "allOf"@)->0;
        let y = array_at(b, "allOf"@)->0;
        lemma_md_type(x@[0], y@[0]);
    } else {
        lemma_get_reordered(a, b, "type"@);
        match spec_get(a, "type"@) {
            Some(Json::String(t)) => {
                lemma_md_primitive(t@, a, b);
            },
            Some(Json::Array(ts)) => {
                let w = spec_get(b, "type"@)->0;
                lemma_array_value(Json::Array(ts), w);
                lemma_md_type_list(ts@, w->Array_0@, a, b);
            },
            _ => {},
        }
        lemma_array_at_reordered(a, b, "anyOf"@);
        if let Some(any) = array_at(a, "anyOf"@) {
            let any2 = array_at(b, "anyOf"@)->0;
            lemma_md_any_of(any@, any2@);
        }
        lemma_get_reordered(a, b, "oneOf"@);
    }
}

proof fn lemma_md_type_list(ts: Seq<Json>, us: Seq<Json>, a: Json, b: Json)
    requires
        reordered(a@, b@),
        ts.len() == us.len(),
        forall|i: int| 0 <= i < ts.len() ==> reordered((#[trigger] ts[i])@, us[i]@),
    ensures
        md_type_list(ts, a) == md_type_list(us, b),
    decreases json_size(a), 1nat, ts.len(),
{
    if ts.len() > 0 {
        let n = ts.len() - 1;
        let ti = ts.subrange(0, n);
        let ui = us.subrange(0, n);
        assert forall|i: int| 0 <= i < ti.len() implies reordered((#[trigger] ti[i])@, ui[i]@) by {
            assert(ti[i] == ts[i] && ui[i] == us[i]);
        }
        lemma_md_type_list(ti, ui, a, b);
        assert(reordered(ts[n]@, us[n]@));
        if let Json::String(t) = ts[n] {
            lemma_md_primitive(t@, a, b);
        }
    }
}

proof fn lemma_md_any_of(xs: Seq<Json>, ys: Seq<Json>)
    requires
        xs.len() == ys.len(),
        forall|i: int| 0 <= i < xs.len() ==> reordered((#[trigger] xs[i])@, ys[i]@),
    ensures
        md_any_of(xs) == md_any_of(ys),
    decreases items_size(xs), 3nat, 0nat,
{
    if xs.len() > 0 {
        let n = xs.len() - 1;
        let last = xs[n];
        lemma_size_positive(last);
        let xi = xs.subrange(0, n);
        let yi = ys.subrange(0, n);
        assert forall|i: int| 0 <= i < xi.len() implies reordered((#[trigger] xi[i])@, yi[i]@) by {
            assert(xi[i] == xs[i] && yi[i] == ys[i]);
        }
        lemma_md_any_of(xi, yi);
        assert(reordered(xs[n]@, ys[n]@));
        lemma_str_at_reordered(last, ys[n], "type"@);
        lemma_md_type(last, ys[n]);
    }
}

proof fn lemma_md_primitive(t: Seq<char>, a: Json, b: Json)
    requires
        reordered(a@, b@),
    ensures
        md_primitive(t, a) == md_primitive(t, b),
    decreases json_size(a), 1nat, 0nat,
{
    lemma_at_smaller(a, "additionalProperties"@);
    lemma_at_smaller(a, "items"@);
    lemma_get_reordered(a, b, "additionalProperties"@);
    lemma_get_reordered(a, b, "items"@);
    if let Some(add) = spec_get(a, "additionalProperties"@) {
        let add2 = spec_get(b, "additionalProperties"@)->0;
        lemma_md_type(add, add2);
        assert(add == Json::Bool(false) <==> add2 == Json::Bool(false));
    }
    if let Some(items) = spec_get(a, "items"@) {
        let items2 = spec_get(b, "items"@)->0;
        lemma_md_type(items, items2);
    }
}

proof fn lemma_md_default(a: Json, b: Json)
    requires
        reordered(a@, b@),
    ensures
        md_default(a) == md_default(b),
{
    lemma_get_reordered(a, b, "default"@);
    if let Some(v) = spec_get(a, "default"@) {
        let w = spec_get(b, "default"@)->0;
        match v {
            Json::Array(x) => {
                lemma_array_value(v, w);
            },
            Json::Object(x) => {
                let y = w->Object_0;
                lemma_entries_view(x@);
                lemma_entries_view(y@);
            },
            _ => {},
        }
    }
}

proof fn lemma_md_row(key: Seq<char>, a: Json, b: Json)
    requires
        reordered(a@, b@),
    ensures
        md_row(key, a) == md_row(key, b),
{
    lemma_md_type(a, b);
    lemma_md_default(a, b);
    lemma_str_at_reordered(a, b, "description"@);
    assert(desc_or_empty(a) == desc_or_empty(b));
}

/// The value under a key of two objects equal up to entry order.
pub proof fn lemma_value_at_reordered(x: Vec<(String, Json)>, y: Vec<(String, Json)>, k: Seq<char>)
    requires
        reordered(Json::Object(x)@, Json::Object(y)@),
    ensures
        reordered(value_at(x@, k)@, value_at(y@, k)@),
{
    lemma_get_reordered(Json::Object(x), Json::Object(y), k);
    assert(entries_get(x@, k) == spec_get(Json::Object(x), k));
    assert(entries_get(y@, k) == spec_get(Json::Object(y), k));
}

proof fn lemma_md_rows(keys: Seq<Seq<char>>, x: Vec<(String, Json)>, y: Vec<(String, Json)>)
    requires
        reordered(Json::Object(x)@, Json::Object(y)@),
    ensures
        md_rows(keys, x@) == md_rows(keys, y@),
    decreases keys.len(),
{
    if keys.len() > 0 {
        let k = keys[keys.len() - 1];
        lemma_md_rows(keys.subrange(0, keys.len() - 1), x, y);
        lemma_value_at_reordered(x, y, k);
        lemma_md_row(k, value_at(x@, k), value_at(y@, k));
    }
}

/// Two objects equal up to entry order have the same keys, each once.
pub proof fn lemma_keys_reordered(x: Vec<(String, Json)>, y: Vec<(String, Json)>)
    requires
        reordered(Json::Object(x)@, Json::Object(y)@),
    ensures
        texts_distinct(keys_of(x@)),
        texts_distinct(keys_of(y@)),
        forall|e: Seq<char>| keys_of(x@).contains(e) <==> keys_of(y@).contains(e),
        sort_seqs(keys_of(x@)) == sort_seqs(keys_of(y@)),
{
    let xv = entries_view(x@);
    let yv = entries_view(y@);
    lemma_entries_view(x@);
    lemma_entries_view(y@);
    lemma_reordered_entries_at(xv, yv);
    let kx = keys_of(x@);
    let ky = keys_of(y@);
    assert forall|i: int, j: int| 0 <= i < j < kx.len() implies #[trigger] kx[i] != #[trigger] kx[j] by {
        assert(kx[i] == xv[i].0 && kx[j] == xv[j].0);
    }
    assert forall|i: int, j: int| 0 <= i < j < ky.len() implies #[trigger] ky[i] != #[trigger] ky[j] by {
        assert(ky[i] == yv[i].0 && ky[j] == yv[j].0);
    }
    assert forall|e: Seq<char>| kx.contains(e) <==> ky.contains(e) by {
        if kx.contains(e) {
            let i = choose|i: int| 0 <= i < kx.len() && kx[i] == e;
            assert(xv[i].0 == e);
            let j = key_pos(yv, xv[i].0)->0;
            lemma_key_pos(yv, e);
            assert(ky[j] == yv[j].0);
        }
        if ky.contains(e) {
            let j = choose|j: int| 0 <= j < ky.len() && ky[j] == e;
            assert(yv[j].0 == e);
            assert(keys_covered(yv, xv));
            assert(key_pos(xv, yv[j].0) is Some);
            lemma_key_pos(xv, e);
            let i = key_pos(xv, e)->0;
            assert(kx[i] == xv[i].0);
        }
    }
    lemma_sort_same_texts(kx, ky);
}

proof fn lemma_md_field_table(x: Vec<(String, Json)>, y: Vec<(String, Json)>)
    requires
        reordered(Json::Object(x)@, Json::Object(y)@),
    ensures
        md_field_table(x@) == md_field_table(y@),
{
    lemma_keys_reordered(x, y);
    lemma_md_rows(sort_seqs(keys_of(x@)), x, y);
}

proof fn lemma_first_str(a: Json, b: Json, k: Seq<char>)
    requires
        reordered(a@, b@),
    ensures
        first_str(array_at(a, k)) == first_str(array_at(b, k)),
{
    lemma_array_at_reordered(a, b, k);
    if let Some(x) = array_at(a, k) {
        let y = array_at(b, k)->0;
        if x@.len() > 0 {
            assert(reordered(x@[0]@, y@[0]@));
        }
    }
}

proof fn lemma_variant_title(a: Json, b: Json)
    requires
        reordered(a@, b@),
    ensures
        variant_title(a) == variant_title(b),
{
    lemma_str_at_reordered(a, b, "title"@);
    lemma_first_str(a, b, "enum"@);
    lemma_get_reordered(a, b, "properties"@);
    if let Some(p) = spec_get(a, "properties"@) {
        let p2 = spec_get(b, "properties"@)->0;
        lemma_get_reordered(p, p2, "type"@);
        if let Some(t) = spec_get(p, "type"@) {
            let t2 = spec_get(p2, "type"@)->0;
            lemma_first_str(t, t2, "enum"@);
        }
    }
    assert(tagged_title(a) == tagged_title(b));
}

proof fn lemma_drop_type_key(ks: Seq<Seq<char>>)
    ensures
        forall|e: Seq<char>| drop_type_key(ks).contains(e) <==> (ks.contains(e) && e != "type"@),
        texts_distinct(ks) ==> texts_distinct(drop_type_key(ks)),
    decreases ks.len(),
{
    if ks.len() > 0 {
        let n = ks.len() - 1;
        let init = ks.subrange(0, n);
        lemma_drop_type_key(init);
        let d = drop_type_key(init);
        let r = drop_type_key(ks);
        assert forall|e: Seq<char>| r.contains(e) <==> (ks.contains(e) && e != "type"@) by {
            if r.contains(e) {
                let i = choose|i: int| 0 <= i < r.len() && r[i] == e;
                if ks[n] == "type"@ {
                    assert(d.contains(e));
                } else if i < d.len() {
                    assert(d[i] == e);
                    assert(d.contains(e));
                }
                if i < d.len() || ks[n] == "type"@ {
                    assert(d.contains(e));
                    assert(init.contains(e));
                    let m = choose|m: int| 0 <= m < init.len() && init[m] == e;
                    assert(ks[m] == e);
                    assert(ks.contains(e));
                } else {
                    assert(e == ks[n]);
                    assert(ks.contains(e));
                }
            }
            if ks.contains(e) && e != "type"@ {
                let i = choose|i: int| 0 <= i < ks.len() && ks[i] == e;
                if i < n {
                    assert(init[i] == e);
                    assert(init.contains(e));
                    assert(d.contains(e));
                    let j = choose|j: int| 0 <= j < d.len() && d[j] == e;
                    if ks[n] != "type"@ {
                        assert(r[j] == e);
                    }
                } else {
                    assert(r[r.len() - 1] == e);
                }
            }
        }
        if texts_distinct(ks) {
            assert forall|i: int, j: int| 0 <= i < j < init.len() implies #[trigger] init[i] != #[trigger] init[j] by {
                assert(init[i] == ks[i] && init[j] == ks[j]);
            }
            if ks[n] != "type"@ {
                assert(!d.contains(ks[n])) by {
                    if d.contains(ks[n]) {
                        assert(init.contains(ks[n]));
                        let i = choose|i: int| 0 <= i < init.len() && init[i] == ks[n];
                        assert(ks[i] == ks[n]);
                    }
                }
                assert forall|i: int, j: int| 0 <= i < j < r.len() implies #[trigger] r[i] != #[trigger] r[j] by {
                    if j == r.len() - 1 {
                        assert(r[j] == ks[n]);
                        assert(r[i] == d[i]);
                        assert(d.contains(d[i]));
                    } else {
                        assert(r[i] == d[i] && r[j] == d[j]);
                    }
                }
            }
        }
    }
}

proof fn lemma_md_variant_fields(keys: Seq<Seq<char>>, x: Vec<(String, Json)>, y: Vec<(String, Json)>)
    requires
        reordered(Json::Object(x)@, Json::Object(y)@),
    ensures
        md_variant_fields(keys, x@) == md_variant_fields(keys, y@),
    decreases keys.len(),
{
    if keys.len() > 0 {
        let k = keys[keys.len() - 1];
        lemma_md_variant_fields(keys.subrange(0, keys.len() - 1), x, y);
        lemma_value_at_reordered(x, y, k);
        lemma_md_type(value_at(x@, k), value_at(y@, k));
    }
}

proof fn lemma_md_variant(a: Json, b: Json)
    requires
        reordered(a@, b@),
    ensures
        md_variant(a) == md_variant(b),
{
    lemma_variant_title(a, b);
    lemma_str_at_reordered(a, b, "description"@);
    assert(desc_or_empty(a) == desc_or_empty(b));
    lemma_object_at_reordered(a, b, "properties"@);
    if let Some(x) = object_at(a, "properties"@) {
        let y = object_at(b, "properties"@)->0;
        lemma_entries_view(x@);
        lemma_entries_view(y@);
        lemma_keys_reordered(x, y);
        lemma_drop_type_key(keys_of(x@));
        lemma_drop_type_key(keys_of(y@));
        let dx = drop_type_key(keys_of(x@));
        let dy = drop_type_key(keys_of(y@));
        assert forall|e: Seq<char>| dx.contains(e) <==> dy.contains(e) by {
            assert(keys_of(x@).contains(e) <==> keys_of(y@).contains(e));
        }
        lemma_sort_same_texts(dx, dy);
        lemma_md_variant_fields(sort_seqs(dx), x, y);
    }
}

proof fn lemma_md_variants(xs: Seq<Json>, ys: Seq<Json>)
    requires
        xs.len() == ys.len(),
        forall|i: int| 0 <= i < xs.len() ==> reordered((#[trigger] xs[i])@, ys[i]@),
    ensures
        md_variants(xs) == md_variants(ys),
        md_values(xs) == md_values(ys),
    decreases xs.len(),
{
    if xs.len() > 0 {
        let n = xs.len() - 1;
        let xi = xs.subrange(0, n);
        let yi = ys.subrange(0, n);
        assert forall|i: int| 0 <= i < xi.len() implies reordered((#[trigger] xi[i])@, yi[i]@) by {
            assert(xi[i] == xs[i] && yi[i] == ys[i]);
        }
        lemma_md_variants(xi, yi);
        assert(reordered(xs[n]@, ys[n]@));
        lemma_md_variant(xs[n], ys[n]);
    }
}

proof fn lemma_md_definition(name: Seq<char>, a: Json, b: Json)
    requires
        reordered(a@, b@),
    ensures
        md_definition(name, a) == md_definition(name, b),
{
    lemma_str_at_reordered(a, b, "description"@);
    lemma_array_at_reordered(a, b, "oneOf"@);
    lemma_array_at_reordered(a, b, "enum"@);
    lemma_object_at_reordered(a, b, "properties"@);
    if let Some(vs) = array_at(a, "oneOf"@) {
        let ws = array_at(b, "oneOf"@)->0;
        lemma_md_variants(vs@, ws@);
    } else if let Some(vals) = array_at(a, "enum"@) {
        let ws = array_at(b, "enum"@)->0;
        lemma_md_variants(vals@, ws@);
    } else if let Some(props) = object_at(a, "properties"@) {
        let p2 = object_at(b, "properties"@)->0;
        lemma_md_field_table(props, p2);
    } else {
        lemma_md_type(a, b);
    }
    assert(md_definition_body(a) == md_definition_body(b));
}

proof fn lemma_md_definitions(names: Seq<Seq<char>>, x: Vec<(String, Json)>, y: Vec<(String, Json)>)
    requires
        reordered(Json::Object(x)@, Json::Object(y)@),
    ensures
        md_definitions(names, x@) == md_definitions(names, y@),
    decreases names.len(),
{
    if names.len() > 0 {
        let k = names[names.len() - 1];
        lemma_md_definitions(names.subrange(0, names.len() - 1), x, y);
        lemma_value_at_reordered(x, y, k);
        lemma_md_definition(k, value_at(x@, k), value_at(y@, k));
    }
}

/// The configuration reference does not depend on the order of object
/// entries: two schemas equal up to that order (same keys, each once, and
/// the same values at every depth) render the same Markdown.
pub proof fn law_reference_ignores_key_order(a: Json, b: Json)
    requires
        reordered(a@, b@),
    ensures
        md_reference(a) == md_reference(b),
{
    lemma_str_at_reordered(a, b, "description"@);
    assert(md_head(a) == md_head(b));
    lemma_object_at_reordered(a, b, "properties"@);
    if let Some(p) = object_at(a, "properties"@) {
        let q = object_at(b, "properties"@)->0;
        lemma_md_field_table(p, q);
    }
    lemma_object_at_reordered(a, b, "definitions"@);
    if let Some(d) = object_at(a, "definitions"@) {
        let e = object_at(b, "definitions"@)->0;
        lemma_keys_reordered(d, e);
        lemma_md_definitions(sort_seqs(keys_of(d@)), d, e);
    }
    assert(md_tail(a) == md_tail(b));
}

} // verus!
