//! The configuration's JSON Schema as the `schema` command emits it.
//!
//! Object keys are sorted at every level before the schema is written, so
//! the output does not depend on the order in which the generator produced
//! them.
use vstd::prelude::*;
use crate::json::{
    Json, JsonView, jview, json_size, items_view, entries_view, lemma_items_view,
    lemma_entries_view, lemma_array_item_smaller, lemma_object_entry_smaller, json_quoted,
    spec_get, str_at, array_at, get, get_str, get_array, opt_str, opt_vec, quote_json,
};
use crate::text::{
    seq_lt, str_lt, str_eq, text, join, join_strings, string_views, chars_of, sub_chars, string_of,
    trim, trim_chars, lines_of, lines_from,
};
use crate::doc::first_str;
use crate::explain::{count_char, lemma_count_join};
use crate::text::{lemma_lt_irreflexive, lemma_lt_total, lemma_lt_transitive};
use crate::json::{key_pos, lemma_key_pos};
use crate::text::{trim_start, trim_end, strip_cr, char_index, lemma_char_index};

verus! {

/// A value with the keys of every object in it sorted.
pub open spec fn sorted_view(v: JsonView) -> JsonView
    decreases v,
{
    match v {
        JsonView::Array(items) => JsonView::Array(sorted_items(items)),
        JsonView::Object(es) => JsonView::Object(sort_entries(sorted_entry_values(es))),
        _ => v,
    }
}

pub open spec fn sorted_items(items: Seq<JsonView>) -> Seq<JsonView>
    decreases items,
{
    if items.len() == 0 {
        seq![]
    } else {
        sorted_items(items.subrange(0, items.len() - 1)).push(sorted_view(items[items.len() - 1]))
    }
}

pub open spec fn sorted_entry_values(es: Seq<(Seq<char>, JsonView)>) -> Seq<(Seq<char>, JsonView)>
    decreases es,
{
    if es.len() == 0 {
        seq![]
    } else {
        let e = es[es.len() - 1];
        sorted_entry_values(es.subrange(0, es.len() - 1)).push((e.0, sorted_view(e.1)))
    }
}

/// Puts an entry after every entry whose key sorts no later than its own.
pub open spec fn insert_entry(x: (Seq<char>, JsonView), t: Seq<(Seq<char>, JsonView)>) -> Seq<
    (Seq<char>, JsonView),
>
    decreases t.len(),
{
    if t.len() == 0 {
        seq![x]
    } else if seq_lt(x.0, t[0].0) {
        seq![x] + t
    } else {
        seq![t[0]] + insert_entry(x, t.subrange(1, t.len() as int))
    }
}

/// Entries in ascending key order; entries with equal keys keep their order.
pub open spec fn sort_entries(s: Seq<(Seq<char>, JsonView)>) -> Seq<(Seq<char>, JsonView)>
    decreases s.len(),
{
    if s.len() == 0 {
        seq![]
    } else {
        insert_entry(s[s.len() - 1], sort_entries(s.subrange(0, s.len() - 1)))
    }
}

proof fn lemma_insert_entry_at(x: (Seq<char>, JsonView), t: Seq<(Seq<char>, JsonView)>, k: int)
    requires
        0 <= k <= t.len(),
        forall|i: int| 0 <= i < k ==> !seq_lt(x.0, (#[trigger] t[i]).0),
        k == t.len() || seq_lt(x.0, t[k].0),
    ensures
        insert_entry(x, t) == t.subrange(0, k) + seq![x] + t.subrange(k, t.len() as int),
    decreases k,
{
    if k == 0 {
        if t.len() == 0 {
            assert(t.subrange(0, 0) + seq![x] + t.subrange(0, 0) =~= seq![x]);
        } else {
            assert(t.subrange(0, 0) + seq![x] + t.subrange(0, t.len() as int) =~= seq![x] + t);
        }
    } else {
        let t1 = t.subrange(1, t.len() as int);
        assert forall|i: int| 0 <= i < k - 1 implies !seq_lt(x.0, (#[trigger] t1[i]).0) by {
            assert(t1[i] == t[i + 1]);
        }
        if k < t.len() {
            assert(t1[k - 1] == t[k]);
        }
        assert(!seq_lt(x.0, t[0].0));
        lemma_insert_entry_at(x, t1, k - 1);
        assert(seq![t[0]] + (t1.subrange(0, k - 1) + seq![x] + t1.subrange(k - 1, t1.len() as int))
            =~= t.subrange(0, k) + seq![x] + t.subrange(k, t.len() as int));
    }
}

pub proof fn lemma_view_insert(v: Seq<(String, Json)>, k: int, e: (String, Json))
    requires
        0 <= k <= v.len(),
    ensures
        entries_view(v.insert(k, e)) == entries_view(v).insert(k, (e.0@, jview(e.1))),
{
    lemma_entries_view(v);
    lemma_entries_view(v.insert(k, e));
    assert(entries_view(v.insert(k, e)) =~= entries_view(v).insert(k, (e.0@, jview(e.1))));
}

pub proof fn lemma_view_push(v: Seq<(String, Json)>, e: (String, Json))
    ensures
        entries_view(v.push(e)) == entries_view(v).push((e.0@, jview(e.1))),
{
    lemma_entries_view(v);
    lemma_entries_view(v.push(e));
    assert(entries_view(v.push(e)) =~= entries_view(v).push((e.0@, jview(e.1))));
}

pub proof fn lemma_view_update(v: Seq<(String, Json)>, k: int, e: (String, Json))
    requires
        0 <= k < v.len(),
    ensures
        entries_view(v.update(k, e)) == entries_view(v).update(k, (e.0@, jview(e.1))),
{
    lemma_entries_view(v);
    lemma_entries_view(v.update(k, e));
    assert(entries_view(v.update(k, e)) =~= entries_view(v).update(k, (e.0@, jview(e.1))));
}

pub proof fn lemma_items_view_push(v: Seq<Json>, e: Json)
    ensures
        items_view(v.push(e)) == items_view(v).push(jview(e)),
{
    lemma_items_view(v);
    lemma_items_view(v.push(e));
    assert(items_view(v.push(e)) =~= items_view(v).push(jview(e)));
}

/// Sorts entries by key, keeping the order of equal keys.
fn sort_entries_by_key(es: Vec<(String, Json)>) -> (r: Vec<(String, Json)>)
    ensures
        entries_view(r@) == sort_entries(entries_view(es@)),
{
    let ghost orig = es@;
    let mut rest = es;
    let mut sorted: Vec<(String, Json)> = Vec::new();
    let n = rest.len();
    let mut i: usize = 0;
    proof {
        lemma_entries_view(orig);
    }
    while i < n
        invariant
            n == orig.len(),
            i <= n,
            rest@ == orig.subrange(i as int, n as int),
            entries_view(sorted@) == sort_entries(entries_view(orig).subrange(0, i as int)),
            entries_view(orig).len() == n,
            forall|j: int| 0 <= j < n ==> #[trigger] entries_view(orig)[j] == (orig[j].0@, jview(orig[j].1)),
        decreases n - i,
    {
        let e = rest.remove(0);
        assert(e == orig[i as int]);
        let m = sorted.len();
        let mut k: usize = 0;
        let ghost sv = entries_view(sorted@);
        proof {
            lemma_entries_view(sorted@);
        }
        while k < m && !str_lt(e.0.as_str(), sorted[k].0.as_str())
            invariant
                m == sorted@.len(),
                k <= m,
                sv == entries_view(sorted@),
                sv.len() == m,
                forall|j: int| 0 <= j < m ==> #[trigger] sv[j] == (sorted@[j].0@, jview(sorted@[j].1)),
                forall|j: int| 0 <= j < k ==> !seq_lt(e.0@, (#[trigger] sv[j]).0),
            decreases m - k,
        {
            k = k + 1;
        }
        proof {
            if k < m {
                assert(sv[k as int].0 == sorted@[k as int].0@);
            }
            lemma_insert_entry_at((e.0@, jview(e.1)), sv, k as int);
            lemma_view_insert(sorted@, k as int, e);
            let pre = entries_view(orig).subrange(0, i + 1);
            assert(pre.subrange(0, i as int) =~= entries_view(orig).subrange(0, i as int));
            assert(pre[i as int] == (e.0@, jview(e.1)));
        }
        sorted.insert(k, e);
        proof {
            assert(entries_view(sorted@) =~= sv.subrange(0, k as int) + seq![(e.0@, jview(e.1))]
                + sv.subrange(k as int, sv.len() as int));
            assert(rest@ =~= orig.subrange(i + 1, n as int));
        }
        i = i + 1;
    }
    assert(entries_view(orig).subrange(0, n as int) =~= entries_view(orig));
    sorted
}

/// Sorts the keys of every object in a value, recursively; arrays keep
/// their order, other values stay as they are.
pub fn sort_keys(value: Json) -> (r: Json)
    ensures
        r@ == sorted_view(value@),
    decreases json_size(value),
{
    let ghost orig = value;
    match value {
        Json::Object(es) => {
            let ghost es0 = es@;
            proof {
                lemma_entries_view(es0);
                assert forall|j: int| 0 <= j < es0.len() implies #[trigger] json_size(es0[j].1)
                    < json_size(orig) by {
                    lemma_object_entry_smaller(es, j);
                }
            }
            let mut rest = es;
            let mut mapped: Vec<(String, Json)> = Vec::new();
            let n = rest.len();
            let mut i: usize = 0;
            while i < n
                invariant
                    n == es0.len(),
                    i <= n,
                    rest@ == es0.subrange(i as int, n as int),
                    orig == value,
                    forall|j: int| 0 <= j < n ==> #[trigger] json_size(es0[j].1) < json_size(orig),
                    entries_view(mapped@) == sorted_entry_values(entries_view(es0).subrange(0, i as int)),
                    entries_view(es0).len() == n,
                    forall|j: int| 0 <= j < n ==> #[trigger] entries_view(es0)[j] == (es0[j].0@, jview(es0[j].1)),
                decreases n - i,
            {
                let (k, v) = rest.remove(0);
                assert((k, v) == es0[i as int]);
                let sv = sort_keys(v);
                let ghost before = mapped@;
                mapped.push((k, sv));
                proof {
                    lemma_view_push(before, (k, sv));
                    let pre = entries_view(es0).subrange(0, i + 1);
                    assert(pre.subrange(0, i as int) =~= entries_view(es0).subrange(0, i as int));
                    assert(pre[i as int] == (k@, jview(v)));
                    assert(rest@ =~= es0.subrange(i + 1, n as int));
                }
                i = i + 1;
            }
            assert(entries_view(es0).subrange(0, n as int) =~= entries_view(es0));
            Json::Object(sort_entries_by_key(mapped))
        },
        Json::Array(items) => {
            let ghost it0 = items@;
            proof {
                lemma_items_view(it0);
                assert forall|j: int| 0 <= j < it0.len() implies #[trigger] json_size(it0[j])
                    < json_size(orig) by {
                    lemma_array_item_smaller(items, j);
                }
            }
            let mut rest = items;
            let mut mapped: Vec<Json> = Vec::new();
            let n = rest.len();
            let mut i: usize = 0;
            while i < n
                invariant
                    n == it0.len(),
                    i <= n,
                    rest@ == it0.subrange(i as int, n as int),
                    orig == value,
                    forall|j: int| 0 <= j < n ==> #[trigger] json_size(it0[j]) < json_size(orig),
                    items_view(mapped@) == sorted_items(items_view(it0).subrange(0, i as int)),
                    items_view(it0).len() == n,
                    forall|j: int| 0 <= j < n ==> #[trigger] items_view(it0)[j] == jview(it0[j]),
                decreases n - i,
            {
                let v = rest.remove(0);
                assert(v == it0[i as int]);
                let sv = sort_keys(v);
                let ghost before = mapped@;
                mapped.push(sv);
                proof {
                    lemma_items_view_push(before, sv);
                    let pre = items_view(it0).subrange(0, i + 1);
                    assert(pre.subrange(0, i as int) =~= items_view(it0).subrange(0, i as int));
                    assert(pre[i as int] == jview(v));
                    assert(rest@ =~= it0.subrange(i + 1, n as int));
                }
                i = i + 1;
            }
            assert(items_view(it0).subrange(0, n as int) =~= items_view(it0));
            Json::Array(mapped)
        },
        other => other,
    }
}


/// The text `serde_json::to_string_pretty` writes for a value whose nesting
/// starts at indentation `ind`: two spaces more per level, one element or
/// entry per line, `": "` after keys, empty containers as `[]` and `{}`.
pub open spec fn pretty(v: JsonView, ind: Seq<char>) -> Seq<char>
    decreases v,
{
    match v {
        JsonView::Null => "null"@,
        JsonView::Bool(b) => if b {
            "true"@
        } else {
            "false"@
        },
        JsonView::Number(n) => n,
        JsonView::String(s) => json_quoted(s),
        JsonView::Array(items) => if items.len() == 0 {
            "[]"@
        } else {
            "[\n"@ + join(pretty_items(items, ind + "  "@), ",\n"@) + "\n"@ + ind + "]"@
        },
        JsonView::Object(es) => if es.len() == 0 {
            "{}"@
        } else {
            "{\n"@ + join(pretty_entries(es, ind + "  "@), ",\n"@) + "\n"@ + ind + "}"@
        },
    }
}

pub open spec fn pretty_items(items: Seq<JsonView>, ind: Seq<char>) -> Seq<Seq<char>>
    decreases items,
{
    if items.len() == 0 {
        seq![]
    } else {
        pretty_items(items.subrange(0, items.len() - 1), ind).push(
            ind + pretty(items[items.len() - 1], ind),
        )
    }
}

pub open spec fn pretty_entries(es: Seq<(Seq<char>, JsonView)>, ind: Seq<char>) -> Seq<Seq<char>>
    decreases es,
{
    if es.len() == 0 {
        seq![]
    } else {
        let e = es[es.len() - 1];
        pretty_entries(es.subrange(0, es.len() - 1), ind).push(
            ind + json_quoted(e.0) + ": "@ + pretty(e.1, ind),
        )
    }
}

/// The pretty JSON text of a value, nested at indentation `ind`.
fn pretty_json(j: &Json, ind: &str) -> (r: String)
    ensures
        r@ == pretty(j@, ind@),
    decreases json_size(*j),
{
    match j {
        Json::Null => text("null"),
        Json::Bool(b) => if *b {
            text("true")
        } else {
            text("false")
        },
        Json::Number(n) => text(n.as_str()),
        Json::String(s) => quote_json(s.as_str()),
        Json::Array(items) => {
            proof {
                lemma_items_view(items@);
            }
            if items.len() == 0 {
                return text("[]");
            }
            let mut inner = text(ind);
            inner.append("  ");
            let mut parts: Vec<String> = Vec::new();
            let n = items.len();
            let mut i: usize = 0;
            while i < n
                invariant
                    n == items@.len(),
                    i <= n,
                    *j == Json::Array(*items),
                    inner@ == ind@ + "  "@,
                    items_view(items@).len() == n,
                    forall|k: int| 0 <= k < n ==> #[trigger] items_view(items@)[k] == jview(items@[k]),
                    string_views(parts@) == pretty_items(
                        items_view(items@).subrange(0, i as int),
                        inner@,
                    ),
                decreases n - i,
            {
                proof {
                    lemma_array_item_smaller(*items, i as int);
                }
                let t = pretty_json(&items[i], inner.as_str());
                let mut line = text(inner.as_str());
                line.append(t.as_str());
                parts.push(line);
                proof {
                    let sub = items_view(items@).subrange(0, i + 1);
                    assert(sub.subrange(0, i as int) =~= items_view(items@).subrange(0, i as int));
                    assert(sub[i as int] == jview(items@[i as int]));
                    assert(string_views(parts@) =~= pretty_items(sub, inner@));
                }
                i = i + 1;
            }
            assert(items_view(items@).subrange(0, n as int) =~= items_view(items@));
            let body = join_strings(&parts, ",\n");
            let mut out = text("[\n");
            out.append(body.as_str());
            out.append("\n");
            out.append(ind);
            out.append("]");
            out
        },
        Json::Object(es) => {
            proof {
                lemma_entries_view(es@);
            }
            if es.len() == 0 {
                return text("{}");
            }
            let mut inner = text(ind);
            inner.append("  ");
            let mut parts: Vec<String> = Vec::new();
            let n = es.len();
            let mut i: usize = 0;
            while i < n
                invariant
                    n == es@.len(),
                    i <= n,
                    *j == Json::Object(*es),
                    inner@ == ind@ + "  "@,
                    entries_view(es@).len() == n,
                    forall|k: int|
                        0 <= k < n ==> #[trigger] entries_view(es@)[k] == (es@[k].0@, jview(es@[k].1)),
                    string_views(parts@) == pretty_entries(
                        entries_view(es@).subrange(0, i as int),
                        inner@,
                    ),
                decreases n - i,
            {
                proof {
                    lemma_object_entry_smaller(*es, i as int);
                }
                let t = pretty_json(&es[i].1, inner.as_str());
                let key = quote_json(es[i].0.as_str());
                let mut line = text(inner.as_str());
                line.append(key.as_str());
                line.append(": ");
                line.append(t.as_str());
                parts.push(line);
                proof {
                    let sub = entries_view(es@).subrange(0, i + 1);
                    assert(sub.subrange(0, i as int) =~= entries_view(es@).subrange(0, i as int));
                    assert(sub[i as int] == (es@[i as int].0@, jview(es@[i as int].1)));
                    assert(string_views(parts@) =~= pretty_entries(sub, inner@));
                }
                i = i + 1;
            }
            assert(entries_view(es@).subrange(0, n as int) =~= entries_view(es@));
            let body = join_strings(&parts, ",\n");
            let mut out = text("{\n");
            out.append(body.as_str());
            out.append("\n");
            out.append(ind);
            out.append("}");
            out
        },
    }
}

/// What the `schema` command prints: the schema with its keys sorted at
/// every level, as pretty JSON.
pub fn render_schema(value: Json) -> (r: String)
    ensures
        r@ == pretty(sorted_view(value@), Seq::<char>::empty()),
{
    let sorted = sort_keys(value);
    let ind = String::new();
    pretty_json(&sorted, ind.as_str())
}


/// Where the first blank-line separator (`\n\n`) of a text starts, if any.
pub open spec fn pair_index(s: Seq<char>) -> Option<int>
    decreases s.len(),
{
    if s.len() < 2 {
        None
    } else if s[0] == '\n' && s[1] == '\n' {
        Some(0)
    } else {
        match pair_index(s.subrange(1, s.len() as int)) {
            Some(i) => Some(i + 1),
            None => None,
        }
    }
}

pub proof fn lemma_pair_index(s: Seq<char>)
    ensures
        pair_index(s) matches Some(i) ==> 0 <= i && i + 1 < s.len() && s[i] == '\n' && s[i + 1]
            == '\n' && forall|k: int| 0 <= k < i ==> !(#[trigger] s[k] == '\n' && s[k + 1] == '\n'),
        pair_index(s) is None ==> forall|k: int|
            0 <= k && k + 1 < s.len() ==> !(#[trigger] s[k] == '\n' && s[k + 1] == '\n'),
    decreases s.len(),
{
    if s.len() >= 2 && !(s[0] == '\n' && s[1] == '\n') {
        let rest = s.subrange(1, s.len() as int);
        lemma_pair_index(rest);
        assert forall|k: int| 1 <= k < s.len() implies s[k] == rest[k - 1] by {}
    }
}

/// The paragraphs of a text: the pieces between `\n\n` separators
/// (`str::split("\n\n")`).
pub open spec fn split_blank(s: Seq<char>) -> Seq<Seq<char>>
    decreases s.len(),
{
    proof {
        lemma_pair_index(s);
    }
    match pair_index(s) {
        Some(i) => seq![s.subrange(0, i)] + split_blank(s.subrange(i + 2, s.len() as int)),
        None => seq![s],
    }
}

/// Each line trimmed.
pub open spec fn trimmed_lines(ls: Seq<Seq<char>>) -> Seq<Seq<char>>
    decreases ls.len(),
{
    if ls.len() == 0 {
        seq![]
    } else {
        trimmed_lines(ls.subrange(0, ls.len() - 1)).push(trim(ls[ls.len() - 1]))
    }
}

/// A paragraph on one line: its lines trimmed and joined by spaces.
pub open spec fn paragraph_text(p: Seq<char>) -> Seq<char> {
    join(trimmed_lines(lines_of(p)), " "@)
}

pub open spec fn paragraph_texts(ps: Seq<Seq<char>>) -> Seq<Seq<char>>
    decreases ps.len(),
{
    if ps.len() == 0 {
        seq![]
    } else {
        paragraph_texts(ps.subrange(0, ps.len() - 1)).push(paragraph_text(ps[ps.len() - 1]))
    }
}

/// A description with the line breaks inside each paragraph replaced by
/// spaces; only the blank lines between paragraphs remain.
pub open spec fn joined_description(t: Seq<char>) -> Seq<char> {
    join(paragraph_texts(split_blank(t)), "\n\n"@)
}

/// A value with every `description` string rejoined, at every depth.
pub open spec fn joined_view(v: JsonView) -> JsonView
    decreases v,
{
    match v {
        JsonView::Array(items) => JsonView::Array(joined_items(items)),
        JsonView::Object(es) => JsonView::Object(joined_entries(es)),
        _ => v,
    }
}

pub open spec fn joined_items(items: Seq<JsonView>) -> Seq<JsonView>
    decreases items,
{
    if items.len() == 0 {
        seq![]
    } else {
        joined_items(items.subrange(0, items.len() - 1)).push(joined_view(items[items.len() - 1]))
    }
}

pub open spec fn joined_entries(es: Seq<(Seq<char>, JsonView)>) -> Seq<(Seq<char>, JsonView)>
    decreases es,
{
    if es.len() == 0 {
        seq![]
    } else {
        let e = es[es.len() - 1];
        let v = if e.0 == "description"@ {
            match e.1 {
                JsonView::String(t) => JsonView::String(joined_description(t)),
                _ => joined_view(e.1),
            }
        } else {
            joined_view(e.1)
        };
        joined_entries(es.subrange(0, es.len() - 1)).push((e.0, v))
    }
}

/// Where the first `\n\n` at or after `from` starts, or `cs.len()`.
fn find_blank(cs: &Vec<char>, from: usize) -> (r: usize)
    requires
        from <= cs@.len(),
    ensures
        from <= r <= cs@.len(),
        r < cs@.len() ==> r + 2 <= cs@.len(),
        pair_index(cs@.subrange(from as int, cs@.len() as int)) == (if r < cs@.len() {
            Some(r - from)
        } else {
            None::<int>
        }),
{
    let n = cs.len();
    let mut i = from;
    while n - i >= 2 && !(cs[i] == '\n' && cs[i + 1] == '\n')
        invariant
            n == cs@.len(),
            from <= i <= n,
            forall|k: int| from <= k < i ==> !(#[trigger] cs@[k] == '\n' && cs@[k + 1] == '\n'),
        decreases n - i,
    {
        i = i + 1;
    }
    let ghost t = cs@.subrange(from as int, n as int);
    proof {
        lemma_pair_index(t);
    }
    if n - i >= 2 {
        proof {
            assert(t[i - from] == '\n' && t[i - from + 1] == '\n');
            if let Some(j) = pair_index(t) {
                assert(t[j] == cs@[j + from] && t[j + 1] == cs@[j + from + 1]);
            }
        }
        i
    } else {
        proof {
            if let Some(j) = pair_index(t) {
                assert(t[j] == cs@[j + from] && t[j + 1] == cs@[j + from + 1]);
            }
        }
        n
    }
}

/// One paragraph on one line.
fn paragraph(p: &Vec<char>) -> (r: String)
    ensures
        r@ == paragraph_text(p@),
{
    let lines = lines_from(p, 0);
    assert(p@.subrange(0, p@.len() as int) =~= p@);
    let ghost ls = lines@.map_values(|l: Vec<char>| l@);
    let mut parts: Vec<String> = Vec::new();
    let n = lines.len();
    let mut i: usize = 0;
    while i < n
        invariant
            n == lines@.len(),
            i <= n,
            ls == lines@.map_values(|l: Vec<char>| l@),
            string_views(parts@) == trimmed_lines(ls.subrange(0, i as int)),
        decreases n - i,
    {
        let t = trim_chars(&lines[i]);
        parts.push(string_of(&t));
        proof {
            let sub = ls.subrange(0, i + 1);
            assert(sub.subrange(0, i as int) =~= ls.subrange(0, i as int));
            assert(sub[i as int] == lines@[i as int]@);
            assert(string_views(parts@) =~= trimmed_lines(sub));
        }
        i = i + 1;
    }
    assert(ls.subrange(0, n as int) =~= ls);
    join_strings(&parts, " ")
}

/// A description with each paragraph on one line.
fn join_paragraphs(t: &str) -> (r: String)
    ensures
        r@ == joined_description(t@),
{
    let cs = chars_of(t);
    let n = cs.len();
    let mut parts: Vec<String> = Vec::new();
    let mut start: usize = 0;
    assert(cs@.subrange(0, n as int) =~= cs@);
    loop
        invariant
            n == cs@.len(),
            cs@ == t@,
            start <= n,
            paragraph_texts(split_blank(t@)) == string_views(parts@) + paragraph_texts(
                split_blank(cs@.subrange(start as int, n as int)),
            ),
        decreases n - start,
    {
        let e = find_blank(&cs, start);
        let p = sub_chars(&cs, start, e);
        let ghost rest = cs@.subrange(start as int, n as int);
        let ghost before = string_views(parts@);
        let text_p = paragraph(&p);
        parts.push(text_p);
        assert(string_views(parts@) =~= before.push(paragraph_text(p@)));
        if e == n {
            proof {
                assert(p@ =~= rest);
                assert(split_blank(rest) =~= seq![rest]);
                lemma_paragraph_texts_one(rest);
                assert(paragraph_texts(split_blank(t@)) =~= string_views(parts@));
            }
            return join_strings(&parts, "\n\n");
        }
        proof {
            assert(rest.subrange(0, e - start) =~= p@);
            assert(rest.subrange(e - start + 2, rest.len() as int) =~= cs@.subrange(e + 2, n as int));
            let tail = split_blank(cs@.subrange(e + 2, n as int));
            assert(split_blank(rest) =~= seq![p@] + tail);
            lemma_paragraph_texts_prepend(p@, tail);
            assert(paragraph_texts(split_blank(rest)) =~= seq![paragraph_text(p@)] + paragraph_texts(tail));
        }
        start = e + 2;
    }
}

proof fn lemma_paragraph_texts_one(p: Seq<char>)
    ensures
        paragraph_texts(seq![p]) == seq![paragraph_text(p)],
{
    let q = seq![p];
    assert(q.len() == 1);
    assert(q[0] == p);
    let e = q.subrange(0, 0);
    assert(e.len() == 0);
    assert(paragraph_texts(e) == Seq::<Seq<char>>::empty());
    assert(paragraph_texts(q) == paragraph_texts(e).push(paragraph_text(q[0])));
    assert(paragraph_texts(q) =~= seq![paragraph_text(p)]);
}

proof fn lemma_paragraph_texts_prepend(p: Seq<char>, tail: Seq<Seq<char>>)
    ensures
        paragraph_texts(seq![p] + tail) == seq![paragraph_text(p)] + paragraph_texts(tail),
    decreases tail.len(),
{
    if tail.len() == 0 {
        assert(seq![p] + tail =~= seq![p]);
        lemma_paragraph_texts_one(p);
        assert(seq![paragraph_text(p)] + paragraph_texts(tail) =~= seq![paragraph_text(p)]);
    } else {
        let whole = seq![p] + tail;
        let tl = tail.subrange(0, tail.len() - 1);
        assert(whole.subrange(0, whole.len() - 1) =~= seq![p] + tl);
        lemma_paragraph_texts_prepend(p, tl);
        assert(whole[whole.len() - 1] == tail[tail.len() - 1]);
        assert(paragraph_texts(whole) =~= seq![paragraph_text(p)] + paragraph_texts(tail));
    }
}


/// Rejoins every `description` string in a value, at every depth.
fn join_description_lines(value: Json) -> (r: Json)
    ensures
        r@ == joined_view(value@),
    decreases json_size(value),
{
    let ghost orig = value;
    match value {
        Json::Object(es) => {
            let ghost es0 = es@;
            proof {
                lemma_entries_view(es0);
                assert forall|j: int| 0 <= j < es0.len() implies #[trigger] json_size(es0[j].1)
                    < json_size(orig) by {
                    lemma_object_entry_smaller(es, j);
                }
            }
            let mut rest = es;
            let mut mapped: Vec<(String, Json)> = Vec::new();
            let n = rest.len();
            let mut i: usize = 0;
            while i < n
                invariant
                    n == es0.len(),
                    i <= n,
                    rest@ == es0.subrange(i as int, n as int),
                    orig == value,
                    forall|j: int| 0 <= j < n ==> #[trigger] json_size(es0[j].1) < json_size(orig),
                    entries_view(mapped@) == joined_entries(entries_view(es0).subrange(0, i as int)),
                    entries_view(es0).len() == n,
                    forall|j: int|
                        0 <= j < n ==> #[trigger] entries_view(es0)[j] == (es0[j].0@, jview(es0[j].1)),
                decreases n - i,
            {
                let (k, v) = rest.remove(0);
                assert((k, v) == es0[i as int]);
                let nv = if str_eq(k.as_str(), "description") {
                    match v {
                        Json::String(t) => Json::String(join_paragraphs(t.as_str())),
                        other => join_description_lines(other),
                    }
                } else {
                    join_description_lines(v)
                };
                let ghost before = mapped@;
                mapped.push((k, nv));
                proof {
                    lemma_view_push(before, (k, nv));
                    let pre = entries_view(es0).subrange(0, i + 1);
                    assert(pre.subrange(0, i as int) =~= entries_view(es0).subrange(0, i as int));
                    assert(pre[i as int] == (k@, jview(v)));
                    assert(rest@ =~= es0.subrange(i + 1, n as int));
                }
                i = i + 1;
            }
            assert(entries_view(es0).subrange(0, n as int) =~= entries_view(es0));
            Json::Object(mapped)
        },
        Json::Array(items) => {
            let ghost it0 = items@;
            proof {
                lemma_items_view(it0);
                assert forall|j: int| 0 <= j < it0.len() implies #[trigger] json_size(it0[j])
                    < json_size(orig) by {
                    lemma_array_item_smaller(items, j);
                }
            }
            let mut rest = items;
            let mut mapped: Vec<Json> = Vec::new();
            let n = rest.len();
            let mut i: usize = 0;
            while i < n
                invariant
                    n == it0.len(),
                    i <= n,
                    rest@ == it0.subrange(i as int, n as int),
                    orig == value,
                    forall|j: int| 0 <= j < n ==> #[trigger] json_size(it0[j]) < json_size(orig),
                    items_view(mapped@) == joined_items(items_view(it0).subrange(0, i as int)),
                    items_view(it0).len() == n,
                    forall|j: int| 0 <= j < n ==> #[trigger] items_view(it0)[j] == jview(it0[j]),
                decreases n - i,
            {
                let v = rest.remove(0);
                assert(v == it0[i as int]);
                let nv = join_description_lines(v);
                let ghost before = mapped@;
                mapped.push(nv);
                proof {
                    lemma_items_view_push(before, nv);
                    let pre = items_view(it0).subrange(0, i + 1);
                    assert(pre.subrange(0, i as int) =~= items_view(it0).subrange(0, i as int));
                    assert(pre[i as int] == jview(v));
                    assert(rest@ =~= it0.subrange(i + 1, n as int));
                }
                i = i + 1;
            }
            assert(items_view(it0).subrange(0, n as int) =~= items_view(it0));
            Json::Array(mapped)
        },
        other => other,
    }
}

/// The configuration schema every command renders from, given the schema
/// the generator produced (draft-07, with `definitions`): each description
/// is one paragraph per line, the line breaks inside a paragraph become
/// spaces and only the blank lines between paragraphs remain.
pub fn app_config_schema(generated: Json) -> (r: Json)
    ensures
        r@ == joined_view(generated@),
{
    join_description_lines(generated)
}

/// The string literal a schema node names: its `const`, or the first entry
/// of its `enum`.
pub open spec fn spec_first_literal(node: Json) -> Option<Seq<char>> {
    match str_at(node, "const"@) {
        Some(c) => Some(c),
        None => first_str(array_at(node, "enum"@)),
    }
}

/// The string literal a schema node names: `const: "x"`, or the first entry
/// of its `enum`.
pub fn first_literal(node: &Json) -> (r: Option<&str>)
    ensures
        opt_str(r) == spec_first_literal(*node),
{
    match get_str(node, "const") {
        Some(c) => Some(c),
        None => match get_array(node, "enum") {
            Some(a) => if a.len() > 0 {
                match &a[0] {
                    Json::String(s) => Some(s.as_str()),
                    _ => None,
                }
            } else {
                None
            },
            None => None,
        },
    }
}


/// Entries whose keys never go down.
pub open spec fn keys_sorted(s: Seq<(Seq<char>, JsonView)>) -> bool {
    forall|i: int, j: int| 0 <= i < j < s.len() ==> !seq_lt(#[trigger] s[j].0, #[trigger] s[i].0)
}

/// Entries whose keys strictly go up.
pub open spec fn keys_ascending(s: Seq<(Seq<char>, JsonView)>) -> bool {
    forall|i: int, j: int| 0 <= i < j < s.len() ==> seq_lt(#[trigger] s[i].0, #[trigger] s[j].0)
}

/// Entries whose keys are all different.
pub open spec fn keys_distinct(s: Seq<(Seq<char>, JsonView)>) -> bool {
    forall|i: int, j: int| 0 <= i < j < s.len() ==> (#[trigger] s[i]).0 != (#[trigger] s[j]).0
}

proof fn lemma_insert_entry(x: (Seq<char>, JsonView), t: Seq<(Seq<char>, JsonView)>)
    ensures
        insert_entry(x, t).len() == t.len() + 1,
        forall|e: (Seq<char>, JsonView)| #[trigger] insert_entry(x, t).contains(e) <==> (t.contains(e) || e == x),
        keys_sorted(t) ==> keys_sorted(insert_entry(x, t)),
    decreases t.len(),
{
    let r = insert_entry(x, t);
    if t.len() == 0 {
        assert(r =~= seq![x]);
        assert forall|e: (Seq<char>, JsonView)| #[trigger] r.contains(e) <==> (t.contains(e) || e == x) by {
            if r.contains(e) {
                assert(r[0] == x);
            }
            if e == x {
                assert(r[0] == e);
            }
        }
    } else if seq_lt(x.0, t[0].0) {
        assert(r =~= seq![x] + t);
        assert forall|e: (Seq<char>, JsonView)| #[trigger] r.contains(e) <==> (t.contains(e) || e == x) by {
            if r.contains(e) {
                let k = choose|k: int| 0 <= k < r.len() && r[k] == e;
                if k > 0 {
                    assert(t[k - 1] == e);
                }
            }
            if t.contains(e) {
                let k = choose|k: int| 0 <= k < t.len() && t[k] == e;
                assert(r[k + 1] == e);
            }
            if e == x {
                assert(r[0] == e);
            }
        }
        if keys_sorted(t) {
            assert forall|i: int, j: int| 0 <= i < j < r.len() implies !seq_lt(#[trigger] r[j].0, #[trigger] r[i].0) by {
                if i == 0 {
                    assert(r[j] == t[j - 1]);
                    if j - 1 > 0 {
                        assert(!seq_lt(t[j - 1].0, t[0].0));
                        lemma_lt_total(t[j - 1].0, t[0].0);
                        if t[j - 1].0 != t[0].0 {
                            lemma_lt_transitive(x.0, t[0].0, t[j - 1].0);
                        }
                    }
                    lemma_lt_total(x.0, t[j - 1].0);
                } else {
                    assert(r[i] == t[i - 1] && r[j] == t[j - 1]);
                }
            }
        }
    } else {
        let t1 = t.subrange(1, t.len() as int);
        let r1 = insert_entry(x, t1);
        lemma_insert_entry(x, t1);
        assert(r =~= seq![t[0]] + r1);
        assert forall|e: (Seq<char>, JsonView)| #[trigger] r.contains(e) <==> (t.contains(e) || e == x) by {
            if r.contains(e) {
                let k = choose|k: int| 0 <= k < r.len() && r[k] == e;
                if k > 0 {
                    assert(r1[k - 1] == e);
                    assert(r1.contains(e));
                    if t1.contains(e) {
                        let m = choose|m: int| 0 <= m < t1.len() && t1[m] == e;
                        assert(t[m + 1] == e);
                    }
                } else {
                    assert(t[0] == e);
                }
            }
            if t.contains(e) {
                let k = choose|k: int| 0 <= k < t.len() && t[k] == e;
                if k > 0 {
                    assert(t1[k - 1] == e);
                    assert(r1.contains(e));
                    let m = choose|m: int| 0 <= m < r1.len() && r1[m] == e;
                    assert(r[m + 1] == e);
                } else {
                    assert(r[0] == e);
                }
            }
            if e == x {
                assert(r1.contains(e));
                let m = choose|m: int| 0 <= m < r1.len() && r1[m] == e;
                assert(r[m + 1] == e);
            }
        }
        if keys_sorted(t) {
            assert(keys_sorted(t1)) by {
                assert forall|i: int, j: int| 0 <= i < j < t1.len() implies !seq_lt(#[trigger] t1[j].0, #[trigger] t1[i].0) by {
                    assert(t1[i] == t[i + 1] && t1[j] == t[j + 1]);
                }
            }
            assert forall|i: int, j: int| 0 <= i < j < r.len() implies !seq_lt(#[trigger] r[j].0, #[trigger] r[i].0) by {
                if i == 0 {
                    assert(r[0] == t[0]);
                    let e = r[j];
                    assert(r1[j - 1] == e);
                    assert(r1.contains(e));
                    if e == x {
                    } else {
                        assert(t1.contains(e));
                        let m = choose|m: int| 0 <= m < t1.len() && t1[m] == e;
                        assert(t[m + 1] == e);
                    }
                } else {
                    assert(r[i] == r1[i - 1] && r[j] == r1[j - 1]);
                }
            }
        }
    }
}

/// Sorting keeps the entries and their number, and leaves keys in order.
pub proof fn lemma_sort_entries(s: Seq<(Seq<char>, JsonView)>)
    ensures
        sort_entries(s).len() == s.len(),
        forall|e: (Seq<char>, JsonView)| #[trigger] sort_entries(s).contains(e) <==> s.contains(e),
        keys_sorted(sort_entries(s)),
    decreases s.len(),
{
    if s.len() > 0 {
        let init = s.subrange(0, s.len() - 1);
        let x = s[s.len() - 1];
        lemma_sort_entries(init);
        lemma_insert_entry(x, sort_entries(init));
        assert forall|e: (Seq<char>, JsonView)| #[trigger] sort_entries(s).contains(e) <==> s.contains(e) by {
            if s.contains(e) {
                let k = choose|k: int| 0 <= k < s.len() && s[k] == e;
                if k < s.len() - 1 {
                    assert(init[k] == e);
                    assert(sort_entries(init).contains(e));
                }
            }
            if init.contains(e) {
                let k = choose|k: int| 0 <= k < init.len() && init[k] == e;
                assert(s[k] == e);
            }
            if e == x {
                assert(s[s.len() - 1] == e);
            }
        }
    } else {
        assert(sort_entries(s) =~= Seq::<(Seq<char>, JsonView)>::empty());
    }
}


proof fn lemma_insert_entry_distinct(x: (Seq<char>, JsonView), t: Seq<(Seq<char>, JsonView)>)
    requires
        keys_distinct(t),
        forall|i: int| 0 <= i < t.len() ==> (#[trigger] t[i]).0 != x.0,
    ensures
        keys_distinct(insert_entry(x, t)),
        forall|i: int| 0 <= i < insert_entry(x, t).len() ==> (#[trigger] insert_entry(x, t)[i]).0 == x.0
            || exists|j: int| 0 <= j < t.len() && t[j].0 == insert_entry(x, t)[i].0,
    decreases t.len(),
{
    let r = insert_entry(x, t);
    lemma_insert_entry(x, t);
    if t.len() == 0 {
        assert(r =~= seq![x]);
    } else if seq_lt(x.0, t[0].0) {
        assert(r =~= seq![x] + t);
        assert forall|i: int, j: int| 0 <= i < j < r.len() implies (#[trigger] r[i]).0 != (#[trigger] r[j]).0 by {
            assert(r[j] == t[j - 1]);
            if i > 0 {
                assert(r[i] == t[i - 1]);
            }
        }
        assert forall|i: int| 0 <= i < r.len() implies (#[trigger] r[i]).0 == x.0 || exists|j: int| 0 <= j < t.len() && t[j].0 == r[i].0 by {
            if i > 0 {
                assert(r[i] == t[i - 1]);
            }
        }
    } else {
        let t1 = t.subrange(1, t.len() as int);
        let r1 = insert_entry(x, t1);
        assert(keys_distinct(t1)) by {
            assert forall|i: int, j: int| 0 <= i < j < t1.len() implies (#[trigger] t1[i]).0 != (#[trigger] t1[j]).0 by {
                assert(t1[i] == t[i + 1] && t1[j] == t[j + 1]);
            }
        }
        assert forall|i: int| 0 <= i < t1.len() implies (#[trigger] t1[i]).0 != x.0 by {
            assert(t1[i] == t[i + 1]);
        }
        lemma_insert_entry_distinct(x, t1);
        assert(r =~= seq![t[0]] + r1);
        assert forall|i: int| 0 <= i < r.len() implies (#[trigger] r[i]).0 == x.0 || exists|j: int| 0 <= j < t.len() && t[j].0 == r[i].0 by {
            if i > 0 {
                assert(r[i] == r1[i - 1]);
                if r1[i - 1].0 != x.0 {
                    let j = choose|j: int| 0 <= j < t1.len() && t1[j].0 == r1[i - 1].0;
                    assert(t[j + 1] == t1[j]);
                }
            } else {
                assert(t[0].0 == r[0].0);
            }
        }
        assert forall|i: int, j: int| 0 <= i < j < r.len() implies (#[trigger] r[i]).0 != (#[trigger] r[j]).0 by {
            assert(r[j] == r1[j - 1]);
            if i > 0 {
                assert(r[i] == r1[i - 1]);
            } else {
                assert(r[0] == t[0]);
                if r1[j - 1].0 != x.0 {
                    let m = choose|m: int| 0 <= m < t1.len() && t1[m].0 == r1[j - 1].0;
                    assert(t1[m] == t[m + 1]);
                }
            }
        }
    }
}

/// Sorting entries with distinct keys keeps them distinct.
pub proof fn lemma_sort_entries_distinct(s: Seq<(Seq<char>, JsonView)>)
    requires
        keys_distinct(s),
    ensures
        keys_distinct(sort_entries(s)),
    decreases s.len(),
{
    if s.len() > 0 {
        let init = s.subrange(0, s.len() - 1);
        let x = s[s.len() - 1];
        assert(keys_distinct(init)) by {
            assert forall|i: int, j: int| 0 <= i < j < init.len() implies (#[trigger] init[i]).0 != (#[trigger] init[j]).0 by {
                assert(init[i] == s[i] && init[j] == s[j]);
            }
        }
        lemma_sort_entries_distinct(init);
        lemma_sort_entries(init);
        let t = sort_entries(init);
        assert forall|i: int| 0 <= i < t.len() implies (#[trigger] t[i]).0 != x.0 by {
            assert(t.contains(t[i]));
            assert(init.contains(t[i]));
            let k = choose|k: int| 0 <= k < init.len() && init[k] == t[i];
            assert(s[k] == init[k]);
        }
        lemma_insert_entry_distinct(x, t);
    }
}

/// Sorted entries with distinct keys have strictly ascending keys.
pub proof fn lemma_sorted_distinct_ascending(s: Seq<(Seq<char>, JsonView)>)
    requires
        keys_sorted(s),
        keys_distinct(s),
    ensures
        keys_ascending(s),
{
    assert forall|i: int, j: int| 0 <= i < j < s.len() implies seq_lt(#[trigger] s[i].0, #[trigger] s[j].0) by {
        lemma_lt_total(s[i].0, s[j].0);
    }
}

/// Two runs with strictly ascending keys that hold the same entries are
/// the same run.
pub proof fn lemma_ascending_unique(a: Seq<(Seq<char>, JsonView)>, b: Seq<(Seq<char>, JsonView)>)
    requires
        keys_ascending(a),
        keys_ascending(b),
        forall|e: (Seq<char>, JsonView)| a.contains(e) <==> b.contains(e),
    ensures
        a == b,
    decreases a.len(),
{
    if a.len() == 0 {
        if b.len() > 0 {
            assert(b.contains(b[0]));
        }
        assert(a =~= b);
    } else {
        assert(a.contains(a[0]));
        assert(b.contains(a[0]));
        assert(b.len() > 0);
        assert(b.contains(b[0]));
        assert(a.contains(b[0]));
        let j = choose|j: int| 0 <= j < b.len() && b[j] == a[0];
        let i = choose|i: int| 0 <= i < a.len() && a[i] == b[0];
        if j > 0 {
            assert(seq_lt(b[0].0, b[j].0));
            if i > 0 {
                assert(seq_lt(a[0].0, a[i].0));
                lemma_lt_total(a[0].0, b[0].0);
            } else {
                lemma_lt_irreflexive(a[0].0);
            }
        } else if i > 0 {
            assert(seq_lt(a[0].0, a[i].0));
            lemma_lt_irreflexive(a[0].0);
        }
        assert(a[0] == b[0]);
        let a1 = a.subrange(1, a.len() as int);
        let b1 = b.subrange(1, b.len() as int);
        assert forall|e: (Seq<char>, JsonView)| a1.contains(e) <==> b1.contains(e) by {
            if a1.contains(e) {
                let k = choose|k: int| 0 <= k < a1.len() && a1[k] == e;
                assert(a[k + 1] == e);
                assert(a.contains(e));
                assert(b.contains(e));
                let m = choose|m: int| 0 <= m < b.len() && b[m] == e;
                if m == 0 {
                    assert(seq_lt(a[0].0, a[k + 1].0));
                    lemma_lt_irreflexive(a[0].0);
                }
                assert(b1[m - 1] == e);
            }
            if b1.contains(e) {
                let k = choose|k: int| 0 <= k < b1.len() && b1[k] == e;
                assert(b[k + 1] == e);
                assert(b.contains(e));
                assert(a.contains(e));
                let m = choose|m: int| 0 <= m < a.len() && a[m] == e;
                if m == 0 {
                    assert(seq_lt(b[0].0, b[k + 1].0));
                    lemma_lt_irreflexive(b[0].0);
                }
                assert(a1[m - 1] == e);
            }
        }
        assert(keys_ascending(a1)) by {
            assert forall|x: int, y: int| 0 <= x < y < a1.len() implies seq_lt(#[trigger] a1[x].0, #[trigger] a1[y].0) by {
                assert(a1[x] == a[x + 1] && a1[y] == a[y + 1]);
            }
        }
        assert(keys_ascending(b1)) by {
            assert forall|x: int, y: int| 0 <= x < y < b1.len() implies seq_lt(#[trigger] b1[x].0, #[trigger] b1[y].0) by {
                assert(b1[x] == b[x + 1] && b1[y] == b[y + 1]);
            }
        }
        lemma_ascending_unique(a1, b1);
        assert(a =~= seq![a[0]] + a1);
        assert(b =~= seq![b[0]] + b1);
    }
}


/// Two values that differ at most in the order of object entries (objects
/// with distinct keys, matched key by key), at every depth.
pub open spec fn reordered(a: JsonView, b: JsonView) -> bool
    decreases a,
{
    match a {
        JsonView::Array(x) => match b {
            JsonView::Array(y) => x.len() == y.len() && reordered_items(x, y),
            _ => false,
        },
        JsonView::Object(x) => match b {
            JsonView::Object(y) => x.len() == y.len() && keys_distinct(x) && keys_distinct(y)
                && reordered_entries(x, y) && keys_covered(y, x),
            _ => false,
        },
        _ => a == b,
    }
}

/// Element by element, for runs of the same length.
pub open spec fn reordered_items(x: Seq<JsonView>, y: Seq<JsonView>) -> bool
    decreases x,
{
    if x.len() == 0 {
        true
    } else {
        reordered(x[x.len() - 1], y[x.len() - 1]) && reordered_items(
            x.subrange(0, x.len() - 1),
            y.subrange(0, x.len() - 1),
        )
    }
}

/// Each entry of `x` has an entry with its key in `y`, with a reordered value.
pub open spec fn reordered_entries(x: Seq<(Seq<char>, JsonView)>, y: Seq<(Seq<char>, JsonView)>) -> bool
    decreases x,
{
    if x.len() == 0 {
        true
    } else {
        let e = x[x.len() - 1];
        (match key_pos(y, e.0) {
            Some(j) => reordered(e.1, y[j].1),
            None => false,
        }) && reordered_entries(x.subrange(0, x.len() - 1), y)
    }
}

/// Every key of `y` is a key of `x`.
pub open spec fn keys_covered(y: Seq<(Seq<char>, JsonView)>, x: Seq<(Seq<char>, JsonView)>) -> bool {
    forall|j: int| 0 <= j < y.len() ==> key_pos(x, (#[trigger] y[j]).0) is Some
}

proof fn lemma_sorted_entry_values(x: Seq<(Seq<char>, JsonView)>)
    ensures
        sorted_entry_values(x).len() == x.len(),
        forall|i: int| 0 <= i < x.len() ==> #[trigger] sorted_entry_values(x)[i] == (x[i].0, sorted_view(x[i].1)),
    decreases x.len(),
{
    if x.len() > 0 {
        lemma_sorted_entry_values(x.subrange(0, x.len() - 1));
    }
}

proof fn lemma_sorted_items_len(x: Seq<JsonView>)
    ensures
        sorted_items(x).len() == x.len(),
        forall|i: int| 0 <= i < x.len() ==> #[trigger] sorted_items(x)[i] == sorted_view(x[i]),
    decreases x.len(),
{
    if x.len() > 0 {
        lemma_sorted_items_len(x.subrange(0, x.len() - 1));
    }
}

proof fn lemma_reordered_items_sorted(x: Seq<JsonView>, y: Seq<JsonView>)
    requires
        x.len() == y.len(),
        reordered_items(x, y),
    ensures
        sorted_items(x) == sorted_items(y),
    decreases x,
{
    if x.len() > 0 {
        let n = x.len() - 1;
        lemma_reordered_sorted(x[n], y[n]);
        lemma_reordered_items_sorted(x.subrange(0, n), y.subrange(0, n));
    }
}

proof fn lemma_reordered_entries_match(x: Seq<(Seq<char>, JsonView)>, y: Seq<(Seq<char>, JsonView)>)
    requires
        reordered_entries(x, y),
    ensures
        forall|i: int| 0 <= i < x.len() ==> (key_pos(y, (#[trigger] x[i]).0) matches Some(j) && sorted_view(x[i].1) == sorted_view(y[j].1)),
    decreases x,
{
    if x.len() > 0 {
        let n = x.len() - 1;
        let init = x.subrange(0, n);
        lemma_reordered_entries_match(init, y);
        if let Some(j) = key_pos(y, x[n].0) {
            lemma_reordered_sorted(x[n].1, y[j].1);
        }
        assert forall|i: int| 0 <= i < x.len() implies (key_pos(y, (#[trigger] x[i]).0) matches Some(j) && sorted_view(x[i].1) == sorted_view(y[j].1)) by {
            if i < n {
                assert(init[i] == x[i]);
            }
        }
    }
}

/// Values that differ only in the order of object entries sort to the same
/// value.
pub proof fn lemma_reordered_sorted(a: JsonView, b: JsonView)
    requires
        reordered(a, b),
    ensures
        sorted_view(a) == sorted_view(b),
    decreases a,
{
    match a {
        JsonView::Array(x) => {
            if let JsonView::Array(y) = b {
                lemma_reordered_items_sorted(x, y);
            }
        },
        JsonView::Object(x) => {
            if let JsonView::Object(y) = b {
                lemma_reordered_entries_match(x, y);
                let xs = sorted_entry_values(x);
                let ys = sorted_entry_values(y);
                lemma_sorted_entry_values(x);
                lemma_sorted_entry_values(y);
                assert forall|e: (Seq<char>, JsonView)| xs.contains(e) <==> ys.contains(e) by {
                    if xs.contains(e) {
                        let i = choose|i: int| 0 <= i < xs.len() && xs[i] == e;
                        assert(xs[i] == (x[i].0, sorted_view(x[i].1)));
                        let j = key_pos(y, x[i].0)->0;
                        lemma_key_pos(y, x[i].0);
                        assert(ys[j] == (y[j].0, sorted_view(y[j].1)));
                        assert(ys[j] == e);
                    }
                    if ys.contains(e) {
                        let j = choose|j: int| 0 <= j < ys.len() && ys[j] == e;
                        assert(ys[j] == (y[j].0, sorted_view(y[j].1)));
                        assert(key_pos(x, y[j].0) is Some);
                        lemma_key_pos(x, y[j].0);
                        let i = key_pos(x, y[j].0)->0;
                        assert(x[i].0 == y[j].0);
                        lemma_key_pos(y, x[i].0);
                        let j2 = key_pos(y, x[i].0)->0;
                        assert(y[j2].0 == y[j].0);
                        if j2 != j {
                            if j2 < j {
                                assert(y[j2].0 != y[j].0);
                            } else {
                                assert(y[j].0 != y[j2].0);
                            }
                        }
                        assert(xs[i] == (x[i].0, sorted_view(x[i].1)));
                        assert(xs[i] == e);
                    }
                }
                assert(keys_distinct(xs)) by {
                    assert forall|i: int, j: int| 0 <= i < j < xs.len() implies (#[trigger] xs[i]).0 != (#[trigger] xs[j]).0 by {
                        assert(xs[i].0 == x[i].0 && xs[j].0 == x[j].0);
                    }
                }
                assert(keys_distinct(ys)) by {
                    assert forall|i: int, j: int| 0 <= i < j < ys.len() implies (#[trigger] ys[i]).0 != (#[trigger] ys[j]).0 by {
                        assert(ys[i].0 == y[i].0 && ys[j].0 == y[j].0);
                    }
                }
                lemma_sort_entries(xs);
                lemma_sort_entries(ys);
                lemma_sort_entries_distinct(xs);
                lemma_sort_entries_distinct(ys);
                lemma_sorted_distinct_ascending(sort_entries(xs));
                lemma_sorted_distinct_ascending(sort_entries(ys));
                lemma_ascending_unique(sort_entries(xs), sort_entries(ys));
            }
        },
        _ => {},
    }
}

/// The schema command's output does not depend on the order in which
/// object entries come: values that differ only in that order print the
/// same bytes.
pub proof fn law_output_ignores_key_order(a: JsonView, b: JsonView)
    requires
        reordered(a, b),
    ensures
        pretty(sorted_view(a), Seq::<char>::empty()) == pretty(sorted_view(b), Seq::<char>::empty()),
{
    lemma_reordered_sorted(a, b);
}


/// Every object in a value, at every depth, has its keys in order.
pub open spec fn all_keys_sorted(v: JsonView) -> bool
    decreases v,
{
    match v {
        JsonView::Array(x) => items_all_sorted(x),
        JsonView::Object(es) => keys_sorted(es) && entries_all_sorted(es),
        _ => true,
    }
}

pub open spec fn items_all_sorted(x: Seq<JsonView>) -> bool
    decreases x,
{
    if x.len() == 0 {
        true
    } else {
        all_keys_sorted(x[x.len() - 1]) && items_all_sorted(x.subrange(0, x.len() - 1))
    }
}

pub open spec fn entries_all_sorted(es: Seq<(Seq<char>, JsonView)>) -> bool
    decreases es,
{
    if es.len() == 0 {
        true
    } else {
        all_keys_sorted(es[es.len() - 1].1) && entries_all_sorted(es.subrange(0, es.len() - 1))
    }
}

proof fn lemma_items_all_sorted(x: Seq<JsonView>)
    requires
        forall|i: int| 0 <= i < x.len() ==> all_keys_sorted(#[trigger] x[i]),
    ensures
        items_all_sorted(x),
    decreases x.len(),
{
    if x.len() > 0 {
        let init = x.subrange(0, x.len() - 1);
        assert forall|i: int| 0 <= i < init.len() implies all_keys_sorted(#[trigger] init[i]) by {
            assert(init[i] == x[i]);
        }
        lemma_items_all_sorted(init);
    }
}

proof fn lemma_entries_all_sorted(es: Seq<(Seq<char>, JsonView)>)
    requires
        forall|i: int| 0 <= i < es.len() ==> all_keys_sorted((#[trigger] es[i]).1),
    ensures
        entries_all_sorted(es),
    decreases es.len(),
{
    if es.len() > 0 {
        let init = es.subrange(0, es.len() - 1);
        assert forall|i: int| 0 <= i < init.len() implies all_keys_sorted((#[trigger] init[i]).1) by {
            assert(init[i] == es[i]);
        }
        lemma_entries_all_sorted(init);
    }
}

/// After the schema command sorts a value, every object in it, at every
/// depth, has its keys in ascending order.
pub proof fn law_sorted_everywhere(v: JsonView)
    ensures
        all_keys_sorted(sorted_view(v)),
    decreases v,
{
    match v {
        JsonView::Array(x) => {
            lemma_sorted_items_len(x);
            let sx = sorted_items(x);
            assert forall|i: int| 0 <= i < sx.len() implies all_keys_sorted(#[trigger] sx[i]) by {
                law_sorted_everywhere(x[i]);
            }
            lemma_items_all_sorted(sx);
        },
        JsonView::Object(es) => {
            let xs = sorted_entry_values(es);
            lemma_sorted_entry_values(es);
            lemma_sort_entries(xs);
            let r = sort_entries(xs);
            assert forall|k: int| 0 <= k < r.len() implies all_keys_sorted((#[trigger] r[k]).1) by {
                assert(r.contains(r[k]));
                assert(xs.contains(r[k]));
                let i = choose|i: int| 0 <= i < xs.len() && xs[i] == r[k];
                assert(xs[i] == (es[i].0, sorted_view(es[i].1)));
                law_sorted_everywhere(es[i].1);
            }
            lemma_entries_all_sorted(r);
        },
        _ => {},
    }
}

proof fn lemma_sub_lacks(s: Seq<char>, a: int, b: int, c: char)
    requires
        0 <= a <= b <= s.len(),
        !s.contains(c),
    ensures
        !s.subrange(a, b).contains(c),
{
    if s.subrange(a, b).contains(c) {
        let j = choose|j: int| 0 <= j < b - a && s.subrange(a, b)[j] == c;
        assert(s[a + j] == c);
    }
}

proof fn lemma_trim_lacks(s: Seq<char>, c: char)
    requires
        !s.contains(c),
    ensures
        !trim_start(s).contains(c),
        !trim_end(s).contains(c),
        !trim(s).contains(c),
    decreases s.len(),
{
    if s.len() > 0 {
        lemma_sub_lacks(s, 1, s.len() as int, c);
        lemma_sub_lacks(s, 0, s.len() - 1, c);
        lemma_trim_lacks(s.subrange(1, s.len() as int), c);
        lemma_trim_lacks(s.subrange(0, s.len() - 1), c);
    }
    if !trim_start(s).contains(c) {
        lemma_trim_end_lacks(trim_start(s), c);
    }
}

proof fn lemma_trim_end_lacks(s: Seq<char>, c: char)
    requires
        !s.contains(c),
    ensures
        !trim_end(s).contains(c),
    decreases s.len(),
{
    if s.len() > 0 {
        lemma_sub_lacks(s, 0, s.len() - 1, c);
        lemma_trim_end_lacks(s.subrange(0, s.len() - 1), c);
    }
}

proof fn lemma_lines_lack_newline(s: Seq<char>)
    ensures
        forall|k: int| 0 <= k < lines_of(s).len() ==> !(#[trigger] lines_of(s)[k]).contains('\n'),
    decreases s.len(),
{
    if s.len() > 0 {
        lemma_char_index(s, '\n');
        match char_index(s, '\n') {
            Some(i) => {
                let head = s.subrange(0, i);
                assert(!head.contains('\n')) by {
                    if head.contains('\n') {
                        let j = choose|j: int| 0 <= j < i && head[j] == '\n';
                        assert(s[j] == '\n');
                    }
                }
                if head.len() > 0 && head[head.len() - 1] == '\r' {
                    lemma_sub_lacks(head, 0, head.len() - 1, '\n');
                }
                assert(!strip_cr(head).contains('\n'));
                let rest = s.subrange(i + 1, s.len() as int);
                lemma_lines_lack_newline(rest);
                let ls = lines_of(s);
                assert forall|k: int| 0 <= k < ls.len() implies !(#[trigger] ls[k]).contains('\n') by {
                    if k > 0 {
                        assert(ls[k] == lines_of(rest)[k - 1]);
                    }
                }
            },
            None => {
                assert(!s.contains('\n')) by {
                    if s.contains('\n') {
                        let j = choose|j: int| 0 <= j < s.len() && s[j] == '\n';
                    }
                }
            },
        }
    }
}

proof fn lemma_trimmed_lines_lack(ls: Seq<Seq<char>>, c: char)
    requires
        forall|k: int| 0 <= k < ls.len() ==> !(#[trigger] ls[k]).contains(c),
    ensures
        trimmed_lines(ls).len() == ls.len(),
        forall|k: int| 0 <= k < ls.len() ==> !(#[trigger] trimmed_lines(ls)[k]).contains(c),
    decreases ls.len(),
{
    if ls.len() > 0 {
        let init = ls.subrange(0, ls.len() - 1);
        lemma_trimmed_lines_lack(init, c);
        lemma_trim_lacks(ls[ls.len() - 1], c);
        assert forall|k: int| 0 <= k < ls.len() implies !(#[trigger] trimmed_lines(ls)[k]).contains(c) by {
            if k < ls.len() - 1 {
                assert(trimmed_lines(ls)[k] == trimmed_lines(init)[k]);
            }
        }
    }
}

proof fn lemma_join_lacks(parts: Seq<Seq<char>>, sep: Seq<char>, c: char)
    requires
        forall|k: int| 0 <= k < parts.len() ==> !(#[trigger] parts[k]).contains(c),
        !sep.contains(c),
    ensures
        !join(parts, sep).contains(c),
    decreases parts.len(),
{
    if parts.len() > 1 {
        let init = parts.subrange(0, parts.len() - 1);
        lemma_join_lacks(init, sep, c);
        let a = join(init, sep);
        let last = parts[parts.len() - 1];
        assert(join(parts, sep) == a + sep + last);
        if (a + sep + last).contains(c) {
            let j = choose|j: int| 0 <= j < (a + sep + last).len() && (a + sep + last)[j] == c;
            if j < a.len() {
                assert(a[j] == c);
            } else if j < a.len() + sep.len() {
                assert(sep[j - a.len()] == c);
            } else {
                assert(last[j - a.len() - sep.len()] == c);
            }
        }
    }
}

proof fn lemma_paragraph_texts_at(ps: Seq<Seq<char>>)
    ensures
        paragraph_texts(ps).len() == ps.len(),
        forall|k: int| 0 <= k < ps.len() ==> #[trigger] paragraph_texts(ps)[k] == paragraph_text(ps[k]),
    decreases ps.len(),
{
    if ps.len() > 0 {
        let init = ps.subrange(0, ps.len() - 1);
        lemma_paragraph_texts_at(init);
        assert forall|k: int| 0 <= k < ps.len() implies #[trigger] paragraph_texts(ps)[k] == paragraph_text(ps[k]) by {
            if k < ps.len() - 1 {
                assert(paragraph_texts(ps)[k] == paragraph_texts(init)[k]);
                assert(init[k] == ps[k]);
            }
        }
    }
}

/// A rejoined description is its paragraphs joined by one blank line each,
/// and no paragraph holds a line break: the only line breaks left are the
/// blank lines between paragraphs.
pub proof fn law_description_paragraphs_on_one_line(t: Seq<char>)
    ensures
        joined_description(t) == join(paragraph_texts(split_blank(t)), "\n\n"@),
        paragraph_texts(split_blank(t)).len() == split_blank(t).len(),
        forall|k: int| 0 <= k < paragraph_texts(split_blank(t)).len() ==> !(
        #[trigger] paragraph_texts(split_blank(t))[k]).contains('\n'),
{
    let ps = split_blank(t);
    lemma_paragraph_texts_at(ps);
    reveal_strlit(" ");
    assert forall|k: int| 0 <= k < ps.len() implies !(#[trigger] paragraph_texts(ps)[k]).contains('\n') by {
        lemma_lines_lack_newline(ps[k]);
        lemma_trimmed_lines_lack(lines_of(ps[k]), '\n');
        assert(!" "@.contains('\n')) by {
            if " "@.contains('\n') {
                let j = choose|j: int| 0 <= j < " "@.len() && " "@[j] == '\n';
            }
        }
        lemma_join_lacks(trimmed_lines(lines_of(ps[k])), " "@, '\n');
    }
}

/// What one entry's value becomes when descriptions are rejoined.
pub open spec fn joined_entry_value(key: Seq<char>, v: JsonView) -> JsonView {
    if key == "description"@ {
        match v {
            JsonView::String(t) => JsonView::String(joined_description(t)),
            _ => joined_view(v),
        }
    } else {
        joined_view(v)
    }
}

proof fn lemma_joined_items_at(items: Seq<JsonView>)
    ensures
        joined_items(items).len() == items.len(),
        forall|k: int| 0 <= k < items.len() ==> #[trigger] joined_items(items)[k] == joined_view(items[k]),
    decreases items.len(),
{
    if items.len() > 0 {
        let init = items.subrange(0, items.len() - 1);
        lemma_joined_items_at(init);
        assert forall|k: int| 0 <= k < items.len() implies #[trigger] joined_items(items)[k] == joined_view(items[k]) by {
            if k < items.len() - 1 {
                assert(joined_items(items)[k] == joined_items(init)[k]);
                assert(init[k] == items[k]);
            }
        }
    }
}

proof fn lemma_joined_entries_at(es: Seq<(Seq<char>, JsonView)>)
    ensures
        joined_entries(es).len() == es.len(),
        forall|k: int| 0 <= k < es.len() ==> #[trigger] joined_entries(es)[k] == (es[k].0, joined_entry_value(es[k].0, es[k].1)),
    decreases es.len(),
{
    if es.len() > 0 {
        let init = es.subrange(0, es.len() - 1);
        lemma_joined_entries_at(init);
        assert forall|k: int| 0 <= k < es.len() implies #[trigger] joined_entries(es)[k] == (es[k].0, joined_entry_value(es[k].0, es[k].1)) by {
            if k < es.len() - 1 {
                assert(joined_entries(es)[k] == joined_entries(init)[k]);
                assert(init[k] == es[k]);
            }
        }
    }
}

/// Rejoining descriptions keeps a value's shape: the same kind of value,
/// arrays of the same length item by item, objects with the same keys in
/// the same order; a string under a `description` key is rejoined, and
/// every other value is rejoined inside and otherwise left as it was.
pub proof fn law_joined_keeps_shape(v: JsonView)
    ensures
        match v {
            JsonView::Array(items) => joined_view(v) == JsonView::Array(joined_items(items))
                && joined_items(items).len() == items.len() && forall|k: int|
                0 <= k < items.len() ==> #[trigger] joined_items(items)[k] == joined_view(items[k]),
            JsonView::Object(es) => joined_view(v) == JsonView::Object(joined_entries(es))
                && joined_entries(es).len() == es.len() && forall|k: int|
                0 <= k < es.len() ==> #[trigger] joined_entries(es)[k] == (
                    es[k].0,
                    joined_entry_value(es[k].0, es[k].1),
                ),
            _ => joined_view(v) == v,
        },
{
    match v {
        JsonView::Array(items) => lemma_joined_items_at(items),
        JsonView::Object(es) => lemma_joined_entries_at(es),
        _ => {},
    }
}

/// Every object in a value, at every depth, has distinct keys.
pub open spec fn all_keys_distinct(v: JsonView) -> bool
    decreases v,
{
    match v {
        JsonView::Array(x) => items_all_distinct(x),
        JsonView::Object(es) => keys_distinct(es) && entries_all_distinct(es),
        _ => true,
    }
}

pub open spec fn items_all_distinct(x: Seq<JsonView>) -> bool
    decreases x,
{
    if x.len() == 0 {
        true
    } else {
        all_keys_distinct(x[x.len() - 1]) && items_all_distinct(x.subrange(0, x.len() - 1))
    }
}

pub open spec fn entries_all_distinct(es: Seq<(Seq<char>, JsonView)>) -> bool
    decreases es,
{
    if es.len() == 0 {
        true
    } else {
        all_keys_distinct(es[es.len() - 1].1) && entries_all_distinct(es.subrange(0, es.len() - 1))
    }
}

proof fn lemma_sorted_items_at(x: Seq<JsonView>)
    ensures
        sorted_items(x).len() == x.len(),
        forall|i: int| 0 <= i < x.len() ==> #[trigger] sorted_items(x)[i] == sorted_view(x[i]),
    decreases x.len(),
{
    if x.len() > 0 {
        let init = x.subrange(0, x.len() - 1);
        lemma_sorted_items_at(init);
        assert forall|i: int| 0 <= i < x.len() implies #[trigger] sorted_items(x)[i] == sorted_view(x[i]) by {
            if i < x.len() - 1 {
                assert(sorted_items(x)[i] == sorted_items(init)[i]);
                assert(init[i] == x[i]);
            }
        }
    }
}

proof fn lemma_keeps_items(x: Seq<JsonView>, y: Seq<JsonView>)
    requires
        items_all_distinct(x),
        y.len() == x.len(),
        forall|i: int| 0 <= i < x.len() ==> #[trigger] y[i] == sorted_view(x[i]),
    ensures
        reordered_items(x, y),
    decreases x,
{
    if x.len() > 0 {
        let n = x.len() - 1;
        lemma_keeps_value(x[n]);
        let xi = x.subrange(0, n);
        let yi = y.subrange(0, n);
        assert forall|i: int| 0 <= i < xi.len() implies #[trigger] yi[i] == sorted_view(xi[i]) by {
            assert(yi[i] == y[i] && xi[i] == x[i]);
        }
        lemma_keeps_items(xi, yi);
    }
}

proof fn lemma_keeps_entries(x: Seq<(Seq<char>, JsonView)>, y: Seq<(Seq<char>, JsonView)>)
    requires
        entries_all_distinct(x),
        keys_distinct(y),
        forall|i: int| 0 <= i < x.len() ==> y.contains(((#[trigger] x[i]).0, sorted_view(x[i].1))),
    ensures
        reordered_entries(x, y),
    decreases x,
{
    if x.len() > 0 {
        let n = x.len() - 1;
        let e = x[n];
        assert(y.contains((e.0, sorted_view(e.1))));
        let j = choose|j: int| 0 <= j < y.len() && y[j] == (e.0, sorted_view(e.1));
        lemma_key_pos(y, e.0);
        let k = key_pos(y, e.0)->0;
        if k != j {
            if k < j {
                assert(y[k].0 != y[j].0);
            } else {
                assert(y[j].0 != y[k].0);
            }
        }
        lemma_keeps_value(e.1);
        let xi = x.subrange(0, n);
        assert forall|i: int| 0 <= i < xi.len() implies y.contains(((#[trigger] xi[i]).0, sorted_view(xi[i].1))) by {
            assert(xi[i] == x[i]);
        }
        lemma_keeps_entries(xi, y);
    }
}

proof fn lemma_keeps_value(v: JsonView)
    requires
        all_keys_distinct(v),
    ensures
        reordered(v, sorted_view(v)),
    decreases v,
{
    match v {
        JsonView::Array(x) => {
            lemma_sorted_items_at(x);
            lemma_keeps_items(x, sorted_items(x));
        },
        JsonView::Object(x) => {
            let xs = sorted_entry_values(x);
            let y = sort_entries(xs);
            lemma_sorted_entry_values(x);
            assert(keys_distinct(xs)) by {
                assert forall|i: int, j: int| 0 <= i < j < xs.len() implies (#[trigger] xs[i]).0 != (#[trigger] xs[j]).0 by {
                    assert(xs[i].0 == x[i].0 && xs[j].0 == x[j].0);
                }
            }
            lemma_sort_entries(xs);
            lemma_sort_entries_distinct(xs);
            assert forall|i: int| 0 <= i < x.len() implies y.contains(((#[trigger] x[i]).0, sorted_view(x[i].1))) by {
                assert(xs[i] == (x[i].0, sorted_view(x[i].1)));
                assert(xs.contains(xs[i]));
            }
            lemma_keeps_entries(x, y);
            assert forall|j: int| 0 <= j < y.len() implies key_pos(x, (#[trigger] y[j]).0) is Some by {
                assert(y.contains(y[j]));
                assert(xs.contains(y[j]));
                let i = choose|i: int| 0 <= i < xs.len() && xs[i] == y[j];
                assert(x[i].0 == y[j].0);
                lemma_key_pos(x, y[j].0);
            }
        },
        _ => {},
    }
}

/// Sorting keys keeps a value the same up to the order of object entries:
/// the same keys and values at every depth, arrays in the same order.
pub proof fn law_sort_keys_keeps_value(v: JsonView)
    requires
        all_keys_distinct(v),
    ensures
        reordered(v, sorted_view(v)),
        all_keys_sorted(sorted_view(v)),
{
    lemma_keeps_value(v);
    law_sorted_everywhere(v);
}

/// How many line breaks stand before position `k`.
pub open spec fn breaks_before(s: Seq<char>, k: int) -> nat {
    count_char(s.subrange(0, k), '\n')
}

/// Line breaks come in pairs: one with an even number of breaks before it
/// is followed by a break, one with an odd number follows a break.
#[verifier::opaque]
pub open spec fn breaks_paired(s: Seq<char>) -> bool {
    forall|k: int|
        0 <= k < s.len() && #[trigger] s[k] == '\n' ==> (if breaks_before(s, k) % 2 == 0 {
            k + 1 < s.len() && s[k + 1] == '\n'
        } else {
            k > 0 && s[k - 1] == '\n'
        })
}

/// `s[i..=j]` is a maximal run of line breaks.
pub open spec fn break_run(s: Seq<char>, i: int, j: int) -> bool {
    &&& 0 <= i <= j < s.len()
    &&& forall|k: int| i <= k <= j ==> #[trigger] s[k] == '\n'
    &&& i == 0 || s[i - 1] != '\n'
    &&& j == s.len() - 1 || s[j + 1] != '\n'
}

/// Every maximal run of line breaks has an even length.
pub open spec fn break_runs_even(s: Seq<char>) -> bool {
    forall|i: int, j: int| #[trigger] break_run(s, i, j) ==> (j - i + 1) % 2 == 0
}

proof fn lemma_breaks_step(s: Seq<char>, k: int)
    requires
        0 <= k < s.len(),
    ensures
        breaks_before(s, k + 1) == breaks_before(s, k) + (if s[k] == '\n' { 1nat } else { 0nat }),
{
    assert(s.subrange(0, k + 1) =~= s.subrange(0, k) + seq![s[k]]);
    lemma_count_join(s.subrange(0, k), seq![s[k]], '\n');
    assert(seq![s[k]].subrange(1, 1) =~= Seq::<char>::empty());
    assert(count_char(Seq::<char>::empty(), '\n') == 0);
}

proof fn lemma_breaks_prefix(a: Seq<char>, b: Seq<char>, k: int)
    requires
        0 <= k <= a.len(),
    ensures
        breaks_before(a + b, k) == breaks_before(a, k),
{
    assert((a + b).subrange(0, k) =~= a.subrange(0, k));
}

proof fn lemma_breaks_run(s: Seq<char>, i: int, k: int)
    requires
        0 <= i <= k < s.len(),
        forall|m: int| i <= m < k ==> #[trigger] s[m] == '\n',
    ensures
        breaks_before(s, k) == breaks_before(s, i) + (k - i),
    decreases k - i,
{
    if k > i {
        lemma_breaks_run(s, i, k - 1);
        lemma_breaks_step(s, k - 1);
    }
}

proof fn lemma_paired_at(s: Seq<char>, k: int)
    requires
        breaks_paired(s),
        0 <= k < s.len(),
        s[k] == '\n',
    ensures
        breaks_before(s, k) % 2 == 0 ==> k + 1 < s.len() && s[k + 1] == '\n',
        breaks_before(s, k) % 2 == 1 ==> k > 0 && s[k - 1] == '\n',
{
    reveal(breaks_paired);
}

proof fn lemma_run_parity(s: Seq<char>, i: int, j: int)
    requires
        breaks_paired(s),
        break_run(s, i, j),
    ensures
        (j - i + 1) % 2 == 0,
{
    assert(s[i] == '\n');
    assert(s[j] == '\n');
    lemma_paired_at(s, i);
    lemma_paired_at(s, j);
    if i == 0 {
        assert(s.subrange(0, 0) =~= Seq::<char>::empty());
        assert(count_char(Seq::<char>::empty(), '\n') == 0);
    }
    assert(breaks_before(s, i) % 2 == 0);
    lemma_breaks_run(s, i, j);
}

proof fn lemma_join_paired(ps: Seq<Seq<char>>)
    requires
        forall|k: int| 0 <= k < ps.len() ==> !(#[trigger] ps[k]).contains('\n'),
    ensures
        breaks_paired(join(ps, "\n\n"@)),
        count_char(join(ps, "\n\n"@), '\n') % 2 == 0,
    decreases ps.len(),
{
    reveal_strlit("\n\n");
    reveal(breaks_paired);
    let sep = "\n\n"@;
    let s = join(ps, sep);
    if ps.len() == 0 {
        assert(s == Seq::<char>::empty());
        assert(count_char(Seq::<char>::empty(), '\n') == 0);
    } else if ps.len() == 1 {
        let p = ps[0];
        assert(s == p);
        assert(!p.contains('\n'));
        assert forall|k: int| 0 <= k < p.len() implies #[trigger] p[k] != '\n' by {
            if p[k] == '\n' {
                assert(p.contains('\n'));
            }
        }
        lemma_no_breaks_count(p);
    } else {
        let init = ps.subrange(0, ps.len() - 1);
        assert forall|k: int| 0 <= k < init.len() implies !(#[trigger] init[k]).contains('\n') by {
            assert(init[k] == ps[k]);
        }
        lemma_join_paired(init);
        let a = join(init, sep);
        let l = ps[ps.len() - 1];
        assert(!l.contains('\n'));
        lemma_no_breaks_count(l);
        assert(s == a + sep + l);
        let n = a.len();
        lemma_count_join(a + sep, l, '\n');
        lemma_count_join(a, sep, '\n');
        assert(sep.subrange(1, 2) =~= seq!['\n']);
        assert(seq!['\n'].subrange(1, 1) =~= Seq::<char>::empty());
        assert(count_char(Seq::<char>::empty(), '\n') == 0);
        assert(count_char(seq!['\n'], '\n') == 1);
        assert(count_char(sep, '\n') == 2);
        assert forall|k: int| 0 <= k < s.len() && #[trigger] s[k] == '\n' implies (if breaks_before(s, k) % 2 == 0 {
            k + 1 < s.len() && s[k + 1] == '\n'
        } else {
            k > 0 && s[k - 1] == '\n'
        }) by {
            if k < n {
                assert(s[k] == a[k]);
                lemma_breaks_prefix(a, sep + l, k);
                assert(s =~= a + (sep + l));
                if k + 1 < n {
                    assert(s[k + 1] == a[k + 1]);
                }
                if k > 0 {
                    assert(s[k - 1] == a[k - 1]);
                }
                if breaks_before(a, k) % 2 == 0 {
                    assert(k + 1 < a.len() && a[k + 1] == '\n');
                }
            } else if k == n {
                assert(s =~= a + (sep + l));
                lemma_breaks_prefix(a, sep + l, n as int);
                assert(a.subrange(0, n as int) =~= a);
                assert(s[k + 1] == '\n');
            } else if k == n + 1 {
                lemma_breaks_step(s, n as int);
                assert(s =~= a + (sep + l));
                lemma_breaks_prefix(a, sep + l, n as int);
                assert(a.subrange(0, n as int) =~= a);
                assert(s[n as int] == '\n');
            } else {
                assert(s[k] == l[k - n - 2]);
                assert(l.contains('\n'));
            }
        }
    }
}

proof fn lemma_no_breaks_count(p: Seq<char>)
    requires
        !p.contains('\n'),
    ensures
        count_char(p, '\n') == 0,
    decreases p.len(),
{
    if p.len() > 0 {
        let t = p.subrange(1, p.len() as int);
        assert(!t.contains('\n')) by {
            if t.contains('\n') {
                let j = choose|j: int| 0 <= j < t.len() && t[j] == '\n';
                assert(p[j + 1] == '\n');
            }
        }
        lemma_no_breaks_count(t);
        assert(p[0] != '\n') by {
            if p[0] == '\n' {
                assert(p.contains('\n'));
            }
        }
    }
}

/// In a rejoined description every maximal run of line breaks has an even
/// length: only whole blank-line separators remain.
pub proof fn law_description_break_runs_even(t: Seq<char>)
    ensures
        break_runs_even(joined_description(t)),
{
    law_description_paragraphs_on_one_line(t);
    let ps = paragraph_texts(split_blank(t));
    lemma_join_paired(ps);
    let s = joined_description(t);
    assert forall|i: int, j: int| #[trigger] break_run(s, i, j) implies (j - i + 1) % 2 == 0 by {
        lemma_run_parity(s, i, j);
    }
}

/// The schema output writes a scalar as its compact JSON text: `null`,
/// `true` or `false`, a number's own text, a string quoted and escaped; an
/// empty list or object as `[]` or `{}`. Different booleans are written
/// differently, at any indentation.
pub proof fn law_pretty_scalars(j: Json, ind: Seq<char>)
    ensures
        !(j is Array) && !(j is Object) ==> pretty(j@, ind) == crate::json::json_text(j),
        j matches Json::Array(a) && a@.len() == 0 ==> pretty(j@, ind) == crate::json::json_text(j),
        j matches Json::Object(o) && o@.len() == 0 ==> pretty(j@, ind) == crate::json::json_text(j),
        pretty(JsonView::Bool(true), ind) == "true"@,
        pretty(JsonView::Bool(false), ind) == "false"@,
        pretty(JsonView::Bool(true), ind) != pretty(JsonView::Bool(false), ind),
{
    reveal_strlit("true");
    reveal_strlit("false");
    reveal_strlit("[]");
    reveal_strlit("{}");
    reveal_strlit("[");
    reveal_strlit("]");
    reveal_strlit("{");
    reveal_strlit("}");
    match j {
        Json::Array(a) => {
            if a@.len() == 0 {
                lemma_items_view(a@);
                assert(crate::json::items_texts(a@) =~= Seq::<Seq<char>>::empty());
                assert(crate::json::json_text(j) =~= "[]"@);
            }
        },
        Json::Object(o) => {
            if o@.len() == 0 {
                lemma_entries_view(o@);
                assert(crate::json::entries_texts(o@) =~= Seq::<Seq<char>>::empty());
                assert(crate::json::json_text(j) =~= "{}"@);
            }
        },
        _ => {},
    }
    assert("true"@.len() != "false"@.len());
}

} // verus!
