//! A JSON value held as plain data, and the lookups the schema walkers use.
//!
//! `Json` mirrors the shape of a JSON document: objects keep their entries
//! in the order the document gave them, numbers keep the text they were
//! written with.
use vstd::prelude::*;
use crate::text::{str_eq, sort_seqs, sort_strs, str_views, join, join_strings, string_views, text};

verus! {

/// A JSON value.
#[derive(Debug, PartialEq, Eq)]
pub enum Json {
    Null,
    Bool(bool),
    /// A number, by its JSON text (such as `8787` or `0.5`).
    Number(String),
    String(String),
    Array(Vec<Json>),
    /// Entries in document order; keys are expected to be distinct.
    Object(Vec<(String, Json)>),
}

/// Number of nodes in a value: every node counts one.
pub open spec fn json_size(j: Json) -> nat
    decreases j,
{
    match j {
        Json::Array(items) => 1 + items_size(items@),
        Json::Object(entries) => 1 + entries_size(entries@),
        _ => 1,
    }
}

/// Total size of a run of values.
pub open spec fn items_size(s: Seq<Json>) -> nat
    decreases s,
{
    if s.len() == 0 {
        0
    } else {
        items_size(s.subrange(0, s.len() - 1)) + json_size(s[s.len() - 1])
    }
}

/// Total size of the values of a run of entries.
pub open spec fn entries_size(s: Seq<(String, Json)>) -> nat
    decreases s,
{
    if s.len() == 0 {
        0
    } else {
        entries_size(s.subrange(0, s.len() - 1)) + json_size(s[s.len() - 1].1)
    }
}

pub proof fn lemma_size_positive(j: Json)
    ensures
        json_size(j) >= 1,
{
    reveal_with_fuel(json_size, 1);
}

pub proof fn lemma_item_smaller(s: Seq<Json>, i: int)
    requires
        0 <= i < s.len(),
    ensures
        json_size(s[i]) <= items_size(s),
    decreases s.len(),
{
    if i < s.len() - 1 {
        lemma_item_smaller(s.subrange(0, s.len() - 1), i);
    }
}

pub proof fn lemma_entry_smaller(s: Seq<(String, Json)>, i: int)
    requires
        0 <= i < s.len(),
    ensures
        json_size(s[i].1) <= entries_size(s),
    decreases s.len(),
{
    if i < s.len() - 1 {
        lemma_entry_smaller(s.subrange(0, s.len() - 1), i);
    }
}

/// Every element of an array is smaller than the array.
pub proof fn lemma_array_item_smaller(items: Vec<Json>, i: int)
    requires
        0 <= i < items@.len(),
    ensures
        json_size(items@[i]) < json_size(Json::Array(items)),
{
    lemma_item_smaller(items@, i);
}

/// Every entry value of an object is smaller than the object.
pub proof fn lemma_object_entry_smaller(entries: Vec<(String, Json)>, i: int)
    requires
        0 <= i < entries@.len(),
    ensures
        json_size(entries@[i].1) < json_size(Json::Object(entries)),
{
    lemma_entry_smaller(entries@, i);
}

/// The index of the first entry whose key is `key`, if any.
pub open spec fn entry_index(es: Seq<(String, Json)>, key: Seq<char>) -> Option<int>
    decreases es.len(),
{
    if es.len() == 0 {
        None
    } else if es[0].0@ == key {
        Some(0)
    } else {
        match entry_index(es.subrange(1, es.len() as int), key) {
            Some(i) => Some(i + 1),
            None => None,
        }
    }
}

pub proof fn lemma_entry_index(es: Seq<(String, Json)>, key: Seq<char>)
    ensures
        entry_index(es, key) matches Some(i) ==> 0 <= i < es.len() && es[i].0@ == key
            && forall|k: int| 0 <= k < i ==> es[k].0@ != key,
        entry_index(es, key) is None ==> forall|k: int| 0 <= k < es.len() ==> es[k].0@ != key,
    decreases es.len(),
{
    if es.len() > 0 && es[0].0@ != key {
        let rest = es.subrange(1, es.len() as int);
        lemma_entry_index(rest, key);
        assert forall|k: int| 1 <= k < es.len() implies es[k] == rest[k - 1] by {}
    }
}

/// What `get(key)` finds in a value: the first entry of an object with that key.
pub open spec fn spec_get(j: Json, key: Seq<char>) -> Option<Json> {
    match j {
        Json::Object(es) => match entry_index(es@, key) {
            Some(i) => Some(es@[i].1),
            None => None,
        },
        _ => None,
    }
}

pub proof fn lemma_get_smaller(j: Json, key: Seq<char>)
    ensures
        spec_get(j, key) matches Some(v) ==> json_size(v) < json_size(j),
{
    if let Json::Object(es) = j {
        lemma_entry_index(es@, key);
        if let Some(i) = entry_index(es@, key) {
            lemma_object_entry_smaller(es, i);
        }
    }
}

pub open spec fn opt_ref(r: Option<&Json>) -> Option<Json> {
    match r {
        Some(v) => Some(*v),
        None => None,
    }
}

/// The value under `key` of an object; `None` for a missing key or a
/// value that is not an object.
pub fn get<'a>(j: &'a Json, key: &str) -> (r: Option<&'a Json>)
    ensures
        opt_ref(r) == spec_get(*j, key@),
{
    match j {
        Json::Object(es) => {
            let n = es.len();
            let mut i: usize = 0;
            while i < n
                invariant
                    *j == Json::Object(*es),
                    n == es@.len(),
                    i <= n,
                    forall|k: int| 0 <= k < i ==> es@[k].0@ != key@,
                decreases n - i,
            {
                if str_eq(es[i].0.as_str(), key) {
                    proof {
                        lemma_entry_index(es@, key@);
                        assert(es@[i as int].0@ == key@);
                    }
                    return Some(&es[i].1);
                }
                i = i + 1;
            }
            proof {
                lemma_entry_index(es@, key@);
            }
            None
        },
        _ => None,
    }
}


/// The entry value under `key` in a run of entries (first match).
pub open spec fn entries_get(es: Seq<(String, Json)>, key: Seq<char>) -> Option<Json> {
    match entry_index(es, key) {
        Some(i) => Some(es[i].1),
        None => None,
    }
}

/// The value under `key` in a run of entries.
pub fn lookup<'a>(es: &'a Vec<(String, Json)>, key: &str) -> (r: Option<&'a Json>)
    ensures
        opt_ref(r) == entries_get(es@, key@),
{
    let n = es.len();
    let mut i: usize = 0;
    while i < n
        invariant
            n == es@.len(),
            i <= n,
            forall|k: int| 0 <= k < i ==> es@[k].0@ != key@,
        decreases n - i,
    {
        if str_eq(es[i].0.as_str(), key) {
            proof {
                lemma_entry_index(es@, key@);
                assert(es@[i as int].0@ == key@);
            }
            return Some(&es[i].1);
        }
        i = i + 1;
    }
    proof {
        lemma_entry_index(es@, key@);
    }
    None
}

/// The text under `key`, when it is a string.
pub open spec fn str_at(j: Json, key: Seq<char>) -> Option<Seq<char>> {
    match spec_get(j, key) {
        Some(Json::String(s)) => Some(s@),
        _ => None,
    }
}

/// The items under `key`, when it is an array.
pub open spec fn array_at(j: Json, key: Seq<char>) -> Option<Vec<Json>> {
    match spec_get(j, key) {
        Some(Json::Array(a)) => Some(a),
        _ => None,
    }
}

/// The entries under `key`, when it is an object.
pub open spec fn object_at(j: Json, key: Seq<char>) -> Option<Vec<(String, Json)>> {
    match spec_get(j, key) {
        Some(Json::Object(o)) => Some(o),
        _ => None,
    }
}

pub open spec fn opt_str(r: Option<&str>) -> Option<Seq<char>> {
    match r {
        Some(s) => Some(s@),
        None => None,
    }
}

pub open spec fn opt_vec<T>(r: Option<&Vec<T>>) -> Option<Vec<T>> {
    match r {
        Some(v) => Some(*v),
        None => None,
    }
}

/// `v.get(key).and_then(|v| v.as_str())`.
pub fn get_str<'a>(j: &'a Json, key: &str) -> (r: Option<&'a str>)
    ensures
        opt_str(r) == str_at(*j, key@),
{
    match get(j, key) {
        Some(Json::String(s)) => Some(s.as_str()),
        _ => None,
    }
}

/// `v.get(key).and_then(|v| v.as_array())`.
pub fn get_array<'a>(j: &'a Json, key: &str) -> (r: Option<&'a Vec<Json>>)
    ensures
        opt_vec(r) == array_at(*j, key@),
{
    match get(j, key) {
        Some(Json::Array(a)) => Some(a),
        _ => None,
    }
}

/// `v.get(key).and_then(|v| v.as_object())`.
pub fn get_object<'a>(j: &'a Json, key: &str) -> (r: Option<&'a Vec<(String, Json)>>)
    ensures
        opt_vec(r) == object_at(*j, key@),
{
    match get(j, key) {
        Some(Json::Object(o)) => Some(o),
        _ => None,
    }
}

/// Whatever a lookup finds is smaller than where it was found.
pub proof fn lemma_at_smaller(j: Json, key: Seq<char>)
    ensures
        spec_get(j, key) matches Some(v) ==> json_size(v) < json_size(j),
        array_at(j, key) matches Some(a) ==> items_size(a@) < json_size(j) && forall|i: int|
            0 <= i < a@.len() ==> #[trigger] json_size(a@[i]) < json_size(j),
        object_at(j, key) matches Some(o) ==> entries_size(o@) < json_size(j) && forall|i: int|
            0 <= i < o@.len() ==> #[trigger] json_size(o@[i].1) < json_size(j),
{
    lemma_get_smaller(j, key);
    if let Some(a) = array_at(j, key) {
        assert forall|i: int| 0 <= i < a@.len() implies #[trigger] json_size(a@[i]) < json_size(
            j,
        ) by {
            lemma_array_item_smaller(a, i);
        }
    }
    if let Some(o) = object_at(j, key) {
        assert forall|i: int| 0 <= i < o@.len() implies #[trigger] json_size(o@[i].1)
            < json_size(j) by {
            lemma_object_entry_smaller(o, i);
        }
    }
}

/// The value of an entry found by key is smaller than the object holding it.
pub proof fn lemma_entries_get_smaller(es: Seq<(String, Json)>, key: Seq<char>)
    ensures
        entries_get(es, key) matches Some(v) ==> json_size(v) <= entries_size(es),
{
    lemma_entry_index(es, key);
    if let Some(i) = entry_index(es, key) {
        lemma_entry_smaller(es, i);
    }
}

/// The keys of a run of entries, in order.
pub open spec fn keys_of(es: Seq<(String, Json)>) -> Seq<Seq<char>> {
    es.map_values(|e: (String, Json)| e.0@)
}


/// The keys of a run of entries, as string slices.
pub fn key_refs<'a>(es: &'a Vec<(String, Json)>) -> (r: Vec<&'a str>)
    ensures
        str_views(r@) == keys_of(es@),
{
    let mut r: Vec<&'a str> = Vec::new();
    let n = es.len();
    let mut i: usize = 0;
    while i < n
        invariant
            n == es@.len(),
            i <= n,
            str_views(r@) == keys_of(es@).subrange(0, i as int),
        decreases n - i,
    {
        let k = es[i].0.as_str();
        let ghost before = r@;
        r.push(k);
        assert(r@ == before.push(k));
        assert(str_views(r@) =~= str_views(before).push(k@));
        assert(keys_of(es@).subrange(0, i + 1) =~= keys_of(es@).subrange(0, i as int).push(
            es@[i as int].0@,
        ));
        assert(str_views(r@) =~= keys_of(es@).subrange(0, i + 1));
        i = i + 1;
    }
    assert(keys_of(es@).subrange(0, n as int) =~= keys_of(es@));
    r
}

/// The keys of a run of entries in ascending order.
pub fn sorted_keys<'a>(es: &'a Vec<(String, Json)>) -> (r: Vec<&'a str>)
    ensures
        str_views(r@) == sort_seqs(keys_of(es@)),
{
    let ks = key_refs(es);
    sort_strs(&ks)
}


/// A lowercase hexadecimal digit, for `d < 16`.
pub open spec fn hex_digit(d: u32) -> char {
    if d < 10 {
        crate::text::digit_char(d as nat)
    } else if d == 10 {
        'a'
    } else if d == 11 {
        'b'
    } else if d == 12 {
        'c'
    } else if d == 13 {
        'd'
    } else if d == 14 {
        'e'
    } else {
        'f'
    }
}

/// How one character stands inside a JSON string: `"` and `\` and the
/// control characters escaped, everything else as it is.
pub open spec fn json_escape_char(c: char) -> Seq<char> {
    let u = c as u32;
    if c == '"' {
        seq!['\\', '"']
    } else if c == '\\' {
        seq!['\\', '\\']
    } else if u == 0x08 {
        seq!['\\', 'b']
    } else if u == 0x09 {
        seq!['\\', 't']
    } else if u == 0x0A {
        seq!['\\', 'n']
    } else if u == 0x0C {
        seq!['\\', 'f']
    } else if u == 0x0D {
        seq!['\\', 'r']
    } else if u < 0x20 {
        seq!['\\', 'u', '0', '0', hex_digit(u / 16), hex_digit(u % 16)]
    } else {
        seq![c]
    }
}

/// The characters of a JSON string's body.
pub open spec fn json_escape(s: Seq<char>) -> Seq<char>
    decreases s.len(),
{
    if s.len() == 0 {
        seq![]
    } else {
        json_escape(s.subrange(0, s.len() - 1)) + json_escape_char(s[s.len() - 1])
    }
}

/// A text as a JSON string literal.
pub open spec fn json_quoted(s: Seq<char>) -> Seq<char> {
    seq!['"'] + json_escape(s) + seq!['"']
}

/// `serde_json::Value`, carried through opaque.
#[verifier::external_type_specification]
#[verifier::external_body]
pub struct ExJsonValue(serde_json::Value);

/// `serde_json::to_string` on a string slice: the JSON string literal of
/// the text, with `"`, `\` and the characters below U+0020 escaped
/// (`\b \t \n \f \r` by name, the others as `\u00xx` in lowercase hex) and
/// every other character written as it is. Serializing a string into
/// memory cannot fail.
#[verifier::external_body]
pub(crate) fn quote_json(s: &str) -> (r: String)
    ensures
        r@ == json_quoted(s@),
{
    serde_json::to_string(s).unwrap_or_default()
}

/// The compact JSON text of a value: no white space, object entries in the
/// order they stand, numbers by their own text.
pub open spec fn json_text(j: Json) -> Seq<char>
    decreases json_size(j), 1nat,
{
    match j {
        Json::Null => "null"@,
        Json::Bool(b) => if b {
            "true"@
        } else {
            "false"@
        },
        Json::Number(n) => n@,
        Json::String(s) => json_quoted(s@),
        Json::Array(items) => "["@ + join(items_texts(items@), ","@) + "]"@,
        Json::Object(es) => "{"@ + join(entries_texts(es@), ","@) + "}"@,
    }
}

/// The texts of a run of values.
pub open spec fn items_texts(items: Seq<Json>) -> Seq<Seq<char>>
    decreases items_size(items), 2nat,
{
    if items.len() == 0 {
        seq![]
    } else {
        proof {
            lemma_size_positive(items[items.len() - 1]);
        }
        items_texts(items.subrange(0, items.len() - 1)).push(json_text(items[items.len() - 1]))
    }
}

/// The `"key":value` texts of a run of entries.
pub open spec fn entries_texts(es: Seq<(String, Json)>) -> Seq<Seq<char>>
    decreases entries_size(es), 2nat,
{
    if es.len() == 0 {
        seq![]
    } else {
        let e = es[es.len() - 1];
        proof {
            lemma_size_positive(e.1);
        }
        entries_texts(es.subrange(0, es.len() - 1)).push(
            json_quoted(e.0@) + ":"@ + json_text(e.1),
        )
    }
}

/// The compact JSON text of a value (what `serde_json::to_string` writes).
pub fn compact_json(j: &Json) -> (r: String)
    ensures
        r@ == json_text(*j),
    decreases json_size(*j), 1nat,
{
    match j {
        Json::Null => text("null"),
        Json::Bool(b) => if *b {
            text("true")
        } else {
            text("false")
        },
        Json::Number(n) => text(n.as_str()),
        Json::String(s) => quote_json(s.as_str()),
        Json::Array(items) => {
            let mut parts: Vec<String> = Vec::new();
            let n = items.len();
            let mut i: usize = 0;
            while i < n
                invariant
                    n == items@.len(),
                    i <= n,
                    *j == Json::Array(*items),
                    string_views(parts@) == items_texts(items@.subrange(0, i as int)),
                decreases n - i,
            {
                proof {
                    lemma_array_item_smaller(*items, i as int);
                }
                let t = compact_json(&items[i]);
                parts.push(t);
                proof {
                    let sub = items@.subrange(0, i + 1);
                    assert(sub.subrange(0, i as int) =~= items@.subrange(0, i as int));
                    assert(string_views(parts@) =~= items_texts(sub));
                }
                i = i + 1;
            }
            assert(items@.subrange(0, n as int) =~= items@);
            let inner = join_strings(&parts, ",");
            let mut out = text("[");
            out.append(inner.as_str());
            out.append("]");
            out
        },
        Json::Object(es) => {
            let mut parts: Vec<String> = Vec::new();
            let n = es.len();
            let mut i: usize = 0;
            while i < n
                invariant
                    n == es@.len(),
                    i <= n,
                    *j == Json::Object(*es),
                    string_views(parts@) == entries_texts(es@.subrange(0, i as int)),
                decreases n - i,
            {
                proof {
                    lemma_object_entry_smaller(*es, i as int);
                }
                let mut t = quote_json(es[i].0.as_str());
                t.append(":");
                let v = compact_json(&es[i].1);
                t.append(v.as_str());
                parts.push(t);
                proof {
                    let sub = es@.subrange(0, i + 1);
                    assert(sub.subrange(0, i as int) =~= es@.subrange(0, i as int));
                    assert(string_views(parts@) =~= entries_texts(sub));
                }
                i = i + 1;
            }
            assert(es@.subrange(0, n as int) =~= es@);
            let inner = join_strings(&parts, ",");
            let mut out = text("{");
            out.append(inner.as_str());
            out.append("}");
            out
        },
    }
}


/// A JSON value as mathematics: texts as character sequences.
pub enum JsonView {
    Null,
    Bool(bool),
    Number(Seq<char>),
    String(Seq<char>),
    Array(Seq<JsonView>),
    Object(Seq<(Seq<char>, JsonView)>),
}

/// The mathematical value of a JSON value.
pub open spec fn jview(j: Json) -> JsonView
    decreases json_size(j), 0nat,
{
    match j {
        Json::Null => JsonView::Null,
        Json::Bool(b) => JsonView::Bool(b),
        Json::Number(n) => JsonView::Number(n@),
        Json::String(s) => JsonView::String(s@),
        Json::Array(items) => JsonView::Array(items_view(items@)),
        Json::Object(es) => JsonView::Object(entries_view(es@)),
    }
}

pub open spec fn items_view(s: Seq<Json>) -> Seq<JsonView>
    decreases items_size(s), 1nat,
{
    if s.len() == 0 {
        seq![]
    } else {
        proof {
            lemma_size_positive(s[s.len() - 1]);
        }
        items_view(s.subrange(0, s.len() - 1)).push(jview(s[s.len() - 1]))
    }
}

pub open spec fn entries_view(s: Seq<(String, Json)>) -> Seq<(Seq<char>, JsonView)>
    decreases entries_size(s), 1nat,
{
    if s.len() == 0 {
        seq![]
    } else {
        proof {
            lemma_size_positive(s[s.len() - 1].1);
        }
        entries_view(s.subrange(0, s.len() - 1)).push((s[s.len() - 1].0@, jview(s[s.len() - 1].1)))
    }
}

impl View for Json {
    type V = JsonView;

    open spec fn view(&self) -> JsonView {
        jview(*self)
    }
}

pub proof fn lemma_items_view(s: Seq<Json>)
    ensures
        items_view(s).len() == s.len(),
        forall|i: int| 0 <= i < s.len() ==> #[trigger] items_view(s)[i] == jview(s[i]),
    decreases s.len(),
{
    if s.len() > 0 {
        lemma_items_view(s.subrange(0, s.len() - 1));
    }
}

pub proof fn lemma_entries_view(s: Seq<(String, Json)>)
    ensures
        entries_view(s).len() == s.len(),
        forall|i: int|
            0 <= i < s.len() ==> #[trigger] entries_view(s)[i] == (s[i].0@, jview(s[i].1)),
    decreases s.len(),
{
    if s.len() > 0 {
        lemma_entries_view(s.subrange(0, s.len() - 1));
    }
}


/// Where the first entry with key `k` stands, if any.
pub open spec fn key_pos(es: Seq<(Seq<char>, JsonView)>, k: Seq<char>) -> Option<int>
    decreases es.len(),
{
    if es.len() == 0 {
        None
    } else if es[0].0 == k {
        Some(0)
    } else {
        match key_pos(es.subrange(1, es.len() as int), k) {
            Some(i) => Some(i + 1),
            None => None,
        }
    }
}

pub proof fn lemma_key_pos(es: Seq<(Seq<char>, JsonView)>, k: Seq<char>)
    ensures
        key_pos(es, k) matches Some(i) ==> 0 <= i < es.len() && es[i].0 == k && forall|j: int|
            0 <= j < i ==> (#[trigger] es[j]).0 != k,
        key_pos(es, k) is None ==> forall|j: int| 0 <= j < es.len() ==> (#[trigger] es[j]).0 != k,
    decreases es.len(),
{
    if es.len() > 0 && es[0].0 != k {
        let rest = es.subrange(1, es.len() as int);
        lemma_key_pos(rest, k);
        assert forall|j: int| 1 <= j < es.len() implies es[j] == rest[j - 1] by {}
    }
}

} // verus!
