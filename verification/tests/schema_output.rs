use mcpg_config::json::Json;
use mcpg_config::schema::{app_config_schema, first_literal, render_schema, sort_keys};

fn s(x: &str) -> Json {
    Json::String(x.to_string())
}

fn n(x: &str) -> Json {
    Json::Number(x.to_string())
}

fn obj(entries: Vec<(&str, Json)>) -> Json {
    Json::Object(entries.into_iter().map(|(k, v)| (k.to_string(), v)).collect())
}

fn arr(items: Vec<Json>) -> Json {
    Json::Array(items)
}

#[test]
fn sort_keys_sorts_every_level() {
    let v = obj(vec![
        ("b", n("1")),
        ("a", obj(vec![("d", arr(vec![obj(vec![("z", Json::Null), ("y", Json::Bool(true))])])), ("c", s("x"))])),
    ]);
    let expected = obj(vec![
        ("a", obj(vec![("c", s("x")), ("d", arr(vec![obj(vec![("y", Json::Bool(true)), ("z", Json::Null)])]))])),
        ("b", n("1")),
    ]);
    assert_eq!(sort_keys(v), expected);
    assert_eq!(sort_keys(s("plain")), s("plain"));
}

#[test]
fn schema_output_is_pretty_and_sorted() {
    let v = obj(vec![
        ("b", n("1")),
        ("a", obj(vec![("d", arr(vec![Json::Bool(true), Json::Null])), ("c", s("x\"y"))])),
        ("f", obj(vec![])),
        ("e", arr(vec![])),
    ]);
    let out = render_schema(v);
    assert_eq!(
        out,
        "{\n  \"a\": {\n    \"c\": \"x\\\"y\",\n    \"d\": [\n      true,\n      null\n    ]\n  },\n  \"b\": 1,\n  \"e\": [],\n  \"f\": {}\n}"
    );
}

#[test]
fn schema_output_ignores_key_order() {
    let a = obj(vec![("x", n("1")), ("y", obj(vec![("p", n("2")), ("q", n("3"))]))]);
    let b = obj(vec![("y", obj(vec![("q", n("3")), ("p", n("2"))])), ("x", n("1"))]);
    assert_eq!(render_schema(a), render_schema(b));
}

#[test]
fn descriptions_become_one_line_paragraphs() {
    let generated = obj(vec![
        ("description", s("First line\n  continues here\n\nSecond paragraph\nends")),
        (
            "properties",
            obj(vec![
                ("description", obj(vec![("type", s("string")), ("description", s("A field\nnamed description"))])),
                ("other", obj(vec![("anyOf", arr(vec![obj(vec![("description", s("x\ny"))])]))])),
            ]),
        ),
        ("title", s("keep\nthis")),
    ]);
    let expected = obj(vec![
        ("description", s("First line continues here\n\nSecond paragraph ends")),
        (
            "properties",
            obj(vec![
                ("description", obj(vec![("type", s("string")), ("description", s("A field named description"))])),
                ("other", obj(vec![("anyOf", arr(vec![obj(vec![("description", s("x y"))])]))])),
            ]),
        ),
        ("title", s("keep\nthis")),
    ]);
    assert_eq!(app_config_schema(generated), expected);
}

#[test]
fn description_edge_cases() {
    let one = |d: &str| app_config_schema(obj(vec![("description", s(d))]));
    assert_eq!(one(""), obj(vec![("description", s(""))]));
    assert_eq!(one("a\n\n\nb"), obj(vec![("description", s("a\n\n b"))]));
    assert_eq!(one("trailing\n"), obj(vec![("description", s("trailing"))]));
    assert_eq!(one("x\r\ny"), obj(vec![("description", s("x y"))]));
    assert_eq!(app_config_schema(obj(vec![("description", n("3"))])), obj(vec![("description", n("3"))]));
}

#[test]
fn first_literal_of_const_or_enum() {
    assert_eq!(first_literal(&obj(vec![("const", s("x"))])), Some("x"));
    assert_eq!(first_literal(&obj(vec![("enum", arr(vec![s("a"), s("b")]))])), Some("a"));
    assert_eq!(first_literal(&obj(vec![("const", n("1")), ("enum", arr(vec![s("a")]))])), Some("a"));
    assert_eq!(first_literal(&obj(vec![("enum", arr(vec![]))])), None);
    assert_eq!(first_literal(&obj(vec![("enum", arr(vec![n("2")]))])), None);
    assert_eq!(first_literal(&obj(vec![])), None);
}
