use mcpg_config::doc::{anchor, escape_md_cell, first_line, render_reference, CURATED_INTRO};
use mcpg_config::json::{compact_json, Json};

fn s(x: &str) -> Json {
    Json::String(x.to_string())
}

fn obj(entries: Vec<(&str, Json)>) -> Json {
    Json::Object(entries.into_iter().map(|(k, v)| (k.to_string(), v)).collect())
}

fn arr(items: Vec<Json>) -> Json {
    Json::Array(items)
}

fn sample_schema() -> Json {
    obj(vec![
        ("description", s("Root.")),
        (
            "properties",
            obj(vec![
                ("name", obj(vec![("type", s("string")), ("default", s("gw")), ("description", s("The name | pipe\nsecond line"))])),
                ("audit", obj(vec![("allOf", arr(vec![obj(vec![("$ref", s("#/definitions/AuditConfig"))])]))])),
                ("tags", obj(vec![("type", s("array")), ("items", obj(vec![("type", s("string"))])), ("default", arr(vec![]))])),
                ("limits", obj(vec![("type", s("object")), ("additionalProperties", obj(vec![("type", s("integer"))]))])),
                ("port", obj(vec![("type", arr(vec![s("integer"), s("null")])), ("default", Json::Number("8080".to_string()))])),
            ]),
        ),
        (
            "definitions",
            obj(vec![
                (
                    "Sink",
                    obj(vec![(
                        "oneOf",
                        arr(vec![
                            obj(vec![
                                ("title", s("File")),
                                ("description", s("Writes a file.\nMore.")),
                                ("properties", obj(vec![("type", obj(vec![("enum", arr(vec![s("file")]))])), ("path", obj(vec![("type", s("string"))]))])),
                            ]),
                            obj(vec![("properties", obj(vec![("type", obj(vec![("enum", arr(vec![s("stderr")]))]))]))]),
                            obj(vec![("type", s("string")), ("enum", arr(vec![s("x")]))]),
                            obj(vec![]),
                        ]),
                    )]),
                ),
                (
                    "AuditConfig",
                    obj(vec![
                        ("description", s("Audit.")),
                        ("type", s("object")),
                        (
                            "properties",
                            obj(vec![
                                ("on_failure", obj(vec![("$ref", s("#/definitions/AuditOnFailure"))])),
                                ("enabled", obj(vec![("type", s("boolean")), ("default", Json::Bool(true))])),
                            ]),
                        ),
                    ]),
                ),
                ("AuditOnFailure", obj(vec![("type", s("string")), ("enum", arr(vec![s("fail_closed"), s("fail_open")]))])),
                ("Labels", obj(vec![("type", s("object")), ("additionalProperties", obj(vec![("type", s("string"))]))])),
            ]),
        ),
    ])
}

#[test]
fn reference_renders_whole_document() {
    let out = render_reference(&sample_schema());
    let mut expected = String::new();
    expected.push_str("# MCPG Configuration\n\n");
    expected.push_str("> **Generated from `apps/gateway/src/config/` via `mcpg config doc`.**  \n");
    expected.push_str("> The audience-facing sections below are curated inside the generator; the per-block reference at the bottom is sourced from `///` rustdoc + `#[serde(...)]` annotations on the live `AppConfig` tree.  \n");
    expected.push_str("> Re-generate with: `mcpg config doc > apps/gateway/docs/configuration.md`.\n\n");
    expected.push_str("## Overview\n\nRoot.\n\n");
    expected.push_str(CURATED_INTRO);
    expected.push_str("## Top-level structure (`AppConfig`)\n\n");
    expected.push_str("Every field on the root `AppConfig`, alphabetised. Click a type to jump to its per-block reference below.\n\n");
    expected.push_str("| Field | Type | Default | Summary |\n| --- | --- | --- | --- |\n");
    expected.push_str("| `audit` | [`AuditConfig`](#auditconfig) |  |  |\n");
    expected.push_str("| `limits` | map&lt;string, integer&gt; |  |  |\n");
    expected.push_str("| `name` | string | `\"gw\"` | The name \\| pipe |\n");
    expected.push_str("| `port` | integer (optional) | `8080` |  |\n");
    expected.push_str("| `tags` | array&lt;string&gt; | `[]` |  |\n");
    expected.push_str("\n");
    expected.push_str("\n## Per-block reference\n\n");
    expected.push_str("Every type reachable from `AppConfig`, alphabetised. Field tables show type, default, and the field's `///` doc-comment summary.\n\n");
    expected.push_str("### `AuditConfig`\n\nAudit.\n\n");
    expected.push_str("| Field | Type | Default | Summary |\n| --- | --- | --- | --- |\n");
    expected.push_str("| `enabled` | boolean | `true` |  |\n");
    expected.push_str("| `on_failure` | [`AuditOnFailure`](#auditonfailure) |  |  |\n\n");
    expected.push_str("### `AuditOnFailure`\n\n**Allowed values:**\n\n- `fail_closed`\n- `fail_open`\n\n");
    expected.push_str("### `Labels`\n\nType: map&lt;string, string&gt;\n\n");
    expected.push_str("### `Sink`\n\n**Variants:**\n\n");
    expected.push_str("- **`File`** — Writes a file.\n  - `path`: string\n\n");
    expected.push_str("- **`stderr`**\n\n");
    expected.push_str("- **`x`**\n\n");
    expected.push_str("- **`(unnamed variant)`**");
    assert_eq!(out, expected);
}

#[test]
fn reference_without_description_or_definitions() {
    let out = render_reference(&obj(vec![]));
    assert!(out.starts_with("# MCPG Configuration\n\n"));
    assert!(!out.contains("## Overview"));
    assert!(out.ends_with("Field tables show type, default, and the field's `///` doc-comment summary."));
    assert!(!out.ends_with('\n'));
}

#[test]
fn defaults_of_each_shape() {
    let schema = obj(vec![(
        "properties",
        obj(vec![
            ("a", obj(vec![("default", arr(vec![s("x")]))])),
            ("b", obj(vec![("default", obj(vec![]))])),
            ("c", obj(vec![("default", obj(vec![("k", Json::Null)]))])),
            ("d", obj(vec![("default", Json::Null)])),
            ("e", obj(vec![("anyOf", arr(vec![obj(vec![("type", s("string"))]), obj(vec![("type", s("null"))])]))])),
            ("f", obj(vec![("oneOf", arr(vec![]))])),
            ("g", obj(vec![("type", arr(vec![s("null")]))])),
        ]),
    )]);
    let out = render_reference(&schema);
    assert!(out.contains("| `a` | any | (see type) |  |\n"));
    assert!(out.contains("| `b` | any | `{}` |  |\n"));
    assert!(out.contains("| `c` | any | (see type) |  |\n"));
    assert!(out.contains("| `d` | any |  |  |\n"));
    assert!(out.contains("| `e` | string (optional) |  |  |\n"));
    assert!(out.contains("| `f` | (tagged union — see variant list) |  |  |\n"));
    assert!(out.contains("| `g` | null |  |  |\n"));
}

#[test]
fn anchor_lowercases() {
    assert_eq!(anchor("AuditOnFailure"), "auditonfailure");
    assert_eq!(anchor("already_lower"), "already_lower");
}

#[test]
fn escape_md_cell_escapes_pipes_and_newlines() {
    assert_eq!(escape_md_cell("a|b\nc"), "a\\|b c");
    assert_eq!(escape_md_cell("plain"), "plain");
    assert_eq!(escape_md_cell(""), "");
}

#[test]
fn first_line_trims_the_first_line() {
    assert_eq!(first_line("  hello world  \nsecond"), "hello world");
    assert_eq!(first_line("one\r\ntwo"), "one");
    assert_eq!(first_line(""), "");
    assert_eq!(first_line("\nafter"), "");
}

#[test]
fn compact_json_escapes_strings() {
    let v = arr(vec![s("a\"b\\c\n\u{1}"), Json::Bool(false), Json::Null, Json::Number("1.5".to_string())]);
    assert_eq!(compact_json(&v), "[\"a\\\"b\\\\c\\n\\u0001\",false,null,1.5]");
    let o = obj(vec![("k", obj(vec![])), ("l", arr(vec![]))]);
    assert_eq!(compact_json(&o), "{\"k\":{},\"l\":[]}");
}

fn reversed(j: &Json) -> Json {
    match j {
        Json::Array(items) => Json::Array(items.iter().map(reversed).collect()),
        Json::Object(es) => Json::Object(es.iter().rev().map(|(k, v)| (k.clone(), reversed(v))).collect()),
        Json::Null => Json::Null,
        Json::Bool(b) => Json::Bool(*b),
        Json::Number(n) => Json::Number(n.clone()),
        Json::String(t) => Json::String(t.clone()),
    }
}

#[test]
fn reference_ignores_entry_order() {
    let schema = sample_schema();
    assert_eq!(render_reference(&schema), render_reference(&reversed(&schema)));
}
