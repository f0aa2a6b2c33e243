use mcpg_config::explain::{explain_path, explain_request, render_root, tokenize, ExplainRequest, Token};
use mcpg_config::json::Json;

fn s(x: &str) -> Json {
    Json::String(x.to_string())
}

fn obj(entries: Vec<(&str, Json)>) -> Json {
    Json::Object(entries.into_iter().map(|(k, v)| (k.to_string(), v)).collect())
}

fn sample_schema() -> Json {
    obj(vec![
        ("description", s("Root config.")),
        (
            "properties",
            obj(vec![
                ("server", obj(vec![("$ref", s("#/definitions/ServerConfig"))])),
                (
                    "audit",
                    obj(vec![
                        ("description", s("Audit settings.\nMore detail.")),
                        ("allOf", Json::Array(vec![obj(vec![("$ref", s("#/definitions/AuditConfig"))])])),
                    ]),
                ),
                (
                    "bindings",
                    obj(vec![
                        ("type", s("array")),
                        ("items", obj(vec![("$ref", s("#/definitions/Binding"))])),
                    ]),
                ),
            ]),
        ),
        (
            "definitions",
            obj(vec![
                (
                    "ServerConfig",
                    obj(vec![
                        ("type", s("object")),
                        (
                            "properties",
                            obj(vec![(
                                "bind_address",
                                obj(vec![
                                    ("type", s("string")),
                                    ("default", s("127.0.0.1:8787")),
                                ]),
                            )]),
                        ),
                    ]),
                ),
                (
                    "AuditConfig",
                    obj(vec![
                        ("type", s("object")),
                        (
                            "properties",
                            obj(vec![(
                                "on_failure",
                                obj(vec![
                                    ("description", s("Operator policy when an audit-sink emit fails.")),
                                    ("allOf", Json::Array(vec![obj(vec![("$ref", s("#/definitions/AuditOnFailure"))])])),
                                    ("default", s("fail_closed")),
                                ]),
                            )]),
                        ),
                    ]),
                ),
                (
                    "AuditOnFailure",
                    obj(vec![
                        ("type", s("string")),
                        ("enum", Json::Array(vec![s("fail_closed"), s("fail_open")])),
                    ]),
                ),
                (
                    "Binding",
                    obj(vec![
                        ("type", s("object")),
                        ("properties", obj(vec![("name", obj(vec![("type", s("string"))]))])),
                    ]),
                ),
            ]),
        ),
    ])
}

#[test]
fn tokenize_splits_fields_and_indexes() {
    let t = tokenize("bindings[0].name");
    assert_eq!(
        t,
        vec![Token::Field("bindings".to_string()), Token::Index, Token::Field("name".to_string())]
    );
    assert_eq!(tokenize("a..b"), vec![Token::Field("a".to_string()), Token::Field("b".to_string())]);
    assert_eq!(tokenize("[1][2]"), vec![Token::Index, Token::Index]);
    assert_eq!(tokenize("x[1"), vec![Token::Field("x".to_string())]);
    assert_eq!(tokenize(""), vec![]);
}

#[test]
fn explain_scalar_field_with_default() {
    let schema = sample_schema();
    let out = explain_path(&schema, "server.bind_address").unwrap();
    assert_eq!(out, "server.bind_address\n  Type:    string\n  Default: \"127.0.0.1:8787\"\n");
}

#[test]
fn explain_enum_field() {
    let schema = sample_schema();
    let out = explain_path(&schema, "audit.on_failure").unwrap();
    assert_eq!(
        out,
        "audit.on_failure\n  Type:    AuditOnFailure (enum)\n  Default: \"fail_closed\"\n  Allowed values:\n    - fail_closed\n    - fail_open\n\n  Operator policy when an audit-sink emit fails.\n"
    );
}

#[test]
fn explain_indexed_path() {
    let schema = sample_schema();
    let out = explain_path(&schema, "bindings[0].name").unwrap();
    assert_eq!(out, "bindings[0].name\n  Type:    string\n");
}

#[test]
fn explain_errors() {
    let schema = sample_schema();
    assert_eq!(
        explain_path(&schema, "server.nope").unwrap_err(),
        "error: unknown field 'nope' in path 'server.nope'"
    );
    assert_eq!(
        explain_path(&schema, "server.bind_address.x").unwrap_err(),
        "error: cannot descend into 'x' — not an object at this point in path 'server.bind_address.x'"
    );
    assert_eq!(
        explain_path(&schema, "server[0]").unwrap_err(),
        "error: 'server[0]' uses [N] indexing but element is not an array"
    );
}

#[test]
fn explain_root_listing() {
    let schema = sample_schema();
    let out = render_root(&schema);
    assert_eq!(
        out,
        "AppConfig — top-level fields:\n\n  audit                    — Audit settings.\n  bindings\n  server\n\nUse `mcpg config explain <field>` to drill into a specific block.\n"
    );
}

#[test]
fn explain_arguments() {
    assert_eq!(explain_request(&vec![]), ExplainRequest::Root);
    assert_eq!(explain_request(&vec!["-h".to_string()]), ExplainRequest::Help);
    assert_eq!(explain_request(&vec!["a.b".to_string()]), ExplainRequest::Field("a.b".to_string()));
    assert_eq!(explain_request(&vec!["a".to_string(), "b".to_string()]), ExplainRequest::Usage);
}

#[test]
fn joined_paths_join_their_steps() {
    for (a, b) in [("bindings[0]", "name"), ("a..b", "[1]c"), ("", "x"), ("x[", "]y")] {
        let mut expected = tokenize(a);
        expected.extend(tokenize(b));
        assert_eq!(tokenize(&format!("{a}.{b}")), expected);
    }
}

#[test]
fn explain_enum_with_per_variant_docs() {
    let schema = obj(vec![
        (
            "properties",
            obj(vec![(
                "audit",
                obj(vec![(
                    "properties",
                    obj(vec![(
                        "on_failure",
                        obj(vec![
                            ("allOf", Json::Array(vec![obj(vec![("$ref", s("#/definitions/AuditOnFailure"))])])),
                            ("default", s("fail_closed")),
                            ("description", s("Operator policy when an audit-sink emit fails.")),
                        ]),
                    )]),
                )]),
            )]),
        ),
        (
            "definitions",
            obj(vec![(
                "AuditOnFailure",
                obj(vec![(
                    "oneOf",
                    Json::Array(vec![
                        obj(vec![("type", s("string")), ("enum", Json::Array(vec![s("fail_closed")]))]),
                        obj(vec![("type", s("string")), ("enum", Json::Array(vec![s("fail_open")]))]),
                    ]),
                )]),
            )]),
        ),
    ]);
    assert_eq!(
        explain_path(&schema, "audit.on_failure").unwrap(),
        "audit.on_failure\n  Type:    AuditOnFailure (enum)\n  Default: \"fail_closed\"\n  Allowed values:\n    - fail_closed\n    - fail_open\n\n  Operator policy when an audit-sink emit fails.\n"
    );
}

#[test]
fn explain_reference_to_object_keeps_its_type() {
    let schema = sample_schema();
    assert_eq!(
        explain_path(&schema, "server").unwrap(),
        "server\n  Type:    object\n  Fields:\n    - bind_address: string\n"
    );
}

#[test]
fn index_steps_never_exceed_closing_brackets() {
    let count = |p: &str| tokenize(p).iter().filter(|t| **t == Token::Index).count();
    assert_eq!(count("a[0][1].b[2]"), 3);
    assert_eq!(count("a[0[1"), 0);
    assert_eq!(count("]]"), 0);
    assert_eq!(
        tokenize("a..b.c"),
        vec![Token::Field("a".to_string()), Token::Field("b".to_string()), Token::Field("c".to_string())]
    );
}
