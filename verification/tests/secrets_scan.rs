use mcpg_config::json::{get, Json};
use mcpg_config::secrets::{
    deep_merge, merge_layers, merge_yaml_layers, parse_yaml, secrets_args, secrets_report, sort_dedup_refs, SecretRef, SecretRefKind,
    SecretsArgs, USAGE,
};

fn s(x: &str) -> Json {
    Json::String(x.to_string())
}

fn n(x: &str) -> Json {
    Json::Number(x.to_string())
}

fn obj(entries: Vec<(&str, Json)>) -> Json {
    Json::Object(entries.into_iter().map(|(k, v)| (k.to_string(), v)).collect())
}

fn args(v: &[&str]) -> Vec<String> {
    v.iter().map(|a| a.to_string()).collect()
}

fn r(kind: SecretRefKind, name: &str, path: &str) -> SecretRef {
    SecretRef { kind, name: name.to_string(), field_path: path.to_string() }
}

#[test]
fn secrets_arguments() {
    assert_eq!(secrets_args(&args(&[])), SecretsArgs::Invalid(USAGE.to_string()));
    assert_eq!(secrets_args(&args(&["-h"])), SecretsArgs::Help);
    assert_eq!(secrets_args(&args(&["a.yaml", "--help"])), SecretsArgs::Help);
    assert_eq!(
        secrets_args(&args(&["--json", "a.yaml", "b.yaml"])),
        SecretsArgs::Scan { json: true, paths: args(&["a.yaml", "b.yaml"]) }
    );
    assert_eq!(secrets_args(&args(&["a.yaml"])), SecretsArgs::Scan { json: false, paths: args(&["a.yaml"]) });
    assert_eq!(
        secrets_args(&args(&["--json"])),
        SecretsArgs::Invalid(format!("error: no config files specified\n\n{USAGE}"))
    );
    assert_eq!(
        secrets_args(&args(&["a.yaml", "-x", "-h"])),
        SecretsArgs::Invalid(format!("error: unknown option: -x\n\n{USAGE}"))
    );
}

#[test]
fn merge_is_field_wise_for_objects_and_replaces_the_rest() {
    let dst = obj(vec![("a", obj(vec![("x", n("1")), ("y", n("2"))])), ("b", Json::Array(vec![n("1")]))]);
    let src = obj(vec![("a", obj(vec![("y", n("3")), ("z", n("4"))])), ("b", Json::Array(vec![n("2")])), ("c", Json::Null)]);
    let expected = obj(vec![
        ("a", obj(vec![("x", n("1")), ("y", n("3")), ("z", n("4"))])),
        ("b", Json::Array(vec![n("2")])),
        ("c", Json::Null),
    ]);
    assert_eq!(deep_merge(dst, src), expected);
    assert_eq!(deep_merge(n("1"), obj(vec![("k", s("v"))])), obj(vec![("k", s("v"))]));
    assert_eq!(deep_merge(obj(vec![("k", s("v"))]), s("w")), s("w"));
}

#[test]
fn layers_merge_later_wins() {
    assert_eq!(merge_layers(vec![]), obj(vec![]));
    let a = || obj(vec![("server", obj(vec![("bind", s("a")), ("port", n("1"))]))]);
    let b = obj(vec![("server", obj(vec![("bind", s("b"))])), ("extra", Json::Bool(true))]);
    assert_eq!(
        merge_layers(vec![a(), b]),
        obj(vec![("server", obj(vec![("bind", s("b")), ("port", n("1"))])), ("extra", Json::Bool(true))])
    );
    assert_eq!(merge_layers(vec![a()]), a());
}

#[test]
fn refs_sorted_and_deduplicated() {
    let refs = vec![
        r(SecretRefKind::SecretUri, "vault://db/orders", "bindings[orders.list].url"),
        r(SecretRefKind::EnvVar, "REDIS_URL", "cluster.url"),
        r(SecretRefKind::EnvVar, "GH_TOKEN", "bindings[b].headers.Authorization"),
        r(SecretRefKind::EnvVar, "REDIS_URL", "cluster.url"),
        r(SecretRefKind::EnvVar, "GH_TOKEN", "a.path"),
    ];
    let sorted = sort_dedup_refs(refs);
    assert_eq!(
        sorted,
        vec![
            r(SecretRefKind::EnvVar, "GH_TOKEN", "a.path"),
            r(SecretRefKind::EnvVar, "GH_TOKEN", "bindings[b].headers.Authorization"),
            r(SecretRefKind::EnvVar, "REDIS_URL", "cluster.url"),
            r(SecretRefKind::SecretUri, "vault://db/orders", "bindings[orders.list].url"),
        ]
    );
}

#[test]
fn report_lists_env_vars_then_uris() {
    let refs = vec![
        r(SecretRefKind::SecretUri, "vault://db/orders", "bindings[orders.list].url"),
        r(SecretRefKind::EnvVar, "REDIS_URL", "cluster.url"),
        r(SecretRefKind::EnvVar, "GH_TOKEN", "bindings[github].headers.Authorization"),
        r(SecretRefKind::EnvVar, "REDIS_URL", "cluster.url"),
        r(SecretRefKind::SecretUri, "vault://kms/audit-key", "audit.sinks[0].config.encryption_key"),
    ];
    assert_eq!(
        secrets_report(refs),
        "ENV vars referenced (2):\n  GH_TOKEN   \u{2014} bindings[github].headers.Authorization\n  REDIS_URL  \u{2014} cluster.url\n\ncred:// refs (2):\n  vault://db/orders      \u{2014} bindings[orders.list].url\n  vault://kms/audit-key  \u{2014} audit.sinks[0].config.encryption_key\n"
    );
}

#[test]
fn report_edge_cases() {
    assert_eq!(secrets_report(vec![]), "(no secret references found)\n");
    assert_eq!(
        secrets_report(vec![r(SecretRefKind::SecretUri, "aws-sm://x", "p")]),
        "cred:// refs (1):\n  aws-sm://x  \u{2014} p\n"
    );
    assert_eq!(
        secrets_report(vec![r(SecretRefKind::EnvVar, "É", "p")]),
        "ENV vars referenced (1):\n  É   \u{2014} p\n"
    );
}

#[test]
fn yaml_layers_parse_and_merge() {
    let texts = vec![
        "server:\n  bind: a\n  port: 1\n".to_string(),
        "server:\n  bind: b\nextra: true\n".to_string(),
    ];
    let m = merge_yaml_layers(&texts).unwrap();
    let server = get(&m, "server").unwrap();
    assert_eq!(get(server, "bind"), Some(&s("b")));
    assert_eq!(get(server, "port"), Some(&n("1")));
    assert_eq!(get(&m, "extra"), Some(&Json::Bool(true)));
    assert_eq!(merge_yaml_layers(&vec![]).unwrap(), obj(vec![]));
}

#[test]
fn yaml_layers_stop_at_first_bad_text() {
    let texts = vec!["a: 1\n".to_string(), "a: [unclosed\n".to_string(), "also: [bad\n".to_string()];
    let (i, message) = merge_yaml_layers(&texts).unwrap_err();
    assert_eq!(i, 1);
    assert!(!message.is_empty());
}

#[test]
fn yaml_scalars_and_lists() {
    assert_eq!(parse_yaml("- x\n- 2\n- null\n").unwrap(), Json::Array(vec![s("x"), n("2"), Json::Null]));
    assert_eq!(parse_yaml("hello").unwrap(), s("hello"));
    assert!(parse_yaml("{").is_err());
}
