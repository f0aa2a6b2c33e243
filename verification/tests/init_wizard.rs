use mcpg_config::init::{
    choose_output, choose_template, exists_text, overwrite_refusal, find_template, list_text, menu_text, parse_args,
    planned_output, template_name_at, template_summary_at, unknown_template_text, written_text,
    InitArgs, DEFAULT_OUTPUT, TEMPLATE_COUNT,
};

fn args(v: &[&str]) -> Vec<String> {
    v.iter().map(|a| a.to_string()).collect()
}

const NAMES: [&str; 6] = [
    "dev-single-node",
    "production-single-redis",
    "production-redis-cluster",
    "production-nats-cluster",
    "air-gapped",
    "multi-tenant",
];

const SUMMARIES: [&str; 6] = [
    "laptop dev, mock binding, stderr logs",
    "single-instance prod, Redis cluster, OIDC",
    "multi-replica via Redis, S3 audit",
    "NATS JetStream variant",
    "zero-outbound, static JWKS, file storage",
    "per-tenant quota + rate limit + group-gated tools",
];

#[test]
fn parse_flags_and_values() {
    assert_eq!(
        parse_args(&args(&[])),
        Ok(InitArgs { list: false, template: None, output: None, force: false })
    );
    assert_eq!(
        parse_args(&args(&["-l", "--force", "-t", "air-gapped", "--output", "./x.yaml"])),
        Ok(InitArgs { list: true, template: Some("air-gapped".to_string()), output: Some("./x.yaml".to_string()), force: true })
    );
    assert_eq!(
        parse_args(&args(&["--template", "a", "--template", "b"])),
        Ok(InitArgs { list: false, template: Some("b".to_string()), output: None, force: false })
    );
}

#[test]
fn parse_errors() {
    assert_eq!(parse_args(&args(&["--help"])), Err(String::new()));
    assert_eq!(parse_args(&args(&["-f", "-h", "--bogus"])), Err(String::new()));
    assert_eq!(parse_args(&args(&["--template"])), Err("--template requires a value".to_string()));
    assert_eq!(parse_args(&args(&["-o"])), Err("--output requires a value".to_string()));
    assert_eq!(parse_args(&args(&["--bogus"])), Err("unknown argument: --bogus".to_string()));
}

#[test]
fn templates_by_name() {
    assert_eq!(TEMPLATE_COUNT, 6);
    for i in 0..TEMPLATE_COUNT {
        assert_eq!(template_name_at(i), NAMES[i]);
        assert_eq!(template_summary_at(i), SUMMARIES[i]);
        assert_eq!(find_template(NAMES[i]), Some(i));
    }
    assert_eq!(find_template("nope"), None);
    assert_eq!(find_template(""), None);
}

#[test]
fn list_and_menu_texts() {
    let mut list = String::new();
    let mut menu = String::from("Pick a deployment topology:\n");
    let mut avail = String::new();
    for i in 0..6 {
        list.push_str(&format!("{:24} — {}\n", NAMES[i], SUMMARIES[i]));
        menu.push_str(&format!("  {}) {:24} — {}\n", i + 1, NAMES[i], SUMMARIES[i]));
        avail.push_str(&format!("  {} — {}\n", NAMES[i], SUMMARIES[i]));
    }
    menu.push('\n');
    assert_eq!(list_text(), list);
    assert_eq!(menu_text(), menu);
    assert_eq!(unknown_template_text("x"), format!("error: unknown template 'x'\n\nAvailable templates:\n{avail}"));
}

#[test]
fn menu_choices() {
    assert_eq!(choose_template(None), Some(0));
    assert_eq!(choose_template(Some("")), Some(0));
    assert_eq!(choose_template(Some("  \n")), Some(0));
    assert_eq!(choose_template(Some("2\n")), Some(1));
    assert_eq!(choose_template(Some(" 6 ")), Some(5));
    assert_eq!(choose_template(Some("+3")), Some(2));
    assert_eq!(choose_template(Some("006")), Some(5));
    assert_eq!(choose_template(Some("0")), None);
    assert_eq!(choose_template(Some("7")), None);
    assert_eq!(choose_template(Some("99999999999999999999999")), None);
    assert_eq!(choose_template(Some("two")), None);
    assert_eq!(choose_template(Some("+")), None);
    assert_eq!(choose_template(Some("-1")), None);
}

#[test]
fn output_choices() {
    assert_eq!(choose_output(None), DEFAULT_OUTPUT);
    assert_eq!(choose_output(Some("\n")), "./config.yaml");
    assert_eq!(choose_output(Some("  prod.yaml \n")), "prod.yaml");
    let with = |t: Option<&str>, o: Option<&str>| InitArgs {
        list: false,
        template: t.map(String::from),
        output: o.map(String::from),
        force: false,
    };
    assert_eq!(planned_output(&with(None, None)), None);
    assert_eq!(planned_output(&with(Some("air-gapped"), None)), Some("./config.yaml".to_string()));
    assert_eq!(planned_output(&with(None, Some("x.yaml"))), Some("x.yaml".to_string()));
}

#[test]
fn result_messages() {
    assert_eq!(exists_text("c.yaml"), "error: c.yaml already exists. Pass --force to overwrite.");
    assert_eq!(
        written_text("config.yaml", 1),
        "\u{2713} Wrote config.yaml (production-single-redis).\n  Validate:  mcpg config check config.yaml\n  Boot:      MCPG_CONFIG=config.yaml mcpg\n"
    );
}

#[test]
fn overwrite_needs_force() {
    let plain = InitArgs { list: false, template: None, output: None, force: false };
    let forced = InitArgs { list: false, template: None, output: None, force: true };
    assert_eq!(
        overwrite_refusal("c.yaml", true, &plain),
        Some("error: c.yaml already exists. Pass --force to overwrite.".to_string())
    );
    assert_eq!(overwrite_refusal("c.yaml", true, &forced), None);
    assert_eq!(overwrite_refusal("c.yaml", false, &plain), None);
}
