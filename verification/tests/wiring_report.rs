use mcpg_config::wiring::{
    referenced_plugin_ids, render_wiring_report, wiring_args, KindSlot, PluginEntry, Resolution,
    WiringArgs, WiringConfig,
};

fn st(x: &str) -> String {
    x.to_string()
}

fn pad(x: &str, w: usize) -> String {
    format!("{:<w$}", x, w = w)
}

fn plugin(id: &str, class: &str, disabled: bool) -> PluginEntry {
    PluginEntry { id: st(id), class: st(class), disabled }
}

fn empty_config() -> WiringConfig {
    WiringConfig {
        cluster_kind: st("single_node"),
        cluster_provides: vec![],
        sessions_store: None,
        pipelines_store: None,
        subscriptions_store: None,
        delivery_bus: None,
        cancellation_bus: None,
        quotas_declared: false,
        quotas_store: KindSlot { kind: st(""), resolution: Resolution::Cluster },
        audit_sinks: vec![],
        log_sinks: vec![],
        metric_sinks: vec![],
        trace_sinks: vec![],
        plugins: vec![],
    }
}

fn full_config() -> WiringConfig {
    let mut c = empty_config();
    c.cluster_provides = vec![st("cache"), st("kv"), st("bus")];
    c.sessions_store = Some(KindSlot { kind: st("cluster"), resolution: Resolution::Cluster });
    c.delivery_bus = Some(KindSlot {
        kind: st("dev.mcpg.bus.nats"),
        resolution: Resolution::Plugin(st("dev.mcpg.bus.nats")),
    });
    c.cancellation_bus = Some(KindSlot { kind: st("nope"), resolution: Resolution::Unresolved(st("unknown kind 'nope'")) });
    c.quotas_declared = true;
    c.quotas_store = KindSlot { kind: st("memory"), resolution: Resolution::Builtin(st("memory")) };
    c.audit_sinks = vec![st("file")];
    c.log_sinks = vec![st("stderr")];
    c.trace_sinks = vec![st("dev.mcpg.trace.otlp")];
    c.plugins = vec![
        plugin("dev.mcpg.bus.nats", "bus", false),
        plugin("dev.mcpg.secret.vault", "secret", false),
        plugin("dev.mcpg.cache.redis", "cache", false),
        plugin("dev.mcpg.identity.oidc", "identity_provider", false),
        plugin("dev.mcpg.old", "cache", true),
        plugin("dev.mcpg.trace.otlp", "trace_sink", false),
    ];
    c
}

#[test]
fn wiring_arguments() {
    assert_eq!(wiring_args(&vec![]), WiringArgs::Usage);
    assert_eq!(wiring_args(&vec![st("a.yaml"), st("-h")]), WiringArgs::Help);
    assert_eq!(wiring_args(&vec![st("--help")]), WiringArgs::Help);
    assert_eq!(
        wiring_args(&vec![st("a.yaml"), st("b.yaml")]),
        WiringArgs::Report(vec![st("a.yaml"), st("b.yaml")])
    );
}

#[test]
fn report_of_full_config() {
    let out = render_wiring_report(&full_config());
    let mut e = String::new();
    e.push_str("\nCluster\n  kind:                     single_node\n  provides:                 cache, kv, bus\n\n");
    e.push_str("Consumer slots\n");
    e.push_str(&format!("  {}  kind: {} → cluster (single_node)\n", pad("mcp.configurations.sessions.store", 46), pad("cluster", 20)));
    e.push_str(&format!("  {}  (default)\n", pad("mcp.configurations.pipelines.store", 46)));
    e.push_str(&format!("  {}  (default)\n", pad("mcp.configurations.subscriptions.store", 46)));
    e.push_str(&format!(
        "  {}  kind: {} → plugin: dev.mcpg.bus.nats\n",
        pad("mcp.configurations.delivery.bus", 46),
        pad("dev.mcpg.bus.nats", 20)
    ));
    e.push_str(&format!(
        "  {}  kind: {} → UNRESOLVED: unknown kind 'nope'\n",
        pad("mcp.configurations.cancellation.bus", 46),
        pad("nope", 20)
    ));
    e.push_str(&format!("  {}  kind: {} → builtin: memory\n", pad("governance.quotas.store", 46), pad("memory", 20)));
    e.push_str(&format!("  {}  kind: file\n", pad("governance.audit.sinks[0]", 46)));
    e.push_str(&format!("  {}  kind: stderr\n", pad("observability.logs.sinks[0]", 46)));
    e.push_str(&format!("  {}  kind: dev.mcpg.trace.otlp\n", pad("observability.traces.sinks[0]", 46)));
    e.push_str("\n");
    e.push_str("Loaded plugins (6)\n");
    for (id, class, status) in [
        ("dev.mcpg.bus.nats", "bus", "enabled "),
        ("dev.mcpg.secret.vault", "secret", "enabled "),
        ("dev.mcpg.cache.redis", "cache", "enabled "),
        ("dev.mcpg.identity.oidc", "identity_provider", "enabled "),
        ("dev.mcpg.old", "cache", "DISABLED"),
        ("dev.mcpg.trace.otlp", "trace_sink", "enabled "),
    ] {
        e.push_str(&format!("  {} class: {} {}\n", pad(id, 32), pad(class, 15), status));
    }
    e.push_str("\n");
    e.push_str("Plugin scheme claims\n");
    e.push_str(&format!(
        "  {} (schemes resolved at gateway boot from supported_schemes())\n",
        pad("dev.mcpg.secret.vault", 32)
    ));
    e.push_str("\n");
    e.push_str("Loaded but unwired (warnings)\n");
    e.push_str(&format!("  {} class: {} no consumer slot references its id\n", pad("dev.mcpg.secret.vault", 32), pad("secret", 15)));
    e.push_str(&format!("  {} class: {} no consumer slot references its id\n", pad("dev.mcpg.cache.redis", 32), pad("cache", 15)));
    e.push_str("\n");
    assert_eq!(out, e);
}

#[test]
fn report_of_empty_config() {
    let out = render_wiring_report(&empty_config());
    let mut e = String::new();
    e.push_str("\nCluster\n  kind:                     single_node\n  provides:                 (none)\n\n");
    e.push_str("Consumer slots\n");
    for label in [
        "mcp.configurations.sessions.store",
        "mcp.configurations.pipelines.store",
        "mcp.configurations.subscriptions.store",
        "mcp.configurations.delivery.bus",
        "mcp.configurations.cancellation.bus",
    ] {
        e.push_str(&format!("  {}  (default)\n", pad(label, 46)));
    }
    e.push_str("  (no consumer slots declared)\n\n");
    e.push_str("Loaded plugins (0)\n  (none)\n\n");
    e.push_str("Plugin scheme claims\n  (none — scheme-routing wires through in P8 follow-up)\n\n");
    e.push_str("Loaded but unwired (warnings)\n  (none)\n\n");
    assert_eq!(out, e);
}

#[test]
fn quota_store_without_kind_is_not_a_slot() {
    let mut c = empty_config();
    c.quotas_declared = true;
    let out = render_wiring_report(&c);
    assert!(out.contains("  (no consumer slots declared)\n"));
    assert!(!out.contains("governance.quotas.store"));
}

#[test]
fn referenced_ids_are_dotted_slot_kinds() {
    let mut c = full_config();
    c.audit_sinks = vec![st("dev.mcpg.trace.otlp"), st("file")];
    let mut ids = referenced_plugin_ids(&c);
    ids.sort();
    assert_eq!(ids, vec![st("dev.mcpg.bus.nats"), st("dev.mcpg.trace.otlp")]);
    assert_eq!(referenced_plugin_ids(&empty_config()), Vec::<String>::new());
}

#[test]
fn referenced_plugin_is_not_warned() {
    let mut c = empty_config();
    c.plugins = vec![plugin("dev.x.cache", "cache", false), plugin("dev.y.cache", "cache", false)];
    c.log_sinks = vec![st("dev.x.cache")];
    let out = render_wiring_report(&c);
    assert!(out.ends_with(&format!(
        "Loaded but unwired (warnings)\n  {} class: {} no consumer slot references its id\n\n",
        pad("dev.y.cache", 32),
        pad("cache", 15)
    )));
}
