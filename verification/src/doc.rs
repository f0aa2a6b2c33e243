//! Markdown reference of the configuration, rendered from its JSON Schema.
//!
//! The output depends on the schema alone: field tables and the per-block
//! reference are in key order, so the same schema always renders the same
//! bytes.
use vstd::prelude::*;
use crate::json::{
    Json, json_size, items_size, entries_size, spec_get, str_at, array_at, object_at, get,
    get_str, get_array, get_object, lookup, entries_get, keys_of, key_refs, sorted_keys, opt_ref, opt_str,
    opt_vec, lemma_at_smaller, lemma_size_positive, lemma_entries_get_smaller,
};
use crate::text::{
    chars_of, push_char, string_of, spec_first_line, strip_prefix, strip_prefix_chars, join,
    join_strings, sort_seqs, sort_strs, str_views, str_eq, trim_end, text, string_views, trim_end_string,
    lemma_trim_end_prefix, is_white_space,
};

verus! {

/// Audience-curated walk-through placed before the alphabetical reference.
pub const CURATED_INTRO: &'static str = "## Operator workflow

The four config-tooling binaries cover the operator's full loop — pick a starting point, drill into a field, validate, boot:

```bash
$ mcpg config init                                    # pick a deployment template, write config.yaml
$ mcpg config explain governance.audit.on_failure    # describe a field by dotted path
$ mcpg config check config.yaml                       # pre-flight validate (multi-file too)
$ MCPG_CONFIG=config.yaml mcpg                        # boot
```

Multi-file layering is supported — files later on the command line override earlier ones, and `MCPG_*` env vars apply last:

```bash
$ MCPG_CONFIG=base.yaml:production-overrides.yaml mcpg
```

For in-place config rotation (`kill -HUP`) vs restart-required fields, see the [config sources & hot-reload guide](https://mcpg.dev/docs/gateway/config-sources).

For IDE autocomplete, point your YAML language server at the committed schema:

```yaml
# yaml-language-server: $schema=../../examples/deployments/config.schema.json
gateway:
  server:
    bind_address: \"127.0.0.1:8787\"
    # ↑ IDE autocompletes here, with `///` doc-comment as hover.
```

---

## Top-level keys (Layout D'')

Layout D'' collapsed the pre-D'' flat root into seven typed top-level keys. The migration map for any pre-D'' YAML or env-var examples you might still be reading:

| Pre-D'' key | Layout D'' key |
|---|---|
| `auth:` | `governance.access:` |
| `policy:` | `governance.policy:` |
| `audit:` | `governance.audit:` |
| `approvals:` | `governance.approvals:` |
| `server:` | `gateway.server:` |
| `admin:` | `gateway.admin:` |
| `control_plane:` | `gateway.control_plane:` |
| `content_storage:` | `storage:` |
| `mcp.tools[]` (etc.) | `mcp.capabilities.tools[]` (etc.) |
| `plugins.entries[]` | `plugins[]` (flat array, no wrapper) |
| `plugins.kv` / `caches` / `secrets` / `configs` / `transports` / `policy` / `capability_grants` / `trust` / `credentials` | DELETED — point-of-use slots + per-entry configuration replace these |
| `plugins.health_probe` | `observability.plugin_health_probe` |
| `plugins.registry` | `gateway.plugin_registry` |
| `plugins.config_overlay` | `gateway.config_overlay` |
| `plugins.response_cache` | `storage.response_cache` |
| `plugins.enabled` / `plugins.plugin_dir` | DELETED |
| `BackendImpl.type:` (in a binding's `backend:` block) | `BackendImpl.kind:` |

The ten D'' top-level keys are: `mcp:`, `governance:`, `gateway:`, `observability:`, `feature_flags:`, `debug:`, `schema_registry:`, `storage:`, `cluster:`, `plugins:` (plus `MCPG_CONFIG`-only `config_source:`). `governance:` and `gateway:` are umbrellas — their children correspond one-to-one to former root peers.

`MCPG_*` env vars track the new shape with `__` as the dotted-path separator. The corresponding env-var prefix migrations:

| Pre-D'' env var | Layout D'' env var |
|---|---|
| `MCPG_AUTH__*` | `MCPG_GOVERNANCE__ACCESS__*` |
| `MCPG_POLICY__*` | `MCPG_GOVERNANCE__POLICY__*` |
| `MCPG_AUDIT__*` | `MCPG_GOVERNANCE__AUDIT__*` |
| `MCPG_APPROVALS__*` | `MCPG_GOVERNANCE__APPROVALS__*` |
| `MCPG_SERVER__*` | `MCPG_GATEWAY__SERVER__*` |
| `MCPG_ADMIN__*` | `MCPG_GATEWAY__ADMIN__*` |
| `MCPG_CONTROL_PLANE__*` | `MCPG_GATEWAY__CONTROL_PLANE__*` |
| `MCPG_CONTENT_STORAGE__*` | `MCPG_STORAGE__*` |
| `MCPG_MCP__TOOLS__*` (etc.) | `MCPG_MCP__CAPABILITIES__TOOLS__*` (etc.) |
| `MCPG_PLUGINS__HEALTH_PROBE__*` | `MCPG_OBSERVABILITY__PLUGIN_HEALTH_PROBE__*` |
| `MCPG_PLUGINS__REGISTRY__*` | `MCPG_GATEWAY__PLUGIN_REGISTRY__*` |
| `MCPG_PLUGINS__CONFIG_OVERLAY__*` | `MCPG_GATEWAY__CONFIG_OVERLAY__*` |
| `MCPG_PLUGINS__RESPONSE_CACHE__*` | `MCPG_STORAGE__RESPONSE_CACHE__*` |

---

## Quick start (minimal viable)

Goal: gateway answers `/health`, `tools/list`, and one `tools/call` against your binding. No auth, no cluster, no compliance plumbing.

**Template:** `dev-single-node` (`mcpg config init --template dev-single-node`). Six fields are load-bearing — everything else takes a sensible default.

| Field | Why it matters | Default | Reference |
|---|---|---|---|
| `gateway.server.bind_address` | The TCP listener. `127.0.0.1:8787` for dev; `0.0.0.0:8787` once you trust auth. | `\"127.0.0.1:8787\"` | [`ServerConfig`](#serverconfig) |
| `gateway.server.allowed_origins` | CORS allowlist for browser clients. Empty disables browser-cross-origin. | `[]` | [`ServerConfig`](#serverconfig) |
| `mcp.capabilities.tools[]` (and `prompts[]`, `resources[]`, `resource_templates[]`) | The tools / prompts / resources this gateway exposes. At least one entry to be useful. | `[]` | [`McpConfig`](#mcpconfig), [`BackendConfig`](#backendconfig) |
| `governance.access` | Inbound identity. Empty = anonymous (loopback only). | `{}` | [`AccessConfig`](#accessconfig) |
| `observability.logs.sinks` | Where logs go. Default stderr-JSON is fine for dev. | one stderr JSON sink | [`LogsConfig`](#logsconfig) |
| `governance.audit` | Compliance audit. On by default with the built-in local-file sink — drop directory into a tmpfs / scratch mount if your dev disk is read-only. | enabled, file sink | [`AuditConfig`](#auditconfig) |

**Boot it:**

```bash
$ mcpg config init --template dev-single-node --output config.yaml
$ mcpg config check config.yaml
$ MCPG_CONFIG=config.yaml mcpg
```

---

## Production hardening

Goal: external traffic, OIDC, audit you can ship to compliance, multi-replica behind an LB. Pick this once dev clicks.

**Templates:** `production-single-redis` (single instance), `production-redis-cluster` (multi-replica), `production-nats-cluster` (NATS variant) — all available via `mcpg config init --template <name>`.

| Block | What it gates | Reference |
|---|---|---|
| `gateway.server.tls` | Listener TLS — drop if your LB terminates TLS instead. | [`TlsConfig`](#tlsconfig) |
| `gateway.server.allowed_origins` | Browser CORS allowlist. Wildcards are rejected. | [`ServerConfig`](#serverconfig) |
| `gateway.server.max_sessions_per_tenant` | Per-tenant session quota. 0 = unlimited; tighten for SaaS deploys. | [`ServerConfig`](#serverconfig) |
| `cluster` | Coordinator (KV + pub/sub). `single_node` for single-replica, `redis` / `nats` for multi-replica. | [`ClusterConfig`](#clusterconfig) |
| `governance.access.oidc_oauth` | Inbound OIDC — verifies Bearer tokens against your IdP's JWKS. | [`OidcOAuthConfig`](#oidcoauthconfig) |
| `governance.access.jwks` | Static JWKS variant for air-gapped deploys (no IdP discovery call). | [`JwksConfig`](#jwksconfig) |
| `governance.policy` | Pre-dispatch tool gate. `default_minimum_trust` + per-tool overrides + CEL `allow_if`. | [`PolicyConfig`](#policyconfig) |
| `governance.audit` | Compliance audit fan-out. `required: true` refuses to boot without a serving sink. | [`AuditConfig`](#auditconfig) |
| `governance.approvals` | Human-in-the-loop approvals — signing key + callback URL + grace window. | [`ApprovalsConfig`](#approvalsconfig) |
| `plugins[]` | Tool-gate / transform / identity / cluster / catalog plugins. Rate limiting, IP allowlist, circuit breakers all live here. Each entry carries its own `signature.trusted_keys:` + `granted_capabilities:` (per-entry, not a wiring block). | [`PluginEntryConfig`](#pluginentryconfig) |
| `observability.metrics` / `traces` | Prometheus scrape endpoint + OTLP traces to your collector. | [`MetricsConfig`](#metricsconfig), [`TracesConfig`](#tracesconfig) |

**Cluster pub/sub inheritance.** Capability `store:`/`bus:` overrides default to `kind: cluster` (the cluster backend's primitive) when omitted, so when `cluster.kind` is `redis` or `nats`, `mcp.configurations.delivery.bus` and `mcp.configurations.cancellation.bus` automatically use the cluster's pub/sub. Server-initiated messages (cancellations, sampling responses, elicitations) reach the right replica without operator config. Override these only when you explicitly want single-replica behaviour despite a cluster (e.g. `bus: { kind: memory }`).

---

## Advanced / experimental

Goal: pipeline tools, server-initiated suspensions, per-plugin observability carve-outs, control-plane attachment. Ignore until production basics are solid.

| Feature | Block | Reference |
|---|---|---|
| Pipeline bindings — multi-step tools that chain HTTP / SQL / Command / Transform / CEL gate steps. | `mcp.capabilities.tools[].backend: { kind: pipeline, steps: [...] }` | [`PipelineBackendConfig`](#pipelinebackendconfig), [`PipelineStepConfig`](#pipelinestepconfig) |
| Suspending pipeline steps — `elicitation`, `sampling`, `roots_list`. The pipeline pauses, the gateway sends a server-initiated request, the step resumes when the client responds. | `mcp.capabilities.tools[].backend.steps[].kind: elicitation \\| sampling \\| roots_list` | [`PipelineElicitationStepConfig`](#pipelineelicitationstepconfig), [`PipelineSamplingStepConfig`](#pipelinesamplingstepconfig), [`PipelineRootsListStepConfig`](#pipelinerootsliststepconfig) |
| Approval gates — block a tool call until a human approves it via callback URL. | `governance.approvals` + plugin entry for the approvals provider | [`ApprovalsConfig`](#approvalsconfig) |
| MCP App URL — link a resource to a rich UI for client-side rendering. | `mcp.capabilities.resources[].mcp_app_url` / `mcp.capabilities.resource_templates[].mcp_app_url` (CEL-templatable) | [`BackendConfig`](#backendconfig) |
| Resource subscription with custom watch strategy — push-based change notification with `notifications/resources/updated`. | `mcp.capabilities.resources[].watch` / `mcp.capabilities.resource_templates[].watch` | [`ResourceWatchConfig`](#resourcewatchconfig) |
| Per-plugin observability override — silence a noisy plugin or boost its verbosity in isolation, optionally redirect its events to a separate sink set. | `plugins[].observability` | [`PluginObservabilityToggle`](#pluginobservabilitytoggle), [`SignalToggle`](#signaltoggle), [`SinkMode`](#sinkmode) |
| Control-plane attachment — gateway registers with a CP at boot, opens an agent Channel, ships per-tool-call samples. | `gateway.control_plane` + `cp-attached` Cargo feature | [`ControlPlaneAttachConfig`](#controlplaneattachconfig) |
| Notification filter — server-side filtering of `tools/list_changed` etc. before broadcast. | `mcp.capabilities.resources[].watch.notification_filter` / `mcp.capabilities.resource_templates[].watch.notification_filter` | [`NotificationFilterConfig`](#notificationfilterconfig) |
| Plugin config overlay — operator-staged dynamic config delivered via config-provider plugins (consul / k8s ConfigMap / etc.). | `gateway.config_overlay` | [`ConfigOverlayConfig`](#configoverlayconfig) |

---

## Multi-tenant deployments

MCPG has no top-level `tenants:` block by design. Per-tenant differentiation composes from three orthogonal primitives that already exist:

1. **Tenant identity.** Comes off the verified principal — `identity.subject_id`, `identity.attributes.<claim>`, `identity.roles[]`, `identity.groups[]`. Whichever OIDC claim represents your tenant (commonly `tid`, `org_id`, or a custom claim) ends up under `identity.attributes.<claim>` once the inbound JWT verifier resolves it. No config knob is needed for the tenant ID itself.

2. **Per-tenant binding allowlist.** Goes through `governance.policy.tool_access.rules[].cel_allow_if`. Each binding gets a CEL predicate that references the principal's tenant claim:

   ```yaml
   governance:
     policy:
       tool_access:
         default_minimum_trust: verified
         rules:
           - tool_name: \"acme.*\"
             cel_allow_if: 'identity.attributes.tenant == \"acme\" || \"platform\" in identity.groups'
           - tool_name: \"partner.*\"
             cel_allow_if: 'identity.attributes.tenant == \"partner\"'
           # shared.* falls through to default_minimum_trust (any verified caller).
   ```

   The CEL predicate runs pre-dispatch alongside trust-floor checks, so a deny is observable through the same audit shape (`mcpg.policy.tool_call.denied`) as any other policy denial.

3. **Per-tenant rate limit + quota.** Lives in the rate-limit plugin (rate limiting is plugin-only). The plugin's config is keyed by tenant identity from the same `identity` surface. Example shape (rate-limit plugin's config; the actual fields depend on the plugin you load):

   ```yaml
   plugins:
     - id: dev.mcpg.builtin.rate_limit
       config:
         default:
           tools_per_minute: 1000
         by_tenant:
           acme: { tools_per_minute: 10000, burst: 200 }
           partner: { tools_per_minute: 100, burst: 10 }
         tenant_key: 'identity.attributes.tenant'
   ```

   Per-binding rate-limit references go through the backend's own per-use slot (point-of-use wiring) — same shape as any other plugin reference.

The pre-existing `gateway.server.max_sessions_per_tenant` knob is the one *gateway-resident* tenant-aware quota; it's enforced inside the session store (per-tenant cap on concurrent sessions) and works regardless of which CEL gate let the request through.

A first-class `tenants:` block that desugars into the above is a possible future addition. Until the recipes turn out painful in operator hands, the existing primitives stay the source of truth — adding a parallel mechanism would split tenant config across two places.

---

## Templating and secret resolution

MCPG uses a single CEL-based expression syntax everywhere — `${...}` outer markers wrap a CEL expression. There's exactly one form for environment variables, identity, arguments, OAuth tokens, and credential lookups; no parallel layers.

```yaml
mcp:
  capabilities:
    tools:
      - name: github.user.repos.list
        description: Fetch a user's repositories from GitHub.
        backend:
          kind: http
          url: \"https://api.github.com/users/${arguments.username}/repos\"
          method: get
          headers:
            Authorization: \"Bearer ${env.GITHUB_TOKEN}\"
            X-Trace-Id: \"${context.principal_id}-${arguments.username}\"

gateway:
  plugin_registry:
    auth:
      username: \"${env.GHCR_USERNAME}\"
      password: \"${env.GHCR_TOKEN}\"

plugins:
  # Outbound OAuth 2.0 (RFC 6749 client_credentials) lives behind
  # the `dev.mcpg.credential.oauth-client-credentials` plugin.
  # Bindings reference issued tokens via the standard `cred://`
  # URI scheme — see the table below.
  - id: dev.mcpg.credential.oauth-client-credentials
    config:
      providers:
        analytics:
          token_url: \"https://auth.example.com/oauth/token\"
          client_id: \"mcpg-prod\"
          client_secret: \"${env.ANALYTICS_CLIENT_SECRET}\"
          scopes: [\"read:events\"]
```

**Available roots:**

| Root | Resolved at | Notes |
|---|---|---|
| `env.<NAME>` | Config-load (once) | Process environment. Errors if unset. |
| `arguments.<key>` | Per request | Tool-call arguments. |
| `identity.<field>` | Per request | `subject_id`, `attributes.<key>`, `roles[N]`, `groups[N]`, … |
| `cred://<plugin_id>/<target>[#part]` | Per request | Credential plugin lookup. Covers outbound OAuth tokens (`cred://dev.mcpg.credential.oauth-client-credentials/<provider>`), Vault dynamic DB creds (`cred://vault-dynamic-db/orders#username`), and any other registered `credential_issuer` plugin. |
| `context.<field>` | Per request | Transport, principal, trust level, etc. |
| `tool_name` | Per request | Current tool's MCP name. |
| `steps.<id>.output` | Pipeline only | Previous step's result. |

`env.X` is resolved once at config-load — restarts pick up new values. Everything else is per-request, so a token rotation reaches in-flight calls on the next dispatch without a reload.

---

## Reference

What follows is the full alphabetical reference of every type reachable from `AppConfig`, generated from `///` rustdoc + `#[serde(...)]` annotations. Use `mcpg config explain <field>` to drill into a single field on the command line.

";

/// What `str::to_lowercase` gives for a text: its Unicode lowercase
/// mapping, which depends on the text alone.
pub uninterp spec fn lowercase(s: Seq<char>) -> Seq<char>;

/// std's `str::to_lowercase`. Trusted to return `lowercase` of its
/// argument; the mapping itself (Unicode's tables, with one character
/// becoming several and a final sigma lowered by its context) is not
/// stated here.
#[verifier::external_body]
fn to_lowercase(s: &str) -> (r: String)
    ensures
        r@ == lowercase(s@),
{
    s.to_lowercase()
}

/// The Markdown anchor of a definition's heading.
pub fn anchor(name: &str) -> (r: String)
    ensures
        r@ == lowercase(name@),
{
    to_lowercase(name)
}

/// How one character stands in a table cell: `|` escaped, newline as space.
pub open spec fn escape_char(c: char) -> Seq<char> {
    if c == '|' {
        seq!['\\', '|']
    } else if c == '\n' {
        seq![' ']
    } else {
        seq![c]
    }
}

/// A text made safe for a Markdown table cell.
pub open spec fn escape_cell(s: Seq<char>) -> Seq<char>
    decreases s.len(),
{
    if s.len() == 0 {
        seq![]
    } else {
        escape_cell(s.subrange(0, s.len() - 1)) + escape_char(s[s.len() - 1])
    }
}

/// `s` with `|` escaped as `\|` and newlines replaced by spaces.
pub fn escape_md_cell(s: &str) -> (r: String)
    ensures
        r@ == escape_cell(s@),
{
    let cs = chars_of(s);
    let mut r = String::new();
    let n = cs.len();
    let mut i: usize = 0;
    while i < n
        invariant
            n == cs@.len(),
            i <= n,
            r@ == escape_cell(cs@.subrange(0, i as int)),
        decreases n - i,
    {
        let c = cs[i];
        if c == '|' {
            push_char(&mut r, '\\');
            push_char(&mut r, '|');
        } else if c == '\n' {
            push_char(&mut r, ' ');
        } else {
            push_char(&mut r, c);
        }
        proof {
            let t = cs@.subrange(0, i + 1);
            assert(t.subrange(0, i as int) =~= cs@.subrange(0, i as int));
            assert(r@ =~= escape_cell(t));
        }
        i = i + 1;
    }
    assert(cs@.subrange(0, n as int) =~= cs@);
    r
}

/// The first line of a text, trimmed.
pub fn first_line(s: &str) -> (r: String)
    ensures
        r@ == spec_first_line(s@),
{
    crate::text::first_line(s)
}

/// The definition a `$ref` names, when it points into `#/definitions/`.
pub open spec fn ref_name(field: Json) -> Option<Seq<char>> {
    match str_at(field, "$ref"@) {
        Some(r) => strip_prefix(r, "#/definitions/"@),
        None => None,
    }
}

/// The one schema of a one-element `allOf`.
pub open spec fn single_all_of(field: Json) -> Option<Json> {
    match array_at(field, "allOf"@) {
        Some(a) => if a@.len() == 1 {
            Some(a@[0])
        } else {
            None
        },
        None => None,
    }
}

/// The type column of the reference for a schema node.
pub open spec fn md_type(field: Json) -> Seq<char>
    decreases json_size(field), 2nat, 0nat,
{
    proof {
        lemma_at_smaller(field, "allOf"@);
        lemma_at_smaller(field, "anyOf"@);
    }
    if let Some(name) = ref_name(field) {
        "[`"@ + name + "`](#"@ + lowercase(name) + ")"@
    } else if let Some(inner) = single_all_of(field) {
        md_type(inner)
    } else {
        let from_type: Option<Seq<char>> = match spec_get(field, "type"@) {
            Some(Json::String(t)) => Some(md_primitive(t@, field)),
            Some(Json::Array(ts)) => {
                let types = md_type_list(ts@, field);
                if types.len() == 0 {
                    Some("null"@)
                } else {
                    Some(join(types, " | "@) + " (optional)"@)
                }
            },
            _ => None,
        };
        match from_type {
            Some(t) => t,
            None => match array_at(field, "anyOf"@) {
                Some(any) => {
                    let types = md_any_of(any@);
                    if types.len() == 1 && any@.len() == 2 {
                        types[0] + " (optional)"@
                    } else {
                        join(types, " | "@)
                    }
                },
                None => if spec_get(field, "oneOf"@) is Some {
                    "(tagged union — see variant list)"@
                } else {
                    "any"@
                },
            },
        }
    }
}

/// The type texts of the non-`null` names in a `type: [..]` list.
pub open spec fn md_type_list(ts: Seq<Json>, field: Json) -> Seq<Seq<char>>
    decreases json_size(field), 1nat, ts.len(),
{
    if ts.len() == 0 {
        seq![]
    } else {
        let rest = md_type_list(ts.subrange(0, ts.len() - 1), field);
        match ts[ts.len() - 1] {
            Json::String(t) => if t@ == "null"@ {
                rest
            } else {
                rest.push(md_primitive(t@, field))
            },
            _ => rest,
        }
    }
}

/// The type texts of the `anyOf` alternatives that are not `type: "null"`.
pub open spec fn md_any_of(items: Seq<Json>) -> Seq<Seq<char>>
    decreases items_size(items), 3nat, 0nat,
{
    if items.len() == 0 {
        seq![]
    } else {
        let last = items[items.len() - 1];
        proof {
            lemma_size_positive(last);
        }
        let rest = md_any_of(items.subrange(0, items.len() - 1));
        if str_at(last, "type"@) == Some("null"@) {
            rest
        } else {
            rest.push(md_type(last))
        }
    }
}

/// The type text of a primitive type name; maps and arrays name their
/// element type (angle brackets as HTML entities).
pub open spec fn md_primitive(t: Seq<char>, field: Json) -> Seq<char>
    decreases json_size(field), 1nat, 0nat,
{
    proof {
        lemma_at_smaller(field, "additionalProperties"@);
        lemma_at_smaller(field, "items"@);
    }
    if t == "object"@ {
        match spec_get(field, "additionalProperties"@) {
            Some(add) => if add != Json::Bool(false) {
                "map&lt;string, "@ + md_type(add) + "&gt;"@
            } else {
                "object"@
            },
            None => "object"@,
        }
    } else if t == "array"@ {
        match spec_get(field, "items"@) {
            Some(items) => "array&lt;"@ + md_type(items) + "&gt;"@,
            None => "array"@,
        }
    } else {
        t
    }
}


/// The type column for a node.
fn type_of(field: &Json) -> (r: String)
    ensures
        r@ == md_type(*field),
    decreases json_size(*field), 2nat, 0nat,
{
    proof {
        lemma_at_smaller(*field, "allOf"@);
        lemma_at_smaller(*field, "anyOf"@);
    }
    if let Some(r) = get_str(field, "$ref") {
        if let Some(name) = strip_prefix_chars(r, "#/definitions/") {
            let name = string_of(&name);
            let a = anchor(name.as_str());
            let mut out = text("[`");
            out.append(name.as_str());
            out.append("`](#");
            out.append(a.as_str());
            out.append(")");
            return out;
        }
    }
    if let Some(arr) = get_array(field, "allOf") {
        if arr.len() == 1 {
            return type_of(&arr[0]);
        }
    }
    if let Some(t) = get(field, "type") {
        match t {
            Json::String(name) => {
                return primitive_to_md(name.as_str(), field);
            },
            Json::Array(ts) => {
                let mut types: Vec<String> = Vec::new();
                let n = ts.len();
                let mut i: usize = 0;
                while i < n
                    invariant
                        n == ts@.len(),
                        i <= n,
                        string_views(types@) == md_type_list(ts@.subrange(0, i as int), *field),
                    decreases n - i,
                {
                    let ghost before = types@;
                    if let Json::String(name) = &ts[i] {
                        if !str_eq(name.as_str(), "null") {
                            let ty = primitive_to_md(name.as_str(), field);
                            types.push(ty);
                        }
                    }
                    proof {
                        let sub = ts@.subrange(0, i + 1);
                        assert(sub.subrange(0, i as int) =~= ts@.subrange(0, i as int));
                        assert(string_views(types@) =~= md_type_list(sub, *field));
                    }
                    i = i + 1;
                }
                assert(ts@.subrange(0, n as int) =~= ts@);
                if types.len() == 0 {
                    return text("null");
                }
                let mut out = join_strings(&types, " | ");
                out.append(" (optional)");
                return out;
            },
            _ => {},
        }
    }
    if let Some(any) = get_array(field, "anyOf") {
        let mut types: Vec<String> = Vec::new();
        let n = any.len();
        let mut i: usize = 0;
        while i < n
            invariant
                n == any@.len(),
                i <= n,
                forall|k: int| 0 <= k < n ==> #[trigger] json_size(any@[k]) < json_size(*field),
                string_views(types@) == md_any_of(any@.subrange(0, i as int)),
            decreases n - i,
        {
            let item = &any[i];
            let is_null = match get_str(item, "type") {
                Some(t) => str_eq(t, "null"),
                None => false,
            };
            if !is_null {
                let ty = type_of(item);
                types.push(ty);
            }
            proof {
                let sub = any@.subrange(0, i + 1);
                assert(sub.subrange(0, i as int) =~= any@.subrange(0, i as int));
                assert(sub[i as int] == *item);
                assert(string_views(types@) =~= md_any_of(sub));
            }
            i = i + 1;
        }
        assert(any@.subrange(0, n as int) =~= any@);
        if types.len() == 1 && n == 2 {
            let mut out = text(types[0].as_str());
            out.append(" (optional)");
            return out;
        }
        return join_strings(&types, " | ");
    }
    if get(field, "oneOf").is_some() {
        return text("(tagged union — see variant list)");
    }
    text("any")
}

/// The type text of a primitive type name.
fn primitive_to_md(t: &str, field: &Json) -> (r: String)
    ensures
        r@ == md_primitive(t@, *field),
    decreases json_size(*field), 1nat, 0nat,
{
    proof {
        lemma_at_smaller(*field, "additionalProperties"@);
        lemma_at_smaller(*field, "items"@);
    }
    if str_eq(t, "object") {
        if let Some(add) = get(field, "additionalProperties") {
            let is_false = match add {
                Json::Bool(b) => !*b,
                _ => false,
            };
            if !is_false {
                let inner = type_of(add);
                let mut out = text("map&lt;string, ");
                out.append(inner.as_str());
                out.append("&gt;");
                return out;
            }
        }
        return text("object");
    }
    if str_eq(t, "array") {
        if let Some(items) = get(field, "items") {
            let inner = type_of(items);
            let mut out = text("array&lt;");
            out.append(inner.as_str());
            out.append("&gt;");
            return out;
        }
        return text("array");
    }
    text(t)
}


/// The default column: scalars quoted as code, empty containers as code,
/// other containers by a pointer to the type's own section.
pub open spec fn md_default(field: Json) -> Seq<char> {
    match spec_get(field, "default"@) {
        None => seq![],
        Some(Json::Null) => seq![],
        Some(Json::String(s)) => "`\""@ + s@ + "\"`"@,
        Some(Json::Bool(b)) => "`"@ + (if b {
            "true"@
        } else {
            "false"@
        }) + "`"@,
        Some(Json::Number(n)) => "`"@ + n@ + "`"@,
        Some(Json::Array(a)) => if a@.len() == 0 {
            "`[]`"@
        } else {
            "(see type)"@
        },
        Some(Json::Object(o)) => if o@.len() == 0 {
            "`{}`"@
        } else {
            "(see type)"@
        },
    }
}

fn default_of(field: &Json) -> (r: String)
    ensures
        r@ == md_default(*field),
{
    match get(field, "default") {
        None => String::new(),
        Some(Json::Null) => String::new(),
        Some(Json::String(s)) => {
            let mut out = text("`\"");
            out.append(s.as_str());
            out.append("\"`");
            out
        },
        Some(Json::Bool(b)) => {
            let mut out = text("`");
            if *b {
                out.append("true");
            } else {
                out.append("false");
            }
            out.append("`");
            out
        },
        Some(Json::Number(n)) => {
            let mut out = text("`");
            out.append(n.as_str());
            out.append("`");
            out
        },
        Some(Json::Array(a)) => if a.len() == 0 {
            text("`[]`")
        } else {
            text("(see type)")
        },
        Some(Json::Object(o)) => if o.len() == 0 {
            text("`{}`")
        } else {
            text("(see type)")
        },
    }
}

/// A node's description, or the empty text.
pub open spec fn desc_or_empty(field: Json) -> Seq<char> {
    match str_at(field, "description"@) {
        Some(d) => d,
        None => ""@,
    }
}

/// The value under a key of a run of entries (`Null` where it is absent).
pub open spec fn value_at(es: Seq<(String, Json)>, key: Seq<char>) -> Json {
    match entries_get(es, key) {
        Some(v) => v,
        None => Json::Null,
    }
}

/// One row of a field table.
pub open spec fn md_row(key: Seq<char>, field: Json) -> Seq<char> {
    "| `"@ + escape_cell(key) + "` | "@ + escape_cell(md_type(field)) + " | "@ + escape_cell(
        md_default(field),
    ) + " | "@ + escape_cell(spec_first_line(desc_or_empty(field))) + " |\n"@
}

/// The rows for the given keys, in that order.
pub open spec fn md_rows(keys: Seq<Seq<char>>, es: Seq<(String, Json)>) -> Seq<char>
    decreases keys.len(),
{
    if keys.len() == 0 {
        seq![]
    } else {
        md_rows(keys.subrange(0, keys.len() - 1), es) + md_row(
            keys[keys.len() - 1],
            value_at(es, keys[keys.len() - 1]),
        )
    }
}

/// A field table: header, one row per field in key order, blank line.
pub open spec fn md_field_table(es: Seq<(String, Json)>) -> Seq<char> {
    "| Field | Type | Default | Summary |\n"@ + "| --- | --- | --- | --- |\n"@ + md_rows(
        sort_seqs(keys_of(es)),
        es,
    ) + "\n"@
}

/// The value under `key`, or `Null` where there is none.
fn value_or_null<'a>(es: &'a Vec<(String, Json)>, key: &str, null: &'a Json) -> (r: &'a Json)
    requires
        *null == Json::Null,
    ensures
        *r == value_at(es@, key@),
{
    match lookup(es, key) {
        Some(v) => v,
        None => null,
    }
}

fn render_row(key: &str, field: &Json, out: &mut String)
    ensures
        final(out)@ == old(out)@ + md_row(key@, *field),
{
    let ty = type_of(field);
    let default = default_of(field);
    let summary = match get_str(field, "description") {
        Some(d) => first_line(d),
        None => first_line(""),
    };
    assert(summary@ == spec_first_line(desc_or_empty(*field)));
    let k = escape_md_cell(key);
    let t = escape_md_cell(ty.as_str());
    let d = escape_md_cell(default.as_str());
    let m = escape_md_cell(summary.as_str());
    out.append("| `");
    out.append(k.as_str());
    out.append("` | ");
    out.append(t.as_str());
    out.append(" | ");
    out.append(d.as_str());
    out.append(" | ");
    out.append(m.as_str());
    out.append(" |\n");
    assert(out@ =~= old(out)@ + md_row(key@, *field));
}

fn render_field_table(props: &Vec<(String, Json)>, out: &mut String)
    ensures
        final(out)@ == old(out)@ + md_field_table(props@),
{
    out.append("| Field | Type | Default | Summary |\n");
    out.append("| --- | --- | --- | --- |\n");
    let ghost start = out@;
    let keys = sorted_keys(props);
    let null = Json::Null;
    let n = keys.len();
    let mut i: usize = 0;
    while i < n
        invariant
            n == keys@.len(),
            i <= n,
            null == Json::Null,
            out@ == start + md_rows(str_views(keys@).subrange(0, i as int), props@),
        decreases n - i,
    {
        let key = keys[i];
        let field = value_or_null(props, key, &null);
        render_row(key, field, out);
        proof {
            let ks = str_views(keys@);
            let sub = ks.subrange(0, i + 1);
            assert(sub.subrange(0, i as int) =~= ks.subrange(0, i as int));
            assert(sub[i as int] == key@);
            assert(out@ =~= start + md_rows(sub, props@));
        }
        i = i + 1;
    }
    assert(str_views(keys@).subrange(0, n as int) =~= str_views(keys@));
    out.append("\n");
    assert(out@ =~= old(out)@ + md_field_table(props@));
}


/// The first item of an array, when it is a string.
pub open spec fn first_str(a: Option<Vec<Json>>) -> Option<Seq<char>> {
    match a {
        Some(a) => if a@.len() > 0 {
            match a@[0] {
                Json::String(s) => Some(s@),
                _ => None,
            }
        } else {
            None
        },
        None => None,
    }
}

fn first_str_of<'a>(a: Option<&'a Vec<Json>>) -> (r: Option<&'a str>)
    ensures
        opt_str(r) == first_str(opt_vec(a)),
{
    match a {
        Some(a) => if a.len() > 0 {
            match &a[0] {
                Json::String(s) => Some(s.as_str()),
                _ => None,
            }
        } else {
            None
        },
        None => None,
    }
}

/// A tagged variant's name: the single `enum` value of its `properties.type`.
pub open spec fn tagged_title(v: Json) -> Option<Seq<char>> {
    match spec_get(v, "properties"@) {
        Some(p) => match spec_get(p, "type"@) {
            Some(t) => first_str(array_at(t, "enum"@)),
            None => None,
        },
        None => None,
    }
}

/// A variant's name: its `title`, else its tag, else its first `enum`
/// value, else `(unnamed variant)`.
pub open spec fn variant_title(v: Json) -> Seq<char> {
    match str_at(v, "title"@) {
        Some(t) => t,
        None => match tagged_title(v) {
            Some(t) => t,
            None => match first_str(array_at(v, "enum"@)) {
                Some(t) => t,
                None => "(unnamed variant)"@,
            },
        },
    }
}

/// The keys other than `type`, in order.
pub open spec fn drop_type_key(ks: Seq<Seq<char>>) -> Seq<Seq<char>>
    decreases ks.len(),
{
    if ks.len() == 0 {
        seq![]
    } else {
        let rest = drop_type_key(ks.subrange(0, ks.len() - 1));
        if ks[ks.len() - 1] == "type"@ {
            rest
        } else {
            rest.push(ks[ks.len() - 1])
        }
    }
}

/// The field lines of a variant, for the given keys.
pub open spec fn md_variant_fields(keys: Seq<Seq<char>>, es: Seq<(String, Json)>) -> Seq<char>
    decreases keys.len(),
{
    if keys.len() == 0 {
        seq![]
    } else {
        let k = keys[keys.len() - 1];
        md_variant_fields(keys.subrange(0, keys.len() - 1), es) + "  - `"@ + k + "`: "@ + md_type(
            value_at(es, k),
        ) + "\n"@
    }
}

/// One entry of a variant list: its name, its summary when it has one,
/// the fields it carries besides its tag when it has more than one, and a
/// blank line.
pub open spec fn md_variant(v: Json) -> Seq<char> {
    let title = variant_title(v);
    let desc = spec_first_line(desc_or_empty(v));
    let head = if desc.len() == 0 {
        "- **`"@ + title + "`**\n"@
    } else {
        "- **`"@ + title + "`** — "@ + desc + "\n"@
    };
    let fields = match object_at(v, "properties"@) {
        Some(props) => if props@.len() > 1 {
            md_variant_fields(sort_seqs(drop_type_key(keys_of(props@))), props@)
        } else {
            seq![]
        },
        None => seq![],
    };
    head + fields + "\n"@
}

fn title_of(variant: &Json) -> (r: &str)
    ensures
        r@ == variant_title(*variant),
{
    match get_str(variant, "title") {
        Some(t) => t,
        None => {
            let tagged: Option<&str> = match get(variant, "properties") {
                Some(p) => match get(p, "type") {
                    Some(t) => first_str_of(get_array(t, "enum")),
                    None => None,
                },
                None => None,
            };
            match tagged {
                Some(t) => t,
                None => match first_str_of(get_array(variant, "enum")) {
                    Some(t) => t,
                    None => "(unnamed variant)",
                },
            }
        },
    }
}

/// The keys that are not `type`, in order.
fn keys_without_type<'a>(all: &Vec<&'a str>) -> (r: Vec<&'a str>)
    ensures
        str_views(r@) == drop_type_key(str_views(all@)),
{
    let mut kept: Vec<&str> = Vec::new();
    let n = all.len();
    let mut i: usize = 0;
    while i < n
        invariant
            n == all@.len(),
            i <= n,
            str_views(kept@) == drop_type_key(str_views(all@).subrange(0, i as int)),
        decreases n - i,
    {
        let k = all[i];
        let ghost before = kept@;
        if !str_eq(k, "type") {
            kept.push(k);
            assert(str_views(kept@) =~= str_views(before).push(k@));
        }
        proof {
            let sub = str_views(all@).subrange(0, i + 1);
            assert(sub.subrange(0, i as int) =~= str_views(all@).subrange(0, i as int));
            assert(sub[i as int] == k@);
        }
        i = i + 1;
    }
    assert(str_views(all@).subrange(0, n as int) =~= str_views(all@));
    kept
}

fn render_variant_fields(keys: &Vec<&str>, props: &Vec<(String, Json)>, out: &mut String)
    ensures
        final(out)@ == old(out)@ + md_variant_fields(str_views(keys@), props@),
{
    let ghost mid = out@;
    let null = Json::Null;
    let m = keys.len();
    let mut j: usize = 0;
    while j < m
        invariant
            m == keys@.len(),
            j <= m,
            null == Json::Null,
            out@ == mid + md_variant_fields(str_views(keys@).subrange(0, j as int), props@),
        decreases m - j,
    {
        let key = keys[j];
        let ty = type_of(value_or_null(props, key, &null));
        out.append("  - `");
        out.append(key);
        out.append("`: ");
        out.append(ty.as_str());
        out.append("\n");
        proof {
            let ks = str_views(keys@);
            let sub = ks.subrange(0, j + 1);
            assert(sub.subrange(0, j as int) =~= ks.subrange(0, j as int));
            assert(sub[j as int] == key@);
            assert(out@ =~= mid + md_variant_fields(sub, props@));
        }
        j = j + 1;
    }
    assert(str_views(keys@).subrange(0, m as int) =~= str_views(keys@));
}

fn render_variant(variant: &Json, out: &mut String)
    ensures
        final(out)@ == old(out)@ + md_variant(*variant),
{
    let title = title_of(variant);
    let desc = match get_str(variant, "description") {
        Some(d) => first_line(d),
        None => first_line(""),
    };
    out.append("- **`");
    out.append(title);
    if desc.unicode_len() == 0 {
        out.append("`**\n");
    } else {
        out.append("`** — ");
        out.append(desc.as_str());
        out.append("\n");
    }
    let ghost mid = out@;
    if let Some(props) = get_object(variant, "properties") {
        if props.len() > 1 {
            let all = key_refs(props);
            let kept = keys_without_type(&all);
            let keys = sort_strs(&kept);
            render_variant_fields(&keys, props, out);
        }
    }
    out.append("\n");
    assert(out@ =~= old(out)@ + md_variant(*variant));
}


/// The entries of a variant list.
pub open spec fn md_variants(vs: Seq<Json>) -> Seq<char>
    decreases vs.len(),
{
    if vs.len() == 0 {
        seq![]
    } else {
        md_variants(vs.subrange(0, vs.len() - 1)) + md_variant(vs[vs.len() - 1])
    }
}

/// The bullet lines of an allowed-values list (string values only).
pub open spec fn md_values(vs: Seq<Json>) -> Seq<char>
    decreases vs.len(),
{
    if vs.len() == 0 {
        seq![]
    } else {
        let rest = md_values(vs.subrange(0, vs.len() - 1));
        match vs[vs.len() - 1] {
            Json::String(v) => rest + "- `"@ + v@ + "`\n"@,
            _ => rest,
        }
    }
}

/// What follows a definition's heading and description: its variants, its
/// allowed values, its field table, or its type.
pub open spec fn md_definition_body(def: Json) -> Seq<char> {
    match array_at(def, "oneOf"@) {
        Some(vs) => "**Variants:**\n\n"@ + md_variants(vs@),
        None => match array_at(def, "enum"@) {
            Some(vals) => "**Allowed values:**\n\n"@ + md_values(vals@) + "\n"@,
            None => match object_at(def, "properties"@) {
                Some(props) => md_field_table(props@),
                None => "Type: "@ + md_type(def) + "\n\n"@,
            },
        },
    }
}

/// The section of one definition.
pub open spec fn md_definition(name: Seq<char>, def: Json) -> Seq<char> {
    "### `"@ + name + "`\n\n"@ + (match str_at(def, "description"@) {
        Some(d) => d + "\n\n"@,
        None => seq![],
    }) + md_definition_body(def)
}

fn render_variants(vs: &Vec<Json>, out: &mut String)
    ensures
        final(out)@ == old(out)@ + md_variants(vs@),
{
    let ghost start = out@;
    let n = vs.len();
    let mut i: usize = 0;
    while i < n
        invariant
            n == vs@.len(),
            i <= n,
            out@ == start + md_variants(vs@.subrange(0, i as int)),
        decreases n - i,
    {
        render_variant(&vs[i], out);
        proof {
            let sub = vs@.subrange(0, i + 1);
            assert(sub.subrange(0, i as int) =~= vs@.subrange(0, i as int));
            assert(out@ =~= start + md_variants(sub));
        }
        i = i + 1;
    }
    assert(vs@.subrange(0, n as int) =~= vs@);
}

fn render_values(vs: &Vec<Json>, out: &mut String)
    ensures
        final(out)@ == old(out)@ + md_values(vs@),
{
    let ghost start = out@;
    let n = vs.len();
    let mut i: usize = 0;
    while i < n
        invariant
            n == vs@.len(),
            i <= n,
            out@ == start + md_values(vs@.subrange(0, i as int)),
        decreases n - i,
    {
        if let Json::String(v) = &vs[i] {
            out.append("- `");
            out.append(v.as_str());
            out.append("`\n");
        }
        proof {
            let sub = vs@.subrange(0, i + 1);
            assert(sub.subrange(0, i as int) =~= vs@.subrange(0, i as int));
            assert(out@ =~= start + md_values(sub));
        }
        i = i + 1;
    }
    assert(vs@.subrange(0, n as int) =~= vs@);
}

#[verifier::rlimit(40)]
fn render_definition(name: &str, def: &Json, out: &mut String)
    ensures
        final(out)@ == old(out)@ + md_definition(name@, *def),
{
    out.append("### `");
    out.append(name);
    out.append("`\n\n");
    if let Some(desc) = get_str(def, "description") {
        out.append(desc);
        out.append("\n\n");
    }
    let ghost mid = out@;
    if let Some(variants) = get_array(def, "oneOf") {
        out.append("**Variants:**\n\n");
        render_variants(variants, out);
        assert(out@ =~= old(out)@ + md_definition(name@, *def));
        return;
    }
    if let Some(values) = get_array(def, "enum") {
        out.append("**Allowed values:**\n\n");
        render_values(values, out);
        out.append("\n");
        assert(out@ =~= old(out)@ + md_definition(name@, *def));
        return;
    }
    if let Some(props) = get_object(def, "properties") {
        render_field_table(props, out);
    } else {
        let ty = type_of(def);
        out.append("Type: ");
        out.append(ty.as_str());
        out.append("\n\n");
    }
    assert(out@ =~= old(out)@ + md_definition(name@, *def));
}

/// The definitions sections for the given names, in that order.
pub open spec fn md_definitions(names: Seq<Seq<char>>, defs: Seq<(String, Json)>) -> Seq<char>
    decreases names.len(),
{
    if names.len() == 0 {
        seq![]
    } else {
        let name = names[names.len() - 1];
        md_definitions(names.subrange(0, names.len() - 1), defs) + md_definition(
            name,
            value_at(defs, name),
        )
    }
}

/// The `definitions` of a schema (none when it has no such object).
pub open spec fn definitions_of(schema: Json) -> Seq<(String, Json)> {
    match object_at(schema, "definitions"@) {
        Some(d) => d@,
        None => seq![],
    }
}

/// The lines above the overview.
pub open spec fn md_banner() -> Seq<char> {
    "# MCPG Configuration\n\n"@
        + "> **Generated from `apps/gateway/src/config/` via `mcpg config doc`.**  \n"@
        + "> The audience-facing sections below are curated inside the generator; the per-block reference at the bottom is sourced from `///` rustdoc + `#[serde(...)]` annotations on the live `AppConfig` tree.  \n"@
        + "> Re-generate with: `mcpg config doc > apps/gateway/docs/configuration.md`.\n\n"@
}

/// The opening of the reference: banner, the schema's description as an
/// overview, the curated introduction and the heading of the root table.
pub open spec fn md_head(schema: Json) -> Seq<char> {
    md_banner() + (match str_at(schema, "description"@) {
        Some(d) => "## Overview\n\n"@ + d + "\n\n"@,
        None => seq![],
    }) + CURATED_INTRO@ + "## Top-level structure (`AppConfig`)\n\n"@
        + "Every field on the root `AppConfig`, alphabetised. Click a type to jump to its per-block reference below.\n\n"@
}

/// The rest: the root field table and one section per definition, in
/// name order.
pub open spec fn md_tail(schema: Json) -> Seq<char> {
    let defs = definitions_of(schema);
    (match object_at(schema, "properties"@) {
        Some(p) => md_field_table(p@),
        None => seq![],
    }) + "\n## Per-block reference\n\n"@
        + "Every type reachable from `AppConfig`, alphabetised. Field tables show type, default, and the field's `///` doc-comment summary.\n\n"@
        + md_definitions(sort_seqs(keys_of(defs)), defs)
}

/// The whole reference.
pub open spec fn md_reference(schema: Json) -> Seq<char> {
    md_head(schema) + md_tail(schema)
}

fn render_definitions(defs: &Vec<(String, Json)>, out: &mut String)
    ensures
        final(out)@ == old(out)@ + md_definitions(sort_seqs(keys_of(defs@)), defs@),
{
    let ghost start = out@;
    let names = sorted_keys(defs);
    let null = Json::Null;
    let n = names.len();
    let mut i: usize = 0;
    while i < n
        invariant
            n == names@.len(),
            i <= n,
            null == Json::Null,
            out@ == start + md_definitions(str_views(names@).subrange(0, i as int), defs@),
        decreases n - i,
    {
        let name = names[i];
        render_definition(name, value_or_null(defs, name, &null), out);
        proof {
            let ns = str_views(names@);
            let sub = ns.subrange(0, i + 1);
            assert(sub.subrange(0, i as int) =~= ns.subrange(0, i as int));
            assert(sub[i as int] == name@);
            assert(out@ =~= start + md_definitions(sub, defs@));
        }
        i = i + 1;
    }
    assert(str_views(names@).subrange(0, n as int) =~= str_views(names@));
}

fn render_head(schema: &Json, out: &mut String)
    ensures
        final(out)@ == old(out)@ + md_head(*schema),
{
    out.append("# MCPG Configuration\n\n");
    out.append("> **Generated from `apps/gateway/src/config/` via `mcpg config doc`.**  \n");
    out.append(
        "> The audience-facing sections below are curated inside the generator; the per-block reference at the bottom is sourced from `///` rustdoc + `#[serde(...)]` annotations on the live `AppConfig` tree.  \n",
    );
    out.append("> Re-generate with: `mcpg config doc > apps/gateway/docs/configuration.md`.\n\n");
    assert(out@ =~= old(out)@ + md_banner());
    let ghost a = out@;
    if let Some(desc) = get_str(schema, "description") {
        out.append("## Overview\n\n");
        out.append(desc);
        out.append("\n\n");
    }
    out.append(CURATED_INTRO);
    out.append("## Top-level structure (`AppConfig`)\n\n");
    out.append(
        "Every field on the root `AppConfig`, alphabetised. Click a type to jump to its per-block reference below.\n\n",
    );
    assert(out@ =~= old(out)@ + md_head(*schema));
}

fn render_tail(schema: &Json, out: &mut String)
    ensures
        final(out)@ == old(out)@ + md_tail(*schema),
{
    if let Some(props) = get_object(schema, "properties") {
        render_field_table(props, out);
    }
    out.append("\n## Per-block reference\n\n");
    out.append(
        "Every type reachable from `AppConfig`, alphabetised. Field tables show type, default, and the field's `///` doc-comment summary.\n\n",
    );
    let empty: Vec<(String, Json)> = Vec::new();
    let defs = match get_object(schema, "definitions") {
        Some(d) => d,
        None => &empty,
    };
    assert(defs@ == definitions_of(*schema));
    render_definitions(defs, out);
    assert(out@ =~= old(out)@ + md_tail(*schema));
}

fn render(schema: &Json, out: &mut String)
    ensures
        final(out)@ == old(out)@ + md_reference(*schema),
{
    render_head(schema, out);
    render_tail(schema, out);
    assert(out@ =~= old(out)@ + md_reference(*schema));
}

/// The configuration reference for a schema, as the `doc` command prints
/// it: the rendered Markdown without trailing white space.
pub fn render_reference(schema: &Json) -> (r: String)
    ensures
        r@ == trim_end(md_reference(*schema)),
{
    let mut out = String::new();
    render(schema, &mut out);
    assert(out@ =~= md_reference(*schema));
    trim_end_string(out.as_str())
}

/// The reference opens with its title and ends right at its last visible
/// character, so the `doc` command, which adds one newline after it, prints
/// exactly one trailing newline.
pub proof fn law_reference_title_and_end(schema: Json)
    ensures
        trim_end(md_reference(schema)).subrange(0, 20) == "# MCPG Configuration"@,
        !is_white_space(trim_end(md_reference(schema)).last()),
{
    let s = md_reference(schema);
    let title = "# MCPG Configuration\n\n"@;
    reveal_strlit("# MCPG Configuration\n\n");
    reveal_strlit("# MCPG Configuration");
    assert(s.subrange(0, 22) =~= title);
    assert(s[19] == title[19]);
    lemma_trim_end_prefix(s, 19);
    assert(trim_end(s).subrange(0, 20) =~= s.subrange(0, 20));
    assert(s.subrange(0, 20) =~= "# MCPG Configuration"@);
}

proof fn lemma_md_variants_join(a: Seq<Json>, b: Seq<Json>)
    ensures
        md_variants(a + b) == md_variants(a) + md_variants(b),
    decreases b.len(),
{
    if b.len() == 0 {
        assert(a + b =~= a);
        assert(md_variants(a) + md_variants(b) =~= md_variants(a));
    } else {
        let bi = b.subrange(0, b.len() - 1);
        lemma_md_variants_join(a, bi);
        assert((a + b).subrange(0, (a + b).len() - 1) =~= a + bi);
        assert((a + b)[(a + b).len() - 1] == b[b.len() - 1]);
        assert(md_variants(a + b) =~= md_variants(a) + md_variants(b));
    }
}

/// A definition with a `oneOf` list is written as its heading, its
/// description when it has one, `**Variants:**` and one entry per variant,
/// in order, whatever else it holds: no allowed-values list, field table or
/// `Type:` line.
pub proof fn law_variants_layout(name: Seq<char>, def: Json, a: Seq<Json>, b: Seq<Json>)
    requires
        array_at(def, "oneOf"@) matches Some(vs) && vs@ == a + b,
    ensures
        md_definition(name, def) == "### `"@ + name + "`\n\n"@ + (match str_at(def, "description"@) {
            Some(d) => d + "\n\n"@,
            None => seq![],
        }) + "**Variants:**\n\n"@ + md_variants(a) + md_variants(b),
        md_variants(seq![]) == Seq::<char>::empty(),
        forall|v: Json| #[trigger] md_variants(seq![v]) == md_variant(v),
{
    lemma_md_variants_join(a, b);
    assert forall|v: Json| #[trigger] md_variants(seq![v]) == md_variant(v) by {
        let one = seq![v];
        assert(one.subrange(0, 0) =~= Seq::<Json>::empty());
        assert(md_variants(Seq::<Json>::empty()) == Seq::<char>::empty());
        assert(one[0] == v);
        assert(md_variants(one) == md_variants(one.subrange(0, 0)) + md_variant(one[0]));
        assert(md_variants(one) =~= md_variant(v));
    }
}

/// An `anyOf` alternative that is not `type: "null"`.
pub open spec fn not_null_alternative() -> spec_fn(Json) -> bool {
    |v: Json| str_at(v, "type"@) != Some("null"@)
}

proof fn lemma_md_any_of_filter(items: Seq<Json>)
    ensures
        md_any_of(items).len() == items.filter(not_null_alternative()).len(),
        forall|i: int| 0 <= i < md_any_of(items).len() ==> #[trigger] md_any_of(items)[i] == md_type(
            items.filter(not_null_alternative())[i],
        ),
    decreases items.len(),
{
    reveal(Seq::filter);
    if items.len() > 0 {
        let init = items.drop_last();
        assert(init =~= items.subrange(0, items.len() - 1));
        lemma_md_any_of_filter(init);
        let f = init.filter(not_null_alternative());
        let m = md_any_of(init);
        if str_at(items.last(), "type"@) != Some("null"@) {
            assert(items.filter(not_null_alternative()) == f.push(items.last()));
            assert forall|i: int| 0 <= i < md_any_of(items).len() implies #[trigger] md_any_of(items)[i] == md_type(
                items.filter(not_null_alternative())[i],
            ) by {
                if i < m.len() {
                    assert(md_any_of(items)[i] == m[i]);
                }
            }
        } else {
            assert(items.filter(not_null_alternative()) == f);
        }
    }
}

/// The type column of an `anyOf` field: the types of every alternative that
/// is not `null`, in order, joined by ` | `; only when exactly one of
/// exactly two alternatives is not `null` is it that one type marked
/// ` (optional)`.
pub proof fn law_any_of_type(field: Json, items: Seq<Json>)
    requires
        str_at(field, "$ref"@) is None,
        array_at(field, "allOf"@) is None,
        spec_get(field, "type"@) is None,
        array_at(field, "anyOf"@) matches Some(a) && a@ == items,
    ensures
        md_any_of(items).len() == items.filter(not_null_alternative()).len(),
        forall|i: int| 0 <= i < md_any_of(items).len() ==> #[trigger] md_any_of(items)[i] == md_type(
            items.filter(not_null_alternative())[i],
        ),
        items.filter(not_null_alternative()).len() == 1 && items.len() == 2 ==> md_type(field) == md_type(
            items.filter(not_null_alternative())[0],
        ) + " (optional)"@,
        !(items.filter(not_null_alternative()).len() == 1 && items.len() == 2) ==> md_type(field) == join(
            md_any_of(items),
            " | "@,
        ),
{
    lemma_md_any_of_filter(items);
}

/// The default column shows a boolean or number default as its JSON text
/// in backquotes, a string default quoted in backquotes, `[]` and `{}` for
/// empty lists and objects, `(see type)` for others, and nothing for a
/// null or absent default. Different booleans show differently.
pub proof fn law_default_column(field: Json)
    ensures
        spec_get(field, "default"@) is None ==> md_default(field) == Seq::<char>::empty(),
        spec_get(field, "default"@) == Some(Json::Null) ==> md_default(field) == Seq::<char>::empty(),
        spec_get(field, "default"@) matches Some(v) ==> ((v is Bool || v is Number) ==> md_default(field)
            == "`"@ + crate::json::json_text(v) + "`"@),
        spec_get(field, "default"@) matches Some(Json::String(s)) ==> md_default(field) == "`\""@ + s@
            + "\"`"@,
        spec_get(field, "default"@) == Some(Json::Bool(true)) ==> md_default(field) == "`true`"@,
        spec_get(field, "default"@) == Some(Json::Bool(false)) ==> md_default(field) == "`false`"@,
        "`true`"@ != "`false`"@,
{
    reveal_strlit("`");
    reveal_strlit("true");
    reveal_strlit("false");
    reveal_strlit("`true`");
    reveal_strlit("`false`");
    assert("`"@ + "true"@ + "`"@ =~= "`true`"@);
    assert("`"@ + "false"@ + "`"@ =~= "`false`"@);
    assert("`true`"@.len() != "`false`"@.len());
}

/// A `type` list entry that names a type other than `null`.
pub open spec fn named_type() -> spec_fn(Json) -> bool {
    |v: Json| v is String && v->String_0@ != "null"@
}

proof fn lemma_md_type_list_filter(ts: Seq<Json>, field: Json)
    ensures
        md_type_list(ts, field).len() == ts.filter(named_type()).len(),
        forall|i: int| 0 <= i < md_type_list(ts, field).len() ==> #[trigger] md_type_list(ts, field)[i]
            == md_primitive(ts.filter(named_type())[i]->String_0@, field),
    decreases ts.len(),
{
    reveal(Seq::filter);
    if ts.len() > 0 {
        let init = ts.drop_last();
        assert(init =~= ts.subrange(0, ts.len() - 1));
        lemma_md_type_list_filter(init, field);
        let f = init.filter(named_type());
        let m = md_type_list(init, field);
        if named_type()(ts.last()) {
            assert(ts.filter(named_type()) == f.push(ts.last()));
            assert forall|i: int| 0 <= i < md_type_list(ts, field).len() implies #[trigger] md_type_list(ts, field)[i]
                == md_primitive(ts.filter(named_type())[i]->String_0@, field) by {
                if i < m.len() {
                    assert(md_type_list(ts, field)[i] == m[i]);
                }
            }
        } else {
            assert(ts.filter(named_type()) == f);
        }
    }
}

/// The type column of a field with a `type` list: `null` when it names no
/// type but `null`, else every other named type, in order, joined by ` | `
/// and marked ` (optional)`.
pub proof fn law_type_list_column(field: Json, ts: Seq<Json>)
    requires
        str_at(field, "$ref"@) is None,
        array_at(field, "allOf"@) is None,
        spec_get(field, "type"@) matches Some(Json::Array(a)) && a@ == ts,
    ensures
        md_type_list(ts, field).len() == ts.filter(named_type()).len(),
        forall|i: int| 0 <= i < md_type_list(ts, field).len() ==> #[trigger] md_type_list(ts, field)[i]
            == md_primitive(ts.filter(named_type())[i]->String_0@, field),
        ts.filter(named_type()).len() == 0 ==> md_type(field) == "null"@,
        ts.filter(named_type()).len() > 0 ==> md_type(field) == join(md_type_list(ts, field), " | "@)
            + " (optional)"@,
{
    lemma_md_type_list_filter(ts, field);
}

/// Escaping a table cell works character by character: `|` becomes `\|`,
/// a line break a space, anything else stays; so a cell never holds a line
/// break, and a text with neither is left as it is.
pub proof fn law_escape_cell(a: Seq<char>, b: Seq<char>)
    ensures
        escape_cell(a + b) == escape_cell(a) + escape_cell(b),
        escape_cell(seq!['|']) == seq!['\\', '|'],
        escape_cell(seq!['\n']) == seq![' '],
        !a.contains('|') && !a.contains('\n') ==> escape_cell(a) == a,
        !escape_cell(a).contains('\n'),
    decreases b.len(),
{
    if b.len() == 0 {
        assert(a + b =~= a);
        assert(escape_cell(a) + escape_cell(b) =~= escape_cell(a));
    } else {
        let bi = b.subrange(0, b.len() - 1);
        law_escape_cell(a, bi);
        assert((a + b).subrange(0, (a + b).len() - 1) =~= a + bi);
        assert(escape_cell(a + b) =~= escape_cell(a) + escape_cell(b));
    }
    assert(seq!['|'].subrange(0, 0) =~= Seq::<char>::empty());
    assert(seq!['\n'].subrange(0, 0) =~= Seq::<char>::empty());
    assert(escape_cell(Seq::<char>::empty()) == Seq::<char>::empty());
    lemma_escape_plain(a);
}

proof fn lemma_escape_plain(a: Seq<char>)
    ensures
        !a.contains('|') && !a.contains('\n') ==> escape_cell(a) == a,
        !escape_cell(a).contains('\n'),
    decreases a.len(),
{
    if a.len() > 0 {
        let init = a.subrange(0, a.len() - 1);
        lemma_escape_plain(init);
        let c = a[a.len() - 1];
        if !a.contains('|') && !a.contains('\n') {
            assert(!init.contains('|')) by {
                if init.contains('|') {
                    let j = choose|j: int| 0 <= j < init.len() && init[j] == '|';
                    assert(a[j] == '|');
                }
            }
            assert(!init.contains('\n')) by {
                if init.contains('\n') {
                    let j = choose|j: int| 0 <= j < init.len() && init[j] == '\n';
                    assert(a[j] == '\n');
                }
            }
            assert(c != '|' && c != '\n') by {
                assert(a[a.len() - 1] == c);
            }
            assert(escape_cell(a) =~= a);
        }
        let r = escape_cell(a);
        let e = escape_cell(init);
        let t = escape_char(c);
        assert(r == e + t);
        if r.contains('\n') {
            let j = choose|j: int| 0 <= j < r.len() && r[j] == '\n';
            if j < e.len() {
                assert(e[j] == '\n');
            } else {
                assert(t[j - e.len()] == '\n');
            }
        }
    }
}

/// A map field is typed by its values and a list field by its items: an
/// `object` whose `additionalProperties` is a schema (not `false`) is
/// `map&lt;string, T&gt;`, an `array` with `items` is `array&lt;T&gt;`, `T`
/// being the type of that schema; without one they are `object` and
/// `array`.
pub proof fn law_container_types(field: Json)
    requires
        str_at(field, "$ref"@) is None,
        array_at(field, "allOf"@) is None,
    ensures
        str_at(field, "type"@) == Some("object"@) ==> (spec_get(field, "additionalProperties"@) matches Some(
            vals,
        ) ==> (vals != Json::Bool(false) ==> md_type(field) == "map&lt;string, "@ + md_type(vals)
            + "&gt;"@)),
        str_at(field, "type"@) == Some("object"@) ==> (spec_get(field, "additionalProperties"@) is None
            || spec_get(field, "additionalProperties"@) == Some(Json::Bool(false)) ==> md_type(field)
            == "object"@),
        str_at(field, "type"@) == Some("array"@) ==> (spec_get(field, "items"@) matches Some(items)
            ==> md_type(field) == "array&lt;"@ + md_type(items) + "&gt;"@),
        str_at(field, "type"@) == Some("array"@) ==> (spec_get(field, "items"@) is None ==> md_type(field)
            == "array"@),
{
    reveal_strlit("object");
    reveal_strlit("array");
    assert("object"@[0] != "array"@[0]);
    if let Some(Json::String(t)) = spec_get(field, "type"@) {
        assert(md_type(field) == md_primitive(t@, field));
    }
}

} // verus!
