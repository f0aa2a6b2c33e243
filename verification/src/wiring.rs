//! The wiring report: which backend each consumer slot resolves to, the
//! plugins a configuration loads, and the plugins nothing references.
use vstd::prelude::*;
use crate::text::{
    str_eq, text, chars_of, find_char, char_index, lemma_char_index, nat_text, append_usize,
    pad_right, append_padded, string_views, join, join_strings, str_views,
};

verus! {

/// Usage of the `wiring` command.
pub const USAGE: &'static str = "\
mcpg config wiring — print the wiring report for an MCPG config

USAGE:
    mcpg config wiring <config.yaml> [<override.yaml> ...]

NOTES:
    Multiple files merge in argument order with later-wins semantics
    (same as `MCPG_CONFIG=a.yaml:b.yaml` at runtime). Object fields
    deep-merge; arrays and scalars replace wholesale. The report
    reflects the post-merge / post-validation tree the gateway
    would actually run with.
";

/// What the arguments of `wiring` ask for.
#[derive(Debug, PartialEq, Eq)]
pub enum WiringArgs {
    /// Print the usage to standard error and succeed.
    Help,
    /// Print the usage to standard error and fail with exit code 2.
    Usage,
    /// Report on these files, merged in this order.
    Report(Vec<String>),
}

/// Reads the arguments of `wiring`: none is a usage error, a help flag
/// anywhere asks for help, anything else names files.
pub fn wiring_args(args: &Vec<String>) -> (r: WiringArgs)
    ensures
        args@.len() == 0 ==> r == WiringArgs::Usage,
        args@.len() > 0 && (exists|i: int| 0 <= i < args@.len() && (args@[i]@ == "--help"@ || args@[i]@ == "-h"@)) ==> r == WiringArgs::Help,
        args@.len() > 0 && !(exists|i: int| 0 <= i < args@.len() && (args@[i]@ == "--help"@ || args@[i]@ == "-h"@)) ==> (r matches WiringArgs::Report(ps) && string_views(ps@) == string_views(args@)),
{
    if args.len() == 0 {
        return WiringArgs::Usage;
    }
    let n = args.len();
    let mut i: usize = 0;
    while i < n
        invariant
            n == args@.len(),
            i <= n,
            forall|k: int| 0 <= k < i ==> !(#[trigger] args@[k]@ == "--help"@ || args@[k]@ == "-h"@),
        decreases n - i,
    {
        if str_eq(args[i].as_str(), "--help") || str_eq(args[i].as_str(), "-h") {
            return WiringArgs::Help;
        }
        i = i + 1;
    }
    let mut paths: Vec<String> = Vec::new();
    let mut j: usize = 0;
    while j < n
        invariant
            n == args@.len(),
            j <= n,
            string_views(paths@) == string_views(args@).subrange(0, j as int),
        decreases n - j,
    {
        let t = text(args[j].as_str());
        let ghost before = paths@;
        paths.push(t);
        assert(paths@ == before.push(t));
        assert(string_views(paths@) =~= string_views(before).push(t@));
        assert(string_views(args@).subrange(0, j + 1) =~= string_views(args@).subrange(0, j as int).push(args@[j as int]@));
        assert(string_views(paths@) =~= string_views(args@).subrange(0, j + 1));
        j = j + 1;
    }
    assert(string_views(args@).subrange(0, n as int) =~= string_views(args@));
    WiringArgs::Report(paths)
}

/// What a slot's `kind:` resolved to.
#[derive(Debug, PartialEq, Eq)]
pub enum Resolution {
    /// A backend linked into the gateway.
    Builtin(String),
    /// The plugin with this id.
    Plugin(String),
    /// The cluster backend.
    Cluster,
    /// Resolution failed, with this message.
    Unresolved(String),
}

/// A consumer slot that names its backend with `kind:`.
#[derive(Debug, PartialEq, Eq)]
pub struct KindSlot {
    pub kind: String,
    pub resolution: Resolution,
}

/// A plugin the configuration loads.
#[derive(Debug, PartialEq, Eq)]
pub struct PluginEntry {
    pub id: String,
    pub class: String,
    pub disabled: bool,
}

/// What the wiring report reads of a loaded configuration.
#[derive(Debug, PartialEq, Eq)]
pub struct WiringConfig {
    pub cluster_kind: String,
    /// The capabilities the cluster backend provides.
    pub cluster_provides: Vec<String>,
    pub sessions_store: Option<KindSlot>,
    pub pipelines_store: Option<KindSlot>,
    pub subscriptions_store: Option<KindSlot>,
    pub delivery_bus: Option<KindSlot>,
    pub cancellation_bus: Option<KindSlot>,
    /// Whether any quota is declared.
    pub quotas_declared: bool,
    pub quotas_store: KindSlot,
    /// The `kind:` of each audit sink, in order.
    pub audit_sinks: Vec<String>,
    pub log_sinks: Vec<String>,
    pub metric_sinks: Vec<String>,
    pub trace_sinks: Vec<String>,
    pub plugins: Vec<PluginEntry>,
}

/// What a resolution reads as.
pub open spec fn resolution_text(r: Resolution, cluster_kind: Seq<char>) -> Seq<char> {
    match r {
        Resolution::Builtin(name) => "builtin: "@ + name@,
        Resolution::Plugin(id) => "plugin: "@ + id@,
        Resolution::Cluster => "cluster ("@ + cluster_kind + ")"@,
        Resolution::Unresolved(e) => "UNRESOLVED: "@ + e@,
    }
}

/// The line of a slot with a `kind:`.
pub open spec fn kind_ref_line(label: Seq<char>, slot: KindSlot, cluster_kind: Seq<char>) -> Seq<char> {
    "  "@ + pad_right(label, 46) + "  kind: "@ + pad_right(slot.kind@, 20) + " → "@
        + resolution_text(slot.resolution, cluster_kind) + "\n"@
}

/// The line of a capability slot: its kind, or `(default)` when unset.
pub open spec fn capability_line(label: Seq<char>, slot: Option<KindSlot>, cluster_kind: Seq<char>) -> Seq<char> {
    match slot {
        Some(s) => kind_ref_line(label, s, cluster_kind),
        None => "  "@ + pad_right(label, 46) + "  (default)\n"@,
    }
}

/// The line of a sink: its position and kind.
pub open spec fn sink_line(label: Seq<char>, kind: Seq<char>) -> Seq<char> {
    "  "@ + pad_right(label, 46) + "  kind: "@ + kind + "\n"@
}

/// The lines of a list of sinks, labelled `prefix[i]`.
pub open spec fn sink_lines(prefix: Seq<char>, kinds: Seq<Seq<char>>) -> Seq<char>
    decreases kinds.len(),
{
    if kinds.len() == 0 {
        seq![]
    } else {
        let i = kinds.len() - 1;
        sink_lines(prefix, kinds.subrange(0, i)) + sink_line(
            prefix + "["@ + nat_text(i as nat) + "]"@,
            kinds[i],
        )
    }
}

/// Whether the quota store gets a line.
pub open spec fn quota_shown(c: WiringConfig) -> bool {
    c.quotas_declared && c.quotas_store.kind@.len() > 0
}

/// Whether any consumer slot is declared.
pub open spec fn any_slot(c: WiringConfig) -> bool {
    ||| c.sessions_store is Some
    ||| c.pipelines_store is Some
    ||| c.subscriptions_store is Some
    ||| c.delivery_bus is Some
    ||| c.cancellation_bus is Some
    ||| quota_shown(c)
    ||| c.audit_sinks@.len() > 0
    ||| c.log_sinks@.len() > 0
    ||| c.metric_sinks@.len() > 0
    ||| c.trace_sinks@.len() > 0
}

/// The cluster section.
pub open spec fn cluster_section(c: WiringConfig) -> Seq<char> {
    "Cluster\n"@ + "  kind:                     "@ + c.cluster_kind@ + "\n"@
        + "  provides:                 "@ + (if c.cluster_provides@.len() == 0 {
        "(none)"@
    } else {
        join(string_views(c.cluster_provides@), ", "@)
    }) + "\n"@ + "\n"@
}

/// The lines of the five capability slots.
pub open spec fn capability_lines(c: WiringConfig) -> Seq<char> {
    let ck = c.cluster_kind@;
    capability_line("mcp.configurations.sessions.store"@, c.sessions_store, ck) + capability_line(
        "mcp.configurations.pipelines.store"@,
        c.pipelines_store,
        ck,
    ) + capability_line("mcp.configurations.subscriptions.store"@, c.subscriptions_store, ck)
        + capability_line("mcp.configurations.delivery.bus"@, c.delivery_bus, ck)
        + capability_line("mcp.configurations.cancellation.bus"@, c.cancellation_bus, ck)
}

/// The lines of every sink.
pub open spec fn all_sink_lines(c: WiringConfig) -> Seq<char> {
    sink_lines("governance.audit.sinks"@, string_views(c.audit_sinks@)) + sink_lines(
        "observability.logs.sinks"@,
        string_views(c.log_sinks@),
    ) + sink_lines("observability.metrics.sinks"@, string_views(c.metric_sinks@)) + sink_lines(
        "observability.traces.sinks"@,
        string_views(c.trace_sinks@),
    )
}

/// The consumer-slots section.
pub open spec fn slots_section(c: WiringConfig) -> Seq<char> {
    "Consumer slots\n"@ + capability_lines(c) + (if quota_shown(c) {
        kind_ref_line("governance.quotas.store"@, c.quotas_store, c.cluster_kind@)
    } else {
        seq![]
    }) + all_sink_lines(c) + (if any_slot(c) {
        seq![]
    } else {
        "  (no consumer slots declared)\n"@
    }) + "\n"@
}

/// The line of a loaded plugin.
pub open spec fn plugin_line(p: PluginEntry) -> Seq<char> {
    "  "@ + pad_right(p.id@, 32) + " class: "@ + pad_right(p.class@, 15) + " "@ + (if p.disabled {
        "DISABLED"@
    } else {
        "enabled "@
    }) + "\n"@
}

pub open spec fn plugin_lines(ps: Seq<PluginEntry>) -> Seq<char>
    decreases ps.len(),
{
    if ps.len() == 0 {
        seq![]
    } else {
        plugin_lines(ps.subrange(0, ps.len() - 1)) + plugin_line(ps[ps.len() - 1])
    }
}

/// The loaded-plugins section.
pub open spec fn plugins_section(c: WiringConfig) -> Seq<char> {
    "Loaded plugins ("@ + nat_text(c.plugins@.len()) + ")\n"@ + (if c.plugins@.len() == 0 {
        "  (none)\n"@
    } else {
        plugin_lines(c.plugins@)
    }) + "\n"@
}

/// Whether a plugin claims URI schemes: an enabled secret or config provider.
pub open spec fn claims_schemes(p: PluginEntry) -> bool {
    !p.disabled && (p.class@ == "secret"@ || p.class@ == "config"@)
}

pub open spec fn scheme_lines(ps: Seq<PluginEntry>) -> Seq<char>
    decreases ps.len(),
{
    if ps.len() == 0 {
        seq![]
    } else {
        let p = ps[ps.len() - 1];
        scheme_lines(ps.subrange(0, ps.len() - 1)) + (if claims_schemes(p) {
            "  "@ + pad_right(p.id@, 32) + " (schemes resolved at gateway boot from supported_schemes())\n"@
        } else {
            seq![]
        })
    }
}

/// The scheme-claims section.
pub open spec fn scheme_section(c: WiringConfig) -> Seq<char> {
    "Plugin scheme claims\n"@ + scheme_lines(c.plugins@) + (if exists|i: int|
        0 <= i < c.plugins@.len() && claims_schemes(#[trigger] c.plugins@[i]) {
        seq![]
    } else {
        "  (none — scheme-routing wires through in P8 follow-up)\n"@
    }) + "\n"@
}

/// Whether a text holds a `.`.
pub open spec fn has_dot(s: Seq<char>) -> bool {
    char_index(s, '.') is Some
}

pub open spec fn opt_kind(s: Option<KindSlot>) -> Seq<Seq<char>> {
    match s {
        Some(k) => seq![k.kind@],
        None => seq![],
    }
}

/// The `kind:` values of every consumer slot, in report order.
pub open spec fn slot_kinds(c: WiringConfig) -> Seq<Seq<char>> {
    opt_kind(c.sessions_store) + opt_kind(c.pipelines_store) + opt_kind(c.subscriptions_store)
        + opt_kind(c.delivery_bus) + opt_kind(c.cancellation_bus) + (if c.quotas_declared {
        seq![c.quotas_store.kind@]
    } else {
        seq![]
    }) + string_views(c.audit_sinks@) + string_views(c.log_sinks@) + string_views(c.metric_sinks@)
        + string_views(c.trace_sinks@)
}

/// Whether a consumer slot names this plugin id: a slot's `kind:` holding a
/// `.` is a plugin id.
pub open spec fn referenced(c: WiringConfig, id: Seq<char>) -> bool {
    slot_kinds(c).contains(id) && has_dot(id)
}

/// Classes that register without a consumer slot.
pub open spec fn implicit_class(cl: Seq<char>) -> bool {
    cl == "http_route"@ || cl == "identity_provider"@ || cl == "tool_gate"@ || cl == "transform"@
        || cl == "backend"@
}

/// Whether a plugin is loaded but nothing uses it.
pub open spec fn unwired(c: WiringConfig, p: PluginEntry) -> bool {
    !p.disabled && !implicit_class(p.class@) && !referenced(c, p.id@)
}

pub open spec fn unwired_lines(c: WiringConfig, ps: Seq<PluginEntry>) -> Seq<char>
    decreases ps.len(),
{
    if ps.len() == 0 {
        seq![]
    } else {
        let p = ps[ps.len() - 1];
        unwired_lines(c, ps.subrange(0, ps.len() - 1)) + (if unwired(c, p) {
            "  "@ + pad_right(p.id@, 32) + " class: "@ + pad_right(p.class@, 15)
                + " no consumer slot references its id\n"@
        } else {
            seq![]
        })
    }
}

/// The loaded-but-unwired section.
pub open spec fn unwired_section(c: WiringConfig) -> Seq<char> {
    "Loaded but unwired (warnings)\n"@ + unwired_lines(c, c.plugins@) + (if exists|i: int|
        0 <= i < c.plugins@.len() && unwired(c, #[trigger] c.plugins@[i]) {
        seq![]
    } else {
        "  (none)\n"@
    }) + "\n"@
}

/// The whole wiring report.
pub open spec fn wiring_report(c: WiringConfig) -> Seq<char> {
    "\n"@ + cluster_section(c) + slots_section(c) + plugins_section(c) + scheme_section(c)
        + unwired_section(c)
}

fn has_dot_str(s: &str) -> (r: bool)
    ensures
        r == has_dot(s@),
{
    let cs = chars_of(s);
    let i = find_char(&cs, 0, '.');
    assert(cs@.subrange(0, cs@.len() as int) =~= cs@);
    i < cs.len()
}

/// Adds `k` to a set of texts held without repeats, when it holds a `.`.
fn add_if_dotted(set: &mut Vec<String>, k: &str)
    requires
        forall|i: int, j: int| 0 <= i < j < old(set)@.len() ==> old(set)@[i]@ != old(set)@[j]@,
    ensures
        forall|i: int, j: int| 0 <= i < j < final(set)@.len() ==> final(set)@[i]@ != final(set)@[j]@,
        forall|x: Seq<char>| string_views(final(set)@).contains(x) <==> (string_views(old(set)@).contains(x) || (x == k@ && has_dot(k@))),
{
    proof {
        assert forall|x: Seq<char>| string_views(old(set)@).contains(x) <==> exists|i: int| 0 <= i < old(set)@.len() && old(set)@[i]@ == x by {
            if string_views(old(set)@).contains(x) {
                let i = choose|i: int| 0 <= i < string_views(old(set)@).len() && string_views(old(set)@)[i] == x;
                assert(old(set)@[i]@ == x);
            }
            if exists|i: int| 0 <= i < old(set)@.len() && old(set)@[i]@ == x {
                let i = choose|i: int| 0 <= i < old(set)@.len() && old(set)@[i]@ == x;
                assert(string_views(old(set)@)[i] == x);
            }
        }
    }
    let dotted = has_dot_str(k);
    if !dotted {
        return;
    }
    let n = set.len();
    let mut i: usize = 0;
    while i < n
        invariant
            n == set@.len(),
            set@ == old(set)@,
            i <= n,
            forall|a: int, b: int| 0 <= a < b < set@.len() ==> set@[a]@ != set@[b]@,
            forall|j: int| 0 <= j < i ==> set@[j]@ != k@,
        decreases n - i,
    {
        if str_eq(set[i].as_str(), k) {
            proof {
                assert(string_views(set@)[i as int] == k@);
            }
            return;
        }
        i = i + 1;
    }
    let t = text(k);
    let ghost before = set@;
    set.push(t);
    proof {
        assert(set@ == before.push(t));
        assert(string_views(set@) =~= string_views(before).push(k@));
        assert forall|x: Seq<char>| string_views(set@).contains(x) <==> (string_views(before).contains(x) || x == k@) by {
            if string_views(set@).contains(x) {
                let j = choose|j: int| 0 <= j < string_views(set@).len() && string_views(set@)[j] == x;
                if j < before.len() {
                    assert(string_views(before)[j] == x);
                }
            }
            if string_views(before).contains(x) {
                let j = choose|j: int| 0 <= j < string_views(before).len() && string_views(before)[j] == x;
                assert(string_views(set@)[j] == x);
            }
            if x == k@ {
                assert(string_views(set@)[before.len() as int] == x);
            }
        }
        assert(has_dot(k@));
        assert(before == old(set)@);
        assert forall|x: Seq<char>| string_views(set@).contains(x) <==> (string_views(old(set)@).contains(x) || (x == k@ && has_dot(k@))) by {
            assert(string_views(set@).contains(x) <==> (string_views(before).contains(x) || x == k@));
        }
    }
}


fn push_opt_kind<'a>(v: &mut Vec<&'a str>, s: &'a Option<KindSlot>)
    ensures
        str_views(final(v)@) == str_views(old(v)@) + opt_kind(*s),
{
    if let Some(k) = s {
        let ghost before = v@;
        v.push(k.kind.as_str());
        assert(str_views(v@) =~= str_views(before) + opt_kind(*s));
    } else {
        assert(str_views(v@) =~= str_views(old(v)@) + opt_kind(*s));
    }
}

fn push_all<'a>(v: &mut Vec<&'a str>, xs: &'a Vec<String>)
    ensures
        str_views(final(v)@) == str_views(old(v)@) + string_views(xs@),
{
    let ghost start = str_views(v@);
    let n = xs.len();
    let mut i: usize = 0;
    while i < n
        invariant
            n == xs@.len(),
            i <= n,
            str_views(v@) == start + string_views(xs@).subrange(0, i as int),
        decreases n - i,
    {
        let ghost before = v@;
        v.push(xs[i].as_str());
        assert(str_views(v@) =~= str_views(before).push(xs@[i as int]@));
        assert(string_views(xs@).subrange(0, i + 1) =~= string_views(xs@).subrange(0, i as int).push(xs@[i as int]@));
        i = i + 1;
    }
    assert(string_views(xs@).subrange(0, n as int) =~= string_views(xs@));
}

/// The `kind:` values of every consumer slot.
fn slot_kind_list(c: &WiringConfig) -> (r: Vec<&str>)
    ensures
        str_views(r@) == slot_kinds(*c),
{
    let mut v: Vec<&str> = Vec::new();
    push_opt_kind(&mut v, &c.sessions_store);
    push_opt_kind(&mut v, &c.pipelines_store);
    push_opt_kind(&mut v, &c.subscriptions_store);
    push_opt_kind(&mut v, &c.delivery_bus);
    push_opt_kind(&mut v, &c.cancellation_bus);
    if c.quotas_declared {
        let ghost before = v@;
        v.push(c.quotas_store.kind.as_str());
        assert(str_views(v@) =~= str_views(before).push(c.quotas_store.kind@));
    }
    push_all(&mut v, &c.audit_sinks);
    push_all(&mut v, &c.log_sinks);
    push_all(&mut v, &c.metric_sinks);
    push_all(&mut v, &c.trace_sinks);
    assert(str_views(v@) =~= slot_kinds(*c));
    v
}

/// The plugin ids that some consumer slot names: every slot `kind:` that
/// holds a `.`, each once.
pub fn referenced_plugin_ids(c: &WiringConfig) -> (r: Vec<String>)
    ensures
        forall|i: int, j: int| 0 <= i < j < r@.len() ==> r@[i]@ != r@[j]@,
        forall|x: Seq<char>| string_views(r@).contains(x) <==> referenced(*c, x),
{
    let kinds = slot_kind_list(c);
    let ghost kv = str_views(kinds@);
    let mut set: Vec<String> = Vec::new();
    let n = kinds.len();
    let mut i: usize = 0;
    while i < n
        invariant
            n == kinds@.len(),
            kv == str_views(kinds@),
            kv == slot_kinds(*c),
            i <= n,
            forall|a: int, b: int| 0 <= a < b < set@.len() ==> set@[a]@ != set@[b]@,
            forall|x: Seq<char>| #![trigger string_views(set@).contains(x)] string_views(set@).contains(x) <==> (kv.subrange(0, i as int).contains(x) && has_dot(x)),
        decreases n - i,
    {
        let k = kinds[i];
        let ghost old_set = set@;
        assert(forall|x: Seq<char>| #![trigger string_views(old_set).contains(x)] string_views(old_set).contains(x) <==> (kv.subrange(0, i as int).contains(x) && has_dot(x)));
        add_if_dotted(&mut set, k);
        proof {
            let sub = kv.subrange(0, i + 1);
            assert(sub =~= kv.subrange(0, i as int).push(k@));
            assert forall|x: Seq<char>| sub.contains(x) <==> (kv.subrange(0, i as int).contains(x) || x == k@) by {
                if sub.contains(x) {
                    let j = choose|j: int| 0 <= j < sub.len() && sub[j] == x;
                    if j < i {
                        assert(kv.subrange(0, i as int)[j] == x);
                    }
                }
                if kv.subrange(0, i as int).contains(x) {
                    let j = choose|j: int| 0 <= j < i && kv.subrange(0, i as int)[j] == x;
                    assert(sub[j] == x);
                }
                if x == k@ {
                    assert(sub[i as int] == x);
                }
            }
            assert forall|x: Seq<char>| string_views(set@).contains(x) <==> (sub.contains(x) && has_dot(x)) by {
                assert(string_views(set@).contains(x) <==> (string_views(old_set).contains(x) || (x == k@ && has_dot(k@))));
                assert(string_views(old_set).contains(x) <==> (kv.subrange(0, i as int).contains(x) && has_dot(x)));
                assert(sub.contains(x) <==> (kv.subrange(0, i as int).contains(x) || x == k@));
            }
        }
        i = i + 1;
    }
    assert(kv.subrange(0, n as int) =~= kv);
    assert forall|x: Seq<char>| string_views(set@).contains(x) <==> referenced(*c, x) by {
        assert(string_views(set@).contains(x) <==> (kv.subrange(0, n as int).contains(x) && has_dot(x)));
    }
    set
}

fn contains_text(set: &Vec<String>, x: &str) -> (r: bool)
    ensures
        r == string_views(set@).contains(x@),
{
    let n = set.len();
    let mut i: usize = 0;
    while i < n
        invariant
            n == set@.len(),
            i <= n,
            forall|j: int| 0 <= j < i ==> set@[j]@ != x@,
        decreases n - i,
    {
        if str_eq(set[i].as_str(), x) {
            assert(string_views(set@)[i as int] == x@);
            return true;
        }
        i = i + 1;
    }
    proof {
        if string_views(set@).contains(x@) {
            let j = choose|j: int| 0 <= j < string_views(set@).len() && string_views(set@)[j] == x@;
            assert(set@[j]@ == x@);
        }
    }
    false
}


fn render_cluster(c: &WiringConfig, out: &mut String)
    ensures
        final(out)@ == old(out)@ + cluster_section(*c),
{
    out.append("Cluster\n");
    out.append("  kind:                     ");
    out.append(c.cluster_kind.as_str());
    out.append("\n");
    out.append("  provides:                 ");
    if c.cluster_provides.len() == 0 {
        out.append("(none)");
    } else {
        let p = join_strings(&c.cluster_provides, ", ");
        out.append(p.as_str());
    }
    out.append("\n");
    out.append("\n");
    assert(out@ =~= old(out)@ + cluster_section(*c));
}

fn render_kind_ref_line(label: &str, slot: &KindSlot, cluster_kind: &str, out: &mut String)
    ensures
        final(out)@ == old(out)@ + kind_ref_line(label@, *slot, cluster_kind@),
{
    out.append("  ");
    append_padded(out, label, 46);
    out.append("  kind: ");
    append_padded(out, slot.kind.as_str(), 20);
    out.append(" → ");
    match &slot.resolution {
        Resolution::Builtin(name) => {
            out.append("builtin: ");
            out.append(name.as_str());
        },
        Resolution::Plugin(id) => {
            out.append("plugin: ");
            out.append(id.as_str());
        },
        Resolution::Cluster => {
            out.append("cluster (");
            out.append(cluster_kind);
            out.append(")");
        },
        Resolution::Unresolved(e) => {
            out.append("UNRESOLVED: ");
            out.append(e.as_str());
        },
    }
    out.append("\n");
    assert(out@ =~= old(out)@ + kind_ref_line(label@, *slot, cluster_kind@));
}

fn render_capability(label: &str, slot: &Option<KindSlot>, cluster_kind: &str, out: &mut String)
    ensures
        final(out)@ == old(out)@ + capability_line(label@, *slot, cluster_kind@),
{
    match slot {
        Some(s) => render_kind_ref_line(label, s, cluster_kind, out),
        None => {
            out.append("  ");
            append_padded(out, label, 46);
            out.append("  (default)\n");
            assert(out@ =~= old(out)@ + capability_line(label@, *slot, cluster_kind@));
        },
    }
}

fn render_sink_lines(prefix: &str, kinds: &Vec<String>, out: &mut String)
    ensures
        final(out)@ == old(out)@ + sink_lines(prefix@, string_views(kinds@)),
{
    let ghost start = out@;
    let ghost kv = string_views(kinds@);
    let n = kinds.len();
    let mut i: usize = 0;
    while i < n
        invariant
            n == kinds@.len(),
            kv == string_views(kinds@),
            i <= n,
            out@ == start + sink_lines(prefix@, kv.subrange(0, i as int)),
        decreases n - i,
    {
        let mut label = text(prefix);
        label.append("[");
        append_usize(&mut label, i);
        label.append("]");
        out.append("  ");
        append_padded(out, label.as_str(), 46);
        out.append("  kind: ");
        out.append(kinds[i].as_str());
        out.append("\n");
        proof {
            let sub = kv.subrange(0, i + 1);
            assert(sub.subrange(0, i as int) =~= kv.subrange(0, i as int));
            assert(sub[i as int] == kinds@[i as int]@);
            assert(out@ =~= start + sink_lines(prefix@, sub));
        }
        i = i + 1;
    }
    assert(kv.subrange(0, n as int) =~= kv);
}

fn render_capabilities(c: &WiringConfig, out: &mut String)
    ensures
        final(out)@ == old(out)@ + capability_lines(*c),
{
    let ck = c.cluster_kind.as_str();
    render_capability("mcp.configurations.sessions.store", &c.sessions_store, ck, out);
    render_capability("mcp.configurations.pipelines.store", &c.pipelines_store, ck, out);
    render_capability("mcp.configurations.subscriptions.store", &c.subscriptions_store, ck, out);
    render_capability("mcp.configurations.delivery.bus", &c.delivery_bus, ck, out);
    render_capability("mcp.configurations.cancellation.bus", &c.cancellation_bus, ck, out);
    assert(out@ =~= old(out)@ + capability_lines(*c));
}

fn render_all_sinks(c: &WiringConfig, out: &mut String)
    ensures
        final(out)@ == old(out)@ + all_sink_lines(*c),
{
    render_sink_lines("governance.audit.sinks", &c.audit_sinks, out);
    render_sink_lines("observability.logs.sinks", &c.log_sinks, out);
    render_sink_lines("observability.metrics.sinks", &c.metric_sinks, out);
    render_sink_lines("observability.traces.sinks", &c.trace_sinks, out);
    assert(out@ =~= old(out)@ + all_sink_lines(*c));
}

fn render_slots(c: &WiringConfig, out: &mut String)
    ensures
        final(out)@ == old(out)@ + slots_section(*c),
{
    out.append("Consumer slots\n");
    render_capabilities(c, out);
    let quota_shown = c.quotas_declared && c.quotas_store.kind.as_str().unicode_len() > 0;
    let ghost a = out@;
    if quota_shown {
        render_kind_ref_line("governance.quotas.store", &c.quotas_store, c.cluster_kind.as_str(), out);
    }
    let ghost b = out@;
    render_all_sinks(c, out);
    let printed = c.sessions_store.is_some() || c.pipelines_store.is_some()
        || c.subscriptions_store.is_some() || c.delivery_bus.is_some() || c.cancellation_bus.is_some()
        || quota_shown || c.audit_sinks.len() > 0 || c.log_sinks.len() > 0 || c.metric_sinks.len()
        > 0 || c.trace_sinks.len() > 0;
    assert(printed == any_slot(*c));
    if !printed {
        out.append("  (no consumer slots declared)\n");
    }
    out.append("\n");
    assert(out@ =~= old(out)@ + slots_section(*c));
}

fn render_plugin_line(p: &PluginEntry, out: &mut String)
    ensures
        final(out)@ == old(out)@ + plugin_line(*p),
{
    out.append("  ");
    append_padded(out, p.id.as_str(), 32);
    out.append(" class: ");
    append_padded(out, p.class.as_str(), 15);
    out.append(" ");
    if p.disabled {
        out.append("DISABLED");
    } else {
        out.append("enabled ");
    }
    out.append("\n");
    assert(out@ =~= old(out)@ + plugin_line(*p));
}

fn render_plugins(c: &WiringConfig, out: &mut String)
    ensures
        final(out)@ == old(out)@ + plugins_section(*c),
{
    out.append("Loaded plugins (");
    append_usize(out, c.plugins.len());
    out.append(")\n");
    let ghost start = out@;
    if c.plugins.len() == 0 {
        out.append("  (none)\n");
    } else {
        let n = c.plugins.len();
        let mut i: usize = 0;
        while i < n
            invariant
                n == c.plugins@.len(),
                i <= n,
                out@ == start + plugin_lines(c.plugins@.subrange(0, i as int)),
            decreases n - i,
        {
            let p = &c.plugins[i];
            render_plugin_line(p, out);
            proof {
                let sub = c.plugins@.subrange(0, i + 1);
                assert(sub.subrange(0, i as int) =~= c.plugins@.subrange(0, i as int));
                assert(sub[i as int] == *p);
                assert(out@ =~= start + plugin_lines(sub));
            }
            i = i + 1;
        }
        assert(c.plugins@.subrange(0, n as int) =~= c.plugins@);
    }
    out.append("\n");
    assert(out@ =~= old(out)@ + plugins_section(*c));
}

fn render_schemes(c: &WiringConfig, out: &mut String)
    ensures
        final(out)@ == old(out)@ + scheme_section(*c),
{
    out.append("Plugin scheme claims\n");
    let ghost start = out@;
    let mut any = false;
    let n = c.plugins.len();
    let mut i: usize = 0;
    while i < n
        invariant
            n == c.plugins@.len(),
            i <= n,
            out@ == start + scheme_lines(c.plugins@.subrange(0, i as int)),
            any == exists|j: int| 0 <= j < i && claims_schemes(#[trigger] c.plugins@[j]),
        decreases n - i,
    {
        let p = &c.plugins[i];
        let claims = !p.disabled && (str_eq(p.class.as_str(), "secret") || str_eq(
            p.class.as_str(),
            "config",
        ));
        if claims {
            out.append("  ");
            append_padded(out, p.id.as_str(), 32);
            out.append(" (schemes resolved at gateway boot from supported_schemes())\n");
            any = true;
        }
        proof {
            let sub = c.plugins@.subrange(0, i + 1);
            assert(sub.subrange(0, i as int) =~= c.plugins@.subrange(0, i as int));
            assert(sub[i as int] == *p);
            assert(out@ =~= start + scheme_lines(sub));
            if claims {
                assert(claims_schemes(c.plugins@[i as int]));
            }
        }
        i = i + 1;
    }
    assert(c.plugins@.subrange(0, n as int) =~= c.plugins@);
    if !any {
        out.append("  (none — scheme-routing wires through in P8 follow-up)\n");
    }
    out.append("\n");
    assert(out@ =~= old(out)@ + scheme_section(*c));
}

fn render_unwired(c: &WiringConfig, out: &mut String)
    ensures
        final(out)@ == old(out)@ + unwired_section(*c),
{
    out.append("Loaded but unwired (warnings)\n");
    let refs = referenced_plugin_ids(c);
    let ghost start = out@;
    let mut warned = false;
    let n = c.plugins.len();
    let mut i: usize = 0;
    while i < n
        invariant
            n == c.plugins@.len(),
            i <= n,
            forall|x: Seq<char>| string_views(refs@).contains(x) <==> referenced(*c, x),
            out@ == start + unwired_lines(*c, c.plugins@.subrange(0, i as int)),
            warned == exists|j: int| 0 <= j < i && unwired(*c, #[trigger] c.plugins@[j]),
        decreases n - i,
    {
        let p = &c.plugins[i];
        let cl = p.class.as_str();
        let implicit = str_eq(cl, "http_route") || str_eq(cl, "identity_provider") || str_eq(
            cl,
            "tool_gate",
        ) || str_eq(cl, "transform") || str_eq(cl, "backend");
        let warn = !p.disabled && !implicit && !contains_text(&refs, p.id.as_str());
        if warn {
            out.append("  ");
            append_padded(out, p.id.as_str(), 32);
            out.append(" class: ");
            append_padded(out, cl, 15);
            out.append(" no consumer slot references its id\n");
            warned = true;
        }
        proof {
            let sub = c.plugins@.subrange(0, i + 1);
            assert(sub.subrange(0, i as int) =~= c.plugins@.subrange(0, i as int));
            assert(sub[i as int] == *p);
            assert(warn == unwired(*c, *p));
            assert(out@ =~= start + unwired_lines(*c, sub));
            if warn {
                assert(unwired(*c, c.plugins@[i as int]));
            }
        }
        i = i + 1;
    }
    assert(c.plugins@.subrange(0, n as int) =~= c.plugins@);
    if !warned {
        out.append("  (none)\n");
    }
    out.append("\n");
    assert(out@ =~= old(out)@ + unwired_section(*c));
}

/// The wiring report of a configuration: its cluster, each consumer slot
/// and what it resolved to, the loaded plugins, which of them claim URI
/// schemes, and which nothing references.
pub fn render_wiring_report(c: &WiringConfig) -> (r: String)
    ensures
        r@ == wiring_report(*c),
{
    let mut out = text("\n");
    render_cluster(c, &mut out);
    render_slots(c, &mut out);
    render_plugins(c, &mut out);
    render_schemes(c, &mut out);
    render_unwired(c, &mut out);
    assert(out@ =~= wiring_report(*c));
    out
}

/// Only an enabled plugin whose class needs a consumer slot, and whose id no
/// slot's `kind:` names, is reported as loaded but unwired; and a report
/// with such a plugin never says `(none)` in that section.
pub proof fn law_unwired_warnings(c: WiringConfig, i: int)
    requires
        0 <= i < c.plugins@.len(),
    ensures
        c.plugins@[i].disabled ==> !unwired(c, c.plugins@[i]),
        implicit_class(c.plugins@[i].class@) ==> !unwired(c, c.plugins@[i]),
        slot_kinds(c).contains(c.plugins@[i].id@) && has_dot(c.plugins@[i].id@) ==> !unwired(
            c,
            c.plugins@[i],
        ),
        unwired(c, c.plugins@[i]) ==> unwired_section(c) == "Loaded but unwired (warnings)\n"@
            + unwired_lines(c, c.plugins@) + "\n"@,
{
}

pub open spec fn claims_pred() -> spec_fn(PluginEntry) -> bool {
    |p: PluginEntry| claims_schemes(p)
}

pub open spec fn unwired_pred(c: WiringConfig) -> spec_fn(PluginEntry) -> bool {
    |p: PluginEntry| unwired(c, p)
}

/// The scheme-claim line of each plugin, in order.
pub open spec fn claim_lines(ps: Seq<PluginEntry>) -> Seq<char>
    decreases ps.len(),
{
    if ps.len() == 0 {
        seq![]
    } else {
        claim_lines(ps.drop_last()) + "  "@ + pad_right(ps.last().id@, 32)
            + " (schemes resolved at gateway boot from supported_schemes())\n"@
    }
}

/// The unwired-warning line of each plugin, in order.
pub open spec fn warning_lines(ps: Seq<PluginEntry>) -> Seq<char>
    decreases ps.len(),
{
    if ps.len() == 0 {
        seq![]
    } else {
        warning_lines(ps.drop_last()) + "  "@ + pad_right(ps.last().id@, 32) + " class: "@
            + pad_right(ps.last().class@, 15) + " no consumer slot references its id\n"@
    }
}

proof fn lemma_filter_any(ps: Seq<PluginEntry>, pred: spec_fn(PluginEntry) -> bool)
    ensures
        ps.filter(pred).len() > 0 <==> exists|i: int| 0 <= i < ps.len() && pred(#[trigger] ps[i]),
    decreases ps.len(),
{
    reveal(Seq::filter);
    if ps.len() > 0 {
        let init = ps.drop_last();
        lemma_filter_any(init, pred);
        if exists|i: int| 0 <= i < init.len() && pred(#[trigger] init[i]) {
            let i = choose|i: int| 0 <= i < init.len() && pred(#[trigger] init[i]);
            assert(ps[i] == init[i]);
        }
        if exists|i: int| 0 <= i < ps.len() && pred(#[trigger] ps[i]) {
            let i = choose|i: int| 0 <= i < ps.len() && pred(#[trigger] ps[i]);
            if i < ps.len() - 1 {
                assert(init[i] == ps[i]);
            }
        }
    }
}

proof fn lemma_scheme_lines_filter(ps: Seq<PluginEntry>)
    ensures
        scheme_lines(ps) == claim_lines(ps.filter(claims_pred())),
    decreases ps.len(),
{
    reveal(Seq::filter);
    if ps.len() > 0 {
        let init = ps.drop_last();
        assert(init =~= ps.subrange(0, ps.len() - 1));
        lemma_scheme_lines_filter(init);
        let f = init.filter(claims_pred());
        if claims_schemes(ps.last()) {
            assert(f.push(ps.last()).drop_last() =~= f);
        }
    }
}

proof fn lemma_unwired_lines_filter(c: WiringConfig, ps: Seq<PluginEntry>)
    ensures
        unwired_lines(c, ps) == warning_lines(ps.filter(unwired_pred(c))),
    decreases ps.len(),
{
    reveal(Seq::filter);
    if ps.len() > 0 {
        let init = ps.drop_last();
        assert(init =~= ps.subrange(0, ps.len() - 1));
        lemma_unwired_lines_filter(c, init);
        let f = init.filter(unwired_pred(c));
        if unwired(c, ps.last()) {
            assert(f.push(ps.last()).drop_last() =~= f);
        }
    }
}

/// The scheme-claims section lists, in order, exactly the enabled secret and
/// config plugins, and shows its none-line exactly when there are none; the
/// unwired section lists, in order, exactly the unwired plugins, and shows
/// `(none)` exactly when there are none.
pub proof fn law_plugin_sections(c: WiringConfig)
    ensures
        scheme_section(c) == "Plugin scheme claims\n"@ + claim_lines(c.plugins@.filter(claims_pred()))
            + (if c.plugins@.filter(claims_pred()).len() > 0 {
            seq![]
        } else {
            "  (none — scheme-routing wires through in P8 follow-up)\n"@
        }) + "\n"@,
        unwired_section(c) == "Loaded but unwired (warnings)\n"@ + warning_lines(
            c.plugins@.filter(unwired_pred(c)),
        ) + (if c.plugins@.filter(unwired_pred(c)).len() > 0 {
            seq![]
        } else {
            "  (none)\n"@
        }) + "\n"@,
{
    let ps = c.plugins@;
    lemma_scheme_lines_filter(ps);
    lemma_unwired_lines_filter(c, ps);
    lemma_filter_any(ps, claims_pred());
    lemma_filter_any(ps, unwired_pred(c));
    assert((exists|i: int| 0 <= i < ps.len() && claims_pred()(#[trigger] ps[i])) <==> (exists|i: int|
        0 <= i < ps.len() && claims_schemes(#[trigger] ps[i])));
    assert((exists|i: int| 0 <= i < ps.len() && unwired_pred(c)(#[trigger] ps[i])) <==> (exists|i: int|
        0 <= i < ps.len() && unwired(c, #[trigger] ps[i])));
}

proof fn lemma_plugin_lines_join(a: Seq<PluginEntry>, b: Seq<PluginEntry>)
    ensures
        plugin_lines(a + b) == plugin_lines(a) + plugin_lines(b),
    decreases b.len(),
{
    if b.len() == 0 {
        assert(a + b =~= a);
        assert(plugin_lines(a) + plugin_lines(b) =~= plugin_lines(a));
    } else {
        let bi = b.subrange(0, b.len() - 1);
        lemma_plugin_lines_join(a, bi);
        assert((a + b).subrange(0, (a + b).len() - 1) =~= a + bi);
        assert((a + b)[(a + b).len() - 1] == b[b.len() - 1]);
        assert(plugin_lines(a + b) =~= plugin_lines(a) + plugin_lines(b));
    }
}

/// The loaded-plugins section gives the number of plugins, then `(none)`
/// when there are none, else one line per plugin in order: its id, its
/// class, and `DISABLED` exactly when it is disabled (else `enabled `).
pub proof fn law_plugins_section(c: WiringConfig, i: int)
    ensures
        c.plugins@.len() == 0 ==> plugins_section(c) == "Loaded plugins (0)\n  (none)\n\n"@,
        c.plugins@.len() > 0 ==> plugins_section(c) == "Loaded plugins ("@ + nat_text(c.plugins@.len())
            + ")\n"@ + plugin_lines(c.plugins@) + "\n"@,
        0 <= i < c.plugins@.len() ==> plugin_lines(c.plugins@) == plugin_lines(c.plugins@.subrange(0, i))
            + plugin_line(c.plugins@[i]) + plugin_lines(c.plugins@.subrange(i + 1, c.plugins@.len() as int)),
        0 <= i < c.plugins@.len() ==> plugin_line(c.plugins@[i]) == "  "@ + pad_right(c.plugins@[i].id@, 32)
            + " class: "@ + pad_right(c.plugins@[i].class@, 15) + " "@ + (if c.plugins@[i].disabled {
            "DISABLED"@
        } else {
            "enabled "@
        }) + "\n"@,
{
    let ps = c.plugins@;
    if 0 <= i < ps.len() {
        let a = ps.subrange(0, i);
        let m = seq![ps[i]];
        let b = ps.subrange(i + 1, ps.len() as int);
        assert(ps =~= a + m + b);
        lemma_plugin_lines_join(a + m, b);
        lemma_plugin_lines_join(a, m);
        assert(m.subrange(0, 0) =~= Seq::<PluginEntry>::empty());
        assert(plugin_lines(Seq::<PluginEntry>::empty()) == Seq::<char>::empty());
        assert(plugin_lines(m) =~= plugin_line(ps[i]));
    }
    if ps.len() == 0 {
        reveal_strlit("Loaded plugins (");
        reveal_strlit(")\n");
        reveal_strlit("  (none)\n");
        reveal_strlit("\n");
        reveal_strlit("Loaded plugins (0)\n  (none)\n\n");
        assert(nat_text(0) == seq!['0']);
        assert(plugins_section(c) =~= "Loaded plugins (0)\n  (none)\n\n"@);
    }
}

/// The consumer-slots section: each unset store or bus slot still gets a
/// `(default)` line; the `(no consumer slots declared)` line comes exactly
/// when no store or bus is set, no quota store with a kind is declared and
/// every sink list is empty, and then nothing else follows the five
/// default lines.
pub proof fn law_no_slots_line(c: WiringConfig)
    ensures
        forall|label: Seq<char>| #[trigger] capability_line(label, None, c.cluster_kind@) == "  "@
            + pad_right(label, 46) + "  (default)\n"@,
        !any_slot(c) <==> (c.sessions_store is None && c.pipelines_store is None
            && c.subscriptions_store is None && c.delivery_bus is None && c.cancellation_bus is None
            && !(c.quotas_declared && c.quotas_store.kind@.len() > 0) && c.audit_sinks@.len() == 0
            && c.log_sinks@.len() == 0 && c.metric_sinks@.len() == 0 && c.trace_sinks@.len() == 0),
        !any_slot(c) ==> slots_section(c) == "Consumer slots\n"@ + capability_lines(c)
            + "  (no consumer slots declared)\n"@ + "\n"@,
        any_slot(c) ==> slots_section(c) == "Consumer slots\n"@ + capability_lines(c) + (if quota_shown(
            c,
        ) {
            kind_ref_line("governance.quotas.store"@, c.quotas_store, c.cluster_kind@)
        } else {
            seq![]
        }) + all_sink_lines(c) + "\n"@,
{
    if !any_slot(c) {
        assert(string_views(c.audit_sinks@) =~= Seq::<Seq<char>>::empty());
        assert(string_views(c.log_sinks@) =~= Seq::<Seq<char>>::empty());
        assert(string_views(c.metric_sinks@) =~= Seq::<Seq<char>>::empty());
        assert(string_views(c.trace_sinks@) =~= Seq::<Seq<char>>::empty());
        assert(all_sink_lines(c) =~= Seq::<char>::empty());
        assert(slots_section(c) =~= "Consumer slots\n"@ + capability_lines(c)
            + "  (no consumer slots declared)\n"@ + "\n"@);
    } else {
        assert(slots_section(c) =~= "Consumer slots\n"@ + capability_lines(c) + (if quota_shown(c) {
            kind_ref_line("governance.quotas.store"@, c.quotas_store, c.cluster_kind@)
        } else {
            seq![]
        }) + all_sink_lines(c) + "\n"@);
    }
}

proof fn lemma_contains_join(a: Seq<Seq<char>>, b: Seq<Seq<char>>, x: Seq<char>)
    ensures
        (a + b).contains(x) <==> (a.contains(x) || b.contains(x)),
{
    if (a + b).contains(x) {
        let i = choose|i: int| 0 <= i < (a + b).len() && (a + b)[i] == x;
        if i < a.len() {
            assert(a[i] == x);
        } else {
            assert(b[i - a.len()] == x);
        }
    }
    if a.contains(x) {
        let i = choose|i: int| 0 <= i < a.len() && a[i] == x;
        assert((a + b)[i] == x);
    }
    if b.contains(x) {
        let i = choose|i: int| 0 <= i < b.len() && b[i] == x;
        assert((a + b)[a.len() + i] == x);
    }
}

proof fn lemma_views_contain(v: Seq<String>, x: Seq<char>)
    ensures
        string_views(v).contains(x) <==> exists|i: int| 0 <= i < v.len() && (#[trigger] v[i])@ == x,
{
    if string_views(v).contains(x) {
        let i = choose|i: int| 0 <= i < string_views(v).len() && string_views(v)[i] == x;
        assert(v[i]@ == x);
    }
    if exists|i: int| 0 <= i < v.len() && (#[trigger] v[i])@ == x {
        let i = choose|i: int| 0 <= i < v.len() && (#[trigger] v[i])@ == x;
        assert(string_views(v)[i] == x);
    }
}

/// Whether an optional slot is set to this kind.
pub open spec fn slot_is(s: Option<KindSlot>, x: Seq<char>) -> bool {
    s is Some && s->0.kind@ == x
}

/// Whether some entry of a sink list has this kind.
pub open spec fn some_sink_is(v: Seq<String>, x: Seq<char>) -> bool {
    exists|i: int| 0 <= i < v.len() && (#[trigger] v[i])@ == x
}

/// A plugin id is referenced exactly when it holds a `.` and is the kind of
/// some consumer slot: one of the five store or bus slots, the quota store
/// when quotas are declared, or any audit, logs, metrics or traces sink. A
/// referenced enabled plugin is never reported as loaded but unwired.
pub proof fn law_referenced_ids(c: WiringConfig, x: Seq<char>)
    ensures
        referenced(c, x) <==> x.contains('.') && (slot_is(c.sessions_store, x) || slot_is(
            c.pipelines_store,
            x,
        ) || slot_is(c.subscriptions_store, x) || slot_is(c.delivery_bus, x) || slot_is(
            c.cancellation_bus,
            x,
        ) || (c.quotas_declared && c.quotas_store.kind@ == x) || some_sink_is(c.audit_sinks@, x)
            || some_sink_is(c.log_sinks@, x) || some_sink_is(c.metric_sinks@, x) || some_sink_is(
            c.trace_sinks@,
            x,
        )),
        forall|i: int| 0 <= i < c.plugins@.len() && #[trigger] c.plugins@[i].id@ == x && referenced(c, x)
            ==> !unwired(c, c.plugins@[i]),
{
    lemma_char_index(x, '.');
    assert(has_dot(x) <==> x.contains('.')) by {
        if x.contains('.') {
            let i = choose|i: int| 0 <= i < x.len() && x[i] == '.';
        }
    }
    let q: Seq<Seq<char>> = if c.quotas_declared { seq![c.quotas_store.kind@] } else { seq![] };
    let a = opt_kind(c.sessions_store);
    let b = opt_kind(c.pipelines_store);
    let d = opt_kind(c.subscriptions_store);
    let e = opt_kind(c.delivery_bus);
    let f = opt_kind(c.cancellation_bus);
    let s1 = string_views(c.audit_sinks@);
    let s2 = string_views(c.log_sinks@);
    let s3 = string_views(c.metric_sinks@);
    let s4 = string_views(c.trace_sinks@);
    assert(slot_kinds(c) == a + b + d + e + f + q + s1 + s2 + s3 + s4);
    lemma_contains_join(a + b + d + e + f + q + s1 + s2 + s3, s4, x);
    lemma_contains_join(a + b + d + e + f + q + s1 + s2, s3, x);
    lemma_contains_join(a + b + d + e + f + q + s1, s2, x);
    lemma_contains_join(a + b + d + e + f + q, s1, x);
    lemma_contains_join(a + b + d + e + f, q, x);
    lemma_contains_join(a + b + d + e, f, x);
    lemma_contains_join(a + b + d, e, x);
    lemma_contains_join(a + b, d, x);
    lemma_contains_join(a, b, x);
    lemma_views_contain(c.audit_sinks@, x);
    lemma_views_contain(c.log_sinks@, x);
    lemma_views_contain(c.metric_sinks@, x);
    lemma_views_contain(c.trace_sinks@, x);
    assert(a.contains(x) <==> slot_is(c.sessions_store, x)) by {
        if a.contains(x) {
            assert(a[0] == x);
        }
        if slot_is(c.sessions_store, x) {
            assert(a[0] == x);
        }
    }
    assert(b.contains(x) <==> slot_is(c.pipelines_store, x)) by {
        if b.contains(x) {
            assert(b[0] == x);
        }
        if slot_is(c.pipelines_store, x) {
            assert(b[0] == x);
        }
    }
    assert(d.contains(x) <==> slot_is(c.subscriptions_store, x)) by {
        if d.contains(x) {
            assert(d[0] == x);
        }
        if slot_is(c.subscriptions_store, x) {
            assert(d[0] == x);
        }
    }
    assert(e.contains(x) <==> slot_is(c.delivery_bus, x)) by {
        if e.contains(x) {
            assert(e[0] == x);
        }
        if slot_is(c.delivery_bus, x) {
            assert(e[0] == x);
        }
    }
    assert(f.contains(x) <==> slot_is(c.cancellation_bus, x)) by {
        if f.contains(x) {
            assert(f[0] == x);
        }
        if slot_is(c.cancellation_bus, x) {
            assert(f[0] == x);
        }
    }
    assert(q.contains(x) <==> (c.quotas_declared && c.quotas_store.kind@ == x)) by {
        if q.contains(x) {
            assert(q[0] == x);
        }
        if c.quotas_declared && c.quotas_store.kind@ == x {
            assert(q[0] == x);
        }
    }
}

/// Which plugins the report treats specially, by class: an enabled
/// `secret` or `config` plugin claims URI schemes; `http_route`,
/// `identity_provider`, `tool_gate`, `transform` and `backend` plugins
/// register without a slot and are never warned about; a disabled plugin
/// neither claims schemes nor is warned about.
pub proof fn law_plugin_classes(c: WiringConfig, p: PluginEntry)
    ensures
        claims_schemes(p) <==> !p.disabled && (p.class@ == "secret"@ || p.class@ == "config"@),
        (p.class@ == "http_route"@ || p.class@ == "identity_provider"@ || p.class@ == "tool_gate"@
            || p.class@ == "transform"@ || p.class@ == "backend"@) ==> !unwired(c, p),
        p.disabled ==> !unwired(c, p) && !claims_schemes(p),
        !p.disabled && !implicit_class(p.class@) && !p.id@.contains('.') ==> unwired(c, p),
{
    lemma_char_index(p.id@, '.');
    if char_index(p.id@, '.') is Some {
        let i = char_index(p.id@, '.')->0;
        assert(p.id@[i] == '.');
    }
}

/// A slot with a `kind:` is listed by its label and kind, each padded, then
/// what the kind resolved to: `builtin: <name>`, `plugin: <id>`,
/// `cluster (<cluster kind>)` or `UNRESOLVED: <reason>`; an unset slot
/// reads `(default)`; a sink reads its kind alone.
pub proof fn law_slot_lines(label: Seq<char>, slot: KindSlot, ck: Seq<char>, kind: Seq<char>)
    ensures
        kind_ref_line(label, slot, ck) == "  "@ + pad_right(label, 46) + "  kind: "@ + pad_right(slot.kind@, 20)
            + " → "@ + resolution_text(slot.resolution, ck) + "\n"@,
        slot.resolution matches Resolution::Builtin(n) ==> resolution_text(slot.resolution, ck) == "builtin: "@
            + n@,
        slot.resolution matches Resolution::Plugin(id) ==> resolution_text(slot.resolution, ck) == "plugin: "@
            + id@,
        slot.resolution is Cluster ==> resolution_text(slot.resolution, ck) == "cluster ("@ + ck + ")"@,
        slot.resolution matches Resolution::Unresolved(e) ==> resolution_text(slot.resolution, ck)
            == "UNRESOLVED: "@ + e@,
        capability_line(label, None, ck) == "  "@ + pad_right(label, 46) + "  (default)\n"@,
        capability_line(label, Some(slot), ck) == kind_ref_line(label, slot, ck),
        sink_line(label, kind) == "  "@ + pad_right(label, 46) + "  kind: "@ + kind + "\n"@,
{
}

} // verus!
