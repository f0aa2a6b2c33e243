//! Reading the `secrets` command's arguments, merging its configuration
//! layers, and the report of the secret references found in them.
use vstd::prelude::*;
use crate::json::{Json, JsonView, jview, json_size, entries_view, lemma_entries_view, lemma_object_entry_smaller, key_pos, lemma_key_pos};
use crate::schema::{lemma_view_push, lemma_view_update, keys_distinct};
use crate::text::{seq_le, lemma_lt_irreflexive, lemma_lt_total, lemma_lt_transitive, str_eq, text, chars_of, seq_lt, str_lt, nat_text, append_usize, pad_right, append_padded, string_views};

verus! {

/// Usage of the `secrets` command.
pub const USAGE: &'static str = "\
mcpg config secrets — list every secret reference a config will resolve at boot

USAGE:
    mcpg config secrets <config.yaml> [<override.yaml> ...]
    mcpg config secrets --json <config.yaml> [...]

OPTIONS:
    --json    Emit machine-readable JSON instead of the pretty table.
    -h, --help  Print this message.

NOTES:
    Multiple files merge in argument order with later-wins semantics
    (matches `MCPG_CONFIG=a.yaml:b.yaml` at runtime). Does NOT apply
    `MCPG_*` env-var overrides — the scanner inspects the files as
    written.

EXIT CODES:
    0 — scan succeeded
    2 — usage or I/O error
";

/// What the arguments of `secrets` ask for.
#[derive(Debug, PartialEq, Eq)]
pub enum SecretsArgs {
    /// Print the usage and succeed.
    Help,
    /// Print this message to standard error and fail with exit code 2.
    Invalid(String),
    /// Scan these files, merged in this order; `json` asks for JSON output.
    Scan { json: bool, paths: Vec<String> },
}

/// Whether a text starts with `-`.
pub open spec fn is_option(a: Seq<char>) -> bool {
    a.len() > 0 && a[0] == '-'
}

/// The index of the first argument that is `-h`/`--help` or an option other
/// than `--json`, if any.
pub open spec fn first_stop(args: Seq<Seq<char>>) -> Option<int>
    decreases args.len(),
{
    if args.len() == 0 {
        None
    } else if args[0] == "-h"@ || args[0] == "--help"@ || (args[0] != "--json"@ && is_option(
        args[0],
    )) {
        Some(0)
    } else {
        match first_stop(args.subrange(1, args.len() as int)) {
            Some(i) => Some(i + 1),
            None => None,
        }
    }
}

/// The arguments that are neither options nor `--json`, in order.
pub open spec fn path_args(args: Seq<Seq<char>>) -> Seq<Seq<char>>
    decreases args.len(),
{
    if args.len() == 0 {
        seq![]
    } else {
        let rest = path_args(args.subrange(0, args.len() - 1));
        let a = args[args.len() - 1];
        if a == "--json"@ || is_option(a) {
            rest
        } else {
            rest.push(a)
        }
    }
}

/// The outcome of reading the arguments, as the command decides it: no
/// arguments is a usage error; arguments are read in order, and the first
/// help flag or unknown option decides; otherwise at least one file must be
/// named.
pub open spec fn secrets_args_spec(args: Seq<Seq<char>>) -> Result<(bool, Seq<Seq<char>>), Option<Seq<char>>> {
    if args.len() == 0 {
        Err(Some(USAGE@))
    } else {
        match first_stop(args) {
            Some(i) => if args[i] == "-h"@ || args[i] == "--help"@ {
                Err(None)
            } else {
                Err(Some("error: unknown option: "@ + args[i] + "\n\n"@ + USAGE@))
            },
            None => if path_args(args).len() == 0 {
                Err(Some("error: no config files specified\n\n"@ + USAGE@))
            } else {
                Ok((args.contains("--json"@), path_args(args)))
            },
        }
    }
}

pub open spec fn secrets_args_view(a: SecretsArgs) -> Result<(bool, Seq<Seq<char>>), Option<Seq<char>>> {
    match a {
        SecretsArgs::Help => Err(None),
        SecretsArgs::Invalid(m) => Err(Some(m@)),
        SecretsArgs::Scan { json, paths } => Ok((json, string_views(paths@))),
    }
}

/// Reads the arguments of `secrets`.
pub fn secrets_args(args: &Vec<String>) -> (r: SecretsArgs)
    ensures
        secrets_args_view(r) == secrets_args_spec(string_views(args@)),
{
    let ghost av = string_views(args@);
    if args.len() == 0 {
        return SecretsArgs::Invalid(text(USAGE));
    }
    let mut json = false;
    let mut paths: Vec<String> = Vec::new();
    let n = args.len();
    let mut i: usize = 0;
    while i < n
        invariant
            n == args@.len(),
            av == string_views(args@),
            i <= n,
            first_stop(av.subrange(0, i as int)) is None,
            json == av.subrange(0, i as int).contains("--json"@),
            string_views(paths@) == path_args(av.subrange(0, i as int)),
        decreases n - i,
    {
        let a = args[i].as_str();
        let ghost sub = av.subrange(0, i + 1);
        proof {
            assert(sub.subrange(0, i as int) =~= av.subrange(0, i as int));
            assert(sub[i as int] == a@);
            lemma_first_stop_push(av.subrange(0, i as int), a@);
            assert(av.subrange(0, i as int).push(a@) =~= sub);
        }
        if str_eq(a, "-h") || str_eq(a, "--help") {
            proof {
                lemma_first_stop_prefix(av, i as int);
            }
            return SecretsArgs::Help;
        }
        if str_eq(a, "--json") {
            json = true;
        } else {
            let cs = chars_of(a);
            if cs.len() > 0 && cs[0] == '-' {
                proof {
                    lemma_first_stop_prefix(av, i as int);
                }
                let mut m = text("error: unknown option: ");
                m.append(a);
                m.append("\n\n");
                m.append(USAGE);
                return SecretsArgs::Invalid(m);
            }
            paths.push(text(a));
        }
        proof {
            assert(sub.contains("--json"@) == (av.subrange(0, i as int).contains("--json"@) || a@ == "--json"@)) by {
                if a@ == "--json"@ {
                    assert(sub[i as int] == "--json"@);
                }
                if sub.contains("--json"@) {
                    let k = choose|k: int| 0 <= k < sub.len() && sub[k] == "--json"@;
                    if k < i {
                        assert(av.subrange(0, i as int)[k] == "--json"@);
                    }
                }
            }
            assert(string_views(paths@) =~= path_args(sub));
        }
        i = i + 1;
    }
    assert(av.subrange(0, n as int) =~= av);
    if paths.len() == 0 {
        let mut m = text("error: no config files specified\n\n");
        m.append(USAGE);
        return SecretsArgs::Invalid(m);
    }
    SecretsArgs::Scan { json, paths }
}

proof fn lemma_first_stop_push(s: Seq<Seq<char>>, a: Seq<char>)
    requires
        first_stop(s) is None,
    ensures
        first_stop(s.push(a)) == (if a == "-h"@ || a == "--help"@ || (a != "--json"@ && is_option(
            a,
        )) {
            Some(s.len() as int)
        } else {
            None::<int>
        }),
    decreases s.len(),
{
    let t = s.push(a);
    if s.len() > 0 {
        assert(t[0] == s[0]);
        assert(t.subrange(1, t.len() as int) =~= s.subrange(1, s.len() as int).push(a));
        lemma_first_stop_push(s.subrange(1, s.len() as int), a);
    } else {
        assert(t[0] == a);
        assert(t.subrange(1, t.len() as int) =~= Seq::<Seq<char>>::empty());
        assert(first_stop(Seq::<Seq<char>>::empty()) is None);
    }
}

proof fn lemma_first_stop_range(s: Seq<Seq<char>>)
    ensures
        first_stop(s) matches Some(i) ==> 0 <= i < s.len(),
    decreases s.len(),
{
    if s.len() > 0 {
        lemma_first_stop_range(s.subrange(1, s.len() as int));
    }
}

/// A stop found at `i` of a prefix is the stop of the whole run.
proof fn lemma_first_stop_prefix(s: Seq<Seq<char>>, i: int)
    requires
        0 <= i < s.len(),
        first_stop(s.subrange(0, i + 1)) == Some(i),
    ensures
        first_stop(s) == Some(i),
    decreases i,
{
    let p = s.subrange(0, i + 1);
    assert(p[0] == s[0]);
    lemma_first_stop_range(p.subrange(1, p.len() as int));
    if i > 0 {
        let a = s[0];
        assert(!(a == "-h"@ || a == "--help"@ || (a != "--json"@ && is_option(a))));
        assert(p.subrange(1, p.len() as int) =~= s.subrange(1, s.len() as int).subrange(0, i));
        lemma_first_stop_prefix(s.subrange(1, s.len() as int), i - 1);
        assert(first_stop(s.subrange(1, s.len() as int)) == Some(i - 1));
    }
}


/// `src` laid over `dst`: objects merge field by field, keys new to `dst`
/// are appended; arrays and scalars replace what was there.
pub open spec fn merged(d: JsonView, s: JsonView) -> JsonView
    decreases s,
{
    match d {
        JsonView::Object(de) => match s {
            JsonView::Object(se) => JsonView::Object(merge_entries(de, se)),
            _ => s,
        },
        _ => s,
    }
}

/// Lays the entries of `se` over `de`, in order.
pub open spec fn merge_entries(de: Seq<(Seq<char>, JsonView)>, se: Seq<(Seq<char>, JsonView)>) -> Seq<
    (Seq<char>, JsonView),
>
    decreases se,
{
    if se.len() == 0 {
        de
    } else {
        merge_entries(merge_one(de, se[0]), se.subrange(1, se.len() as int))
    }
}

/// Lays one entry over `de`: merged into the entry with its key, or added.
pub open spec fn merge_one(de: Seq<(Seq<char>, JsonView)>, x: (Seq<char>, JsonView)) -> Seq<
    (Seq<char>, JsonView),
>
    decreases x,
{
    match key_pos(de, x.0) {
        Some(i) => de.update(i, (de[i].0, merged(de[i].1, x.1))),
        None => de.push(x),
    }
}

/// Merges the layer `src` into `dst` (later wins): objects merge field by
/// field, recursively; arrays and scalars replace wholesale.
pub fn deep_merge(dst: Json, src: Json) -> (r: Json)
    ensures
        r@ == merged(dst@, src@),
    decreases json_size(src),
{
    let ghost s0 = src;
    match dst {
        Json::Object(de) => match src {
            Json::Object(se) => {
                let ghost se0 = se@;
                let ghost sev = entries_view(se0);
                proof {
                    lemma_entries_view(se0);
                    assert forall|j: int| 0 <= j < se0.len() implies #[trigger] json_size(se0[j].1)
                        < json_size(s0) by {
                        lemma_object_entry_smaller(se, j);
                    }
                }
                let mut out = de;
                let ghost dev0 = entries_view(out@);
                let mut rest = se;
                let n = rest.len();
                let mut i: usize = 0;
                assert(sev.subrange(0, n as int) =~= sev);
                while i < n
                    invariant
                        n == se0.len(),
                        i <= n,
                        s0 == src,
                        rest@ == se0.subrange(i as int, n as int),
                        forall|j: int| 0 <= j < n ==> #[trigger] json_size(se0[j].1) < json_size(s0),
                        sev == entries_view(se0),
                        sev.len() == n,
                        forall|j: int| 0 <= j < n ==> #[trigger] sev[j] == (se0[j].0@, jview(se0[j].1)),
                        merge_entries(entries_view(out@), sev.subrange(i as int, n as int))
                            == merge_entries(dev0, sev),
                    decreases n - i,
                {
                    let (k, v) = rest.remove(0);
                    assert((k, v) == se0[i as int]);
                    let ghost ov = entries_view(out@);
                    proof {
                        lemma_entries_view(out@);
                        lemma_key_pos(ov, k@);
                    }
                    let m = out.len();
                    let mut p: usize = 0;
                    while p < m && !str_eq(out[p].0.as_str(), k.as_str())
                        invariant
                            m == out@.len(),
                            p <= m,
                            ov == entries_view(out@),
                            ov.len() == m,
                            forall|j: int| 0 <= j < m ==> #[trigger] ov[j] == (out@[j].0@, jview(out@[j].1)),
                            forall|j: int| 0 <= j < p ==> (#[trigger] ov[j]).0 != k@,
                        decreases m - p,
                    {
                        p = p + 1;
                    }
                    proof {
                        let rs = sev.subrange(i as int, n as int);
                        assert(rs[0] == (k@, jview(v)));
                        assert(rs.subrange(1, rs.len() as int) =~= sev.subrange(i + 1, n as int));
                    }
                    if p < m {
                        proof {
                            assert(ov[p as int].0 == k@);
                            assert(key_pos(ov, k@) == Some(p as int));
                        }
                        let ghost orig_out = out@;
                        let (dk, dv) = out.remove(p);
                        assert((dk, dv) == orig_out[p as int]);
                        let mv = deep_merge(dv, v);
                        out.insert(p, (dk, mv));
                        proof {
                            assert(out@ =~= orig_out.update(p as int, (dk, mv)));
                            lemma_view_update(orig_out, p as int, (dk, mv));
                            assert(ov[p as int] == (dk@, jview(dv)));
                            assert(entries_view(out@) == ov.update(p as int, (ov[p as int].0, merged(ov[p as int].1, jview(v)))));
                            assert(merge_one(ov, (k@, jview(v))) == entries_view(out@));
                        }
                    } else {
                        proof {
                            assert(key_pos(ov, k@) is None);
                        }
                        let ghost before = out@;
                        out.push((k, v));
                        proof {
                            lemma_view_push(before, (k, v));
                            assert(merge_one(ov, (k@, jview(v))) == entries_view(out@));
                        }
                    }
                    proof {
                        assert(rest@ =~= se0.subrange(i + 1, n as int));
                    }
                    i = i + 1;
                }
                assert(sev.subrange(n as int, n as int) =~= Seq::<(Seq<char>, JsonView)>::empty());
                Json::Object(out)
            },
            other => other,
        },
        _ => src,
    }
}



/// The configuration the layers give together: each laid over the ones
/// before it, starting from an empty object.
pub open spec fn merged_layers(layers: Seq<JsonView>) -> JsonView
    decreases layers.len(),
{
    if layers.len() == 0 {
        JsonView::Object(seq![])
    } else {
        merged(merged_layers(layers.subrange(0, layers.len() - 1)), layers[layers.len() - 1])
    }
}

pub open spec fn json_views(s: Seq<Json>) -> Seq<JsonView> {
    s.map_values(|j: Json| j@)
}

/// Merges configuration layers in order, later layers winning.
pub fn merge_layers(layers: Vec<Json>) -> (r: Json)
    ensures
        r@ == merged_layers(json_views(layers@)),
{
    let ghost l0 = layers@;
    let mut rest = layers;
    let mut acc = Json::Object(Vec::new());
    let n = rest.len();
    let mut i: usize = 0;
    proof {
        assert(entries_view(Seq::<(String, Json)>::empty()) =~= Seq::<(Seq<char>, JsonView)>::empty());
        assert(json_views(l0).subrange(0, 0) =~= Seq::<JsonView>::empty());
    }
    while i < n
        invariant
            n == l0.len(),
            i <= n,
            rest@ == l0.subrange(i as int, n as int),
            acc@ == merged_layers(json_views(l0).subrange(0, i as int)),
        decreases n - i,
    {
        let layer = rest.remove(0);
        assert(layer == l0[i as int]);
        acc = deep_merge(acc, layer);
        proof {
            let sub = json_views(l0).subrange(0, i + 1);
            assert(sub.subrange(0, i as int) =~= json_views(l0).subrange(0, i as int));
            assert(rest@ =~= l0.subrange(i + 1, n as int));
        }
        i = i + 1;
    }
    assert(json_views(l0).subrange(0, n as int) =~= json_views(l0));
    acc
}

/// Which kind of secret a reference names.
#[derive(Clone, Copy, Debug, PartialEq, Eq, Structural)]
pub enum SecretRefKind {
    /// An environment variable (`${env.VAR}`).
    EnvVar,
    /// A secret URI (`<scheme>://...`).
    SecretUri,
}

/// One secret reference found in a configuration.
#[derive(Debug, PartialEq, Eq)]
pub struct SecretRef {
    pub kind: SecretRefKind,
    /// The variable name or the URI.
    pub name: String,
    /// Where in the configuration it stands.
    pub field_path: String,
}

impl View for SecretRef {
    type V = (SecretRefKind, Seq<char>, Seq<char>);

    open spec fn view(&self) -> (SecretRefKind, Seq<char>, Seq<char>) {
        (self.kind, self.name@, self.field_path@)
    }
}

pub open spec fn ref_views(s: Seq<SecretRef>) -> Seq<(SecretRefKind, Seq<char>, Seq<char>)> {
    s.map_values(|r: SecretRef| r@)
}

pub open spec fn kind_rank(k: SecretRefKind) -> int {
    match k {
        SecretRefKind::EnvVar => 0,
        SecretRefKind::SecretUri => 1,
    }
}

/// The order of references: environment variables first, then by name,
/// then by field path.
pub open spec fn ref_lt(a: (SecretRefKind, Seq<char>, Seq<char>), b: (SecretRefKind, Seq<char>, Seq<char>)) -> bool {
    ||| kind_rank(a.0) < kind_rank(b.0)
    ||| (a.0 == b.0 && seq_lt(a.1, b.1))
    ||| (a.0 == b.0 && a.1 == b.1 && seq_lt(a.2, b.2))
}

fn ref_less(a: &SecretRef, b: &SecretRef) -> (r: bool)
    ensures
        r == ref_lt(a@, b@),
{
    let ra: u8 = match a.kind {
        SecretRefKind::EnvVar => 0,
        SecretRefKind::SecretUri => 1,
    };
    let rb: u8 = match b.kind {
        SecretRefKind::EnvVar => 0,
        SecretRefKind::SecretUri => 1,
    };
    if ra != rb {
        return ra < rb;
    }
    if str_lt(a.name.as_str(), b.name.as_str()) {
        return true;
    }
    if !str_eq(a.name.as_str(), b.name.as_str()) {
        return false;
    }
    str_lt(a.field_path.as_str(), b.field_path.as_str())
}

/// Puts a reference after every reference that does not sort after it.
pub open spec fn insert_ref(x: (SecretRefKind, Seq<char>, Seq<char>), t: Seq<(SecretRefKind, Seq<char>, Seq<char>)>) -> Seq<(SecretRefKind, Seq<char>, Seq<char>)>
    decreases t.len(),
{
    if t.len() == 0 {
        seq![x]
    } else if ref_lt(x, t[0]) {
        seq![x] + t
    } else {
        seq![t[0]] + insert_ref(x, t.subrange(1, t.len() as int))
    }
}

/// References in ascending order.
pub open spec fn sort_refs(s: Seq<(SecretRefKind, Seq<char>, Seq<char>)>) -> Seq<(SecretRefKind, Seq<char>, Seq<char>)>
    decreases s.len(),
{
    if s.len() == 0 {
        seq![]
    } else {
        insert_ref(s[s.len() - 1], sort_refs(s.subrange(0, s.len() - 1)))
    }
}

/// A run without neighbours that are equal (`Vec::dedup`).
pub open spec fn dedup_refs(s: Seq<(SecretRefKind, Seq<char>, Seq<char>)>) -> Seq<(SecretRefKind, Seq<char>, Seq<char>)>
    decreases s.len(),
{
    if s.len() == 0 {
        seq![]
    } else {
        let d = dedup_refs(s.subrange(0, s.len() - 1));
        if d.len() > 0 && d[d.len() - 1] == s[s.len() - 1] {
            d
        } else {
            d.push(s[s.len() - 1])
        }
    }
}

proof fn lemma_insert_ref_at(x: (SecretRefKind, Seq<char>, Seq<char>), t: Seq<(SecretRefKind, Seq<char>, Seq<char>)>, k: int)
    requires
        0 <= k <= t.len(),
        forall|i: int| 0 <= i < k ==> !ref_lt(x, #[trigger] t[i]),
        k == t.len() || ref_lt(x, t[k]),
    ensures
        insert_ref(x, t) == t.subrange(0, k) + seq![x] + t.subrange(k, t.len() as int),
    decreases k,
{
    if k == 0 {
        if t.len() == 0 {
            assert(t.subrange(0, 0) + seq![x] + t.subrange(0, 0) =~= seq![x]);
        } else {
            assert(t.subrange(0, 0) + seq![x] + t.subrange(0, t.len() as int) =~= seq![x] + t);
        }
    } else {
        let t1 = t.subrange(1, t.len() as int);
        assert forall|i: int| 0 <= i < k - 1 implies !ref_lt(x, #[trigger] t1[i]) by {
            assert(t1[i] == t[i + 1]);
        }
        if k < t.len() {
            assert(t1[k - 1] == t[k]);
        }
        assert(!ref_lt(x, t[0]));
        lemma_insert_ref_at(x, t1, k - 1);
        assert(seq![t[0]] + (t1.subrange(0, k - 1) + seq![x] + t1.subrange(k - 1, t1.len() as int))
            =~= t.subrange(0, k) + seq![x] + t.subrange(k, t.len() as int));
    }
}

/// Sorts references and drops repeated ones.
pub fn sort_dedup_refs(refs: Vec<SecretRef>) -> (r: Vec<SecretRef>)
    ensures
        ref_views(r@) == dedup_refs(sort_refs(ref_views(refs@))),
{
    let ghost orig = refs@;
    let mut rest = refs;
    let mut sorted: Vec<SecretRef> = Vec::new();
    let n = rest.len();
    let mut i: usize = 0;
    while i < n
        invariant
            n == orig.len(),
            i <= n,
            rest@ == orig.subrange(i as int, n as int),
            ref_views(sorted@) == sort_refs(ref_views(orig).subrange(0, i as int)),
        decreases n - i,
    {
        let e = rest.remove(0);
        assert(e == orig[i as int]);
        let m = sorted.len();
        let mut k: usize = 0;
        while k < m && !ref_less(&e, &sorted[k])
            invariant
                m == sorted@.len(),
                k <= m,
                forall|j: int| 0 <= j < k ==> !ref_lt(e@, #[trigger] ref_views(sorted@)[j]),
            decreases m - k,
        {
            k = k + 1;
        }
        let ghost sv = ref_views(sorted@);
        proof {
            lemma_insert_ref_at(e@, sv, k as int);
            let pre = ref_views(orig).subrange(0, i + 1);
            assert(pre.subrange(0, i as int) =~= ref_views(orig).subrange(0, i as int));
            assert(pre[i as int] == e@);
        }
        sorted.insert(k, e);
        proof {
            assert(ref_views(sorted@) =~= sv.subrange(0, k as int) + seq![e@] + sv.subrange(k as int, sv.len() as int));
            assert(rest@ =~= orig.subrange(i + 1, n as int));
        }
        i = i + 1;
    }
    assert(ref_views(orig).subrange(0, n as int) =~= ref_views(orig));
    let ghost sorted_v = ref_views(sorted@);
    let mut rest = sorted;
    let mut out: Vec<SecretRef> = Vec::new();
    let ghost s0 = rest@;
    let m = rest.len();
    let mut j: usize = 0;
    while j < m
        invariant
            m == s0.len(),
            j <= m,
            ref_views(s0) == sorted_v,
            rest@ == s0.subrange(j as int, m as int),
            ref_views(out@) == dedup_refs(sorted_v.subrange(0, j as int)),
        decreases m - j,
    {
        let e = rest.remove(0);
        assert(e == s0[j as int]);
        let ol = out.len();
        let same = if ol > 0 {
            let last = &out[ol - 1];
            last.kind == e.kind && str_eq(last.name.as_str(), e.name.as_str()) && str_eq(
                last.field_path.as_str(),
                e.field_path.as_str(),
            )
        } else {
            false
        };
        let ghost before = ref_views(out@);
        proof {
            let pre = sorted_v.subrange(0, j + 1);
            assert(pre.subrange(0, j as int) =~= sorted_v.subrange(0, j as int));
            assert(pre[j as int] == e@);
            if ol > 0 {
                assert(before[ol - 1] == out@[ol - 1]@);
            }
        }
        if !same {
            out.push(e);
            assert(ref_views(out@) =~= before.push(s0[j as int]@));
        }
        proof {
            assert(rest@ =~= s0.subrange(j + 1, m as int));
        }
        j = j + 1;
    }
    assert(sorted_v.subrange(0, m as int) =~= sorted_v);
    out
}


/// The references of one kind, in order.
pub open spec fn refs_of_kind(s: Seq<(SecretRefKind, Seq<char>, Seq<char>)>, k: SecretRefKind) -> Seq<(SecretRefKind, Seq<char>, Seq<char>)>
    decreases s.len(),
{
    if s.len() == 0 {
        seq![]
    } else {
        let rest = refs_of_kind(s.subrange(0, s.len() - 1), k);
        if s[s.len() - 1].0 == k {
            rest.push(s[s.len() - 1])
        } else {
            rest
        }
    }
}

/// The length of a text in UTF-8 bytes (`str::len`).
pub open spec fn byte_len(s: Seq<char>) -> nat {
    (vstd::utf8::encode_utf8(s).len() as usize) as nat
}

/// The widest name of a run of references, in bytes.
pub open spec fn name_width(s: Seq<(SecretRefKind, Seq<char>, Seq<char>)>) -> nat
    decreases s.len(),
{
    if s.len() == 0 {
        0
    } else {
        let w = name_width(s.subrange(0, s.len() - 1));
        let l = byte_len(s[s.len() - 1].1);
        if l > w {
            l
        } else {
            w
        }
    }
}

/// `  name  — path` lines, names padded to `w`.
pub open spec fn ref_lines(s: Seq<(SecretRefKind, Seq<char>, Seq<char>)>, w: nat) -> Seq<char>
    decreases s.len(),
{
    if s.len() == 0 {
        seq![]
    } else {
        let r = s[s.len() - 1];
        ref_lines(s.subrange(0, s.len() - 1), w) + "  "@ + pad_right(r.1, w) + "  — "@ + r.2 + "\n"@
    }
}

/// The table of references: environment variables first, then secret URIs,
/// each group with its count and names padded to the group's widest name.
pub open spec fn secrets_table(refs: Seq<(SecretRefKind, Seq<char>, Seq<char>)>) -> Seq<char> {
    let env = refs_of_kind(refs, SecretRefKind::EnvVar);
    let uri = refs_of_kind(refs, SecretRefKind::SecretUri);
    if env.len() == 0 && uri.len() == 0 {
        "(no secret references found)\n"@
    } else {
        let ew = name_width(env);
        let uw = name_width(uri);
        (if env.len() > 0 {
            "ENV vars referenced ("@ + nat_text(env.len()) + "):\n"@ + ref_lines(env, ew)
        } else {
            seq![]
        }) + (if uri.len() > 0 {
            (if ew > 0 {
                "\n"@
            } else {
                seq![]
            }) + "cred:// refs ("@ + nat_text(uri.len()) + "):\n"@ + ref_lines(uri, uw)
        } else {
            seq![]
        })
    }
}

fn of_kind<'a>(refs: &'a Vec<SecretRef>, k: SecretRefKind) -> (r: Vec<&'a SecretRef>)
    ensures
        r@.map_values(|x: &SecretRef| x@) == refs_of_kind(ref_views(refs@), k),
{
    let mut out: Vec<&SecretRef> = Vec::new();
    let n = refs.len();
    let mut i: usize = 0;
    while i < n
        invariant
            n == refs@.len(),
            i <= n,
            out@.map_values(|x: &SecretRef| x@) == refs_of_kind(ref_views(refs@).subrange(0, i as int), k),
        decreases n - i,
    {
        let ghost before = out@;
        if refs[i].kind == k {
            out.push(&refs[i]);
            assert(out@.map_values(|x: &SecretRef| x@) =~= before.map_values(|x: &SecretRef| x@).push(refs@[i as int]@));
        }
        proof {
            let sub = ref_views(refs@).subrange(0, i + 1);
            assert(sub.subrange(0, i as int) =~= ref_views(refs@).subrange(0, i as int));
            assert(sub[i as int] == refs@[i as int]@);
        }
        i = i + 1;
    }
    assert(ref_views(refs@).subrange(0, n as int) =~= ref_views(refs@));
    out
}

fn widest(rs: &Vec<&SecretRef>) -> (w: usize)
    ensures
        w as nat == name_width(rs@.map_values(|x: &SecretRef| x@)),
{
    let ghost v = rs@.map_values(|x: &SecretRef| x@);
    let mut w: usize = 0;
    let n = rs.len();
    let mut i: usize = 0;
    while i < n
        invariant
            n == rs@.len(),
            i <= n,
            v == rs@.map_values(|x: &SecretRef| x@),
            w as nat == name_width(v.subrange(0, i as int)),
        decreases n - i,
    {
        let l = rs[i].name.as_str().len();
        proof {
            let sub = v.subrange(0, i + 1);
            assert(sub.subrange(0, i as int) =~= v.subrange(0, i as int));
            assert(sub[i as int] == rs@[i as int]@);
        }
        if l > w {
            w = l;
        }
        i = i + 1;
    }
    assert(v.subrange(0, n as int) =~= v);
    w
}

fn render_ref_lines(rs: &Vec<&SecretRef>, w: usize, out: &mut String)
    ensures
        final(out)@ == old(out)@ + ref_lines(rs@.map_values(|x: &SecretRef| x@), w as nat),
{
    let ghost v = rs@.map_values(|x: &SecretRef| x@);
    let ghost start = out@;
    let n = rs.len();
    let mut i: usize = 0;
    while i < n
        invariant
            n == rs@.len(),
            i <= n,
            v == rs@.map_values(|x: &SecretRef| x@),
            out@ == start + ref_lines(v.subrange(0, i as int), w as nat),
        decreases n - i,
    {
        out.append("  ");
        append_padded(out, rs[i].name.as_str(), w);
        out.append("  — ");
        out.append(rs[i].field_path.as_str());
        out.append("\n");
        proof {
            let sub = v.subrange(0, i + 1);
            assert(sub.subrange(0, i as int) =~= v.subrange(0, i as int));
            assert(sub[i as int] == rs@[i as int]@);
            assert(out@ =~= start + ref_lines(sub, w as nat));
        }
        i = i + 1;
    }
    assert(v.subrange(0, n as int) =~= v);
}

fn render_table(refs: &Vec<SecretRef>) -> (r: String)
    ensures
        r@ == secrets_table(ref_views(refs@)),
{
    let env = of_kind(refs, SecretRefKind::EnvVar);
    let uri = of_kind(refs, SecretRefKind::SecretUri);
    if env.len() == 0 && uri.len() == 0 {
        return text("(no secret references found)\n");
    }
    let ew = widest(&env);
    let uw = widest(&uri);
    let mut out = String::new();
    if env.len() > 0 {
        out.append("ENV vars referenced (");
        append_usize(&mut out, env.len());
        out.append("):\n");
        render_ref_lines(&env, ew, &mut out);
    }
    let ghost mid = out@;
    if uri.len() > 0 {
        if ew > 0 {
            out.append("\n");
        }
        out.append("cred:// refs (");
        append_usize(&mut out, uri.len());
        out.append("):\n");
        render_ref_lines(&uri, uw, &mut out);
    }
    assert(out@ =~= secrets_table(ref_views(refs@)));
    out
}

/// The table `secrets` prints for the references found: sorted, without
/// repeats, environment variables first.
pub fn secrets_report(refs: Vec<SecretRef>) -> (r: String)
    ensures
        r@ == secrets_table(dedup_refs(sort_refs(ref_views(refs@)))),
{
    let refs = sort_dedup_refs(refs);
    render_table(&refs)
}


/// The value under key `k` in a run of entries (the first with that key).
pub open spec fn value_of(es: Seq<(Seq<char>, JsonView)>, k: Seq<char>) -> Option<JsonView> {
    match key_pos(es, k) {
        Some(i) => Some(es[i].1),
        None => None,
    }
}

/// What one key holds after a layer is laid over another: the lower value
/// when the layer lacks the key, the layer's value when the lower one
/// lacks it, and the two merged when both have it.
pub open spec fn merged_value(lower: Option<JsonView>, upper: Option<JsonView>) -> Option<JsonView> {
    match upper {
        None => lower,
        Some(u) => match lower {
            Some(l) => Some(merged(l, u)),
            None => Some(u),
        },
    }
}

proof fn lemma_key_pos_same_keys(a: Seq<(Seq<char>, JsonView)>, b: Seq<(Seq<char>, JsonView)>, k: Seq<char>)
    requires
        a.len() == b.len(),
        forall|i: int| 0 <= i < a.len() ==> (#[trigger] a[i]).0 == b[i].0,
    ensures
        key_pos(a, k) == key_pos(b, k),
    decreases a.len(),
{
    if a.len() > 0 {
        let a1 = a.subrange(1, a.len() as int);
        let b1 = b.subrange(1, b.len() as int);
        assert forall|i: int| 0 <= i < a1.len() implies (#[trigger] a1[i]).0 == b1[i].0 by {
            assert(a1[i] == a[i + 1] && b1[i] == b[i + 1]);
        }
        assert(a[0].0 == b[0].0);
        lemma_key_pos_same_keys(a1, b1, k);
    }
}

proof fn lemma_key_pos_push(a: Seq<(Seq<char>, JsonView)>, x: (Seq<char>, JsonView), k: Seq<char>)
    ensures
        key_pos(a.push(x), k) == (match key_pos(a, k) {
            Some(i) => Some(i),
            None => if x.0 == k {
                Some(a.len() as int)
            } else {
                None::<int>
            },
        }),
    decreases a.len(),
{
    let b = a.push(x);
    if a.len() > 0 {
        let a1 = a.subrange(1, a.len() as int);
        assert(b[0] == a[0]);
        assert(b.subrange(1, b.len() as int) =~= a1.push(x));
        lemma_key_pos_push(a1, x, k);
        if a[0].0 != k {
            assert(key_pos(b, k) == (match key_pos(a1.push(x), k) {
                Some(i) => Some(i + 1),
                None => None::<int>,
            }));
            assert(key_pos(a, k) == (match key_pos(a1, k) {
                Some(i) => Some(i + 1),
                None => None::<int>,
            }));
        }
    } else {
        let e = Seq::<(Seq<char>, JsonView)>::empty();
        assert(b[0] == x);
        assert(b.subrange(1, b.len() as int) =~= e);
        assert(key_pos(e, k) is None);
        assert(key_pos(a, k) is None);
    }
}

/// Laying one entry over a run changes only the value under its key.
proof fn lemma_merge_one_value(d: Seq<(Seq<char>, JsonView)>, x: (Seq<char>, JsonView), k: Seq<char>)
    ensures
        value_of(merge_one(d, x), k) == (if k == x.0 {
            merged_value(value_of(d, k), Some(x.1))
        } else {
            value_of(d, k)
        }),
{
    lemma_key_pos(d, x.0);
    lemma_key_pos(d, k);
    match key_pos(d, x.0) {
        Some(i) => {
            let d2 = d.update(i, (d[i].0, merged(d[i].1, x.1)));
            lemma_key_pos_same_keys(d2, d, k);
            lemma_key_pos_same_keys(d2, d, x.0);
            if k != x.0 {
                if let Some(p) = key_pos(d, k) {
                    assert(p != i);
                }
            }
        },
        None => {
            lemma_key_pos_push(d, x, k);
        },
    }
}

/// Laying entries with distinct keys over a run: each key ends up with the
/// merged value of what the run and the entries hold under it.
proof fn lemma_merge_entries_value(d: Seq<(Seq<char>, JsonView)>, se: Seq<(Seq<char>, JsonView)>, k: Seq<char>)
    requires
        keys_distinct(se),
    ensures
        value_of(merge_entries(d, se), k) == merged_value(value_of(d, k), value_of(se, k)),
    decreases se.len(),
{
    if se.len() > 0 {
        let x = se[0];
        let rest = se.subrange(1, se.len() as int);
        assert(keys_distinct(rest)) by {
            assert forall|i: int, j: int| 0 <= i < j < rest.len() implies (#[trigger] rest[i]).0 != (#[trigger] rest[j]).0 by {
                assert(rest[i] == se[i + 1] && rest[j] == se[j + 1]);
            }
        }
        lemma_merge_entries_value(merge_one(d, x), rest, k);
        lemma_merge_one_value(d, x, k);
        lemma_key_pos(rest, k);
        lemma_key_pos(se, k);
        if k == x.0 {
            assert forall|i: int| 0 <= i < rest.len() implies (#[trigger] rest[i]).0 != k by {
                assert(rest[i] == se[i + 1]);
                assert(se[0].0 != se[i + 1].0);
            }
            assert(value_of(rest, k) is None);
        } else {
            if let Some(p) = key_pos(rest, k) {
                assert(rest[p] == se[p + 1]);
                assert(key_pos(se, k) == Some(p + 1));
            } else {
                assert forall|i: int| 0 <= i < se.len() implies (#[trigger] se[i]).0 != k by {
                    if i > 0 {
                        assert(se[i] == rest[i - 1]);
                    }
                }
            }
        }
    }
}

/// A layer that is not an object, or one laid over something that is not
/// an object, replaces what was there wholesale.
pub proof fn law_merge_replaces(d: JsonView, s: JsonView)
    requires
        !(d is Object && s is Object),
    ensures
        merged(d, s) == s,
{
}

/// Later layers win, field by field: an object layer whose keys are
/// distinct, laid over an object, leaves the keys it lacks as they were,
/// adds the keys only it has, and merges the keys both have.
pub proof fn law_merge_field_wise(de: Seq<(Seq<char>, JsonView)>, se: Seq<(Seq<char>, JsonView)>)
    requires
        keys_distinct(se),
    ensures
        merged(JsonView::Object(de), JsonView::Object(se)) == JsonView::Object(merge_entries(de, se)),
        forall|k: Seq<char>| #[trigger] value_of(merge_entries(de, se), k) == merged_value(
            value_of(de, k),
            value_of(se, k),
        ),
{
    assert forall|k: Seq<char>| #[trigger] value_of(merge_entries(de, se), k) == merged_value(
        value_of(de, k),
        value_of(se, k),
    ) by {
        lemma_merge_entries_value(de, se, k);
    }
}

proof fn lemma_merge_entries_fresh(d: Seq<(Seq<char>, JsonView)>, se: Seq<(Seq<char>, JsonView)>)
    requires
        keys_distinct(se),
        forall|i: int, j: int| 0 <= i < d.len() && 0 <= j < se.len() ==> (#[trigger] d[i]).0 != (#[trigger] se[j]).0,
    ensures
        merge_entries(d, se) == d + se,
    decreases se.len(),
{
    if se.len() == 0 {
        assert(d + se =~= d);
    } else {
        let x = se[0];
        let rest = se.subrange(1, se.len() as int);
        lemma_key_pos(d, x.0);
        assert(key_pos(d, x.0) is None) by {
            if let Some(i) = key_pos(d, x.0) {
                assert(d[i].0 != se[0].0);
            }
        }
        let d2 = d.push(x);
        assert(merge_one(d, x) == d2);
        assert(merge_entries(d, se) == merge_entries(d2, rest));
        assert(keys_distinct(rest)) by {
            assert forall|i: int, j: int| 0 <= i < j < rest.len() implies (#[trigger] rest[i]).0 != (#[trigger] rest[j]).0 by {
                assert(rest[i] == se[i + 1] && rest[j] == se[j + 1]);
            }
        }
        assert forall|i: int, j: int| 0 <= i < d2.len() && 0 <= j < rest.len() implies (#[trigger] d2[i]).0 != (#[trigger] rest[j]).0 by {
            assert(rest[j] == se[j + 1]);
            if i < d.len() {
                assert(d2[i] == d[i]);
            } else {
                assert(d2[i] == se[0]);
            }
        }
        lemma_merge_entries_fresh(d2, rest);
        assert(d2 + rest =~= d + se);
    }
}

/// A single layer on its own is taken as it is (for an object, when its
/// keys are distinct).
pub proof fn law_single_layer(x: JsonView)
    requires
        x matches JsonView::Object(se) ==> keys_distinct(se),
    ensures
        merged_layers(seq![x]) == x,
{
    let layers = seq![x];
    let none = Seq::<JsonView>::empty();
    assert(layers.subrange(0, 0) =~= none);
    assert(merged_layers(none) == JsonView::Object(seq![]));
    assert(layers[0] == x);
    assert(merged_layers(layers) == merged(JsonView::Object(seq![]), x));
    if let JsonView::Object(se) = x {
        lemma_merge_entries_fresh(Seq::<(Seq<char>, JsonView)>::empty(), se);
        assert(Seq::<(Seq<char>, JsonView)>::empty() + se =~= se);
    }
}


pub type RefView = (SecretRefKind, Seq<char>, Seq<char>);

proof fn lemma_ref_order(a: RefView, b: RefView, c: RefView)
    ensures
        !ref_lt(a, a),
        a != b ==> (ref_lt(a, b) || ref_lt(b, a)),
        !(ref_lt(a, b) && ref_lt(b, a)),
        ref_lt(a, b) && ref_lt(b, c) ==> ref_lt(a, c),
{
    lemma_lt_irreflexive(a.1);
    lemma_lt_irreflexive(a.2);
    lemma_lt_total(a.1, b.1);
    lemma_lt_total(a.2, b.2);
    if ref_lt(a, b) && ref_lt(b, c) {
        if a.0 == b.0 && b.0 == c.0 {
            if seq_lt(a.1, b.1) && seq_lt(b.1, c.1) {
                lemma_lt_transitive(a.1, b.1, c.1);
            }
            if a.1 == b.1 && b.1 == c.1 && seq_lt(a.2, b.2) && seq_lt(b.2, c.2) {
                lemma_lt_transitive(a.2, b.2, c.2);
            }
        }
    }
    if a.0 == b.0 && a.1 == b.1 && a.2 == b.2 {
        assert(a == b);
    }
}

/// References in non-decreasing order.
pub open spec fn refs_sorted(r: Seq<RefView>) -> bool {
    forall|i: int, j: int| 0 <= i < j < r.len() ==> !ref_lt(#[trigger] r[j], #[trigger] r[i])
}

proof fn lemma_insert_ref(x: RefView, t: Seq<RefView>)
    ensures
        insert_ref(x, t).len() == t.len() + 1,
        forall|e: RefView| #[trigger] insert_ref(x, t).contains(e) <==> (t.contains(e) || e == x),
        refs_sorted(t) ==> refs_sorted(insert_ref(x, t)),
    decreases t.len(),
{
    let r = insert_ref(x, t);
    if t.len() == 0 {
        assert(r =~= seq![x]);
        assert forall|e: RefView| #[trigger] r.contains(e) <==> (t.contains(e) || e == x) by {
            if r.contains(e) {
                assert(r[0] == x);
            }
            if e == x {
                assert(r[0] == e);
            }
        }
    } else if ref_lt(x, t[0]) {
        assert(r =~= seq![x] + t);
        assert forall|e: RefView| #[trigger] r.contains(e) <==> (t.contains(e) || e == x) by {
            if r.contains(e) {
                let k = choose|k: int| 0 <= k < r.len() && r[k] == e;
                if k > 0 {
                    assert(t[k - 1] == e);
                }
            }
            if t.contains(e) {
                let k = choose|k: int| 0 <= k < t.len() && t[k] == e;
                assert(r[k + 1] == e);
            }
            if e == x {
                assert(r[0] == e);
            }
        }
        if refs_sorted(t) {
            assert forall|i: int, j: int| 0 <= i < j < r.len() implies !ref_lt(#[trigger] r[j], #[trigger] r[i]) by {
                if i == 0 {
                    assert(r[j] == t[j - 1]);
                    lemma_ref_order(x, t[0], t[j - 1]);
                    lemma_ref_order(t[j - 1], t[0], x);
                    lemma_ref_order(t[0], t[j - 1], x);
                } else {
                    assert(r[i] == t[i - 1] && r[j] == t[j - 1]);
                }
            }
        }
    } else {
        let t1 = t.subrange(1, t.len() as int);
        let r1 = insert_ref(x, t1);
        lemma_insert_ref(x, t1);
        assert(r =~= seq![t[0]] + r1);
        assert forall|e: RefView| #[trigger] r.contains(e) <==> (t.contains(e) || e == x) by {
            if r.contains(e) {
                let k = choose|k: int| 0 <= k < r.len() && r[k] == e;
                if k > 0 {
                    assert(r1[k - 1] == e);
                    assert(r1.contains(e));
                    if t1.contains(e) {
                        let m = choose|m: int| 0 <= m < t1.len() && t1[m] == e;
                        assert(t[m + 1] == e);
                    }
                } else {
                    assert(t[0] == e);
                }
            }
            if t.contains(e) {
                let k = choose|k: int| 0 <= k < t.len() && t[k] == e;
                if k > 0 {
                    assert(t1[k - 1] == e);
                    assert(r1.contains(e));
                    let m = choose|m: int| 0 <= m < r1.len() && r1[m] == e;
                    assert(r[m + 1] == e);
                } else {
                    assert(r[0] == e);
                }
            }
            if e == x {
                assert(r1.contains(e));
                let m = choose|m: int| 0 <= m < r1.len() && r1[m] == e;
                assert(r[m + 1] == e);
            }
        }
        if refs_sorted(t) {
            assert(refs_sorted(t1)) by {
                assert forall|i: int, j: int| 0 <= i < j < t1.len() implies !ref_lt(#[trigger] t1[j], #[trigger] t1[i]) by {
                    assert(t1[i] == t[i + 1] && t1[j] == t[j + 1]);
                }
            }
            assert forall|i: int, j: int| 0 <= i < j < r.len() implies !ref_lt(#[trigger] r[j], #[trigger] r[i]) by {
                if i == 0 {
                    assert(r[0] == t[0]);
                    let e = r[j];
                    assert(r1[j - 1] == e);
                    assert(r1.contains(e));
                    if e != x {
                        assert(t1.contains(e));
                        let m = choose|m: int| 0 <= m < t1.len() && t1[m] == e;
                        assert(t[m + 1] == e);
                    }
                } else {
                    assert(r[i] == r1[i - 1] && r[j] == r1[j - 1]);
                }
            }
        }
    }
}

proof fn lemma_sort_refs(s: Seq<RefView>)
    ensures
        sort_refs(s).len() == s.len(),
        forall|e: RefView| #[trigger] sort_refs(s).contains(e) <==> s.contains(e),
        refs_sorted(sort_refs(s)),
    decreases s.len(),
{
    if s.len() > 0 {
        let init = s.subrange(0, s.len() - 1);
        let x = s[s.len() - 1];
        lemma_sort_refs(init);
        lemma_insert_ref(x, sort_refs(init));
        assert forall|e: RefView| #[trigger] sort_refs(s).contains(e) <==> s.contains(e) by {
            if s.contains(e) {
                let k = choose|k: int| 0 <= k < s.len() && s[k] == e;
                if k < s.len() - 1 {
                    assert(init[k] == e);
                    assert(sort_refs(init).contains(e));
                }
            }
            if init.contains(e) {
                let k = choose|k: int| 0 <= k < init.len() && init[k] == e;
                assert(s[k] == e);
            }
            if e == x {
                assert(s[s.len() - 1] == e);
            }
        }
    } else {
        assert(sort_refs(s) =~= Seq::<RefView>::empty());
    }
}

proof fn lemma_dedup_refs(s: Seq<RefView>)
    requires
        refs_sorted(s),
    ensures
        forall|e: RefView| #[trigger] dedup_refs(s).contains(e) <==> s.contains(e),
        forall|i: int, j: int| 0 <= i < j < dedup_refs(s).len() ==> ref_lt(#[trigger] dedup_refs(s)[i], #[trigger] dedup_refs(s)[j]),
        dedup_refs(s).len() > 0 ==> dedup_refs(s)[dedup_refs(s).len() - 1] == s[s.len() - 1],
    decreases s.len(),
{
    if s.len() > 0 {
        let init = s.subrange(0, s.len() - 1);
        let x = s[s.len() - 1];
        assert(refs_sorted(init)) by {
            assert forall|i: int, j: int| 0 <= i < j < init.len() implies !ref_lt(#[trigger] init[j], #[trigger] init[i]) by {
                assert(init[i] == s[i] && init[j] == s[j]);
            }
        }
        lemma_dedup_refs(init);
        let d = dedup_refs(init);
        let r = dedup_refs(s);
        assert forall|e: RefView| #[trigger] r.contains(e) <==> s.contains(e) by {
            if s.contains(e) {
                let k = choose|k: int| 0 <= k < s.len() && s[k] == e;
                if k < s.len() - 1 {
                    assert(init[k] == e);
                    assert(d.contains(e));
                    let m = choose|m: int| 0 <= m < d.len() && d[m] == e;
                    if !(d.len() > 0 && d[d.len() - 1] == x) {
                        assert(r[m] == e);
                    }
                } else if d.len() > 0 && d[d.len() - 1] == x {
                    assert(r[d.len() - 1] == e);
                } else {
                    assert(r[d.len() as int] == e);
                }
            }
            if r.contains(e) {
                let k = choose|k: int| 0 <= k < r.len() && r[k] == e;
                if k < d.len() {
                    assert(d[k] == e);
                    assert(d.contains(e));
                    assert(init.contains(e));
                    let m = choose|m: int| 0 <= m < init.len() && init[m] == e;
                    assert(s[m] == e);
                } else {
                    assert(s[s.len() - 1] == e);
                }
            }
        }
        if !(d.len() > 0 && d[d.len() - 1] == x) {
            if d.len() > 0 {
                let last = d[d.len() - 1];
                assert(last == init[init.len() - 1]);
                assert(last == s[s.len() - 2]);
                assert(!ref_lt(s[s.len() - 1], s[s.len() - 2]));
                lemma_ref_order(last, x, last);
                assert(ref_lt(last, x));
                assert forall|i: int, j: int| 0 <= i < j < r.len() implies ref_lt(#[trigger] r[i], #[trigger] r[j]) by {
                    if j == r.len() - 1 {
                        assert(r[j] == x);
                        assert(r[i] == d[i]);
                        if i < d.len() - 1 {
                            lemma_ref_order(d[i], last, x);
                        }
                    } else {
                        assert(r[i] == d[i] && r[j] == d[j]);
                    }
                }
            }
        }
    }
}

/// The secrets table lists every reference found, each once, in order.
pub proof fn law_report_lists_each_once(s: Seq<RefView>)
    ensures
        forall|e: RefView| #[trigger] dedup_refs(sort_refs(s)).contains(e) <==> s.contains(e),
        forall|i: int, j: int| 0 <= i < j < dedup_refs(sort_refs(s)).len() ==> ref_lt(#[trigger] dedup_refs(sort_refs(s))[i], #[trigger] dedup_refs(sort_refs(s))[j]),
        forall|i: int, j: int| 0 <= i < j < dedup_refs(sort_refs(s)).len() ==> #[trigger] dedup_refs(sort_refs(s))[i] != #[trigger] dedup_refs(sort_refs(s))[j],
{
    lemma_sort_refs(s);
    lemma_dedup_refs(sort_refs(s));
    let r = dedup_refs(sort_refs(s));
    assert forall|i: int, j: int| 0 <= i < j < r.len() implies #[trigger] r[i] != #[trigger] r[j] by {
        lemma_ref_order(r[i], r[j], r[i]);
    }
}

/// What serde_yaml reads from a YAML text, as a JSON value; `None` when it
/// is not YAML.
pub uninterp spec fn yaml_value(text: Seq<char>) -> Option<JsonView>;

/// A `serde_json` value in the library's form, one for one: numbers keep
/// the text serde_json writes for them, objects keep the order their map
/// walks in. Nothing is stated of it; `parse_yaml` names the whole result.
#[verifier::external_body]
fn json_of_value(v: &serde_json::Value) -> Json {
    match v {
        serde_json::Value::Null => Json::Null,
        serde_json::Value::Bool(b) => Json::Bool(*b),
        serde_json::Value::Number(n) => Json::Number(n.to_string()),
        serde_json::Value::String(t) => Json::String(t.clone()),
        serde_json::Value::Array(a) => Json::Array(a.iter().map(json_of_value).collect()),
        serde_json::Value::Object(m) => Json::Object(m.iter().map(|(k, x)| (k.clone(), json_of_value(x))).collect()),
    }
}

/// `serde_yaml::from_str` into a JSON value, trusted to give `yaml_value`
/// of the text: the value when the text is YAML, else the parser's message.
/// What YAML means is serde_yaml's, and is not stated here.
#[verifier::external_body]
pub fn parse_yaml(text: &str) -> (r: Result<Json, String>)
    ensures
        match r {
            Ok(j) => yaml_value(text@) == Some(j@),
            Err(_) => yaml_value(text@) is None,
        },
{
    match serde_yaml::from_str::<serde_json::Value>(text) {
        Ok(v) => Ok(json_of_value(&v)),
        Err(e) => Err(e.to_string()),
    }
}

/// The layers that YAML texts give, in order.
pub open spec fn yaml_layers(texts: Seq<String>) -> Seq<JsonView> {
    Seq::new(texts.len(), |i: int| yaml_value(texts[i]@).unwrap())
}

/// Parses each configuration text as YAML and merges the layers in order,
/// later layers winning. Fails at the first text that is not YAML, with its
/// index and the parser's message.
pub fn merge_yaml_layers(texts: &Vec<String>) -> (r: Result<Json, (usize, String)>)
    ensures
        match r {
            Ok(m) => (forall|i: int| 0 <= i < texts@.len() ==> yaml_value(#[trigger] texts@[i]@) is Some)
                && m@ == merged_layers(yaml_layers(texts@)),
            Err((i, _)) => i < texts@.len() && yaml_value(texts@[i as int]@) is None && forall|k: int|
                0 <= k < i ==> yaml_value(#[trigger] texts@[k]@) is Some,
        },
{
    let n = texts.len();
    let mut layers: Vec<Json> = Vec::new();
    let mut i: usize = 0;
    while i < n
        invariant
            n == texts@.len(),
            i <= n,
            layers@.len() == i,
            forall|k: int| 0 <= k < i ==> yaml_value(#[trigger] texts@[k]@) == Some(layers@[k]@),
        decreases n - i,
    {
        match parse_yaml(texts[i].as_str()) {
            Ok(j) => {
                layers.push(j);
            },
            Err(e) => {
                return Err((i, e));
            },
        }
        i = i + 1;
    }
    assert(json_views(layers@) =~= yaml_layers(texts@)) by {
        assert forall|k: int| 0 <= k < n implies #[trigger] json_views(layers@)[k] == yaml_layers(texts@)[k] by {
            assert(yaml_value(texts@[k]@) == Some(layers@[k]@));
        }
    }
    Ok(merge_layers(layers))
}

/// In the report every environment variable comes before every secret URI,
/// and within each kind the names come in ascending order.
pub proof fn law_report_sections_ordered(s: Seq<RefView>)
    ensures
        forall|i: int, j: int|
            0 <= i < j < dedup_refs(sort_refs(s)).len() && (#[trigger] dedup_refs(sort_refs(s))[i]).0
                == SecretRefKind::SecretUri ==> (#[trigger] dedup_refs(sort_refs(s))[j]).0
                == SecretRefKind::SecretUri,
        forall|i: int, j: int|
            0 <= i < j < dedup_refs(sort_refs(s)).len() && (#[trigger] dedup_refs(sort_refs(s))[i]).0
                == (#[trigger] dedup_refs(sort_refs(s))[j]).0 ==> seq_le(
                dedup_refs(sort_refs(s))[i].1,
                dedup_refs(sort_refs(s))[j].1,
            ),
{
    law_report_lists_each_once(s);
}

pub open spec fn kind_pred(k: SecretRefKind) -> spec_fn(RefView) -> bool {
    |r: RefView| r.0 == k
}

proof fn lemma_refs_of_kind_filter(s: Seq<RefView>, k: SecretRefKind)
    ensures
        refs_of_kind(s, k) == s.filter(kind_pred(k)),
    decreases s.len(),
{
    reveal(Seq::filter);
    if s.len() > 0 {
        let init = s.drop_last();
        assert(init =~= s.subrange(0, s.len() - 1));
        lemma_refs_of_kind_filter(init, k);
    }
}

proof fn lemma_name_width(x: Seq<RefView>)
    ensures
        forall|i: int| 0 <= i < x.len() ==> byte_len((#[trigger] x[i]).1) <= name_width(x),
        x.len() == 0 ==> name_width(x) == 0,
        x.len() > 0 ==> exists|i: int| 0 <= i < x.len() && name_width(x) == byte_len((#[trigger] x[i]).1),
    decreases x.len(),
{
    if x.len() > 0 {
        let init = x.subrange(0, x.len() - 1);
        lemma_name_width(init);
        assert forall|i: int| 0 <= i < x.len() implies byte_len((#[trigger] x[i]).1) <= name_width(x) by {
            if i < x.len() - 1 {
                assert(init[i] == x[i]);
            }
        }
        if name_width(x) != byte_len(x[x.len() - 1].1) {
            let i = choose|i: int| 0 <= i < init.len() && name_width(init) == byte_len((#[trigger] init[i]).1);
            assert(init[i] == x[i]);
        }
    }
}

proof fn lemma_ref_lines_join(a: Seq<RefView>, b: Seq<RefView>, w: nat)
    ensures
        ref_lines(a + b, w) == ref_lines(a, w) + ref_lines(b, w),
    decreases b.len(),
{
    if b.len() == 0 {
        assert(a + b =~= a);
        assert(ref_lines(a, w) + ref_lines(b, w) =~= ref_lines(a, w));
    } else {
        let bi = b.subrange(0, b.len() - 1);
        lemma_ref_lines_join(a, bi, w);
        assert((a + b).subrange(0, (a + b).len() - 1) =~= a + bi);
        assert((a + b)[(a + b).len() - 1] == b[b.len() - 1]);
        assert(ref_lines(a + b, w) =~= ref_lines(a, w) + ref_lines(b, w));
    }
}

/// Each section of the table counts exactly the references of its kind,
/// lists them in order with one line each, and pads every name to the
/// widest name of its section (in bytes), which is the width of one of them.
pub proof fn law_report_sections(refs: Seq<RefView>, k: SecretRefKind, i: int)
    ensures
        refs_of_kind(refs, k) == refs.filter(kind_pred(k)),
        forall|j: int| 0 <= j < refs_of_kind(refs, k).len() ==> byte_len(
            (#[trigger] refs_of_kind(refs, k)[j]).1,
        ) <= name_width(refs_of_kind(refs, k)),
        refs_of_kind(refs, k).len() > 0 ==> exists|j: int| 0 <= j < refs_of_kind(refs, k).len()
            && name_width(refs_of_kind(refs, k)) == byte_len((#[trigger] refs_of_kind(refs, k)[j]).1),
        0 <= i < refs_of_kind(refs, k).len() ==> ref_lines(refs_of_kind(refs, k), name_width(refs_of_kind(refs, k)))
            == ref_lines(refs_of_kind(refs, k).subrange(0, i), name_width(refs_of_kind(refs, k)))
            + "  "@ + pad_right(refs_of_kind(refs, k)[i].1, name_width(refs_of_kind(refs, k))) + "  — "@
            + refs_of_kind(refs, k)[i].2 + "\n"@ + ref_lines(
            refs_of_kind(refs, k).subrange(i + 1, refs_of_kind(refs, k).len() as int),
            name_width(refs_of_kind(refs, k)),
        ),
{
    lemma_refs_of_kind_filter(refs, k);
    let x = refs_of_kind(refs, k);
    lemma_name_width(x);
    if 0 <= i < x.len() {
        let w = name_width(x);
        let a = x.subrange(0, i);
        let m = seq![x[i]];
        let b = x.subrange(i + 1, x.len() as int);
        assert(x =~= a + m + b);
        lemma_ref_lines_join(a + m, b, w);
        lemma_ref_lines_join(a, m, w);
        assert(m.subrange(0, 0) =~= Seq::<RefView>::empty());
        assert(ref_lines(Seq::<RefView>::empty(), w) == Seq::<char>::empty());
        assert(ref_lines(m, w) =~= "  "@ + pad_right(x[i].1, w) + "  — "@ + x[i].2 + "\n"@);
    }
}

/// No argument is an option.
pub open spec fn plain_args(args: Seq<Seq<char>>) -> bool {
    forall|i: int| 0 <= i < args.len() ==> !is_option(#[trigger] args[i])
}

proof fn lemma_plain_first_stop(args: Seq<Seq<char>>)
    requires
        plain_args(args),
    ensures
        first_stop(args) is None,
    decreases args.len(),
{
    reveal_strlit("-h");
    reveal_strlit("--help");
    if args.len() > 0 {
        let t = args.subrange(1, args.len() as int);
        assert forall|i: int| 0 <= i < t.len() implies !is_option(#[trigger] t[i]) by {
            assert(t[i] == args[i + 1]);
        }
        lemma_plain_first_stop(t);
        assert(!is_option(args[0]));
        assert(args[0] != "-h"@ && args[0] != "--help"@) by {
            if args[0] == "-h"@ {
                assert(is_option(args[0]));
            }
            if args[0] == "--help"@ {
                assert(is_option(args[0]));
            }
        }
    }
}

proof fn lemma_plain_paths(args: Seq<Seq<char>>)
    requires
        plain_args(args),
    ensures
        path_args(args) == args,
        path_args(seq!["--json"@] + args) == args,
    decreases args.len(),
{
    reveal_strlit("--json");
    if args.len() == 0 {
        let one = seq!["--json"@];
        assert(one + args =~= one);
        assert(one.subrange(0, 0) =~= Seq::<Seq<char>>::empty());
        assert(path_args(Seq::<Seq<char>>::empty()) == Seq::<Seq<char>>::empty());
    } else {
        let init = args.subrange(0, args.len() - 1);
        assert forall|i: int| 0 <= i < init.len() implies !is_option(#[trigger] init[i]) by {
            assert(init[i] == args[i]);
        }
        lemma_plain_paths(init);
        let last = args[args.len() - 1];
        assert(!is_option(last));
        assert(last != "--json"@) by {
            if last == "--json"@ {
                assert(is_option(last));
            }
        }
        assert(args =~= init.push(last));
        let j = seq!["--json"@] + args;
        assert(j.subrange(0, j.len() - 1) =~= seq!["--json"@] + init);
        assert(j[j.len() - 1] == last);
    }
}

/// Files are named by every argument that is not an option, in order, and
/// `--json` anywhere in front only switches to JSON output: arguments that
/// are all file names scan those files as a table, and with a leading
/// `--json` scan the same files as JSON.
pub proof fn law_file_arguments(args: Seq<Seq<char>>)
    requires
        plain_args(args),
        args.len() > 0,
    ensures
        secrets_args_spec(args) == Ok::<(bool, Seq<Seq<char>>), Option<Seq<char>>>((false, args)),
        secrets_args_spec(seq!["--json"@] + args) == Ok::<(bool, Seq<Seq<char>>), Option<Seq<char>>>(
            (true, args),
        ),
{
    reveal_strlit("--json");
    reveal_strlit("-h");
    reveal_strlit("--help");
    lemma_plain_first_stop(args);
    lemma_plain_paths(args);
    let j = seq!["--json"@] + args;
    assert(j[0] == "--json"@);
    assert(j.subrange(1, j.len() as int) =~= args);
    assert("--json"@ != "-h"@ && "--json"@ != "--help"@) by {
        assert("--json"@.len() != "-h"@.len());
        assert("--json"@[2] != "--help"@[2]);
    }
    assert(first_stop(j) is None);
    assert(j.contains("--json"@));
    assert(!args.contains("--json"@)) by {
        if args.contains("--json"@) {
            let i = choose|i: int| 0 <= i < args.len() && args[i] == "--json"@;
            assert(is_option(args[i]));
        }
    }
}

/// The table says `(no secret references found)` exactly when there are no
/// references; otherwise it opens with the environment-variable section
/// when there is one, headed by its count, and ends with the secret-URI
/// section when there is one, headed by its count.
pub proof fn law_table_sections(refs: Seq<RefView>)
    ensures
        (refs_of_kind(refs, SecretRefKind::EnvVar).len() == 0 && refs_of_kind(refs, SecretRefKind::SecretUri).len()
            == 0) ==> secrets_table(refs) == "(no secret references found)\n"@,
        refs_of_kind(refs, SecretRefKind::EnvVar).len() > 0 ==> secrets_table(refs).subrange(
            0,
            ("ENV vars referenced ("@ + nat_text(refs_of_kind(refs, SecretRefKind::EnvVar).len()) + "):\n"@).len() as int,
        ) == "ENV vars referenced ("@ + nat_text(refs_of_kind(refs, SecretRefKind::EnvVar).len()) + "):\n"@,
        refs_of_kind(refs, SecretRefKind::SecretUri).len() > 0 ==> {
            let tail = "cred:// refs ("@ + nat_text(refs_of_kind(refs, SecretRefKind::SecretUri).len()) + "):\n"@
                + ref_lines(
                refs_of_kind(refs, SecretRefKind::SecretUri),
                name_width(refs_of_kind(refs, SecretRefKind::SecretUri)),
            );
            secrets_table(refs).subrange(secrets_table(refs).len() - tail.len(), secrets_table(refs).len() as int)
                == tail
        },
{
    let env = refs_of_kind(refs, SecretRefKind::EnvVar);
    let uri = refs_of_kind(refs, SecretRefKind::SecretUri);
    let t = secrets_table(refs);
    if env.len() > 0 {
        let h = "ENV vars referenced ("@ + nat_text(env.len()) + "):\n"@;
        let rest = t.subrange(h.len() as int, t.len() as int);
        assert(t =~= h + rest);
        assert(t.subrange(0, h.len() as int) =~= h);
    }
    if uri.len() > 0 {
        let tail = "cred:// refs ("@ + nat_text(uri.len()) + "):\n"@ + ref_lines(uri, name_width(uri));
        let front = t.subrange(0, t.len() - tail.len());
        assert(t =~= front + tail);
        assert(t.subrange(t.len() - tail.len(), t.len() as int) =~= tail);
    }
}

} // verus!
