//! The `init` wizard's decisions: its arguments, the deployment templates
//! it offers, how a typed choice is read, and what it prints.
use vstd::prelude::*;
use crate::text::{
    str_eq, text, chars_of, trim, trim_chars, string_of, nat_text, append_usize, pad_right,
    append_padded, string_views, digit_char, is_white_space, trim_start, trim_end,
};

verus! {

/// Usage of the `init` command.
pub const USAGE: &'static str = "\
mcpg config init — write a starter MCPG config from a deployment template

USAGE:
    mcpg config init                                # interactive wizard
    mcpg config init --list                         # show template names
    mcpg config init --template <name>              # non-interactive, ./config.yaml
    mcpg config init --template <name> --output <p> # non-interactive, custom path
    mcpg config init --template <name> --force      # overwrite existing file

EXIT CODES:
    0 — config written
    1 — refused to overwrite (pass --force) or unknown --template
    2 — usage error / I/O error
";

/// Where the config goes when no path is given.
pub const DEFAULT_OUTPUT: &'static str = "./config.yaml";

/// How many deployment templates there are.
pub const TEMPLATE_COUNT: usize = 6;

/// The name of each template, in menu order.
pub open spec fn template_name(i: int) -> Seq<char> {
    if i == 0 {
        "dev-single-node"@
    } else if i == 1 {
        "production-single-redis"@
    } else if i == 2 {
        "production-redis-cluster"@
    } else if i == 3 {
        "production-nats-cluster"@
    } else if i == 4 {
        "air-gapped"@
    } else {
        "multi-tenant"@
    }
}

/// The one-line summary of each template, in menu order.
pub open spec fn template_summary(i: int) -> Seq<char> {
    if i == 0 {
        "laptop dev, mock binding, stderr logs"@
    } else if i == 1 {
        "single-instance prod, Redis cluster, OIDC"@
    } else if i == 2 {
        "multi-replica via Redis, S3 audit"@
    } else if i == 3 {
        "NATS JetStream variant"@
    } else if i == 4 {
        "zero-outbound, static JWKS, file storage"@
    } else {
        "per-tenant quota + rate limit + group-gated tools"@
    }
}

/// The name of template `i`.
pub fn template_name_at(i: usize) -> (r: &'static str)
    requires
        i < TEMPLATE_COUNT,
    ensures
        r@ == template_name(i as int),
{
    if i == 0 {
        "dev-single-node"
    } else if i == 1 {
        "production-single-redis"
    } else if i == 2 {
        "production-redis-cluster"
    } else if i == 3 {
        "production-nats-cluster"
    } else if i == 4 {
        "air-gapped"
    } else {
        "multi-tenant"
    }
}

/// The summary of template `i`.
pub fn template_summary_at(i: usize) -> (r: &'static str)
    requires
        i < TEMPLATE_COUNT,
    ensures
        r@ == template_summary(i as int),
{
    if i == 0 {
        "laptop dev, mock binding, stderr logs"
    } else if i == 1 {
        "single-instance prod, Redis cluster, OIDC"
    } else if i == 2 {
        "multi-replica via Redis, S3 audit"
    } else if i == 3 {
        "NATS JetStream variant"
    } else if i == 4 {
        "zero-outbound, static JWKS, file storage"
    } else {
        "per-tenant quota + rate limit + group-gated tools"
    }
}

/// The first template with this name, if any.
pub open spec fn template_index(name: Seq<char>) -> Option<int> {
    if name == template_name(0) {
        Some(0)
    } else if name == template_name(1) {
        Some(1)
    } else if name == template_name(2) {
        Some(2)
    } else if name == template_name(3) {
        Some(3)
    } else if name == template_name(4) {
        Some(4)
    } else if name == template_name(5) {
        Some(5)
    } else {
        None
    }
}

/// Finds a template by name.
pub fn find_template(name: &str) -> (r: Option<usize>)
    ensures
        match r {
            Some(i) => template_index(name@) == Some(i as int),
            None => template_index(name@) is None,
        },
{
    let mut i: usize = 0;
    while i < TEMPLATE_COUNT
        invariant
            i <= TEMPLATE_COUNT,
            forall|k: int| 0 <= k < i ==> name@ != template_name(k),
        decreases TEMPLATE_COUNT - i,
    {
        if str_eq(name, template_name_at(i)) {
            return Some(i);
        }
        i = i + 1;
    }
    None
}

/// The arguments of `init`.
#[derive(Debug, PartialEq, Eq)]
pub struct InitArgs {
    pub list: bool,
    pub template: Option<String>,
    pub output: Option<String>,
    pub force: bool,
}

/// The arguments as texts: list, template, output, force.
pub type InitArgsView = (bool, Option<Seq<char>>, Option<Seq<char>>, bool);

pub open spec fn opt_view(o: Option<String>) -> Option<Seq<char>> {
    match o {
        Some(s) => Some(s@),
        None => None,
    }
}

pub open spec fn init_args_view(a: InitArgs) -> InitArgsView {
    (a.list, opt_view(a.template), opt_view(a.output), a.force)
}

/// Reading the arguments from the state reached so far: flags set fields,
/// `--template`/`--output` take the next argument, a later value replaces
/// an earlier one, `-h`/`--help` stops with an empty message, anything
/// else stops with a message.
pub open spec fn parse_from(args: Seq<Seq<char>>, st: InitArgsView) -> Result<InitArgsView, Seq<char>>
    decreases args.len(),
{
    if args.len() == 0 {
        Ok(st)
    } else {
        let a = args[0];
        let rest = args.subrange(1, args.len() as int);
        if a == "--list"@ || a == "-l"@ {
            parse_from(rest, (true, st.1, st.2, st.3))
        } else if a == "--force"@ || a == "-f"@ {
            parse_from(rest, (st.0, st.1, st.2, true))
        } else if a == "--help"@ || a == "-h"@ {
            Err(seq![])
        } else if a == "--template"@ || a == "-t"@ {
            if rest.len() == 0 {
                Err("--template requires a value"@)
            } else {
                parse_from(rest.subrange(1, rest.len() as int), (st.0, Some(rest[0]), st.2, st.3))
            }
        } else if a == "--output"@ || a == "-o"@ {
            if rest.len() == 0 {
                Err("--output requires a value"@)
            } else {
                parse_from(rest.subrange(1, rest.len() as int), (st.0, st.1, Some(rest[0]), st.3))
            }
        } else {
            Err("unknown argument: "@ + a)
        }
    }
}

proof fn lemma_first_arg(a: Seq<char>, rest: Seq<Seq<char>>)
    ensures
        (seq![a] + rest).len() > 0,
        (seq![a] + rest)[0] == a,
        (seq![a] + rest).subrange(1, (seq![a] + rest).len() as int) == rest,
{
    assert((seq![a] + rest).subrange(1, (seq![a] + rest).len() as int) =~= rest);
}

/// Each flag's short and long spelling mean the same: `--list`/`-l` set the
/// list flag, `--force`/`-f` the force flag, `--help`/`-h` ask for the
/// usage; `--template`/`-t` and `--output`/`-o` take the next argument as
/// their value (a later one replacing an earlier one), or fail without one.
/// Reading then goes on with the rest. Alone, `--list` asks for the list.
pub proof fn law_flag_spellings(rest: Seq<Seq<char>>, st: InitArgsView)
    ensures
        parse_from(seq!["--list"@] + rest, st) == parse_from(rest, (true, st.1, st.2, st.3)),
        parse_from(seq!["-l"@] + rest, st) == parse_from(rest, (true, st.1, st.2, st.3)),
        parse_from(seq!["--force"@] + rest, st) == parse_from(rest, (st.0, st.1, st.2, true)),
        parse_from(seq!["-f"@] + rest, st) == parse_from(rest, (st.0, st.1, st.2, true)),
        parse_from(seq!["--help"@] + rest, st) == Err::<InitArgsView, Seq<char>>(seq![]),
        parse_from(seq!["-h"@] + rest, st) == Err::<InitArgsView, Seq<char>>(seq![]),
        rest.len() > 0 ==> parse_from(seq!["--template"@] + rest, st) == parse_from(
            rest.subrange(1, rest.len() as int),
            (st.0, Some(rest[0]), st.2, st.3),
        ),
        parse_from(seq!["-t"@] + rest, st) == parse_from(seq!["--template"@] + rest, st),
        rest.len() == 0 ==> parse_from(seq!["--template"@] + rest, st) == Err::<InitArgsView, Seq<char>>(
            "--template requires a value"@,
        ),
        rest.len() > 0 ==> parse_from(seq!["--output"@] + rest, st) == parse_from(
            rest.subrange(1, rest.len() as int),
            (st.0, st.1, Some(rest[0]), st.3),
        ),
        parse_from(seq!["-o"@] + rest, st) == parse_from(seq!["--output"@] + rest, st),
        rest.len() == 0 ==> parse_from(seq!["--output"@] + rest, st) == Err::<InitArgsView, Seq<char>>(
            "--output requires a value"@,
        ),
        parse_from(seq!["--list"@], (false, None, None, false)) == Ok::<InitArgsView, Seq<char>>(
            (true, None, None, false),
        ),
{
    reveal_strlit("--list");
    reveal_strlit("-l");
    reveal_strlit("--force");
    reveal_strlit("-f");
    reveal_strlit("--help");
    reveal_strlit("-h");
    reveal_strlit("--template");
    reveal_strlit("-t");
    reveal_strlit("--output");
    reveal_strlit("-o");
    assert("-f"@[1] != "-l"@[1]);
    assert("-h"@[1] != "-l"@[1] && "-h"@[1] != "-f"@[1]);
    assert("-t"@[1] != "-l"@[1] && "-t"@[1] != "-f"@[1] && "-t"@[1] != "-h"@[1]);
    assert("-o"@[1] != "-l"@[1] && "-o"@[1] != "-f"@[1] && "-o"@[1] != "-h"@[1] && "-o"@[1] != "-t"@[1]);
    assert("--help"@[2] != "--list"@[2]);
    assert("--output"@[2] != "--template"@[2]);
    lemma_first_arg("--list"@, rest);
    lemma_first_arg("-l"@, rest);
    lemma_first_arg("--force"@, rest);
    lemma_first_arg("-f"@, rest);
    lemma_first_arg("--help"@, rest);
    lemma_first_arg("-h"@, rest);
    lemma_first_arg("--template"@, rest);
    lemma_first_arg("-t"@, rest);
    lemma_first_arg("--output"@, rest);
    lemma_first_arg("-o"@, rest);
    let e = Seq::<Seq<char>>::empty();
    lemma_first_arg("--list"@, e);
    assert(seq!["--list"@] =~= seq!["--list"@] + e);
    assert(parse_from(e, (true, None, None, false)) == Ok::<InitArgsView, Seq<char>>((true, None, None, false)));
}

/// Reads the arguments of `init`. An empty error message asks for the
/// usage (exit 0); any other message is a usage error (exit 2).
pub fn parse_args(raw: &Vec<String>) -> (r: Result<InitArgs, String>)
    ensures
        match r {
            Ok(a) => parse_from(string_views(raw@), (false, None, None, false)) == Ok::<InitArgsView, Seq<char>>(init_args_view(a)),
            Err(m) => parse_from(string_views(raw@), (false, None, None, false)) == Err::<InitArgsView, Seq<char>>(m@),
        },
{
    let ghost all = string_views(raw@);
    let mut args = InitArgs { list: false, template: None, output: None, force: false };
    let n = raw.len();
    let mut i: usize = 0;
    assert(all.subrange(0, n as int) =~= all);
    while i < n
        invariant
            n == raw@.len(),
            all == string_views(raw@),
            i <= n,
            parse_from(all.subrange(i as int, n as int), init_args_view(args)) == parse_from(all, (false, None, None, false)),
        decreases n - i,
    {
        let a = raw[i].as_str();
        let ghost rest = all.subrange(i as int, n as int);
        proof {
            assert(rest[0] == a@);
            assert(rest.subrange(1, rest.len() as int) =~= all.subrange(i + 1, n as int));
        }
        if str_eq(a, "--list") || str_eq(a, "-l") {
            args.list = true;
            i = i + 1;
        } else if str_eq(a, "--force") || str_eq(a, "-f") {
            args.force = true;
            i = i + 1;
        } else if str_eq(a, "--help") || str_eq(a, "-h") {
            let e = String::new();
            assert(e@ =~= Seq::<char>::empty());
            return Err(e);
        } else if str_eq(a, "--template") || str_eq(a, "-t") {
            if i + 1 >= n {
                return Err(text("--template requires a value"));
            }
            proof {
                let r1 = all.subrange(i + 1, n as int);
                assert(r1[0] == raw@[i + 1]@);
                assert(r1.subrange(1, r1.len() as int) =~= all.subrange(i + 2, n as int));
            }
            args.template = Some(text(raw[i + 1].as_str()));
            i = i + 2;
        } else if str_eq(a, "--output") || str_eq(a, "-o") {
            if i + 1 >= n {
                return Err(text("--output requires a value"));
            }
            proof {
                let r1 = all.subrange(i + 1, n as int);
                assert(r1[0] == raw@[i + 1]@);
                assert(r1.subrange(1, r1.len() as int) =~= all.subrange(i + 2, n as int));
            }
            args.output = Some(text(raw[i + 1].as_str()));
            i = i + 2;
        } else {
            let mut m = text("unknown argument: ");
            m.append(a);
            return Err(m);
        }
    }
    assert(all.subrange(n as int, n as int) =~= Seq::<Seq<char>>::empty());
    Ok(args)
}


/// The `--list` output: one line per template, names padded to 24.
pub open spec fn list_lines(k: nat) -> Seq<char>
    decreases k,
{
    if k == 0 {
        seq![]
    } else {
        list_lines((k - 1) as nat) + pad_right(template_name(k - 1), 24) + " — "@ + template_summary(
            k - 1,
        ) + "\n"@
    }
}

/// What `init --list` prints.
pub fn list_text() -> (r: String)
    ensures
        r@ == list_lines(TEMPLATE_COUNT as nat),
{
    let mut out = String::new();
    let mut i: usize = 0;
    assert(out@ =~= list_lines(0));
    while i < TEMPLATE_COUNT
        invariant
            i <= TEMPLATE_COUNT,
            out@ == list_lines(i as nat),
        decreases TEMPLATE_COUNT - i,
    {
        append_padded(&mut out, template_name_at(i), 24);
        out.append(" — ");
        out.append(template_summary_at(i));
        out.append("\n");
        assert(out@ =~= list_lines((i + 1) as nat));
        i = i + 1;
    }
    out
}

/// `  name — summary` lines for the first `k` templates.
pub open spec fn available_lines(k: nat) -> Seq<char>
    decreases k,
{
    if k == 0 {
        seq![]
    } else {
        available_lines((k - 1) as nat) + "  "@ + template_name(k - 1) + " — "@ + template_summary(
            k - 1,
        ) + "\n"@
    }
}

/// What `init --template <name>` prints to standard error for a name that
/// is no template (it then fails with exit code 1).
pub fn unknown_template_text(name: &str) -> (r: String)
    ensures
        r@ == "error: unknown template '"@ + name@ + "'"@ + "\n"@ + "\n"@ + "Available templates:"@
            + "\n"@ + available_lines(TEMPLATE_COUNT as nat),
{
    let mut out = text("error: unknown template '");
    out.append(name);
    out.append("'");
    out.append("\n");
    out.append("\n");
    out.append("Available templates:");
    out.append("\n");
    let ghost start = out@;
    let mut i: usize = 0;
    assert(out@ =~= start + available_lines(0));
    while i < TEMPLATE_COUNT
        invariant
            i <= TEMPLATE_COUNT,
            out@ == start + available_lines(i as nat),
        decreases TEMPLATE_COUNT - i,
    {
        out.append("  ");
        out.append(template_name_at(i));
        out.append(" — ");
        out.append(template_summary_at(i));
        out.append("\n");
        assert(out@ =~= start + available_lines((i + 1) as nat));
        i = i + 1;
    }
    out
}

/// The menu lines `  n) name — summary` for the first `k` templates.
pub open spec fn menu_lines(k: nat) -> Seq<char>
    decreases k,
{
    if k == 0 {
        seq![]
    } else {
        menu_lines((k - 1) as nat) + "  "@ + nat_text(k) + ") "@ + pad_right(template_name(k - 1), 24)
            + " — "@ + template_summary(k - 1) + "\n"@
    }
}

/// The menu the interactive wizard shows before asking for a choice.
pub fn menu_text() -> (r: String)
    ensures
        r@ == "Pick a deployment topology:"@ + "\n"@ + menu_lines(TEMPLATE_COUNT as nat) + "\n"@,
{
    let mut out = text("Pick a deployment topology:");
    out.append("\n");
    let ghost start = out@;
    let mut i: usize = 0;
    assert(out@ =~= start + menu_lines(0));
    while i < TEMPLATE_COUNT
        invariant
            i <= TEMPLATE_COUNT,
            out@ == start + menu_lines(i as nat),
        decreases TEMPLATE_COUNT - i,
    {
        out.append("  ");
        append_usize(&mut out, i + 1);
        out.append(") ");
        append_padded(&mut out, template_name_at(i), 24);
        out.append(" — ");
        out.append(template_summary_at(i));
        out.append("\n");
        assert(out@ =~= start + menu_lines((i + 1) as nat));
        i = i + 1;
    }
    out.append("\n");
    out
}

/// The prompt for a choice.
pub const CHOICE_PROMPT: &'static str = "Choice [1]: ";

/// What the wizard says before asking again after an unusable choice.
pub const CHOICE_RETRY: &'static str = "Please enter a number between 1 and 6.";

/// The prompt for the output path.
pub const OUTPUT_PROMPT: &'static str = "Output path [./config.yaml]: ";

pub open spec fn is_digit(c: char) -> bool {
    '0' <= c && c <= '9'
}

/// The number a run of decimal digits writes.
pub open spec fn digits_value(s: Seq<char>) -> nat
    decreases s.len(),
{
    if s.len() == 0 {
        0
    } else {
        digits_value(s.subrange(0, s.len() - 1)) * 10 + ((s[s.len() - 1] as u32) - ('0' as u32)) as nat
    }
}

/// `str::parse::<usize>`: an optional `+`, then one or more decimal digits,
/// whose value fits in `usize`.
pub open spec fn parse_usize(s: Seq<char>) -> Option<nat> {
    let body = unsigned_body(s);
    if body.len() > 0 && all_digits(body) && digits_value(body) <= usize::MAX {
        Some(digits_value(body))
    } else {
        None
    }
}

/// A number's text without its leading `+`.
pub open spec fn unsigned_body(s: Seq<char>) -> Seq<char> {
    if s.len() > 0 && s[0] == '+' {
        s.subrange(1, s.len() as int)
    } else {
        s
    }
}

pub open spec fn all_digits(b: Seq<char>) -> bool {
    forall|i: int| 0 <= i < b.len() ==> is_digit(#[trigger] b[i])
}

/// The template a typed answer picks: an empty answer (or none, at end of
/// input) picks the first; a number from 1 to 6 picks that one; anything
/// else picks none and the wizard asks again.
pub open spec fn choice_of(line: Option<Seq<char>>) -> Option<int> {
    match line {
        None => Some(0),
        Some(l) => {
            let t = trim(l);
            if t.len() == 0 {
                Some(0)
            } else {
                match parse_usize(t) {
                    Some(n) => if 1 <= n <= 6 {
                        Some(n - 1)
                    } else {
                        None
                    },
                    None => None,
                }
            }
        },
    }
}

proof fn lemma_digits_step(s: Seq<char>, c: char)
    ensures
        digits_value(s.push(c)) == digits_value(s) * 10 + ((c as u32) - ('0' as u32)) as nat,
{
    assert(s.push(c).subrange(0, s.len() as int) =~= s);
}

/// Every template is found again by its own name, so `--template <name>`
/// reaches each of the menu's templates.
pub proof fn law_template_found_by_name(i: int)
    requires
        0 <= i < TEMPLATE_COUNT,
    ensures
        template_index(template_name(i)) == Some(i),
{
    reveal_strlit("dev-single-node");
    reveal_strlit("production-single-redis");
    reveal_strlit("production-redis-cluster");
    reveal_strlit("production-nats-cluster");
    reveal_strlit("air-gapped");
    reveal_strlit("multi-tenant");
    assert(template_name(0).len() == 15);
    assert(template_name(1).len() == 23);
    assert(template_name(2).len() == 24);
    assert(template_name(3).len() == 23);
    assert(template_name(4).len() == 10);
    assert(template_name(5).len() == 12);
    assert(template_name(1)[11] != template_name(3)[11]);
}

/// Typing the number shown beside a template in the menu (1 to 6) picks
/// that template; an empty answer, or none at end of input, picks the first.
pub proof fn law_menu_number_picks_template(k: nat)
    requires
        1 <= k <= TEMPLATE_COUNT,
    ensures
        choice_of(Some(nat_text(k))) == Some(k - 1),
        choice_of(Some(seq![])) == Some(0int),
        choice_of(None) == Some(0int),
{
    let s = nat_text(k);
    let c = digit_char(k);
    assert(s == seq![c]);
    assert(!is_white_space(c));
    assert(trim_start(s) == s);
    assert(trim_end(s) == s);
    assert(trim(s) == s);
    assert(unsigned_body(s) == s);
    assert(all_digits(s));
    assert(s.subrange(0, 0) =~= Seq::<char>::empty());
    assert(digits_value(s) == k);
    assert(parse_usize(s) == Some(k));
    assert(trim(Seq::<char>::empty()) =~= Seq::<char>::empty());
}

/// Numbers are written in decimal: every character of `nat_text(n)` is a
/// digit, the digits read back as `n`, and only zero starts with `0`.
pub proof fn law_decimal_text(n: nat)
    ensures
        all_digits(nat_text(n)),
        digits_value(nat_text(n)) == n,
        nat_text(n).len() > 0,
        nat_text(n)[0] == '0' ==> n == 0,
    decreases n,
{
    let t = nat_text(n);
    if n < 10 {
        assert(t == seq![digit_char(n)]);
        assert(t.subrange(0, 0) =~= Seq::<char>::empty());
        assert(digits_value(Seq::<char>::empty()) == 0);
    } else {
        law_decimal_text(n / 10);
        let h = nat_text(n / 10);
        let d = digit_char(n % 10);
        assert(t == h + seq![d]);
        lemma_digits_step(h, d);
        assert(h.push(d) =~= t);
        assert((n / 10) * 10 + n % 10 == n) by (nonlinear_arith);
        assert forall|i: int| 0 <= i < t.len() implies is_digit(#[trigger] t[i]) by {
            if i < h.len() {
                assert(t[i] == h[i]);
            }
        }
        assert(t[0] == h[0]);
    }
}

/// Reads a typed menu answer (`None` at end of input).
#[verifier::rlimit(80)]
pub fn choose_template(line: Option<&str>) -> (r: Option<usize>)
    ensures
        match r {
            Some(i) => choice_of(opt_str_view(line)) == Some(i as int) && i < TEMPLATE_COUNT,
            None => choice_of(opt_str_view(line)) is None,
        },
{
    let l = match line {
        None => {
            return Some(0);
        },
        Some(l) => l,
    };
    let cs = chars_of(l);
    let t = trim_chars(&cs);
    let n = t.len();
    if n == 0 {
        return Some(0);
    }
    let start: usize = if t[0] == '+' { 1 } else { 0 };
    let ghost body = if t@[0] == '+' { t@.subrange(1, n as int) } else { t@ };
    assert(start == 0 ==> body =~= t@.subrange(0, n as int));
    if start >= n {
        assert(body.len() == 0);
        assert(parse_usize(t@) is None);
        assert(opt_str_view(line) == Some(l@));
        assert(trim(l@) == t@);
        assert(choice_of(opt_str_view(line)) is None);
        return None;
    }
    let mut capped: usize = 0;
    let mut i = start;
    while i < n
        invariant
            n == t@.len(),
            n > 0,
            start <= i <= n,
            start <= 1,
            start < n,
            t@ == trim(l@),
            opt_str_view(line) == Some(l@),
            body == (if t@[0] == '+' { t@.subrange(1, n as int) } else { t@ }),
            body == t@.subrange(start as int, n as int),
            forall|k: int| start <= k < i ==> is_digit(#[trigger] t@[k]),
            capped <= 7,
            capped == (if digits_value(t@.subrange(start as int, i as int)) >= 7 {
                7
            } else {
                digits_value(t@.subrange(start as int, i as int))
            }),
        decreases n - i,
    {
        let c = t[i];
        if !('0' <= c && c <= '9') {
            proof {
                assert(!is_digit(body[i - start]));
                assert(parse_usize(t@) is None);
            }
            return None;
        }
        let d = (c as u32 - '0' as u32) as usize;
        proof {
            lemma_digits_step(t@.subrange(start as int, i as int), c);
            assert(t@.subrange(start as int, i as int).push(c) =~= t@.subrange(start as int, i + 1));
        }
        if capped >= 7 {
            capped = 7;
        } else {
            capped = capped * 10 + d;
            if capped >= 7 {
                capped = 7;
            }
        }
        i = i + 1;
    }
    proof {
        assert(t@.subrange(start as int, n as int) == body);
        assert forall|k: int| 0 <= k < body.len() implies is_digit(#[trigger] body[k]) by {
            assert(body[k] == t@[k + start]);
        }
    }
    if capped >= 1 && capped <= 6 {
        Some(capped - 1)
    } else {
        None
    }
}

pub open spec fn opt_str_view(o: Option<&str>) -> Option<Seq<char>> {
    match o {
        Some(s) => Some(s@),
        None => None,
    }
}


/// The output path a typed answer gives: the default for an empty answer
/// or none (end of input), else the answer trimmed.
pub open spec fn output_of(line: Option<Seq<char>>) -> Seq<char> {
    match line {
        None => DEFAULT_OUTPUT@,
        Some(l) => if trim(l).len() == 0 {
            DEFAULT_OUTPUT@
        } else {
            trim(l)
        },
    }
}

/// Reads a typed output path (`None` at end of input).
pub fn choose_output(line: Option<&str>) -> (r: String)
    ensures
        r@ == output_of(opt_str_view(line)),
{
    match line {
        None => text(DEFAULT_OUTPUT),
        Some(l) => {
            let cs = chars_of(l);
            let t = trim_chars(&cs);
            if t.len() == 0 {
                text(DEFAULT_OUTPUT)
            } else {
                string_of(&t)
            }
        },
    }
}

/// The output path before any prompt: the one given, or the default when a
/// template was named; `None` when the wizard must ask.
pub open spec fn planned_output_of(a: InitArgsView) -> Option<Seq<char>> {
    match a.2 {
        Some(p) => Some(p),
        None => if a.1 is None {
            None
        } else {
            Some(DEFAULT_OUTPUT@)
        },
    }
}

/// Where the config goes, when it is known without asking.
pub fn planned_output(a: &InitArgs) -> (r: Option<String>)
    ensures
        opt_view(r) == planned_output_of(init_args_view(*a)),
{
    match &a.output {
        Some(p) => Some(text(p.as_str())),
        None => if a.template.is_none() {
            None
        } else {
            Some(text(DEFAULT_OUTPUT))
        },
    }
}

/// What the wizard prints to standard error when the output exists and
/// `--force` was not given (it then fails with exit code 1).
pub fn exists_text(output: &str) -> (r: String)
    ensures
        r@ == "error: "@ + output@ + " already exists. Pass --force to overwrite."@,
{
    let mut out = text("error: ");
    out.append(output);
    out.append(" already exists. Pass --force to overwrite.");
    out
}

/// The refusal to overwrite: when the output already exists and `--force`
/// was not given, the message to print (the wizard then fails with exit
/// code 1); otherwise nothing, and the config is written.
pub fn overwrite_refusal(output: &str, output_exists: bool, a: &InitArgs) -> (r: Option<String>)
    ensures
        r is Some <==> output_exists && !a.force,
        r matches Some(m) ==> m@ == "error: "@ + output@ + " already exists. Pass --force to overwrite."@,
{
    if output_exists && !a.force {
        Some(exists_text(output))
    } else {
        None
    }
}

/// What the wizard prints after writing the config.
pub fn written_text(output: &str, template: usize) -> (r: String)
    requires
        template < TEMPLATE_COUNT,
    ensures
        r@ == "✓ Wrote "@ + output@ + " ("@ + template_name(template as int) + ")."@ + "\n"@
            + "  Validate:  mcpg config check "@ + output@ + "\n"@ + "  Boot:      MCPG_CONFIG="@
            + output@ + " mcpg"@ + "\n"@,
{
    let mut out = text("✓ Wrote ");
    out.append(output);
    out.append(" (");
    out.append(template_name_at(template));
    out.append(").");
    out.append("\n");
    out.append("  Validate:  mcpg config check ");
    out.append(output);
    out.append("\n");
    out.append("  Boot:      MCPG_CONFIG=");
    out.append(output);
    out.append(" mcpg");
    out.append("\n");
    out
}

} // verus!
