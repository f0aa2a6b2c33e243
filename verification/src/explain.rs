//! Describing one configuration field, found by its dotted path in the
//! configuration's JSON Schema.
//!
//! A path is a run of field names joined by `.`, each optionally followed by
//! `[N]` indexes (`bindings[0].name`). Walking it follows `$ref` and
//! one-element `allOf` indirection at each step.
use vstd::prelude::*;
use crate::json::{
    Json, json_size, items_size, spec_get, str_at, array_at, object_at, get, get_str, get_array,
    get_object, entries_get, keys_of, sorted_keys, opt_str, opt_vec, lemma_at_smaller,
    lemma_size_positive, compact_json, json_text,
};
use crate::text::{
    chars_of, push_char, string_of, sub_chars, find_char, char_index, lemma_char_index,
    spec_first_line, strip_prefix, strip_prefix_chars, join, join_strings, sort_seqs, str_views,
    str_eq, text, string_views, lines_of, lines_from, pad_right, append_padded,
};
use crate::doc::{ref_name, single_all_of, value_at, desc_or_empty, first_str};
pub use crate::doc::first_line;
use crate::doc::{not_null_alternative, named_type};

verus! {

/// Usage of the `explain` command.
pub const USAGE: &'static str = "\
mcpg config explain — describe a config field by its dotted path

USAGE:
    mcpg config explain                      # list top-level fields
    mcpg config explain <path>               # describe one field

EXAMPLES:
    mcpg config explain server.bind_address
    mcpg config explain audit.on_failure
    mcpg config explain bindings[0].name
";

/// What the arguments of `explain` ask for.
#[derive(Debug, PartialEq, Eq)]
pub enum ExplainRequest {
    /// List the top-level fields.
    Root,
    /// Describe the field at this path.
    Field(String),
    /// Print the usage and succeed.
    Help,
    /// Print the usage to standard error and fail with exit code 2.
    Usage,
}

/// Reads the arguments of `explain`: none lists the root, one is a path (or
/// `-h`/`--help`), more is a usage error.
pub fn explain_request(args: &Vec<String>) -> (r: ExplainRequest)
    ensures
        args@.len() == 0 ==> r == ExplainRequest::Root,
        args@.len() == 1 && (args@[0]@ == "--help"@ || args@[0]@ == "-h"@) ==> r
            == ExplainRequest::Help,
        args@.len() == 1 && !(args@[0]@ == "--help"@ || args@[0]@ == "-h"@) ==> (r matches ExplainRequest::Field(p) && p@ == args@[0]@),
        args@.len() > 1 ==> r == ExplainRequest::Usage,
{
    if args.len() == 0 {
        ExplainRequest::Root
    } else if args.len() == 1 {
        if str_eq(args[0].as_str(), "--help") || str_eq(args[0].as_str(), "-h") {
            ExplainRequest::Help
        } else {
            ExplainRequest::Field(text(args[0].as_str()))
        }
    } else {
        ExplainRequest::Usage
    }
}

/// One step of a path.
#[derive(Debug, PartialEq, Eq)]
pub enum Token {
    /// Descend into the named field.
    Field(String),
    /// Descend into the elements of an array (`[N]`; the number is not read).
    Index,
}

/// A step of a path, by its text.
pub enum Step {
    Field(Seq<char>),
    Index,
}

impl View for Token {
    type V = Step;

    open spec fn view(&self) -> Step {
        match self {
            Token::Field(name) => Step::Field(name@),
            Token::Index => Step::Index,
        }
    }
}

pub open spec fn token_views(ts: Seq<Token>) -> Seq<Step> {
    ts.map_values(|t: Token| t@)
}

/// The pieces of `s` between the occurrences of `c` (`str::split` on a
/// character: always at least one piece).
pub open spec fn split_on(s: Seq<char>, c: char) -> Seq<Seq<char>>
    decreases s.len(),
{
    proof {
        lemma_char_index(s, c);
    }
    match char_index(s, c) {
        Some(i) => seq![s.subrange(0, i)] + split_on(s.subrange(i + 1, s.len() as int), c),
        None => seq![s],
    }
}

/// The index steps of a `[..][..]` run: one per closed bracket pair, read
/// up to the first `[` without a `]` after it.
pub open spec fn index_steps(rest: Seq<char>) -> Seq<Step>
    decreases rest.len(),
{
    if rest.len() == 0 {
        seq![]
    } else {
        proof {
            lemma_char_index(rest, ']');
        }
        match char_index(rest, ']') {
            Some(e) => seq![Step::Index] + index_steps(rest.subrange(e + 1, rest.len() as int)),
            None => seq![],
        }
    }
}

/// The steps of one dotted segment: its name (when not empty), then the
/// index steps of what follows its first `[`.
pub open spec fn segment_steps(seg: Seq<char>) -> Seq<Step> {
    match char_index(seg, '[') {
        Some(i) => (if i > 0 {
            seq![Step::Field(seg.subrange(0, i))]
        } else {
            seq![]
        }) + index_steps(seg.subrange(i, seg.len() as int)),
        None => if seg.len() > 0 {
            seq![Step::Field(seg)]
        } else {
            seq![]
        },
    }
}

/// The steps of a run of segments, in order.
pub open spec fn segments_steps(segs: Seq<Seq<char>>) -> Seq<Step>
    decreases segs.len(),
{
    if segs.len() == 0 {
        seq![]
    } else {
        segment_steps(segs[0]) + segments_steps(segs.subrange(1, segs.len() as int))
    }
}

/// The steps of a dotted path.
pub open spec fn path_steps(path: Seq<char>) -> Seq<Step> {
    segments_steps(split_on(path, '.'))
}


proof fn lemma_split_on_join(a: Seq<char>, b: Seq<char>, c: char)
    ensures
        split_on(a + seq![c] + b, c) == split_on(a, c) + split_on(b, c),
    decreases a.len(),
{
    let s = a + seq![c] + b;
    lemma_char_index(s, c);
    lemma_char_index(a, c);
    assert(forall|k: int| 0 <= k < a.len() ==> s[k] == a[k]);
    match char_index(a, c) {
        None => {
            assert(s[a.len() as int] == c);
            assert(char_index(s, c) == Some(a.len() as int));
            assert(s.subrange(0, a.len() as int) =~= a);
            assert(s.subrange(a.len() as int + 1, s.len() as int) =~= b);
            assert(split_on(a, c) == seq![a]);
            assert(split_on(s, c) =~= split_on(a, c) + split_on(b, c));
        },
        Some(i) => {
            assert(s[i] == c);
            assert(char_index(s, c) == Some(i));
            let a2 = a.subrange(i + 1, a.len() as int);
            lemma_split_on_join(a2, b, c);
            assert(s.subrange(i + 1, s.len() as int) =~= a2 + seq![c] + b);
            assert(s.subrange(0, i) =~= a.subrange(0, i));
            assert(split_on(s, c) =~= split_on(a, c) + split_on(b, c));
        },
    }
}

proof fn lemma_segments_steps_join(x: Seq<Seq<char>>, y: Seq<Seq<char>>)
    ensures
        segments_steps(x + y) == segments_steps(x) + segments_steps(y),
    decreases x.len(),
{
    if x.len() == 0 {
        assert(x + y =~= y);
        assert(segments_steps(x) =~= Seq::<Step>::empty());
        assert(segments_steps(x + y) =~= segments_steps(x) + segments_steps(y));
    } else {
        let x2 = x.subrange(1, x.len() as int);
        lemma_segments_steps_join(x2, y);
        assert((x + y)[0] == x[0]);
        assert((x + y).subrange(1, (x + y).len() as int) =~= x2 + y);
        assert(segments_steps(x + y) =~= segments_steps(x) + segments_steps(y));
    }
}

/// Joining two paths with a `.` joins their steps: walking `a.b` walks `a`,
/// then walks `b` from where `a` ended.
pub proof fn law_path_steps_join(a: Seq<char>, b: Seq<char>)
    ensures
        path_steps(a + "."@ + b) == path_steps(a) + path_steps(b),
{
    reveal_strlit(".");
    assert("."@ =~= seq!['.']);
    lemma_split_on_join(a, b, '.');
    lemma_segments_steps_join(split_on(a, '.'), split_on(b, '.'));
}

/// A step names a field by a non-empty name without `.` or `[`, or is an
/// index step.
pub open spec fn is_name_or_index(st: Step) -> bool {
    match st {
        Step::Field(n) => n.len() > 0 && !n.contains('.') && !n.contains('['),
        Step::Index => true,
    }
}

proof fn lemma_prefix_lacks(s: Seq<char>, i: int, c: char)
    requires
        0 <= i <= s.len(),
        forall|k: int| 0 <= k < i ==> s[k] != c,
    ensures
        !s.subrange(0, i).contains(c),
{
    if s.subrange(0, i).contains(c) {
        let j = choose|j: int| 0 <= j < i && s.subrange(0, i)[j] == c;
        assert(s[j] == c);
    }
}

proof fn lemma_split_on_pieces(s: Seq<char>, c: char)
    ensures
        forall|k: int| 0 <= k < split_on(s, c).len() ==> !(#[trigger] split_on(s, c)[k]).contains(c),
    decreases s.len(),
{
    lemma_char_index(s, c);
    let sp = split_on(s, c);
    match char_index(s, c) {
        Some(i) => {
            let rest = s.subrange(i + 1, s.len() as int);
            lemma_split_on_pieces(rest, c);
            lemma_prefix_lacks(s, i, c);
            assert forall|k: int| 0 <= k < sp.len() implies !(#[trigger] sp[k]).contains(c) by {
                if k > 0 {
                    assert(sp[k] == split_on(rest, c)[k - 1]);
                }
            }
        },
        None => {
            lemma_prefix_lacks(s, s.len() as int, c);
            assert(s.subrange(0, s.len() as int) =~= s);
        },
    }
}

proof fn lemma_index_steps_only(rest: Seq<char>)
    ensures
        forall|k: int| 0 <= k < index_steps(rest).len() ==> #[trigger] index_steps(rest)[k] == Step::Index,
    decreases rest.len(),
{
    if rest.len() > 0 {
        lemma_char_index(rest, ']');
        if let Some(e) = char_index(rest, ']') {
            let tail = rest.subrange(e + 1, rest.len() as int);
            lemma_index_steps_only(tail);
            assert forall|k: int| 0 <= k < index_steps(rest).len() implies #[trigger] index_steps(rest)[k] == Step::Index by {
                if k > 0 {
                    assert(index_steps(rest)[k] == index_steps(tail)[k - 1]);
                }
            }
        }
    }
}

proof fn lemma_segment_steps_names(seg: Seq<char>)
    requires
        !seg.contains('.'),
    ensures
        forall|k: int| 0 <= k < segment_steps(seg).len() ==> is_name_or_index(#[trigger] segment_steps(seg)[k]),
{
    lemma_char_index(seg, '[');
    match char_index(seg, '[') {
        Some(i) => {
            let head = seg.subrange(0, i);
            lemma_prefix_lacks(seg, i, '[');
            assert(!head.contains('.')) by {
                if head.contains('.') {
                    let j = choose|j: int| 0 <= j < head.len() && head[j] == '.';
                    assert(seg[j] == '.');
                }
            }
            lemma_index_steps_only(seg.subrange(i, seg.len() as int));
            let pre: Seq<Step> = if i > 0 { seq![Step::Field(head)] } else { seq![] };
            let ix = index_steps(seg.subrange(i, seg.len() as int));
            assert(segment_steps(seg) == pre + ix);
            assert forall|k: int| 0 <= k < segment_steps(seg).len() implies is_name_or_index(#[trigger] segment_steps(seg)[k]) by {
                if k >= pre.len() {
                    assert(segment_steps(seg)[k] == ix[k - pre.len()]);
                }
            }
        },
        None => {
            lemma_prefix_lacks(seg, seg.len() as int, '[');
            assert(seg.subrange(0, seg.len() as int) =~= seg);
        },
    }
}

proof fn lemma_segments_steps_names(segs: Seq<Seq<char>>)
    requires
        forall|k: int| 0 <= k < segs.len() ==> !(#[trigger] segs[k]).contains('.'),
    ensures
        forall|k: int| 0 <= k < segments_steps(segs).len() ==> is_name_or_index(#[trigger] segments_steps(segs)[k]),
    decreases segs.len(),
{
    if segs.len() > 0 {
        let tail = segs.subrange(1, segs.len() as int);
        assert forall|k: int| 0 <= k < tail.len() implies !(#[trigger] tail[k]).contains('.') by {
            assert(tail[k] == segs[k + 1]);
        }
        lemma_segments_steps_names(tail);
        lemma_segment_steps_names(segs[0]);
        let a = segment_steps(segs[0]);
        let b = segments_steps(tail);
        assert(segments_steps(segs) == a + b);
        assert forall|k: int| 0 <= k < segments_steps(segs).len() implies is_name_or_index(#[trigger] segments_steps(segs)[k]) by {
            if k < a.len() {
                assert(segments_steps(segs)[k] == a[k]);
            } else {
                assert(segments_steps(segs)[k] == b[k - a.len()]);
            }
        }
    }
}

/// Every field step of a path names a non-empty field without `.` or `[`;
/// every other step is an index step.
pub proof fn law_path_fields_are_names(path: Seq<char>)
    ensures
        forall|k: int| 0 <= k < path_steps(path).len() ==> is_name_or_index(#[trigger] path_steps(path)[k]),
{
    lemma_split_on_pieces(path, '.');
    lemma_segments_steps_names(split_on(path, '.'));
}

/// How many times `c` occurs in `s`.
pub open spec fn count_char(s: Seq<char>, c: char) -> nat
    decreases s.len(),
{
    if s.len() == 0 {
        0
    } else {
        (if s[0] == c { 1nat } else { 0nat }) + count_char(s.subrange(1, s.len() as int), c)
    }
}

/// How many index steps a run of steps holds.
pub open spec fn index_count(steps: Seq<Step>) -> nat
    decreases steps.len(),
{
    if steps.len() == 0 {
        0
    } else {
        (if steps[0] is Index { 1nat } else { 0nat }) + index_count(steps.subrange(1, steps.len() as int))
    }
}

/// The total count of `c` over a run of texts.
pub open spec fn counts_over(segs: Seq<Seq<char>>, c: char) -> nat
    decreases segs.len(),
{
    if segs.len() == 0 {
        0
    } else {
        count_char(segs[0], c) + counts_over(segs.subrange(1, segs.len() as int), c)
    }
}

/// A field step for each non-empty text, in order.
pub open spec fn named_fields(segs: Seq<Seq<char>>) -> Seq<Step>
    decreases segs.len(),
{
    if segs.len() == 0 {
        seq![]
    } else {
        (if segs[0].len() > 0 { seq![Step::Field(segs[0])] } else { seq![] }) + named_fields(
            segs.subrange(1, segs.len() as int),
        )
    }
}

pub proof fn lemma_count_join(a: Seq<char>, b: Seq<char>, c: char)
    ensures
        count_char(a + b, c) == count_char(a, c) + count_char(b, c),
    decreases a.len(),
{
    if a.len() == 0 {
        assert(a + b =~= b);
    } else {
        lemma_count_join(a.subrange(1, a.len() as int), b, c);
        assert((a + b).subrange(1, (a + b).len() as int) =~= a.subrange(1, a.len() as int) + b);
        assert((a + b)[0] == a[0]);
    }
}

proof fn lemma_index_count_join(a: Seq<Step>, b: Seq<Step>)
    ensures
        index_count(a + b) == index_count(a) + index_count(b),
    decreases a.len(),
{
    if a.len() == 0 {
        assert(a + b =~= b);
    } else {
        lemma_index_count_join(a.subrange(1, a.len() as int), b);
        assert((a + b).subrange(1, (a + b).len() as int) =~= a.subrange(1, a.len() as int) + b);
        assert((a + b)[0] == a[0]);
    }
}

proof fn lemma_index_steps_bound(rest: Seq<char>)
    ensures
        index_count(index_steps(rest)) <= count_char(rest, ']'),
    decreases rest.len(),
{
    if rest.len() > 0 {
        lemma_char_index(rest, ']');
        if let Some(e) = char_index(rest, ']') {
            let tail = rest.subrange(e + 1, rest.len() as int);
            lemma_index_steps_bound(tail);
            assert(rest =~= rest.subrange(0, e) + seq![']'] + tail);
            lemma_count_join(rest.subrange(0, e) + seq![']'], tail, ']');
            lemma_count_join(rest.subrange(0, e), seq![']'], ']');
            assert(seq![']'].subrange(1, 1) =~= Seq::<char>::empty());
            assert(count_char(Seq::<char>::empty(), ']') == 0);
            assert(count_char(seq![']'], ']') == 1);
            let st = index_steps(rest);
            assert(st == seq![Step::Index] + index_steps(tail));
            assert(st.subrange(1, st.len() as int) =~= index_steps(tail));
        } else {
            assert(index_steps(rest) == Seq::<Step>::empty());
        }
    } else {
        assert(index_steps(rest) == Seq::<Step>::empty());
    }
}

proof fn lemma_segment_steps_bound(seg: Seq<char>)
    ensures
        index_count(segment_steps(seg)) <= count_char(seg, ']'),
{
    lemma_char_index(seg, '[');
    match char_index(seg, '[') {
        Some(i) => {
            let pre: Seq<Step> = if i > 0 { seq![Step::Field(seg.subrange(0, i))] } else { seq![] };
            let tail = seg.subrange(i, seg.len() as int);
            lemma_index_steps_bound(tail);
            lemma_index_count_join(pre, index_steps(tail));
            assert(index_count(Seq::<Step>::empty()) == 0);
            if i > 0 {
                assert(pre.subrange(1, 1) =~= Seq::<Step>::empty());
            }
            assert(index_count(pre) == 0);
            assert(seg =~= seg.subrange(0, i) + tail);
            lemma_count_join(seg.subrange(0, i), tail, ']');
        },
        None => {
            if seg.len() > 0 {
                let one = seq![Step::Field(seg)];
                assert(one.subrange(1, 1) =~= Seq::<Step>::empty());
                assert(index_count(Seq::<Step>::empty()) == 0);
                assert(index_count(one) == 0);
            }
        },
    }
}

proof fn lemma_segments_steps_bound(segs: Seq<Seq<char>>)
    ensures
        index_count(segments_steps(segs)) <= counts_over(segs, ']'),
    decreases segs.len(),
{
    if segs.len() > 0 {
        let tail = segs.subrange(1, segs.len() as int);
        lemma_segments_steps_bound(tail);
        lemma_segment_steps_bound(segs[0]);
        lemma_index_count_join(segment_steps(segs[0]), segments_steps(tail));
    }
}

proof fn lemma_split_counts(s: Seq<char>, c: char, d: char)
    requires
        c != d,
    ensures
        counts_over(split_on(s, c), d) == count_char(s, d),
    decreases s.len(),
{
    lemma_char_index(s, c);
    let sp = split_on(s, c);
    match char_index(s, c) {
        Some(i) => {
            let rest = s.subrange(i + 1, s.len() as int);
            lemma_split_counts(rest, c, d);
            assert(sp[0] == s.subrange(0, i));
            assert(sp.subrange(1, sp.len() as int) =~= split_on(rest, c));
            assert(s =~= s.subrange(0, i) + seq![c] + rest);
            lemma_count_join(s.subrange(0, i) + seq![c], rest, d);
            lemma_count_join(s.subrange(0, i), seq![c], d);
            assert(seq![c].subrange(1, 1) =~= Seq::<char>::empty());
            assert(count_char(Seq::<char>::empty(), d) == 0);
            assert(count_char(seq![c], d) == 0);
        },
        None => {
            assert(sp == seq![s]);
            assert(sp.subrange(1, 1) =~= Seq::<Seq<char>>::empty());
            assert(counts_over(Seq::<Seq<char>>::empty(), d) == 0);
        },
    }
}

proof fn lemma_split_on_keeps_lack(s: Seq<char>, c: char, d: char)
    requires
        !s.contains(d),
    ensures
        forall|k: int| 0 <= k < split_on(s, c).len() ==> !(#[trigger] split_on(s, c)[k]).contains(d),
    decreases s.len(),
{
    lemma_char_index(s, c);
    let sp = split_on(s, c);
    match char_index(s, c) {
        Some(i) => {
            let rest = s.subrange(i + 1, s.len() as int);
            assert(!rest.contains(d)) by {
                if rest.contains(d) {
                    let j = choose|j: int| 0 <= j < rest.len() && rest[j] == d;
                    assert(s[i + 1 + j] == d);
                }
            }
            assert(!s.subrange(0, i).contains(d)) by {
                if s.subrange(0, i).contains(d) {
                    let j = choose|j: int| 0 <= j < i && s.subrange(0, i)[j] == d;
                    assert(s[j] == d);
                }
            }
            lemma_split_on_keeps_lack(rest, c, d);
            assert forall|k: int| 0 <= k < sp.len() implies !(#[trigger] sp[k]).contains(d) by {
                if k > 0 {
                    assert(sp[k] == split_on(rest, c)[k - 1]);
                }
            }
        },
        None => {},
    }
}

proof fn lemma_segments_without_brackets(segs: Seq<Seq<char>>)
    requires
        forall|k: int| 0 <= k < segs.len() ==> !(#[trigger] segs[k]).contains('['),
    ensures
        segments_steps(segs) == named_fields(segs),
    decreases segs.len(),
{
    if segs.len() > 0 {
        let tail = segs.subrange(1, segs.len() as int);
        assert forall|k: int| 0 <= k < tail.len() implies !(#[trigger] tail[k]).contains('[') by {
            assert(tail[k] == segs[k + 1]);
        }
        lemma_segments_without_brackets(tail);
        let seg = segs[0];
        lemma_char_index(seg, '[');
        assert(char_index(seg, '[') is None);
    }
}

/// A path never yields more index steps than it holds `]`; and a path
/// without `[` yields one field step for each non-empty piece between its
/// dots, in order (`path.split('.').filter(|s| !s.is_empty())`).
pub proof fn law_path_index_bound_and_plain_form(path: Seq<char>)
    ensures
        index_count(path_steps(path)) <= count_char(path, ']'),
        !path.contains('[') ==> path_steps(path) == named_fields(split_on(path, '.')),
{
    lemma_segments_steps_bound(split_on(path, '.'));
    lemma_split_counts(path, '.', ']');
    if !path.contains('[') {
        lemma_split_on_keeps_lack(path, '.', '[');
        lemma_segments_without_brackets(split_on(path, '.'));
    }
}

/// Appends the index tokens of `seg[j..]`.
fn push_index_tokens(seg: &Vec<char>, j: usize, out: &mut Vec<Token>)
    requires
        j <= seg@.len(),
    ensures
        token_views(final(out)@) == token_views(old(out)@) + index_steps(
            seg@.subrange(j as int, seg@.len() as int),
        ),
{
    let n = seg.len();
    let mut k = j;
    while k < n
        invariant
            n == seg@.len(),
            j <= k <= n,
            token_views(out@) + index_steps(seg@.subrange(k as int, n as int)) == token_views(
                old(out)@,
            ) + index_steps(seg@.subrange(j as int, n as int)),
        decreases n - k,
    {
        let e = find_char(seg, k, ']');
        let ghost rest = seg@.subrange(k as int, n as int);
        if e == n {
            assert(index_steps(rest) =~= Seq::<Step>::empty());
            assert(token_views(out@) + index_steps(seg@.subrange(n as int, n as int)) =~= token_views(
                out@,
            ) + index_steps(rest));
            return;
        }
        let ghost before = out@;
        out.push(Token::Index);
        proof {
            assert(rest.subrange(e - k + 1, rest.len() as int) =~= seg@.subrange(e + 1, n as int));
            assert(token_views(out@) =~= token_views(before).push(Step::Index));
            assert(token_views(out@) + index_steps(seg@.subrange(e + 1, n as int)) =~= token_views(
                before,
            ) + index_steps(rest));
        }
        k = e + 1;
    }
    assert(index_steps(seg@.subrange(n as int, n as int)) =~= Seq::<Step>::empty());
}

/// Appends the tokens of one segment.
fn push_segment_tokens(seg: &Vec<char>, out: &mut Vec<Token>)
    ensures
        token_views(final(out)@) == token_views(old(out)@) + segment_steps(seg@),
{
    let n = seg.len();
    let i = find_char(seg, 0, '[');
    assert(seg@.subrange(0, n as int) =~= seg@);
    if i < n {
        let ghost before = out@;
        if i > 0 {
            let head = sub_chars(seg, 0, i);
            out.push(Token::Field(string_of(&head)));
            assert(token_views(out@) =~= token_views(before).push(Step::Field(seg@.subrange(0, i as int))));
        }
        let ghost mid = out@;
        push_index_tokens(seg, i, out);
        assert(token_views(out@) =~= token_views(before) + segment_steps(seg@));
    } else if n > 0 {
        let ghost before = out@;
        out.push(Token::Field(string_of(seg)));
        assert(token_views(out@) =~= token_views(before) + segment_steps(seg@));
    } else {
        assert(token_views(out@) =~= token_views(old(out)@) + segment_steps(seg@));
    }
}

/// The steps of a dotted path (`a.b[0].c`): field names between the dots,
/// one index step per `[..]` after a name; empty names are skipped.
pub fn tokenize(path: &str) -> (r: Vec<Token>)
    ensures
        token_views(r@) == path_steps(path@),
{
    let cs = chars_of(path);
    let n = cs.len();
    let mut out: Vec<Token> = Vec::new();
    let mut start: usize = 0;
    assert(cs@.subrange(0, n as int) =~= cs@);
    loop
        invariant
            n == cs@.len(),
            start <= n,
            cs@ == path@,
            token_views(out@) + segments_steps(split_on(cs@.subrange(start as int, n as int), '.'))
                == path_steps(path@),
        decreases n - start,
    {
        let e = find_char(&cs, start, '.');
        let seg = sub_chars(&cs, start, e);
        let ghost rest = cs@.subrange(start as int, n as int);
        let ghost before = out@;
        push_segment_tokens(&seg, &mut out);
        if e == n {
            proof {
                assert(seg@ =~= rest);
                let segs = split_on(rest, '.');
                assert(segs =~= seq![rest]);
                assert(segments_steps(segs.subrange(1, 1)) =~= Seq::<Step>::empty());
                assert(token_views(out@) =~= token_views(before) + segments_steps(segs));
            }
            return out;
        }
        proof {
            let segs = split_on(rest, '.');
            assert(rest.subrange(0, e - start) =~= seg@);
            assert(rest.subrange(e - start + 1, rest.len() as int) =~= cs@.subrange(e + 1, n as int));
            let tail = split_on(cs@.subrange(e + 1, n as int), '.');
            assert(segs =~= seq![seg@] + tail);
            assert(segs.subrange(1, segs.len() as int) =~= tail);
            assert(token_views(out@) + segments_steps(tail) =~= token_views(before)
                + segments_steps(segs));
        }
        start = e + 1;
    }
}


/// The definition a `$ref` node names, when the schema has it.
pub open spec fn ref_target(node: Json, root: Json) -> Option<Json> {
    match ref_name(node) {
        Some(name) => match spec_get(root, "definitions"@) {
            Some(defs) => spec_get(defs, name),
            None => None,
        },
        None => None,
    }
}

/// A node with one level of `$ref` (into the root's definitions) or
/// one-element `allOf` indirection followed.
pub open spec fn resolved(node: Json, root: Json) -> Json
    decreases json_size(node),
{
    proof {
        lemma_at_smaller(node, "allOf"@);
    }
    match ref_target(node, root) {
        Some(def) => def,
        None => match single_all_of(node) {
            Some(inner) => resolved(inner, root),
            None => node,
        },
    }
}

/// Follows `$ref` and `allOf: [{$ref}]` indirection so the caller sees the
/// underlying schema.
fn resolve<'a>(node: &'a Json, root: &'a Json) -> (r: &'a Json)
    ensures
        *r == resolved(*node, *root),
    decreases json_size(*node),
{
    proof {
        lemma_at_smaller(*node, "allOf"@);
    }
    if let Some(r) = get_str(node, "$ref") {
        if let Some(name) = strip_prefix_chars(r, "#/definitions/") {
            let name = string_of(&name);
            if let Some(defs) = get(root, "definitions") {
                if let Some(def) = get(defs, name.as_str()) {
                    return def;
                }
            }
        }
    }
    if let Some(arr) = get_array(node, "allOf") {
        if arr.len() == 1 {
            return resolve(&arr[0], root);
        }
    }
    node
}

/// The name of the definition that resolving a node reaches, if it reaches
/// one.
pub open spec fn resolved_name(node: Json, root: Json) -> Option<Seq<char>>
    decreases json_size(node),
{
    proof {
        lemma_at_smaller(node, "allOf"@);
    }
    match ref_target(node, root) {
        Some(_) => ref_name(node),
        None => match single_all_of(node) {
            Some(inner) => resolved_name(inner, root),
            None => None,
        },
    }
}

fn resolve_name(node: &Json, root: &Json) -> (r: Option<String>)
    ensures
        match r {
            Some(n) => resolved_name(*node, *root) == Some(n@),
            None => resolved_name(*node, *root) is None,
        },
    decreases json_size(*node),
{
    proof {
        lemma_at_smaller(*node, "allOf"@);
    }
    if let Some(r) = get_str(node, "$ref") {
        if let Some(name) = strip_prefix_chars(r, "#/definitions/") {
            let name = string_of(&name);
            if let Some(defs) = get(root, "definitions") {
                if get(defs, name.as_str()).is_some() {
                    return Some(name);
                }
            }
        }
    }
    if let Some(arr) = get_array(node, "allOf") {
        if arr.len() == 1 {
            return resolve_name(&arr[0], root);
        }
    }
    None
}

pub open spec fn opt_string_view(o: Option<String>) -> Option<Seq<char>> {
    match o {
        Some(s) => Some(s@),
        None => None,
    }
}

/// Walking the steps from `cursor`: each step first resolves the cursor,
/// then descends into a named property or into the array's items.
pub open spec fn walk_steps(root: Json, cursor: Json, steps: Seq<Step>, path: Seq<char>) -> Result<
    Json,
    Seq<char>,
>
    decreases steps.len(),
{
    if steps.len() == 0 {
        Ok(cursor)
    } else {
        let c = resolved(cursor, root);
        let rest = steps.subrange(1, steps.len() as int);
        match steps[0] {
            Step::Field(name) => match object_at(c, "properties"@) {
                None => Err(
                    "error: cannot descend into '"@ + name
                        + "' — not an object at this point in path '"@ + path + "'"@,
                ),
                Some(props) => match entries_get(props@, name) {
                    None => Err("error: unknown field '"@ + name + "' in path '"@ + path + "'"@),
                    Some(v) => walk_steps(root, v, rest, path),
                },
            },
            Step::Index => match spec_get(c, "items"@) {
                None => Err(
                    "error: '"@ + path + "' uses [N] indexing but element is not an array"@,
                ),
                Some(v) => walk_steps(root, v, rest, path),
            },
        }
    }
}

/// The schema node a dotted path names, or the message for why there is none.
pub open spec fn spec_walk(root: Json, path: Seq<char>) -> Result<Json, Seq<char>> {
    walk_steps(root, root, path_steps(path), path)
}

proof fn lemma_walk_steps_join(root: Json, cursor: Json, s1: Seq<Step>, s2: Seq<Step>, path: Seq<char>)
    ensures
        walk_steps(root, cursor, s1 + s2, path) == (match walk_steps(root, cursor, s1, path) {
            Ok(mid) => walk_steps(root, mid, s2, path),
            Err(e) => Err(e),
        }),
    decreases s1.len(),
{
    if s1.len() == 0 {
        assert(s1 + s2 =~= s2);
    } else {
        let s = s1 + s2;
        let t1 = s1.subrange(1, s1.len() as int);
        assert(s[0] == s1[0]);
        assert(s.subrange(1, s.len() as int) =~= t1 + s2);
        let c = resolved(cursor, root);
        match s1[0] {
            Step::Field(name) => match object_at(c, "properties"@) {
                None => {},
                Some(props) => match entries_get(props@, name) {
                    None => {},
                    Some(v) => lemma_walk_steps_join(root, v, t1, s2, path),
                },
            },
            Step::Index => match spec_get(c, "items"@) {
                None => {},
                Some(v) => lemma_walk_steps_join(root, v, t1, s2, path),
            },
        }
    }
}

/// Walking `a.b` walks `a` from the root and then `b` from the field `a`
/// reached; when the walk to `a` fails, the whole walk fails the same way.
/// (Messages name the whole path that was asked for.)
pub proof fn law_walk_joined_path(root: Json, a: Seq<char>, b: Seq<char>)
    ensures
        spec_walk(root, a + "."@ + b) == (match walk_steps(root, root, path_steps(a), a + "."@ + b) {
            Ok(mid) => walk_steps(root, mid, path_steps(b), a + "."@ + b),
            Err(e) => Err(e),
        }),
{
    law_path_steps_join(a, b);
    lemma_walk_steps_join(root, root, path_steps(a), path_steps(b), a + "."@ + b);
}

/// Walks a dotted path against the schema.
fn walk<'a>(root: &'a Json, path: &str) -> (r: Result<&'a Json, String>)
    ensures
        match r {
            Ok(v) => spec_walk(*root, path@) == Ok::<Json, Seq<char>>(*v),
            Err(e) => spec_walk(*root, path@) == Err::<Json, Seq<char>>(e@),
        },
{
    let tokens = tokenize(path);
    let ghost steps = token_views(tokens@);
    let mut cursor: &Json = root;
    let n = tokens.len();
    let mut i: usize = 0;
    assert(steps.subrange(0, n as int) =~= steps);
    while i < n
        invariant
            n == tokens@.len(),
            i <= n,
            steps == token_views(tokens@),
            steps == path_steps(path@),
            walk_steps(*root, *cursor, steps.subrange(i as int, n as int), path@) == spec_walk(
                *root,
                path@,
            ),
        decreases n - i,
    {
        let ghost sub = steps.subrange(i as int, n as int);
        assert(sub.subrange(1, sub.len() as int) =~= steps.subrange(i + 1, n as int));
        assert(sub[0] == tokens@[i as int]@);
        let c = resolve(cursor, root);
        match &tokens[i] {
            Token::Field(name) => {
                let props = match get_object(c, "properties") {
                    Some(p) => p,
                    None => {
                        let mut e = text("error: cannot descend into '");
                        e.append(name.as_str());
                        e.append("' — not an object at this point in path '");
                        e.append(path);
                        e.append("'");
                        return Err(e);
                    },
                };
                cursor = match crate::json::lookup(props, name.as_str()) {
                    Some(v) => v,
                    None => {
                        let mut e = text("error: unknown field '");
                        e.append(name.as_str());
                        e.append("' in path '");
                        e.append(path);
                        e.append("'");
                        return Err(e);
                    },
                };
            },
            Token::Index => {
                cursor = match get(c, "items") {
                    Some(v) => v,
                    None => {
                        let mut e = text("error: '");
                        e.append(path);
                        e.append("' uses [N] indexing but element is not an array");
                        return Err(e);
                    },
                };
            },
        }
        i = i + 1;
    }
    Ok(cursor)
}


/// Whether every alternative is `{type: "string", enum: [one literal]}`.
pub open spec fn all_string_enums(vs: Seq<Json>) -> bool
    decreases vs.len(),
{
    if vs.len() == 0 {
        true
    } else {
        let v = vs[vs.len() - 1];
        all_string_enums(vs.subrange(0, vs.len() - 1)) && str_at(v, "type"@) == Some("string"@)
            && (array_at(v, "enum"@) matches Some(e) && e@.len() == 1)
    }
}

/// The type line of `explain` for a schema node.
pub open spec fn ex_type(node: Json) -> Seq<char>
    decreases json_size(node), 2nat, 0nat,
{
    proof {
        lemma_at_smaller(node, "allOf"@);
        lemma_at_smaller(node, "anyOf"@);
    }
    if let Some(name) = ref_name(node) {
        name + " (see definition)"@
    } else if let Some(inner) = single_all_of(node) {
        ex_type(inner)
    } else {
        let from_type: Option<Seq<char>> = match spec_get(node, "type"@) {
            Some(Json::String(t)) => Some(ex_primitive(t@, node)),
            Some(Json::Array(ts)) => {
                let types = ex_type_list(ts@, node);
                if types.len() == 0 {
                    Some("null"@)
                } else {
                    Some(join(types, " | "@) + " (optional)"@)
                }
            },
            _ => None,
        };
        match from_type {
            Some(t) => t,
            None => match array_at(node, "anyOf"@) {
                Some(any) => {
                    let types = ex_any_of(any@);
                    if types.len() == 1 && any@.len() == 2 {
                        types[0] + " (optional)"@
                    } else {
                        join(types, " | "@)
                    }
                },
                None => match array_at(node, "oneOf"@) {
                    Some(alts) => if all_string_enums(alts@) && alts@.len() > 0 {
                        "string (enum)"@
                    } else {
                        "tagged union"@
                    },
                    None => if spec_get(node, "enum"@) is Some {
                        "string (enum)"@
                    } else {
                        "any"@
                    },
                },
            },
        }
    }
}

/// The type texts of the non-`null` names in a `type: [..]` list.
pub open spec fn ex_type_list(ts: Seq<Json>, node: Json) -> Seq<Seq<char>>
    decreases json_size(node), 1nat, ts.len(),
{
    if ts.len() == 0 {
        seq![]
    } else {
        let rest = ex_type_list(ts.subrange(0, ts.len() - 1), node);
        match ts[ts.len() - 1] {
            Json::String(t) => if t@ == "null"@ {
                rest
            } else {
                rest.push(ex_primitive(t@, node))
            },
            _ => rest,
        }
    }
}

/// The type texts of the `anyOf` alternatives that are not `type: "null"`.
pub open spec fn ex_any_of(items: Seq<Json>) -> Seq<Seq<char>>
    decreases items_size(items), 3nat, 0nat,
{
    if items.len() == 0 {
        seq![]
    } else {
        let last = items[items.len() - 1];
        proof {
            lemma_size_positive(last);
        }
        let rest = ex_any_of(items.subrange(0, items.len() - 1));
        if str_at(last, "type"@) == Some("null"@) {
            rest
        } else {
            rest.push(ex_type(last))
        }
    }
}

/// The type text of a primitive type name.
pub open spec fn ex_primitive(t: Seq<char>, node: Json) -> Seq<char>
    decreases json_size(node), 1nat, 0nat,
{
    proof {
        lemma_at_smaller(node, "additionalProperties"@);
        lemma_at_smaller(node, "items"@);
    }
    if t == "object"@ {
        match spec_get(node, "additionalProperties"@) {
            Some(add) => if add != Json::Bool(false) {
                "map<string, "@ + ex_type(add) + ">"@
            } else {
                "object"@
            },
            None => "object"@,
        }
    } else if t == "array"@ {
        match spec_get(node, "items"@) {
            Some(items) => "array<"@ + ex_type(items) + ">"@,
            None => "array"@,
        }
    } else {
        t
    }
}

fn string_enums(alts: &Vec<Json>) -> (r: bool)
    ensures
        r == all_string_enums(alts@),
{
    let n = alts.len();
    let mut i: usize = 0;
    let mut all = true;
    while i < n
        invariant
            n == alts@.len(),
            i <= n,
            all == all_string_enums(alts@.subrange(0, i as int)),
        decreases n - i,
    {
        let v = &alts[i];
        let is_string = match get_str(v, "type") {
            Some(t) => str_eq(t, "string"),
            None => false,
        };
        let one = match get_array(v, "enum") {
            Some(e) => e.len() == 1,
            None => false,
        };
        all = all && is_string && one;
        proof {
            let sub = alts@.subrange(0, i + 1);
            assert(sub.subrange(0, i as int) =~= alts@.subrange(0, i as int));
            assert(sub[i as int] == *v);
        }
        i = i + 1;
    }
    assert(alts@.subrange(0, n as int) =~= alts@);
    all
}

fn type_of(node: &Json) -> (r: String)
    ensures
        r@ == ex_type(*node),
    decreases json_size(*node), 2nat, 0nat,
{
    proof {
        lemma_at_smaller(*node, "allOf"@);
        lemma_at_smaller(*node, "anyOf"@);
    }
    if let Some(r) = get_str(node, "$ref") {
        if let Some(name) = strip_prefix_chars(r, "#/definitions/") {
            let mut out = string_of(&name);
            out.append(" (see definition)");
            return out;
        }
    }
    if let Some(arr) = get_array(node, "allOf") {
        if arr.len() == 1 {
            return type_of(&arr[0]);
        }
    }
    if let Some(t) = get(node, "type") {
        match t {
            Json::String(name) => {
                return primitive_to_str(name.as_str(), node);
            },
            Json::Array(ts) => {
                let mut types: Vec<String> = Vec::new();
                let n = ts.len();
                let mut i: usize = 0;
                while i < n
                    invariant
                        n == ts@.len(),
                        i <= n,
                        string_views(types@) == ex_type_list(ts@.subrange(0, i as int), *node),
                    decreases n - i,
                {
                    if let Json::String(name) = &ts[i] {
                        if !str_eq(name.as_str(), "null") {
                            let ty = primitive_to_str(name.as_str(), node);
                            types.push(ty);
                        }
                    }
                    proof {
                        let sub = ts@.subrange(0, i + 1);
                        assert(sub.subrange(0, i as int) =~= ts@.subrange(0, i as int));
                        assert(string_views(types@) =~= ex_type_list(sub, *node));
                    }
                    i = i + 1;
                }
                assert(ts@.subrange(0, n as int) =~= ts@);
                if types.len() == 0 {
                    return text("null");
                }
                let mut out = join_strings(&types, " | ");
                out.append(" (optional)");
                return out;
            },
            _ => {},
        }
    }
    if let Some(any) = get_array(node, "anyOf") {
        let mut types: Vec<String> = Vec::new();
        let n = any.len();
        let mut i: usize = 0;
        while i < n
            invariant
                n == any@.len(),
                i <= n,
                forall|k: int| 0 <= k < n ==> #[trigger] json_size(any@[k]) < json_size(*node),
                string_views(types@) == ex_any_of(any@.subrange(0, i as int)),
            decreases n - i,
        {
            let item = &any[i];
            let is_null = match get_str(item, "type") {
                Some(t) => str_eq(t, "null"),
                None => false,
            };
            if !is_null {
                let ty = type_of(item);
                types.push(ty);
            }
            proof {
                let sub = any@.subrange(0, i + 1);
                assert(sub.subrange(0, i as int) =~= any@.subrange(0, i as int));
                assert(sub[i as int] == *item);
                assert(string_views(types@) =~= ex_any_of(sub));
            }
            i = i + 1;
        }
        assert(any@.subrange(0, n as int) =~= any@);
        if types.len() == 1 && n == 2 {
            let mut out = text(types[0].as_str());
            out.append(" (optional)");
            return out;
        }
        return join_strings(&types, " | ");
    }
    if let Some(alts) = get_array(node, "oneOf") {
        if string_enums(alts) && alts.len() > 0 {
            return text("string (enum)");
        }
        return text("tagged union");
    }
    if get(node, "enum").is_some() {
        return text("string (enum)");
    }
    text("any")
}

fn primitive_to_str(t: &str, node: &Json) -> (r: String)
    ensures
        r@ == ex_primitive(t@, *node),
    decreases json_size(*node), 1nat, 0nat,
{
    proof {
        lemma_at_smaller(*node, "additionalProperties"@);
        lemma_at_smaller(*node, "items"@);
    }
    if str_eq(t, "object") {
        if let Some(add) = get(node, "additionalProperties") {
            let is_false = match add {
                Json::Bool(b) => !*b,
                _ => false,
            };
            if !is_false {
                let inner = type_of(add);
                let mut out = text("map<string, ");
                out.append(inner.as_str());
                out.append(">");
                return out;
            }
        }
        return text("object");
    }
    if str_eq(t, "array") {
        if let Some(items) = get(node, "items") {
            let inner = type_of(items);
            let mut out = text("array<");
            out.append(inner.as_str());
            out.append(">");
            return out;
        }
        return text("array");
    }
    text(t)
}


/// The default of a node as `explain` shows it: strings quoted, other
/// scalars and empty containers as they are written, other containers as
/// compact JSON; `null` and a missing default show nothing.
pub open spec fn ex_default(node: Json) -> Option<Seq<char>> {
    match spec_get(node, "default"@) {
        None => None,
        Some(Json::Null) => None,
        Some(Json::String(s)) => Some("\""@ + s@ + "\""@),
        Some(Json::Bool(b)) => Some(
            if b {
                "true"@
            } else {
                "false"@
            },
        ),
        Some(Json::Number(n)) => Some(n@),
        Some(Json::Array(a)) => if a@.len() == 0 {
            Some("[]"@)
        } else {
            Some(json_text(Json::Array(a)))
        },
        Some(Json::Object(o)) => if o@.len() == 0 {
            Some("{}"@)
        } else {
            Some(json_text(Json::Object(o)))
        },
    }
}

fn default_of(node: &Json) -> (r: Option<String>)
    ensures
        match r {
            Some(d) => ex_default(*node) == Some(d@),
            None => ex_default(*node) is None,
        },
{
    match get(node, "default") {
        None => None,
        Some(Json::Null) => None,
        Some(Json::String(s)) => {
            let mut out = text("\"");
            out.append(s.as_str());
            out.append("\"");
            Some(out)
        },
        Some(Json::Bool(b)) => if *b {
            Some(text("true"))
        } else {
            Some(text("false"))
        },
        Some(Json::Number(n)) => Some(text(n.as_str())),
        Some(v) => match v {
            Json::Array(a) => if a.len() == 0 {
                Some(text("[]"))
            } else {
                Some(compact_json(v))
            },
            Json::Object(o) => if o.len() == 0 {
                Some(text("{}"))
            } else {
                Some(compact_json(v))
            },
            _ => None,
        },
    }
}

/// The string items of an array, in order.
pub open spec fn string_items(vs: Seq<Json>) -> Seq<Seq<char>>
    decreases vs.len(),
{
    if vs.len() == 0 {
        seq![]
    } else {
        let rest = string_items(vs.subrange(0, vs.len() - 1));
        match vs[vs.len() - 1] {
            Json::String(s) => rest.push(s@),
            _ => rest,
        }
    }
}

/// The first `enum` literal of each alternative that has one.
pub open spec fn one_of_literals(vs: Seq<Json>) -> Seq<Seq<char>>
    decreases vs.len(),
{
    if vs.len() == 0 {
        seq![]
    } else {
        let rest = one_of_literals(vs.subrange(0, vs.len() - 1));
        match first_str(array_at(vs[vs.len() - 1], "enum"@)) {
            Some(lit) => rest.push(lit),
            None => rest,
        }
    }
}

/// The allowed values of a string enum: its `enum` list, or the literals of
/// its `oneOf` alternatives when there are any.
pub open spec fn enum_values_of(node: Json) -> Option<Seq<Seq<char>>> {
    match array_at(node, "enum"@) {
        Some(arr) => Some(string_items(arr@)),
        None => match array_at(node, "oneOf"@) {
            Some(arr) => if one_of_literals(arr@).len() > 0 {
                Some(one_of_literals(arr@))
            } else {
                None
            },
            None => None,
        },
    }
}

fn enum_values(node: &Json) -> (r: Option<Vec<String>>)
    ensures
        match r {
            Some(v) => enum_values_of(*node) == Some(string_views(v@)),
            None => enum_values_of(*node) is None,
        },
{
    if let Some(arr) = get_array(node, "enum") {
        let mut out: Vec<String> = Vec::new();
        let n = arr.len();
        let mut i: usize = 0;
        while i < n
            invariant
                n == arr@.len(),
                i <= n,
                string_views(out@) == string_items(arr@.subrange(0, i as int)),
            decreases n - i,
        {
            let ghost before = out@;
            if let Json::String(s) = &arr[i] {
                out.push(text(s.as_str()));
            }
            proof {
                let sub = arr@.subrange(0, i + 1);
                assert(sub.subrange(0, i as int) =~= arr@.subrange(0, i as int));
                assert(string_views(out@) =~= string_items(sub));
            }
            i = i + 1;
        }
        assert(arr@.subrange(0, n as int) =~= arr@);
        return Some(out);
    }
    if let Some(arr) = get_array(node, "oneOf") {
        let mut out: Vec<String> = Vec::new();
        let n = arr.len();
        let mut i: usize = 0;
        while i < n
            invariant
                n == arr@.len(),
                i <= n,
                string_views(out@) == one_of_literals(arr@.subrange(0, i as int)),
            decreases n - i,
        {
            let lit: Option<&str> = match get_array(&arr[i], "enum") {
                Some(e) => if e.len() > 0 {
                    match &e[0] {
                        Json::String(s) => Some(s.as_str()),
                        _ => None,
                    }
                } else {
                    None
                },
                None => None,
            };
            assert(opt_str(lit) == first_str(array_at(arr@[i as int], "enum"@)));
            if let Some(l) = lit {
                out.push(text(l));
            }
            proof {
                let sub = arr@.subrange(0, i + 1);
                assert(sub.subrange(0, i as int) =~= arr@.subrange(0, i as int));
                assert(string_views(out@) =~= one_of_literals(sub));
            }
            i = i + 1;
        }
        assert(arr@.subrange(0, n as int) =~= arr@);
        if out.len() > 0 {
            return Some(out);
        }
    }
    None
}


/// The default shown for a field: its own, else that of what it resolves to.
pub open spec fn field_default(field: Json, r: Json) -> Option<Seq<char>> {
    match ex_default(field) {
        Some(d) => Some(d),
        None => ex_default(r),
    }
}

/// The description shown for a field: its own, else that of what it
/// resolves to, else nothing.
pub open spec fn field_desc(field: Json, r: Json) -> Seq<char> {
    match str_at(field, "description"@) {
        Some(d) => d,
        None => match str_at(r, "description"@) {
            Some(d) => d,
            None => ""@,
        },
    }
}

/// `    - value` lines.
pub open spec fn value_lines(vs: Seq<Seq<char>>) -> Seq<char>
    decreases vs.len(),
{
    if vs.len() == 0 {
        seq![]
    } else {
        value_lines(vs.subrange(0, vs.len() - 1)) + "    - "@ + vs[vs.len() - 1] + "\n"@
    }
}

/// `    - key: type` lines for the given keys.
pub open spec fn field_lines(ks: Seq<Seq<char>>, es: Seq<(String, Json)>) -> Seq<char>
    decreases ks.len(),
{
    if ks.len() == 0 {
        seq![]
    } else {
        let k = ks[ks.len() - 1];
        field_lines(ks.subrange(0, ks.len() - 1), es) + "    - "@ + k + ": "@ + ex_type(
            value_at(es, k),
        ) + "\n"@
    }
}

/// Description lines, each indented by two spaces.
pub open spec fn indented_lines(ls: Seq<Seq<char>>) -> Seq<char>
    decreases ls.len(),
{
    if ls.len() == 0 {
        seq![]
    } else {
        indented_lines(ls.subrange(0, ls.len() - 1)) + "  "@ + ls[ls.len() - 1] + "\n"@
    }
}

/// A field's type: `Name (enum)` when the field names a definition whose
/// values are listed, else the type of what it resolves to.
pub open spec fn ex_field_type(name: Option<Seq<char>>, r: Json) -> Seq<char> {
    match name {
        Some(n) => if enum_values_of(r) is Some {
            n + " (enum)"@
        } else {
            ex_type(r)
        },
        None => ex_type(r),
    }
}

/// The first lines of a field's description: path, type and default.
pub open spec fn ex_field_head(path: Seq<char>, field: Json, r: Json, name: Option<Seq<char>>) -> Seq<char> {
    path + "\n"@ + "  Type:    "@ + ex_field_type(name, r) + "\n"@ + (match field_default(field, r) {
        Some(d) => "  Default: "@ + d + "\n"@,
        None => seq![],
    })
}

/// The allowed-values block of a field's description.
pub open spec fn ex_field_values(r: Json) -> Seq<char> {
    match enum_values_of(r) {
        Some(vs) => "  Allowed values:\n"@ + value_lines(vs),
        None => seq![],
    }
}

/// The fields block of a field's description, in key order.
pub open spec fn ex_field_fields(r: Json) -> Seq<char> {
    match object_at(r, "properties"@) {
        Some(props) => {
            let ks = sort_seqs(keys_of(props@));
            if ks.len() > 0 {
                "  Fields:\n"@ + field_lines(ks, props@)
            } else {
                seq![]
            }
        },
        None => seq![],
    }
}

/// The description block: a blank line, then each line indented.
pub open spec fn ex_field_desc(desc: Seq<char>) -> Seq<char> {
    if desc.len() > 0 {
        "\n"@ + indented_lines(lines_of(desc))
    } else {
        seq![]
    }
}

/// The description of one field: its path, type, default, allowed values,
/// its own fields in key order, and its description.
pub open spec fn ex_field(path: Seq<char>, field: Json, root: Json) -> Seq<char> {
    let r = resolved(field, root);
    ex_field_head(path, field, r, resolved_name(field, root)) + ex_field_values(r) + ex_field_fields(r) + ex_field_desc(
        field_desc(field, r),
    )
}

fn render_values(vs: &Vec<String>, out: &mut String)
    ensures
        final(out)@ == old(out)@ + value_lines(string_views(vs@)),
{
    let ghost start = out@;
    let n = vs.len();
    let mut i: usize = 0;
    while i < n
        invariant
            n == vs@.len(),
            i <= n,
            out@ == start + value_lines(string_views(vs@).subrange(0, i as int)),
        decreases n - i,
    {
        out.append("    - ");
        out.append(vs[i].as_str());
        out.append("\n");
        proof {
            let sub = string_views(vs@).subrange(0, i + 1);
            assert(sub.subrange(0, i as int) =~= string_views(vs@).subrange(0, i as int));
            assert(out@ =~= start + value_lines(sub));
        }
        i = i + 1;
    }
    assert(string_views(vs@).subrange(0, n as int) =~= string_views(vs@));
}

fn render_field_lines(keys: &Vec<&str>, props: &Vec<(String, Json)>, out: &mut String)
    ensures
        final(out)@ == old(out)@ + field_lines(str_views(keys@), props@),
{
    let ghost start = out@;
    let null = Json::Null;
    let n = keys.len();
    let mut i: usize = 0;
    while i < n
        invariant
            n == keys@.len(),
            i <= n,
            null == Json::Null,
            out@ == start + field_lines(str_views(keys@).subrange(0, i as int), props@),
        decreases n - i,
    {
        let key = keys[i];
        let v = match crate::json::lookup(props, key) {
            Some(v) => v,
            None => &null,
        };
        assert(*v == value_at(props@, key@));
        let ty = type_of(v);
        out.append("    - ");
        out.append(key);
        out.append(": ");
        out.append(ty.as_str());
        out.append("\n");
        proof {
            let ks = str_views(keys@);
            let sub = ks.subrange(0, i + 1);
            assert(sub.subrange(0, i as int) =~= ks.subrange(0, i as int));
            assert(sub[i as int] == key@);
            assert(out@ =~= start + field_lines(sub, props@));
        }
        i = i + 1;
    }
    assert(str_views(keys@).subrange(0, n as int) =~= str_views(keys@));
}

fn render_desc_lines(desc: &str, out: &mut String)
    ensures
        final(out)@ == old(out)@ + indented_lines(lines_of(desc@)),
{
    let cs = chars_of(desc);
    let lines = lines_from(&cs, 0);
    assert(cs@.subrange(0, cs@.len() as int) =~= cs@);
    let ghost ls = lines@.map_values(|l: Vec<char>| l@);
    let ghost start = out@;
    let n = lines.len();
    let mut i: usize = 0;
    while i < n
        invariant
            n == lines@.len(),
            i <= n,
            ls == lines@.map_values(|l: Vec<char>| l@),
            out@ == start + indented_lines(ls.subrange(0, i as int)),
        decreases n - i,
    {
        out.append("  ");
        let line = string_of(&lines[i]);
        out.append(line.as_str());
        out.append("\n");
        proof {
            let sub = ls.subrange(0, i + 1);
            assert(sub.subrange(0, i as int) =~= ls.subrange(0, i as int));
            assert(sub[i as int] == lines@[i as int]@);
            assert(out@ =~= start + indented_lines(sub));
        }
        i = i + 1;
    }
    assert(ls.subrange(0, n as int) =~= ls);
}

fn render_field_head(path: &str, field: &Json, resolved: &Json, name: Option<String>) -> (r: String)
    ensures
        r@ == ex_field_head(path@, *field, *resolved, opt_string_view(name)),
{
    let ty = match name {
        Some(n) => if enum_values(resolved).is_some() {
            let mut t = n;
            t.append(" (enum)");
            t
        } else {
            type_of(resolved)
        },
        None => type_of(resolved),
    };
    let default = match default_of(field) {
        Some(d) => Some(d),
        None => default_of(resolved),
    };
    let mut out = text(path);
    out.append("\n");
    out.append("  Type:    ");
    out.append(ty.as_str());
    out.append("\n");
    if let Some(d) = &default {
        out.append("  Default: ");
        out.append(d.as_str());
        out.append("\n");
    }
    assert(out@ =~= ex_field_head(path@, *field, *resolved, opt_string_view(name)));
    out
}

fn render_field_values(resolved: &Json, out: &mut String)
    ensures
        final(out)@ == old(out)@ + ex_field_values(*resolved),
{
    if let Some(values) = enum_values(resolved) {
        out.append("  Allowed values:\n");
        render_values(&values, out);
    }
    assert(out@ =~= old(out)@ + ex_field_values(*resolved));
}

fn render_field_fields(resolved: &Json, out: &mut String)
    ensures
        final(out)@ == old(out)@ + ex_field_fields(*resolved),
{
    if let Some(props) = get_object(resolved, "properties") {
        let keys = sorted_keys(props);
        if keys.len() > 0 {
            out.append("  Fields:\n");
            render_field_lines(&keys, props, out);
        }
    }
    assert(out@ =~= old(out)@ + ex_field_fields(*resolved));
}

fn render_field(path: &str, field: &Json, root: &Json) -> (r: String)
    ensures
        r@ == ex_field(path@, *field, *root),
{
    let resolved = resolve(field, root);
    let desc: &str = match get_str(field, "description") {
        Some(d) => d,
        None => match get_str(resolved, "description") {
            Some(d) => d,
            None => "",
        },
    };
    assert(desc@ == field_desc(*field, *resolved));
    let name = resolve_name(field, root);
    let mut out = render_field_head(path, field, resolved, name);
    render_field_values(resolved, &mut out);
    render_field_fields(resolved, &mut out);
    let ghost c = out@;
    if desc.unicode_len() > 0 {
        out.append("\n");
        render_desc_lines(desc, &mut out);
    }
    assert(out@ =~= c + ex_field_desc(desc@));
    assert(out@ =~= ex_field(path@, *field, *root));
    out
}

/// What `explain <path>` prints: the field's description, or the message
/// for why the path names no field.
pub open spec fn spec_explain(schema: Json, path: Seq<char>) -> Result<Seq<char>, Seq<char>> {
    match spec_walk(schema, path) {
        Ok(field) => Ok(ex_field(path, field, schema)),
        Err(e) => Err(e),
    }
}

/// Describes the field a dotted path names, or says why none is named.
pub fn explain_path(schema: &Json, path: &str) -> (r: Result<String, String>)
    ensures
        match r {
            Ok(t) => spec_explain(*schema, path@) == Ok::<Seq<char>, Seq<char>>(t@),
            Err(e) => spec_explain(*schema, path@) == Err::<Seq<char>, Seq<char>>(e@),
        },
{
    match walk(schema, path) {
        Ok(field) => Ok(render_field(path, field, schema)),
        Err(e) => Err(e),
    }
}

/// One line of the top-level listing: the key, and its summary when it has
/// one, the key padded to 24 characters.
pub open spec fn root_line(key: Seq<char>, field: Json) -> Seq<char> {
    let summary = match str_at(field, "description"@) {
        Some(d) => spec_first_line(d),
        None => seq![],
    };
    if summary.len() == 0 {
        "  "@ + key + "\n"@
    } else {
        "  "@ + pad_right(key, 24) + " — "@ + summary + "\n"@
    }
}

pub open spec fn root_lines(ks: Seq<Seq<char>>, es: Seq<(String, Json)>) -> Seq<char>
    decreases ks.len(),
{
    if ks.len() == 0 {
        seq![]
    } else {
        let k = ks[ks.len() - 1];
        root_lines(ks.subrange(0, ks.len() - 1), es) + root_line(k, value_at(es, k))
    }
}

/// The listing of the top-level fields, in key order.
pub open spec fn ex_root(schema: Json) -> Seq<char> {
    "AppConfig — top-level fields:\n"@ + "\n"@ + (match object_at(schema, "properties"@) {
        Some(props) => root_lines(sort_seqs(keys_of(props@)), props@),
        None => seq![],
    }) + "\nUse `mcpg config explain <field>` to drill into a specific block."@ + "\n"@
}

fn render_root_line(key: &str, field: &Json, out: &mut String)
    ensures
        final(out)@ == old(out)@ + root_line(key@, *field),
{
    let summary = match get_str(field, "description") {
        Some(d) => first_line(d),
        None => String::new(),
    };
    out.append("  ");
    if summary.unicode_len() == 0 {
        out.append(key);
    } else {
        append_padded(out, key, 24);
        out.append(" — ");
        out.append(summary.as_str());
    }
    out.append("\n");
    assert(out@ =~= old(out)@ + root_line(key@, *field));
}

/// The top-level field listing of `explain` without a path.
pub fn render_root(schema: &Json) -> (r: String)
    ensures
        r@ == ex_root(*schema),
{
    let mut out = text("AppConfig — top-level fields:\n");
    out.append("\n");
    let ghost start = out@;
    if let Some(props) = get_object(schema, "properties") {
        let keys = sorted_keys(props);
        let null = Json::Null;
        let n = keys.len();
        let mut i: usize = 0;
        while i < n
            invariant
                n == keys@.len(),
                i <= n,
                null == Json::Null,
                out@ == start + root_lines(str_views(keys@).subrange(0, i as int), props@),
            decreases n - i,
        {
            let key = keys[i];
            let v = match crate::json::lookup(props, key) {
                Some(v) => v,
                None => &null,
            };
            render_root_line(key, v, &mut out);
            proof {
                let ks = str_views(keys@);
                let sub = ks.subrange(0, i + 1);
                assert(sub.subrange(0, i as int) =~= ks.subrange(0, i as int));
                assert(sub[i as int] == key@);
                assert(out@ =~= start + root_lines(sub, props@));
            }
            i = i + 1;
        }
        assert(str_views(keys@).subrange(0, n as int) =~= str_views(keys@));
    }
    out.append("\nUse `mcpg config explain <field>` to drill into a specific block.");
    out.append("\n");
    assert(out@ =~= ex_root(*schema));
    out
}

proof fn lemma_ex_any_of_filter(items: Seq<Json>)
    ensures
        ex_any_of(items).len() == items.filter(not_null_alternative()).len(),
        forall|i: int| 0 <= i < ex_any_of(items).len() ==> #[trigger] ex_any_of(items)[i] == ex_type(
            items.filter(not_null_alternative())[i],
        ),
    decreases items.len(),
{
    reveal(Seq::filter);
    if items.len() > 0 {
        let init = items.drop_last();
        assert(init =~= items.subrange(0, items.len() - 1));
        lemma_ex_any_of_filter(init);
        let f = init.filter(not_null_alternative());
        let m = ex_any_of(init);
        if str_at(items.last(), "type"@) != Some("null"@) {
            assert(items.filter(not_null_alternative()) == f.push(items.last()));
            assert forall|i: int| 0 <= i < ex_any_of(items).len() implies #[trigger] ex_any_of(items)[i] == ex_type(
                items.filter(not_null_alternative())[i],
            ) by {
                if i < m.len() {
                    assert(ex_any_of(items)[i] == m[i]);
                }
            }
        } else {
            assert(items.filter(not_null_alternative()) == f);
        }
    }
}

/// The type line of an `anyOf` node: the types of every alternative that is
/// not `null`, in order, joined by ` | `; only when exactly one of exactly
/// two alternatives is not `null` is it that one type marked ` (optional)`.
pub proof fn law_any_of_type_line(node: Json, items: Seq<Json>)
    requires
        str_at(node, "$ref"@) is None,
        array_at(node, "allOf"@) is None,
        spec_get(node, "type"@) is None,
        array_at(node, "anyOf"@) matches Some(a) && a@ == items,
    ensures
        ex_any_of(items).len() == items.filter(not_null_alternative()).len(),
        forall|i: int| 0 <= i < ex_any_of(items).len() ==> #[trigger] ex_any_of(items)[i] == ex_type(
            items.filter(not_null_alternative())[i],
        ),
        items.filter(not_null_alternative()).len() == 1 && items.len() == 2 ==> ex_type(node) == ex_type(
            items.filter(not_null_alternative())[0],
        ) + " (optional)"@,
        !(items.filter(not_null_alternative()).len() == 1 && items.len() == 2) ==> ex_type(node) == join(
            ex_any_of(items),
            " | "@,
        ),
{
    lemma_ex_any_of_filter(items);
}

/// The Default line shows a string default in quotes as it stands, and any
/// other default as its compact JSON text: `true`/`false` for a boolean, the
/// number's own text, `[]`, `{}` or the full JSON of a list or object. A
/// null or absent default shows none; different booleans show differently.
pub proof fn law_default_text(node: Json)
    ensures
        spec_get(node, "default"@) is None ==> ex_default(node) is None,
        spec_get(node, "default"@) == Some(Json::Null) ==> ex_default(node) is None,
        spec_get(node, "default"@) matches Some(Json::String(s)) ==> ex_default(node) == Some(
            "\""@ + s@ + "\""@,
        ),
        spec_get(node, "default"@) matches Some(v) ==> (!(v is Null) && !(v is String) ==> ex_default(
            node,
        ) == Some(json_text(v))),
        spec_get(node, "default"@) == Some(Json::Bool(true)) ==> ex_default(node) == Some("true"@),
        spec_get(node, "default"@) == Some(Json::Bool(false)) ==> ex_default(node) == Some("false"@),
        "true"@ != "false"@,
{
    reveal_strlit("true");
    reveal_strlit("false");
    reveal_strlit("[]");
    reveal_strlit("{}");
    reveal_strlit("[");
    reveal_strlit("]");
    reveal_strlit("{");
    reveal_strlit("}");
    if let Some(v) = spec_get(node, "default"@) {
        match v {
            Json::Array(a) => {
                if a@.len() == 0 {
                    assert(crate::json::items_texts(a@) =~= Seq::<Seq<char>>::empty());
                    assert(json_text(v) =~= "[]"@);
                }
            },
            Json::Object(o) => {
                if o@.len() == 0 {
                    assert(crate::json::entries_texts(o@) =~= Seq::<Seq<char>>::empty());
                    assert(json_text(v) =~= "{}"@);
                }
            },
            _ => {},
        }
    }
    assert("true"@.len() != "false"@.len());
}

proof fn lemma_ex_type_list_filter(ts: Seq<Json>, node: Json)
    ensures
        ex_type_list(ts, node).len() == ts.filter(named_type()).len(),
        forall|i: int| 0 <= i < ex_type_list(ts, node).len() ==> #[trigger] ex_type_list(ts, node)[i]
            == ex_primitive(ts.filter(named_type())[i]->String_0@, node),
    decreases ts.len(),
{
    reveal(Seq::filter);
    if ts.len() > 0 {
        let init = ts.drop_last();
        assert(init =~= ts.subrange(0, ts.len() - 1));
        lemma_ex_type_list_filter(init, node);
        let f = init.filter(named_type());
        let m = ex_type_list(init, node);
        if named_type()(ts.last()) {
            assert(ts.filter(named_type()) == f.push(ts.last()));
            assert forall|i: int| 0 <= i < ex_type_list(ts, node).len() implies #[trigger] ex_type_list(ts, node)[i]
                == ex_primitive(ts.filter(named_type())[i]->String_0@, node) by {
                if i < m.len() {
                    assert(ex_type_list(ts, node)[i] == m[i]);
                }
            }
        } else {
            assert(ts.filter(named_type()) == f);
        }
    }
}

/// The type line of a node with a `type` list: `null` when it names no type
/// but `null`, else every other named type, in order, joined by ` | ` and
/// marked ` (optional)`.
pub proof fn law_type_list_line(node: Json, ts: Seq<Json>)
    requires
        str_at(node, "$ref"@) is None,
        array_at(node, "allOf"@) is None,
        spec_get(node, "type"@) matches Some(Json::Array(a)) && a@ == ts,
    ensures
        ex_type_list(ts, node).len() == ts.filter(named_type()).len(),
        forall|i: int| 0 <= i < ex_type_list(ts, node).len() ==> #[trigger] ex_type_list(ts, node)[i]
            == ex_primitive(ts.filter(named_type())[i]->String_0@, node),
        ts.filter(named_type()).len() == 0 ==> ex_type(node) == "null"@,
        ts.filter(named_type()).len() > 0 ==> ex_type(node) == join(ex_type_list(ts, node), " | "@)
            + " (optional)"@,
{
    lemma_ex_type_list_filter(ts, node);
}

/// A field that names a definition listing its allowed values is typed as
/// that definition's name marked ` (enum)`; otherwise the type line is the
/// type of what the field resolves to.
pub proof fn law_named_enum_type(name: Option<Seq<char>>, r: Json)
    ensures
        name matches Some(n) ==> (enum_values_of(r) is Some ==> ex_field_type(name, r) == n + " (enum)"@),
        !(name is Some && enum_values_of(r) is Some) ==> ex_field_type(name, r) == ex_type(r),
{
}

/// A map node is typed by its values and a list node by its items: an
/// `object` whose `additionalProperties` is a schema (not `false`) is
/// `map<string, T>`, an `array` with `items` is `array<T>`, `T` being the
/// type of that schema; without one they are `object` and `array`.
pub proof fn law_container_type_lines(node: Json)
    requires
        str_at(node, "$ref"@) is None,
        array_at(node, "allOf"@) is None,
    ensures
        str_at(node, "type"@) == Some("object"@) ==> (spec_get(node, "additionalProperties"@) matches Some(
            vals,
        ) ==> (vals != Json::Bool(false) ==> ex_type(node) == "map<string, "@ + ex_type(vals) + ">"@)),
        str_at(node, "type"@) == Some("object"@) ==> (spec_get(node, "additionalProperties"@) is None
            || spec_get(node, "additionalProperties"@) == Some(Json::Bool(false)) ==> ex_type(node)
            == "object"@),
        str_at(node, "type"@) == Some("array"@) ==> (spec_get(node, "items"@) matches Some(items)
            ==> ex_type(node) == "array<"@ + ex_type(items) + ">"@),
        str_at(node, "type"@) == Some("array"@) ==> (spec_get(node, "items"@) is None ==> ex_type(node)
            == "array"@),
{
    reveal_strlit("object");
    reveal_strlit("array");
    assert("object"@[0] != "array"@[0]);
    if let Some(Json::String(t)) = spec_get(node, "type"@) {
        assert(ex_type(node) == ex_primitive(t@, node));
    }
}

proof fn lemma_root_lines_join(a: Seq<Seq<char>>, b: Seq<Seq<char>>, es: Seq<(String, Json)>)
    ensures
        root_lines(a + b, es) == root_lines(a, es) + root_lines(b, es),
    decreases b.len(),
{
    if b.len() == 0 {
        assert(a + b =~= a);
        assert(root_lines(a, es) + root_lines(b, es) =~= root_lines(a, es));
    } else {
        let bi = b.subrange(0, b.len() - 1);
        lemma_root_lines_join(a, bi, es);
        assert((a + b).subrange(0, (a + b).len() - 1) =~= a + bi);
        assert((a + b)[(a + b).len() - 1] == b[b.len() - 1]);
        assert(root_lines(a + b, es) =~= root_lines(a, es) + root_lines(b, es));
    }
}

/// The root listing has one line per top-level field, every field once, in
/// ascending key order: the key alone when its description is empty, else
/// the key padded to 24 and the description's first line.
pub proof fn law_root_listing(props: Seq<(String, Json)>, i: int)
    ensures
        sort_seqs(keys_of(props)).len() == props.len(),
        forall|e: Seq<char>| #[trigger] sort_seqs(keys_of(props)).contains(e) <==> keys_of(props).contains(e),
        forall|p: int, q: int| 0 <= p < q < props.len() ==> !crate::text::seq_lt(
            #[trigger] sort_seqs(keys_of(props))[q],
            #[trigger] sort_seqs(keys_of(props))[p],
        ),
        0 <= i < props.len() ==> root_lines(sort_seqs(keys_of(props)), props) == root_lines(
            sort_seqs(keys_of(props)).subrange(0, i),
            props,
        ) + root_line(sort_seqs(keys_of(props))[i], value_at(props, sort_seqs(keys_of(props))[i]))
            + root_lines(sort_seqs(keys_of(props)).subrange(i + 1, props.len() as int), props),
        forall|k: Seq<char>, f: Json| #![trigger root_line(k, f)] (match str_at(f, "description"@) {
            Some(d) => spec_first_line(d),
            None => seq![],
        }).len() == 0 ==> root_line(k, f) == "  "@ + k + "\n"@,
        forall|k: Seq<char>, f: Json| #![trigger root_line(k, f)] str_at(f, "description"@) matches Some(d)
            ==> (spec_first_line(d).len() > 0 ==> root_line(k, f) == "  "@ + pad_right(k, 24) + " — "@
            + spec_first_line(d) + "\n"@),
{
    let ks = sort_seqs(keys_of(props));
    crate::text::law_sort_texts(keys_of(props));
    if 0 <= i < props.len() {
        let a = ks.subrange(0, i);
        let m = seq![ks[i]];
        let b = ks.subrange(i + 1, ks.len() as int);
        assert(ks =~= a + m + b);
        lemma_root_lines_join(a + m, b, props);
        lemma_root_lines_join(a, m, props);
        assert(m.subrange(0, 0) =~= Seq::<Seq<char>>::empty());
        assert(root_lines(Seq::<Seq<char>>::empty(), props) == Seq::<char>::empty());
        assert(root_lines(m, props) =~= root_line(ks[i], value_at(props, ks[i])));
    }
}

} // verus!
