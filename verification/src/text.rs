//! Character-level text operations with their meaning stated over `Seq<char>`.
use vstd::prelude::*;
use vstd::string::StrSliceExecFns;

verus! {

/// Whether two strings hold the same characters.
pub fn str_eq(a: &str, b: &str) -> (r: bool)
    ensures
        r == (a@ == b@),
{
    let n = a.unicode_len();
    let m = b.unicode_len();
    if n != m {
        return false;
    }
    let mut i: usize = 0;
    while i < n
        invariant
            n == a@.len(),
            m == b@.len(),
            n == m,
            i <= n,
            forall|k: int| 0 <= k < i ==> a@[k] == b@[k],
        decreases n - i,
    {
        if a.get_char(i) != b.get_char(i) {
            return false;
        }
        i = i + 1;
    }
    assert(a@ =~= b@);
    true
}

} // verus!

verus! {

/// The characters of a string, in order.
pub fn chars_of(s: &str) -> (v: Vec<char>)
    ensures
        v@ == s@,
{
    broadcast use vstd::string::group_string_axioms;
    let mut v: Vec<char> = Vec::new();
    for c in it: s.chars()
        invariant
            v@ == it.seq().take(it.index() as int),
    {
        v.push(c);
    }
    v
}

/// std's `String::push`, trusted to append the one character to the
/// string's text and change nothing else.
#[verifier::external_body]
pub(crate) fn push_char(s: &mut String, c: char)
    ensures
        final(s)@ == old(s)@.push(c),
{
    s.push(c);
}

/// Appends a run of characters.
pub fn append_chars(out: &mut String, cs: &[char])
    ensures
        final(out)@ == old(out)@ + cs@,
{
    let n = cs.len();
    let mut i: usize = 0;
    while i < n
        invariant
            n == cs@.len(),
            i <= n,
            out@ == old(out)@ + cs@.subrange(0, i as int),
        decreases n - i,
    {
        push_char(out, cs[i]);
        assert(cs@.subrange(0, i + 1) =~= cs@.subrange(0, i as int).push(cs@[i as int]));
        i = i + 1;
    }
    assert(cs@.subrange(0, n as int) =~= cs@);
}

/// A string holding the given characters.
pub fn string_of(cs: &[char]) -> (r: String)
    ensures
        r@ == cs@,
{
    let mut r = String::new();
    append_chars(&mut r, cs);
    assert(r@ =~= cs@);
    r
}

/// The characters `cs[a..b]`.
pub fn sub_chars(cs: &[char], a: usize, b: usize) -> (r: Vec<char>)
    requires
        a <= b <= cs@.len(),
    ensures
        r@ == cs@.subrange(a as int, b as int),
{
    let mut r: Vec<char> = Vec::new();
    let mut i = a;
    while i < b
        invariant
            a <= i <= b,
            b <= cs@.len(),
            r@ == cs@.subrange(a as int, i as int),
        decreases b - i,
    {
        r.push(cs[i]);
        assert(cs@.subrange(a as int, i + 1) =~= cs@.subrange(a as int, i as int).push(
            cs@[i as int],
        ));
        i = i + 1;
    }
    r
}

/// Unicode `White_Space`, the set `char::is_whitespace` and `str::trim` use.
pub open spec fn is_white_space(c: char) -> bool {
    let u = c as u32;
    ||| 0x9 <= u <= 0xD
    ||| u == 0x20
    ||| u == 0x85
    ||| u == 0xA0
    ||| u == 0x1680
    ||| 0x2000 <= u <= 0x200A
    ||| u == 0x2028
    ||| u == 0x2029
    ||| u == 0x202F
    ||| u == 0x205F
    ||| u == 0x3000
}

pub fn is_white_space_char(c: char) -> (r: bool)
    ensures
        r == is_white_space(c),
{
    let u = c as u32;
    (0x9 <= u && u <= 0xD) || u == 0x20 || u == 0x85 || u == 0xA0 || u == 0x1680 || (0x2000 <= u
        && u <= 0x200A) || u == 0x2028 || u == 0x2029 || u == 0x202F || u == 0x205F || u == 0x3000
}

/// Drops leading white space.
pub open spec fn trim_start(s: Seq<char>) -> Seq<char>
    decreases s.len(),
{
    if s.len() > 0 && is_white_space(s[0]) {
        trim_start(s.subrange(1, s.len() as int))
    } else {
        s
    }
}

/// Drops trailing white space.
pub open spec fn trim_end(s: Seq<char>) -> Seq<char>
    decreases s.len(),
{
    if s.len() > 0 && is_white_space(s[s.len() - 1]) {
        trim_end(s.subrange(0, s.len() - 1))
    } else {
        s
    }
}

/// Trimming the end keeps a prefix of the text that holds every character
/// up to one that is not white space, and that itself ends in one.
pub proof fn lemma_trim_end_prefix(s: Seq<char>, k: int)
    requires
        0 <= k < s.len(),
        !is_white_space(s[k]),
    ensures
        k < trim_end(s).len() <= s.len(),
        trim_end(s) == s.subrange(0, trim_end(s).len() as int),
        !is_white_space(trim_end(s).last()),
    decreases s.len(),
{
    if is_white_space(s[s.len() - 1]) {
        let t = s.subrange(0, s.len() - 1);
        assert(t[k] == s[k]);
        lemma_trim_end_prefix(t, k);
        assert(t.subrange(0, trim_end(t).len() as int) =~= s.subrange(0, trim_end(t).len() as int));
    } else {
        assert(s.subrange(0, s.len() as int) =~= s);
    }
}

/// Drops leading and trailing white space (`str::trim`).
pub open spec fn trim(s: Seq<char>) -> Seq<char> {
    trim_end(trim_start(s))
}

proof fn lemma_trim_start_at(s: Seq<char>, a: int)
    requires
        0 <= a <= s.len(),
        forall|k: int| 0 <= k < a ==> is_white_space(#[trigger] s[k]),
        a == s.len() || !is_white_space(s[a]),
    ensures
        trim_start(s) == s.subrange(a, s.len() as int),
    decreases a,
{
    if a == 0 {
        assert(s.subrange(0, s.len() as int) =~= s);
    } else {
        let t = s.subrange(1, s.len() as int);
        assert forall|k: int| 0 <= k < a - 1 implies is_white_space(#[trigger] t[k]) by {
            assert(t[k] == s[k + 1]);
        }
        lemma_trim_start_at(t, a - 1);
        assert(t.subrange(a - 1, t.len() as int) =~= s.subrange(a, s.len() as int));
    }
}

proof fn lemma_trim_end_at(s: Seq<char>, b: int)
    requires
        0 <= b <= s.len(),
        forall|k: int| b <= k < s.len() ==> is_white_space(#[trigger] s[k]),
        b == 0 || !is_white_space(s[b - 1]),
    ensures
        trim_end(s) == s.subrange(0, b),
    decreases s.len() - b,
{
    if b == s.len() {
        assert(s.subrange(0, b) =~= s);
    } else {
        let t = s.subrange(0, s.len() - 1);
        assert forall|k: int| b <= k < t.len() implies is_white_space(#[trigger] t[k]) by {
            assert(t[k] == s[k]);
        }
        lemma_trim_end_at(t, b);
        assert(t.subrange(0, b) =~= s.subrange(0, b));
    }
}

/// `str::trim` on a run of characters.
pub fn trim_chars(cs: &[char]) -> (r: Vec<char>)
    ensures
        r@ == trim(cs@),
{
    let n = cs.len();
    let mut a: usize = 0;
    while a < n && is_white_space_char(cs[a])
        invariant
            n == cs@.len(),
            a <= n,
            forall|k: int| 0 <= k < a ==> is_white_space(#[trigger] cs@[k]),
        decreases n - a,
    {
        a = a + 1;
    }
    proof {
        lemma_trim_start_at(cs@, a as int);
    }
    let mut b: usize = n;
    while b > a && is_white_space_char(cs[b - 1])
        invariant
            n == cs@.len(),
            a <= b <= n,
            forall|k: int| b <= k < n ==> is_white_space(#[trigger] cs@[k]),
        decreases b,
    {
        b = b - 1;
    }
    let ghost t = cs@.subrange(a as int, n as int);
    proof {
        assert forall|k: int| b - a <= k < t.len() implies is_white_space(#[trigger] t[k]) by {
            assert(t[k] == cs@[k + a]);
        }
        if b > a {
            assert(t[b - a - 1] == cs@[b - 1]);
        }
        lemma_trim_end_at(t, b - a);
        assert(t.subrange(0, b - a) =~= cs@.subrange(a as int, b as int));
    }
    sub_chars(cs, a, b)
}

/// The index of the first `c` in `s`, if any.
pub open spec fn char_index(s: Seq<char>, c: char) -> Option<int>
    decreases s.len(),
{
    if s.len() == 0 {
        None
    } else if s[0] == c {
        Some(0)
    } else {
        match char_index(s.subrange(1, s.len() as int), c) {
            Some(i) => Some(i + 1),
            None => None,
        }
    }
}

pub proof fn lemma_char_index(s: Seq<char>, c: char)
    ensures
        char_index(s, c) matches Some(i) ==> 0 <= i < s.len() && s[i] == c && forall|k: int|
            0 <= k < i ==> s[k] != c,
        char_index(s, c) is None ==> forall|k: int| 0 <= k < s.len() ==> s[k] != c,
    decreases s.len(),
{
    if s.len() > 0 && s[0] != c {
        let rest = s.subrange(1, s.len() as int);
        lemma_char_index(rest, c);
        assert forall|k: int| 1 <= k < s.len() implies s[k] == rest[k - 1] by {}
    }
}

/// Where the first `c` stands in `cs`, or `cs.len()` when there is none.
pub fn find_char(cs: &[char], from: usize, c: char) -> (r: usize)
    requires
        from <= cs@.len(),
    ensures
        from <= r <= cs@.len(),
        r < cs@.len() ==> cs@[r as int] == c,
        forall|k: int| from <= k < r ==> cs@[k] != c,
        char_index(cs@.subrange(from as int, cs@.len() as int), c) == (if r < cs@.len() {
            Some(r - from)
        } else {
            None::<int>
        }),
{
    let n = cs.len();
    let mut i = from;
    while i < n && cs[i] != c
        invariant
            n == cs@.len(),
            from <= i <= n,
            forall|k: int| from <= k < i ==> cs@[k] != c,
        decreases n - i,
    {
        i = i + 1;
    }
    proof {
        let t = cs@.subrange(from as int, n as int);
        lemma_char_index(t, c);
        if i < n {
            assert(t[i - from] == c);
            if let Some(j) = char_index(t, c) {
                assert(t[j] == cs@[j + from]);
            }
        } else {
            if let Some(j) = char_index(t, c) {
                assert(t[j] == cs@[j + from]);
            }
        }
    }
    i
}

/// The text before the first newline (all of it when there is none).
pub open spec fn before_newline(s: Seq<char>) -> Seq<char> {
    match char_index(s, '\n') {
        Some(i) => s.subrange(0, i),
        None => s,
    }
}

/// The first line of a text, trimmed: `s.lines().next().unwrap_or("").trim()`.
/// (A line's `\r` before its `\n` is white space, so trimming drops it too.)
pub open spec fn spec_first_line(s: Seq<char>) -> Seq<char> {
    trim(before_newline(s))
}

/// The first line of `s`, trimmed.
pub fn first_line(s: &str) -> (r: String)
    ensures
        r@ == spec_first_line(s@),
{
    let cs = chars_of(s);
    let i = find_char(&cs, 0, '\n');
    assert(cs@.subrange(0, cs@.len() as int) =~= cs@);
    let line = sub_chars(&cs, 0, i);
    assert(i == cs@.len() ==> line@ =~= cs@);
    let t = trim_chars(&line);
    string_of(&t)
}

/// A line without the `\r` of its `\r\n` ending.
pub open spec fn strip_cr(l: Seq<char>) -> Seq<char> {
    if l.len() > 0 && l[l.len() - 1] == '\r' {
        l.subrange(0, l.len() - 1)
    } else {
        l
    }
}

/// `str::lines`: lines end at `\n` (a `\r` just before it goes too); a last
/// line without a `\n` keeps what it holds, and a text that ends with `\n`
/// has no empty line after it.
pub open spec fn lines_of(s: Seq<char>) -> Seq<Seq<char>>
    decreases s.len(),
{
    if s.len() == 0 {
        seq![]
    } else {
        proof {
            lemma_char_index(s, '\n');
        }
        match char_index(s, '\n') {
            Some(i) => seq![strip_cr(s.subrange(0, i))] + lines_of(
                s.subrange(i + 1, s.len() as int),
            ),
            None => seq![s],
        }
    }
}

/// The lines of `cs[from..]`.
pub fn lines_from(cs: &[char], from: usize) -> (r: Vec<Vec<char>>)
    requires
        from <= cs@.len(),
    ensures
        r@.map_values(|l: Vec<char>| l@) == lines_of(cs@.subrange(from as int, cs@.len() as int)),
    decreases cs@.len() - from,
{
    let n = cs.len();
    let ghost s = cs@.subrange(from as int, n as int);
    if from == n {
        let r: Vec<Vec<char>> = Vec::new();
        assert(r@.map_values(|l: Vec<char>| l@) =~= lines_of(s));
        return r;
    }
    let i = find_char(cs, from, '\n');
    if i == n {
        let line = sub_chars(cs, from, n);
        let mut r: Vec<Vec<char>> = Vec::new();
        r.push(line);
        assert(r@.map_values(|l: Vec<char>| l@) =~= lines_of(s));
        return r;
    }
    let mut end = i;
    if end > from && cs[end - 1] == '\r' {
        end = end - 1;
    }
    let line = sub_chars(cs, from, end);
    let rest = lines_from(cs, i + 1);
    let mut r: Vec<Vec<char>> = Vec::new();
    r.push(line);
    let mut k: usize = 0;
    while k < rest.len()
        invariant
            r@.len() == k + 1,
            r@[0]@ == line@,
            forall|j: int| 0 <= j < k ==> #[trigger] r@[j + 1]@ == rest@[j]@,
            k <= rest@.len(),
        decreases rest@.len() - k,
    {
        let l = sub_chars(&rest[k], 0, rest[k].len());
        assert(l@ =~= rest@[k as int]@);
        r.push(l);
        k = k + 1;
    }
    proof {
        let li = cs@.subrange(from as int, i as int);
        assert(s.subrange(0, i - from) =~= li);
        assert(strip_cr(li) =~= line@);
        assert(s.subrange(i - from + 1, s.len() as int) =~= cs@.subrange(i + 1, n as int));
        assert forall|j: int| 1 <= j < r@.len() implies r@[j]@ == rest@[j - 1]@ by {
            assert(r@[(j - 1) + 1]@ == rest@[j - 1]@);
        }
        assert(r@.map_values(|l: Vec<char>| l@) =~= seq![line@] + rest@.map_values(
            |l: Vec<char>| l@,
        ));
    }
    r
}

/// Joins texts with a separator between neighbours.
pub open spec fn join(parts: Seq<Seq<char>>, sep: Seq<char>) -> Seq<char>
    decreases parts.len(),
{
    if parts.len() == 0 {
        seq![]
    } else if parts.len() == 1 {
        parts[0]
    } else {
        join(parts.subrange(0, parts.len() - 1), sep) + sep + parts[parts.len() - 1]
    }
}

/// Joins strings with `sep` between neighbours.
pub fn join_strings(parts: &Vec<String>, sep: &str) -> (r: String)
    ensures
        r@ == join(string_views(parts@), sep@),
{
    let ghost views = string_views(parts@);
    let mut r = String::new();
    let n = parts.len();
    let mut i: usize = 0;
    while i < n
        invariant
            n == parts@.len(),
            views == string_views(parts@),
            i <= n,
            r@ == join(views.subrange(0, i as int), sep@),
        decreases n - i,
    {
        assert(views.subrange(0, i + 1).subrange(0, i as int) =~= views.subrange(0, i as int));
        if i > 0 {
            r.append(sep);
        }
        r.append(parts[i].as_str());
        proof {
            if i == 0 {
                assert(r@ =~= views.subrange(0, 1)[0]);
            } else {
                assert(r@ =~= join(views.subrange(0, i as int), sep@) + sep@ + views[i as int]);
            }
        }
        i = i + 1;
    }
    assert(views.subrange(0, n as int) =~= views);
    r
}

/// `n` spaces.
pub open spec fn spaces(n: nat) -> Seq<char> {
    Seq::new(n, |i: int| ' ')
}

/// `format!("{:<w$}", s)`: the text, then spaces up to `w` characters.
pub open spec fn pad_right(s: Seq<char>, w: nat) -> Seq<char> {
    if s.len() < w {
        s + spaces((w - s.len()) as nat)
    } else {
        s
    }
}

/// Appends `s` padded with spaces to `w` characters.
pub fn append_padded(out: &mut String, s: &str, w: usize)
    ensures
        final(out)@ == old(out)@ + pad_right(s@, w as nat),
{
    out.append(s);
    let n = s.unicode_len();
    let mut i = n;
    assert(spaces(0) =~= Seq::<char>::empty());
    while i < w
        invariant
            n == s@.len(),
            n <= i,
            out@ == old(out)@ + s@ + spaces((i - n) as nat),
            i <= w || i == n,
        decreases w - i,
    {
        let ghost before = out@;
        push_char(out, ' ');
        assert(spaces((i + 1 - n) as nat) =~= spaces((i - n) as nat).push(' '));
        i = i + 1;
    }
    assert(out@ =~= old(out)@ + pad_right(s@, w as nat));
}

/// The decimal digit for `d < 10`.
pub open spec fn digit_char(d: nat) -> char {
    if d == 0 {
        '0'
    } else if d == 1 {
        '1'
    } else if d == 2 {
        '2'
    } else if d == 3 {
        '3'
    } else if d == 4 {
        '4'
    } else if d == 5 {
        '5'
    } else if d == 6 {
        '6'
    } else if d == 7 {
        '7'
    } else if d == 8 {
        '8'
    } else {
        '9'
    }
}

/// The decimal text of a number, as `{}` writes it.
pub open spec fn nat_text(n: nat) -> Seq<char>
    decreases n,
{
    if n < 10 {
        seq![digit_char(n)]
    } else {
        nat_text(n / 10) + seq![digit_char(n % 10)]
    }
}

fn digit(d: usize) -> (c: char)
    requires
        d < 10,
    ensures
        c == digit_char(d as nat),
{
    if d == 0 {
        '0'
    } else if d == 1 {
        '1'
    } else if d == 2 {
        '2'
    } else if d == 3 {
        '3'
    } else if d == 4 {
        '4'
    } else if d == 5 {
        '5'
    } else if d == 6 {
        '6'
    } else if d == 7 {
        '7'
    } else if d == 8 {
        '8'
    } else {
        '9'
    }
}

/// Appends the decimal text of `n`.
pub fn append_usize(out: &mut String, n: usize)
    ensures
        final(out)@ == old(out)@ + nat_text(n as nat),
    decreases n,
{
    if n < 10 {
        push_char(out, digit(n));
        assert(out@ =~= old(out)@ + nat_text(n as nat));
    } else {
        append_usize(out, n / 10);
        push_char(out, digit(n % 10));
        assert(out@ =~= old(out)@ + nat_text(n as nat));
    }
}

/// `s` without the prefix `p`, when `s` starts with `p`.
pub open spec fn strip_prefix(s: Seq<char>, p: Seq<char>) -> Option<Seq<char>> {
    if p.len() <= s.len() && s.subrange(0, p.len() as int) == p {
        Some(s.subrange(p.len() as int, s.len() as int))
    } else {
        None
    }
}

/// `str::strip_prefix`.
pub fn strip_prefix_chars(s: &str, p: &str) -> (r: Option<Vec<char>>)
    ensures
        match r {
            Some(v) => strip_prefix(s@, p@) == Some(v@),
            None => strip_prefix(s@, p@) is None,
        },
{
    let cs = chars_of(s);
    let ps = chars_of(p);
    let n = cs.len();
    let m = ps.len();
    if m > n {
        return None;
    }
    let mut i: usize = 0;
    while i < m
        invariant
            cs@ == s@,
            ps@ == p@,
            n == cs@.len(),
            m == ps@.len(),
            m <= n,
            i <= m,
            forall|k: int| 0 <= k < i ==> cs@[k] == ps@[k],
        decreases m - i,
    {
        if cs[i] != ps[i] {
            assert(cs@.subrange(0, m as int)[i as int] != ps@[i as int]);
            assert(cs@.subrange(0, m as int) != ps@);
            return None;
        }
        i = i + 1;
    }
    assert(cs@.subrange(0, m as int) =~= ps@);
    Some(sub_chars(&cs, m, n))
}

/// Code point order of characters.
pub open spec fn char_lt(x: char, y: char) -> bool {
    x < y
}

fn char_less(x: char, y: char) -> (r: bool)
    ensures
        r == char_lt(x, y),
{
    x < y
}

/// Lexicographic order of texts by code point, which is the order of
/// `str` comparison (UTF-8 keeps code point order).
pub open spec fn seq_lt(a: Seq<char>, b: Seq<char>) -> bool
    decreases a.len(),
{
    if a.len() == 0 {
        b.len() > 0
    } else if b.len() == 0 {
        false
    } else if a[0] != b[0] {
        char_lt(a[0], b[0])
    } else {
        seq_lt(a.subrange(1, a.len() as int), b.subrange(1, b.len() as int))
    }
}

pub open spec fn seq_le(a: Seq<char>, b: Seq<char>) -> bool {
    a == b || seq_lt(a, b)
}

proof fn lemma_lt_suffix(a: Seq<char>, b: Seq<char>, i: int)
    requires
        0 <= i <= a.len(),
        i <= b.len(),
        forall|k: int| 0 <= k < i ==> a[k] == b[k],
    ensures
        seq_lt(a, b) == seq_lt(a.subrange(i, a.len() as int), b.subrange(i, b.len() as int)),
        (a == b) == (a.subrange(i, a.len() as int) == b.subrange(i, b.len() as int)),
    decreases i,
{
    if i > 0 {
        let a1 = a.subrange(1, a.len() as int);
        let b1 = b.subrange(1, b.len() as int);
        lemma_lt_suffix(a1, b1, i - 1);
        assert(a1.subrange(i - 1, a1.len() as int) =~= a.subrange(i, a.len() as int));
        assert(b1.subrange(i - 1, b1.len() as int) =~= b.subrange(i, b.len() as int));
        if a1 == b1 {
            assert(a[0] == b[0]);
            assert forall|k: int| 1 <= k < a.len() implies a[k] == b[k] by {
                assert(a[k] == a1[k - 1]);
                assert(b[k] == b1[k - 1]);
            }
            assert(a =~= b);
        }
        if a == b {
            assert(a1 =~= b1);
        }
    } else {
        assert(a.subrange(0, a.len() as int) =~= a);
        assert(b.subrange(0, b.len() as int) =~= b);
    }
}

/// Whether `a` sorts no later than `b`.
pub fn str_le(a: &str, b: &str) -> (r: bool)
    ensures
        r == seq_le(a@, b@),
{
    let x = chars_of(a);
    let y = chars_of(b);
    let n = x.len();
    let m = y.len();
    let mut i: usize = 0;
    while i < n && i < m && x[i] == y[i]
        invariant
            n == x@.len(),
            m == y@.len(),
            i <= n,
            i <= m,
            forall|k: int| 0 <= k < i ==> x@[k] == y@[k],
        decreases n - i,
    {
        i = i + 1;
    }
    proof {
        lemma_lt_suffix(x@, y@, i as int);
    }
    let ghost xs = x@.subrange(i as int, n as int);
    let ghost ys = y@.subrange(i as int, m as int);
    if i == n {
        proof {
            if i == m {
                assert(xs =~= ys);
            } else {
                assert(xs.len() == 0 && ys.len() > 0);
            }
        }
        true
    } else if i == m {
        proof {
            assert(xs.len() > 0 && ys.len() == 0);
            assert(xs != ys);
        }
        false
    } else {
        proof {
            assert(xs[0] == x@[i as int]);
            assert(ys[0] == y@[i as int]);
            assert(xs != ys);
        }
        char_less(x[i], y[i])
    }
}


/// Puts `x` in front of the first entry it sorts no later than.
pub open spec fn insert_sorted(x: Seq<char>, t: Seq<Seq<char>>) -> Seq<Seq<char>>
    decreases t.len(),
{
    if t.len() == 0 {
        seq![x]
    } else if seq_le(x, t[0]) {
        seq![x] + t
    } else {
        seq![t[0]] + insert_sorted(x, t.subrange(1, t.len() as int))
    }
}

/// Texts in ascending order (stable insertion sort).
pub open spec fn sort_seqs(s: Seq<Seq<char>>) -> Seq<Seq<char>>
    decreases s.len(),
{
    if s.len() == 0 {
        seq![]
    } else {
        insert_sorted(s[s.len() - 1], sort_seqs(s.subrange(0, s.len() - 1)))
    }
}

/// The texts of a run of string slices.
pub open spec fn str_views(s: Seq<&str>) -> Seq<Seq<char>> {
    s.map_values(|x: &str| x@)
}

proof fn lemma_insert_at(x: Seq<char>, t: Seq<Seq<char>>, k: int)
    requires
        0 <= k <= t.len(),
        forall|i: int| 0 <= i < k ==> !seq_le(x, #[trigger] t[i]),
        k == t.len() || seq_le(x, t[k]),
    ensures
        insert_sorted(x, t) == t.subrange(0, k) + seq![x] + t.subrange(k, t.len() as int),
    decreases k,
{
    if k == 0 {
        if t.len() == 0 {
            assert(t.subrange(0, 0) + seq![x] + t.subrange(0, 0) =~= seq![x]);
        } else {
            assert(t.subrange(0, 0) + seq![x] + t.subrange(0, t.len() as int) =~= seq![x] + t);
        }
    } else {
        let t1 = t.subrange(1, t.len() as int);
        assert forall|i: int| 0 <= i < k - 1 implies !seq_le(x, #[trigger] t1[i]) by {
            assert(t1[i] == t[i + 1]);
        }
        if k < t.len() {
            assert(t1[k - 1] == t[k]);
        }
        assert(!seq_le(x, t[0]));
        lemma_insert_at(x, t1, k - 1);
        assert(seq![t[0]] + (t1.subrange(0, k - 1) + seq![x] + t1.subrange(k - 1, t1.len() as int))
            =~= t.subrange(0, k) + seq![x] + t.subrange(k, t.len() as int));
    }
}

/// Sorts string slices by their text.
pub fn sort_strs<'a>(v: &Vec<&'a str>) -> (r: Vec<&'a str>)
    ensures
        str_views(r@) == sort_seqs(str_views(v@)),
{
    let mut r: Vec<&'a str> = Vec::new();
    let n = v.len();
    let mut i: usize = 0;
    while i < n
        invariant
            n == v@.len(),
            i <= n,
            str_views(r@) == sort_seqs(str_views(v@).subrange(0, i as int)),
        decreases n - i,
    {
        let x = v[i];
        let m = r.len();
        let mut k: usize = 0;
        while k < m && !str_le(x, r[k])
            invariant
                m == r@.len(),
                k <= m,
                forall|j: int| 0 <= j < k ==> !seq_le(x@, #[trigger] str_views(r@)[j]),
            decreases m - k,
        {
            k = k + 1;
        }
        let ghost before = str_views(r@);
        proof {
            lemma_insert_at(x@, before, k as int);
            let pre = str_views(v@).subrange(0, i + 1);
            assert(pre.subrange(0, i as int) =~= str_views(v@).subrange(0, i as int));
            assert(pre[i as int] == x@);
        }
        r.insert(k, x);
        proof {
            assert(str_views(r@) =~= before.subrange(0, k as int) + seq![x@] + before.subrange(
                k as int,
                before.len() as int,
            ));
        }
        i = i + 1;
    }
    assert(str_views(v@).subrange(0, n as int) =~= str_views(v@));
    r
}


/// A new string holding the text of `s`.
pub fn text(s: &str) -> (r: String)
    ensures
        r@ == s@,
{
    let mut r = String::new();
    r.append(s);
    assert(r@ =~= s@);
    r
}

/// The texts of a run of strings.
pub open spec fn string_views(s: Seq<String>) -> Seq<Seq<char>> {
    s.map_values(|x: String| x@)
}

/// Drops trailing white space from a string (`str::trim_end`).
pub fn trim_end_string(s: &str) -> (r: String)
    ensures
        r@ == trim_end(s@),
{
    let cs = chars_of(s);
    let n = cs.len();
    let mut b: usize = n;
    while b > 0 && is_white_space_char(cs[b - 1])
        invariant
            n == cs@.len(),
            b <= n,
            forall|k: int| b <= k < n ==> is_white_space(#[trigger] cs@[k]),
        decreases b,
    {
        b = b - 1;
    }
    proof {
        lemma_trim_end_at(cs@, b as int);
    }
    let t = sub_chars(&cs, 0, b);
    string_of(&t)
}


/// Whether `a` sorts strictly before `b`.
pub fn str_lt(a: &str, b: &str) -> (r: bool)
    ensures
        r == seq_lt(a@, b@),
{
    let x = chars_of(a);
    let y = chars_of(b);
    let n = x.len();
    let m = y.len();
    let mut i: usize = 0;
    while i < n && i < m && x[i] == y[i]
        invariant
            n == x@.len(),
            m == y@.len(),
            i <= n,
            i <= m,
            forall|k: int| 0 <= k < i ==> x@[k] == y@[k],
        decreases n - i,
    {
        i = i + 1;
    }
    proof {
        lemma_lt_suffix(x@, y@, i as int);
    }
    let ghost xs = x@.subrange(i as int, n as int);
    let ghost ys = y@.subrange(i as int, m as int);
    if i == n {
        i < m
    } else if i == m {
        false
    } else {
        proof {
            assert(xs[0] == x@[i as int]);
            assert(ys[0] == y@[i as int]);
        }
        char_less(x[i], y[i])
    }
}


/// No text sorts before itself.
pub proof fn lemma_lt_irreflexive(a: Seq<char>)
    ensures
        !seq_lt(a, a),
    decreases a.len(),
{
    if a.len() > 0 {
        lemma_lt_irreflexive(a.subrange(1, a.len() as int));
    }
}

/// Of two different texts, one sorts before the other, and not both ways.
pub proof fn lemma_lt_total(a: Seq<char>, b: Seq<char>)
    ensures
        a != b ==> (seq_lt(a, b) || seq_lt(b, a)),
        !(seq_lt(a, b) && seq_lt(b, a)),
    decreases a.len(),
{
    if a.len() > 0 && b.len() > 0 && a[0] == b[0] {
        let a1 = a.subrange(1, a.len() as int);
        let b1 = b.subrange(1, b.len() as int);
        lemma_lt_total(a1, b1);
        if a1 == b1 {
            assert forall|k: int| 0 <= k < a.len() implies a[k] == b[k] by {
                if k > 0 {
                    assert(a[k] == a1[k - 1]);
                    assert(b[k] == b1[k - 1]);
                }
            }
            assert(a =~= b);
        }
    } else if a.len() == 0 && b.len() == 0 {
        assert(a =~= b);
    }
}

/// The order of texts is transitive.
pub proof fn lemma_lt_transitive(a: Seq<char>, b: Seq<char>, c: Seq<char>)
    requires
        seq_lt(a, b),
        seq_lt(b, c),
    ensures
        seq_lt(a, c),
    decreases a.len(),
{
    if a.len() > 0 && b.len() > 0 && c.len() > 0 && a[0] == b[0] && b[0] == c[0] {
        lemma_lt_transitive(
            a.subrange(1, a.len() as int),
            b.subrange(1, b.len() as int),
            c.subrange(1, c.len() as int),
        );
    }
}


/// Texts in non-decreasing order.
pub open spec fn texts_sorted(r: Seq<Seq<char>>) -> bool {
    forall|i: int, j: int| 0 <= i < j < r.len() ==> !seq_lt(#[trigger] r[j], #[trigger] r[i])
}

proof fn lemma_insert_sorted(x: Seq<char>, t: Seq<Seq<char>>)
    ensures
        insert_sorted(x, t).len() == t.len() + 1,
        forall|e: Seq<char>| #[trigger] insert_sorted(x, t).contains(e) <==> (t.contains(e) || e == x),
        texts_sorted(t) ==> texts_sorted(insert_sorted(x, t)),
    decreases t.len(),
{
    let r = insert_sorted(x, t);
    if t.len() == 0 {
        assert(r =~= seq![x]);
        assert forall|e: Seq<char>| #[trigger] r.contains(e) <==> (t.contains(e) || e == x) by {
            if r.contains(e) {
                assert(r[0] == x);
            }
            if e == x {
                assert(r[0] == e);
            }
        }
    } else if seq_le(x, t[0]) {
        assert(r =~= seq![x] + t);
        assert forall|e: Seq<char>| #[trigger] r.contains(e) <==> (t.contains(e) || e == x) by {
            if r.contains(e) {
                let k = choose|k: int| 0 <= k < r.len() && r[k] == e;
                if k > 0 {
                    assert(t[k - 1] == e);
                }
            }
            if t.contains(e) {
                let k = choose|k: int| 0 <= k < t.len() && t[k] == e;
                assert(r[k + 1] == e);
            }
            if e == x {
                assert(r[0] == e);
            }
        }
        if texts_sorted(t) {
            assert forall|i: int, j: int| 0 <= i < j < r.len() implies !seq_lt(#[trigger] r[j], #[trigger] r[i]) by {
                if i == 0 {
                    assert(r[j] == t[j - 1]);
                    if j - 1 > 0 {
                        assert(!seq_lt(t[j - 1], t[0]));
                        lemma_lt_total(t[j - 1], t[0]);
                        if x != t[0] && t[j - 1] != t[0] {
                            lemma_lt_transitive(x, t[0], t[j - 1]);
                        }
                    }
                    lemma_lt_total(x, t[j - 1]);
                    lemma_lt_irreflexive(x);
                } else {
                    assert(r[i] == t[i - 1] && r[j] == t[j - 1]);
                }
            }
        }
    } else {
        let t1 = t.subrange(1, t.len() as int);
        let r1 = insert_sorted(x, t1);
        lemma_insert_sorted(x, t1);
        assert(r =~= seq![t[0]] + r1);
        assert forall|e: Seq<char>| #[trigger] r.contains(e) <==> (t.contains(e) || e == x) by {
            if r.contains(e) {
                let k = choose|k: int| 0 <= k < r.len() && r[k] == e;
                if k > 0 {
                    assert(r1[k - 1] == e);
                    assert(r1.contains(e));
                    if t1.contains(e) {
                        let m = choose|m: int| 0 <= m < t1.len() && t1[m] == e;
                        assert(t[m + 1] == e);
                    }
                } else {
                    assert(t[0] == e);
                }
            }
            if t.contains(e) {
                let k = choose|k: int| 0 <= k < t.len() && t[k] == e;
                if k > 0 {
                    assert(t1[k - 1] == e);
                    assert(r1.contains(e));
                    let m = choose|m: int| 0 <= m < r1.len() && r1[m] == e;
                    assert(r[m + 1] == e);
                } else {
                    assert(r[0] == e);
                }
            }
            if e == x {
                assert(r1.contains(e));
                let m = choose|m: int| 0 <= m < r1.len() && r1[m] == e;
                assert(r[m + 1] == e);
            }
        }
        if texts_sorted(t) {
            assert(texts_sorted(t1)) by {
                assert forall|i: int, j: int| 0 <= i < j < t1.len() implies !seq_lt(#[trigger] t1[j], #[trigger] t1[i]) by {
                    assert(t1[i] == t[i + 1] && t1[j] == t[j + 1]);
                }
            }
            assert forall|i: int, j: int| 0 <= i < j < r.len() implies !seq_lt(#[trigger] r[j], #[trigger] r[i]) by {
                if i == 0 {
                    assert(r[0] == t[0]);
                    let e = r[j];
                    assert(r1[j - 1] == e);
                    assert(r1.contains(e));
                    if e == x {
                        lemma_lt_total(x, t[0]);
                    } else {
                        assert(t1.contains(e));
                        let m = choose|m: int| 0 <= m < t1.len() && t1[m] == e;
                        assert(t[m + 1] == e);
                    }
                } else {
                    assert(r[i] == r1[i - 1] && r[j] == r1[j - 1]);
                }
            }
        }
    }
}

/// Sorting texts keeps them all, and their number, and puts them in order:
/// the order in which the reference lists fields and definitions.
pub proof fn law_sort_texts(s: Seq<Seq<char>>)
    ensures
        sort_seqs(s).len() == s.len(),
        forall|e: Seq<char>| #[trigger] sort_seqs(s).contains(e) <==> s.contains(e),
        texts_sorted(sort_seqs(s)),
    decreases s.len(),
{
    if s.len() > 0 {
        let init = s.subrange(0, s.len() - 1);
        let x = s[s.len() - 1];
        law_sort_texts(init);
        lemma_insert_sorted(x, sort_seqs(init));
        assert forall|e: Seq<char>| #[trigger] sort_seqs(s).contains(e) <==> s.contains(e) by {
            if s.contains(e) {
                let k = choose|k: int| 0 <= k < s.len() && s[k] == e;
                if k < s.len() - 1 {
                    assert(init[k] == e);
                    assert(sort_seqs(init).contains(e));
                }
            }
            if init.contains(e) {
                let k = choose|k: int| 0 <= k < init.len() && init[k] == e;
                assert(s[k] == e);
            }
            if e == x {
                assert(s[s.len() - 1] == e);
            }
        }
    } else {
        assert(sort_seqs(s) =~= Seq::<Seq<char>>::empty());
    }
}

/// Texts that are all different.
pub open spec fn texts_distinct(s: Seq<Seq<char>>) -> bool {
    forall|i: int, j: int| 0 <= i < j < s.len() ==> #[trigger] s[i] != #[trigger] s[j]
}

proof fn lemma_insert_sorted_distinct(x: Seq<char>, t: Seq<Seq<char>>)
    requires
        texts_distinct(t),
        !t.contains(x),
    ensures
        texts_distinct(insert_sorted(x, t)),
    decreases t.len(),
{
    let r = insert_sorted(x, t);
    if t.len() == 0 {
        assert(r =~= seq![x]);
    } else if seq_le(x, t[0]) {
        assert(r =~= seq![x] + t);
        assert forall|i: int, j: int| 0 <= i < j < r.len() implies #[trigger] r[i] != #[trigger] r[j] by {
            if i == 0 {
                assert(r[j] == t[j - 1]);
                if r[j] == x {
                    assert(t.contains(x));
                }
            } else {
                assert(r[i] == t[i - 1] && r[j] == t[j - 1]);
            }
        }
    } else {
        let t1 = t.subrange(1, t.len() as int);
        assert forall|i: int, j: int| 0 <= i < j < t1.len() implies #[trigger] t1[i] != #[trigger] t1[j] by {
            assert(t1[i] == t[i + 1] && t1[j] == t[j + 1]);
        }
        assert(!t1.contains(x)) by {
            if t1.contains(x) {
                let k = choose|k: int| 0 <= k < t1.len() && t1[k] == x;
                assert(t[k + 1] == x);
            }
        }
        lemma_insert_sorted_distinct(x, t1);
        lemma_insert_sorted(x, t1);
        let r1 = insert_sorted(x, t1);
        assert(r =~= seq![t[0]] + r1);
        assert(!r1.contains(t[0])) by {
            if r1.contains(t[0]) {
                if t1.contains(t[0]) {
                    let k = choose|k: int| 0 <= k < t1.len() && t1[k] == t[0];
                    assert(t[k + 1] == t[0]);
                } else {
                    assert(t.contains(t[0]));
                }
            }
        }
        assert forall|i: int, j: int| 0 <= i < j < r.len() implies #[trigger] r[i] != #[trigger] r[j] by {
            if i == 0 {
                assert(r[j] == r1[j - 1]);
                assert(r1.contains(r1[j - 1]));
            } else {
                assert(r[i] == r1[i - 1] && r[j] == r1[j - 1]);
            }
        }
    }
}

proof fn lemma_sort_distinct(s: Seq<Seq<char>>)
    requires
        texts_distinct(s),
    ensures
        texts_distinct(sort_seqs(s)),
    decreases s.len(),
{
    if s.len() > 0 {
        let init = s.subrange(0, s.len() - 1);
        assert forall|i: int, j: int| 0 <= i < j < init.len() implies #[trigger] init[i] != #[trigger] init[j] by {
            assert(init[i] == s[i] && init[j] == s[j]);
        }
        lemma_sort_distinct(init);
        law_sort_texts(init);
        let x = s[s.len() - 1];
        assert(!sort_seqs(init).contains(x)) by {
            if sort_seqs(init).contains(x) {
                assert(init.contains(x));
                let k = choose|k: int| 0 <= k < init.len() && init[k] == x;
                assert(s[k] == s[s.len() - 1]);
            }
        }
        lemma_insert_sorted_distinct(x, sort_seqs(init));
    }
}

proof fn lemma_ascending_texts_unique(a: Seq<Seq<char>>, b: Seq<Seq<char>>)
    requires
        forall|i: int, j: int| 0 <= i < j < a.len() ==> seq_lt(#[trigger] a[i], #[trigger] a[j]),
        forall|i: int, j: int| 0 <= i < j < b.len() ==> seq_lt(#[trigger] b[i], #[trigger] b[j]),
        forall|e: Seq<char>| a.contains(e) <==> b.contains(e),
    ensures
        a == b,
    decreases a.len(),
{
    if a.len() == 0 {
        if b.len() > 0 {
            assert(b.contains(b[0]));
        }
        assert(a =~= b);
    } else {
        assert(a.contains(a[0]));
        assert(b.contains(a[0]));
        assert(b.contains(b[0]));
        assert(a.contains(b[0]));
        let j = choose|j: int| 0 <= j < b.len() && b[j] == a[0];
        let i = choose|i: int| 0 <= i < a.len() && a[i] == b[0];
        if j > 0 {
            assert(seq_lt(b[0], b[j]));
            if i > 0 {
                assert(seq_lt(a[0], a[i]));
                lemma_lt_total(a[0], b[0]);
            } else {
                lemma_lt_irreflexive(a[0]);
            }
        } else if i > 0 {
            assert(seq_lt(a[0], a[i]));
            lemma_lt_irreflexive(a[0]);
        }
        assert(a[0] == b[0]);
        let a1 = a.subrange(1, a.len() as int);
        let b1 = b.subrange(1, b.len() as int);
        assert forall|e: Seq<char>| a1.contains(e) <==> b1.contains(e) by {
            if a1.contains(e) {
                let k = choose|k: int| 0 <= k < a1.len() && a1[k] == e;
                assert(a[k + 1] == e);
                assert(a.contains(e));
                let m = choose|m: int| 0 <= m < b.len() && b[m] == e;
                if m == 0 {
                    assert(seq_lt(a[0], a[k + 1]));
                    lemma_lt_irreflexive(a[0]);
                }
                assert(b1[m - 1] == e);
            }
            if b1.contains(e) {
                let k = choose|k: int| 0 <= k < b1.len() && b1[k] == e;
                assert(b[k + 1] == e);
                assert(b.contains(e));
                let m = choose|m: int| 0 <= m < a.len() && a[m] == e;
                if m == 0 {
                    assert(seq_lt(b[0], b[k + 1]));
                    lemma_lt_irreflexive(b[0]);
                }
                assert(a1[m - 1] == e);
            }
        }
        assert forall|i: int, j: int| 0 <= i < j < a1.len() implies seq_lt(#[trigger] a1[i], #[trigger] a1[j]) by {
            assert(a1[i] == a[i + 1] && a1[j] == a[j + 1]);
        }
        assert forall|i: int, j: int| 0 <= i < j < b1.len() implies seq_lt(#[trigger] b1[i], #[trigger] b1[j]) by {
            assert(b1[i] == b[i + 1] && b1[j] == b[j + 1]);
        }
        lemma_ascending_texts_unique(a1, b1);
        assert(a =~= seq![a[0]] + a1);
        assert(b =~= seq![b[0]] + b1);
    }
}

/// Sorting two runs of different texts that hold the same texts gives the
/// same run.
pub proof fn lemma_sort_same_texts(p: Seq<Seq<char>>, q: Seq<Seq<char>>)
    requires
        texts_distinct(p),
        texts_distinct(q),
        forall|e: Seq<char>| p.contains(e) <==> q.contains(e),
    ensures
        sort_seqs(p) == sort_seqs(q),
{
    law_sort_texts(p);
    law_sort_texts(q);
    lemma_sort_distinct(p);
    lemma_sort_distinct(q);
    let a = sort_seqs(p);
    let b = sort_seqs(q);
    assert forall|i: int, j: int| 0 <= i < j < a.len() implies seq_lt(#[trigger] a[i], #[trigger] a[j]) by {
        lemma_lt_total(a[i], a[j]);
    }
    assert forall|i: int, j: int| 0 <= i < j < b.len() implies seq_lt(#[trigger] b[i], #[trigger] b[j]) by {
        lemma_lt_total(b[i], b[j]);
    }
    assert forall|e: Seq<char>| a.contains(e) <==> b.contains(e) by {
        assert(a.contains(e) <==> p.contains(e));
        assert(b.contains(e) <==> q.contains(e));
    }
    lemma_ascending_texts_unique(a, b);
}

/// The order of texts is lexicographic by code point: a text comes before
/// another exactly when it is a proper prefix of it, or when at the first
/// place where the two differ its character has the smaller code point.
pub proof fn law_text_order(a: Seq<char>, b: Seq<char>)
    ensures
        seq_lt(a, b) <==> ((a.len() < b.len() && a == b.subrange(0, a.len() as int)) || exists|i: int|
            0 <= i < a.len() && i < b.len() && a.subrange(0, i) == b.subrange(0, i) && a[i] < #[trigger] b[i]),
    decreases a.len(),
{
    if a.len() == 0 {
        assert(a =~= b.subrange(0, 0));
    } else if b.len() == 0 {
    } else if a[0] != b[0] {
        if a.len() < b.len() && a == b.subrange(0, a.len() as int) {
            assert(a[0] == b[0]);
        }
        if exists|i: int| 0 <= i < a.len() && i < b.len() && a.subrange(0, i) == b.subrange(0, i) && a[i] < #[trigger] b[i] {
            let i = choose|i: int| 0 <= i < a.len() && i < b.len() && a.subrange(0, i) == b.subrange(0, i) && a[i] < #[trigger] b[i];
            if i > 0 {
                assert(a.subrange(0, i)[0] == b.subrange(0, i)[0]);
            }
        }
        if char_lt(a[0], b[0]) {
            assert(a.subrange(0, 0) =~= b.subrange(0, 0));
        }
    } else {
        let a1 = a.subrange(1, a.len() as int);
        let b1 = b.subrange(1, b.len() as int);
        law_text_order(a1, b1);
        if a1.len() < b1.len() && a1 == b1.subrange(0, a1.len() as int) {
            assert forall|k: int| 0 <= k < a.len() implies a[k] == b.subrange(0, a.len() as int)[k] by {
                if k > 0 {
                    assert(a[k] == a1[k - 1]);
                    assert(a1[k - 1] == b1.subrange(0, a1.len() as int)[k - 1]);
                }
            }
            assert(a =~= b.subrange(0, a.len() as int));
        }
        if a.len() < b.len() && a == b.subrange(0, a.len() as int) {
            assert(a1 =~= b1.subrange(0, a1.len() as int));
        }
        if exists|j: int| 0 <= j < a1.len() && j < b1.len() && a1.subrange(0, j) == b1.subrange(0, j) && a1[j] < #[trigger] b1[j] {
            let j = choose|j: int| 0 <= j < a1.len() && j < b1.len() && a1.subrange(0, j) == b1.subrange(0, j) && a1[j] < #[trigger] b1[j];
            assert(a.subrange(0, j + 1) =~= seq![a[0]] + a1.subrange(0, j));
            assert(b.subrange(0, j + 1) =~= seq![b[0]] + b1.subrange(0, j));
            assert(a[j + 1] == a1[j] && b[j + 1] == b1[j]);
        }
        if exists|i: int| 0 <= i < a.len() && i < b.len() && a.subrange(0, i) == b.subrange(0, i) && a[i] < #[trigger] b[i] {
            let i = choose|i: int| 0 <= i < a.len() && i < b.len() && a.subrange(0, i) == b.subrange(0, i) && a[i] < #[trigger] b[i];
            assert(i > 0);
            assert(a1.subrange(0, i - 1) =~= a.subrange(0, i).subrange(1, i));
            assert(b1.subrange(0, i - 1) =~= b.subrange(0, i).subrange(1, i));
            assert(a1[i - 1] == a[i] && b1[i - 1] == b[i]);
        }
    }
}

/// Padding adds spaces after a text up to the width, and leaves a text at
/// least that wide as it is.
pub proof fn law_pad_right(s: Seq<char>, w: nat)
    ensures
        pad_right(s, w).len() == (if s.len() < w { w } else { s.len() }),
        pad_right(s, w).subrange(0, s.len() as int) == s,
        forall|i: int| s.len() <= i < pad_right(s, w).len() ==> #[trigger] pad_right(s, w)[i] == ' ',
{
    assert(pad_right(s, w).subrange(0, s.len() as int) =~= s);
}

proof fn lemma_lead(s: Seq<char>) -> (a: int)
    ensures
        0 <= a <= s.len(),
        forall|k: int| 0 <= k < a ==> is_white_space(#[trigger] s[k]),
        a == s.len() || !is_white_space(s[a]),
    decreases s.len(),
{
    if s.len() > 0 && is_white_space(s[0]) {
        let t = s.subrange(1, s.len() as int);
        let a1 = lemma_lead(t);
        assert forall|k: int| 0 <= k < a1 + 1 implies is_white_space(#[trigger] s[k]) by {
            if k > 0 {
                assert(s[k] == t[k - 1]);
            }
        }
        if a1 < t.len() {
            assert(s[a1 + 1] == t[a1]);
        }
        a1 + 1
    } else {
        0
    }
}

proof fn lemma_trail(t: Seq<char>) -> (b: int)
    ensures
        0 <= b <= t.len(),
        forall|k: int| b <= k < t.len() ==> is_white_space(#[trigger] t[k]),
        b == 0 || !is_white_space(t[b - 1]),
    decreases t.len(),
{
    if t.len() > 0 && is_white_space(t[t.len() - 1]) {
        let u = t.subrange(0, t.len() - 1);
        let b1 = lemma_trail(u);
        assert forall|k: int| b1 <= k < t.len() implies is_white_space(#[trigger] t[k]) by {
            if k < t.len() - 1 {
                assert(t[k] == u[k]);
            }
        }
        if b1 > 0 {
            assert(t[b1 - 1] == u[b1 - 1]);
        }
        b1
    } else {
        t.len() as int
    }
}

/// Trimming keeps a piece of the text, with no white space at either end,
/// and empties only a text that is all white space.
pub proof fn law_trim(s: Seq<char>)
    ensures
        trim(s).len() > 0 ==> !is_white_space(trim(s)[0]) && !is_white_space(trim(s).last()),
        exists|a: int, b: int| 0 <= a <= b <= s.len() && trim(s) == s.subrange(a, b),
        (exists|i: int| 0 <= i < s.len() && !is_white_space(#[trigger] s[i])) ==> trim(s).len() > 0,
{
    let n = s.len();
    let a = lemma_lead(s);
    lemma_trim_start_at(s, a);
    let t = s.subrange(a, n as int);
    let b = lemma_trail(t);
    lemma_trim_end_at(t, b);
    assert(trim(s) == t.subrange(0, b));
    assert(t.subrange(0, b) =~= s.subrange(a, a + b));
    if exists|i: int| 0 <= i < s.len() && !is_white_space(#[trigger] s[i]) {
        let i = choose|i: int| 0 <= i < s.len() && !is_white_space(#[trigger] s[i]);
        assert(i >= a);
        assert(t[i - a] == s[i]);
        assert(i - a < b);
    }
    if trim(s).len() > 0 {
        assert(trim(s)[0] == t[0]);
        assert(trim(s).last() == t[b - 1]);
    }
}

/// The first line of a text is what stands before its first line break,
/// trimmed: nothing after that break changes it, it holds no line break,
/// and it has no white space at either end.
pub proof fn law_first_line(a: Seq<char>, b: Seq<char>)
    ensures
        !a.contains('\n') ==> spec_first_line(a + seq!['\n'] + b) == trim(a),
        !a.contains('\n') ==> spec_first_line(a) == trim(a),
        !spec_first_line(a).contains('\n'),
        spec_first_line(a).len() > 0 ==> !is_white_space(spec_first_line(a)[0]) && !is_white_space(
            spec_first_line(a).last(),
        ),
{
    let s = a + seq!['\n'] + b;
    lemma_char_index(s, '\n');
    lemma_char_index(a, '\n');
    if !a.contains('\n') {
        assert forall|k: int| 0 <= k < a.len() implies s[k] != '\n' by {
            assert(s[k] == a[k]);
            if a[k] == '\n' {
                assert(a.contains('\n'));
            }
        }
        assert(s[a.len() as int] == '\n');
        assert(char_index(s, '\n') == Some(a.len() as int));
        assert(s.subrange(0, a.len() as int) =~= a);
        if let Some(i) = char_index(a, '\n') {
            assert(a.contains('\n'));
        }
    }
    let line = before_newline(a);
    assert(!line.contains('\n')) by {
        if line.contains('\n') {
            let j = choose|j: int| 0 <= j < line.len() && line[j] == '\n';
            assert(a[j] == '\n');
        }
    }
    law_trim(line);
    let (x, y) = choose|x: int, y: int| 0 <= x <= y <= line.len() && trim(line) == line.subrange(x, y);
    assert(!trim(line).contains('\n')) by {
        if trim(line).contains('\n') {
            let j = choose|j: int| 0 <= j < trim(line).len() && trim(line)[j] == '\n';
            assert(line[x + j] == '\n');
        }
    }
}

} // verus!
