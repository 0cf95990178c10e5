//! Parsing of `.env` text into resolved bindings, with `${NAME}` interpolation.
use vstd::prelude::*;
use crate::text::{
    chars_of, copy_range, is_ws, lemma_trim_end_prefix, lemma_trim_start_concat, skip_ws_forward,
    string_of_range, trim_bounds, trim_end, trim_spec, trim_start,
};

verus! {

/// One resolved `KEY=VALUE` binding.
pub struct EnvVar {
    pub key: String,
    pub value: String,
}

impl View for EnvVar {
    type V = (Seq<char>, Seq<char>);

    open spec fn view(&self) -> (Seq<char>, Seq<char>) {
        (self.key@, self.value@)
    }
}

/// The `(key, value)` pairs of a list of bindings.
pub open spec fn pairs(vars: Seq<EnvVar>) -> Seq<(Seq<char>, Seq<char>)> {
    vars.map_values(|e: EnvVar| e@)
}

/// The value bound to `name` by the last binding of `env` with that key.
pub open spec fn lookup(env: Seq<(Seq<char>, Seq<char>)>, name: Seq<char>) -> Option<Seq<char>>
    decreases env.len(),
{
    if env.len() == 0 {
        None
    } else if env.last().0 == name {
        Some(env.last().1)
    } else {
        lookup(env.drop_last(), name)
    }
}

/// Index of the first `c` in `s` at or after `from`, or `s.len()` where there is none.
pub open spec fn find_from(s: Seq<char>, from: int, c: char) -> int
    decreases s.len() - from,
{
    if 0 <= from < s.len() {
        if s[from] == c {
            from
        } else {
            find_from(s, from + 1, c)
        }
    } else {
        s.len() as int
    }
}

/// `find_from` gives an index from `from` on, at a `c` unless it is the end, and
/// no `c` stands before it.
pub proof fn lemma_find_from_bounds(s: Seq<char>, from: int, c: char)
    requires
        0 <= from <= s.len(),
    ensures
        from <= find_from(s, from, c) <= s.len(),
        find_from(s, from, c) < s.len() ==> s[find_from(s, from, c)] == c,
        forall|j: int| from <= j < find_from(s, from, c) ==> s[j] != c,
    decreases s.len() - from,
{
    if from < s.len() && s[from] != c {
        lemma_find_from_bounds(s, from + 1, c);
    }
}

/// `s` with one pair of matching surrounding quotes (`"` or `'`) removed.
pub open spec fn strip_quotes_spec(s: Seq<char>) -> Seq<char> {
    if s.len() >= 2 && ((s[0] == '"' && s.last() == '"') || (s[0] == '\'' && s.last() == '\'')) {
        s.subrange(1, s.len() - 1)
    } else {
        s
    }
}

/// The text `${name}`.
pub open spec fn placeholder(name: Seq<char>) -> Seq<char> {
    seq!['$', '{'] + name + seq!['}']
}

/// What `${name}` stands for: the binding of `context`, else that of `ambient`,
/// else the placeholder text itself.
pub open spec fn resolve(
    name: Seq<char>,
    context: Seq<(Seq<char>, Seq<char>)>,
    ambient: Seq<(Seq<char>, Seq<char>)>,
) -> Seq<char> {
    match lookup(context, name) {
        Some(v) => v,
        None => match lookup(ambient, name) {
            Some(v) => v,
            None => placeholder(name),
        },
    }
}

/// The interpolation of `s` from position `i` on.
pub open spec fn interpolate_from(
    s: Seq<char>,
    i: int,
    context: Seq<(Seq<char>, Seq<char>)>,
    ambient: Seq<(Seq<char>, Seq<char>)>,
) -> Seq<char>
    decreases s.len() - i,
    via interpolate_from_decreases
{
    if 0 <= i < s.len() {
        if s[i] == '$' && i + 1 < s.len() && s[i + 1] == '{' {
            let k = find_from(s, i + 2, '}');
            if k < s.len() {
                resolve(s.subrange(i + 2, k), context, ambient) + interpolate_from(
                    s,
                    k + 1,
                    context,
                    ambient,
                )
            } else {
                s.subrange(i, s.len() as int)
            }
        } else {
            seq![s[i]] + interpolate_from(s, i + 1, context, ambient)
        }
    } else {
        Seq::empty()
    }
}

#[via_fn]
proof fn interpolate_from_decreases(
    s: Seq<char>,
    i: int,
    context: Seq<(Seq<char>, Seq<char>)>,
    ambient: Seq<(Seq<char>, Seq<char>)>,
) {
    if 0 <= i && i + 2 <= s.len() {
        lemma_find_from_bounds(s, i + 2, '}');
    }
}

/// `s` with every closed `${name}` replaced by what it resolves to.
pub open spec fn interpolate_spec(
    s: Seq<char>,
    context: Seq<(Seq<char>, Seq<char>)>,
    ambient: Seq<(Seq<char>, Seq<char>)>,
) -> Seq<char> {
    interpolate_from(s, 0, context, ambient)
}

/// Removes one pair of matching surrounding `""` or `''` from `s`.
pub fn strip_quotes(s: &str) -> (r: String)
    ensures
        r@ == strip_quotes_spec(s@),
{
    let v = chars_of(s);
    let n = v.len();
    let (a, b) = unquote_bounds(&v, 0, n);
    assert(v@.subrange(0, n as int) =~= v@);
    string_of_range(&v, a, b)
}

/// The bounds of `strip_quotes_spec(s[from..to])` inside `s`.
fn unquote_bounds(s: &Vec<char>, from: usize, to: usize) -> (r: (usize, usize))
    requires
        from <= to <= s.len(),
    ensures
        from <= r.0 <= r.1 <= to,
        strip_quotes_spec(s@.subrange(from as int, to as int)) == s@.subrange(
            r.0 as int,
            r.1 as int,
        ),
{
    let ghost t = s@.subrange(from as int, to as int);
    if to - from >= 2 && ((s[from] == '"' && s[to - 1] == '"') || (s[from] == '\'' && s[to - 1]
        == '\'')) {
        assert(t.subrange(1, t.len() - 1) =~= s@.subrange(from + 1, to - 1));
        (from + 1, to - 1)
    } else {
        (from, to)
    }
}

/// Index of the first `c` in `s` at or after `from`, or `s.len()`.
fn find_char(s: &Vec<char>, from: usize, c: char) -> (r: usize)
    requires
        from <= s.len(),
    ensures
        r as int == find_from(s@, from as int, c),
{
    let mut i: usize = from;
    while i < s.len() && s[i] != c
        invariant
            from <= i <= s.len(),
            find_from(s@, from as int, c) == find_from(s@, i as int, c),
        decreases s.len() - i,
    {
        i = i + 1;
    }
    i
}

/// Position in `env` of the last binding whose key is `name`.
pub(crate) fn lookup_index(env: &Vec<EnvVar>, name: &String) -> (r: Option<usize>)
    ensures
        match r {
            Some(i) => i < env.len() && lookup(pairs(env@), name@) == Some(env@[i as int].value@),
            None => lookup(pairs(env@), name@) is None,
        },
{
    let mut j: usize = env.len();
    assert(env@.subrange(0, j as int) =~= env@);
    while j > 0
        invariant
            j <= env.len(),
            lookup(pairs(env@), name@) == lookup(pairs(env@.subrange(0, j as int)), name@),
        decreases j,
    {
        let ghost p = pairs(env@.subrange(0, j as int));
        assert(p.drop_last() =~= pairs(env@.subrange(0, j - 1)));
        assert(p.last() == env@[j - 1]@);
        if env[j - 1].key == *name {
            return Some(j - 1);
        }
        j = j - 1;
    }
    None
}

/// The characters that `${name}` stands for.
fn resolve_exec(name: &String, context: &Vec<EnvVar>, ambient: &Vec<EnvVar>) -> (r: Vec<char>)
    ensures
        r@ == resolve(name@, pairs(context@), pairs(ambient@)),
{
    match lookup_index(context, name) {
        Some(i) => chars_of(context[i].value.as_str()),
        None => match lookup_index(ambient, name) {
            Some(i) => chars_of(ambient[i].value.as_str()),
            None => {
                let mut out: Vec<char> = Vec::new();
                out.push('$');
                out.push('{');
                let mut inner = chars_of(name.as_str());
                out.append(&mut inner);
                out.push('}');
                assert(out@ =~= placeholder(name@));
                out
            },
        },
    }
}

/// Interpolation of the characters `s`.
fn interpolate_chars(s: &Vec<char>, context: &Vec<EnvVar>, ambient: &Vec<EnvVar>) -> (r: Vec<
    char,
>)
    ensures
        r@ == interpolate_spec(s@, pairs(context@), pairs(ambient@)),
{
    let ghost ctx = pairs(context@);
    let ghost amb = pairs(ambient@);
    let n = s.len();
    let mut out: Vec<char> = Vec::new();
    let mut i: usize = 0;
    while i < n
        invariant
            i <= n == s.len(),
            ctx == pairs(context@),
            amb == pairs(ambient@),
            out@ + interpolate_from(s@, i as int, ctx, amb) == interpolate_spec(s@, ctx, amb),
        decreases n - i,
    {
        let ghost before = out@;
        if s[i] == '$' && i + 1 < n && s[i + 1] == '{' {
            let k = find_char(s, i + 2, '}');
            proof {
                lemma_find_from_bounds(s@, i + 2, '}');
            }
            if k < n {
                let name = string_of_range(s, i + 2, k);
                let mut rep = resolve_exec(&name, context, ambient);
                let ghost tail = interpolate_from(s@, k + 1, ctx, amb);
                assert(interpolate_from(s@, i as int, ctx, amb) == rep@ + tail);
                assert(before + (rep@ + tail) =~= (before + rep@) + tail);
                out.append(&mut rep);
                i = k + 1;
            } else {
                let mut rest = copy_range(s, i, n);
                assert(interpolate_from(s@, i as int, ctx, amb) == rest@);
                out.append(&mut rest);
                i = n;
                assert(interpolate_from(s@, n as int, ctx, amb) =~= Seq::<char>::empty());
                assert(out@ + interpolate_from(s@, n as int, ctx, amb) =~= out@);
            }
        } else {
            let c = s[i];
            out.push(c);
            let ghost tail = interpolate_from(s@, i + 1, ctx, amb);
            assert(interpolate_from(s@, i as int, ctx, amb) == seq![c] + tail);
            assert(before + (seq![c] + tail) =~= (before + seq![c]) + tail);
            i = i + 1;
        }
    }
    assert(out@ + interpolate_from(s@, n as int, ctx, amb) =~= out@);
    out
}

/// Replaces each closed `${NAME}` in `value` by the value of `NAME` in `context`
/// (its last binding there), else in `ambient`; an unknown name, and an unclosed
/// `${`, stay as they are.
pub fn interpolate(value: &str, context: &Vec<EnvVar>, ambient: &Vec<EnvVar>) -> (r: String)
    ensures
        r@ == interpolate_spec(value@, pairs(context@), pairs(ambient@)),
{
    let v = chars_of(value);
    let out = interpolate_chars(&v, context, ambient);
    let n = out.len();
    assert(out@.subrange(0, n as int) =~= out@);
    string_of_range(&out, 0, n)
}

/// The characters `export ` that may open a key.
pub open spec fn export_prefix() -> Seq<char> {
    seq!['e', 'x', 'p', 'o', 'r', 't', ' ']
}

/// `k` without a leading `export ` and the whitespace after it.
pub open spec fn strip_export(k: Seq<char>) -> Seq<char> {
    if k.len() >= 7 && k.subrange(0, 7) == export_prefix() {
        trim_spec(k.subrange(7, k.len() as int))
    } else {
        k
    }
}

/// A blank line, or one whose first non-blank character is `#`.
pub open spec fn is_skipped_line(line: Seq<char>) -> bool {
    trim_start(line).len() == 0 || trim_start(line)[0] == '#'
}

/// Index of the first `=` of `line`, or its length.
pub open spec fn eq_index(line: Seq<char>) -> int {
    find_from(line, 0, '=')
}

/// The key of a binding line: the text before the first `=`, trimmed, without `export `.
pub open spec fn line_key(line: Seq<char>) -> Seq<char> {
    strip_export(trim_spec(line.subrange(0, eq_index(line))))
}

/// The value of a binding line before interpolation: the text after the first `=`,
/// trimmed, with its surrounding quotes removed.
pub open spec fn line_raw_value(line: Seq<char>) -> Seq<char> {
    strip_quotes_spec(trim_spec(line.subrange(eq_index(line) + 1, line.len() as int)))
}

/// A line that yields a binding: not skipped, with an `=` and a non-empty key.
pub open spec fn is_binding_line(line: Seq<char>) -> bool {
    !is_skipped_line(line) && eq_index(line) < line.len() && line_key(line).len() > 0
}

/// A line that is neither skipped nor a binding: no `=`, or an empty key.
pub open spec fn is_malformed_line(line: Seq<char>) -> bool {
    !is_skipped_line(line) && !is_binding_line(line)
}

/// The bindings and the 1-based numbers of the malformed lines of `lines`, read in
/// order, each value interpolated against the bindings before it and `ambient`.
pub open spec fn parse_lines(lines: Seq<Seq<char>>, ambient: Seq<(Seq<char>, Seq<char>)>) -> (
    Seq<(Seq<char>, Seq<char>)>,
    Seq<int>,
)
    decreases lines.len(),
{
    if lines.len() == 0 {
        (Seq::empty(), Seq::empty())
    } else {
        let prev = parse_lines(lines.drop_last(), ambient);
        let line = lines.last();
        if is_binding_line(line) {
            (
                prev.0.push(
                    (line_key(line), interpolate_spec(line_raw_value(line), prev.0, ambient)),
                ),
                prev.1,
            )
        } else if is_malformed_line(line) {
            (prev.0, prev.1.push(lines.len() as int))
        } else {
            prev
        }
    }
}

/// The lines of `s` from position `start`: the pieces between `\n` characters.
pub open spec fn split_from(s: Seq<char>, start: int) -> Seq<Seq<char>>
    decreases s.len() - start,
    via split_from_decreases
{
    if 0 <= start <= s.len() {
        let k = find_from(s, start, '\n');
        if k < s.len() {
            seq![s.subrange(start, k)] + split_from(s, k + 1)
        } else {
            seq![s.subrange(start, s.len() as int)]
        }
    } else {
        Seq::empty()
    }
}

#[via_fn]
proof fn split_from_decreases(s: Seq<char>, start: int) {
    if 0 <= start <= s.len() {
        lemma_find_from_bounds(s, start, '\n');
    }
}

/// The lines of `s`.
pub open spec fn lines_of(s: Seq<char>) -> Seq<Seq<char>> {
    split_from(s, 0)
}

/// The bindings and malformed line numbers of the text `content`.
pub open spec fn parse_spec(content: Seq<char>, ambient: Seq<(Seq<char>, Seq<char>)>) -> (
    Seq<(Seq<char>, Seq<char>)>,
    Seq<int>,
) {
    parse_lines(lines_of(content), ambient)
}

/// What one line of a file gives.
pub enum LineOutcome {
    Skipped,
    Malformed,
    Bound(EnvVar),
}

/// The bounds of `strip_export(s[from..to])` inside `s`.
fn export_bounds(s: &Vec<char>, from: usize, to: usize) -> (r: (usize, usize))
    requires
        from <= to <= s.len(),
    ensures
        from <= r.0 <= r.1 <= to,
        strip_export(s@.subrange(from as int, to as int)) == s@.subrange(r.0 as int, r.1 as int),
{
    let ghost k = s@.subrange(from as int, to as int);
    if to - from >= 7 && s[from] == 'e' && s[from + 1] == 'x' && s[from + 2] == 'p' && s[from
        + 3] == 'o' && s[from + 4] == 'r' && s[from + 5] == 't' && s[from + 6] == ' ' {
        assert(k.subrange(0, 7) =~= export_prefix());
        assert(k.subrange(7, k.len() as int) =~= s@.subrange(from + 7, to as int));
        trim_bounds(s, from + 7, to)
    } else {
        proof {
            if k.len() >= 7 && k.subrange(0, 7) == export_prefix() {
                assert(k.subrange(0, 7)[0] == 'e');
                assert(k.subrange(0, 7)[1] == 'x');
                assert(k.subrange(0, 7)[2] == 'p');
                assert(k.subrange(0, 7)[3] == 'o');
                assert(k.subrange(0, 7)[4] == 'r');
                assert(k.subrange(0, 7)[5] == 't');
                assert(k.subrange(0, 7)[6] == ' ');
            }
        }
        (from, to)
    }
}

/// Classifies the line `line` and, for a binding, resolves its value against
/// `context` and `ambient`.
pub fn parse_line(line: &Vec<char>, context: &Vec<EnvVar>, ambient: &Vec<EnvVar>) -> (r:
    LineOutcome)
    ensures
        match r {
            LineOutcome::Skipped => is_skipped_line(line@),
            LineOutcome::Malformed => is_malformed_line(line@),
            LineOutcome::Bound(e) => is_binding_line(line@) && e@ == (
                line_key(line@),
                interpolate_spec(line_raw_value(line@), pairs(context@), pairs(ambient@)),
            ),
        },
{
    let n = line.len();
    assert(line@.subrange(0, n as int) =~= line@);
    let first = skip_ws_forward(line, 0, n);
    if first == n || line[first] == '#' {
        return LineOutcome::Skipped;
    }
    let e = find_char(line, 0, '=');
    proof {
        lemma_find_from_bounds(line@, 0, '=');
    }
    if e == n {
        return LineOutcome::Malformed;
    }
    let (ta, tb) = trim_bounds(line, 0, e);
    let (ka, kb) = export_bounds(line, ta, tb);
    if ka == kb {
        return LineOutcome::Malformed;
    }
    let (va, vb) = trim_bounds(line, e + 1, n);
    let (qa, qb) = unquote_bounds(line, va, vb);
    let raw = copy_range(line, qa, qb);
    let value = interpolate_chars(&raw, context, ambient);
    let vn = value.len();
    assert(value@.subrange(0, vn as int) =~= value@);
    let key = string_of_range(line, ka, kb);
    let value = string_of_range(&value, 0, vn);
    LineOutcome::Bound(EnvVar { key, value })
}

/// The result of parsing a file: its bindings in file order, and the 1-based
/// numbers of the lines that were skipped as malformed.
pub struct ParsedEnv {
    pub vars: Vec<EnvVar>,
    pub malformed_lines: Vec<usize>,
}

/// Line numbers as integers.
pub open spec fn line_numbers(v: Seq<usize>) -> Seq<int> {
    v.map_values(|n: usize| n as int)
}

/// Parses the text of a `.env` file. Lines are split at `\n`; each is skipped
/// (blank or `#` comment), malformed (no `=`, or an empty key), or a binding whose
/// value is interpolated against the bindings of the lines before it and then
/// against `ambient`.
pub fn parse_env(content: &str, ambient: &Vec<EnvVar>) -> (r: ParsedEnv)
    requires
        content@.len() < usize::MAX,
    ensures
        pairs(r.vars@) == parse_spec(content@, pairs(ambient@)).0,
        line_numbers(r.malformed_lines@) == parse_spec(content@, pairs(ambient@)).1,
{
    let s = chars_of(content);
    let n = s.len();
    let mut vars: Vec<EnvVar> = Vec::new();
    let mut bad: Vec<usize> = Vec::new();
    let ghost mut done: Seq<Seq<char>> = Seq::empty();
    let mut count: usize = 0;
    let mut start: usize = 0;
    let mut more = true;
    assert(pairs(vars@) =~= Seq::empty());
    assert(line_numbers(bad@) =~= Seq::empty());
    while more
        invariant
            start <= n == s.len(),
            n < usize::MAX,
            count == done.len(),
            more ==> count <= start,
            more ==> done + split_from(s@, start as int) == lines_of(s@),
            !more ==> done == lines_of(s@),
            pairs(vars@) == parse_lines(done, pairs(ambient@)).0,
            line_numbers(bad@) == parse_lines(done, pairs(ambient@)).1,
        decreases n - start + (if more { 1int } else { 0int }),
    {
        let k = find_char(&s, start, '\n');
        proof {
            lemma_find_from_bounds(s@, start as int, '\n');
        }
        let line = copy_range(&s, start, k);
        let ghost before = done;
        let ghost old_vars = vars@;
        let ghost old_bad = bad@;
        proof {
            done = done.push(line@);
            assert(done.drop_last() =~= before);
        }
        count = count + 1;
        match parse_line(&line, &vars, ambient) {
            LineOutcome::Skipped => {},
            LineOutcome::Malformed => {
                bad.push(count);
                assert(line_numbers(bad@) =~= line_numbers(old_bad).push(count as int));
            },
            LineOutcome::Bound(e) => {
                vars.push(e);
                assert(pairs(vars@) =~= pairs(old_vars).push(e@));
            },
        }
        if k < n {
            assert(split_from(s@, start as int) == seq![line@] + split_from(s@, k + 1));
            assert(before + (seq![line@] + split_from(s@, k + 1)) =~= done + split_from(
                s@,
                k + 1,
            ));
            start = k + 1;
        } else {
            assert(split_from(s@, start as int) == seq![line@]);
            assert(before + seq![line@] =~= done);
            more = false;
        }
    }
    ParsedEnv { vars, malformed_lines: bad }
}

/// `find_from` stops at the first `c` from `from` on.
pub proof fn lemma_find_from_at(s: Seq<char>, from: int, m: int, c: char)
    requires
        0 <= from <= m <= s.len(),
        m < s.len() ==> s[m] == c,
        forall|j: int| from <= j < m ==> s[j] != c,
    ensures
        find_from(s, from, c) == m,
    decreases m - from,
{
    if from < m {
        lemma_find_from_at(s, from + 1, m, c);
    }
}

/// Text without a `${` is left as it is by interpolation.
pub proof fn lemma_interpolate_plain(
    s: Seq<char>,
    i: int,
    context: Seq<(Seq<char>, Seq<char>)>,
    ambient: Seq<(Seq<char>, Seq<char>)>,
)
    requires
        0 <= i <= s.len(),
        forall|j: int| i <= j < s.len() - 1 ==> !(#[trigger] s[j] == '$' && s[j + 1] == '{'),
    ensures
        interpolate_from(s, i, context, ambient) == s.subrange(i, s.len() as int),
    decreases s.len() - i,
{
    if i < s.len() {
        lemma_interpolate_plain(s, i + 1, context, ambient);
        assert(seq![s[i]] + s.subrange(i + 1, s.len() as int) =~= s.subrange(i, s.len() as int));
    } else {
        assert(s.subrange(i, s.len() as int) =~= Seq::<char>::empty());
    }
}

/// A key that a line can hold as it is: no `=`, not blank, not opening with `#` or
/// with `export `, once trimmed.
pub open spec fn is_plain_key(k: Seq<char>) -> bool {
    &&& forall|j: int| 0 <= j < k.len() ==> k[j] != '='
    &&& trim_spec(k).len() > 0
    &&& trim_spec(k)[0] != '#'
    &&& strip_export(trim_spec(k)) == trim_spec(k)
}

/// A value that a line can hold as it is: once trimmed, not wrapped in quotes and
/// without `${`.
pub open spec fn is_plain_value(v: Seq<char>) -> bool {
    let t = trim_spec(v);
    &&& strip_quotes_spec(t) == t
    &&& forall|j: int| 0 <= j < t.len() - 1 ==> !(#[trigger] t[j] == '$' && t[j + 1] == '{')
}

/// The line `k=v`.
pub open spec fn binding_line(k: Seq<char>, v: Seq<char>) -> Seq<char> {
    k + seq!['='] + v
}

/// A line `k=v` with a plain key and value is a binding of the trimmed key to the
/// trimmed value.
pub proof fn lemma_plain_line(
    k: Seq<char>,
    v: Seq<char>,
    context: Seq<(Seq<char>, Seq<char>)>,
    ambient: Seq<(Seq<char>, Seq<char>)>,
)
    requires
        is_plain_key(k),
        is_plain_value(v),
    ensures
        is_binding_line(binding_line(k, v)),
        line_key(binding_line(k, v)) == trim_spec(k),
        interpolate_spec(line_raw_value(binding_line(k, v)), context, ambient) == trim_spec(v),
{
    let line = binding_line(k, v);
    lemma_find_from_at(line, 0, k.len() as int, '=');
    assert(line.subrange(0, k.len() as int) =~= k);
    assert(line.subrange(k.len() as int + 1, line.len() as int) =~= v);
    lemma_trim_end_prefix(trim_start(k));
    lemma_trim_start_concat(k, seq!['='] + v);
    assert(line =~= k + (seq!['='] + v));
    let t = trim_spec(v);
    lemma_interpolate_plain(t, 0, context, ambient);
    assert(t.subrange(0, t.len() as int) =~= t);
}

/// Lines `k_i=v_i` with plain keys and values give, in order, the bindings of the
/// trimmed keys to the trimmed values, and no malformed line.
pub proof fn lemma_plain_lines(
    keys: Seq<Seq<char>>,
    values: Seq<Seq<char>>,
    ambient: Seq<(Seq<char>, Seq<char>)>,
)
    requires
        keys.len() == values.len(),
        forall|i: int| 0 <= i < keys.len() ==> is_plain_key(#[trigger] keys[i]),
        forall|i: int| 0 <= i < values.len() ==> is_plain_value(#[trigger] values[i]),
    ensures
        parse_lines(Seq::new(keys.len(), |i: int| binding_line(keys[i], values[i])), ambient).0
            == Seq::new(keys.len(), |i: int| (trim_spec(keys[i]), trim_spec(values[i]))),
        parse_lines(Seq::new(keys.len(), |i: int| binding_line(keys[i], values[i])), ambient).1
            == Seq::<int>::empty(),
    decreases keys.len(),
{
    let n = keys.len();
    let lines = Seq::new(n, |i: int| binding_line(keys[i], values[i]));
    if n > 0 {
        let ks = keys.drop_last();
        let vs = values.drop_last();
        lemma_plain_lines(ks, vs, ambient);
        assert(lines.drop_last() =~= Seq::new(ks.len(), |i: int| binding_line(ks[i], vs[i])));
        let prev = parse_lines(lines.drop_last(), ambient);
        lemma_plain_line(keys[n - 1], values[n - 1], prev.0, ambient);
        assert(parse_lines(lines, ambient).0 =~= Seq::new(
            n,
            |i: int| (trim_spec(keys[i]), trim_spec(values[i])),
        ));
    }
}

/// Blank and comment lines add no binding and no malformed line.
pub proof fn lemma_skipped_line_adds_nothing(
    lines: Seq<Seq<char>>,
    line: Seq<char>,
    ambient: Seq<(Seq<char>, Seq<char>)>,
)
    requires
        trim_start(line).len() == 0 || trim_start(line)[0] == '#',
    ensures
        parse_lines(lines.push(line), ambient) == parse_lines(lines, ambient),
{
    assert(lines.push(line).drop_last() =~= lines);
}

/// `export k=v` binds the key `k` itself, for a key `k` without `=` that is not
/// blank at either end.
pub proof fn lemma_export_key(k: Seq<char>, v: Seq<char>)
    requires
        k.len() > 0,
        !is_ws(k[0]),
        !is_ws(k.last()),
        forall|j: int| 0 <= j < k.len() ==> k[j] != '=',
    ensures
        is_binding_line(export_prefix() + binding_line(k, v)),
        line_key(export_prefix() + binding_line(k, v)) == k,
{
    let line = export_prefix() + binding_line(k, v);
    let pk = export_prefix() + k;
    assert(line =~= pk + (seq!['='] + v));
    assert forall|j: int| 0 <= j < pk.len() implies pk[j] != '=' by {
        if j >= 7 {
            assert(pk[j] == k[j - 7]);
        }
    }
    lemma_find_from_at(line, 0, pk.len() as int, '=');
    assert(line.subrange(0, pk.len() as int) =~= pk);
    assert(pk[0] == 'e');
    assert(pk.last() == k.last());
    assert(trim_start(pk) == pk);
    assert(trim_end(pk) == pk);
    assert(pk.subrange(0, 7) =~= export_prefix());
    assert(pk.subrange(7, pk.len() as int) =~= k);
    assert(trim_start(k) == k);
    assert(trim_end(k) == k);
    lemma_trim_start_concat(pk, seq!['='] + v);
}

/// Quotes come off once, and only as a matching pair.
pub proof fn lemma_strip_quotes(v: Seq<char>)
    ensures
        strip_quotes_spec(seq!['\''] + v + seq!['\'']) == v,
        strip_quotes_spec(seq!['"'] + v + seq!['"']) == v,
        strip_quotes_spec(seq!['"'] + v + seq!['\'']) == seq!['"'] + v + seq!['\''],
        strip_quotes_spec(seq!['\''] + v + seq!['"']) == seq!['\''] + v + seq!['"'],
{
    assert((seq!['\''] + v + seq!['\'']).subrange(1, v.len() as int + 1) =~= v);
    assert((seq!['"'] + v + seq!['"']).subrange(1, v.len() as int + 1) =~= v);
}

/// A `${name}` whose name is bound neither by an earlier line nor in the ambient
/// environment stays as it is.
pub proof fn lemma_unresolved_placeholder(
    name: Seq<char>,
    context: Seq<(Seq<char>, Seq<char>)>,
    ambient: Seq<(Seq<char>, Seq<char>)>,
)
    requires
        forall|j: int| 0 <= j < name.len() ==> name[j] != '}',
        lookup(context, name) is None,
        lookup(ambient, name) is None,
    ensures
        interpolate_spec(placeholder(name), context, ambient) == placeholder(name),
{
    let s = placeholder(name);
    let k = name.len() as int + 2;
    assert forall|j: int| 2 <= j < k implies s[j] != '}' by {
        assert(s[j] == name[j - 2]);
    }
    lemma_find_from_at(s, 2, k, '}');
    assert(s.subrange(2, k) =~= name);
    assert(interpolate_from(s, k + 1, context, ambient) =~= Seq::<char>::empty());
    assert(resolve(name, context, ambient) + Seq::<char>::empty() =~= s);
}

/// Later lines never change the bindings of earlier ones: the bindings of `lines`
/// open those of `lines + more`.
pub proof fn lemma_forward_blind(
    lines: Seq<Seq<char>>,
    more: Seq<Seq<char>>,
    ambient: Seq<(Seq<char>, Seq<char>)>,
)
    ensures
        parse_lines(lines, ambient).0.len() <= parse_lines(lines + more, ambient).0.len(),
        parse_lines(lines + more, ambient).0.subrange(0, parse_lines(lines, ambient).0.len() as int)
            == parse_lines(lines, ambient).0,
    decreases more.len(),
{
    let all = lines + more;
    if more.len() == 0 {
        assert(all =~= lines);
        assert(parse_lines(all, ambient).0.subrange(0, parse_lines(all, ambient).0.len() as int)
            =~= parse_lines(all, ambient).0);
    } else {
        lemma_forward_blind(lines, more.drop_last(), ambient);
        assert(all.drop_last() =~= lines + more.drop_last());
        let a = parse_lines(lines, ambient).0;
        let b = parse_lines(all.drop_last(), ambient).0;
        let c = parse_lines(all, ambient).0;
        assert(c.subrange(0, a.len() as int) =~= b.subrange(0, a.len() as int));
    }
}

/// The text made of `lines` with `\n` between them.
pub open spec fn join_lines(lines: Seq<Seq<char>>) -> Seq<char>
    decreases lines.len(),
{
    if lines.len() == 0 {
        Seq::empty()
    } else if lines.len() == 1 {
        lines[0]
    } else {
        lines[0] + seq!['\n'] + join_lines(lines.drop_first())
    }
}

/// Searching `p + s` past `p` is searching `s`.
pub proof fn lemma_find_from_shift(p: Seq<char>, s: Seq<char>, j: int, c: char)
    requires
        0 <= j <= s.len(),
    ensures
        find_from(p + s, p.len() + j, c) == p.len() + find_from(s, j, c),
    decreases s.len() - j,
{
    if j < s.len() {
        assert((p + s)[p.len() + j] == s[j]);
        lemma_find_from_shift(p, s, j + 1, c);
    }
}

/// Splitting `p + s` past `p` is splitting `s`.
pub proof fn lemma_split_from_shift(p: Seq<char>, s: Seq<char>, j: int)
    requires
        0 <= j <= s.len(),
    ensures
        split_from(p + s, p.len() + j) == split_from(s, j),
    decreases s.len() - j,
{
    let t = p + s;
    lemma_find_from_shift(p, s, j, '\n');
    lemma_find_from_bounds(s, j, '\n');
    let k = find_from(s, j, '\n');
    if k < s.len() {
        lemma_split_from_shift(p, s, k + 1);
        assert(t.subrange(p.len() + j, p.len() + k) =~= s.subrange(j, k));
    } else {
        assert(t.subrange(p.len() + j, t.len() as int) =~= s.subrange(j, s.len() as int));
    }
}

/// Lines without `\n`, joined by `\n`, split back into the same lines.
pub proof fn lemma_lines_of_join(lines: Seq<Seq<char>>)
    requires
        lines.len() >= 1,
        forall|i: int, j: int|
            0 <= i < lines.len() && 0 <= j < lines[i].len() ==> #[trigger] lines[i][j] != '\n',
    ensures
        lines_of(join_lines(lines)) == lines,
    decreases lines.len(),
{
    let l0 = lines[0];
    assert forall|j: int| 0 <= j < l0.len() implies l0[j] != '\n' by {
        assert(lines[0][j] != '\n');
    }
    if lines.len() == 1 {
        lemma_find_from_at(l0, 0, l0.len() as int, '\n');
        assert(l0.subrange(0, l0.len() as int) =~= l0);
        assert(lines =~= seq![l0]);
    } else {
        let rest = lines.drop_first();
        assert forall|i: int, j: int| 0 <= i < rest.len() && 0 <= j < rest[i].len() implies #[trigger] rest[i][j]
            != '\n' by {
            assert(rest[i] == lines[i + 1]);
        }
        lemma_lines_of_join(rest);
        let p = l0 + seq!['\n'];
        let whole = join_lines(lines);
        assert(whole =~= p + join_lines(rest));
        lemma_find_from_at(whole, 0, l0.len() as int, '\n');
        assert(whole.subrange(0, l0.len() as int) =~= l0);
        lemma_split_from_shift(p, join_lines(rest), 0);
        assert(lines =~= seq![l0] + rest);
    }
}

/// A file made of lines `k_i=v_i` with plain keys and values, none holding `\n`,
/// gives in file order the bindings of the trimmed keys to the trimmed values, and
/// no malformed line.
pub proof fn lemma_plain_file(
    keys: Seq<Seq<char>>,
    values: Seq<Seq<char>>,
    ambient: Seq<(Seq<char>, Seq<char>)>,
)
    requires
        keys.len() == values.len(),
        keys.len() >= 1,
        forall|i: int| 0 <= i < keys.len() ==> is_plain_key(#[trigger] keys[i]),
        forall|i: int| 0 <= i < values.len() ==> is_plain_value(#[trigger] values[i]),
        forall|i: int, j: int|
            0 <= i < keys.len() && 0 <= j < keys[i].len() ==> #[trigger] keys[i][j] != '\n',
        forall|i: int, j: int|
            0 <= i < values.len() && 0 <= j < values[i].len() ==> #[trigger] values[i][j] != '\n',
    ensures
        parse_spec(
            join_lines(Seq::new(keys.len(), |i: int| binding_line(keys[i], values[i]))),
            ambient,
        ).0 == Seq::new(keys.len(), |i: int| (trim_spec(keys[i]), trim_spec(values[i]))),
        parse_spec(
            join_lines(Seq::new(keys.len(), |i: int| binding_line(keys[i], values[i]))),
            ambient,
        ).1 == Seq::<int>::empty(),
{
    let lines = Seq::new(keys.len(), |i: int| binding_line(keys[i], values[i]));
    assert forall|i: int, j: int| 0 <= i < lines.len() && 0 <= j < lines[i].len() implies #[trigger] lines[i][j]
        != '\n' by {
        let k = keys[i];
        if j < k.len() {
            assert(lines[i][j] == k[j]);
        } else if j > k.len() {
            assert(lines[i][j] == values[i][j - k.len() - 1]);
        }
    }
    lemma_lines_of_join(lines);
    lemma_plain_lines(keys, values, ambient);
}

} // verus!
