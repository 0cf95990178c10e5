//! The aligned listing of environment variables, sorted by name.
use vstd::prelude::*;
use vstd::utf8::encode_utf8;
use crate::emit::{push_line, texts};
use crate::parser::{pairs, EnvVar};
use crate::text::{chars_of, string_of_range};

verus! {

broadcast use vstd::seq_lib::to_multiset_build, vstd::seq_lib::to_multiset_insert;

/// `a` comes before `b`, or equals it, character by character.
pub open spec fn lex_le(a: Seq<char>, b: Seq<char>) -> bool
    decreases a.len(),
{
    if a.len() == 0 {
        true
    } else if b.len() == 0 {
        false
    } else if a[0] != b[0] {
        a[0] < b[0]
    } else {
        lex_le(a.drop_first(), b.drop_first())
    }
}

/// Any two texts are ordered one way or the other.
pub proof fn lemma_lex_total(a: Seq<char>, b: Seq<char>)
    ensures
        lex_le(a, b) || lex_le(b, a),
    decreases a.len(),
{
    if a.len() > 0 && b.len() > 0 && a[0] == b[0] {
        lemma_lex_total(a.drop_first(), b.drop_first());
    }
}

/// The order of texts is transitive.
pub proof fn lemma_lex_trans(a: Seq<char>, b: Seq<char>, c: Seq<char>)
    requires
        lex_le(a, b),
        lex_le(b, c),
    ensures
        lex_le(a, c),
    decreases a.len(),
{
    if a.len() > 0 && b.len() > 0 && c.len() > 0 && a[0] == b[0] && b[0] == c[0] {
        lemma_lex_trans(a.drop_first(), b.drop_first(), c.drop_first());
    }
}

/// The bindings of `s` are in order of their keys.
pub open spec fn key_sorted(s: Seq<(Seq<char>, Seq<char>)>) -> bool {
    forall|i: int, j: int| 0 <= i < j < s.len() ==> lex_le(#[trigger] s[i].0, #[trigger] s[j].0)
}

/// Whether `a` comes before `b` or equals it.
fn key_le(a: &Vec<char>, b: &Vec<char>) -> (r: bool)
    ensures
        r == lex_le(a@, b@),
{
    let mut i: usize = 0;
    assert(a@.subrange(0, a@.len() as int) =~= a@);
    assert(b@.subrange(0, b@.len() as int) =~= b@);
    while i < a.len() && i < b.len() && a[i] == b[i]
        invariant
            i <= a.len(),
            i <= b.len(),
            lex_le(a@, b@) == lex_le(
                a@.subrange(i as int, a@.len() as int),
                b@.subrange(i as int, b@.len() as int),
            ),
        decreases a.len() - i,
    {
        assert(a@.subrange(i as int, a@.len() as int).drop_first() =~= a@.subrange(
            i + 1,
            a@.len() as int,
        ));
        assert(b@.subrange(i as int, b@.len() as int).drop_first() =~= b@.subrange(
            i + 1,
            b@.len() as int,
        ));
        i = i + 1;
    }
    if i == a.len() {
        true
    } else if i == b.len() {
        false
    } else {
        a[i] < b[i]
    }
}

/// A copy of `e`.
fn copy_var(e: &EnvVar) -> (r: EnvVar)
    ensures
        r@ == e@,
{
    EnvVar { key: e.key.clone(), value: e.value.clone() }
}

/// `vars` in order of their keys; bindings with equal keys keep their order.
pub fn sort_by_key(vars: &Vec<EnvVar>) -> (r: Vec<EnvVar>)
    ensures
        key_sorted(pairs(r@)),
        pairs(r@).to_multiset() == pairs(vars@).to_multiset(),
{
    let mut out: Vec<EnvVar> = Vec::new();
    let mut i: usize = 0;
    assert(pairs(vars@.subrange(0, 0)) =~= Seq::empty());
    assert(pairs(out@) =~= Seq::empty());
    while i < vars.len()
        invariant
            i <= vars.len(),
            key_sorted(pairs(out@)),
            pairs(out@).to_multiset() == pairs(vars@.subrange(0, i as int)).to_multiset(),
        decreases vars.len() - i,
    {
        let k = chars_of(vars[i].key.as_str());
        let mut j: usize = 0;
        while j < out.len() && key_le(&chars_of(out[j].key.as_str()), &k)
            invariant
                j <= out.len(),
                forall|t: int| 0 <= t < j ==> lex_le(#[trigger] out@[t].key@, k@),
            decreases out.len() - j,
        {
            j = j + 1;
        }
        let ghost before = pairs(out@);
        let e = copy_var(&vars[i]);
        out.insert(j, e);
        proof {
            assert(pairs(out@) =~= before.insert(j as int, e@));
            assert forall|a: int, b: int| 0 <= a < b < pairs(out@).len() implies lex_le(
                #[trigger] pairs(out@)[a].0,
                #[trigger] pairs(out@)[b].0,
            ) by {
                if b == j {
                    assert(lex_le(out@[a].key@, k@));
                } else if a == j {
                    assert(!lex_le(before[j as int].0, k@));
                    lemma_lex_total(before[j as int].0, k@);
                    if b - 1 > j {
                        lemma_lex_trans(k@, before[j as int].0, before[b - 1].0);
                    }
                } else if a < j && b > j {
                    assert(pairs(out@)[b] == before[b - 1]);
                } else if a > j {
                    assert(pairs(out@)[a] == before[a - 1]);
                    assert(pairs(out@)[b] == before[b - 1]);
                }
            }
            assert(pairs(vars@.subrange(0, i + 1)) =~= pairs(vars@.subrange(0, i as int)).push(
                vars@[i as int]@,
            ));
        }
        i = i + 1;
    }
    assert(vars@.subrange(0, i as int) =~= vars@);
    out
}

/// Whether the binding is listed: names that open with `=` (drive-letter entries
/// of Windows) are not.
pub open spec fn is_listed(b: (Seq<char>, Seq<char>)) -> bool {
    !(b.0.len() > 0 && b.0[0] == '=')
}

/// The listed bindings of `env`, in order.
pub open spec fn listed(env: Seq<(Seq<char>, Seq<char>)>) -> Seq<(Seq<char>, Seq<char>)> {
    env.filter(|b: (Seq<char>, Seq<char>)| is_listed(b))
}

/// The length in bytes of the UTF-8 encoding of `k`, as `str::len` gives it.
pub open spec fn byte_width(k: Seq<char>) -> nat {
    (encode_utf8(k).len() as usize) as nat
}

/// The largest `byte_width` of a key of `s`, or 0.
pub open spec fn max_key_width(s: Seq<(Seq<char>, Seq<char>)>) -> nat
    decreases s.len(),
{
    if s.len() == 0 {
        0
    } else {
        let w = max_key_width(s.drop_last());
        if byte_width(s.last().0) > w {
            byte_width(s.last().0)
        } else {
            w
        }
    }
}

/// `n` copies of `c`.
pub open spec fn repeat(c: char, n: nat) -> Seq<char> {
    Seq::new(n, |i: int| c)
}

/// The row for `(k, v)`: `k` padded with spaces to `w` characters, two spaces, `v`.
pub open spec fn row(k: Seq<char>, v: Seq<char>, w: nat) -> Seq<char> {
    k + repeat(' ', if w > k.len() { (w - k.len()) as nat } else { 0 }) + "  "@ + v
}

/// The listing of the sorted bindings `s`, with keys padded to `w`.
pub open spec fn listing_lines(s: Seq<(Seq<char>, Seq<char>)>, w: nat) -> Seq<Seq<char>> {
    seq![""@, "\u{1f5a5}\u{fe0f}  System Environment Variables:"@, repeat('-', w + 5)]
        + Seq::new(s.len(), |i: int| row(s[i].0, s[i].1, w)) + seq![""@]
}

/// The line shown when nothing is listed.
pub open spec fn empty_listing() -> Seq<Seq<char>> {
    seq!["(No environment variables found)"@]
}

/// `n` copies of `c` appended to `out`.
fn push_repeat(out: &mut Vec<char>, c: char, n: usize)
    ensures
        final(out)@ == old(out)@ + repeat(c, n as nat),
{
    let mut i: usize = 0;
    while i < n
        invariant
            i <= n,
            out@ == old(out)@ + repeat(c, i as nat),
        decreases n - i,
    {
        out.push(c);
        assert(old(out)@ + repeat(c, (i + 1) as nat) =~= old(out)@ + repeat(c, i as nat) + seq![c]);
        i = i + 1;
    }
}

/// The row for `e` with keys padded to `w`.
fn row_exec(e: &EnvVar, w: usize) -> (r: String)
    ensures
        r@ == row(e.key@, e.value@, w as nat),
{
    let mut out = chars_of(e.key.as_str());
    let kl = out.len();
    let pad: usize = if w > kl {
        w - kl
    } else {
        0
    };
    push_repeat(&mut out, ' ', pad);
    let n = out.len();
    assert(out@.subrange(0, n as int) =~= out@);
    let mut r = string_of_range(&out, 0, n);
    r.append("  ");
    r.append(e.value.as_str());
    r
}

/// The listing of `env`: the bindings whose name does not open with `=`, sorted by
/// name, each name padded to the longest name's length in bytes.
pub fn show_listing(env: &Vec<EnvVar>) -> (r: Vec<String>)
    ensures
        listed(pairs(env@)).len() == 0 ==> texts(r@) == empty_listing(),
        listed(pairs(env@)).len() > 0 ==> exists|s: Seq<(Seq<char>, Seq<char>)>|
            key_sorted(s) && s.to_multiset() == listed(pairs(env@)).to_multiset() && texts(r@)
                == #[trigger] listing_lines(s, max_key_width(listed(pairs(env@)))),
{
    let mut vis: Vec<EnvVar> = Vec::new();
    let mut w: usize = 0;
    let mut i: usize = 0;
    assert(pairs(env@.subrange(0, 0)) =~= Seq::empty());
    assert(pairs(vis@) =~= Seq::empty());
    while i < env.len()
        invariant
            i <= env.len(),
            pairs(vis@) == listed(pairs(env@.subrange(0, i as int))),
            w as nat == max_key_width(pairs(vis@)),
        decreases env.len() - i,
    {
        let ghost before = pairs(env@.subrange(0, i as int));
        let ghost old_vis = pairs(vis@);
        assert(pairs(env@.subrange(0, i + 1)) =~= before.push(env@[i as int]@));
        assert(pairs(env@.subrange(0, i + 1)).drop_last() =~= before);
        reveal_with_fuel(Seq::filter, 1);
        let k = chars_of(env[i].key.as_str());
        if !(k.len() > 0 && k[0] == '=') {
            let kw = env[i].key.as_str().len();
            vis.push(copy_var(&env[i]));
            assert(pairs(vis@) =~= old_vis.push(env@[i as int]@));
            assert(pairs(vis@).drop_last() =~= old_vis);
            if kw > w {
                w = kw;
            }
        }
        i = i + 1;
    }
    assert(env@.subrange(0, i as int) =~= env@);
    let mut out: Vec<String> = Vec::new();
    if vis.len() == 0 {
        out.push(String::from_str("(No environment variables found)"));
        assert(texts(out@) =~= empty_listing());
        return out;
    }
    let sorted = sort_by_key(&vis);
    assert(texts(out@) =~= Seq::<Seq<char>>::empty());
    push_line(&mut out, String::from_str(""));
    push_line(&mut out, String::from_str("\u{1f5a5}\u{fe0f}  System Environment Variables:"));
    let mut dashes: Vec<char> = Vec::new();
    push_repeat(&mut dashes, '-', w);
    push_repeat(&mut dashes, '-', 5);
    assert(dashes@ =~= repeat('-', (w + 5) as nat));
    assert(dashes@.subrange(0, dashes@.len() as int) =~= dashes@);
    push_line(&mut out, string_of_range(&dashes, 0, dashes.len()));
    let ghost s = pairs(sorted@);
    let ghost head = seq![""@, "\u{1f5a5}\u{fe0f}  System Environment Variables:"@, repeat('-', (w + 5) as nat)];
    assert(texts(out@) =~= head);
    let mut j: usize = 0;
    while j < sorted.len()
        invariant
            j <= sorted.len(),
            s == pairs(sorted@),
            texts(out@) == head + Seq::new(j as nat, |t: int| row(s[t].0, s[t].1, w as nat)),
        decreases sorted.len() - j,
    {
        let line = row_exec(&sorted[j], w);
        let ghost prev = texts(out@);
        out.push(line);
        assert(texts(out@) =~= prev.push(line@));
        assert(head + Seq::new((j + 1) as nat, |t: int| row(s[t].0, s[t].1, w as nat)) =~= head
            + Seq::new(j as nat, |t: int| row(s[t].0, s[t].1, w as nat)) + seq![line@]);
        j = j + 1;
    }
    let ghost prev = texts(out@);
    out.push(String::from_str(""));
    assert(texts(out@) =~= prev.push(""@));
    assert(texts(out@) =~= listing_lines(s, w as nat));
    out
}

} // verus!
