use vstd::prelude::*;
use vstd::seq_lib::to_multiset_insert;

verus! {

/// Lexicographic order on texts, comparing characters by code point (the order of
/// `String`'s `Ord`, since UTF-8 keeps code point order).
pub open spec fn lex_le(a: Seq<char>, b: Seq<char>) -> bool
    decreases a.len(),
{
    if a.len() == 0 {
        true
    } else if b.len() == 0 {
        false
    } else if a[0] != b[0] {
        (a[0] as u32) < (b[0] as u32)
    } else {
        lex_le(a.drop_first(), b.drop_first())
    }
}

/// True when `s` is in ascending lexicographic order.
pub open spec fn lex_sorted(s: Seq<Seq<char>>) -> bool {
    forall|i: int, j: int| 0 <= i < j < s.len() ==> lex_le(#[trigger] s[i], #[trigger] s[j])
}

/// Any two texts are ordered one way or the other.
pub proof fn lemma_lex_total(a: Seq<char>, b: Seq<char>)
    ensures
        lex_le(a, b) || lex_le(b, a),
    decreases a.len(),
{
    if a.len() > 0 && b.len() > 0 {
        if a[0] == b[0] {
            lemma_lex_total(a.drop_first(), b.drop_first());
        } else {
            vstd::utf8::char_u32_cast(a[0], a[0] as u32);
            vstd::utf8::char_u32_cast(b[0], b[0] as u32);
        }
    }
}

/// The order is transitive.
pub proof fn lemma_lex_transitive(a: Seq<char>, b: Seq<char>, c: Seq<char>)
    requires
        lex_le(a, b),
        lex_le(b, c),
    ensures
        lex_le(a, c),
    decreases a.len(),
{
    if a.len() > 0 && b.len() > 0 && c.len() > 0 && a[0] == b[0] && b[0] == c[0] {
        lemma_lex_transitive(a.drop_first(), b.drop_first(), c.drop_first());
    }
}

/// The order is antisymmetric.
pub proof fn lemma_lex_antisymmetric(a: Seq<char>, b: Seq<char>)
    requires
        lex_le(a, b),
        lex_le(b, a),
    ensures
        a == b,
    decreases a.len(),
{
    if a.len() > 0 && b.len() > 0 {
        lemma_lex_antisymmetric(a.drop_first(), b.drop_first());
        assert(a == seq![a[0]] + a.drop_first());
        assert(b == seq![b[0]] + b.drop_first());
    } else if a.len() == 0 && b.len() == 0 {
        assert(a == b);
    }
}

/// Whether `a` comes before `b` or equals it.
pub fn lex_le_chars(a: &[char], b: &[char]) -> (r: bool)
    ensures
        r == lex_le(a@, b@),
{
    let mut i: usize = 0;
    assert(a@.skip(0) == a@);
    assert(b@.skip(0) == b@);
    loop
        invariant
            i <= a@.len(),
            i <= b@.len(),
            lex_le(a@, b@) == lex_le(a@.skip(i as int), b@.skip(i as int)),
        decreases a@.len() - i,
    {
        if i == a.len() {
            return true;
        }
        if i == b.len() {
            return false;
        }
        if a[i] != b[i] {
            return (a[i] as u32) < (b[i] as u32);
        }
        assert(a@.skip(i as int).drop_first() == a@.skip(i + 1));
        assert(b@.skip(i as int).drop_first() == b@.skip(i + 1));
        i = i + 1;
    }
}

/// The texts held in a vector of character vectors.
pub open spec fn texts(v: Seq<Vec<char>>) -> Seq<Seq<char>> {
    v.map_values(|t: Vec<char>| t@)
}

/// `v` in ascending lexicographic order.
pub fn sort_texts(v: Vec<Vec<char>>) -> (out: Vec<Vec<char>>)
    ensures
        lex_sorted(texts(out@)),
        texts(out@).to_multiset() == texts(v@).to_multiset(),
{
    let mut out: Vec<Vec<char>> = Vec::new();
    let mut i: usize = 0;
    assert(texts(v@).take(0) == Seq::<Seq<char>>::empty());
    assert(texts(out@) == Seq::<Seq<char>>::empty());
    while i < v.len()
        invariant
            i <= v@.len(),
            lex_sorted(texts(out@)),
            texts(out@).to_multiset() == texts(v@).take(i as int).to_multiset(),
        decreases v@.len() - i,
    {
        let x = copy_text(&v[i]);
        let ghost xs = x@;
        let ghost before = texts(out@);
        let mut k: usize = 0;
        loop
            invariant
                k <= out@.len(),
                x@ == xs,
                before == texts(out@),
                forall|j: int| 0 <= j < k ==> lex_le(#[trigger] before[j], xs),
            ensures
                k <= out@.len(),
                forall|j: int| 0 <= j < k ==> lex_le(#[trigger] before[j], xs),
                k < out@.len() ==> !lex_le(before[k as int], xs),
            decreases out@.len() - k,
        {
            if k == out.len() {
                break;
            }
            if !lex_le_chars(out[k].as_slice(), x.as_slice()) {
                break;
            }
            k = k + 1;
        }
        proof {
            if k < before.len() {
                lemma_lex_total(before[k as int], xs);
            }
        }
        out.insert(k, x);
        assert(texts(out@) == before.insert(k as int, xs));
        proof {
            to_multiset_insert(before, k as int, xs);
            assert(texts(v@).take(i as int + 1) == texts(v@).take(i as int).push(xs));
            vstd::seq_lib::to_multiset_build(texts(v@).take(i as int), xs);
            let s = texts(out@);
            assert forall|a: int, b: int| 0 <= a < b < s.len() implies lex_le(#[trigger] s[a], #[trigger] s[b]) by {
                if b < k {
                    assert(s[a] == before[a] && s[b] == before[b]);
                } else if b == k {
                    assert(s[a] == before[a] && s[b] == xs);
                } else if a < k {
                    assert(s[a] == before[a] && s[b] == before[b - 1]);
                } else if a == k {
                    assert(s[a] == xs && s[b] == before[b - 1]);
                    if (k as int) < b - 1 {
                        assert(lex_le(before[k as int], before[b - 1]));
                        lemma_lex_transitive(xs, before[k as int], before[b - 1]);
                    }
                } else {
                    assert(s[a] == before[a - 1] && s[b] == before[b - 1]);
                }
            }
        }
        i = i + 1;
    }
    assert(texts(v@).take(v@.len() as int) == texts(v@));
    out
}

/// A copy of a text.
fn copy_text(t: &Vec<char>) -> (c: Vec<char>)
    ensures
        c@ == t@,
        c.deep_view() == t.deep_view(),
{
    let mut c: Vec<char> = Vec::new();
    let mut k: usize = 0;
    while k < t.len()
        invariant
            k <= t@.len(),
            c@ == t@.take(k as int),
        decreases t@.len() - k,
    {
        c.push(t[k]);
        k = k + 1;
        assert(c@ == t@.take(k as int));
    }
    assert(t@.take(t@.len() as int) == t@);
    assert(c.deep_view() =~= t.deep_view());
    c
}

} // verus!
