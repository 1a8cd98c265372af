use vstd::prelude::*;

use crate::text::{chars_of, string_of};

verus! {

/// True when `lit` occurs in `s` at position `p`.
pub open spec fn starts_with_at(s: Seq<char>, p: int, lit: Seq<char>) -> bool {
    0 <= p && p + lit.len() <= s.len() && s.subrange(p, p + lit.len()) == lit
}

/// The first position at or after `i` where `lit` occurs in `s`.
pub open spec fn find_str(s: Seq<char>, i: int, lit: Seq<char>) -> Option<int>
    decreases s.len() - i,
{
    if i < 0 || i > s.len() {
        None
    } else if starts_with_at(s, i, lit) {
        Some(i)
    } else if i == s.len() {
        None
    } else {
        find_str(s, i + 1, lit)
    }
}

/// The first position at or after `i` that holds `c`.
pub open spec fn find_char(s: Seq<char>, i: int, c: char) -> Option<int>
    decreases s.len() - i,
{
    if i < 0 || i >= s.len() {
        None
    } else if s[i] == c {
        Some(i)
    } else {
        find_char(s, i + 1, c)
    }
}

/// What `find_char` finds: the first occurrence of `c` from `i` on.
pub proof fn lemma_find_char(s: Seq<char>, i: int, c: char)
    requires
        0 <= i,
    ensures
        match find_char(s, i, c) {
            Some(j) => i <= j < s.len() && s[j] == c && forall|k: int| i <= k < j ==> s[k] != c,
            None => forall|k: int| i <= k < s.len() ==> s[k] != c,
        },
    decreases s.len() - i,
{
    if i < s.len() && s[i] != c {
        lemma_find_char(s, i + 1, c);
    }
}

/// What `find_str` finds: the first occurrence of `lit` from `i` on.
pub proof fn lemma_find_str(s: Seq<char>, i: int, lit: Seq<char>)
    requires
        0 <= i <= s.len(),
    ensures
        match find_str(s, i, lit) {
            Some(j) => i <= j <= s.len() && starts_with_at(s, j, lit) && forall|k: int| i <= k < j ==> !starts_with_at(s, k, lit),
            None => forall|k: int| i <= k <= s.len() ==> !starts_with_at(s, k, lit),
        },
    decreases s.len() - i,
{
    if i < s.len() && !starts_with_at(s, i, lit) {
        lemma_find_str(s, i + 1, lit);
    }
}

/// True when `lit` occurs in `s` at position `p`.
pub fn matches_at(s: &[char], p: usize, lit: &[char]) -> (r: bool)
    ensures
        r == starts_with_at(s@, p as int, lit@),
{
    if p > s.len() || lit.len() > s.len() - p {
        return false;
    }
    let mut k: usize = 0;
    while k < lit.len()
        invariant
            p + lit@.len() <= s@.len(),
            s@.len() == s.len(),
            lit@.len() == lit.len(),
            k <= lit@.len(),
            forall|j: int| 0 <= j < k ==> s@[p + j] == lit@[j],
        decreases lit@.len() - k,
    {
        if s[p + k] != lit[k] {
            assert(s@.subrange(p as int, p + lit@.len())[k as int] != lit@[k as int]);
            return false;
        }
        k = k + 1;
    }
    assert(s@.subrange(p as int, p + lit@.len()) == lit@);
    true
}

/// The first position at or after `i` where `lit` occurs in `s`.
pub fn find_str_from(s: &[char], i: usize, lit: &[char]) -> (r: Option<usize>)
    requires
        i <= s@.len(),
    ensures
        match r {
            Some(j) => find_str(s@, i as int, lit@) == Some(j as int),
            None => find_str(s@, i as int, lit@) is None,
        },
{
    let mut j = i;
    while j <= s.len()
        invariant
            i <= j <= s@.len() + 1,
            find_str(s@, i as int, lit@) == find_str(s@, j as int, lit@),
        decreases s@.len() + 1 - j,
    {
        if matches_at(s, j, lit) {
            return Some(j);
        }
        if j == s.len() {
            return None;
        }
        j = j + 1;
    }
    None
}

/// The first position at or after `i` that holds `c`.
pub fn find_char_from(s: &[char], i: usize, c: char) -> (r: Option<usize>)
    ensures
        match r {
            Some(j) => find_char(s@, i as int, c) == Some(j as int),
            None => find_char(s@, i as int, c) is None,
        },
{
    let mut j = i;
    while j < s.len()
        invariant
            i <= j,
            find_char(s@, i as int, c) == find_char(s@, j as int, c),
        decreases s@.len() - j,
    {
        if s[j] == c {
            return Some(j);
        }
        j = j + 1;
    }
    None
}

/// Whether `a` and `b` hold the same characters.
pub fn same_chars(a: &[char], b: &[char]) -> (r: bool)
    ensures
        r == (a@ == b@),
{
    if a.len() != b.len() {
        return false;
    }
    let mut k: usize = 0;
    while k < a.len()
        invariant
            a@.len() == b@.len(),
            k <= a@.len(),
            forall|j: int| 0 <= j < k ==> a@[j] == b@[j],
        decreases a@.len() - k,
    {
        if a[k] != b[k] {
            return false;
        }
        k = k + 1;
    }
    assert(a@ == b@);
    true
}

/// A copy of `s[from..to]`.
pub fn copy_range(s: &[char], from: usize, to: usize) -> (v: Vec<char>)
    requires
        from <= to <= s@.len(),
    ensures
        v@ == s@.subrange(from as int, to as int),
{
    let mut v: Vec<char> = Vec::new();
    let mut k = from;
    while k < to
        invariant
            from <= k <= to <= s@.len(),
            v@ == s@.subrange(from as int, k as int),
        decreases to - k,
    {
        v.push(s[k]);
        k = k + 1;
        assert(v@ == s@.subrange(from as int, k as int));
    }
    v
}

/// `s` with each non-overlapping occurrence of `pat`, taken from the left, replaced by `rep`.
pub open spec fn replace_all(s: Seq<char>, pat: Seq<char>, rep: Seq<char>) -> Seq<char>
    decreases s.len(),
{
    if s.len() == 0 || pat.len() == 0 {
        s
    } else if starts_with_at(s, 0, pat) {
        rep + replace_all(s.skip(pat.len() as int), pat, rep)
    } else {
        seq![s[0]] + replace_all(s.drop_first(), pat, rep)
    }
}

/// `s` with each non-overlapping occurrence of `pat`, taken from the left, replaced by `rep`.
pub fn replace_all_chars(s: &[char], pat: &[char], rep: &[char]) -> (out: Vec<char>)
    ensures
        out@ == replace_all(s@, pat@, rep@),
{
    if pat.len() == 0 {
        return copy_range(s, 0, s.len());
    }
    let mut out: Vec<char> = Vec::new();
    let mut i: usize = 0;
    assert(s@.skip(0) == s@);
    while i < s.len()
        invariant
            pat@.len() > 0,
            i <= s@.len(),
            out@ + replace_all(s@.skip(i as int), pat@, rep@) == replace_all(s@, pat@, rep@),
        decreases s@.len() - i,
    {
        let ghost rest = s@.skip(i as int);
        if matches_at(s, i, pat) {
            assert(starts_with_at(rest, 0, pat@)) by {
                assert(rest.subrange(0, pat@.len() as int) == s@.subrange(i as int, i + pat@.len()));
            }
            assert(rest.skip(pat@.len() as int) == s@.skip(i + pat@.len()));
            let mut k: usize = 0;
            let ghost before = out@;
            while k < rep.len()
                invariant
                    k <= rep@.len(),
                    out@ == before + rep@.subrange(0, k as int),
                decreases rep@.len() - k,
            {
                out.push(rep[k]);
                k = k + 1;
                assert(out@ == before + rep@.subrange(0, k as int));
            }
            assert(rep@.subrange(0, rep@.len() as int) == rep@);
            i = i + pat.len();
        } else {
            assert(!starts_with_at(rest, 0, pat@)) by {
                if starts_with_at(rest, 0, pat@) {
                    assert(rest.subrange(0, pat@.len() as int) == s@.subrange(i as int, i + pat@.len()));
                }
            }
            assert(rest.drop_first() == s@.skip(i + 1));
            out.push(s[i]);
            i = i + 1;
        }
    }
    assert(s@.skip(i as int).len() == 0);
    out
}

/// `parts` joined into one text, with `sep` between neighbours.
pub open spec fn join_seq(parts: Seq<Seq<char>>, sep: Seq<char>) -> Seq<char>
    decreases parts.len(),
{
    if parts.len() == 0 {
        Seq::empty()
    } else if parts.len() == 1 {
        parts[0]
    } else {
        join_seq(parts.drop_last(), sep) + sep + parts.last()
    }
}

/// Appends `t` to `out`.
pub fn append_chars(out: &mut Vec<char>, t: &[char])
    ensures
        final(out)@ == old(out)@ + t@,
{
    let ghost start = out@;
    let mut k: usize = 0;
    while k < t.len()
        invariant
            k <= t@.len(),
            out@ == start + t@.subrange(0, k as int),
        decreases t@.len() - k,
    {
        out.push(t[k]);
        k = k + 1;
        assert(out@ == start + t@.subrange(0, k as int));
    }
    assert(t@.subrange(0, t@.len() as int) == t@);
}

/// `parts` joined into one text, with `sep` between neighbours.
pub fn join_texts(parts: &Vec<Vec<char>>, sep: &[char]) -> (out: Vec<char>)
    ensures
        out@ == join_seq(parts.deep_view(), sep@),
{
    let mut out: Vec<char> = Vec::new();
    let mut i: usize = 0;
    while i < parts.len()
        invariant
            i <= parts@.len(),
            out@ == join_seq(parts.deep_view().take(i as int), sep@),
        decreases parts@.len() - i,
    {
        let ghost taken = parts.deep_view().take(i as int + 1);
        assert(taken.drop_last() == parts.deep_view().take(i as int));
        if i > 0 {
            append_chars(&mut out, sep);
        }
        append_chars(&mut out, parts[i].as_slice());
        assert(taken.last() == parts[i as int]@);
        i = i + 1;
    }
    assert(parts.deep_view().take(parts@.len() as int) == parts.deep_view());
    out
}

/// The pieces of `s` between occurrences of `sep`, empty ones included (`str::split`).
pub open spec fn split_on(s: Seq<char>, sep: char) -> Seq<Seq<char>> {
    split_after(s, sep, Seq::empty())
}

/// The pieces of `cur + rest` between occurrences of `sep`, where `cur` holds no `sep`.
pub open spec fn split_after(rest: Seq<char>, sep: char, cur: Seq<char>) -> Seq<Seq<char>>
    decreases rest.len(),
{
    if rest.len() == 0 {
        seq![cur]
    } else if rest[0] == sep {
        seq![cur] + split_after(rest.drop_first(), sep, Seq::empty())
    } else {
        split_after(rest.drop_first(), sep, cur.push(rest[0]))
    }
}

/// The pieces of `s` between occurrences of `sep` (see [`split_on`]).
pub fn split_text(s: &str, sep: char) -> (pieces: Vec<String>)
    ensures
        pieces.deep_view() == split_on(s@, sep),
{
    let chars = chars_of(s);
    let mut pieces: Vec<String> = Vec::new();
    let mut cur: Vec<char> = Vec::new();
    let mut i: usize = 0;
    assert(chars@.skip(0) == chars@);
    assert(pieces.deep_view() == Seq::<Seq<char>>::empty());
    while i < chars.len()
        invariant
            chars@ == s@,
            i <= chars@.len(),
            pieces.deep_view() + split_after(chars@.skip(i as int), sep, cur@) == split_on(s@, sep),
        decreases chars@.len() - i,
    {
        let c = chars[i];
        assert(chars@.skip(i as int).drop_first() == chars@.skip(i as int + 1));
        if c == sep {
            let piece = string_of(cur.as_slice());
            let ghost before = pieces.deep_view();
            pieces.push(piece);
            assert(pieces.deep_view() =~= before.push(cur@));
            cur = Vec::new();
        } else {
            cur.push(c);
        }
        i = i + 1;
    }
    let piece = string_of(cur.as_slice());
    let ghost before = pieces.deep_view();
    pieces.push(piece);
    assert(pieces.deep_view() =~= before.push(cur@));
    pieces
}

/// No piece of a split holds the separator.
pub proof fn lemma_split_pieces_lack_separator(s: Seq<char>, sep: char)
    ensures
        forall|k: int| #![trigger split_on(s, sep)[k]] 0 <= k < split_on(s, sep).len() ==> !split_on(s, sep)[k].contains(sep),
{
    lemma_split_after(s, sep, Seq::empty());
}

proof fn lemma_split_after(rest: Seq<char>, sep: char, cur: Seq<char>)
    requires
        !cur.contains(sep),
    ensures
        forall|k: int| #![trigger split_after(rest, sep, cur)[k]] 0 <= k < split_after(rest, sep, cur).len()
            ==> !split_after(rest, sep, cur)[k].contains(sep),
    decreases rest.len(),
{
    if rest.len() == 0 {
        assert(split_after(rest, sep, cur) == seq![cur]);
    } else if rest[0] == sep {
        lemma_split_after(rest.drop_first(), sep, Seq::empty());
        let tail = split_after(rest.drop_first(), sep, Seq::empty());
        assert(split_after(rest, sep, cur) == seq![cur] + tail);
        assert forall|k: int| 0 <= k < split_after(rest, sep, cur).len()
            implies !(#[trigger] split_after(rest, sep, cur)[k]).contains(sep) by {
            if k > 0 {
                assert(split_after(rest, sep, cur)[k] == tail[k - 1]);
            }
        }
    } else {
        let next = cur.push(rest[0]);
        assert(!next.contains(sep)) by {
            if next.contains(sep) {
                let k = choose|k: int| 0 <= k < next.len() && next[k] == sep;
                if k < cur.len() {
                    assert(cur[k] == sep);
                }
            }
        }
        lemma_split_after(rest.drop_first(), sep, next);
        assert(split_after(rest, sep, cur) == split_after(rest.drop_first(), sep, next));
    }
}

/// The pieces that are not empty, in order.
pub open spec fn non_empty(pieces: Seq<Seq<char>>) -> Seq<Seq<char>>
    decreases pieces.len(),
{
    if pieces.len() == 0 {
        Seq::empty()
    } else if pieces.last().len() > 0 {
        non_empty(pieces.drop_last()).push(pieces.last())
    } else {
        non_empty(pieces.drop_last())
    }
}

/// Every piece kept by `non_empty` is one of the pieces, and not empty.
pub proof fn lemma_non_empty(pieces: Seq<Seq<char>>)
    ensures
        forall|k: int| #![trigger non_empty(pieces)[k]] 0 <= k < non_empty(pieces).len() ==> {
            &&& non_empty(pieces)[k].len() > 0
            &&& exists|j: int| 0 <= j < pieces.len() && pieces[j] == non_empty(pieces)[k]
        },
    decreases pieces.len(),
{
    if pieces.len() > 0 {
        let rest = pieces.drop_last();
        lemma_non_empty(rest);
        let kept = non_empty(pieces);
        assert forall|k: int| 0 <= k < kept.len() implies {
            &&& (#[trigger] kept[k]).len() > 0
            &&& exists|j: int| 0 <= j < pieces.len() && pieces[j] == kept[k]
        } by {
            if k < non_empty(rest).len() {
                assert(kept[k] == non_empty(rest)[k]);
                let j = choose|j: int| 0 <= j < rest.len() && rest[j] == non_empty(rest)[k];
                assert(pieces[j] == rest[j]);
            } else {
                assert(kept[k] == pieces.last());
                assert(pieces[pieces.len() - 1] == kept[k]);
            }
        }
    }
}

/// The kept pieces are exactly the non-empty pieces, all of them, in order.
pub proof fn lemma_non_empty_keeps_every_nonempty_piece(pieces: Seq<Seq<char>>)
    ensures
        non_empty(pieces) == pieces.filter(|p: Seq<char>| p.len() > 0),
    decreases pieces.len(),
{
    reveal(Seq::filter);
    if pieces.len() > 0 {
        lemma_non_empty_keeps_every_nonempty_piece(pieces.drop_last());
    }
}

/// Joining a list whose first part is `a` puts `a` and then `sep` before the rest.
pub proof fn lemma_join_seq_prepend(a: Seq<char>, rest: Seq<Seq<char>>, sep: Seq<char>)
    requires
        rest.len() > 0,
    ensures
        join_seq(seq![a] + rest, sep) == a + sep + join_seq(rest, sep),
    decreases rest.len(),
{
    let whole = seq![a] + rest;
    if rest.len() == 1 {
        assert(whole.drop_last() == seq![a]);
        assert(whole.last() == rest[0]);
        assert(join_seq(seq![a], sep) == a);
        assert(join_seq(rest, sep) == rest[0]);
        assert(join_seq(whole, sep) == join_seq(whole.drop_last(), sep) + sep + whole.last());
    } else {
        lemma_join_seq_prepend(a, rest.drop_last(), sep);
        assert(whole.drop_last() == seq![a] + rest.drop_last());
        assert(whole.last() == rest.last());
        assert(join_seq(whole, sep) == join_seq(whole.drop_last(), sep) + sep + whole.last());
        assert(join_seq(rest, sep) == join_seq(rest.drop_last(), sep) + sep + rest.last());
        assert(join_seq(whole, sep) =~= a + sep + join_seq(rest, sep));
    }
}

proof fn lemma_split_after_joins(rest: Seq<char>, sep: char, cur: Seq<char>)
    ensures
        join_seq(split_after(rest, sep, cur), seq![sep]) == cur + rest,
    decreases rest.len(),
{
    if rest.len() == 0 {
        assert(cur + rest == cur);
    } else if rest[0] == sep {
        let tail = split_after(rest.drop_first(), sep, Seq::empty());
        lemma_split_after_joins(rest.drop_first(), sep, Seq::empty());
        lemma_split_after_len(rest.drop_first(), sep, Seq::empty());
        lemma_join_seq_prepend(cur, tail, seq![sep]);
        assert(Seq::<char>::empty() + rest.drop_first() == rest.drop_first());
        assert(rest == seq![sep] + rest.drop_first());
    } else {
        lemma_split_after_joins(rest.drop_first(), sep, cur.push(rest[0]));
        assert(cur.push(rest[0]) + rest.drop_first() == cur + rest);
    }
}

proof fn lemma_split_after_len(rest: Seq<char>, sep: char, cur: Seq<char>)
    ensures
        split_after(rest, sep, cur).len() > 0,
    decreases rest.len(),
{
    if rest.len() > 0 && rest[0] != sep {
        lemma_split_after_len(rest.drop_first(), sep, cur.push(rest[0]));
    }
}

/// The pieces of a split, joined again with the separator, give back the text.
/// (With [`lemma_split_pieces_lack_separator`], this fixes the pieces and their
/// order.)
pub proof fn lemma_split_joins_back(s: Seq<char>, sep: char)
    ensures
        join_seq(split_on(s, sep), seq![sep]) == s,
{
    lemma_split_after_joins(s, sep, Seq::empty());
    assert(Seq::<char>::empty() + s == s);
}

} // verus!
