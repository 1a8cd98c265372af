use vstd::prelude::*;
use vstd::utf8::encode_utf8;

use crate::fetcher::PuzzleData;
use crate::order::{lex_sorted, sort_texts, texts};
use crate::render::{
    ascii_full, bold, cell_cyan, cell_green, cell_model, cell_new, colored_value, colored_writing,
    cyan, modifier_applied, pad_right, padded, preset_loaded, table_add_row, table_body,
    table_drawing, table_force_no_tty, table_full_preset, table_heading, table_new, table_no_tty,
    table_round_corners, table_set_header, table_style, table_text, tty_styling, utf8_full,
    utf8_round_corners, yellow, CellColor, CellModel, ColoredLook, TextColor,
};
use colored::ColoredString;
use comfy_table::Cell;
use crate::scan::{append_chars, join_seq, join_texts, lemma_join_seq_prepend, split_on, split_text};
use crate::text::{
    chars_of, decimal, lemma_encode_utf8_len_at_least, lemma_encode_utf8_push, push_char, push_decimal,
    push_str, string_of,
};

verus! {

/// How the length of a word is measured.
#[derive(Clone, Copy, Debug, PartialEq, Eq, Structural)]
pub enum LengthUnit {
    /// Characters, as the word lists are shown.
    Characters,
    /// UTF-8 bytes (`str::len`), as the JSON output groups them.
    Bytes,
}

/// The length of a word in `unit`s.
pub open spec fn word_length(unit: LengthUnit, w: Seq<char>) -> usize {
    match unit {
        LengthUnit::Characters => w.len() as usize,
        LengthUnit::Bytes => encode_utf8(w).len() as usize,
    }
}

/// The length of a word in `unit`s.
fn word_len(w: &String, unit: LengthUnit) -> (n: usize)
    ensures
        n == word_length(unit, w@),
{
    match unit {
        LengthUnit::Characters => chars_of(w.as_str()).len(),
        LengthUnit::Bytes => w.as_str().len(),
    }
}

/// True when some word of `words` has length `n`.
pub open spec fn length_occurs(words: Seq<Seq<char>>, unit: LengthUnit, n: usize) -> bool {
    exists|i: int| 0 <= i < words.len() && word_length(unit, words[i]) == n
}

/// The words of `words` that have length `n`, in order.
pub open spec fn words_of_len(words: Seq<Seq<char>>, unit: LengthUnit, n: usize) -> Seq<Seq<char>>
    decreases words.len(),
{
    if words.len() == 0 {
        Seq::empty()
    } else {
        let before = words_of_len(words.drop_last(), unit, n);
        if word_length(unit, words.last()) == n {
            before.push(words.last())
        } else {
            before
        }
    }
}

/// True when `lens` is strictly increasing.
pub open spec fn increasing(lens: Seq<usize>) -> bool {
    forall|i: int, j: int| 0 <= i < j < lens.len() ==> lens[i] < lens[j]
}

/// The distinct lengths of the words, in increasing order.
pub fn word_lengths(words: &Vec<String>, unit: LengthUnit) -> (lens: Vec<usize>)
    ensures
        increasing(lens@),
        forall|n: usize| lens@.contains(n) <==> length_occurs(words.deep_view(), unit, n),
{
    let mut lens: Vec<usize> = Vec::new();
    let mut i: usize = 0;
    while i < words.len()
        invariant
            i <= words@.len(),
            increasing(lens@),
            forall|n: usize| lens@.contains(n) <==> length_occurs(words.deep_view().take(i as int), unit, n),
        decreases words@.len() - i,
    {
        let n = word_len(&words[i], unit);
        let mut k: usize = 0;
        while k < lens.len() && lens[k] < n
            invariant
                k <= lens@.len(),
                forall|j: int| 0 <= j < k ==> lens@[j] < n,
            decreases lens@.len() - k,
        {
            k = k + 1;
        }
        let ghost before = lens@;
        let ghost prefix = words.deep_view().take(i as int);
        let ghost next = words.deep_view().take(i as int + 1);
        assert(next == prefix.push(words@[i as int]@));
        if k < lens.len() && lens[k] == n {
        } else {
            lens.insert(k, n);
            assert(lens@ == before.insert(k as int, n));
        }
        proof {
            assert forall|m: usize| lens@.contains(m) <==> length_occurs(next, unit, m) by {
                if lens@.contains(m) {
                    let j = choose|j: int| 0 <= j < lens@.len() && lens@[j] == m;
                    if m == n {
                        assert(word_length(unit, next[i as int]) == n);
                    } else {
                        assert(before.contains(m)) by {
                            if lens@ == before || j < k {
                                assert(before[j] == m);
                            } else if j > k {
                                assert(before[j - 1] == m);
                            }
                        }
                        let w = choose|w: int| 0 <= w < prefix.len() && word_length(unit, prefix[w]) == m;
                        assert(next[w] == prefix[w]);
                    }
                }
                if length_occurs(next, unit, m) {
                    let w = choose|w: int| 0 <= w < next.len() && word_length(unit, next[w]) == m;
                    if w == i {
                        if k < before.len() && before[k as int] == n {
                            assert(lens@[k as int] == m);
                        } else {
                            assert(lens@[k as int] == m);
                        }
                    } else {
                        assert(prefix[w] == next[w]);
                        assert(before.contains(m));
                        let j = choose|j: int| 0 <= j < before.len() && before[j] == m;
                        if lens@ != before {
                            if j < k {
                                assert(lens@[j] == m);
                            } else {
                                assert(lens@[j + 1] == m);
                            }
                        }
                    }
                }
            }
        }
        i = i + 1;
    }
    assert(words.deep_view().take(words@.len() as int) == words.deep_view());
    lens
}

/// The words of `words` that have length `n`, in order.
pub fn words_with_len(words: &Vec<String>, unit: LengthUnit, n: usize) -> (out: Vec<String>)
    ensures
        out.deep_view() == words_of_len(words.deep_view(), unit, n),
{
    let mut out: Vec<String> = Vec::new();
    let mut i: usize = 0;
    assert(words.deep_view().take(0) == Seq::<Seq<char>>::empty());
    assert(out.deep_view() == Seq::<Seq<char>>::empty());
    while i < words.len()
        invariant
            i <= words@.len(),
            out.deep_view() == words_of_len(words.deep_view().take(i as int), unit, n),
        decreases words@.len() - i,
    {
        let ghost next = words.deep_view().take(i as int + 1);
        assert(next.drop_last() == words.deep_view().take(i as int));
        assert(next.last() == words@[i as int]@);
        if word_len(&words[i], unit) == n {
            let ghost before = out.deep_view();
            out.push(words[i].clone());
            assert(out.deep_view() == before.push(words@[i as int]@));
        }
        i = i + 1;
    }
    assert(words.deep_view().take(words@.len() as int) == words.deep_view());
    out
}

/// The words of one length.
pub struct WordGroup {
    pub length: usize,
    pub words: Vec<String>,
}

/// The lengths of a list of groups, in order.
pub open spec fn group_lengths(groups: Seq<WordGroup>) -> Seq<usize> {
    groups.map_values(|g: WordGroup| g.length)
}

/// The words grouped by length, shortest first, each group in the order of `words`.
pub fn groups_by_length(words: &Vec<String>, unit: LengthUnit) -> (groups: Vec<WordGroup>)
    ensures
        increasing(group_lengths(groups@)),
        forall|n: usize| group_lengths(groups@).contains(n) <==> length_occurs(words.deep_view(), unit, n),
        forall|i: int| #![trigger groups@[i]] 0 <= i < groups@.len()
            ==> groups@[i].words.deep_view() == words_of_len(words.deep_view(), unit, groups@[i].length),
{
    let lens = word_lengths(words, unit);
    let mut groups: Vec<WordGroup> = Vec::new();
    let mut i: usize = 0;
    while i < lens.len()
        invariant
            i <= lens@.len(),
            increasing(lens@),
            forall|n: usize| lens@.contains(n) <==> length_occurs(words.deep_view(), unit, n),
            group_lengths(groups@) == lens@.take(i as int),
            forall|j: int| #![trigger groups@[j]] 0 <= j < groups@.len()
                ==> groups@[j].words.deep_view() == words_of_len(words.deep_view(), unit, groups@[j].length),
        decreases lens@.len() - i,
    {
        let n = lens[i];
        let g = WordGroup { length: n, words: words_with_len(words, unit, n) };
        let ghost before = groups@;
        groups.push(g);
        assert(groups@ == before.push(g));
        assert(group_lengths(groups@) =~= group_lengths(before).push(n));
        assert(lens@.take(i as int + 1) =~= lens@.take(i as int).push(n));
        i = i + 1;
    }
    assert(lens@.take(lens@.len() as int) == lens@);
    groups
}

/// What `str::to_uppercase` makes of a text.
pub uninterp spec fn uppercase(s: Seq<char>) -> Seq<char>;

/// `str::to_uppercase`. Its result is a function of the text alone (Unicode's case
/// mapping); the contract names it `uppercase` and claims nothing more of it.
#[verifier::external_body]
fn to_uppercase(s: &str) -> (r: String)
    ensures
        r@ == uppercase(s@),
{
    s.to_uppercase()
}

/// Each word in capitals.
pub open spec fn upper_words(words: Seq<Seq<char>>) -> Seq<Seq<char>> {
    words.map_values(|w: Seq<char>| uppercase(w))
}

/// True when `lens` is strictly decreasing.
pub open spec fn decreasing(lens: Seq<usize>) -> bool {
    forall|i: int, j: int| 0 <= i < j < lens.len() ==> lens[i] > lens[j]
}

/// The characters of each word in capitals.
fn uppercase_all(words: &Vec<String>) -> (out: Vec<Vec<char>>)
    ensures
        texts(out@) == upper_words(words.deep_view()),
{
    let mut out: Vec<Vec<char>> = Vec::new();
    let mut i: usize = 0;
    while i < words.len()
        invariant
            i <= words@.len(),
            texts(out@) == upper_words(words.deep_view().take(i as int)),
        decreases words@.len() - i,
    {
        let u = to_uppercase(words[i].as_str());
        let c = chars_of(u.as_str());
        let ghost before = out@;
        out.push(c);
        assert(out@ == before.push(c));
        assert(texts(out@) =~= texts(before).push(uppercase(words@[i as int]@)));
        assert(words.deep_view().take(i as int + 1) =~= words.deep_view().take(i as int).push(words@[i as int]@));
        assert(texts(out@) =~= upper_words(words.deep_view().take(i as int + 1)));
        i = i + 1;
    }
    assert(words.deep_view().take(words@.len() as int) == words.deep_view());
    out
}

/// Strings holding the given texts.
fn strings_of(v: &Vec<Vec<char>>) -> (out: Vec<String>)
    ensures
        out.deep_view() == texts(v@),
{
    let mut out: Vec<String> = Vec::new();
    let mut i: usize = 0;
    while i < v.len()
        invariant
            i <= v@.len(),
            out.deep_view() == texts(v@).take(i as int),
        decreases v@.len() - i,
    {
        let s = string_of(v[i].as_slice());
        let ghost before = out.deep_view();
        out.push(s);
        assert(out.deep_view() =~= before.push(v@[i as int]@));
        assert(texts(v@).take(i as int + 1) =~= texts(v@).take(i as int).push(v@[i as int]@));
        i = i + 1;
    }
    assert(texts(v@).take(v@.len() as int) == texts(v@));
    out
}

/// The words grouped by length for display: longest first, each group in capitals
/// and in ascending order.
pub fn display_groups(words: &Vec<String>) -> (groups: Vec<WordGroup>)
    ensures
        decreasing(group_lengths(groups@)),
        forall|n: usize| group_lengths(groups@).contains(n) <==> length_occurs(words.deep_view(), LengthUnit::Characters, n),
        forall|i: int| #![trigger groups@[i]] 0 <= i < groups@.len() ==> {
            &&& lex_sorted(groups@[i].words.deep_view())
            &&& groups@[i].words.deep_view().to_multiset()
                == upper_words(words_of_len(words.deep_view(), LengthUnit::Characters, groups@[i].length)).to_multiset()
        },
{
    let lens = word_lengths(words, LengthUnit::Characters);
    let mut groups: Vec<WordGroup> = Vec::new();
    let mut i: usize = lens.len();
    while i > 0
        invariant
            i <= lens@.len(),
            increasing(lens@),
            forall|n: usize| lens@.contains(n) <==> length_occurs(words.deep_view(), LengthUnit::Characters, n),
            group_lengths(groups@) == lens@.skip(i as int).reverse(),
            forall|j: int| #![trigger groups@[j]] 0 <= j < groups@.len() ==> {
                &&& lex_sorted(groups@[j].words.deep_view())
                &&& groups@[j].words.deep_view().to_multiset()
                    == upper_words(words_of_len(words.deep_view(), LengthUnit::Characters, groups@[j].length)).to_multiset()
            },
        decreases i,
    {
        i = i - 1;
        let n = lens[i];
        let same = words_with_len(words, LengthUnit::Characters, n);
        let upper = uppercase_all(&same);
        let sorted = sort_texts(upper);
        let g = WordGroup { length: n, words: strings_of(&sorted) };
        groups.push(g);
        assert(lens@.skip(i as int).reverse() == lens@.skip(i as int + 1).reverse().push(n)) by {
            assert(lens@.skip(i as int) == seq![n] + lens@.skip(i as int + 1));
        }
        assert(group_lengths(groups@) == lens@.skip(i as int).reverse());
    }
    proof {
        assert(lens@.skip(0) == lens@);
        let r = lens@.reverse();
        assert forall|a: int, b: int| 0 <= a < b < r.len() implies r[a] > r[b] by {
            assert(r[a] == lens@[lens@.len() - 1 - a]);
            assert(r[b] == lens@[lens@.len() - 1 - b]);
        }
        assert forall|n: usize| r.contains(n) <==> lens@.contains(n) by {
            if r.contains(n) {
                let a = choose|a: int| 0 <= a < r.len() && r[a] == n;
                assert(lens@[lens@.len() - 1 - a] == n);
            }
            if lens@.contains(n) {
                let a = choose|a: int| 0 <= a < lens@.len() && lens@[a] == n;
                assert(r[lens@.len() - 1 - a] == n);
            }
        }
    }
    groups
}

/// The rows of a table of words: four words to a row, two spaces apart.
pub open spec fn chunk_rows(words: Seq<Seq<char>>) -> Seq<Seq<char>>
    decreases words.len(),
{
    if words.len() == 0 {
        Seq::empty()
    } else if words.len() <= 4 {
        seq![join_seq(words, "  "@)]
    } else {
        seq![join_seq(words.take(4), "  "@)] + chunk_rows(words.skip(4))
    }
}

/// The characters of `words[from..to]`.
fn texts_of_range(words: &Vec<String>, from: usize, to: usize) -> (out: Vec<Vec<char>>)
    requires
        from <= to <= words@.len(),
    ensures
        out.deep_view() == words.deep_view().subrange(from as int, to as int),
{
    let mut out: Vec<Vec<char>> = Vec::new();
    let mut k = from;
    while k < to
        invariant
            from <= k <= to <= words@.len(),
            out.deep_view() == words.deep_view().subrange(from as int, k as int),
        decreases to - k,
    {
        let c = chars_of(words[k].as_str());
        let ghost before = out.deep_view();
        assert(c.deep_view() =~= c@);
        out.push(c);
        assert(out.deep_view() =~= before.push(words@[k as int]@));
        k = k + 1;
        assert(out.deep_view() =~= words.deep_view().subrange(from as int, k as int));
    }
    out
}

/// The rows of the table that lists `words`: four words to a row, two spaces apart.
pub fn table_rows(words: &Vec<String>) -> (rows: Vec<String>)
    ensures
        rows.deep_view() == chunk_rows(words.deep_view()),
{
    let gap = chars_of("  ");
    let mut rows: Vec<String> = Vec::new();
    let mut i: usize = 0;
    let ghost all = words.deep_view();
    assert(all.skip(0) == all);
    assert(rows.deep_view() == Seq::<Seq<char>>::empty());
    while i < words.len()
        invariant
            gap@ == "  "@,
            all == words.deep_view(),
            i <= words@.len(),
            rows.deep_view() + chunk_rows(all.skip(i as int)) == chunk_rows(all),
        decreases words@.len() - i,
    {
        let end = if words.len() - i <= 4 { words.len() } else { i + 4 };
        let chunk = texts_of_range(words, i, end);
        let row = string_of(join_texts(&chunk, gap.as_slice()).as_slice());
        let ghost rest = all.skip(i as int);
        proof {
            if rest.len() <= 4 {
                assert(all.subrange(i as int, end as int) == rest);
            } else {
                assert(all.subrange(i as int, end as int) == rest.take(4));
                assert(rest.skip(4) == all.skip(end as int));
            }
        }
        let ghost before = rows.deep_view();
        rows.push(row);
        assert(rows.deep_view() =~= before.push(row@));
        i = end;
        proof {
            if rest.len() <= 4 {
                assert(all.skip(i as int).len() == 0);
            }
        }
    }
    rows
}

/// The heading of the table of words of length `len`.
pub open spec fn header_text(len: usize, count: usize) -> Seq<char> {
    decimal(len as nat) + "-letter ("@ + decimal(count as nat) + ")"@
}

/// The heading of the table of words of length `len`: `N-letter (COUNT)`.
pub fn group_header(len: usize, count: usize) -> (h: String)
    ensures
        h@ == header_text(len, count),
{
    let mut h = String::new();
    push_decimal(&mut h, len as u64);
    push_str(&mut h, "-letter (");
    push_decimal(&mut h, count as u64);
    push_str(&mut h, ")");
    h
}

/// The summary entry for the words of length `len`.
pub open spec fn summary_part_text(len: usize, count: usize) -> Seq<char> {
    decimal(len as nat) + "-letter: "@ + decimal(count as nat)
}

/// The summary entry for the words of length `len`: `N-letter: COUNT`.
pub fn summary_part(len: usize, count: usize) -> (p: String)
    ensures
        p@ == summary_part_text(len, count),
{
    let mut p = String::new();
    push_decimal(&mut p, len as u64);
    push_str(&mut p, "-letter: ");
    push_decimal(&mut p, count as u64);
    p
}

/// Number of bytes of `s` in UTF-8.
pub open spec fn byte_len(s: Seq<char>) -> nat {
    encode_utf8(s).len()
}

/// The summary entries laid out in lines: each line starts with two spaces and
/// joins entries with ` │ `; an entry that would bring the byte length of the line
/// past 60 (counting the separator as three) starts a new line; a line that holds
/// nothing is left out.
pub open spec fn wrap_lines(parts: Seq<Seq<char>>, i: int, current: Seq<char>) -> Seq<Seq<char>>
    decreases parts.len() - i,
{
    if i < 0 || i >= parts.len() {
        if byte_len(current) > 2 {
            seq![current]
        } else {
            Seq::empty()
        }
    } else if i == 0 {
        wrap_lines(parts, 1, current + parts[0])
    } else if byte_len(current) + 3 + byte_len(parts[i]) > 60 {
        seq![current] + wrap_lines(parts, i + 1, "  "@ + parts[i])
    } else {
        wrap_lines(parts, i + 1, current + " │ "@ + parts[i])
    }
}

/// The summary lines for the given entries.
pub open spec fn summary_lines_of(parts: Seq<Seq<char>>) -> Seq<Seq<char>> {
    wrap_lines(parts, 0, "  "@)
}

/// The byte length of `s` in UTF-8, or `cap` where it is larger.
fn capped_byte_len(s: &[char], cap: usize) -> (n: usize)
    ensures
        n == if byte_len(s@) < cap { byte_len(s@) } else { cap as nat },
{
    let mut n: usize = 0;
    let mut i: usize = 0;
    assert(s@.take(0) == Seq::<char>::empty());
    while i < s.len() && n < cap
        invariant
            i <= s@.len(),
            n <= cap,
            n == if byte_len(s@.take(i as int)) < cap { byte_len(s@.take(i as int)) } else { cap as nat },
        decreases s@.len() - i,
    {
        let c = s[i];
        let w: usize = if (c as u32) < 0x80 { 1 } else if (c as u32) < 0x800 { 2 } else if (c as u32) < 0x10000 { 3 } else { 4 };
        proof {
            assert(s@.take(i as int + 1) == s@.take(i as int).push(c));
            lemma_encode_utf8_push(s@.take(i as int), c);
        }
        n = if cap - n <= w { cap } else { n + w };
        i = i + 1;
    }
    proof {
        if i < s@.len() {
            lemma_byte_len_prefix(s@, i as int);
        }
        assert(s@.take(s@.len() as int) == s@);
    }
    n
}

/// A prefix takes no more bytes than the whole.
proof fn lemma_byte_len_prefix(s: Seq<char>, i: int)
    requires
        0 <= i <= s.len(),
    ensures
        byte_len(s.take(i)) <= byte_len(s),
    decreases s.len() - i,
{
    if i < s.len() {
        lemma_byte_len_prefix(s, i + 1);
        assert(s.take(i + 1) == s.take(i).push(s[i]));
        lemma_encode_utf8_push(s.take(i), s[i]);
    } else {
        assert(s.take(i) == s);
    }
}

/// Lays out the summary entries in lines (see [`wrap_lines`]).
pub fn summary_lines(parts: &Vec<String>) -> (lines: Vec<String>)
    ensures
        lines.deep_view() == summary_lines_of(parts.deep_view()),
{
    let indent = chars_of("  ");
    let bar = chars_of(" │ ");
    let ghost ps = parts.deep_view();
    let mut lines: Vec<String> = Vec::new();
    let mut current = chars_of("  ");
    let mut i: usize = 0;
    assert(lines.deep_view() == Seq::<Seq<char>>::empty());
    while i < parts.len()
        invariant
            ps == parts.deep_view(),
            indent@ == "  "@,
            bar@ == " │ "@,
            i <= parts@.len(),
            lines.deep_view() + wrap_lines(ps, i as int, current@) == summary_lines_of(ps),
        decreases parts@.len() - i,
    {
        let part = chars_of(parts[i].as_str());
        assert(part@ == ps[i as int]);
        let ghost before = lines.deep_view();
        if i > 0 {
            let cur_len = capped_byte_len(current.as_slice(), 61);
            let part_len = capped_byte_len(part.as_slice(), 61);
            if cur_len + 3 + part_len > 60 {
                let line = string_of(current.as_slice());
                lines.push(line);
                assert(lines.deep_view() =~= before.push(current@));
                let mut next = chars_of("  ");
                append_chars(&mut next, part.as_slice());
                current = next;
            } else {
                append_chars(&mut current, bar.as_slice());
                append_chars(&mut current, part.as_slice());
            }
        } else {
            append_chars(&mut current, part.as_slice());
        }
        i = i + 1;
    }
    if capped_byte_len(current.as_slice(), 61) > 2 {
        let ghost before = lines.deep_view();
        let line = string_of(current.as_slice());
        lines.push(line);
        assert(lines.deep_view() =~= before.push(current@));
    }
    lines
}

/// A summary line holds a single entry or is at most 60 characters long (the wrapping
/// rule counts bytes, and the separator as three, so a line of several entries always
/// fits 60 characters, though it may take 62 bytes).
pub proof fn lemma_summary_lines_fit(parts: Seq<Seq<char>>)
    ensures
        forall|k: int| #![trigger summary_lines_of(parts)[k]] 0 <= k < summary_lines_of(parts).len() ==> {
            let line = summary_lines_of(parts)[k];
            line.len() <= 60 || exists|j: int| 0 <= j < parts.len() && line == "  "@ + parts[j]
        },
{
    reveal_strlit("  ");
    reveal_strlit(" │ ");
    lemma_wrap_lines_fit(parts, 0, "  "@);
}

proof fn lemma_wrap_lines_fit(parts: Seq<Seq<char>>, i: int, current: Seq<char>)
    requires
        0 <= i,
        "  "@.len() == 2,
        " │ "@.len() == 3,
        current.len() <= 60 || exists|j: int| 0 <= j < parts.len() && current == "  "@ + parts[j],
        i == 0 ==> current == "  "@,
    ensures
        forall|k: int| #![trigger wrap_lines(parts, i, current)[k]] 0 <= k < wrap_lines(parts, i, current).len() ==> {
            let line = wrap_lines(parts, i, current)[k];
            line.len() <= 60 || exists|j: int| 0 <= j < parts.len() && line == "  "@ + parts[j]
        },
    decreases parts.len() - i,
{
    let out = wrap_lines(parts, i, current);
    if i >= parts.len() {
        if out.len() > 0 {
            assert(out == seq![current]);
            assert(out[0] == current);
        }
    } else if i == 0 {
        let next = current + parts[0];
        assert(next == "  "@ + parts[0]);
        lemma_wrap_lines_fit(parts, 1, next);
        assert(out == wrap_lines(parts, 1, next));
    } else if byte_len(current) + 3 + byte_len(parts[i]) > 60 {
        let next = "  "@ + parts[i];
        lemma_wrap_lines_fit(parts, i + 1, next);
        let rest = wrap_lines(parts, i + 1, next);
        assert(out == seq![current] + rest);
        assert forall|k: int| 0 <= k < out.len() implies {
            let line = #[trigger] out[k];
            line.len() <= 60 || exists|j: int| 0 <= j < parts.len() && line == "  "@ + parts[j]
        } by {
            if k > 0 {
                assert(out[k] == rest[k - 1]);
            }
        }
    } else {
        let next = current + " │ "@ + parts[i];
        lemma_encode_utf8_len_at_least(current);
        lemma_encode_utf8_len_at_least(parts[i]);
        assert(next.len() <= 60);
        lemma_wrap_lines_fit(parts, i + 1, next);
        assert(out == wrap_lines(parts, i + 1, next));
    }
}

/// Each summary line is two spaces and then its entries joined by ` │ `; taken
/// without their indent and joined by ` │ `, the lines give all the entries joined by
/// ` │ `, in order: wrapping loses no entry and moves none. (Entries are never
/// empty: each names a length and a count.)
pub proof fn lemma_summary_lines_hold_every_part(parts: Seq<Seq<char>>)
    requires
        forall|j: int| 0 <= j < parts.len() ==> (#[trigger] parts[j]).len() > 0,
    ensures
        forall|k: int| #![trigger summary_lines_of(parts)[k]] 0 <= k < summary_lines_of(parts).len()
            ==> summary_lines_of(parts)[k] == "  "@ + summary_lines_of(parts)[k].skip(2),
        join_seq(summary_lines_of(parts).map_values(|l: Seq<char>| l.skip(2)), " │ "@)
            == join_seq(parts, " │ "@),
{
    reveal_strlit("  ");
    let lines = summary_lines_of(parts);
    if parts.len() == 0 {
        let e = Seq::<char>::empty();
        assert("  "@ == e.push(' ').push(' '));
        lemma_encode_utf8_push(e, ' ');
        lemma_encode_utf8_push(e.push(' '), ' ');
        assert(byte_len("  "@) == 2);
        assert(lines == Seq::<Seq<char>>::empty());
        assert(lines.map_values(|l: Seq<char>| l.skip(2)) == Seq::<Seq<char>>::empty());
    } else {
        assert(lines == wrap_lines(parts, 1, "  "@ + parts[0]));
        lemma_wrap_lines_hold_parts(parts, 1, parts[0]);
        assert(parts.subrange(1, parts.len() as int) == parts.drop_first());
        assert(seq![parts[0]] + parts.drop_first() == parts);
    }
}

proof fn lemma_wrap_lines_hold_parts(parts: Seq<Seq<char>>, i: int, x: Seq<char>)
    requires
        forall|j: int| 0 <= j < parts.len() ==> (#[trigger] parts[j]).len() > 0,
        1 <= i <= parts.len(),
        x.len() > 0,
        "  "@.len() == 2,
    ensures
        wrap_lines(parts, i, "  "@ + x).len() > 0,
        forall|k: int| #![trigger wrap_lines(parts, i, "  "@ + x)[k]] 0 <= k < wrap_lines(parts, i, "  "@ + x).len()
            ==> wrap_lines(parts, i, "  "@ + x)[k] == "  "@ + wrap_lines(parts, i, "  "@ + x)[k].skip(2),
        join_seq(wrap_lines(parts, i, "  "@ + x).map_values(|l: Seq<char>| l.skip(2)), " │ "@)
            == join_seq(seq![x] + parts.subrange(i, parts.len() as int), " │ "@),
    decreases parts.len() - i,
{
    let sep = " │ "@;
    let current = "  "@ + x;
    let lines = wrap_lines(parts, i, current);
    let strip = |l: Seq<char>| l.skip(2);
    assert(current.skip(2) == x);
    lemma_encode_utf8_len_at_least(current);
    if i >= parts.len() {
        assert(lines == seq![current]);
        assert(lines.map_values(strip) == seq![x]);
        assert(seq![x] + parts.subrange(i, parts.len() as int) == seq![x]);
    } else {
        let tail = parts.subrange(i, parts.len() as int);
        let next_tail = parts.subrange(i + 1, parts.len() as int);
        assert(tail == seq![parts[i]] + next_tail);
        if byte_len(current) + 3 + byte_len(parts[i]) > 60 {
            lemma_wrap_lines_hold_parts(parts, i + 1, parts[i]);
            let rest = wrap_lines(parts, i + 1, "  "@ + parts[i]);
            assert(lines == seq![current] + rest);
            assert forall|k: int| 0 <= k < lines.len() implies #[trigger] lines[k] == "  "@ + lines[k].skip(2) by {
                if k > 0 {
                    assert(lines[k] == rest[k - 1]);
                }
            }
            assert(lines.map_values(strip) == seq![x] + rest.map_values(strip));
            lemma_join_seq_prepend(x, rest.map_values(strip), sep);
            lemma_join_seq_prepend(x, tail, sep);
        } else {
            let y = x + sep + parts[i];
            assert(current + sep + parts[i] == "  "@ + y);
            lemma_wrap_lines_hold_parts(parts, i + 1, y);
            assert(lines == wrap_lines(parts, i + 1, "  "@ + y));
            lemma_join_seq_prepend(x, tail, sep);
            if next_tail.len() == 0 {
                assert(seq![y] + next_tail == seq![y]);
                assert(tail == seq![parts[i]]);
                assert(join_seq(tail, sep) == parts[i]);
            } else {
                lemma_join_seq_prepend(y, next_tail, sep);
                lemma_join_seq_prepend(parts[i], next_tail, sep);
                assert(join_seq(seq![y] + next_tail, sep) =~= join_seq(seq![x] + tail, sep));
            }
        }
    }
}

/// A line without the carriage return that ends it, if any.
pub open spec fn strip_cr(l: Seq<char>) -> Seq<char> {
    if l.len() > 0 && l.last() == '\r' {
        l.drop_last()
    } else {
        l
    }
}

/// The lines of `cur + rest`, where `cur` holds no line feed (`str::lines`).
pub open spec fn lines_after(rest: Seq<char>, cur: Seq<char>) -> Seq<Seq<char>>
    decreases rest.len(),
{
    if rest.len() == 0 {
        if cur.len() > 0 {
            seq![cur]
        } else {
            Seq::empty()
        }
    } else if rest[0] == '\n' {
        seq![strip_cr(cur)] + lines_after(rest.drop_first(), Seq::empty())
    } else {
        lines_after(rest.drop_first(), cur.push(rest[0]))
    }
}

/// The lines of a text, as `str::lines` gives them.
pub open spec fn text_lines(s: Seq<char>) -> Seq<Seq<char>> {
    lines_after(s, Seq::empty())
}

/// Each line indented by two spaces and ended by a line feed.
pub open spec fn indented(lines: Seq<Seq<char>>) -> Seq<char>
    decreases lines.len(),
{
    if lines.len() == 0 {
        Seq::empty()
    } else {
        indented(lines.drop_last()) + "  "@ + lines.last() + "\n"@
    }
}

/// `line_block` of a list that starts with `a`: `a`, a line feed, then the rest.
proof fn lemma_line_block_prepend(a: Seq<char>, rest: Seq<Seq<char>>)
    ensures
        line_block(seq![a] + rest) == a + "\n"@ + line_block(rest),
    decreases rest.len(),
{
    let whole = seq![a] + rest;
    if rest.len() == 0 {
        assert(whole == seq![a]);
        assert(whole.drop_last() == Seq::<Seq<char>>::empty());
        assert(line_block(whole) == line_block(whole.drop_last()) + whole.last() + "\n"@);
        assert(line_block(whole) =~= a + "\n"@ + line_block(rest));
    } else {
        lemma_line_block_prepend(a, rest.drop_last());
        assert(whole.drop_last() == seq![a] + rest.drop_last());
        assert(whole.last() == rest.last());
        assert(line_block(whole) == line_block(whole.drop_last()) + whole.last() + "\n"@);
        assert(line_block(rest) == line_block(rest.drop_last()) + rest.last() + "\n"@);
        assert(line_block(whole) =~= a + "\n"@ + line_block(rest));
    }
}

/// A text ended by a line feed: the text itself where it is empty or already ends
/// with one.
pub open spec fn ended_by_line_feed(t: Seq<char>) -> Seq<char> {
    if t.len() == 0 || t.last() == '\n' {
        t
    } else {
        t.push('\n')
    }
}

proof fn lemma_lines_after_give_back(rest: Seq<char>, cur: Seq<char>)
    requires
        !rest.contains('\r'),
        !cur.contains('\r'),
        !cur.contains('\n'),
        "\n"@ == seq!['\n'],
    ensures
        line_block(lines_after(rest, cur)) == ended_by_line_feed(cur + rest),
        forall|k: int| #![trigger lines_after(rest, cur)[k]] 0 <= k < lines_after(rest, cur).len()
            ==> !lines_after(rest, cur)[k].contains('\n'),
    decreases rest.len(),
{
    let lines = lines_after(rest, cur);
    if rest.len() == 0 {
        assert(cur + rest == cur);
        if cur.len() > 0 {
            assert(lines == seq![cur]);
            assert(seq![cur].drop_last() == Seq::<Seq<char>>::empty());
            assert(cur.last() != '\n') by {
                assert(cur[cur.len() - 1] == cur.last());
            }
            assert(line_block(lines) == line_block(seq![cur].drop_last()) + cur + "\n"@);
            assert(line_block(lines) =~= cur.push('\n'));
        } else {
            assert(lines == Seq::<Seq<char>>::empty());
        }
    } else {
        let tail = rest.drop_first();
        assert(!tail.contains('\r')) by {
            if tail.contains('\r') {
                let j = choose|j: int| 0 <= j < tail.len() && tail[j] == '\r';
                assert(rest[j + 1] == '\r');
            }
        }
        if rest[0] == '\n' {
            assert(strip_cr(cur) == cur) by {
                if cur.len() > 0 {
                    assert(cur[cur.len() - 1] == cur.last());
                }
            }
            lemma_lines_after_give_back(tail, Seq::empty());
            let more = lines_after(tail, Seq::empty());
            assert(lines == seq![cur] + more);
            lemma_line_block_prepend(cur, more);
            assert(Seq::<char>::empty() + tail == tail);
            assert(rest == seq!['\n'] + tail);
            if tail.len() == 0 {
                assert(cur + rest == cur.push('\n'));
                assert(more == Seq::<Seq<char>>::empty());
                assert(line_block(lines) =~= cur.push('\n'));
            } else {
                assert(tail.last() == rest.last());
                assert(line_block(lines) =~= ended_by_line_feed(cur + rest));
            }
            assert forall|k: int| 0 <= k < lines.len() implies !(#[trigger] lines[k]).contains('\n') by {
                if k > 0 {
                    assert(lines[k] == more[k - 1]);
                }
            }
        } else {
            let next = cur.push(rest[0]);
            assert(!next.contains('\r') && !next.contains('\n')) by {
                assert forall|j: int| 0 <= j < next.len() implies next[j] != '\r' && next[j] != '\n' by {
                    if j < cur.len() {
                        assert(next[j] == cur[j]);
                    } else {
                        assert(rest.contains(rest[0]));
                    }
                }
            }
            lemma_lines_after_give_back(tail, next);
            assert(next + tail == cur + rest);
            assert(lines == lines_after(tail, next));
        }
    }
}

/// The lines of a text (without carriage returns) hold no line feed, and each of
/// them followed by a line feed gives back the text, ended by a line feed: no line
/// is lost, split or moved.
pub proof fn lemma_text_lines_give_back(t: Seq<char>)
    requires
        !t.contains('\r'),
    ensures
        line_block(text_lines(t)) == ended_by_line_feed(t),
        forall|k: int| #![trigger text_lines(t)[k]] 0 <= k < text_lines(t).len() ==> !text_lines(t)[k].contains('\n'),
{
    reveal_strlit("\n");
    assert("\n"@ =~= seq!['\n']);
    lemma_lines_after_give_back(t, Seq::empty());
    assert(Seq::<char>::empty() + t == t);
}

/// Appends the lines of `text`, each indented by two spaces and ended by a line feed.
fn push_indented(out: &mut String, text: &str)
    ensures
        final(out)@ == old(out)@ + indented(text_lines(text@)),
{
    let chars = chars_of(text);
    let ghost start = out@;
    let ghost mut done: Seq<Seq<char>> = Seq::empty();
    let mut cur: Vec<char> = Vec::new();
    let mut i: usize = 0;
    assert(chars@.skip(0) == chars@);
    while i < chars.len()
        invariant
            chars@ == text@,
            i <= chars@.len(),
            out@ == start + indented(done),
            done + lines_after(chars@.skip(i as int), cur@) == text_lines(text@),
        decreases chars@.len() - i,
    {
        let c = chars[i];
        assert(chars@.skip(i as int).drop_first() == chars@.skip(i as int + 1));
        if c == '\n' {
            let ghost line = strip_cr(cur@);
            let ghost old_cur = cur@;
            if cur.len() > 0 && cur[cur.len() - 1] == '\r' {
                cur.pop();
            }
            assert(cur@ == line);
            push_str(out, "  ");
            push_str(out, string_of(cur.as_slice()).as_str());
            push_str(out, "\n");
            proof {
                assert(done.push(line).drop_last() == done);
                assert(done + lines_after(chars@.skip(i as int), old_cur) == done.push(line) + lines_after(chars@.skip(i as int + 1), Seq::empty())) by {
                    assert(done + (seq![line] + lines_after(chars@.skip(i as int + 1), Seq::empty())) == done.push(line) + lines_after(chars@.skip(i as int + 1), Seq::empty()));
                }
                done = done.push(line);
            }
            cur = Vec::new();
        } else {
            cur.push(c);
        }
        i = i + 1;
    }
    if cur.len() > 0 {
        push_str(out, "  ");
        push_str(out, string_of(cur.as_slice()).as_str());
        push_str(out, "\n");
        proof {
            assert(done.push(cur@).drop_last() == done);
            assert(done + seq![cur@] == done.push(cur@));
            done = done.push(cur@);
        }
    } else {
        assert(done + Seq::<Seq<char>>::empty() == done);
    }
}

/// The drawn tables, each indented line by line.
pub open spec fn tables_text(tables: Seq<Seq<char>>) -> Seq<char>
    decreases tables.len(),
{
    if tables.len() == 0 {
        Seq::empty()
    } else {
        tables_text(tables.drop_last()) + indented(text_lines(tables.last()))
    }
}

/// The lines, each ended by a line feed.
pub open spec fn line_block(lines: Seq<Seq<char>>) -> Seq<char>
    decreases lines.len(),
{
    if lines.len() == 0 {
        Seq::empty()
    } else {
        line_block(lines.drop_last()) + lines.last() + "\n"@
    }
}

/// The pieces of the puzzle text that `colored` and `comfy_table` draw.
pub struct RenderedParts {
    /// The styled title, padded to 23 columns.
    pub title: String,
    /// The styled date, padded to 23 columns.
    pub date: String,
    /// The styled heading of the grid.
    pub grid_heading: String,
    /// The drawn grid.
    pub grid_table: String,
    /// The styled heading of the word lists.
    pub words_heading: String,
    /// The drawn tables of words, longest words first.
    pub word_tables: Vec<String>,
    /// The styled heading of the summary.
    pub summary_heading: String,
}

/// The contents of a [`RenderedParts`] as mathematical values.
pub struct RenderedView {
    pub title: Seq<char>,
    pub date: Seq<char>,
    pub grid_heading: Seq<char>,
    pub grid_table: Seq<char>,
    pub words_heading: Seq<char>,
    pub word_tables: Seq<Seq<char>>,
    pub summary_heading: Seq<char>,
}

impl View for RenderedParts {
    type V = RenderedView;

    open spec fn view(&self) -> RenderedView {
        RenderedView {
            title: self.title@,
            date: self.date@,
            grid_heading: self.grid_heading@,
            grid_table: self.grid_table@,
            words_heading: self.words_heading@,
            word_tables: self.word_tables.deep_view(),
            summary_heading: self.summary_heading@,
        }
    }
}

/// The puzzle as text: a framed title and date, the grid, the tables of words, the
/// number of words and the summary lines.
pub open spec fn puzzle_text(r: RenderedView, total: usize, summary: Seq<Seq<char>>) -> Seq<char> {
    "\n┌─────────────────────────────┐\n"@
        + "│     "@ + r.title + " │\n"@
        + "│     "@ + r.date + " │\n"@
        + "└─────────────────────────────┘\n\n"@
        + "  "@ + r.grid_heading + "\n"@
        + indented(text_lines(r.grid_table))
        + "\n"@
        + "  "@ + r.words_heading + "\n"@
        + tables_text(r.word_tables)
        + "\n"@
        + "  "@ + r.summary_heading + "\n"@
        + "  ─────────────────────────────\n"@
        + "  Total words: "@ + decimal(total as nat) + "\n"@
        + line_block(summary)
        + "\n"@
}

/// Lays out the puzzle text from its drawn pieces, the number of words and the
/// summary lines.
pub fn layout_puzzle(r: &RenderedParts, total: usize, summary: &Vec<String>) -> (out: String)
    ensures
        out@ == puzzle_text(r@, total, summary.deep_view()),
{
    let mut out = String::new();
    push_str(&mut out, "\n┌─────────────────────────────┐\n");
    push_str(&mut out, "│     ");
    push_str(&mut out, r.title.as_str());
    push_str(&mut out, " │\n");
    push_str(&mut out, "│     ");
    push_str(&mut out, r.date.as_str());
    push_str(&mut out, " │\n");
    push_str(&mut out, "└─────────────────────────────┘\n\n");
    push_str(&mut out, "  ");
    push_str(&mut out, r.grid_heading.as_str());
    push_str(&mut out, "\n");
    push_indented(&mut out, r.grid_table.as_str());
    push_str(&mut out, "\n");
    push_str(&mut out, "  ");
    push_str(&mut out, r.words_heading.as_str());
    push_str(&mut out, "\n");
    let ghost head = out@;
    let mut t: usize = 0;
    while t < r.word_tables.len()
        invariant
            t <= r.word_tables@.len(),
            out@ == head + tables_text(r.word_tables.deep_view().take(t as int)),
        decreases r.word_tables@.len() - t,
    {
        push_indented(&mut out, r.word_tables[t].as_str());
        assert(r.word_tables.deep_view().take(t as int + 1).drop_last() == r.word_tables.deep_view().take(t as int));
        t = t + 1;
    }
    assert(r.word_tables.deep_view().take(r.word_tables@.len() as int) == r.word_tables.deep_view());
    push_str(&mut out, "\n");
    push_str(&mut out, "  ");
    push_str(&mut out, r.summary_heading.as_str());
    push_str(&mut out, "\n");
    push_str(&mut out, "  ─────────────────────────────\n");
    push_str(&mut out, "  Total words: ");
    push_decimal(&mut out, total as u64);
    push_str(&mut out, "\n");
    let ghost mid = out@;
    let mut k: usize = 0;
    while k < summary.len()
        invariant
            k <= summary@.len(),
            out@ == mid + line_block(summary.deep_view().take(k as int)),
        decreases summary@.len() - k,
    {
        push_str(&mut out, summary[k].as_str());
        push_str(&mut out, "\n");
        assert(summary.deep_view().take(k as int + 1).drop_last() == summary.deep_view().take(k as int));
        k = k + 1;
    }
    assert(summary.deep_view().take(summary@.len() as int) == summary.deep_view());
    push_str(&mut out, "\n");
    out
}

/// What `char::to_uppercase` makes of a character, written out as text.
pub uninterp spec fn char_uppercase(c: char) -> Seq<char>;

/// `char::to_uppercase`, collected into a `String`. Its result is a function of the
/// character alone (Unicode's case mapping); the contract names it `char_uppercase`
/// and claims nothing more of it.
#[verifier::external_body]
fn char_to_uppercase(c: char) -> (r: String)
    ensures
        r@ == char_uppercase(c),
{
    c.to_uppercase().to_string()
}

/// The heading of the word lists.
pub open spec fn words_heading_text(total: usize) -> Seq<char> {
    "Words ("@ + decimal(total as nat) + " total):"@
}

/// The heading of the word lists: `Words (N total):`.
pub fn words_heading(total: usize) -> (h: String)
    ensures
        h@ == words_heading_text(total),
{
    let mut h = String::new();
    push_str(&mut h, "Words (");
    push_decimal(&mut h, total as u64);
    push_str(&mut h, " total):");
    h
}

/// The summary lines of a puzzle whose words have the lengths `lens`.
pub open spec fn summary_of(words: Seq<Seq<char>>, lens: Seq<usize>) -> Seq<Seq<char>> {
    summary_lines_of(lens.map_values(|n: usize| summary_part_text(n, words_of_len(words, LengthUnit::Characters, n).len() as usize)))
}

/// The style of the tables of the puzzle: `Table::new`'s, then `UTF8_FULL` with
/// round corners.
pub open spec fn rounded_full_style() -> Map<int, char> {
    modifier_applied(preset_loaded(preset_loaded(Map::empty(), ascii_full()), utf8_full()), utf8_round_corners())
}

/// The cell of one letter of the grid: the letter in capitals, green.
pub open spec fn letter_cell(c: char) -> CellModel {
    CellModel { lines: split_on(char_uppercase(c), '\n'), color: Some(CellColor::Green) }
}

/// The cells of one row of the grid.
pub open spec fn letter_cells(row: Seq<char>) -> Seq<CellModel> {
    row.map_values(|c: char| letter_cell(c))
}

/// The rows of the grid's table: one per piece of `grid` between dashes.
pub open spec fn grid_cells(grid: Seq<char>) -> Seq<Seq<CellModel>> {
    split_on(grid, '-').map_values(|row: Seq<char>| letter_cells(row))
}

/// The grid drawn as a table: one row per piece of `grid` between dashes, one cell
/// per letter, in capitals and green; never styled where `colors` is off.
fn grid_table_text(grid: &str, colors: bool) -> (r: String)
    ensures
        exists|styled: bool, ansi_colors: bool|
            r@ == #[trigger] table_drawing(rounded_full_style(), None, grid_cells(grid@), styled, ansi_colors)
                && (!colors ==> !styled),
{
    let mut t = table_new();
    table_full_preset(&mut t);
    table_round_corners(&mut t);
    if !colors {
        table_force_no_tty(&mut t);
    }
    let rows = split_text(grid, '-');
    let ghost pieces = rows.deep_view();
    let mut i: usize = 0;
    assert(grid_cells(grid@).take(0) == Seq::<Seq<CellModel>>::empty());
    while i < rows.len()
        invariant
            pieces == rows.deep_view(),
            pieces == split_on(grid@, '-'),
            i <= rows@.len(),
            table_style(t) == rounded_full_style(),
            table_heading(t) is None,
            table_body(t) == grid_cells(grid@).take(i as int),
            !colors ==> table_no_tty(t),
        decreases rows@.len() - i,
    {
        let letters = chars_of(rows[i].as_str());
        let mut cells: Vec<Cell> = Vec::new();
        let mut k: usize = 0;
        while k < letters.len()
            invariant
                k <= letters@.len(),
                cells@.map_values(|c: Cell| cell_model(c)) == letter_cells(letters@.take(k as int)),
            decreases letters@.len() - k,
        {
            let cell = cell_green(cell_new(char_to_uppercase(letters[k])));
            let ghost before = cells@;
            cells.push(cell);
            assert(cells@ == before.push(cell));
            assert(cells@.map_values(|c: Cell| cell_model(c)) =~= before.map_values(|c: Cell| cell_model(c)).push(cell_model(cell)));
            assert(letters@.take(k as int + 1) =~= letters@.take(k as int).push(letters@[k as int]));
            assert(letter_cells(letters@.take(k as int + 1)) =~= letter_cells(letters@.take(k as int)).push(letter_cell(letters@[k as int])));
            k = k + 1;
        }
        assert(letters@.take(letters@.len() as int) == letters@);
        assert(letters@ == pieces[i as int]);
        let ghost before = table_body(t);
        table_add_row(&mut t, cells);
        assert(grid_cells(grid@).take(i as int + 1) =~= grid_cells(grid@).take(i as int).push(letter_cells(pieces[i as int])));
        i = i + 1;
    }
    assert(grid_cells(grid@).take(rows@.len() as int) == grid_cells(grid@));
    let r = table_text(&t);
    proof {
        let (chosen, ansi_colors) = choose|styled: bool, ansi_colors: bool|
            r@ == table_drawing(table_style(t), table_heading(t), table_body(t), tty_styling(styled, table_no_tty(t)), ansi_colors);
        let styled = tty_styling(chosen, table_no_tty(t));
        assert(r@ == table_drawing(rounded_full_style(), None, grid_cells(grid@), styled, ansi_colors));
    }
    r
}

/// The header of the table of the words of length `len`: its heading, in cyan.
pub open spec fn word_table_heading(len: usize, count: usize) -> Seq<CellModel> {
    seq![CellModel { lines: split_on(header_text(len, count), '\n'), color: Some(CellColor::Cyan) }]
}

/// The rows of a table of words: four words to a row, each row one plain cell.
pub open spec fn word_table_body(words: Seq<Seq<char>>) -> Seq<Seq<CellModel>> {
    chunk_rows(words).map_values(|row: Seq<char>| seq![CellModel { lines: split_on(row, '\n'), color: None }])
}

/// The table of the words `group` of length `len`: a cyan heading, then four words
/// to a row.
pub open spec fn word_table_drawing(len: usize, group: Seq<Seq<char>>, styled: bool, ansi_colors: bool) -> Seq<char> {
    table_drawing(
        rounded_full_style(),
        Some(word_table_heading(len, group.len() as usize)),
        word_table_body(group),
        styled,
        ansi_colors,
    )
}

/// The table of one group of words: a cyan heading, then four words to a row; never
/// styled where `colors` is off.
fn word_table_text(group: &WordGroup, colors: bool) -> (r: String)
    ensures
        exists|styled: bool, ansi_colors: bool|
            r@ == #[trigger] word_table_drawing(group.length, group.words.deep_view(), styled, ansi_colors)
                && (!colors ==> !styled),
{
    let mut t = table_new();
    table_full_preset(&mut t);
    table_round_corners(&mut t);
    if !colors {
        table_force_no_tty(&mut t);
    }
    let heading = cell_cyan(cell_new(group_header(group.length, group.words.len())));
    let header_cells = vec![heading];
    assert(header_cells@.map_values(|c: Cell| cell_model(c)) =~= word_table_heading(group.length, group.words@.len() as usize));
    table_set_header(&mut t, header_cells);
    let rows = table_rows(&group.words);
    let ghost body = word_table_body(group.words.deep_view());
    let mut i: usize = 0;
    assert(body.take(0) == Seq::<Seq<CellModel>>::empty());
    while i < rows.len()
        invariant
            rows.deep_view() == chunk_rows(group.words.deep_view()),
            body == word_table_body(group.words.deep_view()),
            i <= rows@.len(),
            table_style(t) == rounded_full_style(),
            table_heading(t) == Some(word_table_heading(group.length, group.words@.len() as usize)),
            table_body(t) == body.take(i as int),
            !colors ==> table_no_tty(t),
        decreases rows@.len() - i,
    {
        let cell = cell_new(rows[i].clone());
        let row_cells = vec![cell];
        assert(row_cells@.map_values(|c: Cell| cell_model(c)) =~= seq![CellModel { lines: split_on(rows@[i as int]@, '\n'), color: None }]);
        assert(rows@[i as int]@ == rows.deep_view()[i as int]);
        table_add_row(&mut t, row_cells);
        assert(body.take(i as int + 1) =~= body.take(i as int).push(body[i as int]));
        i = i + 1;
    }
    assert(body.take(rows@.len() as int) == body);
    let r = table_text(&t);
    proof {
        let (chosen, ansi_colors) = choose|styled: bool, ansi_colors: bool|
            r@ == table_drawing(table_style(t), table_heading(t), table_body(t), tty_styling(styled, table_no_tty(t)), ansi_colors);
        let styled = tty_styling(chosen, table_no_tty(t));
        assert(group.words.deep_view().len() == group.words@.len());
        assert(r@ == word_table_drawing(group.length, group.words.deep_view(), styled, ansi_colors));
    }
    r
}

/// `text` followed by spaces up to `width` characters.
fn pad_text(text: &str, width: usize) -> (r: String)
    ensures
        r@ == pad_right(text@, width),
{
    let mut r = String::new();
    push_str(&mut r, text);
    let n = chars_of(text).len();
    if n < width {
        let mut k = n;
        assert(r@ =~= text@ + Seq::new(0, |i: int| ' '));
        while k < width
            invariant
                n == text@.len(),
                n <= k <= width,
                r@ == text@ + Seq::new((k - n) as nat, |i: int| ' '),
            decreases width - k,
        {
            push_char(&mut r, ' ');
            k = k + 1;
            assert(r@ =~= text@ + Seq::new((k - n) as nat, |i: int| ' '));
        }
    }
    r
}

/// A piece of the puzzle text: the styled text `s`, whose text is `text`, written
/// left-aligned in `width` columns, by `colored` where `colors` is on and plain
/// otherwise.
fn piece(text: &str, s: &ColoredString, width: usize, colors: bool) -> (r: String)
    requires
        colored_value(*s) is Some,
        colored_value(*s)->0.input == text@,
    ensures
        exists|on: bool|
            r@ == #[trigger] colored_writing(colored_value(*s)->0, width, on) && (!colors ==> !on),
{
    if colors {
        padded(s, width)
    } else {
        let r = pad_text(text, width);
        assert(r@ == colored_writing(colored_value(*s)->0, width, false));
        r
    }
}

/// Which pieces of the puzzle text came out with terminal styling, and, for the
/// tables, whether their colour codes were written.
pub struct RenderFlags {
    pub title: bool,
    pub date: bool,
    pub grid_heading: bool,
    pub grid_table: bool,
    pub grid_table_ansi: bool,
    pub words_heading: bool,
    pub word_tables: Seq<bool>,
    pub word_tables_ansi: Seq<bool>,
    pub summary_heading: bool,
}

/// No piece of the puzzle text is styled.
pub open spec fn no_colors(f: RenderFlags) -> bool {
    &&& !f.title
    &&& !f.date
    &&& !f.grid_heading
    &&& !f.grid_table
    &&& !f.words_heading
    &&& !f.summary_heading
    &&& forall|i: int| 0 <= i < f.word_tables.len() ==> !#[trigger] f.word_tables[i]
}

/// The words grouped for display: `lens` lists the lengths of the words, longest
/// first, and `gs[i]` holds the words of length `lens[i]` in capitals, in ascending
/// order.
pub open spec fn display_grouping(words: Seq<Seq<char>>, lens: Seq<usize>, gs: Seq<Seq<Seq<char>>>) -> bool {
    &&& decreasing(lens)
    &&& forall|n: usize| lens.contains(n) <==> length_occurs(words, LengthUnit::Characters, n)
    &&& gs.len() == lens.len()
    &&& forall|i: int| #![trigger gs[i]] 0 <= i < gs.len() ==> {
        &&& lex_sorted(gs[i])
        &&& gs[i].to_multiset() == upper_words(words_of_len(words, LengthUnit::Characters, lens[i])).to_multiset()
    }
}

/// The pieces of the text of a puzzle with the given date, grid and number of words,
/// whose words are grouped as `lens` and `gs` say: the title in bold cyan and the
/// date in yellow, each in 23 columns; the headings in bold; the grid's table; one
/// table per group; each styled as `f` says.
pub open spec fn puzzle_view(
    date: Seq<char>,
    grid: Seq<char>,
    total: usize,
    lens: Seq<usize>,
    gs: Seq<Seq<Seq<char>>>,
    f: RenderFlags,
) -> RenderedView {
    RenderedView {
        title: colored_writing(ColoredLook { input: "Daily Squaredle"@, bold: true, fg: Some(TextColor::Cyan) }, 23, f.title),
        date: colored_writing(ColoredLook { input: date, bold: false, fg: Some(TextColor::Yellow) }, 23, f.date),
        grid_heading: colored_writing(ColoredLook { input: "Grid:"@, bold: true, fg: None }, 0, f.grid_heading),
        grid_table: table_drawing(rounded_full_style(), None, grid_cells(grid), f.grid_table, f.grid_table_ansi),
        words_heading: colored_writing(ColoredLook { input: words_heading_text(total), bold: true, fg: None }, 0, f.words_heading),
        word_tables: Seq::new(
            lens.len(),
            |i: int| word_table_drawing(lens[i], gs[i], f.word_tables[i], f.word_tables_ansi[i]),
        ),
        summary_heading: colored_writing(ColoredLook { input: "Summary:"@, bold: true, fg: None }, 0, f.summary_heading),
    }
}

/// The puzzle as text for the terminal: a framed title and date, the grid, the
/// words grouped by length (longest first, in capitals and in order), the number of
/// words and a summary of the groups. With `colors` off, nothing in it is styled.
pub fn render_puzzle(data: &PuzzleData, colors: bool) -> (out: String)
    ensures
        exists|lens: Seq<usize>, gs: Seq<Seq<Seq<char>>>, f: RenderFlags|
            #![trigger puzzle_view(data.date@, data.grid@, data.words@.len() as usize, lens, gs, f)]
            {
                &&& display_grouping(data.words.deep_view(), lens, gs)
                &&& f.word_tables.len() == lens.len()
                &&& f.word_tables_ansi.len() == lens.len()
                &&& (!colors ==> no_colors(f))
                &&& out@ == puzzle_text(
                    puzzle_view(data.date@, data.grid@, data.words@.len() as usize, lens, gs, f),
                    data.words@.len() as usize,
                    summary_of(data.words.deep_view(), lens),
                )
            },
{
    broadcast use vstd::seq_lib::group_to_multiset_ensures;

    let ghost ws = data.words.deep_view();
    let ghost total = data.words@.len() as usize;

    let title_style = cyan(bold("Daily Squaredle"));
    let title = piece("Daily Squaredle", &title_style, 23, colors);
    let ghost f_title = choose|on: bool|
        title@ == colored_writing(colored_value(title_style)->0, 23, on) && (!colors ==> !on);

    let date_style = yellow(data.date.as_str());
    let date = piece(data.date.as_str(), &date_style, 23, colors);
    let ghost f_date = choose|on: bool|
        date@ == colored_writing(colored_value(date_style)->0, 23, on) && (!colors ==> !on);

    let grid_style = bold("Grid:");
    let grid_heading = piece("Grid:", &grid_style, 0, colors);
    let ghost f_grid_heading = choose|on: bool|
        grid_heading@ == colored_writing(colored_value(grid_style)->0, 0, on) && (!colors ==> !on);

    let grid_table = grid_table_text(data.grid.as_str(), colors);
    let ghost (f_grid_table, f_grid_ansi) = choose|styled: bool, ansi_colors: bool|
        grid_table@ == table_drawing(rounded_full_style(), None, grid_cells(data.grid@), styled, ansi_colors)
            && (!colors ==> !styled);

    let heading_text = words_heading(data.words.len());
    let heading_style = bold(heading_text.as_str());
    let words_heading_piece = piece(heading_text.as_str(), &heading_style, 0, colors);
    let ghost f_words_heading = choose|on: bool|
        words_heading_piece@ == colored_writing(colored_value(heading_style)->0, 0, on) && (!colors ==> !on);

    let groups = display_groups(&data.words);
    let ghost lens = group_lengths(groups@);
    let ghost gs = groups@.map_values(|g: WordGroup| g.words.deep_view());
    let ghost mut flags: Seq<bool> = Seq::empty();
    let ghost mut ansi_flags: Seq<bool> = Seq::empty();
    let mut tables: Vec<String> = Vec::new();
    let mut parts: Vec<String> = Vec::new();
    let mut i: usize = 0;
    while i < groups.len()
        invariant
            i <= groups@.len(),
            lens == group_lengths(groups@),
            gs == groups@.map_values(|g: WordGroup| g.words.deep_view()),
            ws == data.words.deep_view(),
            forall|j: int| #![trigger groups@[j]] 0 <= j < groups@.len() ==> {
                &&& groups@[j].words.deep_view().to_multiset()
                    == upper_words(words_of_len(ws, LengthUnit::Characters, groups@[j].length)).to_multiset()
            },
            tables@.len() == i,
            flags.len() == i,
            ansi_flags.len() == i,
            forall|j: int| #![trigger tables@[j]] 0 <= j < i ==> {
                &&& tables@[j]@ == word_table_drawing(lens[j], gs[j], flags[j], ansi_flags[j])
                &&& (!colors ==> !flags[j])
            },
            parts.deep_view() == lens.take(i as int).map_values(
                |n: usize| summary_part_text(n, words_of_len(ws, LengthUnit::Characters, n).len() as usize),
            ),
        decreases groups@.len() - i,
    {
        let g = &groups[i];
        let table = word_table_text(g, colors);
        proof {
            let (styled, ansi_colors) = choose|styled: bool, ansi_colors: bool|
                table@ == word_table_drawing(g.length, g.words.deep_view(), styled, ansi_colors)
                    && (!colors ==> !styled);
            assert(gs[i as int] == g.words.deep_view());
            assert(lens[i as int] == g.length);
            flags = flags.push(styled);
            ansi_flags = ansi_flags.push(ansi_colors);
        }
        let ghost before_tables = tables@;
        tables.push(table);
        assert(tables@ == before_tables.push(table));
        proof {
            let same = words_of_len(ws, LengthUnit::Characters, g.length);
            assert(groups@[i as int].words.deep_view().to_multiset() == upper_words(same).to_multiset());
            assert(g.words.deep_view().len() == g.words@.len());
            vstd::seq_lib::to_multiset_len(g.words.deep_view());
            vstd::seq_lib::to_multiset_len(upper_words(same));
            assert(g.words@.len() == same.len());
        }
        let p = summary_part(g.length, g.words.len());
        let ghost before = parts.deep_view();
        parts.push(p);
        assert(parts.deep_view() =~= before.push(p@));
        assert(lens.take(i as int + 1) =~= lens.take(i as int).push(g.length));
        assert(parts.deep_view() =~= lens.take(i as int + 1).map_values(
            |n: usize| summary_part_text(n, words_of_len(ws, LengthUnit::Characters, n).len() as usize),
        ));
        i = i + 1;
    }
    assert(lens.take(groups@.len() as int) == lens);
    let summary = summary_lines(&parts);
    let summary_style = bold("Summary:");
    let summary_heading = piece("Summary:", &summary_style, 0, colors);
    let ghost f_summary_heading = choose|on: bool|
        summary_heading@ == colored_writing(colored_value(summary_style)->0, 0, on) && (!colors ==> !on);

    let r = RenderedParts {
        title,
        date,
        grid_heading,
        grid_table,
        words_heading: words_heading_piece,
        word_tables: tables,
        summary_heading,
    };
    let out = layout_puzzle(&r, data.words.len(), &summary);
    proof {
        let f = RenderFlags {
            title: f_title,
            date: f_date,
            grid_heading: f_grid_heading,
            grid_table: f_grid_table,
            grid_table_ansi: f_grid_ansi,
            words_heading: f_words_heading,
            word_tables: flags,
            word_tables_ansi: ansi_flags,
            summary_heading: f_summary_heading,
        };
        let view = puzzle_view(data.date@, data.grid@, total, lens, gs, f);
        assert(r@.word_tables =~= view.word_tables);
        assert(r@ == view);
        assert(summary.deep_view() == summary_of(ws, lens));
        assert forall|j: int| #![trigger gs[j]] 0 <= j < gs.len() implies {
            &&& lex_sorted(gs[j])
            &&& gs[j].to_multiset() == upper_words(words_of_len(ws, LengthUnit::Characters, lens[j])).to_multiset()
        } by {
            assert(gs[j] == groups@[j].words.deep_view());
        }
        assert(display_grouping(ws, lens, gs));
        if !colors {
            assert forall|j: int| 0 <= j < f.word_tables.len() implies !#[trigger] f.word_tables[j] by {
                assert(tables@[j]@ == word_table_drawing(lens[j], gs[j], flags[j], ansi_flags[j]));
            }
        }
        assert(!colors ==> no_colors(f));
        assert(out@ == puzzle_text(view, total, summary_of(ws, lens)));
    }
    out
}

/// The puzzle as text for the terminal, styled by `colored` and `comfy_table`
/// wherever they style: [`render_puzzle`] with colours on.
pub fn format_puzzle(data: &PuzzleData) -> (out: String)
    ensures
        exists|lens: Seq<usize>, gs: Seq<Seq<Seq<char>>>, f: RenderFlags|
            #![trigger puzzle_view(data.date@, data.grid@, data.words@.len() as usize, lens, gs, f)]
            {
                &&& display_grouping(data.words.deep_view(), lens, gs)
                &&& f.word_tables.len() == lens.len()
                &&& f.word_tables_ansi.len() == lens.len()
                &&& out@ == puzzle_text(
                    puzzle_view(data.date@, data.grid@, data.words@.len() as usize, lens, gs, f),
                    data.words@.len() as usize,
                    summary_of(data.words.deep_view(), lens),
                )
            },
{
    render_puzzle(data, true)
}

/// What the JSON output of a puzzle holds, before it is serialised.
pub struct JsonReport {
    pub date: String,
    pub grid: String,
    /// The rows of the grid: the pieces of `grid` between dashes.
    pub grid_rows: Vec<String>,
    pub words: Vec<String>,
    pub word_count: usize,
    /// The words grouped by their length in UTF-8 bytes, shortest first, each group
    /// in puzzle order.
    pub by_length: Vec<WordGroup>,
}

/// A copy of a list of strings.
fn copy_strings(v: &Vec<String>) -> (out: Vec<String>)
    ensures
        out.deep_view() == v.deep_view(),
{
    let mut out: Vec<String> = Vec::new();
    let mut i: usize = 0;
    while i < v.len()
        invariant
            i <= v@.len(),
            out.deep_view() == v.deep_view().take(i as int),
        decreases v@.len() - i,
    {
        let s = v[i].clone();
        let ghost before = out.deep_view();
        out.push(s);
        assert(out.deep_view() =~= before.push(v@[i as int]@));
        assert(v.deep_view().take(i as int + 1) =~= v.deep_view().take(i as int).push(v@[i as int]@));
        i = i + 1;
    }
    assert(v.deep_view().take(v@.len() as int) == v.deep_view());
    out
}

/// The contents of the JSON output of a puzzle: its date, grid, grid rows, words,
/// number of words, and words grouped by length.
pub fn json_report(data: &PuzzleData) -> (r: JsonReport)
    ensures
        r.date@ == data.date@,
        r.grid@ == data.grid@,
        r.grid_rows.deep_view() == split_on(data.grid@, '-'),
        r.words.deep_view() == data.words.deep_view(),
        r.word_count == data.words@.len(),
        increasing(group_lengths(r.by_length@)),
        forall|n: usize| group_lengths(r.by_length@).contains(n) <==> length_occurs(data.words.deep_view(), LengthUnit::Bytes, n),
        forall|i: int| #![trigger r.by_length@[i]] 0 <= i < r.by_length@.len()
            ==> r.by_length@[i].words.deep_view() == words_of_len(data.words.deep_view(), LengthUnit::Bytes, r.by_length@[i].length),
{
    JsonReport {
        date: data.date.clone(),
        grid: data.grid.clone(),
        grid_rows: split_text(data.grid.as_str(), '-'),
        words: copy_strings(&data.words),
        word_count: data.words.len(),
        by_length: groups_by_length(&data.words, LengthUnit::Bytes),
    }
}

/// How many words the groups of the lengths `lens` hold together.
pub open spec fn group_total(words: Seq<Seq<char>>, unit: LengthUnit, lens: Seq<usize>) -> nat
    decreases lens.len(),
{
    if lens.len() == 0 {
        0
    } else {
        group_total(words, unit, lens.drop_last()) + words_of_len(words, unit, lens.last()).len()
    }
}

/// How many times `n` occurs in `lens`.
spec fn occurrences(lens: Seq<usize>, n: usize) -> nat
    decreases lens.len(),
{
    if lens.len() == 0 {
        0
    } else {
        occurrences(lens.drop_last(), n) + if lens.last() == n { 1nat } else { 0nat }
    }
}

/// How many words have a length listed in `lens`.
spec fn words_listed(words: Seq<Seq<char>>, unit: LengthUnit, lens: Seq<usize>) -> nat
    decreases words.len(),
{
    if words.len() == 0 {
        0
    } else {
        words_listed(words.drop_last(), unit, lens) + if lens.contains(word_length(unit, words.last())) { 1nat } else { 0nat }
    }
}

proof fn lemma_group_total_push(words: Seq<Seq<char>>, unit: LengthUnit, w: Seq<char>, lens: Seq<usize>)
    ensures
        group_total(words.push(w), unit, lens) == group_total(words, unit, lens) + occurrences(lens, word_length(unit, w)),
    decreases lens.len(),
{
    if lens.len() > 0 {
        lemma_group_total_push(words, unit, w, lens.drop_last());
        assert(words.push(w).drop_last() == words);
    }
}

proof fn lemma_occurrences_distinct(lens: Seq<usize>, n: usize)
    requires
        forall|i: int, j: int| 0 <= i < j < lens.len() ==> lens[i] != lens[j],
    ensures
        occurrences(lens, n) == if lens.contains(n) { 1nat } else { 0nat },
    decreases lens.len(),
{
    if lens.len() > 0 {
        let rest = lens.drop_last();
        lemma_occurrences_distinct(rest, n);
        if lens.last() == n {
            assert(!rest.contains(n)) by {
                if rest.contains(n) {
                    let i = choose|i: int| 0 <= i < rest.len() && rest[i] == n;
                    assert(lens[i] == lens[lens.len() - 1]);
                }
            }
            assert(lens.contains(n)) by {
                assert(lens[lens.len() - 1] == n);
            }
        } else {
            assert(lens.contains(n) == rest.contains(n)) by {
                if lens.contains(n) {
                    let i = choose|i: int| 0 <= i < lens.len() && lens[i] == n;
                    assert(rest[i] == n);
                }
                if rest.contains(n) {
                    let i = choose|i: int| 0 <= i < rest.len() && rest[i] == n;
                    assert(lens[i] == n);
                }
            }
        }
    }
}

proof fn lemma_group_total_counts(words: Seq<Seq<char>>, unit: LengthUnit, lens: Seq<usize>)
    requires
        forall|i: int, j: int| 0 <= i < j < lens.len() ==> lens[i] != lens[j],
    ensures
        group_total(words, unit, lens) == words_listed(words, unit, lens),
    decreases words.len(),
{
    if words.len() == 0 {
        lemma_group_total_empty(words, unit, lens);
    } else {
        let rest = words.drop_last();
        lemma_group_total_counts(rest, unit, lens);
        assert(rest.push(words.last()) == words);
        lemma_group_total_push(rest, unit, words.last(), lens);
        lemma_occurrences_distinct(lens, word_length(unit, words.last()));
    }
}

proof fn lemma_group_total_empty(words: Seq<Seq<char>>, unit: LengthUnit, lens: Seq<usize>)
    requires
        words.len() == 0,
    ensures
        group_total(words, unit, lens) == 0,
    decreases lens.len(),
{
    if lens.len() > 0 {
        lemma_group_total_empty(words, unit, lens.drop_last());
    }
}

proof fn lemma_words_listed_all(words: Seq<Seq<char>>, unit: LengthUnit, lens: Seq<usize>)
    requires
        forall|i: int| 0 <= i < words.len() ==> lens.contains(#[trigger] word_length(unit, words[i])),
    ensures
        words_listed(words, unit, lens) == words.len(),
    decreases words.len(),
{
    if words.len() > 0 {
        let rest = words.drop_last();
        assert forall|i: int| 0 <= i < rest.len() implies lens.contains(#[trigger] word_length(unit, rest[i])) by {
            assert(rest[i] == words[i]);
        }
        lemma_words_listed_all(rest, unit, lens);
        assert(lens.contains(word_length(unit, words[words.len() - 1])));
    }
}

/// The groups hold every word once: where `lens` lists each length of the words
/// once, the sizes of the groups of those lengths add up to the number of words.
/// (So the counts of the summary add up to the total.)
pub proof fn lemma_groups_cover_words(words: Seq<Seq<char>>, unit: LengthUnit, lens: Seq<usize>)
    requires
        forall|i: int, j: int| 0 <= i < j < lens.len() ==> lens[i] != lens[j],
        forall|n: usize| lens.contains(n) <==> length_occurs(words, unit, n),
    ensures
        group_total(words, unit, lens) == words.len(),
{
    lemma_group_total_counts(words, unit, lens);
    assert forall|i: int| 0 <= i < words.len() implies lens.contains(#[trigger] word_length(unit, words[i])) by {
        assert(length_occurs(words, unit, word_length(unit, words[i])));
    }
    lemma_words_listed_all(words, unit, lens);
}

/// The words of a length are the words of that length in the list, every one of
/// them, in the list's order.
pub proof fn lemma_words_of_len_keeps_order(words: Seq<Seq<char>>, unit: LengthUnit, n: usize)
    ensures
        words_of_len(words, unit, n) == words.filter(|w: Seq<char>| word_length(unit, w) == n),
    decreases words.len(),
{
    reveal(Seq::filter);
    if words.len() > 0 {
        lemma_words_of_len_keeps_order(words.drop_last(), unit, n);
    }
}

/// The rows of a table of words: there are as many as it takes to hold the words
/// four at a time, and row `i` is words `4i` to `4i + 3` (as many as there are),
/// two spaces apart. So every word is in exactly one row, in order.
pub proof fn lemma_rows_hold_every_word(words: Seq<Seq<char>>)
    ensures
        chunk_rows(words).len() == (words.len() + 3) / 4,
        forall|i: int| #![trigger chunk_rows(words)[i]] 0 <= i < chunk_rows(words).len() ==>
            chunk_rows(words)[i] == join_seq(
                words.subrange(4 * i, if 4 * i + 4 <= words.len() { 4 * i + 4 } else { words.len() as int }),
                "  "@,
            ),
    decreases words.len(),
{
    if words.len() == 0 {
    } else if words.len() <= 4 {
        assert(words.subrange(0, words.len() as int) == words);
    } else {
        let rest = words.skip(4);
        lemma_rows_hold_every_word(rest);
        let rows = chunk_rows(words);
        assert(rows == seq![join_seq(words.take(4), "  "@)] + chunk_rows(rest));
        assert forall|i: int| 0 <= i < rows.len() implies #[trigger] rows[i] == join_seq(
            words.subrange(4 * i, if 4 * i + 4 <= words.len() { 4 * i + 4 } else { words.len() as int }),
            "  "@,
        ) by {
            if i == 0 {
                assert(words.subrange(0, 4) == words.take(4));
            } else {
                assert(rows[i] == chunk_rows(rest)[i - 1]);
                let end = if 4 * (i - 1) + 4 <= rest.len() { 4 * (i - 1) + 4 } else { rest.len() as int };
                assert(rest.subrange(4 * (i - 1), end) == words.subrange(4 * i, end + 4));
            }
        }
    }
}

/// Row `k` of the grid's table holds, cell by cell, the letters of the `k`-th piece
/// of the grid between dashes, in order: the rows come in the board's order.
pub proof fn lemma_grid_rows_in_board_order(grid: Seq<char>)
    ensures
        grid_cells(grid).len() == split_on(grid, '-').len(),
        forall|k: int| #![trigger grid_cells(grid)[k]] 0 <= k < grid_cells(grid).len() ==> {
            &&& grid_cells(grid)[k].len() == split_on(grid, '-')[k].len()
            &&& forall|j: int| 0 <= j < split_on(grid, '-')[k].len()
                ==> #[trigger] grid_cells(grid)[k][j] == letter_cell(split_on(grid, '-')[k][j])
        },
{
}

} // verus!
