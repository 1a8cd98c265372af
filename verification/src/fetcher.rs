use vstd::prelude::*;

use crate::cipher::{decode_words, decoded_words, DecodeError};
use crate::classes::{decimal_digit, is_decimal_digit, is_white_space, white_space};
use crate::scan::{
    copy_range, find_char, find_char_from, find_str, find_str_from, join_seq, join_texts,
    lemma_find_char, lemma_find_str, matches_at, replace_all, replace_all_chars, same_chars,
    starts_with_at,
};
use crate::text::{chars_of, string_of};

verus! {

/// A day's puzzle: its date, its grid (rows joined by `-`) and its words.
#[derive(Clone, Debug)]
pub struct PuzzleData {
    pub date: String,
    pub grid: String,
    pub words: Vec<String>,
}

/// The contents of a [`PuzzleData`] as mathematical values.
pub struct PuzzleView {
    pub date: Seq<char>,
    pub grid: Seq<char>,
    pub words: Seq<Seq<char>>,
}

impl View for PuzzleData {
    type V = PuzzleView;

    open spec fn view(&self) -> PuzzleView {
        PuzzleView { date: self.date@, grid: self.grid@, words: self.words.deep_view() }
    }
}

/// Why no puzzle could be read from a configuration script.
#[derive(Clone, Copy, Debug, PartialEq, Eq, Structural)]
pub enum ExtractError {
    /// The key that opens the day's entry does not occur.
    MissingPuzzleKey,
    /// No `"board": [...]` array was found.
    MissingBoardArray,
    /// The board array holds no row.
    NoBoardRows,
    /// A word list could not be decoded.
    Words(DecodeError),
}

impl ExtractError {
    /// The text of the error.
    pub open spec fn text(self) -> Seq<char> {
        match self {
            ExtractError::MissingPuzzleKey => "Could not locate puzzle key in response"@,
            ExtractError::MissingBoardArray => "Could not locate board array in response"@,
            ExtractError::NoBoardRows => "Board array found but no rows extracted"@,
            ExtractError::Words(e) => e.text(),
        }
    }

    /// The error as text.
    pub fn message(&self) -> (m: String)
        ensures
            m@ == self.text(),
    {
        match self {
            ExtractError::MissingPuzzleKey => string_of(chars_of("Could not locate puzzle key in response").as_slice()),
            ExtractError::MissingBoardArray => string_of(chars_of("Could not locate board array in response").as_slice()),
            ExtractError::NoBoardRows => string_of(chars_of("Board array found but no rows extracted").as_slice()),
            ExtractError::Words(e) => e.message(),
        }
    }
}

/// The first position at or after `i` that is not white space.
pub open spec fn skip_space(s: Seq<char>, i: int) -> int
    decreases s.len() - i,
{
    if 0 <= i < s.len() && is_white_space(s[i]) {
        skip_space(s, i + 1)
    } else {
        i
    }
}

/// Where the value lies when `key`, white space, `sep`, white space, `open`, a value
/// and `close` stand in `s` from position `p`: the value runs from just after `open`
/// to the first `close` after it, and must not be empty where `nonempty` holds.
pub open spec fn field_at(
    s: Seq<char>,
    p: int,
    key: Seq<char>,
    sep: char,
    open: char,
    close: char,
    nonempty: bool,
) -> Option<(int, int)> {
    if !starts_with_at(s, p, key) {
        None
    } else {
        let a = skip_space(s, p + key.len());
        if !(a < s.len() && s[a] == sep) {
            None
        } else {
            let b = skip_space(s, a + 1);
            if !(b < s.len() && s[b] == open) {
                None
            } else {
                match find_char(s, b + 1, close) {
                    Some(e) => if nonempty && e == b + 1 { None } else { Some((b + 1, e)) },
                    None => None,
                }
            }
        }
    }
}

/// The value of the leftmost such field that starts at or after `p`.
pub open spec fn first_field(
    s: Seq<char>,
    p: int,
    key: Seq<char>,
    sep: char,
    open: char,
    close: char,
    nonempty: bool,
) -> Option<(int, int)>
    decreases s.len() + 1 - p,
{
    if p < 0 || p > s.len() {
        None
    } else {
        match field_at(s, p, key, sep, open, close, nonempty) {
            Some(r) => Some(r),
            None => first_field(s, p + 1, key, sep, open, close, nonempty),
        }
    }
}

/// `gTodayDateStr = '...'`: the date of today's puzzle.
pub open spec fn date_field(s: Seq<char>) -> Option<(int, int)> {
    first_field(s, 0, "gTodayDateStr"@, '=', '\'', '\'', true)
}

/// `"board": [...]`: the rows of a grid.
pub open spec fn board_field(s: Seq<char>) -> Option<(int, int)> {
    first_field(s, 0, "\"board\""@, ':', '[', ']', false)
}

/// `"wordScores": "..."`: the encoded list of required words.
pub open spec fn word_scores_field(s: Seq<char>) -> Option<(int, int)> {
    first_field(s, 0, "\"wordScores\""@, ':', '"', '"', true)
}

/// `"optionalWordScores": "..."`: the encoded list of bonus words.
pub open spec fn optional_scores_field(s: Seq<char>) -> Option<(int, int)> {
    first_field(s, 0, "\"optionalWordScores\""@, ':', '"', '"', true)
}

/// True when the key of a dated entry, `,"20dd\/dd\/dd`, starts at `p`.
pub open spec fn date_key_at(s: Seq<char>, p: int) -> bool {
    &&& starts_with_at(s, p, ",\"20"@)
    &&& p + 14 <= s.len()
    &&& is_decimal_digit(s[p + 4]) && is_decimal_digit(s[p + 5])
    &&& s[p + 6] == '\\' && s[p + 7] == '/'
    &&& is_decimal_digit(s[p + 8]) && is_decimal_digit(s[p + 9])
    &&& s[p + 10] == '\\' && s[p + 11] == '/'
    &&& is_decimal_digit(s[p + 12]) && is_decimal_digit(s[p + 13])
}

/// The leftmost position at or after `p` where a dated key starts.
pub open spec fn first_date_key(s: Seq<char>, p: int) -> Option<int>
    decreases s.len() - p,
{
    if p < 0 || p >= s.len() {
        None
    } else if date_key_at(s, p) {
        Some(p)
    } else {
        first_date_key(s, p + 1)
    }
}

/// The strings quoted in `s` from position `i` on (a quote, at least one other
/// character, a quote; scanning goes on after the closing quote), except `board`.
pub open spec fn rows_from(s: Seq<char>, i: int) -> Seq<Seq<char>>
    decreases s.len() - i,
{
    if i < 0 || i >= s.len() {
        Seq::empty()
    } else if s[i] == '"' {
        proof {
            lemma_find_char(s, i + 1, '"');
        }
        match find_char(s, i + 1, '"') {
            Some(e) => if e > i + 1 {
                let q = s.subrange(i + 1, e);
                if q == "board"@ {
                    rows_from(s, e + 1)
                } else {
                    seq![q] + rows_from(s, e + 1)
                }
            } else {
                rows_from(s, i + 1)
            },
            None => rows_from(s, i + 1),
        }
    } else {
        rows_from(s, i + 1)
    }
}

/// Today's date as the script writes it in the key of its entry (`/` as `\/`).
pub open spec fn today_key_date(js: Seq<char>) -> Option<Seq<char>> {
    match date_field(js) {
        Some((a, b)) => Some(replace_all(js.subrange(a, b), "/"@, "\\/"@)),
        None => None,
    }
}

/// The key that opens the entry of today's puzzle.
pub open spec fn puzzle_key(js: Seq<char>) -> Seq<char> {
    match today_key_date(js) {
        Some(d) => "\""@ + d + "\":"@,
        None => "\"board\":"@,
    }
}

/// What follows the first occurrence of the key, up to its next occurrence.
pub open spec fn after_key(js: Seq<char>) -> Option<Seq<char>> {
    let key = puzzle_key(js);
    match find_str(js, 0, key) {
        None => None,
        Some(j) => {
            let e = j + key.len();
            let end = match find_str(js, e, key) {
                Some(k) => k,
                None => js.len() as int,
            };
            Some(js.subrange(e, end))
        },
    }
}

/// Today's entry: `rest` up to the first dated key in it.
pub open spec fn puzzle_block(rest: Seq<char>) -> Seq<char> {
    match first_date_key(rest, 0) {
        Some(m) => rest.take(m),
        None => rest,
    }
}

/// The inside of the board array: the one in today's entry, else the first in the script.
pub open spec fn board_inner(js: Seq<char>, block: Seq<char>) -> Option<Seq<char>> {
    match board_field(block) {
        Some((a, b)) => Some(block.subrange(a, b)),
        None => match board_field(js) {
            Some((a, b)) => Some(js.subrange(a, b)),
            None => None,
        },
    }
}

/// The words of an encoded list field of `block`; none where the field is absent.
pub open spec fn field_words(block: Seq<char>, field: Option<(int, int)>) -> Result<Seq<Seq<char>>, DecodeError> {
    match field {
        None => Ok(Seq::empty()),
        Some((a, b)) => decoded_words(block.subrange(a, b)),
    }
}

/// The date as reported: today's date with `\/` written `-`, or `unknown`.
pub open spec fn reported_date(js: Seq<char>) -> Seq<char> {
    let d = match today_key_date(js) {
        Some(d) => d,
        None => "unknown"@,
    };
    replace_all(d, "\\/"@, "-"@)
}

/// The puzzle that the configuration script `js` holds, or why there is none.
pub open spec fn extracted(js: Seq<char>) -> Result<PuzzleView, ExtractError> {
    match after_key(js) {
        None => Err(ExtractError::MissingPuzzleKey),
        Some(rest) => {
            let block = puzzle_block(rest);
            match board_inner(js, block) {
                None => Err(ExtractError::MissingBoardArray),
                Some(inner) => {
                    let rows = rows_from(inner, 0);
                    if rows.len() == 0 {
                        Err(ExtractError::NoBoardRows)
                    } else {
                        match field_words(block, word_scores_field(block)) {
                            Err(e) => Err(ExtractError::Words(e)),
                            Ok(required) => match field_words(block, optional_scores_field(block)) {
                                Err(e) => Err(ExtractError::Words(e)),
                                Ok(optional) => Ok(
                                    PuzzleView {
                                        date: reported_date(js),
                                        grid: join_seq(rows, "-"@),
                                        words: required + optional,
                                    },
                                ),
                            },
                        }
                    }
                },
            }
        },
    }
}

/// The first position at or after `i` that is not white space.
fn skip_white(s: &[char], i: usize) -> (j: usize)
    requires
        i <= s@.len(),
    ensures
        j == skip_space(s@, i as int),
        i <= j <= s@.len(),
{
    let mut j = i;
    while j < s.len() && white_space(s[j])
        invariant
            i <= j <= s@.len(),
            skip_space(s@, i as int) == skip_space(s@, j as int),
        decreases s@.len() - j,
    {
        j = j + 1;
    }
    j
}

/// The value of the field that starts at `p`, if one does (see [`field_at`]).
fn field_at_pos(
    s: &[char],
    p: usize,
    key: &[char],
    sep: char,
    open: char,
    close: char,
    nonempty: bool,
) -> (r: Option<(usize, usize)>)
    requires
        p <= s@.len(),
    ensures
        match r {
            Some((a, b)) => field_at(s@, p as int, key@, sep, open, close, nonempty) == Some((a as int, b as int)),
            None => field_at(s@, p as int, key@, sep, open, close, nonempty) is None,
        },
{
    if !matches_at(s, p, key) {
        return None;
    }
    assert(s@.len() == s.len());
    let a = skip_white(s, p + key.len());
    if !(a < s.len() && s[a] == sep) {
        return None;
    }
    let b = skip_white(s, a + 1);
    if !(b < s.len() && s[b] == open) {
        return None;
    }
    match find_char_from(s, b + 1, close) {
        Some(e) => if nonempty && e == b + 1 {
            None
        } else {
            Some((b + 1, e))
        },
        None => None,
    }
}

/// The value of the leftmost field of the given shape in `s` (see [`first_field`]).
fn first_field_in(
    s: &[char],
    key: &[char],
    sep: char,
    open: char,
    close: char,
    nonempty: bool,
) -> (r: Option<(usize, usize)>)
    ensures
        match r {
            Some((a, b)) => first_field(s@, 0, key@, sep, open, close, nonempty) == Some((a as int, b as int))
                && 0 <= a <= b <= s@.len(),
            None => first_field(s@, 0, key@, sep, open, close, nonempty) is None,
        },
{
    let mut p: usize = 0;
    while p <= s.len()
        invariant
            p <= s@.len() + 1,
            first_field(s@, 0, key@, sep, open, close, nonempty) == first_field(s@, p as int, key@, sep, open, close, nonempty),
        decreases s@.len() + 1 - p,
    {
        let r = field_at_pos(s, p, key, sep, open, close, nonempty);
        if let Some((a, b)) = r {
            proof {
                lemma_field_bounds(s@, p as int, key@, sep, open, close, nonempty);
            }
            return Some((a, b));
        }
        if p == s.len() {
            assert(first_field(s@, p + 1, key@, sep, open, close, nonempty) is None);
            return None;
        }
        p = p + 1;
    }
    None
}

/// A field's value lies inside the text.
proof fn lemma_field_bounds(s: Seq<char>, p: int, key: Seq<char>, sep: char, open: char, close: char, nonempty: bool)
    requires
        0 <= p <= s.len(),
    ensures
        field_at(s, p, key, sep, open, close, nonempty) matches Some((a, b)) ==> 0 <= a <= b < s.len(),
{
    if starts_with_at(s, p, key) {
        let a = skip_space(s, p + key.len());
        lemma_skip_space(s, p + key.len());
        if a < s.len() && s[a] == sep {
            let b = skip_space(s, a + 1);
            lemma_skip_space(s, a + 1);
            if b < s.len() && s[b] == open {
                lemma_find_char(s, b + 1, close);
            }
        }
    }
}

/// `skip_space` moves forward.
proof fn lemma_skip_space(s: Seq<char>, i: int)
    ensures
        skip_space(s, i) >= i,
        0 <= i <= s.len() ==> skip_space(s, i) <= s.len(),
    decreases s.len() - i,
{
    if 0 <= i < s.len() && is_white_space(s[i]) {
        lemma_skip_space(s, i + 1);
    }
}

/// Whether a dated key starts at `p` (see [`date_key_at`]).
fn date_key_at_pos(s: &[char], p: usize, prefix: &[char]) -> (r: bool)
    requires
        prefix@ == ",\"20"@,
    ensures
        r == date_key_at(s@, p as int),
{
    matches_at(s, p, prefix) && p <= s.len() && 14 <= s.len() - p
        && decimal_digit(s[p + 4]) && decimal_digit(s[p + 5])
        && s[p + 6] == '\\' && s[p + 7] == '/'
        && decimal_digit(s[p + 8]) && decimal_digit(s[p + 9])
        && s[p + 10] == '\\' && s[p + 11] == '/'
        && decimal_digit(s[p + 12]) && decimal_digit(s[p + 13])
}

/// The leftmost position where a dated key starts (see [`first_date_key`]).
fn first_date_key_in(s: &[char]) -> (r: Option<usize>)
    ensures
        match r {
            Some(m) => first_date_key(s@, 0) == Some(m as int) && m < s@.len(),
            None => first_date_key(s@, 0) is None,
        },
{
    let prefix = chars_of(",\"20");
    let mut p: usize = 0;
    while p < s.len()
        invariant
            prefix@ == ",\"20"@,
            p <= s@.len(),
            first_date_key(s@, 0) == first_date_key(s@, p as int),
        decreases s@.len() - p,
    {
        if date_key_at_pos(s, p, prefix.as_slice()) {
            return Some(p);
        }
        p = p + 1;
    }
    None
}

/// The rows quoted in the inside of a board array (see [`rows_from`]).
fn board_rows(s: &[char]) -> (rows: Vec<Vec<char>>)
    ensures
        rows.deep_view() == rows_from(s@, 0),
{
    let board = chars_of("board");
    let mut rows: Vec<Vec<char>> = Vec::new();
    let mut i: usize = 0;
    assert(rows.deep_view() == Seq::<Seq<char>>::empty());
    while i < s.len()
        invariant
            board@ == "board"@,
            i <= s@.len(),
            rows.deep_view() + rows_from(s@, i as int) == rows_from(s@, 0),
        decreases s@.len() - i,
    {
        if s[i] == '"' {
            proof {
                lemma_find_char(s@, i + 1, '"');
            }
            match find_char_from(s, i + 1, '"') {
                Some(e) => {
                    if e > i + 1 {
                        let q = copy_range(s, i + 1, e);
                        if !same_chars(q.as_slice(), board.as_slice()) {
                            let ghost before = rows.deep_view();
                            assert(q.deep_view() =~= q@);
                            rows.push(q);
                            assert(rows.deep_view() == before + seq![s@.subrange(i + 1, e as int)]);
                        }
                        i = e + 1;
                    } else {
                        i = i + 1;
                    }
                },
                None => {
                    i = i + 1;
                },
            }
        } else {
            i = i + 1;
        }
    }
    rows
}

/// The words of the encoded list field with key `key` in `block` (see [`field_words`]).
fn field_words_in(block: &[char], key: &[char]) -> (r: Result<Vec<String>, DecodeError>)
    ensures
        match r {
            Ok(w) => field_words(block@, first_field(block@, 0, key@, ':', '"', '"', true))
                == Ok::<Seq<Seq<char>>, DecodeError>(w.deep_view()),
            Err(e) => field_words(block@, first_field(block@, 0, key@, ':', '"', '"', true))
                == Err::<Seq<Seq<char>>, DecodeError>(e),
        },
{
    match first_field_in(block, key, ':', '"', '"', true) {
        Some((a, b)) => {
            let encoded = string_of(copy_range(block, a, b).as_slice());
            decode_words(encoded.as_str())
        },
        None => {
            let none: Vec<String> = Vec::new();
            assert(none.deep_view() == Seq::<Seq<char>>::empty());
            Ok(none)
        },
    }
}

/// Reads today's puzzle out of the configuration script `js_content`: the date
/// (`gTodayDateStr`, slashes as dashes, else `unknown`), the board rows of today's
/// entry joined by `-`, and the required then the bonus words, decoded.
pub fn extract_grid_and_words_from_js(js_content: &str) -> (res: Result<PuzzleData, ExtractError>)
    ensures
        match res {
            Ok(data) => extracted(js_content@) == Ok::<PuzzleView, ExtractError>(data@),
            Err(e) => extracted(js_content@) == Err::<PuzzleView, ExtractError>(e),
        },
{
    let js = chars_of(js_content);
    let ghost s = js@;

    let date_key = chars_of("gTodayDateStr");
    let slash = chars_of("/");
    let escaped_slash = chars_of("\\/");
    let today: Option<Vec<char>> = match first_field_in(js.as_slice(), date_key.as_slice(), '=', '\'', '\'', true) {
        Some((a, b)) => {
            let raw = copy_range(js.as_slice(), a, b);
            Some(replace_all_chars(raw.as_slice(), slash.as_slice(), escaped_slash.as_slice()))
        },
        None => None,
    };
    assert(match today { Some(d) => today_key_date(s) == Some(d@), None => today_key_date(s) is None });

    let key: Vec<char> = match &today {
        Some(d) => {
            let mut k = chars_of("\"");
            let mut middle = copy_range(d.as_slice(), 0, d.len());
            k.append(&mut middle);
            let mut tail = chars_of("\":");
            k.append(&mut tail);
            k
        },
        None => chars_of("\"board\":"),
    };
    assert(key@ == puzzle_key(s));

    let j = match find_str_from(js.as_slice(), 0, key.as_slice()) {
        Some(j) => j,
        None => {
            return Err(ExtractError::MissingPuzzleKey);
        },
    };
    proof {
        lemma_find_str(s, 0, key@);
        assert(starts_with_at(s, j as int, key@));
    }
    assert(key@.len() == key.len());
    assert(js@.len() == js.len());
    assert(j + key@.len() <= js@.len());
    let e = j + key.len();
    proof {
        lemma_find_str(s, e as int, key@);
    }
    let end = match find_str_from(js.as_slice(), e, key.as_slice()) {
        Some(k) => k,
        None => js.len(),
    };
    let rest = copy_range(js.as_slice(), e, end);
    assert(after_key(s) == Some(rest@));

    let block = match first_date_key_in(rest.as_slice()) {
        Some(m) => {
            let b = copy_range(rest.as_slice(), 0, m);
            assert(b@ == rest@.take(m as int));
            b
        },
        None => rest,
    };
    assert(block@ == puzzle_block(rest@));

    let board_key = chars_of("\"board\"");
    let inner = match first_field_in(block.as_slice(), board_key.as_slice(), ':', '[', ']', false) {
        Some((a, b)) => copy_range(block.as_slice(), a, b),
        None => match first_field_in(js.as_slice(), board_key.as_slice(), ':', '[', ']', false) {
            Some((a, b)) => copy_range(js.as_slice(), a, b),
            None => {
                return Err(ExtractError::MissingBoardArray);
            },
        },
    };
    assert(board_inner(s, block@) == Some(inner@));

    let rows = board_rows(inner.as_slice());
    if rows.len() == 0 {
        return Err(ExtractError::NoBoardRows);
    }
    let dash = chars_of("-");
    let grid = join_texts(&rows, dash.as_slice());

    let words_key = chars_of("\"wordScores\"");
    let mut words = match field_words_in(block.as_slice(), words_key.as_slice()) {
        Ok(w) => w,
        Err(err) => {
            return Err(ExtractError::Words(err));
        },
    };
    let optional_key = chars_of("\"optionalWordScores\"");
    let mut optional = match field_words_in(block.as_slice(), optional_key.as_slice()) {
        Ok(w) => w,
        Err(err) => {
            return Err(ExtractError::Words(err));
        },
    };
    let ghost required_view = words.deep_view();
    let ghost optional_view = optional.deep_view();
    words.append(&mut optional);
    assert(words.deep_view() == required_view + optional_view);

    let date_source = match today {
        Some(d) => d,
        None => chars_of("unknown"),
    };
    let date = replace_all_chars(date_source.as_slice(), escaped_slash.as_slice(), dash.as_slice());
    let data = PuzzleData {
        date: string_of(date.as_slice()),
        grid: string_of(grid.as_slice()),
        words,
    };
    assert(data@.words == required_view + optional_view);
    Ok(data)
}



/// Every row read from a board is non-empty, holds no quote and is not `board`.
pub proof fn lemma_rows_are_quoted_text(s: Seq<char>, i: int)
    requires
        0 <= i,
    ensures
        forall|k: int| #![trigger rows_from(s, i)[k]] 0 <= k < rows_from(s, i).len() ==> {
            let r = rows_from(s, i)[k];
            r.len() > 0 && !r.contains('"') && r != "board"@
        },
    decreases s.len() - i,
{
    if 0 <= i < s.len() {
        let mut next = i + 1;
        let mut row: Option<Seq<char>> = None;
        if s[i] == '"' {
            lemma_find_char(s, i + 1, '"');
            match find_char(s, i + 1, '"') {
                Some(e) => {
                    if e > i + 1 {
                        next = e + 1;
                        let q = s.subrange(i + 1, e);
                        assert(!q.contains('"')) by {
                            if q.contains('"') {
                                let k = choose|k: int| 0 <= k < q.len() && q[k] == '"';
                                assert(s[i + 1 + k] == '"');
                            }
                        }
                        if q != "board"@ {
                            row = Some(q);
                        }
                    }
                },
                None => {},
            }
        }
        lemma_rows_are_quoted_text(s, next);
        let rest = rows_from(s, next);
        match row {
            Some(q) => {
                assert(rows_from(s, i) == seq![q] + rest);
                assert forall|k: int| 0 <= k < rows_from(s, i).len() implies {
                    let r = #[trigger] rows_from(s, i)[k];
                    r.len() > 0 && !r.contains('"') && r != "board"@
                } by {
                    if k > 0 {
                        assert(rows_from(s, i)[k] == rest[k - 1]);
                    }
                }
            },
            None => {
                assert(rows_from(s, i) == rest);
            },
        }
    }
}

/// `first_date_key` finds the leftmost dated key at or after `p`, or tells that
/// there is none.
proof fn lemma_first_date_key(s: Seq<char>, p: int)
    requires
        0 <= p,
    ensures
        match first_date_key(s, p) {
            Some(m) => p <= m < s.len() && date_key_at(s, m) && forall|q: int| p <= q < m ==> !date_key_at(s, q),
            None => forall|q: int| p <= q ==> !date_key_at(s, q),
        },
    decreases s.len() - p,
{
    if p < s.len() && !date_key_at(s, p) {
        lemma_first_date_key(s, p + 1);
    }
    if p >= s.len() {
        assert forall|q: int| p <= q implies !date_key_at(s, q) by {}
    }
}

/// The day's entry never runs into the next dated entry: no dated key occurs in it.
pub proof fn lemma_block_holds_no_date_key(rest: Seq<char>)
    ensures
        forall|q: int| 0 <= q ==> !date_key_at(puzzle_block(rest), q),
{
    lemma_first_date_key(rest, 0);
    match first_date_key(rest, 0) {
        Some(m) => {
            let b = rest.take(m);
            assert forall|q: int| 0 <= q implies !date_key_at(b, q) by {
                if date_key_at(b, q) {
                    let lit = ",\"20"@;
                    assert(b.subrange(q, q + lit.len()) == rest.subrange(q, q + lit.len()));
                    assert(date_key_at(rest, q));
                }
            }
        },
        None => {},
    }
}

/// After escaping, no text starts with a bare slash.
proof fn lemma_escaped_starts_without_slash(d: Seq<char>)
    ensures
        replace_all(d, seq!['/'], seq!['\\', '/']).len() > 0 ==> replace_all(d, seq!['/'], seq!['\\', '/'])[0] != '/',
{
    let e = replace_all(d, seq!['/'], seq!['\\', '/']);
    if d.len() > 0 {
        if starts_with_at(d, 0, seq!['/']) {
            assert(e[0] == '\\');
        } else {
            assert(d.subrange(0, 1) == seq![d[0]]);
            assert(e[0] == d[0]);
        }
    }
}

/// Escaping every `/` as `\/` and then writing every `\/` as `-` is the same as
/// writing every `/` as `-`: the escapes added first are exactly what the second
/// step finds.
proof fn lemma_escape_then_dash_chars(d: Seq<char>)
    ensures
        replace_all(replace_all(d, seq!['/'], seq!['\\', '/']), seq!['\\', '/'], seq!['-'])
            == replace_all(d, seq!['/'], seq!['-']),
    decreases d.len(),
{
    let slash = seq!['/'];
    let esc = seq!['\\', '/'];
    let dash = seq!['-'];
    let e = replace_all(d, slash, esc);
    if d.len() > 0 {
        let tail = d.skip(1);
        assert(d.drop_first() == tail);
        lemma_escape_then_dash_chars(tail);
        let et = replace_all(tail, slash, esc);
        if starts_with_at(d, 0, slash) {
            assert(e == esc + et);
            assert(e.subrange(0, 2) == esc);
            assert(e.skip(2) == et);
        } else {
            assert(d.subrange(0, 1) == seq![d[0]]);
            assert(d[0] != '/');
            assert(e == seq![d[0]] + et);
            lemma_escaped_starts_without_slash(tail);
            assert(!starts_with_at(e, 0, esc)) by {
                if starts_with_at(e, 0, esc) {
                    assert(e.subrange(0, 2)[1] == '/');
                    assert(et[0] == '/');
                }
            }
            assert(e.drop_first() == et);
        }
    }
}

/// The reported date is today's date with every `/` written `-` (or `unknown`).
pub proof fn lemma_reported_date_uses_dashes(js: Seq<char>)
    ensures
        reported_date(js) == replace_all(
            match date_field(js) {
                Some((a, b)) => js.subrange(a, b),
                None => "unknown"@,
            },
            "/"@,
            "-"@,
        ),
{
    reveal_strlit("/");
    reveal_strlit("\\/");
    reveal_strlit("-");
    reveal_strlit("unknown");
    assert("/"@ == seq!['/']);
    assert("\\/"@ == seq!['\\', '/']);
    assert("-"@ == seq!['-']);
    match date_field(js) {
        Some((a, b)) => {
            lemma_escape_then_dash_chars(js.subrange(a, b));
        },
        None => {
            lemma_unknown_has_no_slash();
        },
    }
}

proof fn lemma_unknown_has_no_slash()
    ensures
        replace_all("unknown"@, seq!['\\', '/'], seq!['-']) == "unknown"@,
        replace_all("unknown"@, seq!['/'], seq!['-']) == "unknown"@,
{
    reveal_strlit("unknown");
    let u = "unknown"@;
    assert(u == seq!['u', 'n', 'k', 'n', 'o', 'w', 'n']);
    lemma_no_occurrence(u, seq!['\\', '/'], seq!['-']);
    lemma_no_occurrence(u, seq!['/'], seq!['-']);
}

/// A text in which `pat` does not occur is left as it is.
proof fn lemma_no_occurrence(s: Seq<char>, pat: Seq<char>, rep: Seq<char>)
    requires
        pat.len() > 0,
        forall|j: int| 0 <= j < s.len() ==> s[j] != pat[0],
    ensures
        replace_all(s, pat, rep) == s,
    decreases s.len(),
{
    if s.len() > 0 {
        assert(!starts_with_at(s, 0, pat)) by {
            if starts_with_at(s, 0, pat) {
                assert(s.subrange(0, pat.len() as int)[0] == s[0]);
            }
        }
        lemma_no_occurrence(s.drop_first(), pat, rep);
        assert(seq![s[0]] + s.drop_first() == s);
    }
}

/// The words of a puzzle read out of a script are its required words, then its
/// bonus words: the decoded `wordScores` list followed by the decoded
/// `optionalWordScores` list, each whole and in its own order.
pub proof fn lemma_required_words_come_first(js: Seq<char>)
    ensures
        extracted(js) is Ok ==> {
            let block = puzzle_block(after_key(js)->0);
            let required = field_words(block, word_scores_field(block));
            let optional = field_words(block, optional_scores_field(block));
            &&& required is Ok
            &&& optional is Ok
            &&& extracted(js)->Ok_0.words.take(required->Ok_0.len() as int) == required->Ok_0
            &&& extracted(js)->Ok_0.words.skip(required->Ok_0.len() as int) == optional->Ok_0
        },
{
    if extracted(js) is Ok {
        let block = puzzle_block(after_key(js)->0);
        let required = field_words(block, word_scores_field(block))->Ok_0;
        let optional = field_words(block, optional_scores_field(block))->Ok_0;
        let words = extracted(js)->Ok_0.words;
        assert(words == required + optional);
        assert(words.take(required.len() as int) == required);
        assert(words.skip(required.len() as int) == optional);
    }
}

} // verus!
