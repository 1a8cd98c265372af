use vstd::prelude::*;
use vstd::utf8::{decode_utf8, encode_utf8, valid_utf8};
use base64::Engine as _;

use crate::scan::{
    lemma_non_empty, lemma_non_empty_keeps_every_nonempty_piece, lemma_split_pieces_lack_separator, non_empty,
    split_on, split_text,
};
use crate::text::{chars_of, decimal, lemma_encode_utf8_push, push_char, push_decimal, push_str, utf8_width};

verus! {

/// The alphabet of the substitution cipher, in cipher order.
pub open spec fn alphabet() -> Seq<char> {
    seq![
        '5', 'p', 'y', 'f', '0', 'g', 'c', 'r', 'l', '1', 'a', '9', 'o',
        'e', '3', 'u', 'i', '8', 'd', '2', 'h', 't', 'n', '6', '7', 's',
        'q', 'j', 'k', 'x', 'b', 'm', 'w', '4', 'v', 'z', 'P', 'Y', 'F',
        'G', 'C', 'R', 'L', 'A', 'O', 'E', 'U', 'I', 'D', 'H', 'T', 'N',
        'S', 'Q', 'J', 'K', 'X', 'B', 'M', 'W', 'V', 'Z'
    ]
}

/// The position of `c` in the alphabet, or -1 where `c` is not in it.
pub open spec fn alphabet_pos(c: char) -> int {
    match c {
        '5' => 0, 'p' => 1, 'y' => 2, 'f' => 3, '0' => 4, 'g' => 5, 'c' => 6, 'r' => 7,
        'l' => 8, '1' => 9, 'a' => 10, '9' => 11, 'o' => 12, 'e' => 13, '3' => 14, 'u' => 15,
        'i' => 16, '8' => 17, 'd' => 18, '2' => 19, 'h' => 20, 't' => 21, 'n' => 22, '6' => 23,
        '7' => 24, 's' => 25, 'q' => 26, 'j' => 27, 'k' => 28, 'x' => 29, 'b' => 30, 'm' => 31,
        'w' => 32, '4' => 33, 'v' => 34, 'z' => 35, 'P' => 36, 'Y' => 37, 'F' => 38, 'G' => 39,
        'C' => 40, 'R' => 41, 'L' => 42, 'A' => 43, 'O' => 44, 'E' => 45, 'U' => 46, 'I' => 47,
        'D' => 48, 'H' => 49, 'T' => 50, 'N' => 51, 'S' => 52, 'Q' => 53, 'J' => 54, 'K' => 55,
        'X' => 56, 'B' => 57, 'M' => 58, 'W' => 59, 'V' => 60, 'Z' => 61,
        _ => -1,
    }
}

/// The plain character that the cipher character `c` stands for: a character of the
/// alphabet is replaced by the one twelve places before it (wrapping around); any
/// other character stands for itself.
pub open spec fn decode_char(c: char) -> char {
    let p = alphabet_pos(c);
    if p >= 0 {
        alphabet()[if p < 12 { p + 50 } else { p - 12 }]
    } else {
        c
    }
}

/// The cipher character that an encoder writes for `c`: twelve places further on in
/// the alphabet; any other character is left as it is.
pub open spec fn encode_char(c: char) -> char {
    let p = alphabet_pos(c);
    if p >= 0 {
        alphabet()[if p < 50 { p + 12 } else { p - 50 }]
    } else {
        c
    }
}

proof fn lemma_alphabet_pos()
    ensures
        alphabet().len() == 62,
        forall|i: int| 0 <= i < 62 ==> #[trigger] alphabet_pos(alphabet()[i]) == i,
        forall|i: int| 0 <= i < 62 ==> (#[trigger] alphabet()[i] as u32) < 128,
        forall|c: char| #![trigger alphabet_pos(c)] -1 <= alphabet_pos(c) < 62,
        forall|c: char| #![trigger alphabet_pos(c)] alphabet_pos(c) >= 0 ==> alphabet()[alphabet_pos(c)] == c,
{
    assert forall|i: int| 0 <= i < 62 implies #[trigger] alphabet_pos(alphabet()[i]) == i && (alphabet()[i] as u32) < 128 by {
    }
}

/// Decoding undoes encoding, and encoding undoes decoding: the cipher is a
/// permutation of the characters.
pub proof fn lemma_decode_inverts_encode(c: char)
    ensures
        decode_char(encode_char(c)) == c,
        encode_char(decode_char(c)) == c,
{
    lemma_alphabet_pos();
    let p = alphabet_pos(c);
    if p >= 0 {
        let e = if p < 50 { p + 12 } else { p - 50 };
        let d = if p < 12 { p + 50 } else { p - 12 };
        assert(alphabet_pos(alphabet()[e]) == e);
        assert(alphabet_pos(alphabet()[d]) == d);
        assert(alphabet()[p] == c);
    }
}

/// A character outside the alphabet decodes to itself, and a character of the
/// alphabet never does.
pub proof fn lemma_decode_fixes_exactly_non_alphabet(c: char)
    ensures
        (decode_char(c) == c) <==> !alphabet().contains(c),
{
    lemma_alphabet_pos();
    let p = alphabet_pos(c);
    if p >= 0 {
        let d = if p < 12 { p + 50 } else { p - 12 };
        assert(alphabet_pos(alphabet()[d]) == d);
        assert(alphabet()[p] == c);
    } else {
        if alphabet().contains(c) {
            let i = choose|i: int| 0 <= i < alphabet().len() && alphabet()[i] == c;
            assert(alphabet_pos(alphabet()[i]) == i);
        }
    }
}

/// The characters of the alphabet, in cipher order.
fn alphabet_chars() -> (v: Vec<char>)
    ensures
        v@ == alphabet(),
{
    let v = vec![
        '5', 'p', 'y', 'f', '0', 'g', 'c', 'r', 'l', '1', 'a', '9', 'o', 'e', '3', 'u',
        'i', '8', 'd', '2', 'h', 't', 'n', '6', '7', 's', 'q', 'j', 'k', 'x', 'b', 'm',
        'w', '4', 'v', 'z', 'P', 'Y', 'F', 'G', 'C', 'R', 'L', 'A', 'O', 'E', 'U', 'I',
        'D', 'H', 'T', 'N', 'S', 'Q', 'J', 'K', 'X', 'B', 'M', 'W', 'V', 'Z'
    ];
    assert(v@ == alphabet());
    v
}

/// True when entry `b` of `table` is the byte that the ASCII character `b` decodes to.
#[verifier::opaque]
pub open spec fn is_decode_table(table: Seq<u8>) -> bool {
    &&& table.len() == 128
    &&& forall|b: int| 0 <= b < 128 ==> #[trigger] table[b] as u32 == decode_char(b as char) as u32
}

/// The decoding table: entry `b` is the byte that the ASCII character `b` decodes to.
pub fn decode_table() -> (table: Vec<u8>)
    ensures
        table@.len() == 128,
        is_decode_table(table@),
{
    proof { lemma_alphabet_pos(); }
    let chars = alphabet_chars();
    let len = chars.len();
    let mut table: Vec<u8> = Vec::new();
    let mut i: usize = 0;
    while i < 128
        invariant
            i <= 128,
            table@.len() == i,
            forall|b: int| 0 <= b < i ==> #[trigger] table@[b] == b,
        decreases 128 - i,
    {
        table.push(i as u8);
        i = i + 1;
    }
    let mut idx: usize = 0;
    while idx < len
        invariant
            len == 62,
            chars@ == alphabet(),
            idx <= len,
            table@.len() == 128,
            forall|b: int| #![trigger table@[b]] 0 <= b < 128 ==> {
                let p = alphabet_pos(b as char);
                table@[b] as u32 == if 0 <= p < idx { alphabet()[if p < 12 { p + 50 } else { p - 12 }] as u32 } else { b as u32 }
            },
        decreases len - idx,
    {
        let ch = chars[idx];
        let new_idx = (idx + len - 12) % len;
        let target = chars[new_idx];
        assert(new_idx == if idx < 12 { idx + 50 } else { idx - 12 });
        assert(alphabet_pos(alphabet()[idx as int]) == idx);
        assert((alphabet()[new_idx as int] as u32) < 128);
        assert((ch as u32) < 128);
        table.set(ch as u32 as usize, target as u32 as u8);
        proof {
            assert forall|b: int| #![trigger table@[b]] 0 <= b < 128 implies {
                let p = alphabet_pos(b as char);
                table@[b] as u32 == if 0 <= p < idx + 1 { alphabet()[if p < 12 { p + 50 } else { p - 12 }] as u32 } else { b as u32 }
            } by {
                if b == ch as u32 {
                    assert(b as char == ch);
                }
            }
        }
        idx = idx + 1;
    }
    proof {
        reveal(is_decode_table);
        assert forall|b: int| 0 <= b < 128 implies #[trigger] table@[b] as u32 == decode_char(b as char) as u32 by {
        }
    }
    table
}

/// Why base64 decoding failed, as the `base64` crate reports it.
#[derive(Clone, Copy, Debug, PartialEq, Eq, Structural)]
pub enum Base64Error {
    /// A byte outside the alphabet, at `offset`.
    InvalidByte { offset: usize, byte: u8 },
    /// The input holds a number of symbols that no encoding has.
    InvalidLength { length: usize },
    /// The last symbol, at `offset`, has bits set that an encoder leaves clear.
    InvalidLastSymbol { offset: usize, byte: u8 },
    /// The padding is not canonical.
    InvalidPadding,
}

/// Why the decoded bytes are not UTF-8, as `String::from_utf8` reports it.
#[derive(Clone, Copy, Debug, PartialEq, Eq, Structural)]
pub struct Utf8Failure {
    /// Length of the longest prefix that is valid UTF-8.
    pub valid_up_to: usize,
    /// Length of the invalid sequence, or `None` where the input ends inside a sequence.
    pub error_len: Option<usize>,
}

/// Why a list of encoded words could not be decoded.
#[derive(Clone, Copy, Debug, PartialEq, Eq, Structural)]
pub enum DecodeError {
    /// The deciphered text is not valid base64.
    Base64(Base64Error),
    /// The base64 payload is not UTF-8 text.
    Utf8(Utf8Failure),
}

/// What `base64`'s standard engine (padding required) makes of the bytes of `input`.
pub uninterp spec fn base64_standard_decoded(input: Seq<char>) -> Result<Seq<u8>, Base64Error>;

/// How `String::from_utf8` describes its failure on `bytes`.
pub uninterp spec fn utf8_failure_of(bytes: Seq<u8>) -> Utf8Failure;

/// `base64::engine::general_purpose::STANDARD.decode` on the bytes of `input`.
/// The contract claims only that the result is the one the crate computes from
/// `input`, named `base64_standard_decoded`, with the error's variant and fields
/// carried over one for one.
#[verifier::external_body]
fn base64_standard_decode(input: &str) -> (res: Result<Vec<u8>, Base64Error>)
    ensures
        match res {
            Ok(bytes) => base64_standard_decoded(input@) == Ok::<Seq<u8>, Base64Error>(bytes@),
            Err(e) => base64_standard_decoded(input@) == Err::<Seq<u8>, Base64Error>(e),
        },
{
    match base64::engine::general_purpose::STANDARD.decode(input) {
        Ok(bytes) => Ok(bytes),
        Err(base64::DecodeError::InvalidByte(offset, byte)) => Err(Base64Error::InvalidByte { offset, byte }),
        Err(base64::DecodeError::InvalidLength(length)) => Err(Base64Error::InvalidLength { length }),
        Err(base64::DecodeError::InvalidLastSymbol(offset, byte)) => Err(Base64Error::InvalidLastSymbol { offset, byte }),
        Err(base64::DecodeError::InvalidPadding) => Err(Base64Error::InvalidPadding),
    }
}

/// `String::from_utf8`: it succeeds exactly on valid UTF-8, and then holds the
/// characters that the bytes encode. Of a failure it claims only that it is the one
/// std computes from `bytes`, named `utf8_failure_of`.
#[verifier::external_body]
fn string_from_utf8(bytes: Vec<u8>) -> (res: Result<String, Utf8Failure>)
    ensures
        res is Ok <==> valid_utf8(bytes@),
        res matches Ok(s) ==> s@ == decode_utf8(bytes@),
        res matches Err(e) ==> e == utf8_failure_of(bytes@),
{
    match String::from_utf8(bytes) {
        Ok(s) => Ok(s),
        Err(e) => Err(Utf8Failure { valid_up_to: e.utf8_error().valid_up_to(), error_len: e.utf8_error().error_len() }),
    }
}

/// Number of `=` that make a text of `byte_len` bytes a whole number of quads.
pub open spec fn padding_len(byte_len: nat) -> nat {
    ((4 - byte_len % 4) % 4) as nat
}

/// The text with every character deciphered.
pub open spec fn deciphered(encoded: Seq<char>) -> Seq<char> {
    encoded.map_values(|c: char| decode_char(c))
}

/// The base64 text that an encoded word list stands for: the deciphered text,
/// padded with `=` to a multiple of four bytes.
pub open spec fn base64_text(encoded: Seq<char>) -> Seq<char> {
    let d = deciphered(encoded);
    d + Seq::new(padding_len(encode_utf8(d).len()), |i: int| '=')
}

/// The text that an encoder writes for `t`: every character enciphered.
pub open spec fn enciphered(t: Seq<char>) -> Seq<char> {
    t.map_values(|c: char| encode_char(c))
}

/// What an encoder writes turns back into its base64 text: deciphering undoes the
/// cipher, and a well-formed base64 text (a whole number of quads) gets no padding.
pub proof fn lemma_base64_text_of_enciphered(t: Seq<char>)
    requires
        encode_utf8(t).len() % 4 == 0,
    ensures
        base64_text(enciphered(t)) == t,
{
    let d = deciphered(enciphered(t));
    assert forall|i: int| 0 <= i < t.len() implies d[i] == t[i] by {
        lemma_decode_inverts_encode(t[i]);
    }
    assert(d == t);
    assert(padding_len(encode_utf8(d).len()) == 0);
    assert(Seq::new(0, |i: int| '=') == Seq::<char>::empty());
}

/// Deciphering keeps the width of every character: the alphabet is ASCII, and any
/// other character stays as it is.
proof fn lemma_decode_char_width(c: char)
    ensures
        utf8_width(decode_char(c)) == utf8_width(c),
{
    lemma_alphabet_pos();
    let p = alphabet_pos(c);
    if p >= 0 {
        let d = if p < 12 { p + 50 } else { p - 12 };
        assert(alphabet()[p] == c);
        assert((alphabet()[p] as u32) < 128);
        assert((alphabet()[d] as u32) < 128);
    }
}

/// A deciphered text takes as many UTF-8 bytes as the text.
proof fn lemma_deciphered_byte_len(e: Seq<char>)
    ensures
        encode_utf8(deciphered(e)).len() == encode_utf8(e).len(),
    decreases e.len(),
{
    if e.len() > 0 {
        let rest = e.drop_last();
        lemma_deciphered_byte_len(rest);
        assert(rest.push(e.last()) == e);
        assert(deciphered(e) == deciphered(rest).push(decode_char(e.last())));
        lemma_encode_utf8_push(rest, e.last());
        lemma_encode_utf8_push(deciphered(rest), decode_char(e.last()));
        lemma_decode_char_width(e.last());
    }
}

/// `k` padding characters add `k` bytes.
proof fn lemma_padding_byte_len(s: Seq<char>, k: nat)
    ensures
        encode_utf8(s + Seq::new(k, |i: int| '=')).len() == encode_utf8(s).len() + k,
    decreases k,
{
    if k > 0 {
        let shorter = (k - 1) as nat;
        lemma_padding_byte_len(s, shorter);
        assert(s + Seq::new(k, |i: int| '=') == (s + Seq::new(shorter, |i: int| '=')).push('='));
        lemma_encode_utf8_push(s + Seq::new(shorter, |i: int| '='), '=');
    } else {
        assert(s + Seq::new(0, |i: int| '=') == s);
    }
}

/// `k` padding signs.
pub open spec fn padding_signs(k: nat) -> Seq<char> {
    Seq::new(k, |i: int| '=')
}

/// The base64 text is the deciphered text followed by the fewest `=` (fewer than
/// four) that make its UTF-8 length a whole number of quads.
pub proof fn lemma_base64_text_is_whole_quads(encoded: Seq<char>)
    ensures
        exists|k: nat| #![trigger padding_signs(k)] {
            &&& k < 4
            &&& base64_text(encoded) == deciphered(encoded) + padding_signs(k)
            &&& (encode_utf8(deciphered(encoded)).len() + k) % 4 == 0
        },
        encode_utf8(base64_text(encoded)).len() % 4 == 0,
{
    let d = deciphered(encoded);
    let k = padding_len(encode_utf8(d).len());
    lemma_padding_byte_len(d, k);
    assert(base64_text(encoded) == d + padding_signs(k));
}

/// Restoring the padding that an encoded word list lacks changes nothing of what it
/// decodes to: `=` deciphers to itself, and a padded text needs no more padding.
pub proof fn lemma_padding_restored(encoded: Seq<char>)
    ensures
        base64_text(encoded + Seq::new(padding_len(encode_utf8(encoded).len()), |i: int| '='))
            == base64_text(encoded),
        decoded_words(encoded + Seq::new(padding_len(encode_utf8(encoded).len()), |i: int| '='))
            == decoded_words(encoded),
{
    let k = padding_len(encode_utf8(encoded).len());
    let pad = Seq::new(k, |i: int| '=');
    let padded = encoded + pad;
    let d = deciphered(encoded);
    assert(alphabet_pos('=') == -1);
    assert(deciphered(padded) == d + pad);
    lemma_deciphered_byte_len(encoded);
    lemma_padding_byte_len(d, k);
    assert(padding_len(encode_utf8(d + pad).len()) == 0);
    assert(Seq::new(0, |i: int| '=') == Seq::<char>::empty());
    assert(base64_text(padded) == d + pad);
    assert(base64_text(encoded) == d + pad);
}

/// The words of `text`: the pieces between commas, empty pieces left out.
pub open spec fn comma_words(text: Seq<char>) -> Seq<Seq<char>> {
    non_empty(split_on(text, ','))
}

/// Every decoded word is non-empty and holds no comma.
pub proof fn lemma_words_are_nonempty_without_commas(text: Seq<char>)
    ensures
        forall|k: int| #![trigger comma_words(text)[k]] 0 <= k < comma_words(text).len() ==> {
            let w = comma_words(text)[k];
            w.len() > 0 && !w.contains(',')
        },
{
    let pieces = split_on(text, ',');
    lemma_split_pieces_lack_separator(text, ',');
    lemma_non_empty(pieces);
    assert forall|k: int| 0 <= k < comma_words(text).len() implies {
        let w = #[trigger] comma_words(text)[k];
        w.len() > 0 && !w.contains(',')
    } by {
        let j = choose|j: int| 0 <= j < pieces.len() && pieces[j] == non_empty(pieces)[k];
        assert(!pieces[j].contains(','));
    }
}

/// The words of a decoded text are all of its non-empty pieces between commas, in
/// order: none is dropped.
pub proof fn lemma_every_nonempty_piece_is_a_word(text: Seq<char>)
    ensures
        comma_words(text) == split_on(text, ',').filter(|w: Seq<char>| w.len() > 0),
{
    lemma_non_empty_keeps_every_nonempty_piece(split_on(text, ','));
}

/// What decoding the encoded word list `encoded` gives.
pub open spec fn decoded_words(encoded: Seq<char>) -> Result<Seq<Seq<char>>, DecodeError> {
    match base64_standard_decoded(base64_text(encoded)) {
        Err(e) => Err(DecodeError::Base64(e)),
        Ok(bytes) => words_of_bytes(bytes),
    }
}

/// The words that the UTF-8 text `bytes` lists, separated by commas.
pub open spec fn words_of_bytes(bytes: Seq<u8>) -> Result<Seq<Seq<char>>, DecodeError> {
    if valid_utf8(bytes) {
        Ok(comma_words(decode_utf8(bytes)))
    } else {
        Err(DecodeError::Utf8(utf8_failure_of(bytes)))
    }
}

/// The character that `c` deciphers to, looked up in `table`.
fn decipher_char(table: &Vec<u8>, c: char) -> (d: char)
    requires
        is_decode_table(table@),
    ensures
        d == decode_char(c),
{
    proof {
        lemma_alphabet_pos();
        reveal(is_decode_table);
    }
    if (c as u32) < 128 {
        let b = table[c as u32 as usize];
        assert(table@[c as u32 as int] as u32 == decode_char(c) as u32);
        b as char
    } else {
        assert(alphabet_pos(c) == -1);
        c
    }
}

/// Deciphers `encoded` and pads it with `=` to a whole number of base64 quads.
pub fn base64_text_of(encoded: &str) -> (res: String)
    ensures
        res@ == base64_text(encoded@),
{
    let table = decode_table();
    let chars = chars_of(encoded);
    let mut out = String::new();
    let mut len_mod4: usize = 0;
    let mut i: usize = 0;
    while i < chars.len()
        invariant
            is_decode_table(table@),
            chars@ == encoded@,
            i <= chars@.len(),
            out@ == deciphered(chars@.take(i as int)),
            len_mod4 == encode_utf8(out@).len() % 4,
        decreases chars@.len() - i,
    {
        let d = decipher_char(&table, chars[i]);
        let ghost before = out@;
        push_char(&mut out, d);
        let w: usize = if (d as u32) < 0x80 { 1 } else if (d as u32) < 0x800 { 2 } else if (d as u32) < 0x10000 { 3 } else { 4 };
        proof {
            assert(out@.drop_last() == before);
            lemma_encode_utf8_push(before, d);
            assert(encode_utf8(out@).len() == encode_utf8(before).len() + w);
            assert(chars@.take(i as int + 1) == chars@.take(i as int).push(chars@[i as int]));
            assert(deciphered(chars@.take(i as int + 1)) == deciphered(chars@.take(i as int)).push(d));
        }
        len_mod4 = (len_mod4 + w) % 4;
        i = i + 1;
    }
    assert(chars@.take(chars@.len() as int) == chars@);
    let ghost d = out@;
    let pad = (4 - len_mod4) % 4;
    let mut k: usize = 0;
    while k < pad
        invariant
            pad == padding_len(encode_utf8(d).len()),
            k <= pad,
            out@ == d + Seq::new(k as nat, |j: int| '='),
        decreases pad - k,
    {
        push_char(&mut out, '=');
        k = k + 1;
        assert(out@ == d + Seq::new(k as nat, |j: int| '='));
    }
    out
}

/// Splits `text` at commas and keeps the non-empty pieces, in order.
pub fn split_words(text: &str) -> (words: Vec<String>)
    ensures
        words.deep_view() == comma_words(text@),
{
    let pieces = split_text(text, ',');
    let mut words: Vec<String> = Vec::new();
    let mut i: usize = 0;
    assert(pieces.deep_view().take(0) == Seq::<Seq<char>>::empty());
    assert(words.deep_view() == Seq::<Seq<char>>::empty());
    while i < pieces.len()
        invariant
            i <= pieces@.len(),
            words.deep_view() == non_empty(pieces.deep_view().take(i as int)),
        decreases pieces@.len() - i,
    {
        let ghost taken = pieces.deep_view().take(i as int + 1);
        assert(taken.drop_last() == pieces.deep_view().take(i as int));
        assert(taken.last() == pieces@[i as int]@);
        if !pieces[i].as_str().is_empty() {
            let ghost before = words.deep_view();
            words.push(pieces[i].clone());
            assert(words.deep_view() =~= before.push(pieces@[i as int]@));
        }
        i = i + 1;
    }
    assert(pieces.deep_view().take(pieces@.len() as int) == pieces.deep_view());
    words
}

/// Reads `bytes` as UTF-8 text and lists its comma-separated words.
pub fn words_from_bytes(bytes: Vec<u8>) -> (res: Result<Vec<String>, DecodeError>)
    ensures
        match res {
            Ok(words) => words_of_bytes(bytes@) == Ok::<Seq<Seq<char>>, DecodeError>(words.deep_view()),
            Err(e) => words_of_bytes(bytes@) == Err::<Seq<Seq<char>>, DecodeError>(e),
        },
{
    match string_from_utf8(bytes) {
        Ok(text) => Ok(split_words(text.as_str())),
        Err(e) => Err(DecodeError::Utf8(e)),
    }
}

/// Decodes an encoded word list: deciphers it, pads it, decodes the base64 and
/// splits the text at commas, leaving out empty words.
pub fn decode_words(encoded: &str) -> (res: Result<Vec<String>, DecodeError>)
    ensures
        match res {
            Ok(words) => decoded_words(encoded@) == Ok::<Seq<Seq<char>>, DecodeError>(words.deep_view()),
            Err(e) => decoded_words(encoded@) == Err::<Seq<Seq<char>>, DecodeError>(e),
        },
{
    let text = base64_text_of(encoded);
    match base64_standard_decode(text.as_str()) {
        Err(e) => Err(DecodeError::Base64(e)),
        Ok(bytes) => words_from_bytes(bytes),
    }
}

impl Base64Error {
    /// The text that the `base64` crate displays for this error.
    pub open spec fn text(self) -> Seq<char> {
        match self {
            Base64Error::InvalidByte { offset, byte } =>
                "Invalid symbol "@ + decimal(byte as nat) + ", offset "@ + decimal(offset as nat) + "."@,
            Base64Error::InvalidLength { length } => "Invalid input length: "@ + decimal(length as nat),
            Base64Error::InvalidLastSymbol { offset, byte } =>
                "Invalid last symbol "@ + decimal(byte as nat) + ", offset "@ + decimal(offset as nat) + "."@,
            Base64Error::InvalidPadding => "Invalid padding"@,
        }
    }

    /// The error as text.
    pub fn message(&self) -> (m: String)
        ensures
            m@ == self.text(),
    {
        let mut m = String::new();
        match self {
            Base64Error::InvalidByte { offset, byte } => {
                push_str(&mut m, "Invalid symbol ");
                push_decimal(&mut m, *byte as u64);
                push_str(&mut m, ", offset ");
                push_decimal(&mut m, *offset as u64);
                push_str(&mut m, ".");
            },
            Base64Error::InvalidLength { length } => {
                push_str(&mut m, "Invalid input length: ");
                push_decimal(&mut m, *length as u64);
            },
            Base64Error::InvalidLastSymbol { offset, byte } => {
                push_str(&mut m, "Invalid last symbol ");
                push_decimal(&mut m, *byte as u64);
                push_str(&mut m, ", offset ");
                push_decimal(&mut m, *offset as u64);
                push_str(&mut m, ".");
            },
            Base64Error::InvalidPadding => {
                push_str(&mut m, "Invalid padding");
            },
        }
        m
    }
}

impl Utf8Failure {
    /// The text that std displays for this failure.
    pub open spec fn text(self) -> Seq<char> {
        match self.error_len {
            Some(n) => "invalid utf-8 sequence of "@ + decimal(n as nat) + " bytes from index "@
                + decimal(self.valid_up_to as nat),
            None => "incomplete utf-8 byte sequence from index "@ + decimal(self.valid_up_to as nat),
        }
    }

    /// The failure as text.
    pub fn message(&self) -> (m: String)
        ensures
            m@ == self.text(),
    {
        let mut m = String::new();
        match self.error_len {
            Some(n) => {
                push_str(&mut m, "invalid utf-8 sequence of ");
                push_decimal(&mut m, n as u64);
                push_str(&mut m, " bytes from index ");
                push_decimal(&mut m, self.valid_up_to as u64);
            },
            None => {
                push_str(&mut m, "incomplete utf-8 byte sequence from index ");
                push_decimal(&mut m, self.valid_up_to as u64);
            },
        }
        m
    }
}

impl DecodeError {
    /// The text of the underlying error.
    pub open spec fn text(self) -> Seq<char> {
        match self {
            DecodeError::Base64(e) => e.text(),
            DecodeError::Utf8(e) => e.text(),
        }
    }

    /// The error as text.
    pub fn message(&self) -> (m: String)
        ensures
            m@ == self.text(),
    {
        match self {
            DecodeError::Base64(e) => e.message(),
            DecodeError::Utf8(e) => e.message(),
        }
    }
}

} // verus!
