use base64::{engine::general_purpose, Engine as _};
use squaredle_cli::cipher::{base64_text_of, decode_table, decode_words, Base64Error, DecodeError, Utf8Failure};

const CHAR_MAP: &str = "5pyf0gcrl1a9oe3ui8d2htn67sqjkxbmw4vzPYFGCRLAOEUIDHTNSQJKXBMWVZ";

fn encode_table() -> [u8; 128] {
    let chars: Vec<u8> = CHAR_MAP.bytes().collect();
    let len = chars.len();
    let mut table = [0u8; 128];
    for i in 0..128u8 {
        table[i as usize] = i;
    }
    for (idx, &ch) in chars.iter().enumerate() {
        let new_idx = (idx + 12) % len;
        table[ch as usize] = chars[new_idx];
    }
    table
}

fn encode_mock(plain: &str) -> String {
    let table = encode_table();
    let b64 = general_purpose::STANDARD.encode(plain);
    b64.chars()
        .map(|c| {
            if c.is_ascii() {
                table[c as usize] as char
            } else {
                c
            }
        })
        .collect()
}

#[test]
fn test_decode_words() {
    let encoded = encode_mock("hello,world");
    let decoded = decode_words(&encoded).unwrap();
    assert_eq!(decoded, vec!["hello", "world"]);
}

#[test]
fn test_decode_with_padding() {
    let encoded = encode_mock("h");
    let decoded = decode_words(&encoded).unwrap();
    assert_eq!(decoded, vec!["h"]);
}

#[test]
fn test_invalid_base64() {
    let encode_table = encode_table();
    let encoded: String = "////"
        .chars()
        .map(|c| {
            if c.is_ascii() {
                encode_table[c as usize] as char
            } else {
                c
            }
        })
        .collect();

    assert!(decode_words(&encoded).is_err());
}

#[test]
fn test_decode_empty_string() {
    let encoded = encode_mock("");
    let decoded = decode_words(&encoded).unwrap();
    assert!(decoded.is_empty());
}

#[test]
fn test_non_map_chars_passthrough() {
    let table = decode_table();
    assert_eq!(table[b'=' as usize], b'=');
    assert_eq!(table[b'+' as usize], b'+');
    assert_eq!(table[b'/' as usize], b'/');
}

#[test]
fn test_decode_multi_words() {
    let encoded = encode_mock("alpha,bravo,charlie,delta,echo");
    let decoded = decode_words(&encoded).unwrap();
    assert_eq!(
        decoded,
        vec!["alpha", "bravo", "charlie", "delta", "echo"]
    );
}

#[test]
fn test_roundtrip_various_lengths() {
    for len in 1..=20 {
        let word: String = (0..len).map(|i| (b'a' + (i % 26)) as char).collect();
        let encoded = encode_mock(&word);
        let decoded = decode_words(&encoded).unwrap();
        assert_eq!(decoded, vec![word]);
    }
}

#[test]
fn decode_table_inverts_the_encoder_shift() {
    let decode = decode_table();
    let encode = encode_table();
    for b in 0..128usize {
        assert_eq!(decode[encode[b] as usize] as usize, b);
        assert_eq!(encode[decode[b] as usize] as usize, b);
    }
    assert_eq!(decode[b'5' as usize], b'T');
    assert_eq!(decode[b'p' as usize], b'N');
    assert_eq!(decode[b'Z' as usize], b'H');
}

#[test]
fn decode_words_drops_empty_pieces() {
    let encoded = encode_mock(",,alpha,,bravo,");
    assert_eq!(decode_words(&encoded).unwrap(), vec!["alpha", "bravo"]);
}

#[test]
fn decode_words_reports_base64_errors() {
    let err = decode_words("a").unwrap_err();
    let expected = general_purpose::STANDARD.decode("a===").unwrap_err().to_string();
    assert_eq!(err.message(), expected);
    assert!(matches!(err, DecodeError::Base64(_)));
}

#[test]
fn decode_words_reports_utf8_errors() {
    let err = decode_words("////").unwrap_err();
    let std_err = String::from_utf8(vec![0xff, 0xff, 0xff]).unwrap_err();
    assert_eq!(
        err,
        DecodeError::Utf8(Utf8Failure { valid_up_to: 0, error_len: Some(1) })
    );
    assert_eq!(err.message(), std_err.to_string());
}

#[test]
fn base64_error_messages_match_the_crate() {
    assert_eq!(
        Base64Error::InvalidByte { offset: 3, byte: 33 }.message(),
        base64::DecodeError::InvalidByte(3, 33).to_string()
    );
    assert_eq!(
        Base64Error::InvalidLength { length: 105 }.message(),
        base64::DecodeError::InvalidLength(105).to_string()
    );
    assert_eq!(
        Base64Error::InvalidLastSymbol { offset: 10, byte: 0 }.message(),
        base64::DecodeError::InvalidLastSymbol(10, 0).to_string()
    );
    assert_eq!(Base64Error::InvalidPadding.message(), "Invalid padding");
}

#[test]
fn utf8_failure_messages() {
    let incomplete = Utf8Failure { valid_up_to: 12, error_len: None };
    assert_eq!(incomplete.message(), "incomplete utf-8 byte sequence from index 12");
    let std_err = String::from_utf8(vec![b'a', 0xe2, 0x82]).unwrap_err();
    assert_eq!(
        Utf8Failure { valid_up_to: 1, error_len: None }.message(),
        std_err.to_string()
    );
}

#[test]
fn non_ascii_text_is_padded_by_bytes() {
    // "é" is two bytes: the deciphered text needs two `=` to reach four bytes,
    // and base64 then rejects the non-alphabet character.
    let text = squaredle_cli::cipher::base64_text_of("é");
    assert_eq!(text, "é==");
    assert!(decode_words("é").is_err());
}

#[test]
fn alphabet_characters_never_decode_to_themselves() {
    let decode = decode_table();
    for b in CHAR_MAP.bytes() {
        assert_ne!(decode[b as usize], b);
    }
    for b in 0..128u8 {
        if !CHAR_MAP.as_bytes().contains(&b) {
            assert_eq!(decode[b as usize], b);
        }
    }
}

#[test]
fn enciphered_base64_turns_back_into_itself() {
    for plain in ["hello", "hello,world", "ab", ""] {
        let b64 = general_purpose::STANDARD.encode(plain);
        let encoded = encode_mock(plain);
        assert_eq!(squaredle_cli::cipher::base64_text_of(&encoded), b64);
    }
}

#[test]
fn restored_padding_decodes_the_same() {
    let expected = vec!["hi".to_string()];
    assert_eq!(decode_words("nNC").unwrap(), expected);
    assert_eq!(decode_words("nNC=").unwrap(), expected);
    let words = vec!["hello".to_string(), "world".to_string()];
    assert_eq!(decode_words("nNaYLNxYbm63LNf").unwrap(), words);
    assert_eq!(decode_words("nNaYLNxYbm63LNf=").unwrap(), words);
    assert_eq!(base64_text_of("nNC"), base64_text_of("nNC="));
}
