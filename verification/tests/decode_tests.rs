//! Tests for the incremental decoder and the byte budget guard.

use fieldread::decode::{decode_bytes, DecodeState, Decoder};
use fieldread::stream::over_budget;

fn cs(s: &str) -> Vec<char> {
    s.chars().collect()
}

#[test]
fn split_multibyte_char_across_reads() {
    // A two-byte character fed one byte at a time: incomplete after the
    // first byte, complete after the second, exactly one character out.
    let mut dec = Decoder::new();
    let mut out: Vec<char> = Vec::new();
    let st1 = dec.feed(0xC3, &mut out);
    assert_eq!(st1, DecodeState::Incomplete);
    assert!(out.is_empty());
    let st2 = dec.feed(0xA9, &mut out);
    assert_eq!(st2, DecodeState::Complete);
    assert_eq!(out, cs("\u{e9}"));
}

#[test]
fn ascii_bytes_decode_directly() {
    let mut dec = Decoder::new();
    let mut out: Vec<char> = Vec::new();
    assert_eq!(dec.feed(b'h', &mut out), DecodeState::Complete);
    assert_eq!(dec.feed(b'i', &mut out), DecodeState::Complete);
    assert_eq!(out, cs("hi"));
}

#[test]
fn stray_continuation_byte_passes_through() {
    let mut dec = Decoder::new();
    let mut out: Vec<char> = Vec::new();
    let st = dec.feed(0xFF, &mut out);
    assert_eq!(st, DecodeState::Complete);
    assert_eq!(out, vec!['\u{F6FF}']);
}

#[test]
fn malformed_sequence_flushes_passthrough() {
    // A lead byte followed by a plain ASCII byte: the lead is emitted as
    // its passthrough character and the ASCII byte stands for itself.
    let mut dec = Decoder::new();
    let mut out: Vec<char> = Vec::new();
    assert_eq!(dec.feed(0xC3, &mut out), DecodeState::Incomplete);
    assert_eq!(dec.feed(b'(', &mut out), DecodeState::Complete);
    assert_eq!(out, vec!['\u{F6C3}', '(']);
}

#[test]
fn four_byte_character_decodes() {
    let mut dec = Decoder::new();
    let mut out: Vec<char> = Vec::new();
    assert_eq!(dec.feed(0xF0, &mut out), DecodeState::Incomplete);
    assert_eq!(dec.feed(0x9F, &mut out), DecodeState::Incomplete);
    assert_eq!(dec.feed(0x92, &mut out), DecodeState::Incomplete);
    assert_eq!(dec.feed(0x96, &mut out), DecodeState::Complete);
    assert_eq!(out, vec!['\u{1F496}']);
}

#[test]
fn bulk_decode_matches_incremental() {
    let bytes: Vec<u8> = "h\u{e9}llo".bytes().collect();
    let text = decode_bytes(&bytes);
    assert_eq!(text, cs("h\u{e9}llo"));
}

#[test]
fn bulk_decode_flushes_trailing_partial() {
    // A trailing incomplete sequence becomes passthrough characters.
    let bytes: Vec<u8> = vec![b'a', 0xC3];
    let text = decode_bytes(&bytes);
    assert_eq!(text, vec!['a', '\u{F6C3}']);
}

#[test]
fn budget_guard_thresholds() {
    // A ceiling of zero disables the check; otherwise the guard fires
    // strictly above the ceiling.
    assert!(!over_budget(1_000_000, 0));
    assert!(!over_budget(10, 10));
    assert!(over_budget(11, 10));
}
