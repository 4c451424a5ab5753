//! Tests for the acquisition strategies, the splitters and the engine.

use fieldread::acquire::{
    choose_strategy, read_in_chunks, read_interactive, read_one_char_at_a_time, Strategy,
};
use fieldread::engine::{read, Controller, TokenSpan};
use fieldread::opts::{validate_read_args, Options, ReadError};
use fieldread::split::{split_about, split_per_char, split_string_tok};
use fieldread::stream::ByteStream;
use fieldread::AcquireResult;

fn cs(s: &str) -> Vec<char> {
    s.chars().collect()
}

fn text(v: &[char]) -> String {
    v.iter().collect()
}

#[test]
fn chunked_rollback_leaves_next_record() {
    // Reading "line1\nline2\n" with rollback consumes exactly "line1";
    // a second acquisition then yields "line2".
    let mut s = ByteStream::new(b"line1\nline2\n".to_vec());
    let (t1, r1) = read_in_chunks(&mut s, false, true, 0);
    assert_eq!(text(&t1), "line1");
    assert_eq!(r1, AcquireResult::Success);
    assert_eq!(s.position(), 6);
    let (t2, r2) = read_in_chunks(&mut s, false, true, 0);
    assert_eq!(text(&t2), "line2");
    assert_eq!(r2, AcquireResult::Success);
    assert_eq!(s.position(), 12);
}

#[test]
fn chunked_empty_input_is_cmd_failure() {
    let mut s = ByteStream::new(Vec::new());
    let (t, r) = read_in_chunks(&mut s, false, true, 0);
    assert!(t.is_empty());
    assert_eq!(r, AcquireResult::CmdFailure);
}

#[test]
fn strategies_agree_on_delimited_stream() {
    // Both byte strategies decode the same delimiter-terminated stream to
    // the same text and consume through the delimiter.
    let data = "h\u{e9}llo\nrest".bytes().collect::<Vec<u8>>();
    let mut s1 = ByteStream::new(data.clone());
    let (t1, r1) = read_in_chunks(&mut s1, false, true, 0);
    let mut s2 = ByteStream::new(data);
    let (t2, r2) = read_one_char_at_a_time(&mut s2, 0, false, 0);
    assert_eq!(t1, t2);
    assert_eq!(text(&t1), "h\u{e9}llo");
    assert_eq!(r1, AcquireResult::Success);
    assert_eq!(r2, AcquireResult::Success);
    assert_eq!(s1.position(), s2.position());
}

#[test]
fn byte_ceiling_truncates_overflow_char() {
    // With a ceiling of three and no delimiter anywhere, the fourth byte
    // pushes the count over: its character is excluded from the unit.
    let mut s = ByteStream::new(b"abcdef".to_vec());
    let (t, r) = read_one_char_at_a_time(&mut s, 0, false, 3);
    assert_eq!(r, AcquireResult::ReadTooMuch);
    assert_eq!(text(&t), "abc");
}

#[test]
fn byte_ceiling_chunked_keeps_over_budget_buffer() {
    // The chunked strategy reports the over-budget error but never
    // truncates: the whole accumulated chunk is returned.
    let data = vec![b'x'; 200];
    let mut s = ByteStream::new(data);
    let (t, r) = read_in_chunks(&mut s, false, true, 10);
    assert_eq!(r, AcquireResult::ReadTooMuch);
    assert_eq!(t.len(), 128);
}

#[test]
fn nchars_limit_stops_early() {
    let mut s = ByteStream::new(b"abcdef".to_vec());
    let (t, r) = read_one_char_at_a_time(&mut s, 2, false, 0);
    assert_eq!(r, AcquireResult::Success);
    assert_eq!(text(&t), "ab");
}

#[test]
fn null_split_terminates_at_nul() {
    let mut s = ByteStream::new(b"one\0two\0".to_vec());
    let (t, r) = read_one_char_at_a_time(&mut s, 0, true, 0);
    assert_eq!(r, AcquireResult::Success);
    assert_eq!(text(&t), "one");
}

#[test]
fn interactive_truncates_to_limit() {
    // An editing command may inject extra text; the excess is discarded.
    let (t, r) = read_interactive(Some(cs("abcdef")), 4);
    assert_eq!(r, AcquireResult::Success);
    assert_eq!(text(&t), "abcd");
    let (t2, r2) = read_interactive(Some(cs("ab")), 4);
    assert_eq!(r2, AcquireResult::Success);
    assert_eq!(text(&t2), "ab");
}

#[test]
fn interactive_cancellation_is_cmd_failure() {
    let (t, r) = read_interactive(None, 0);
    assert!(t.is_empty());
    assert_eq!(r, AcquireResult::CmdFailure);
}

#[test]
fn strategy_selection_rules() {
    // Terminal without NUL splitting: interactive.
    assert_eq!(choose_strategy(true, false, 0, false, false, false), Strategy::Interactive);
    // Terminal with NUL splitting: byte at a time.
    assert_eq!(choose_strategy(true, true, 0, false, false, false), Strategy::CharAtATime);
    // Seekable, no character limit, not per-record: chunked.
    assert_eq!(choose_strategy(false, false, 0, false, false, true), Strategy::Chunked);
    assert_eq!(choose_strategy(false, false, 0, false, true, false), Strategy::Chunked);
    // A character limit or per-record mode forces byte at a time.
    assert_eq!(choose_strategy(false, false, 5, false, true, false), Strategy::CharAtATime);
    assert_eq!(choose_strategy(false, false, 0, true, true, false), Strategy::CharAtATime);
    // Neither seekable nor exclusively owned: byte at a time.
    assert_eq!(choose_strategy(false, false, 0, false, false, false), Strategy::CharAtATime);
}

#[test]
fn per_char_two_slots_two_chars() {
    // Per-character split, two slots, "ab": one character each.
    let mut o = Options::new();
    o.delimiter = Some(Vec::new());
    let names = vec![cs("a"), cs("b")];
    let mut s = ByteStream::new(b"ab".to_vec());
    let out = read(&o, &names, &mut s, &Vec::new(), true, false, 0);
    assert_eq!(out.status, AcquireResult::Success);
    assert_eq!(out.assignments.len(), 2);
    assert_eq!(text(&out.assignments[0].values[0]), "a");
    assert_eq!(text(&out.assignments[1].values[0]), "b");
}

#[test]
fn per_char_remainder_to_last_slot() {
    // Per-character split, two slots, "abc": the last slot takes "bc".
    let mut o = Options::new();
    o.delimiter = Some(Vec::new());
    let names = vec![cs("a"), cs("b")];
    let mut s = ByteStream::new(b"abc".to_vec());
    let out = read(&o, &names, &mut s, &Vec::new(), true, false, 0);
    assert_eq!(out.status, AcquireResult::Success);
    assert_eq!(text(&out.assignments[0].values[0]), "a");
    assert_eq!(text(&out.assignments[1].values[0]), "bc");
}

#[test]
fn explicit_delimiter_remainder_rule() {
    // Delimiter ",", two slots, "a,b,c": the final piece absorbs the rest.
    let mut o = Options::new();
    o.delimiter = Some(cs(","));
    let names = vec![cs("a"), cs("b")];
    let mut s = ByteStream::new(b"a,b,c".to_vec());
    let out = read(&o, &names, &mut s, &Vec::new(), true, false, 0);
    assert_eq!(out.status, AcquireResult::Success);
    assert_eq!(text(&out.assignments[0].values[0]), "a");
    assert_eq!(text(&out.assignments[1].values[0]), "b,c");
}

#[test]
fn array_mode_whitespace_fields() {
    // Array mode with whitespace-class separators: one slot bound to the
    // ordered field sequence.
    let mut o = Options::new();
    o.array = true;
    let names = vec![cs("arr")];
    let mut s = ByteStream::new(b"foo bar baz".to_vec());
    let out = read(&o, &names, &mut s, &cs(" \t\n"), true, false, 0);
    assert_eq!(out.status, AcquireResult::Success);
    assert_eq!(out.assignments.len(), 1);
    let vals: Vec<String> = out.assignments[0].values.iter().map(|v| text(v)).collect();
    assert_eq!(vals, vec!["foo".to_string(), "bar".to_string(), "baz".to_string()]);
}

#[test]
fn array_mode_explicit_delimiter() {
    let mut o = Options::new();
    o.array = true;
    o.delimiter = Some(cs(","));
    let names = vec![cs("arr")];
    let mut s = ByteStream::new(b"a,b,c".to_vec());
    let out = read(&o, &names, &mut s, &Vec::new(), true, false, 0);
    let vals: Vec<String> = out.assignments[0].values.iter().map(|v| text(v)).collect();
    assert_eq!(vals, vec!["a".to_string(), "b".to_string(), "c".to_string()]);
}

#[test]
fn separator_set_fills_all_slots() {
    // Legacy tokenization binds every remaining slot, clearing those past
    // the last token.
    let mut o = Options::new();
    let names = vec![cs("a"), cs("b"), cs("c")];
    let mut s = ByteStream::new(b"x y".to_vec());
    let out = read(&o, &names, &mut s, &cs(" "), true, false, 0);
    assert_eq!(out.status, AcquireResult::Success);
    assert_eq!(out.assignments.len(), 3);
    assert_eq!(text(&out.assignments[0].values[0]), "x");
    assert_eq!(text(&out.assignments[1].values[0]), "y");
    assert_eq!(text(&out.assignments[2].values[0]), "");
}

#[test]
fn per_record_mode_clears_missing_slots() {
    // Per-record mode with three slots and only two records: the first
    // two slots take the records, the third is cleared, and the final
    // result is the command failure from the exhausted input.
    let mut o = Options::new();
    o.one_line = true;
    o.delimiter = Some(cs("\n"));
    let names = vec![cs("a"), cs("b"), cs("c")];
    let mut s = ByteStream::new(b"rec1\nrec2\n".to_vec());
    let out = read(&o, &names, &mut s, &Vec::new(), false, false, 0);
    assert_eq!(out.status, AcquireResult::CmdFailure);
    assert_eq!(out.assignments.len(), 3);
    assert_eq!(text(&out.assignments[0].values[0]), "rec1");
    assert_eq!(text(&out.assignments[1].values[0]), "rec2");
    assert_eq!(text(&out.assignments[2].values[0]), "");
}

#[test]
fn per_record_mode_stops_when_slots_filled() {
    let mut o = Options::new();
    o.one_line = true;
    o.delimiter = Some(cs("\n"));
    let names = vec![cs("a"), cs("b")];
    let mut s = ByteStream::new(b"r1\nr2\nr3\n".to_vec());
    let out = read(&o, &names, &mut s, &Vec::new(), false, false, 0);
    assert_eq!(out.status, AcquireResult::Success);
    assert_eq!(text(&out.assignments[0].values[0]), "r1");
    assert_eq!(text(&out.assignments[1].values[0]), "r2");
    // The third record stays in the stream for later readers.
    assert_eq!(s.position(), 6);
}

#[test]
fn echo_mode_returns_unit_on_stdout() {
    let mut o = Options::new();
    o.to_stdout = true;
    let names: Vec<Vec<char>> = Vec::new();
    let mut s = ByteStream::new(b"hello\nmore".to_vec());
    let out = read(&o, &names, &mut s, &Vec::new(), false, true, 0);
    assert_eq!(out.status, AcquireResult::Success);
    assert_eq!(text(&out.output.unwrap()), "hello");
    assert!(out.assignments.is_empty());
}

#[test]
fn failure_clears_all_slots() {
    let mut o = Options::new();
    let names = vec![cs("a"), cs("b")];
    let mut s = ByteStream::new(Vec::new());
    let out = read(&o, &names, &mut s, &Vec::new(), true, false, 0);
    assert_eq!(out.status, AcquireResult::CmdFailure);
    assert_eq!(out.assignments.len(), 2);
    assert_eq!(text(&out.assignments[0].values[0]), "");
    assert_eq!(text(&out.assignments[1].values[0]), "");
}

#[test]
fn splitter_round_trip_on_own_output() {
    // Splitting an already-split field set joined by the same delimiter
    // reproduces the same fields.
    let unit = cs("a,b,c");
    let first = split_about(&unit, &cs(","), 1);
    let joined: Vec<char> = {
        let mut j: Vec<char> = Vec::new();
        for (i, p) in first.iter().enumerate() {
            if i > 0 {
                j.push(',');
            }
            j.extend(p.iter().copied());
        }
        j
    };
    let second = split_about(&joined, &cs(","), 1);
    assert_eq!(first, second);
    assert_eq!(text(&first[0]), "a");
    assert_eq!(text(&first[1]), "b,c");
}

#[test]
fn split_per_char_array_mode() {
    let fields = split_per_char(&cs("xyz"), 1, true);
    let vals: Vec<String> = fields.iter().map(|v| text(v)).collect();
    assert_eq!(vals, vec!["x".to_string(), "y".to_string(), "z".to_string()]);
}

#[test]
fn split_string_tok_trims_remainder() {
    let toks = split_string_tok(&cs("  x  y  "), &cs(" "), 2);
    assert_eq!(toks.len(), 2);
    assert_eq!(text(&toks[0]), "x");
    assert_eq!(text(&toks[1]), "y");
    let one = split_string_tok(&cs("  x  y  "), &cs(" "), 1);
    assert_eq!(one.len(), 1);
    assert_eq!(text(&one[0]), "x  y");
}

#[test]
fn tokenize_last_slot_takes_raw_remainder() {
    // Shell-word tokenize mode, two slots: the first token is bound
    // unescaped, the last slot takes the raw remainder from where the
    // second token started.
    let mut o = Options::new();
    o.tokenize = true;
    let names = vec![cs("a"), cs("b")];
    let unit = cs("a b c");
    let tokens = vec![
        TokenSpan { offset: 0, text: cs("a") },
        TokenSpan { offset: 2, text: cs("b") },
        TokenSpan { offset: 4, text: cs("c") },
    ];
    let mut ctrl = Controller::new();
    ctrl.on_unit_tokens(&o, &names, &unit, AcquireResult::Success, &tokens);
    let out = ctrl.finish(&o, &names);
    assert_eq!(out.status, AcquireResult::Success);
    assert_eq!(text(&out.assignments[0].values[0]), "a");
    assert_eq!(text(&out.assignments[1].values[0]), "b c");
}

#[test]
fn tokenize_array_collects_unescaped_tokens() {
    let mut o = Options::new();
    o.tokenize = true;
    o.array = true;
    let names = vec![cs("arr")];
    let unit = cs("one 'two words'");
    let tokens = vec![
        TokenSpan { offset: 0, text: cs("one") },
        TokenSpan { offset: 4, text: cs("two words") },
    ];
    let mut ctrl = Controller::new();
    ctrl.on_unit_tokens(&o, &names, &unit, AcquireResult::Success, &tokens);
    let out = ctrl.finish(&o, &names);
    let vals: Vec<String> = out.assignments[0].values.iter().map(|v| text(v)).collect();
    assert_eq!(vals, vec!["one".to_string(), "two words".to_string()]);
}

#[test]
fn validation_rejects_bad_combinations() {
    let names1 = vec![cs("a")];
    let ro1 = vec![false];

    let mut o = Options::new();
    o.prompt = Some(cs("p"));
    o.prompt_str = Some(cs("q"));
    assert_eq!(validate_read_args(&o, &names1, &ro1), Err(ReadError::PromptConflict));

    let mut o = Options::new();
    o.delimiter = Some(cs(","));
    o.one_line = true;
    assert_eq!(validate_read_args(&o, &names1, &ro1), Err(ReadError::DelimiterLineConflict));

    let mut o = Options::new();
    o.one_line = true;
    o.split_null = true;
    assert_eq!(validate_read_args(&o, &names1, &ro1), Err(ReadError::NullLineConflict));

    let mut o = Options::new();
    o.place.export = true;
    o.place.unexport = true;
    assert_eq!(validate_read_args(&o, &names1, &ro1), Err(ReadError::ExportUnexportConflict));

    let mut o = Options::new();
    o.place.local = true;
    o.place.global = true;
    assert_eq!(validate_read_args(&o, &names1, &ro1), Err(ReadError::ScopeConflict));

    let o = Options::new();
    let none: Vec<Vec<char>> = Vec::new();
    let nro: Vec<bool> = Vec::new();
    assert_eq!(validate_read_args(&o, &none, &nro), Err(ReadError::MissingVarNames));

    let mut o = Options::new();
    o.array = true;
    let two = vec![cs("a"), cs("b")];
    let ro2 = vec![false, false];
    assert_eq!(validate_read_args(&o, &two, &ro2), Err(ReadError::ArrayNeedsOneName));

    let mut o = Options::new();
    o.to_stdout = true;
    assert_eq!(validate_read_args(&o, &names1, &ro1), Err(ReadError::StdoutTakesNoNames));

    let mut o = Options::new();
    o.tokenize = true;
    o.delimiter = Some(cs(","));
    assert_eq!(validate_read_args(&o, &names1, &ro1), Err(ReadError::TokenizeDelimiterConflict));

    let mut o = Options::new();
    o.tokenize = true;
    o.one_line = true;
    assert_eq!(validate_read_args(&o, &names1, &ro1), Err(ReadError::TokenizeLineConflict));

    let o = Options::new();
    let bad = vec![cs("a-b")];
    assert_eq!(validate_read_args(&o, &bad, &ro1), Err(ReadError::InvalidVarName));

    let o = Options::new();
    let ro_t = vec![true];
    assert_eq!(validate_read_args(&o, &names1, &ro_t), Err(ReadError::ReadOnlyVar));

    let o = Options::new();
    assert_eq!(validate_read_args(&o, &names1, &ro1), Ok(()));
}
