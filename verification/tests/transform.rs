use furi_clean::contains_line_break;
use furi_clean::is_furi_skip;
use furi_clean::should_process;
use furi_clean::rewrite::rewrite;

#[test]
fn kana_only_is_skippable() {
    assert!(is_furi_skip("こんこん"));
    assert!(is_furi_skip("カタカナ"));
    assert!(is_furi_skip("ひらがな と カタカナ"));
    assert!(is_furi_skip("﹅﹅ こん カナ"));
    assert!(is_furi_skip(" "));
    assert!(is_furi_skip(""));
}

#[test]
fn small_kana_and_marks_are_skippable() {
    assert!(is_furi_skip("っゃゅょ"));
    assert!(is_furi_skip("ァィゥェォー"));
    assert!(is_furi_skip("\u{31f0}\u{31ff}"));
    assert!(is_furi_skip("カ\u{31f5}キ"));
}

#[test]
fn full_width_space_is_skippable() {
    assert!(is_furi_skip("\u{3000}"));
    assert!(is_furi_skip("こん\u{3000}カナ"));
}

#[test]
fn non_kana_is_not_skippable() {
    assert!(!is_furi_skip("Hello"));
    assert!(!is_furi_skip("こんにちはX"));
    assert!(!is_furi_skip("漢字"));
    assert!(!is_furi_skip("こん。"));
    assert!(!is_furi_skip("a"));
}

#[test]
fn line_break_detection() {
    assert!(contains_line_break("a\nb"));
    assert!(contains_line_break("a\rb"));
    assert!(contains_line_break("\r\n"));
    assert!(!contains_line_break(""));
    assert!(!contains_line_break("Plain English text"));
}

#[test]
fn gate_requires_oracle_and_break() {
    assert!(should_process("A\nB", true));
    assert!(!should_process("A\nB", false));
    assert!(!should_process("AB", true));
    assert!(!should_process("", true));
}

#[test]
fn no_line_break_returns_nothing() {
    assert_eq!(rewrite("Plain English text", true), None);
    assert_eq!(rewrite("こんにちは", true), None);
    assert_eq!(rewrite("", true), None);
}

#[test]
fn oracle_false_returns_nothing() {
    assert_eq!(rewrite("Hello\nこんこん\nWorld", false), None);
    assert_eq!(rewrite("A\nB", false), None);
}

#[test]
fn middle_hiragana_segment_is_dropped() {
    assert_eq!(rewrite("Hello\nこんこん\nWorld", true), Some(String::from("HelloWorld")));
}

#[test]
fn empty_middle_segment_is_dropped() {
    assert_eq!(rewrite("こんにちは\n\nさようなら", true), Some(String::from("こんにちはさようなら")));
}

#[test]
fn two_segments_are_both_kept() {
    assert_eq!(rewrite("A\nB", true), Some(String::from("AB")));
}

#[test]
fn boundary_segments_survive_whatever_they_hold() {
    assert_eq!(rewrite("XYZ\n ﹅こん \nQRS", true), Some(String::from("XYZQRS")));
    assert_eq!(rewrite("こんこん\nMIDDLE\nカナカナ", true), Some(String::from("こんこんMIDDLEカナカナ")));
}

#[test]
fn non_skippable_interior_segment_is_kept() {
    assert_eq!(rewrite("A\nB\nC", true), Some(String::from("ABC")));
    assert_eq!(rewrite("A\n漢字\nC", true), Some(String::from("A漢字C")));
}

#[test]
fn rewriting_a_rewrite_output_is_a_no_op() {
    let out = rewrite("Hello\nこんこん\nWorld", true).unwrap();
    assert_eq!(rewrite(&out, true), None);
    assert_eq!(rewrite(&out, false), None);
}

#[test]
fn whole_text_and_segments_are_trimmed() {
    assert_eq!(rewrite("  A\nB  ", true), Some(String::from("AB")));
    assert_eq!(rewrite("A \n B", true), Some(String::from("AB")));
    assert_eq!(rewrite("\u{3000}A\nB\u{3000}", true), Some(String::from("AB")));
}

#[test]
fn carriage_returns_split_too() {
    assert_eq!(rewrite("A\rB", true), Some(String::from("AB")));
    assert_eq!(rewrite("A\r\nB", true), Some(String::from("AB")));
}

#[test]
fn kana_joined_by_full_width_space_is_dropped() {
    assert_eq!(rewrite("Hello\nこん\u{3000}カナ\nWorld", true), Some(String::from("HelloWorld")));
}

#[test]
fn sole_segment_is_appended_once() {
    assert_eq!(rewrite("abc\n", true), Some(String::from("abc")));
}

#[test]
fn break_only_text_rewrites_to_empty() {
    assert_eq!(rewrite("\n", true), Some(String::new()));
}
