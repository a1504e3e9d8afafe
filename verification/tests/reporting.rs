use text2longimage::{batch_justify_list, batch_justify_text, compute_text_stats, get_text_stats};

#[test]
fn stats_of_mixed_text() {
    let st = compute_text_stats("ab你好");
    assert_eq!(st.char_count, 4);
    assert_eq!(st.byte_count, 8);
    assert_eq!(st.line_count, 1);
    assert_eq!(st.cjk_count, 2);
    assert_eq!(st.ascii_count, 2);
    assert_eq!(st.display_width, 6);
    assert!(st.has_cjk);
}

#[test]
fn stats_json_is_well_formed() {
    let json = get_text_stats("ab你好");
    let v: serde_json::Value = serde_json::from_str(&json).unwrap();
    assert_eq!(v["charCount"], 4);
    assert_eq!(v["byteCount"], 8);
    assert_eq!(v["lineCount"], 1);
    assert_eq!(v["cjkCount"], 2);
    assert_eq!(v["asciiCount"], 2);
    assert_eq!(v["displayWidth"], 6);
    assert_eq!(v["hasCjk"], true);
}

#[test]
fn stats_json_handles_multi_digit_counts() {
    let json = get_text_stats("twelve chars");
    let v: serde_json::Value = serde_json::from_str(&json).unwrap();
    assert_eq!(v["charCount"], 12);
    assert_eq!(v["byteCount"], 12);
    assert_eq!(v["cjkCount"], 0);
    assert_eq!(v["hasCjk"], false);
}

#[test]
fn stats_line_count_is_terminators_plus_one() {
    assert_eq!(compute_text_stats("a\nb").line_count, 2);
    assert_eq!(compute_text_stats("a\n").line_count, 2);
    assert_eq!(compute_text_stats("").line_count, 1);
}

#[test]
fn has_cjk_iff_cjk_count_positive() {
    let none = compute_text_stats("xyz");
    assert!(!none.has_cjk);
    assert_eq!(none.cjk_count, 0);
    let some = compute_text_stats("x你z");
    assert!(some.has_cjk);
    assert!(some.cjk_count > 0);
}

#[test]
fn batch_justifies_each_element_in_order() {
    let texts = vec!["hello world".to_string(), "你好世界".to_string()];
    let results = batch_justify_list(&texts, 5);
    assert_eq!(results, vec!["hello\r\nworld".to_string(), "你好\r\n世界".to_string()]);
}

#[test]
fn batch_round_trips_through_json() {
    let input = serde_json::to_string(&vec!["hello world", "你好世界"]).unwrap();
    let out = batch_justify_text(&input, 5).unwrap();
    let expected =
        serde_json::to_string(&vec!["hello\r\nworld", "你好\r\n世界"]).unwrap();
    assert_eq!(out, expected);
    let parsed: Vec<String> = serde_json::from_str(&out).unwrap();
    assert_eq!(parsed, vec!["hello\r\nworld".to_string(), "你好\r\n世界".to_string()]);
}

#[test]
fn batch_rejects_malformed_input() {
    let err = batch_justify_text("not json", 5).unwrap_err();
    assert!(err.starts_with("Invalid JSON"));
    let err2 = batch_justify_text("[1,2,3]", 5).unwrap_err();
    assert!(err2.starts_with("Invalid JSON"));
}

#[test]
fn batch_succeeds_on_every_well_formed_list() {
    assert_eq!(batch_justify_text("[]", 5).unwrap(), "[]");
    assert_eq!(batch_justify_text("[\"\"]", 5).unwrap(), "[\"\"]");
    let out = batch_justify_text("[\"a b c\",\"d\"]", 3).unwrap();
    let parsed: Vec<String> = serde_json::from_str(&out).unwrap();
    assert_eq!(parsed, vec!["a b\r\nc".to_string(), "d".to_string()]);
}
