use text2longimage::{
    calculate_text_width, get_char_width, is_cjk, is_cjk_char, justify_text, justify_text_cjk,
    justify_text_english, process_text_chunks, validate_text_input,
};

#[test]
fn cjk_ranges_classify_as_wide() {
    assert!(is_cjk_char('\u{4E00}'));
    assert!(is_cjk_char('\u{9FFF}'));
    assert!(is_cjk_char('你'));
    assert!(is_cjk_char('\u{3040}'));
    assert!(is_cjk_char('\u{309F}'));
    assert!(is_cjk_char('ぁ'));
    assert!(is_cjk_char('\u{30A0}'));
    assert!(is_cjk_char('\u{30FF}'));
    assert!(is_cjk_char('ア'));
    assert!(is_cjk_char('\u{3400}'));
    assert!(is_cjk_char('\u{4DBF}'));
    assert!(is_cjk_char('\u{20000}'));
    assert!(is_cjk_char('\u{2A6DF}'));
}

#[test]
fn non_cjk_code_points_classify_as_narrow() {
    assert!(!is_cjk_char('a'));
    assert!(!is_cjk_char('Z'));
    assert!(!is_cjk_char(' '));
    assert!(!is_cjk_char('\u{303F}'));
    assert!(!is_cjk_char('\u{4DC0}'));
    assert!(!is_cjk_char('\u{A000}'));
    assert!(!is_cjk_char('\u{2A6E0}'));
    assert!(!is_cjk_char('\u{100}'));
}

#[test]
fn char_width_is_one_up_to_latin1_else_two() {
    assert_eq!(get_char_width('a'), 1);
    assert_eq!(get_char_width('\u{FF}'), 1);
    assert_eq!(get_char_width('\u{100}'), 2);
    assert_eq!(get_char_width('你'), 2);
    assert_eq!(get_char_width('€'), 2);
}

#[test]
fn is_cjk_detects_any_wide_character() {
    assert!(!is_cjk("hello"));
    assert!(is_cjk("hel你lo"));
    assert!(!is_cjk(""));
    assert!(is_cjk("ア"));
}

#[test]
fn text_width_sums_character_widths() {
    assert_eq!(calculate_text_width(""), 0);
    assert_eq!(calculate_text_width("ab"), 2);
    assert_eq!(calculate_text_width("ab你好"), 6);
}

#[test]
fn justify_splits_simple_english() {
    assert_eq!(justify_text("hello world", 5), "hello\r\nworld");
}

#[test]
fn justify_wraps_cjk_one_per_line_at_width_two() {
    assert_eq!(justify_text("你好世界", 2), "你\r\n好\r\n世\r\n界");
}

#[test]
fn oversized_word_stands_alone() {
    assert_eq!(
        justify_text_english("supercalifragilisticexpialidocious", 5),
        "supercalifragilisticexpialidocious"
    );
    assert_eq!(
        justify_text("supercalifragilisticexpialidocious", 5),
        "supercalifragilisticexpialidocious"
    );
}

#[test]
fn word_mode_packs_greedily() {
    assert_eq!(justify_text_english("the quick brown fox", 10), "the quick\r\nbrown fox");
}

#[test]
fn word_mode_collapses_whitespace() {
    assert_eq!(justify_text_english("  a   b  ", 10), "a b");
}

#[test]
fn cjk_mode_normalizes_existing_terminators() {
    assert_eq!(justify_text_cjk("ab\ncd", 10), "ab\r\ncd");
    assert_eq!(justify_text_cjk("a\rb", 3), "a\r\nb");
    assert_eq!(justify_text_cjk("a\r\nb", 3), "a\r\nb");
    assert_eq!(justify_text_cjk("a\r\n\r\nb", 3), "a\r\n\r\nb");
    assert_eq!(justify_text_cjk("a\n\rb", 3), "a\r\n\r\nb");
}

#[test]
fn justify_keeps_blank_lines_and_mixes_modes() {
    assert_eq!(
        justify_text("hello world\n\n你好世界", 5),
        "hello\r\nworld\r\n\r\n你好\r\n世界"
    );
}

#[test]
fn justify_trims_each_logical_line() {
    assert_eq!(justify_text("  hi  ", 10), "hi");
}

#[test]
fn line_with_any_cjk_wraps_character_wise() {
    assert_eq!(justify_text("ab你", 2), "ab\r\n你");
}

#[test]
fn justify_empty_is_empty() {
    assert_eq!(justify_text("", 5), "");
}

#[test]
fn zero_width_budget_keeps_single_units() {
    assert_eq!(justify_text("ab", 0), "ab");
    assert_eq!(justify_text_cjk("你", 0), "\r\n你");
}

#[test]
fn wrapped_lines_stay_within_budget() {
    let out = justify_text("one two three four five six seven", 9);
    for line in out.split("\r\n") {
        if line.contains(' ') {
            assert!(line.len() <= 9);
        }
    }
    let cjk = justify_text("你好世界你好世界", 5);
    for line in cjk.split("\r\n") {
        if line.chars().count() >= 2 {
            assert!(calculate_text_width(line) <= 5);
        }
    }
}

#[test]
fn validate_rejects_empty_and_oversized() {
    assert_eq!(validate_text_input(""), "Text cannot be empty");
    assert_eq!(validate_text_input("ok"), "");
    let big = "a".repeat(500001);
    assert_eq!(
        validate_text_input(&big),
        "Text too large: maximum 500,000 characters supported"
    );
    let edge = "a".repeat(500000);
    assert_eq!(validate_text_input(&edge), "");
}

#[test]
fn chunking_with_large_budget_equals_direct_justify() {
    let text = "hello world\n你好世界";
    assert_eq!(process_text_chunks(text, 5, 1000000), justify_text(text, 5));
    assert_eq!(process_text_chunks("", 5, 0), justify_text("", 5));
}

#[test]
fn chunking_splits_on_byte_windows() {
    assert_eq!(process_text_chunks("hello world", 5, 6), "hello\r\nworld");
}

#[test]
fn chunking_keeps_characters_whole() {
    assert_eq!(process_text_chunks("你好世界", 2, 5), "你\r\n好\r\n世\r\n界");
    assert_eq!(
        process_text_chunks("你好世界", 2, 5),
        justify_text("你好世界", 2)
    );
}

#[test]
fn rejustifying_plain_text_is_stable() {
    let once = justify_text("the quick brown fox jumps over the lazy dog", 10);
    assert_eq!(justify_text(&once, 10), once);
    let narrow = justify_text("alpha beta gamma", 4);
    assert_eq!(justify_text(&narrow, 4), narrow);
    let oversized = justify_text("incomprehensibilities no", 5);
    assert_eq!(justify_text(&oversized, 5), oversized);
    let multiline = justify_text("alpha beta\n\ngamma delta epsilon", 11);
    assert_eq!(justify_text(&multiline, 11), multiline);
}
