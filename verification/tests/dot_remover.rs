use dotbot::dot_remover::{find_if_dot, find_if_dot_logic, repost_text};

#[test]
fn no_dot_normal() {
    assert_eq!(find_if_dot("text"), None);
}

#[test]
fn ignore_codeblocks() {
    assert_eq!(find_if_dot("```\ntext\n```"), None);
}

#[test]
fn ignore_three_dots() {
    assert_eq!(find_if_dot("text..."), None);
}

#[test]
fn ignore_multi_sentences() {
    assert_eq!(find_if_dot("text. more text."), None);
}

#[test]
fn dot_normal() {
    assert_eq!(find_if_dot("text."), Some(String::from("text")));
}

#[test]
fn two_dots_normal() {
    assert_eq!(find_if_dot("text.."), Some(String::from("text")))
}

#[test]
fn dot_single_line_code() {
    assert_eq!(find_if_dot("`text.`"), Some(String::from("`text`")));
}

#[test]
fn dot_surrounded() {
    assert_eq!(find_if_dot("text`.`"), Some(String::from("text")));
}

#[test]
fn unicode_dot() {
    assert_eq!(find_if_dot("text⸱"), Some(String::from("text")));
}

#[test]
fn special_unicode_dot() {
    assert_eq!(find_if_dot("text․"), Some(String::from("text")))
}

#[test]
fn invisible_char_after_dot() {
    assert_eq!(find_if_dot(&format!("text.{}", '\u{2000}')), Some(String::from("text")));
}

#[test]
fn markdown_invisible_after_dot() {
    assert_eq!(find_if_dot("text._ _"), Some(String::from("text")));
}

#[test]
fn single_pass_keeps_second_dot() {
    assert_eq!(find_if_dot_logic("text.."), Some(String::from("text.")));
}

#[test]
fn several_sentences_are_left_alone() {
    assert_eq!(find_if_dot("Hi. There."), None);
    assert_eq!(find_if_dot_logic("One. Two. Three"), None);
}

#[test]
fn dot_free_text_is_left_alone() {
    assert_eq!(find_if_dot("no dot here"), None);
    assert_eq!(find_if_dot(""), None);
}

#[test]
fn each_dot_kind_is_removed() {
    for d in ['.', '\u{b7}', '\u{2024}', '\u{2027}', '\u{22c5}', '\u{30fb}', '\u{2e31}', '\u{1427}',
        '\u{23fa}', '\u{25cf}', '\u{26ac}', '\u{2981}', '\u{2e30}', '\u{fe52}', '\u{3002}',
        '\u{ff0e}', '\u{ff61}', '\u{702}'] {
        let text = format!("hello there{}", d);
        assert_eq!(find_if_dot(&text), Some(String::from("hello there")));
    }
}

#[test]
fn escaped_dot_is_removed_with_its_backslash() {
    assert_eq!(find_if_dot("hello\\."), Some(String::from("hello")));
}

#[test]
fn dot_between_markers_is_removed() {
    assert_eq!(find_if_dot("hi*.*"), Some(String::from("hi")));
    assert_eq!(find_if_dot("hi~.~"), Some(String::from("hi")));
}

#[test]
fn spoiler_after_dot_is_invisible() {
    assert_eq!(find_if_dot("text.|| ||"), Some(String::from("text")));
}

#[test]
fn dot_before_space_inside_text_is_not_final() {
    assert_eq!(find_if_dot("a. b"), None);
}

#[test]
fn bots_are_not_reposted() {
    assert_eq!(repost_text(true, "text."), None);
    assert_eq!(repost_text(false, "text."), Some(String::from("text")));
    assert_eq!(repost_text(false, "text"), None);
}

#[test]
fn a_dot_inside_the_sentence_keeps_the_final_dot() {
    assert_eq!(find_if_dot_logic("I like 3.5 apples."), Some(String::from("I like 3.5 apples")));
    assert_eq!(find_if_dot("I like 3.5 apples."), None);
}

#[test]
fn wide_dot_in_code_span_is_removed() {
    assert_eq!(find_if_dot_logic("`text\u{b7}`"), Some(String::from("`text`")));
    assert_eq!(find_if_dot("`text\u{b7}`"), Some(String::from("`text`")));
}

#[test]
fn escaped_wide_dot_is_removed_with_its_backslash() {
    assert_eq!(find_if_dot_logic("text\\\u{b7}"), Some(String::from("text")));
    assert_eq!(find_if_dot("text\\\\\u{b7}"), Some(String::from("text")));
}
