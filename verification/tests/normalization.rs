use chinese_search_engine::normalize::preprocess_text;

#[test]
fn normalize_replaces_punctuation_by_spaces() {
    assert_eq!(preprocess_text("hello, world!"), "hello  world ");
    assert_eq!(preprocess_text("你好，世界"), "你好 世界");
    assert_eq!(preprocess_text("snake_case 42"), "snake_case 42");
    assert_eq!(preprocess_text("a\nb\tc"), "a b c");
    assert_eq!(preprocess_text(""), "");
}

#[test]
fn normalize_keeps_ideographs_letters_and_digits() {
    let text = "世界经济学是一门非常大的社会科学ABCxyz0189";
    assert_eq!(preprocess_text(text), text);
}

#[test]
fn normalize_replaces_each_character_of_a_run() {
    assert_eq!(preprocess_text("a--b"), "a  b");
    assert_eq!(preprocess_text("https://github.com/"), "https   github com ");
    assert_eq!(preprocess_text("立春 (lì chūn) - 春季"), "立春  lì chūn    春季");
}

#[test]
fn normalize_keeps_the_number_of_characters() {
    for text in ["", "a,b", "你好，世界！", "  \t\n", "1. 立春 (lì chūn)"] {
        assert_eq!(
            preprocess_text(text).chars().count(),
            text.chars().count()
        );
    }
}

#[test]
fn normalize_twice_is_normalize_once() {
    for text in [
        "",
        "hello, world!",
        "农历24节气是中国传统农历中的重要时间节点，用来标志季节的变化。",
        "https://github.com/",
        "a_b-c d\te\u{3000}f",
    ] {
        let once = preprocess_text(text);
        assert_eq!(preprocess_text(&once), once);
    }
}

#[test]
fn normalize_agrees_with_replacing_every_match() {
    let re = regex::Regex::new(r"[^一-龥\w\d]").unwrap();
    for text in [
        "农历24节气是中国传统农历中的重要时间节点，用来标志季节的变化和农事活动的时间安排。",
        "1. 立春 (lì chūn) - 春季开始：立春是春季的开始，表示寒冬渐退，万物开始生长。",
        "hello world!\n\n        https://github.com/\n",
        "tabs\tand\u{3000}wide spaces — dashes… «quotes» 𝒳 ①",
    ] {
        assert_eq!(preprocess_text(text), re.replace_all(text, " ").to_string());
    }
}
