use chinese_search_engine::dictionary::{build_dict, Dictionary, Source};
use chinese_search_engine::segment::{max_forward_matching, Segmenter};
use chinese_search_engine::text::{chars_of, discard_blank, split_fields, string_of, token_is_blank};

fn scenario_dictionary() -> Dictionary {
    let mut dictionary = Dictionary::new();
    dictionary.insert("经济学".to_string(), 0.8f32.to_bits(), Source::User);
    dictionary.insert("是".to_string(), 0.2f32.to_bits(), Source::User);
    dictionary.insert("一门".to_string(), 0.1f32.to_bits(), Source::User);
    dictionary.insert("科学".to_string(), 0.4f32.to_bits(), Source::User);
    dictionary
}

#[test]
fn test_range() {
    for i in (1..=5).rev().step_by(1) {
        println!("{}", i);
    }

    let s = "hello world";
    println!("{}", s.len());
    let _slice = &s[0..5];
    assert_eq!(chars_of(s).len(), 11);
    assert_eq!(string_of(&chars_of(s), 0, 5), "hello");

    let text = "世界经济学是一门非常大的社会科学";
    println!("{}", text.chars().count());
    println!("{}", &text[3..6]);
    assert_eq!(chars_of(text).len(), 16);
    assert_eq!(string_of(&chars_of(text), 1, 2), &text[3..6]);
}

#[test]
fn test_max_forward_matching() {
    let text = "世界经济学是一门非常大的社会科学";
    let dict_words = build_dict();

    let res = max_forward_matching(text, &dict_words, 5);
    println!("{:?}", res);
    assert_eq!(
        res,
        vec!["世界", "经济学", "是", "一门", "非", "常", "大", "的", "社会", "科学"]
    );
}

#[test]
fn longest_word_wins_at_each_step() {
    let tokens = max_forward_matching("经济学是一门科学", &scenario_dictionary(), 5);
    assert_eq!(tokens, vec!["经济学", "是", "一门", "科学"]);
}

#[test]
fn shorter_word_is_taken_when_the_window_is_small() {
    let dictionary = build_dict();
    assert_eq!(
        max_forward_matching("经济学", &dictionary, 2),
        vec!["经济", "学"]
    );
    assert_eq!(max_forward_matching("经济学", &dictionary, 3), vec!["经济学"]);
}

#[test]
fn tokens_join_back_to_the_text() {
    let dictionary = build_dict();
    for text in [
        "",
        "世界经济学是一门非常大的社会科学",
        "hello 世界, mixed 经济 text!",
        "a",
        "科学科学科",
    ] {
        for max_word_length in [0usize, 1, 2, 3, 5, 100] {
            let tokens = max_forward_matching(text, &dictionary, max_word_length);
            assert_eq!(tokens.concat(), text);
        }
    }
}

#[test]
fn window_of_zero_or_one_gives_single_characters() {
    let dictionary = build_dict();
    let text = "经济学是一门科学";
    let singles: Vec<String> = text.chars().map(|c| c.to_string()).collect();
    assert_eq!(max_forward_matching(text, &dictionary, 0), singles);
    assert_eq!(max_forward_matching(text, &dictionary, 1), singles);
    assert_eq!(
        max_forward_matching(text, &dictionary, 0),
        max_forward_matching(text, &dictionary, 1)
    );
}

#[test]
fn empty_text_has_no_tokens() {
    assert!(max_forward_matching("", &build_dict(), 5).is_empty());
    assert!(max_forward_matching("", &Dictionary::new(), 0).is_empty());
}

#[test]
fn empty_dictionary_gives_single_characters() {
    assert_eq!(
        max_forward_matching("ab 科", &Dictionary::new(), 4),
        vec!["a", "b", " ", "科"]
    );
}

#[test]
fn max_match_segmenter_is_the_dictionary_matcher() {
    let segmenter = Segmenter::max_match(build_dict(), 5);
    let text = "世界经济学是一门非常大的社会科学";
    assert_eq!(
        segmenter.segment(text),
        max_forward_matching(text, &build_dict(), 5)
    );
}

#[test]
fn blank_tokens_are_discarded() {
    assert!(token_is_blank(" "));
    assert!(token_is_blank(""));
    assert!(token_is_blank(" \t\u{3000}\n"));
    assert!(!token_is_blank(" a "));
    assert!(!token_is_blank("科"));
    let tokens: Vec<String> = ["经济", " ", "学", "  ", "", "a b", "\u{a0}"]
        .iter()
        .map(|t| t.to_string())
        .collect();
    assert_eq!(discard_blank(&tokens), vec!["经济", "学", "a b"]);
}

#[test]
fn fields_are_the_runs_between_white_space() {
    assert_eq!(split_fields("经济 0.5"), vec!["经济", "0.5"]);
    assert_eq!(split_fields("  a\t b\u{3000}c  "), vec!["a", "b", "c"]);
    assert_eq!(split_fields("word"), vec!["word"]);
    assert!(split_fields("").is_empty());
    assert!(split_fields(" \t ").is_empty());
    for line in ["x y z", " 经济学  0.8 ", "", "\t", "a\u{2003}b"] {
        let expected: Vec<&str> = line.split_whitespace().collect();
        assert_eq!(split_fields(line), expected);
    }
}
