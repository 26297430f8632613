use chinese_search_engine::dictionary::{
    build_dict, load_user_dict, weight_field, Dictionary, DictionaryEntry, Source, WEIGHT_DEFAULT,
    WEIGHT_ZERO,
};

fn weight_of(dictionary: &Dictionary, word: &str) -> f32 {
    f32::from_bits(dictionary.get(word).unwrap().weight_bits)
}

fn parsed(line: &str) -> Option<u32> {
    weight_field(line).and_then(|text| text.parse::<f32>().ok().map(f32::to_bits))
}

#[test]
fn builtin_seed_has_its_seven_words() {
    let dictionary = build_dict();
    assert_eq!(dictionary.len(), 7);
    for (word, weight) in [
        ("世界", 0.5f32),
        ("经济", 0.5),
        ("经济学", 0.8),
        ("是", 0.2),
        ("一门", 0.1),
        ("社会", 0.3),
        ("科学", 0.4),
    ] {
        assert!(dictionary.contains(word));
        assert_eq!(
            dictionary.get(word),
            Some(DictionaryEntry {
                weight_bits: weight.to_bits(),
                source: Source::Builtin
            })
        );
    }
    assert!(!dictionary.contains("非常"));
    assert_eq!(dictionary.get("非常"), None);
}

#[test]
fn default_weights_are_a_tenth_and_zero() {
    assert_eq!(f32::from_bits(WEIGHT_DEFAULT), 0.1);
    assert_eq!(f32::from_bits(WEIGHT_ZERO), 0.0);
}

#[test]
fn weight_field_is_the_second_of_two_fields() {
    assert_eq!(weight_field("经济 0.5"), Some("0.5".to_string()));
    assert_eq!(weight_field("  经济\t\tabc "), Some("abc".to_string()));
    assert_eq!(weight_field("经济"), None);
    assert_eq!(weight_field("经济 0.5 n"), None);
    assert_eq!(weight_field(""), None);
}

#[test]
fn line_with_two_fields_sets_the_given_weight() {
    let mut dictionary = Dictionary::new();
    assert!(dictionary.load_user_line("非常 0.75", Some(0.75f32.to_bits())));
    assert_eq!(
        dictionary.get("非常"),
        Some(DictionaryEntry {
            weight_bits: 0.75f32.to_bits(),
            source: Source::User
        })
    );
}

#[test]
fn line_with_a_weight_that_is_no_number_gets_zero() {
    let mut dictionary = Dictionary::new();
    assert!(dictionary.load_user_line("非常 heavy", parsed("非常 heavy")));
    assert_eq!(weight_of(&dictionary, "非常"), 0.0);
    assert_eq!(dictionary.get("非常").unwrap().source, Source::User);
}

#[test]
fn line_with_another_number_of_fields_gets_the_default_weight() {
    let mut dictionary = Dictionary::new();
    assert!(dictionary.load_user_line("非常", None));
    assert!(dictionary.load_user_line("社会科学 0.9 n", Some(0.9f32.to_bits())));
    assert_eq!(weight_of(&dictionary, "非常"), 0.1);
    assert_eq!(weight_of(&dictionary, "社会科学"), 0.1);
    assert_eq!(dictionary.len(), 2);
}

#[test]
fn line_without_fields_changes_nothing() {
    let mut dictionary = build_dict();
    assert!(!dictionary.load_user_line("", None));
    assert!(!dictionary.load_user_line("  \t", Some(1)));
    assert_eq!(dictionary.len(), 7);
}

#[test]
fn later_lines_overwrite_earlier_ones() {
    let mut dictionary = build_dict();
    let lines: Vec<(String, Option<u32>)> = ["经济学 0.25", "大的", "经济学 0.6", "是 x", "大的 1e-1 extra"]
        .iter()
        .map(|line| (line.to_string(), parsed(line)))
        .collect();
    load_user_dict(&lines, &mut dictionary);
    assert_eq!(dictionary.len(), 8);
    assert_eq!(weight_of(&dictionary, "经济学"), 0.6);
    assert_eq!(dictionary.get("经济学").unwrap().source, Source::User);
    assert_eq!(weight_of(&dictionary, "是"), 0.0);
    assert_eq!(weight_of(&dictionary, "大的"), 0.1);
    assert_eq!(weight_of(&dictionary, "科学"), 0.4);
    assert_eq!(dictionary.get("科学").unwrap().source, Source::Builtin);
}
