use chinese_search_engine::dictionary::build_dict;
use chinese_search_engine::engine::ChineseSearchEngine;
use chinese_search_engine::score::{
    inverse_document_frequency, rank, str_le, term_frequency, Candidate, Ratio, ScoredDocument,
};
use chinese_search_engine::segment::Segmenter;
use std::collections::HashSet;

fn engine() -> ChineseSearchEngine {
    ChineseSearchEngine::with_segmenter(Segmenter::max_match(build_dict(), 5))
}

fn add(engine: &mut ChineseSearchEngine, id: &str, content: &str) {
    engine.add_document(id.to_string(), format!("/corpus/{}", id), content.to_string());
}

fn ratio(numerator: u128, denominator: u128) -> Ratio {
    Ratio {
        numerator,
        denominator,
    }
}

fn score(candidate: &Candidate) -> f64 {
    candidate
        .contributions
        .iter()
        .map(|c| {
            let tf = c.tf.numerator as f64 / c.tf.denominator as f64;
            let idf = (c.idf.numerator as f64 / c.idf.denominator as f64).ln();
            tf * idf
        })
        .sum()
}

fn ranked(engine: &ChineseSearchEngine, query: &str) -> Vec<(String, f64)> {
    let scored = engine
        .search(query.to_string())
        .iter()
        .map(|candidate| ScoredDocument {
            doc_id: candidate.doc_id.clone(),
            score_key: score(candidate).to_bits(),
        })
        .collect();
    rank(scored)
        .into_iter()
        .map(|d| (d.doc_id, f64::from_bits(d.score_key)))
        .collect()
}

#[test]
fn test_vec() {
    let v = vec![1, 2, 2, 2, 3, 4, 5, 2, 4];
    let s = v
        .into_iter()
        .collect::<HashSet<_>>()
        .into_iter()
        .collect::<Vec<i32>>();
    println!("{:?}", s);
    let mut sorted = s.clone();
    sorted.sort();
    assert_eq!(sorted, vec![1, 2, 3, 4, 5]);

    let mut engine = engine();
    let tokens: Vec<String> = [1, 2, 2, 2, 3, 4, 5, 2, 4]
        .iter()
        .map(|n| n.to_string())
        .collect();
    engine.add_tokens(
        "numbers".to_string(),
        String::new(),
        String::new(),
        String::new(),
        &tokens,
    );
    let found = engine.search_tokens(&tokens);
    assert_eq!(found.len(), 1);
    assert_eq!(found[0].contributions.len(), 5);
    assert_eq!(found[0].contributions[1].tf, ratio(4, 9));
}

#[test]
fn new_engine_is_empty() {
    let engine = engine();
    assert_eq!(engine.doc_count(), 0);
    assert!(engine.document("doc1").is_none());
    assert_eq!(engine.document_frequency("科学"), 0);
}

#[test]
fn add_document_stores_content_and_counts_terms() {
    let mut engine = engine();
    add(&mut engine, "doc1", "经济学是科学，科学！");
    assert_eq!(engine.doc_count(), 1);
    let document = engine.document("doc1").unwrap();
    assert_eq!(document.path(), "/corpus/doc1");
    assert_eq!(document.raw_content(), "经济学是科学，科学！");
    assert_eq!(document.normalized_content(), "经济学是科学 科学 ");
    let row = document.frequencies();
    assert_eq!(row.total(), 4);
    assert_eq!(row.distinct_len(), 3);
    assert_eq!(row.count("科学"), 2);
    assert_eq!(row.count("经济学"), 1);
    assert_eq!(row.count("是"), 1);
    assert_eq!(row.count(" "), 0);
    assert_eq!(row.count("经济"), 0);
    assert_eq!(engine.term_count("科学", "doc1"), 2);
    assert_eq!(engine.term_count("科学", "doc2"), 0);
    assert_eq!(engine.document_frequency("科学"), 1);
    assert_eq!(engine.document_frequency(" "), 0);
}

#[test]
fn term_counts_add_up_to_the_number_of_tokens() {
    let mut engine = engine();
    add(&mut engine, "doc1", "世界经济学是一门非常大的社会科学, 科学是科学");
    let row = engine.document("doc1").unwrap().frequencies();
    let mut sum = 0;
    for i in 0..row.distinct_len() {
        sum += row.count(row.term_at(i));
    }
    assert_eq!(sum, row.total());
    assert_eq!(row.total(), 13);
}

#[test]
fn postings_follow_the_documents() {
    let mut engine = engine();
    add(&mut engine, "doc1", "经济学是科学");
    add(&mut engine, "doc2", "科学是重要的");
    add(&mut engine, "doc3", "社会");
    assert_eq!(engine.doc_count(), 3);
    assert_eq!(engine.document_frequency("科学"), 2);
    assert_eq!(engine.document_frequency("是"), 2);
    assert_eq!(engine.document_frequency("经济学"), 1);
    assert_eq!(engine.document_frequency("社会"), 1);
    assert_eq!(engine.document_frequency("重"), 1);
    assert_eq!(engine.document_frequency("世界"), 0);
}

#[test]
fn adding_the_same_id_again_replaces_the_document() {
    let mut engine = engine();
    add(&mut engine, "doc1", "经济学是科学");
    add(&mut engine, "doc2", "科学是重要的");
    assert_eq!(engine.doc_count(), 2);
    assert_eq!(engine.document_frequency("经济学"), 1);

    add(&mut engine, "doc1", "社会科学");
    assert_eq!(engine.doc_count(), 2);
    assert_eq!(engine.document_frequency("经济学"), 0);
    assert_eq!(engine.document_frequency("是"), 1);
    assert_eq!(engine.document_frequency("科学"), 2);
    assert_eq!(engine.document_frequency("社会"), 1);
    assert_eq!(engine.term_count("经济学", "doc1"), 0);
    assert_eq!(engine.term_count("社会", "doc1"), 1);
    assert_eq!(engine.document("doc1").unwrap().raw_content(), "社会科学");
    assert_eq!(engine.document("doc1").unwrap().frequencies().total(), 2);
    assert!(ranked(&engine, "经济学").is_empty());
    let found = ranked(&engine, "是");
    assert_eq!(found.len(), 1);
    assert_eq!(found[0].0, "doc2");

    add(&mut engine, "doc1", "");
    assert_eq!(engine.doc_count(), 2);
    assert_eq!(engine.document_frequency("社会"), 0);
    assert_eq!(engine.document_frequency("科学"), 1);
}

#[test]
fn idf_is_the_fraction_under_the_logarithm() {
    let mut engine = engine();
    add(&mut engine, "doc1", "经济学是科学");
    add(&mut engine, "doc2", "科学是重要的");
    add(&mut engine, "doc3", "社会");
    assert_eq!(engine.compute_idf("经济学".to_string()), ratio(4, 2));
    assert_eq!(engine.compute_idf("科学".to_string()), ratio(4, 3));
    assert_eq!(engine.compute_idf("世界".to_string()), ratio(1, 1));
    assert_eq!(inverse_document_frequency(9, 4), ratio(10, 5));
    assert_eq!(inverse_document_frequency(9, 0), ratio(1, 1));
    assert_eq!(inverse_document_frequency(0, 0), ratio(1, 1));
    let neutral = engine.compute_idf("世界".to_string());
    assert_eq!((neutral.numerator as f64 / neutral.denominator as f64).ln(), 0.0);
}

#[test]
fn idf_does_not_grow_with_the_document_frequency() {
    for document_count in [1usize, 2, 10, 1000] {
        let mut last = f64::INFINITY;
        for document_frequency in 1..=document_count {
            let idf = inverse_document_frequency(document_count, document_frequency);
            let value = (idf.numerator as f64 / idf.denominator as f64).ln();
            assert!(value <= last);
            assert!(value >= 0.0);
            last = value;
        }
    }
}

#[test]
fn tf_is_count_over_total() {
    let mut engine = engine();
    add(&mut engine, "doc1", "科学是科学");
    add(&mut engine, "empty", "，。！");
    assert_eq!(engine.tf("科学", "doc1"), ratio(2, 3));
    assert_eq!(engine.tf("是", "doc1"), ratio(1, 3));
    assert_eq!(engine.tf("经济", "doc1"), ratio(0, 1));
    assert_eq!(engine.tf("科学", "empty"), ratio(0, 1));
    assert_eq!(engine.tf("科学", "missing"), ratio(0, 1));
    assert_eq!(engine.document("empty").unwrap().frequencies().total(), 0);
    assert_eq!(term_frequency(3, 12), ratio(3, 12));
    assert_eq!(term_frequency(0, 12), ratio(0, 1));
    assert_eq!(term_frequency(0, 0), ratio(0, 1));
}

#[test]
fn document_with_both_terms_ranks_above_document_with_one() {
    let mut engine = engine();
    add(&mut engine, "doc1", "经济学是科学");
    add(&mut engine, "doc2", "科学是重要的");
    let found = ranked(&engine, "经济学 科学");
    assert_eq!(found.len(), 2);
    assert_eq!(found[0].0, "doc1");
    assert_eq!(found[1].0, "doc2");
    assert!(found[0].1 > found[1].1);
    assert_eq!(found[0].1, (1.0f64 / 3.0) * (3.0f64 / 2.0).ln() + (1.0f64 / 3.0) * (3.0f64 / 3.0).ln());
    assert_eq!(found[1].1, 0.0);
    for pair in found.windows(2) {
        assert!(pair[0].1 >= pair[1].1);
    }
}

#[test]
fn search_gives_each_contribution_in_the_order_of_the_query() {
    let mut engine = engine();
    add(&mut engine, "doc1", "经济学是科学");
    add(&mut engine, "doc2", "科学是重要的");
    let mut found = engine.search("科学 经济学 科学，世界".to_string());
    found.sort_by(|a, b| a.doc_id.cmp(&b.doc_id));
    assert_eq!(found.len(), 2);
    assert_eq!(found[0].doc_id, "doc1");
    assert_eq!(found[0].contributions.len(), 2);
    assert_eq!(found[0].contributions[0].tf, ratio(1, 3));
    assert_eq!(found[0].contributions[0].idf, ratio(3, 3));
    assert_eq!(found[0].contributions[1].tf, ratio(1, 3));
    assert_eq!(found[0].contributions[1].idf, ratio(3, 2));
    assert_eq!(found[1].doc_id, "doc2");
    assert_eq!(found[1].contributions.len(), 1);
    assert_eq!(found[1].contributions[0].tf, ratio(1, 5));
    assert_eq!(found[1].contributions[0].idf, ratio(3, 3));
}

#[test]
fn documents_without_a_query_term_are_left_out() {
    let mut engine = engine();
    add(&mut engine, "doc1", "经济学是科学");
    add(&mut engine, "doc2", "社会");
    let found = engine.search("科学".to_string());
    assert_eq!(found.len(), 1);
    assert_eq!(found[0].doc_id, "doc1");
}

#[test]
fn empty_corpus_gives_no_result() {
    let engine = engine();
    assert!(engine.search("经济学 科学".to_string()).is_empty());
    assert!(engine.search(String::new()).is_empty());
    assert!(engine.search_tokens(&vec!["科学".to_string()]).is_empty());
    assert!(ranked(&engine, "世界").is_empty());
}

#[test]
fn empty_or_unknown_query_gives_no_result() {
    let mut engine = engine();
    add(&mut engine, "doc1", "经济学是科学");
    assert!(engine.search(String::new()).is_empty());
    assert!(engine.search("  ，。 ".to_string()).is_empty());
    assert!(engine.search("世界".to_string()).is_empty());
    assert!(engine.search_tokens(&Vec::new()).is_empty());
}

#[test]
fn rank_orders_by_key_then_by_id() {
    let scored = [("b", 5u64), ("a", 5), ("c", 9), ("经", 5), ("ab", 5), ("a", 7), ("", 5)]
        .iter()
        .map(|(id, key)| ScoredDocument {
            doc_id: id.to_string(),
            score_key: *key,
        })
        .collect();
    let order: Vec<(String, u64)> = rank(scored)
        .into_iter()
        .map(|d| (d.doc_id, d.score_key))
        .collect();
    let expected: Vec<(String, u64)> = [("c", 9u64), ("a", 7), ("", 5), ("a", 5), ("ab", 5), ("b", 5), ("经", 5)]
        .iter()
        .map(|(id, key)| (id.to_string(), *key))
        .collect();
    assert_eq!(order, expected);
    assert!(rank(Vec::new()).is_empty());
}

#[test]
fn ids_compare_like_strings() {
    let ids = ["", "a", "ab", "b", "doc1", "doc10", "doc2", "经济", "经济学", "\u{10000}"];
    for a in ids {
        for b in ids {
            assert_eq!(str_le(a, b), a <= b);
        }
    }
}

#[test]
fn text_preview_leaves_the_engine_as_it_is() {
    let mut engine = engine();
    add(&mut engine, "doc1", "经济学是科学");
    engine.get_text_preview("doc1".to_string(), "科学".to_string());
    assert_eq!(engine.doc_count(), 1);
    assert_eq!(engine.document_frequency("科学"), 1);
}
