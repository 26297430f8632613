use chinese_search_engine::engine::ChineseSearchEngine;
use chinese_search_engine::segment::Segmenter;
use jieba_rs::{Jieba, KeywordExtract, TextRank, TFIDF};

#[test]
fn main_it_works() {
    let jieba = Jieba::new();
    let text = "世界经济学是一门非常大的社会科学";
    let words = jieba.cut(text, true);
    println!("{:?}", words);
    let words = jieba.cut_all(text);
    println!("{:?}", words);
    let words = jieba.cut_for_search(text, true);
    println!("{:?}", words);
    println!();

    let keyword_extractor = TFIDF::new_with_jieba(&jieba);
    let top_k = keyword_extractor.extract_tags("今天纽约的天气真好啊", 1, vec![]);
    println!("TFIDF：{:?}", top_k);

    let keyword_extractor = TextRank::new_with_jieba(&jieba);
    let top_k = keyword_extractor.extract_tags(
        "此外，公司拟对全资子公司吉林欧亚置业有限公司增资4.3亿元，增资后，吉林欧亚置业注册资本由7000万元增加到5亿元。吉林欧亚置业主要经营范围为房地产开发及百货零售等业务。目前在建吉林欧亚城市商业综合体项目。2013年，实现营业收入0万元，实现净利润-139.13万元。",
        6,
        vec![String::from("ns"), String::from("n"), String::from("vn"), String::from("v")],
    );
    println!("KeywordExtract：{:?}", top_k);

    let segmenter = Segmenter::linguistic();
    assert_eq!(segmenter.segment(text), jieba.cut_for_search(text, false));
}

#[test]
fn default_engine_cuts_with_the_linguistic_segmenter() {
    let mut engine = ChineseSearchEngine::new();
    engine.add_document(
        "doc1".to_string(),
        "/corpus/doc1".to_string(),
        "世界经济学是一门非常大的社会科学".to_string(),
    );
    engine.add_document(
        "doc2".to_string(),
        "/corpus/doc2".to_string(),
        "今天纽约的天气真好啊".to_string(),
    );
    assert_eq!(engine.doc_count(), 2);
    assert_eq!(engine.document_frequency("经济学"), 1);
    assert_eq!(engine.document_frequency("社会科学"), 1);
    assert_eq!(engine.document_frequency("天气"), 1);
    let found = engine.search("世界经济学是一门非常大的社会科学".to_string());
    assert!(found.iter().any(|c| c.doc_id == "doc1"));
    let found = engine.search("天气".to_string());
    assert_eq!(found.len(), 1);
    assert_eq!(found[0].doc_id, "doc2");
}

#[test]
fn test_regex() {
    let re = regex::Regex::new(
        r"(?x)
        (?P<year>\d{4})  # the year
        -
        (?P<month>\d{2}) # the month
        -
        (?P<day>\d{2})   # the day
        ",
    )
    .unwrap();

    let caps = re.captures("2010-03-14").unwrap();
    println!("{:#?}", caps);
    assert_eq!("2010", &caps["year"]);
    assert_eq!("03", &caps["month"]);
    assert_eq!("14", &caps["day"]);
}
