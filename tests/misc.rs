use lindera::builder::{CcCedictBuilder, IpadicBuilder};
use lindera::error::LinderaErrorKind;
use lindera::dictionary::WordId;
use lindera::format::Format;
use lindera::render::{mecab_text, wakati_text};
use lindera::tokenizer::Token;

#[test]
fn format_names_parse() {
    assert_eq!(Format::parse("mecab").unwrap(), Format::Mecab);
    assert_eq!(Format::parse("wakati").unwrap(), Format::Wakati);
    assert_eq!(Format::parse("json").unwrap(), Format::Json);
    let err = Format::parse("xml").unwrap_err();
    assert_eq!(err.kind, LinderaErrorKind::Args);
    assert_eq!(err.message, "Invalid format: xml");
    assert_eq!("json".parse::<Format>().unwrap(), Format::Json);
}

#[test]
fn ipadic_simple_row_details() {
    let row = vec!["東京スカイツリー".to_string(), "カスタム名詞".to_string(), "トウキョウスカイツリー".to_string()];
    let details = IpadicBuilder::simple_userdic_details(&row);
    assert_eq!(
        details,
        vec!["カスタム名詞", "*", "*", "*", "*", "*", "東京スカイツリー", "トウキョウスカイツリー", "*"]
    );
    let _ = IpadicBuilder::new();
    assert_eq!(IpadicBuilder::DETAILED_USERDIC_FIELDS_NUM, 13);
}

#[test]
fn cc_cedict_simple_row_details() {
    let row = vec!["测试".to_string(), "名词".to_string(), "ce4 shi4".to_string()];
    let details = CcCedictBuilder::simple_userdic_details(&row);
    assert_eq!(details, vec!["名词", "*", "*", "*", "ce4 shi4", "*", "*", "*"]);
    let _ = CcCedictBuilder::new();
    assert_eq!(CcCedictBuilder::DETAILED_USERDIC_FIELDS_NUM, 12);
}

fn tok(text: &str, details: &[&str]) -> Token {
    Token {
        text: text.to_string(),
        byte_start: 0,
        byte_end: text.len(),
        position: 0,
        position_length: 1,
        word_id: WordId { index: 0, is_system: true },
        details: details.iter().map(|s| s.to_string()).collect(),
    }
}

#[test]
fn wakati_joins_texts_with_spaces() {
    let tokens = vec![tok("すもも", &[]), tok("も", &[]), tok("もも", &[])];
    assert_eq!(wakati_text(&tokens), "すもも も もも");
    assert_eq!(wakati_text(&Vec::new()), "");
}

#[test]
fn mecab_lines_end_with_eos() {
    let tokens = vec![tok("東京", &["名詞", "固有名詞"]), tok("へ", &["助詞"])];
    assert_eq!(mecab_text(&tokens), "東京\t名詞,固有名詞\nへ\t助詞\nEOS\n");
    assert_eq!(mecab_text(&Vec::new()), "EOS\n");
}
