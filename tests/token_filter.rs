use lindera::dictionary::WordId;
use lindera::token_filter::{
    JapaneseKeepTagsTokenFilter, JapaneseKeepTagsTokenFilterConfig, MappingTokenFilter,
    MappingTokenFilterConfig,
};
use lindera::tokenizer::Token;
use lindera::trie::TrieError;

const KEEP_TAGS_CONFIG: &str = r#"
    {
        "tags": [
            "名詞",
            "名詞,一般",
            "名詞,固有名詞",
            "名詞,固有名詞,一般",
            "名詞,固有名詞,人名",
            "名詞,固有名詞,人名,一般",
            "名詞,固有名詞,人名,姓",
            "名詞,固有名詞,人名,名",
            "名詞,固有名詞,組織",
            "名詞,固有名詞,地域",
            "名詞,固有名詞,地域,一般",
            "名詞,固有名詞,地域,国",
            "名詞,代名詞",
            "名詞,代名詞,一般",
            "名詞,代名詞,縮約",
            "名詞,副詞可能",
            "名詞,サ変接続",
            "名詞,形容動詞語幹",
            "名詞,数",
            "名詞,非自立",
            "名詞,非自立,一般",
            "名詞,非自立,副詞可能",
            "名詞,非自立,助動詞語幹",
            "名詞,非自立,形容動詞語幹",
            "名詞,特殊",
            "名詞,特殊,助動詞語幹",
            "名詞,接尾",
            "名詞,接尾,一般",
            "名詞,接尾,人名",
            "名詞,接尾,地域",
            "名詞,接尾,サ変接続",
            "名詞,接尾,助動詞語幹",
            "名詞,接尾,形容動詞語幹",
            "名詞,接尾,副詞可能",
            "名詞,接尾,助数詞",
            "名詞,接続詞的",
            "名詞,動詞非自立的",
            "名詞,引用文字列",
            "名詞,ナイ形容詞語幹"
        ]
    }
"#;

fn keep_tags_config(data: &[u8]) -> JapaneseKeepTagsTokenFilterConfig {
    let value: serde_json::Value = serde_json::from_slice(data).unwrap();
    let tags = value["tags"]
        .as_array()
        .unwrap()
        .iter()
        .map(|v| v.as_str().unwrap().to_string())
        .collect::<Vec<String>>();
    JapaneseKeepTagsTokenFilterConfig::new(tags)
}

fn mapping_config(data: &[u8]) -> MappingTokenFilterConfig {
    let value: serde_json::Value = serde_json::from_slice(data).unwrap();
    let mapping = value["mapping"]
        .as_object()
        .unwrap()
        .iter()
        .map(|(k, v)| (k.clone(), v.as_str().unwrap().to_string()))
        .collect::<Vec<(String, String)>>();
    MappingTokenFilterConfig::new(mapping)
}

fn token(text: &str, start: usize, end: usize, position: usize, id: u32, details: &[&str]) -> Token {
    Token {
        text: text.to_string(),
        byte_start: start,
        byte_end: end,
        position,
        position_length: 1,
        word_id: WordId { index: id, is_system: true },
        details: details.iter().map(|s| s.to_string()).collect(),
    }
}

#[test]
fn test_japanese_keep_tags_token_filter_config_from_slice_ipadic() {
    let config = keep_tags_config(KEEP_TAGS_CONFIG.as_bytes());
    assert_eq!(config.tags.len(), 39);
}

#[test]
fn test_japanese_keep_tags_token_filter_from_slice_ipadic() {
    let config = keep_tags_config(KEEP_TAGS_CONFIG.as_bytes());
    let filter = JapaneseKeepTagsTokenFilter::new(config);
    assert_eq!(filter.name(), "japanese_keep_tags");
}

#[test]
fn test_japanese_keep_tags_token_filter_apply_ipadic() {
    let filter = JapaneseKeepTagsTokenFilter::new(keep_tags_config(KEEP_TAGS_CONFIG.as_bytes()));
    let mut tokens = vec![
        token("すもも", 0, 9, 0, 36165, &["名詞", "一般", "*", "*", "*", "*", "すもも", "スモモ", "スモモ"]),
        token("も", 9, 12, 1, 73246, &["助詞", "係助詞", "*", "*", "*", "*", "も", "モ", "モ"]),
        token("もも", 12, 18, 2, 74990, &["名詞", "一般", "*", "*", "*", "*", "もも", "モモ", "モモ"]),
        token("も", 18, 21, 3, 73246, &["助詞", "係助詞", "*", "*", "*", "*", "も", "モ", "モ"]),
        token("もも", 21, 27, 4, 74990, &["名詞", "一般", "*", "*", "*", "*", "もも", "モモ", "モモ"]),
        token("の", 27, 30, 5, 55831, &["助詞", "連体化", "*", "*", "*", "*", "の", "ノ", "ノ"]),
        token("うち", 30, 36, 6, 8029, &["名詞", "非自立", "副詞可能", "*", "*", "*", "うち", "ウチ", "ウチ"]),
    ];
    filter.apply(&mut tokens);
    assert_eq!(tokens.len(), 4);
    assert_eq!(&tokens[0].text, "すもも");
    assert_eq!(&tokens[1].text, "もも");
    assert_eq!(&tokens[2].text, "もも");
    assert_eq!(&tokens[3].text, "うち");
}

#[test]
fn keep_tags_pads_each_tag_to_four_levels() {
    let config = JapaneseKeepTagsTokenFilterConfig::new(vec![
        "名詞".to_string(),
        "名詞,一般".to_string(),
        "名詞,固有名詞,人名,姓".to_string(),
    ]);
    assert_eq!(config.tags[0], "名詞,*,*,*");
    assert_eq!(config.tags[1], "名詞,一般,*,*");
    assert_eq!(config.tags[2], "名詞,固有名詞,人名,姓");
}

#[test]
fn keep_tags_reads_a_short_detail_list_by_its_first_field() {
    let filter = JapaneseKeepTagsTokenFilter::new(JapaneseKeepTagsTokenFilterConfig::new(vec!["UNK".to_string()]));
    let mut tokens = vec![
        token("x", 0, 1, 0, 0, &["UNK"]),
        token("y", 1, 2, 1, 1, &["名詞", "一般", "*", "*"]),
    ];
    filter.apply(&mut tokens);
    assert_eq!(tokens.len(), 1);
    assert_eq!(&tokens[0].text, "x");
}

const MAPPING_CONFIG: &str = r#"
    {
        "mapping": {
            "ｱ": "ア",
            "ｲ": "イ",
            "ｳ": "ウ",
            "ｴ": "エ",
            "ｵ": "オ"
        }
    }
"#;

#[test]
fn test_mapping_token_filter_config_from_slice() {
    let config = mapping_config(MAPPING_CONFIG.as_bytes());
    let found = config.mapping.iter().find(|(k, _)| k == "ｱ").map(|(_, v)| v.as_str());
    assert_eq!("ア", found.unwrap());
}

#[test]
fn test_mapping_token_filter_from_slice() {
    let result = MappingTokenFilter::new(mapping_config(MAPPING_CONFIG.as_bytes()));
    assert_eq!(true, result.is_ok());
}

#[test]
fn test_mapping_token_filter_apply_ipadic() {
    let config = mapping_config(r#"{ "mapping": { "籠": "篭" } }"#.as_bytes());
    let filter = MappingTokenFilter::new(config).unwrap();
    let mut tokens = vec![
        token("籠原", 0, 6, 0, 312630, &["名詞", "固有名詞", "一般", "*", "*", "*", "籠原", "カゴハラ", "カゴハラ"]),
        token("駅", 6, 9, 1, 383791, &["名詞", "接尾", "地域", "*", "*", "*", "駅", "エキ", "エキ"]),
    ];
    filter.apply(&mut tokens);
    assert_eq!(tokens.len(), 2);
    assert_eq!(&tokens[0].text, "篭原");
    assert_eq!(&tokens[1].text, "駅");
}

#[test]
fn mapping_prefers_the_longest_key() {
    let config = MappingTokenFilterConfig::new(vec![
        ("ab".to_string(), "X".to_string()),
        ("a".to_string(), "Y".to_string()),
    ]);
    let filter = MappingTokenFilter::new(config).unwrap();
    assert_eq!(filter.map_text("abca"), "XcY");
    assert_eq!(filter.map_text(""), "");
}

#[test]
fn mapping_twice_with_disjoint_codomain_is_stable() {
    let config = MappingTokenFilterConfig::new(vec![
        ("ｱ".to_string(), "ア".to_string()),
        ("ｲ".to_string(), "イ".to_string()),
    ]);
    let filter = MappingTokenFilter::new(config).unwrap();
    let once = filter.map_text("ｱｲうｱ");
    assert_eq!(once, "アイうア");
    assert_eq!(filter.map_text(&once), once);
}

#[test]
fn keep_tags_keeps_each_padded_tag_once() {
    let config = JapaneseKeepTagsTokenFilterConfig::new(vec![
        "名詞".to_string(),
        "名詞,一般".to_string(),
        "名詞,*".to_string(),
    ]);
    assert_eq!(config.tags.len(), 2);
    assert!(config.tags.contains(&"名詞,*,*,*".to_string()));
    assert!(config.tags.contains(&"名詞,一般,*,*".to_string()));
}

#[test]
fn mapping_ignores_an_empty_key() {
    let config = MappingTokenFilterConfig::new(vec![
        ("".to_string(), "z".to_string()),
        ("a".to_string(), "b".to_string()),
    ]);
    let filter = MappingTokenFilter::new(config).unwrap();
    assert_eq!(filter.map_text("cat"), "cbt");
}

#[test]
fn mapping_rejects_a_nul_key() {
    let config = MappingTokenFilterConfig::new(vec![("a\0".to_string(), "b".to_string())]);
    assert_eq!(MappingTokenFilter::new(config).err(), Some(TrieError::NulByte));
}

#[test]
fn mapping_rejects_a_repeated_key() {
    let config = MappingTokenFilterConfig::new(vec![
        ("a".to_string(), "x".to_string()),
        ("a".to_string(), "y".to_string()),
    ]);
    assert_eq!(MappingTokenFilter::new(config).err(), Some(TrieError::DuplicateKey));
}

#[test]
fn mapping_of_many_short_keys_and_one_long_key_builds() {
    let letters: Vec<char> = ('a'..='z').chain('A'..='Z').collect();
    let mut pairs = Vec::new();
    for x in &letters {
        for y in &letters {
            pairs.push((format!("{}{}", x, y), "-".to_string()));
        }
    }
    pairs.push(("z".repeat(60), "long".to_string()));
    let filter = MappingTokenFilter::new(MappingTokenFilterConfig::new(pairs)).unwrap();
    assert_eq!(filter.map_text("abc"), "-c");
}
