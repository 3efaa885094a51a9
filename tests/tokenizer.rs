use std::collections::BTreeMap;

use lindera::dictionary::{
    CategoryData, CharacterDefinition, ConnectionCostMatrix, Dictionary, WordEntry, WordId, WordTable,
};
use lindera::error::LinderaErrorKind;
use lindera::tokenizer::{Token, Tokenizer};
use lindera::trie::{bytes_lt, PrefixDict, TrieError};

/// A word table of (surface, left id, right id, cost) rows; row `i` is entry `i`.
fn table(rows: &[(&str, u16, u16, i16)], is_system: bool) -> WordTable {
    let mut groups: BTreeMap<Vec<u8>, Vec<u32>> = BTreeMap::new();
    for (i, row) in rows.iter().enumerate() {
        groups.entry(row.0.as_bytes().to_vec()).or_default().push(i as u32);
    }
    let keys: Vec<(Vec<u8>, Vec<u32>)> = groups.into_iter().collect();
    let entries = rows
        .iter()
        .enumerate()
        .map(|(i, r)| WordEntry {
            word_id: WordId { index: i as u32, is_system },
            left_id: r.1,
            right_id: r.2,
            word_cost: r.3,
        })
        .collect();
    let details = rows.iter().map(|r| vec![r.0.to_string()]).collect();
    WordTable { index: PrefixDict::new(&keys).unwrap(), entries, details }
}

fn no_categories() -> CharacterDefinition {
    CharacterDefinition { categories: vec![], unknown_entries: vec![], ranges: vec![] }
}

fn dictionary(rows: &[(&str, u16, u16, i16)], size: usize, costs: Vec<i16>) -> Dictionary {
    dictionary_with(rows, size, costs, no_categories())
}

fn dictionary_with(rows: &[(&str, u16, u16, i16)], size: usize, costs: Vec<i16>, char_def: CharacterDefinition) -> Dictionary {
    Dictionary {
        words: table(rows, true),
        matrix: ConnectionCostMatrix::new(size, costs).unwrap(),
        char_def,
        unknown: WordEntry {
            word_id: WordId { index: u32::MAX, is_system: true },
            left_id: 0,
            right_id: 0,
            word_cost: 5000,
        },
        unknown_details: vec!["UNK".to_string()],
    }
}

fn texts(tokens: &[Token]) -> Vec<&str> {
    tokens.iter().map(|t| t.text.as_str()).collect()
}

/// Nouns (id 1) and particles (id 2) that must alternate.
fn sumomo() -> Tokenizer {
    let rows = [
        ("すもも", 1, 1, 100),
        ("もも", 1, 1, 100),
        ("うち", 1, 1, 100),
        ("も", 2, 2, 100),
        ("の", 2, 2, 100),
    ];
    let costs = vec![
        0, 0, 0, //
        0, 1000, 0, //
        0, 0, 1000,
    ];
    Tokenizer::new(dictionary(&rows, 3, costs), None)
}

fn check_partition(text: &str, tokens: &[Token]) {
    let joined: String = tokens.iter().map(|t| t.text.as_str()).collect();
    assert_eq!(joined, text);
    let mut at = 0;
    for (i, t) in tokens.iter().enumerate() {
        assert_eq!(t.byte_start, at);
        assert!(t.byte_end > t.byte_start);
        assert_eq!(&text[t.byte_start..t.byte_end], t.text);
        assert_eq!(t.position, i);
        at = t.byte_end;
    }
    assert_eq!(at, text.len());
}

#[test]
fn segments_sumomo_into_seven_tokens() {
    let tokenizer = sumomo();
    let text = "すもももももももものうち";
    let tokens = tokenizer.tokenize(text);
    assert_eq!(texts(&tokens), vec!["すもも", "も", "もも", "も", "もも", "の", "うち"]);
    assert_eq!(tokens[1].byte_start, 9);
    assert_eq!(tokens[1].byte_end, 12);
    assert_eq!(tokens[0].details, vec!["すもも".to_string()]);
    check_partition(text, &tokens);
}

#[test]
fn tokens_rejoin_to_the_input() {
    let tokenizer = sumomo();
    for text in ["すもも", "abcすもも", "もxも", "のうちの", "é日本"] {
        let tokens = tokenizer.tokenize(text);
        assert!(!tokens.is_empty());
        check_partition(text, &tokens);
    }
}

#[test]
fn empty_input_gives_no_tokens() {
    assert!(sumomo().tokenize("").is_empty());
}

#[test]
fn unknown_text_falls_back_to_one_code_point_per_token() {
    let tokens = sumomo().tokenize("xé");
    assert_eq!(texts(&tokens), vec!["x", "é"]);
    assert_eq!(tokens[0].word_id, WordId { index: u32::MAX, is_system: true });
    assert_eq!(tokens[1].details, vec!["UNK".to_string()]);
}

#[test]
fn cheaper_connection_wins() {
    // A (right id 1) may be followed by B (left id 2, cost 0) or C (left id 3, cost 1000).
    let rows = [("a", 1, 1, 0), ("b", 2, 2, 0), ("bc", 3, 3, 0), ("c", 2, 2, 0)];
    let mut costs = vec![0i16; 16];
    costs[1 * 4 + 3] = 1000;
    let tokenizer = Tokenizer::new(dictionary(&rows, 4, costs), None);
    let tokens = tokenizer.tokenize("abc");
    assert_eq!(texts(&tokens), vec!["a", "b", "c"]);
}

#[test]
fn repeated_runs_pick_the_same_word() {
    // Two entries with one surface and one cost: the lower index wins every time.
    let rows = [("x", 0, 0, 10), ("x", 0, 0, 10)];
    let tokenizer = Tokenizer::new(dictionary(&rows, 1, vec![0]), None);
    let first = tokenizer.tokenize("xx");
    for _ in 0..3 {
        let again = tokenizer.tokenize("xx");
        assert_eq!(again.len(), first.len());
        for (a, b) in again.iter().zip(first.iter()) {
            assert_eq!(a.word_id, b.word_id);
        }
    }
    assert_eq!(first[0].word_id.index, 0);
}

#[test]
fn user_entry_beats_the_system_decomposition() {
    let rows = [("東京", 0, 0, 100), ("スカイ", 0, 0, 100), ("ツリー", 0, 0, 100)];
    let user = table(&[("東京スカイツリー", 0, 0, -10000)], false);
    let tokenizer = Tokenizer::new(dictionary(&rows, 1, vec![0]), Some(user));
    let tokens = tokenizer.tokenize("東京スカイツリーへ");
    assert_eq!(texts(&tokens), vec!["東京スカイツリー", "へ"]);
    assert_eq!(tokens[0].word_id, WordId { index: 0, is_system: false });
    assert_eq!(tokens[0].details, vec!["東京スカイツリー".to_string()]);

    let plain = Tokenizer::new(dictionary(&rows, 1, vec![0]), None);
    assert_eq!(texts(&plain.tokenize("東京スカイツリー")), vec!["東京", "スカイ", "ツリー"]);
}

#[test]
fn matrix_of_wrong_length_is_refused() {
    assert!(ConnectionCostMatrix::new(2, vec![0, 0, 0]).is_none());
    assert!(ConnectionCostMatrix::new(0, vec![]).is_none());
    let m = ConnectionCostMatrix::new(2, vec![1, 2, 3, 4]).unwrap();
    assert_eq!(m.cost(1, 0), 3);
    assert_eq!(m.cost(0, 1), 2);
}

#[test]
fn prefix_search_finds_every_stored_prefix() {
    let keys: Vec<(Vec<u8>, Vec<u32>)> = ["a", "ab", "aba", "ac", "b", "caa"]
        .iter()
        .enumerate()
        .map(|(i, k)| (k.as_bytes().to_vec(), vec![i as u32]))
        .collect();
    let dict = PrefixDict::new(&keys).unwrap();
    let mut found = dict.common_prefix_search(b"abaa");
    found.sort();
    assert_eq!(found, vec![(1, 0), (2, 1), (3, 2)]);
    assert_eq!(dict.common_prefix_search(b"caa"), vec![(3, 5)]);
    assert!(dict.common_prefix_search(b"d").is_empty());
    assert!(dict.common_prefix_search(b"").is_empty());
}

#[test]
fn prefix_dict_reports_each_bad_keyset() {
    let unsorted = vec![(b"b".to_vec(), vec![0]), (b"a".to_vec(), vec![1])];
    assert_eq!(PrefixDict::new(&unsorted).err(), Some(TrieError::NotSorted));
    let repeated = vec![(b"a".to_vec(), vec![0]), (b"a".to_vec(), vec![1])];
    // a NUL byte in a query stops the search there
    let ab = PrefixDict::new(&vec![(b"ab".to_vec(), vec![0])]).unwrap();
    assert!(ab.common_prefix_search(b"a\0b").is_empty());
    assert_eq!(ab.common_prefix_search(b"ab\0"), vec![(2, 0)]);
    assert_eq!(PrefixDict::new(&repeated).err(), Some(TrieError::NotSorted));
    let empty_key = vec![(Vec::new(), vec![0])];
    assert_eq!(PrefixDict::new(&empty_key).err(), Some(TrieError::EmptyKey));
    let nul = vec![(vec![b'a', 0], vec![0])];
    assert_eq!(PrefixDict::new(&nul).err(), Some(TrieError::NulByte));
    assert!(PrefixDict::new(&Vec::new()).is_ok());
    let huge = vec![(vec![b'a'; 0x20_0000], vec![0])];
    assert_eq!(PrefixDict::new(&huge).err(), Some(TrieError::TooLarge));
}

#[test]
fn byte_order_is_lexicographic() {
    assert!(bytes_lt(b"a", b"ab"));
    assert!(bytes_lt(b"ab", b"b"));
    assert!(!bytes_lt(b"b", b"ab"));
    assert!(!bytes_lt(b"a", b"a"));
}

/// Digits (category 0) do not invoke unknown words; ASCII letters (category 1)
/// do, grouped in runs of at most three.
fn categories() -> CharacterDefinition {
    let entry = |index: u32| WordEntry {
        word_id: WordId { index, is_system: true },
        left_id: 0,
        right_id: 0,
        word_cost: 100,
    };
    CharacterDefinition {
        categories: vec![
            CategoryData { invoke: false, group: true, length: 0 },
            CategoryData { invoke: true, group: true, length: 3 },
        ],
        unknown_entries: vec![entry(7000), entry(7001)],
        ranges: vec![(0x30, 0x39, 0), (0x61, 0x7a, 1)],
    }
}

#[test]
fn category_without_invoke_makes_no_unknown_words() {
    let tokenizer = Tokenizer::new(dictionary_with(&[("9a", 0, 0, 50)], 1, vec![0], categories()), None);
    let tokens = tokenizer.tokenize("12");
    assert_eq!(texts(&tokens), vec!["1", "2"]);
    // only the generic fallback covers the digits
    assert!(tokens.iter().all(|t| t.word_id == WordId { index: u32::MAX, is_system: true }));
    // a dictionary entry overlapping a digit still covers it
    let tokens = tokenizer.tokenize("9ab");
    assert_eq!(texts(&tokens), vec!["9a", "b"]);
    assert_eq!(tokens[1].word_id, WordId { index: 7001, is_system: true });
}

#[test]
fn grouping_category_joins_a_run_up_to_its_length() {
    let tokenizer = Tokenizer::new(dictionary_with(&[], 1, vec![0], categories()), None);
    let tokens = tokenizer.tokenize("abcde1");
    assert_eq!(texts(&tokens), vec!["abc", "de", "1"]);
    assert_eq!(tokens[0].word_id, WordId { index: 7001, is_system: true });
    check_partition("abcde1", &tokens);
}

#[test]
fn matrix_resource_decodes_little_endian_costs() {
    let data = [2u8, 0, 2, 0, 1, 0, 0xff, 0xff, 0x10, 0x27, 0xf0, 0xd8];
    let m = ConnectionCostMatrix::load(Some(&data)).unwrap();
    assert_eq!(m.size, 2);
    assert_eq!(m.costs, vec![1, -1, 10000, -10000]);
    assert_eq!(m.cost(1, 1), -10000);
}

#[test]
fn missing_matrix_resource_is_an_io_error_naming_it() {
    let err = ConnectionCostMatrix::load(None).err().unwrap();
    assert_eq!(err.kind, LinderaErrorKind::Io);
    assert_eq!(err.message, "matrix.mtx is missing");
}

#[test]
fn malformed_matrix_resource_is_a_deserialize_error() {
    for data in [&[2u8, 0][..], &[2, 0, 3, 0, 0, 0][..], &[1, 0, 1, 0, 5][..], &[0, 0, 0, 0][..]] {
        let err = ConnectionCostMatrix::load(Some(data)).err().unwrap();
        assert_eq!(err.kind, LinderaErrorKind::Deserialize);
    }
}
