use upodesh::avro::suggest::Block;
use upodesh::patterns::Patterns;
use upodesh::trie::Trie;
use upodesh::words::Words;

#[test]
fn trie_test_find_matching_node() {
    let trie = Trie::from_strings(vec!["ক", "কখ", "কখগঘঙচছ"]);

    let n1 = trie.matching_node("ক").unwrap();

    let n2 = n1.get_matching_node("খ").unwrap();

    _ = n2.get_matching_node("গঘ").unwrap();

    _ = trie.matching_node("কখগঘ").unwrap();
}

#[test]
fn test_is_complete_word() {
    let trie = Trie::from_strings(vec!["ক", "কখ", "কখগঘঙচছ"]);

    let n1 = trie.matching_node("ক").unwrap();
    assert!(n1.is_complete_word());

    let n2 = n1.get_matching_node("খ").unwrap();
    assert!(n2.is_complete_word());

    let n3 = n2.get_matching_node("গঘ").unwrap();
    assert!(!n3.is_complete_word());

    let n4 = trie.matching_node("কখগঘ").unwrap();
    assert!(!n4.is_complete_word());
}

#[test]
fn test_match_prefix() {
    let trie = Trie::from_strings(vec!["ক", "কখগ", "কখগঘঙ", "চ", "চছজ", "চছজঝঞ", "১"]);

    assert_eq!(trie.match_prefix("ক"), vec!["কখগ", "কখগঘঙ", "ক"]);
    assert_eq!(trie.match_prefix("কখ"), vec!["কখগ", "কখগঘঙ"]);
    assert_eq!(trie.match_prefix("চছজঝঞ"), vec!["চছজঝঞ"]);
    assert_eq!(trie.match_prefix("২"), Vec::<String>::new());
    assert_eq!(trie.match_prefix(""), Vec::<String>::new());
}

#[test]
fn trie_test_match_longest_common_prefix() {
    let trie = Trie::from_strings(vec!["ক", "কখগ", "কখগঘঙ", "চ", "চছজ", "চছজঝঞ", "১"]);

    assert_eq!(trie.match_longest_common_prefix("ক"), ("ক", "", true));
    assert_eq!(
        trie.match_longest_common_prefix("ক1234"),
        ("ক", "1234", true)
    );
    assert_eq!(
        trie.match_longest_common_prefix("1234"),
        ("", "1234", false)
    );
    assert_eq!(
        trie.match_longest_common_prefix("কখগঘঙচছজঝঞ"),
        ("কখগঘঙ", "চছজঝঞ", true)
    );
}

#[test]
fn test_patterns_loading() {
    let dict = vec![
        (
            "a".to_string(),
            Block {
                transliterate: vec!["আ".to_string(), "া".to_string()],
                entire_block_optional: None,
            },
        ),
        (
            "o".to_string(),
            Block {
                transliterate: vec!["ো".to_string(), "ও".to_string(), "অ".to_string()],
                entire_block_optional: Some(true),
            },
        ),
    ];
    let patterns = Patterns::new(dict, vec!["ঁ".to_string()]);

    let optional_block = patterns.get("o").unwrap();
    assert!(optional_block.entire_block_optional.is_some());
}

#[test]
fn test_words_load() {
    _ = Words::new(vec!["আম", " আমরা ", "আপনি\r"]);
}

#[test]
fn match_prefix_lists_children_in_scalar_order() {
    let trie = Trie::from_strings(vec!["খগ", "ক", "খ", "কগ", "কক"]);

    assert_eq!(trie.match_prefix("ক"), vec!["কক", "কগ", "ক"]);
    assert_eq!(trie.match_prefix("খx"), vec!["খগ", "খ"]);
}

#[test]
fn trie_of_no_words_reaches_nothing() {
    let trie = Trie::from_strings(vec![]);

    assert!(trie.matching_node("ক").is_none());
    assert!(trie.matching_node("").is_some());
    assert_eq!(trie.match_longest_common_prefix(""), ("", "", false));
    assert_eq!(trie.match_longest_common_prefix("ক"), ("", "ক", false));
}

#[test]
fn inserting_a_word_twice_changes_nothing() {
    let mut trie = Trie::from_strings(vec!["কখ"]);
    trie.insert("কখ");
    trie.insert("ক");

    assert_eq!(trie.match_prefix("ক"), vec!["কখ", "ক"]);
    assert_eq!(trie.matching_node("কখ").unwrap().get_word(), Some("কখ"));
}

#[test]
fn words_are_trimmed_line_by_line() {
    let words = Words::new(vec!["আম", " আমরা ", "আপনি\r"]);

    assert!(words.trie.matching_node("আমরা").unwrap().is_complete_word());
    assert!(words.trie.matching_node("আপনি").unwrap().is_complete_word());
    assert!(words.trie.matching_node(" আমরা").is_none());
    assert!(!words.trie.matching_node("আ").unwrap().is_complete_word());
}

#[test]
fn patterns_hold_a_trie_of_their_keys() {
    let dict = vec![
        ("k".to_string(), Block { transliterate: vec!["ক".to_string()], entire_block_optional: None }),
        ("kh".to_string(), Block { transliterate: vec!["খ".to_string()], entire_block_optional: None }),
    ];
    let patterns = Patterns::new(dict, vec![]);

    assert_eq!(patterns.trie.match_longest_common_prefix("khet"), ("kh", "et", true));
    assert_eq!(patterns.get("kh").unwrap().transliterate, vec!["খ".to_string()]);
    assert!(patterns.get("").is_none());
    assert!(patterns.get("x").is_none());
}
