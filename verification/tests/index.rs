use upodesh::index::FstTree;
use upodesh::order::key_le;

#[test]
fn fst_test_match_longest_common_prefix() {
    let fst = FstTree::from_strings(vec![
        "ক",
        "কখগ",
        "কখগঘঙ",
        "চ",
        "চছজ",
        "চছজঝঞ",
        "১",
        "a",
        "bc",
        "abcd",
    ]);

    assert_eq!(fst.match_longest_common_prefix("ক"), ("ক", "", true));
    assert_eq!(
        fst.match_longest_common_prefix("ক1234"),
        ("ক", "1234", true)
    );
    assert_eq!(fst.match_longest_common_prefix("1234"), ("", "1234", false));
    assert_eq!(
        fst.match_longest_common_prefix("কখগঘঙচছজঝঞ"),
        ("কখগঘঙ", "চছজঝঞ", true)
    );

    assert_eq!(fst.match_longest_common_prefix("a"), ("a", "", true));
    assert_eq!(fst.match_longest_common_prefix("a123"), ("a", "123", true));
    assert_eq!(
        fst.match_longest_common_prefix("abcdefg"),
        ("abcd", "efg", true)
    );
}

#[test]
fn fst_test_find_matching_node() {
    let fst = FstTree::from_strings(vec!["ক", "কখ", "কখগঘঙচছ"]);

    let n1 = fst.matching_node("ক").unwrap();

    let n2 = n1.get_matching_node("খ").unwrap();

    _ = n2.get_matching_node("গঘ").unwrap();

    _ = fst.matching_node("কখগঘ").unwrap();
}

#[test]
fn test_get_word() {
    let trie = FstTree::from_strings(vec!["ক", "কখ", "কখগঘঙচছ"]);

    let n1 = trie.matching_node("ক").unwrap();
    assert_eq!(n1.clone().get_word(), Some("ক".to_string()));

    let n2 = n1.get_matching_node("খ").unwrap();
    assert_eq!(n2.clone().get_word(), Some("কখ".to_string()));

    let n3 = n2.get_matching_node("গঘ").unwrap();
    assert_eq!(n3.get_word(), None);

    let n4 = trie.matching_node("কখগঘ").unwrap();
    assert_eq!(n4.get_word(), None);
}

#[test]
fn the_place_of_a_key_gives_the_key_back() {
    let words = vec!["ক", "কখ", "কখগঘঙচছ", "চ", "abc", ""];
    let tree = FstTree::from_strings(words.clone());

    for word in words {
        assert_eq!(tree.matching_node(word).unwrap().get_word(), Some(word.to_string()));
    }
}

#[test]
fn keys_may_come_in_any_order_and_more_than_once() {
    let tree = FstTree::from_strings(vec!["খ", "ক", "খ", "a", "কখ", "ক"]);

    assert_eq!(tree.match_longest_common_prefix("কখগ"), ("কখ", "গ", true));
    assert_eq!(tree.match_longest_common_prefix("খ"), ("খ", "", true));
    assert_eq!(tree.match_longest_common_prefix("ab"), ("a", "b", true));
    assert!(tree.matching_node("গ").is_none());
}

#[test]
fn an_index_read_from_its_bytes_holds_the_same_keys() {
    let words = vec!["চছজ", "ক", "কখগ"];
    let tree = FstTree::from_fst(upodesh::index::index_bytes(&words));

    assert_eq!(tree.match_longest_common_prefix("কখগঘ"), ("কখগ", "ঘ", true));
    assert_eq!(tree.match_longest_common_prefix("কখ"), ("কখ", "", false));
    assert_eq!(tree.match_longest_common_prefix("চছজ"), ("চছজ", "", true));
    assert_eq!(tree.match_longest_common_prefix("ছ"), ("", "ছ", false));
}

#[test]
fn the_walk_of_the_empty_string_is_empty() {
    let tree = FstTree::from_strings(vec!["ক"]);
    assert_eq!(tree.match_longest_common_prefix(""), ("", "", false));
    assert_eq!(tree.matching_node("").unwrap().get_word(), None);

    let with_empty = FstTree::from_strings(vec!["", "ক"]);
    assert_eq!(with_empty.match_longest_common_prefix(""), ("", "", true));
    assert_eq!(with_empty.match_longest_common_prefix("x"), ("", "x", true));

    let none = FstTree::from_strings(vec![]);
    assert_eq!(none.match_longest_common_prefix("ক"), ("", "ক", false));
    assert!(none.matching_node("ক").is_none());
}

#[test]
fn a_place_is_extended_scalar_by_scalar() {
    let tree = FstTree::from_strings(vec!["কখ", "কগঘ"]);
    let root = tree.matching_node("").unwrap();

    let k = root.get_matching_node_by_char('ক').unwrap();
    assert_eq!(k.clone().get_word(), None);
    assert_eq!(k.get_matching_node_by_char('খ').unwrap().get_word(), Some("কখ".to_string()));
    assert!(k.get_matching_node_by_char('ঘ').is_none());
    assert_eq!(k.get_matching_node("গঘ").unwrap().get_word(), Some("কগঘ".to_string()));
    assert!(k.get_matching_node("গঘঙ").is_none());
    assert_eq!(k.get_matching_node("").unwrap().get_word(), None);
}

#[test]
fn scalars_are_told_apart_by_their_low_byte_only() {
    assert_eq!(upodesh::encoding::low_byte('ক'), 0x95);
    assert_eq!(upodesh::encoding::low_byte('a'), 0x61);
    assert_eq!(upodesh::encoding::low_byte('\u{195}'), 0x95);
    assert_eq!(upodesh::encoding::encode_str("কa১"), vec![0x95, 0x61, 0xe7]);
    assert_eq!(upodesh::encoding::encode_str(""), Vec::<u8>::new());

    let tree = FstTree::from_strings(vec!["ক"]);
    assert_eq!(tree.matching_node("\u{195}").unwrap().get_word(), Some("\u{195}".to_string()));
}

#[test]
fn keys_are_ordered_byte_by_byte() {
    assert!(key_le(b"", b""));
    assert!(key_le(b"", b"a"));
    assert!(!key_le(b"a", b""));
    assert!(key_le(b"a", b"ab"));
    assert!(!key_le(b"ab", b"a"));
    assert!(key_le(b"ab", b"b"));
    assert!(!key_le(b"b", b"ab"));
    assert!(key_le(b"ab", b"ab"));
    assert!(key_le(&[0x61, 0x95], &[0x95]));
}
