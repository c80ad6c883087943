use upodesh::generate::{block_of, explode_block, sorted_unique, RegexBlock};

fn strings(list: &[&str]) -> Vec<String> {
    list.iter().map(|s| s.to_string()).collect()
}

#[test]
fn a_pattern_is_expanded_to_its_fragments_in_order() {
    let source = RegexBlock {
        transliterate: "([\u{993}\u{9cb}\u{985}]|(\u{985}\u{9cd}\u{9af})|(\u{9df}\u{9cb}?))?".to_string(),
        entire_block_optional: Some(true),
    };
    let block = explode_block(&source).unwrap();

    assert_eq!(
        block.transliterate,
        strings(&[
            "\u{985}",
            "\u{985}\u{9cd}\u{9af}",
            "\u{993}",
            "\u{9cb}",
            "\u{9df}",
            "\u{9df}\u{9cb}"
        ])
    );
    assert_eq!(block.entire_block_optional, Some(true));
}

#[test]
fn a_pattern_of_one_literal_has_one_fragment() {
    let source = RegexBlock { transliterate: "ক".to_string(), entire_block_optional: None };
    let block = explode_block(&source).unwrap();

    assert_eq!(block.transliterate, strings(&["ক"]));
    assert_eq!(block.entire_block_optional, None);
}

#[test]
fn a_pattern_that_does_not_parse_has_no_block() {
    let source = RegexBlock { transliterate: "(ক".to_string(), entire_block_optional: None };

    assert!(explode_block(&source).is_none());
}

#[test]
fn fragments_are_kept_once_without_the_empty_one() {
    let sorted = sorted_unique(strings(&["খ", "", "ক", "খ", "কখ", "a", "", "ক"]));

    assert_eq!(sorted, strings(&["a", "ক", "কখ", "খ"]));
    assert_eq!(sorted_unique(vec![]), Vec::<String>::new());
    assert_eq!(sorted_unique(strings(&["", ""])), Vec::<String>::new());
}

#[test]
fn a_block_keeps_the_flag_it_was_given() {
    assert_eq!(block_of(strings(&["b", "a"]), Some(false)).entire_block_optional, Some(false));
    assert_eq!(block_of(strings(&["b", "a"]), None).transliterate, strings(&["a", "b"]));
}
