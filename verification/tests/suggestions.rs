use upodesh::avro::suggest::{Block, Suggest};
use upodesh::bangla;
use upodesh::index::FstTree;

fn block(fragments: &[&str], optional: bool) -> Block {
    Block {
        transliterate: fragments.iter().map(|s| s.to_string()).collect(),
        entire_block_optional: if optional { Some(true) } else { None },
    }
}

fn patterns() -> Vec<(String, Block)> {
    vec![
        ("O".to_string(), block(&["অ", "ও"], false)),
        ("o".to_string(), block(&["ো", "ও", "অ", "অ্য", "য়", "য়ো"], true)),
        ("a".to_string(), block(&["আ", "া", "অ", "এ", "অ্যা", "য়া"], false)),
        ("b".to_string(), block(&["ব"], false)),
        ("c".to_string(), block(&["চ", "ছ"], false)),
        ("ch".to_string(), block(&["চ", "ছ"], false)),
        ("d".to_string(), block(&["দ", "ড"], false)),
        ("dh".to_string(), block(&["ধ", "ঢ"], false)),
        ("e".to_string(), block(&["ে", "এ", "্যা", "অ্যা"], false)),
        ("g".to_string(), block(&["গ"], false)),
        ("h".to_string(), block(&["হ", "ঃ"], false)),
        ("i".to_string(), block(&["ি", "ী", "ই", "ঈ"], false)),
        ("k".to_string(), block(&["ক"], false)),
        ("kh".to_string(), block(&["খ"], false)),
        ("kkh".to_string(), block(&["ক্ষ", "খ", "ঃখ"], false)),
        ("l".to_string(), block(&["ল"], false)),
        ("m".to_string(), block(&["ম"], false)),
        ("n".to_string(), block(&["ন", "ণ"], false)),
        ("ng".to_string(), block(&["ং", "ঙ", "ঙ্গ"], false)),
        ("oo".to_string(), block(&["ু", "ূ", "উ", "ঊ", "ো"], false)),
        ("p".to_string(), block(&["প"], false)),
        ("r".to_string(), block(&["র", "ড়", "ঢ়"], false)),
        ("s".to_string(), block(&["স", "শ", "ষ"], false)),
        ("sh".to_string(), block(&["শ", "ষ", "স"], false)),
        ("t".to_string(), block(&["ত", "ট", "ৎ"], false)),
        ("th".to_string(), block(&["থ", "ঠ"], false)),
        ("u".to_string(), block(&["ু", "ূ", "উ", "ঊ"], false)),
    ]
}

fn common_suffixes() -> Vec<String> {
    vec!["ঁ", "্", "্ব", "্ম", "্য"].into_iter().map(|s: &str| s.to_string()).collect()
}

const WORDS: [&str; 79] = [
    "অংশ", "অংশচ্ছেদ", "অমরা", "অশ্ব", "অশ্ম", "আঁশ",
    "আইনস্টাইন", "আপনি", "আম", "আমরা", "আমাদের", "আমান",
    "আমার", "আমায়", "আমড়া", "আশ", "আস", "ইজ",
    "ইট", "ইটভাটা", "ইন", "ইফ", "ইভ", "ইহ",
    "এবং", "এবংবিধ", "এস", "কম্পন", "কম্পিউটার", "কম্পিউটিং",
    "কম্পিউটেশন", "কম্পিটিশন", "কম্পিত", "কম্পিতা", "ক্ষেত", "খেঁট",
    "খেট", "খেত", "খেলা", "খ্যাঁট", "খ্যাঁত", "খ্যাত",
    "চুপ", "চুল", "চুলা", "চূল", "চোল", "ছুঁল",
    "ছুপ", "ছুল", "ছোল", "দুঃখ", "দুঃখিত", "দুখ",
    "লাল", "লালরং", "লালরঙ", "লালশাক", "শকতি", "শক্তি",
    "শক্তিশালী", "শারি", "শারী", "শাড়ি", "শাড়ী", "শেষ",
    "ষাঁড়", "সক্তি", "সার", "সারি", "সারিবদ্ধ", "সারী",
    "সার্ব", "সাড়", "সাড়ি", "সাড়ী", "সেস", "স্বাধীনতা",
    "স্মঅরী",
];

fn dictionary() -> FstTree {
    FstTree::from_strings(WORDS.to_vec())
}

fn pattern_index() -> FstTree {
    let table = patterns();
    FstTree::from_strings(table.iter().map(|(key, _)| key.as_str()).collect())
}

fn sort(mut vec: Vec<String>) -> Vec<String> {
    vec.sort();
    vec
}

#[test]
fn suggest_test_suggestions() {
    let index = pattern_index();
    let words = dictionary();
    let suggest = Suggest::new(patterns(), common_suffixes(), &index, &words);

    assert_eq!(
        sort(suggest.suggest("sari")),
        vec!["শারি", "শারী", "শাড়ি", "শাড়ী", "সারি", "সারী", "সাড়ি", "সাড়ী", "স্মঅরী"]
    );
    assert_eq!(
        sort(suggest.suggest("sar")),
        vec!["ষাঁড়", "সার", "সার্ব", "সাড়"]
    );
    assert_eq!(
        sort(suggest.suggest("amra")),
        vec!["অমরা", "আমরা", "আমড়া"]
    );
    assert_eq!(
        sort(suggest.suggest("lalshak")),
        vec!["লালশাক"]
    );
    assert_eq!(
        sort(suggest.suggest("lalrong")),
        vec!["লালরং", "লালরঙ"]
    );
    assert_eq!(
        sort(suggest.suggest("ongshochched")),
        vec!["অংশচ্ছেদ"]
    );
    assert_eq!(
        sort(suggest.suggest("ongshocched")),
        vec!["অংশচ্ছেদ"]
    );
    assert_eq!(
        sort(suggest.suggest("shadhinota")),
        vec!["স্বাধীনতা"]
    );
    assert_eq!(
        sort(suggest.suggest("dukkho")),
        vec!["দুঃখ", "দুখ"]
    );
    assert_eq!(
        sort(suggest.suggest("cool")),
        vec!["চুল", "চূল", "চোল", "ছুঁল", "ছুল", "ছোল"]
    );
    assert_eq!(
        sort(suggest.suggest("shokti")),
        vec!["শকতি", "শক্তি", "সক্তি"]
    );
    assert_eq!(
        sort(suggest.suggest("chup")),
        vec!["চুপ", "ছুপ"]
    );
    assert_eq!(
        sort(suggest.suggest("as")),
        vec!["অশ্ব", "অশ্ম", "আঁশ", "আশ", "আস", "এস"]
    );
    assert_eq!(
        sort(suggest.suggest("apni")),
        vec!["আপনি"]
    );
    assert_eq!(
        sort(suggest.suggest("kkhet")),
        vec!["ক্ষেত", "খেঁট", "খেট", "খেত", "খ্যাঁট", "খ্যাঁত", "খ্যাত"]
    );
    assert_eq!(
        sort(suggest.suggest("ebong")),
        vec!["এবং"]
    );
    assert_eq!(
        sort(suggest.suggest("shesh")),
        vec!["শেষ", "সেস"]
    );
}

#[test]
fn test_empty_suggestion() {
    let index = pattern_index();
    let words = dictionary();
    let suggest = Suggest::new(patterns(), common_suffixes(), &index, &words);

    assert_eq!(suggest.suggest("6t``"), Vec::<String>::new());
    assert_eq!(suggest.suggest("6t`"), Vec::<String>::new());
    assert_eq!(suggest.suggest("t6th"), Vec::<String>::new());
}

#[test]
fn mod_test_suggestions() {
    let words = dictionary();

    assert_eq!(
        sort(sort(bangla::suggest(&words, "আমা"))),
        ["আমান", "আমার", "আমায়"]
    );
    assert_eq!(
        sort(sort(bangla::suggest(&words, "ই"))),
        ["ইজ", "ইট", "ইন", "ইফ", "ইভ", "ইহ"]
    );
    assert_eq!(
        sort(sort(bangla::suggest(&words, "কম্পি"))),
        ["কম্পিউটার", "কম্পিউটিং", "কম্পিউটেশন", "কম্পিটিশন", "কম্পিত", "কম্পিতা"]
    );
    assert_eq!(
        sort(sort(bangla::suggest(&words, "আইনস্"))),
        ["আইনস্টাইন"]
    );
    assert_eq!(sort(sort(bangla::suggest(&words, "খ(১"))), Vec::<String>::new());
    assert_eq!(sort(sort(bangla::suggest(&words, "1"))), Vec::<String>::new());
}

#[test]
fn empty_input_gives_nothing() {
    let index = pattern_index();
    let words = dictionary();
    let suggest = Suggest::new(patterns(), common_suffixes(), &index, &words);

    assert_eq!(suggest.suggest(""), Vec::<String>::new());
    assert_eq!(suggest.suggest("   "), Vec::<String>::new());
    assert_eq!(suggest.suggest("!?"), Vec::<String>::new());
    assert_eq!(bangla::suggest(&words, ""), Vec::<String>::new());
}

#[test]
fn suggestions_are_dictionary_words_without_repeats() {
    let index = pattern_index();
    let words = dictionary();
    let suggest = Suggest::new(patterns(), common_suffixes(), &index, &words);

    for input in ["sari", "as", "cool", "kkhet", "shokti", "a", "s", "O", "lal", "ongsho"] {
        let found = suggest.suggest(input);
        for word in &found {
            assert!(WORDS.contains(&word.as_str()), "{} is no word", word);
        }
        let mut once = found.clone();
        once.sort();
        once.dedup();
        assert_eq!(once.len(), found.len());
    }
    for prefix in ["আ", "আম", "আমা", "কম্পি", "ই"] {
        let found = bangla::suggest(&words, prefix);
        for word in &found {
            assert!(WORDS.contains(&word.as_str()), "{} is no word", word);
            assert!(word.starts_with(prefix));
        }
        let mut once = found.clone();
        once.sort();
        once.dedup();
        assert_eq!(once.len(), found.len());
    }
}

#[test]
fn a_word_is_suggested_for_its_roman_spelling() {
    let index = pattern_index();
    let words = dictionary();
    let suggest = Suggest::new(patterns(), common_suffixes(), &index, &words);

    for (roman, word) in [
        ("apni", "আপনি"),
        ("ebong", "এবং"),
        ("shokti", "শক্তি"),
        ("amra", "আমরা"),
        ("lal", "লাল"),
        ("ongsho", "অংশ"),
        ("dukkho", "দুঃখ"),
        ("chul", "চুল"),
    ] {
        assert!(suggest.suggest(roman).contains(&word.to_string()), "{} for {}", word, roman);
    }
}

#[test]
fn the_same_input_gives_the_same_words_again() {
    let index = pattern_index();
    let words = dictionary();
    let suggest = Suggest::new(patterns(), common_suffixes(), &index, &words);

    for input in ["sari", "kkhet", "t6th", ""] {
        assert_eq!(sort(suggest.suggest(input)), sort(suggest.suggest(input)));
    }
    assert_eq!(sort(bangla::suggest(&words, "কম্পি")), sort(bangla::suggest(&words, "কম্পি")));
}

#[test]
fn a_longer_input_need_not_give_more_of_the_same() {
    let index = pattern_index();
    let words = dictionary();
    let suggest = Suggest::new(patterns(), common_suffixes(), &index, &words);

    let short = suggest.suggest("sar");
    let long = suggest.suggest("sari");
    assert!(short.iter().any(|word| !long.contains(word)));
    assert!(long.iter().any(|word| !short.contains(word)));
}

fn small(optional: Option<bool>) -> Vec<(String, Block)> {
    vec![
        ("k".to_string(), block(&["ক"], false)),
        (
            "o".to_string(),
            Block { transliterate: vec!["ো".to_string()], entire_block_optional: optional },
        ),
    ]
}

#[test]
fn an_optional_block_adds_to_the_frontier() {
    let index = FstTree::from_strings(vec!["k", "o"]);
    let words = FstTree::from_strings(vec!["ক", "কো"]);

    let optional = Suggest::new(small(Some(true)), vec![], &index, &words);
    assert_eq!(sort(optional.suggest("ko")), vec!["ক", "কো"]);

    let required = Suggest::new(small(None), vec![], &index, &words);
    assert_eq!(sort(required.suggest("ko")), vec!["কো"]);

    let switched_off = Suggest::new(small(Some(false)), vec![], &index, &words);
    assert_eq!(sort(switched_off.suggest("ko")), vec!["কো"]);
}

#[test]
fn an_empty_expansion_is_no_optional_block() {
    let index = FstTree::from_strings(vec!["k", "h"]);
    let words = FstTree::from_strings(vec!["ক", "কহ"]);
    let table = vec![
        ("k".to_string(), block(&["ক"], false)),
        ("h".to_string(), block(&["", "হ"], false)),
    ];
    let suggest = Suggest::new(table, vec![], &index, &words);

    assert_eq!(sort(suggest.suggest("kh")), vec!["ক", "কহ"]);
}

#[test]
fn what_cannot_be_consumed_ends_the_walk_with_what_was_found() {
    let index = FstTree::from_strings(vec!["t", "th"]);
    let words = FstTree::from_strings(vec!["ত", "তথ"]);
    let table = vec![
        ("t".to_string(), block(&["ত"], false)),
        ("th".to_string(), block(&["থ"], false)),
    ];
    let suggest = Suggest::new(table, vec![], &index, &words);

    assert_eq!(suggest.suggest("t6th"), vec!["ত"]);
    assert_eq!(suggest.suggest("tth"), vec!["তথ"]);
    assert_eq!(suggest.suggest("6t"), Vec::<String>::new());
}

#[test]
fn a_key_without_a_block_ends_the_walk() {
    let index = FstTree::from_strings(vec!["k", "a"]);
    let words = FstTree::from_strings(vec!["ক", "কা"]);
    let table = vec![("k".to_string(), block(&["ক"], false))];
    let suggest = Suggest::new(table, vec![], &index, &words);

    assert_eq!(suggest.suggest("ka"), vec!["ক"]);
    assert_eq!(suggest.suggest("ak"), Vec::<String>::new());
}

#[test]
fn a_walk_that_ends_at_no_key_falls_back_to_a_shorter_key() {
    let index = FstTree::from_strings(vec!["k", "a", "abc"]);
    let words = FstTree::from_strings(vec!["কা", "কাব"]);
    let table = vec![
        ("k".to_string(), block(&["ক"], false)),
        ("a".to_string(), block(&["া"], false)),
        ("abc".to_string(), block(&["ব"], false)),
    ];
    let suggest = Suggest::new(table, vec![], &index, &words);

    assert_eq!(suggest.suggest("kabx"), vec!["কা"]);
    assert_eq!(suggest.suggest("kabc"), Vec::<String>::new());
    assert_eq!(suggest.suggest("ka"), vec!["কা"]);
}

#[test]
fn the_first_key_is_the_longest_walk_whether_or_not_it_is_a_key() {
    let index = FstTree::from_strings(vec!["a", "abc"]);
    let words = FstTree::from_strings(vec!["আ"]);
    let table = vec![("a".to_string(), block(&["আ"], false))];
    let suggest = Suggest::new(table, vec![], &index, &words);

    assert_eq!(suggest.suggest("a"), vec!["আ"]);
    assert_eq!(suggest.suggest("ab"), Vec::<String>::new());
}

#[test]
fn a_common_suffix_may_follow_every_step() {
    let index = FstTree::from_strings(vec!["k", "t"]);
    let words = FstTree::from_strings(vec!["ক্ত", "কত", "কঁ"]);
    let table = vec![
        ("k".to_string(), block(&["ক"], false)),
        ("t".to_string(), block(&["ত"], false)),
    ];
    let with = Suggest::new(table, vec!["্".to_string(), "ঁ".to_string()], &index, &words);

    assert_eq!(sort(with.suggest("kt")), vec!["কত", "ক্ত"]);
    assert_eq!(sort(with.suggest("k")), vec!["কঁ"]);
}

#[test]
fn one_scalar_is_completed_by_one_more() {
    let words = FstTree::from_strings(vec!["ক", "কখ", "কগ", "কখগ", "কxখ"]);

    assert_eq!(sort(bangla::suggest(&words, "ক")), vec!["কখ", "কগ"]);
}

#[test]
fn two_or_three_scalars_are_completed_by_one_more() {
    let words = FstTree::from_strings(vec!["কখ", "কখগ", "কখগঘ", "কখগঘঙ"]);

    assert_eq!(sort(bangla::suggest(&words, "কখ")), vec!["কখগ"]);
    assert_eq!(sort(bangla::suggest(&words, "কখগ")), vec!["কখগঘ"]);
}

#[test]
fn four_scalars_are_completed_by_up_to_five_more() {
    let words = FstTree::from_strings(vec![
        "কখগঘ",
        "কখগঘঙ",
        "কখগঘঙচ",
        "কখগঘঙচছজঝ",
        "কখগঘঙচছজঝঞ",
    ]);

    assert_eq!(
        sort(bangla::suggest(&words, "কখগঘ")),
        vec!["কখগঘঙ", "কখগঘঙচ", "কখগঘঙচছজঝ"]
    );
}

#[test]
fn a_prefix_that_the_dictionary_does_not_reach_has_no_completion() {
    let words = FstTree::from_strings(vec!["কখ"]);

    assert_eq!(bangla::suggest(&words, "খ"), Vec::<String>::new());
    assert_eq!(bangla::suggest(&words, "কখ"), Vec::<String>::new());
    assert_eq!(bangla::CHARS.len(), 61);
}
