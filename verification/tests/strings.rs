use upodesh::suggest::Suggest;
use upodesh::utils::{fix_string, is_convertible};

fn entry(key: &str, fragments: &[&str]) -> (String, Vec<String>) {
    (key.to_string(), fragments.iter().map(|s| s.to_string()).collect())
}

fn patterns() -> Vec<(String, Vec<String>)> {
    vec![
        entry("O", &["অ", "ও"]),
        entry("o", &["ো", "ও", "অ", "অ্য", "য়", "য়ো", ""]),
        entry("a", &["আ", "া", "অ", "এ", "অ্যা", "য়া"]),
        entry("b", &["ব"]),
        entry("c", &["চ", "ছ"]),
        entry("ch", &["চ", "ছ"]),
        entry("d", &["দ", "ড"]),
        entry("dh", &["ধ", "ঢ"]),
        entry("e", &["ে", "এ", "্যা", "অ্যা"]),
        entry("g", &["গ"]),
        entry("h", &["হ", "ঃ"]),
        entry("i", &["ি", "ী", "ই", "ঈ"]),
        entry("k", &["ক"]),
        entry("kh", &["খ"]),
        entry("kkh", &["ক্ষ", "খ", "ঃখ"]),
        entry("l", &["ল"]),
        entry("m", &["ম"]),
        entry("n", &["ন", "ণ"]),
        entry("ng", &["ং", "ঙ", "ঙ্গ"]),
        entry("oo", &["ু", "ূ", "উ", "ঊ", "ো"]),
        entry("p", &["প"]),
        entry("r", &["র", "ড়", "ঢ়"]),
        entry("s", &["স", "শ", "ষ"]),
        entry("sh", &["শ", "ষ", "স"]),
        entry("t", &["ত", "ট", "ৎ"]),
        entry("th", &["থ", "ঠ"]),
        entry("u", &["ু", "ূ", "উ", "ঊ"]),
    ]
}

fn common_suffixes() -> Vec<String> {
    vec!["ঁ", "্", "্ব", "্ম", "্য"].into_iter().map(|s: &str| s.to_string()).collect()
}

const WORDS: [&str; 79] = [
    "অংশ", "অংশচ্ছেদ", "অমরা", "অশ্ব", "অশ্ম", "আঁশ",
    "আইনস্টাইন", "আপনি", "আম", "আমরা", "আমাদের", "আমান",
    "আমার", "আমায়", "আমড়া", "আশ", "আস", "ইজ",
    "ইট", "ইটভাটা", "ইন", "ইফ", "ইভ", "ইহ",
    "এবং", "এবংবিধ", "এস", "কম্পন", "কম্পিউটার", "কম্পিউটিং",
    "কম্পিউটেশন", "কম্পিটিশন", "কম্পিত", "কম্পিতা", "ক্ষেত", "খেঁট",
    "খেট", "খেত", "খেলা", "খ্যাঁট", "খ্যাঁত", "খ্যাত",
    "চুপ", "চুল", "চুলা", "চূল", "চোল", "ছুঁল",
    "ছুপ", "ছুল", "ছোল", "দুঃখ", "দুঃখিত", "দুখ",
    "লাল", "লালরং", "লালরঙ", "লালশাক", "শকতি", "শক্তি",
    "শক্তিশালী", "শারি", "শারী", "শাড়ি", "শাড়ী", "শেষ",
    "ষাঁড়", "সক্তি", "সার", "সারি", "সারিবদ্ধ", "সারী",
    "সার্ব", "সাড়", "সাড়ি", "সাড়ী", "সেস", "স্বাধীনতা",
    "স্মঅরী",
];

fn engine() -> Suggest {
    Suggest::new(patterns(), WORDS.to_vec(), common_suffixes())
}

#[test]
fn the_string_matcher_finds_the_same_words() {
    let suggest = engine();

    assert_eq!(
        suggest.suggest("sari"),
        vec!["শারি", "শারী", "শাড়ি", "শাড়ী", "সারি", "সারী", "সাড়ি", "সাড়ী", "স্মঅরী"]
    );
    assert_eq!(
        suggest.suggest("sar"),
        vec!["ষাঁড়", "সার", "সার্ব", "সাড়"]
    );
    assert_eq!(
        suggest.suggest("amra"),
        vec!["অমরা", "আমরা", "আমড়া"]
    );
    assert_eq!(
        suggest.suggest("lalshak"),
        vec!["লালশাক"]
    );
    assert_eq!(
        suggest.suggest("lalrong"),
        vec!["লালরং", "লালরঙ"]
    );
    assert_eq!(
        suggest.suggest("ongshochched"),
        vec!["অংশচ্ছেদ"]
    );
    assert_eq!(
        suggest.suggest("ongshocched"),
        vec!["অংশচ্ছেদ"]
    );
    assert_eq!(
        suggest.suggest("shadhinota"),
        vec!["স্বাধীনতা"]
    );
    assert_eq!(
        suggest.suggest("dukkho"),
        vec!["দুঃখ", "দুখ"]
    );
    assert_eq!(
        suggest.suggest("cool"),
        vec!["চুল", "চূল", "চোল", "ছুঁল", "ছুল", "ছোল"]
    );
    assert_eq!(
        suggest.suggest("shokti"),
        vec!["শকতি", "শক্তি", "সক্তি"]
    );
    assert_eq!(
        suggest.suggest("chup"),
        vec!["চুপ", "ছুপ"]
    );
    assert_eq!(
        suggest.suggest("as"),
        vec!["অশ্ব", "অশ্ম", "আঁশ", "আশ", "আস", "এস"]
    );
    assert_eq!(
        suggest.suggest("apni"),
        vec!["আপনি"]
    );
    assert_eq!(
        suggest.suggest("kkhet"),
        vec!["ক্ষেত", "খেঁট", "খেট", "খেত", "খ্যাঁট", "খ্যাঁত", "খ্যাত"]
    );
    assert_eq!(
        suggest.suggest("ebong"),
        vec!["এবং"]
    );
    assert_eq!(
        suggest.suggest("shesh"),
        vec!["শেষ", "সেস"]
    );
}

#[test]
fn the_string_matcher_gives_nothing_for_what_it_cannot_read() {
    let suggest = engine();

    assert_eq!(suggest.suggest(""), Vec::<String>::new());
    assert_eq!(suggest.suggest("  "), Vec::<String>::new());
    assert_eq!(suggest.suggest("123"), Vec::<String>::new());
    assert_eq!(suggest.suggest("x"), Vec::<String>::new());
}

#[test]
fn the_string_matcher_stops_at_what_has_no_key() {
    let suggest = Suggest::new(
        vec![entry("k", &["ক"]), entry("a", &["া"])],
        vec!["ক", "কা"],
        vec![],
    );

    assert_eq!(suggest.suggest("k"), vec!["ক"]);
    assert_eq!(suggest.suggest("ka"), vec!["কা"]);
    assert_eq!(suggest.suggest("kxa"), vec!["ক"]);
    assert_eq!(suggest.suggest("k1a"), vec!["কা"]);
}

#[test]
fn the_longest_key_is_taken() {
    let suggest = Suggest::new(
        vec![entry("k", &["ক"]), entry("kkh", &["ক্ষ"]), entry("kh", &["খ"]), entry("", &["x"])],
        vec!["ক্ষ", "কখ", "খ"],
        vec![],
    );

    let (key, fragments) = suggest.find_pattern("kkhet").unwrap();
    assert_eq!(key, "kkh");
    assert_eq!(fragments, &vec!["ক্ষ".to_string()]);
    assert_eq!(suggest.find_pattern("khet").unwrap().0, "kh");
    assert_eq!(suggest.find_pattern("ket").unwrap().0, "k");
    assert!(suggest.find_pattern("et").is_none());
    assert!(suggest.find_pattern("").is_none());
    assert_eq!(suggest.suggest("kkh"), vec!["ক্ষ"]);
    assert_eq!(suggest.suggest("kkhk"), Vec::<String>::new());
}

#[test]
fn a_prefix_exists_where_a_word_starts_with_it() {
    let suggest = Suggest::new(vec![], vec!["কখগ", "চ"], vec![]);

    assert!(suggest.prefix_exists("ক"));
    assert!(suggest.prefix_exists("কখ"));
    assert!(suggest.prefix_exists("কখগ"));
    assert!(suggest.prefix_exists("চ"));
    assert!(suggest.prefix_exists(""));
    assert!(!suggest.prefix_exists("খ"));
    assert!(!suggest.prefix_exists("কখগঘ"));
}

#[test]
fn the_string_matcher_lists_its_words_in_order() {
    let suggest = Suggest::new(
        vec![entry("a", &["খ", "ক", "গ", "ক"])],
        vec!["গ", "ক", "খ"],
        vec![],
    );

    assert_eq!(suggest.suggest("a"), vec!["ক", "খ", "গ"]);
}

#[test]
fn the_empty_word_is_suggested_where_the_dictionary_holds_it() {
    let suggest = Suggest::new(vec![entry("a", &["ক"])], vec![""], vec![]);

    assert_eq!(suggest.suggest(""), vec![""]);
    assert_eq!(suggest.suggest("a"), Vec::<String>::new());
}

#[test]
fn suggest_test_fix_string() {
    assert_eq!(fix_string("o"), "O");
    assert_eq!(fix_string("o!"), "O");
    assert_eq!(fix_string("o!o"), "OO");
    assert_eq!(fix_string("osomapto"), "Osomapto");
}

#[test]
fn only_letters_stay() {
    assert_eq!(fix_string("6t``"), "t");
    assert_eq!(fix_string("a1o"), "aO");
    assert_eq!(fix_string(" AbC o "), "abcO");
    assert_eq!(fix_string("১২৩"), "");
    assert!(is_convertible('a') && is_convertible('z') && is_convertible('A') && is_convertible('Z'));
    assert!(!is_convertible('0') && !is_convertible('`') && !is_convertible('{') && !is_convertible('ক'));
}
