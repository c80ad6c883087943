use upodesh::avro::utils::fix_string;

#[test]
fn utils_test_fix_string() {
    assert_eq!(fix_string("o"), "O");
    assert_eq!(fix_string("o!"), "O");
    assert_eq!(fix_string("o!o"), "OO");
    assert_eq!(fix_string("osomapto"), "Osomapto");
    assert_eq!(fix_string("6t``"), "6t``");
}

#[test]
fn white_space_around_the_input_is_dropped() {
    assert_eq!(fix_string("  ab\t\n"), "ab");
    assert_eq!(fix_string("\u{3000}ab\u{a0}"), "ab");
    assert_eq!(fix_string("\u{2003} o \u{85}"), "O");
    assert_eq!(fix_string("a b"), "ab");
    assert_eq!(fix_string(" \r\n "), "");
}

#[test]
fn letters_are_lowered_and_digits_and_backticks_stay() {
    assert_eq!(fix_string("AbC1`"), "abc1`");
    assert_eq!(fix_string("Z9z"), "z9z");
    assert_eq!(fix_string("a-b_c.d"), "abcd");
    assert_eq!(fix_string("কa"), "a");
    assert_eq!(fix_string("é"), "");
}

#[test]
fn an_o_behind_no_letter_is_written_large() {
    assert_eq!(fix_string("1o"), "1O");
    assert_eq!(fix_string("`o"), "`O");
    assert_eq!(fix_string("ao"), "ao");
    assert_eq!(fix_string("aO"), "ao");
    assert_eq!(fix_string("OO"), "Oo");
    assert_eq!(fix_string("oo"), "Oo");
    assert_eq!(fix_string("a!o"), "aO");
    assert_eq!(fix_string("a o"), "aO");
    assert_eq!(fix_string("কo"), "O");
    assert_eq!(fix_string("Ao"), "ao");
}

#[test]
fn canonical_text_stays_as_it_is() {
    for raw in ["o", "osomapto", "6t``", "Ongsho", "1!o", " kkhet ", "AbC1`", "", "o!", "!o"] {
        let once = fix_string(raw);
        assert_eq!(fix_string(&once), once);
    }
}

#[test]
fn an_o_behind_a_dropped_scalar_and_a_letter_does_not_stay() {
    let once = fix_string("a!o");
    assert_eq!(once, "aO");
    assert_eq!(fix_string(&once), "ao");

    let twice = fix_string("o!o");
    assert_eq!(twice, "OO");
    assert_eq!(fix_string(&twice), "Oo");
}

#[test]
fn canonical_text_is_made_of_small_letters_digits_backticks_and_large_o() {
    for raw in ["Hello, World!", "OoO oOo", "a1B2`c3", "দুঃখ dukkho", "\u{a0}X\u{a0}"] {
        let fixed = fix_string(raw);
        assert!(fixed.chars().count() <= raw.chars().count());
        for c in fixed.chars() {
            assert!(c.is_ascii_lowercase() || c.is_ascii_digit() || c == '`' || c == 'O');
        }
    }
}
