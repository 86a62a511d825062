use employee_db::pig_latin::{construct_string, pig_latin_line, pig_latinize};

#[test]
fn vowel_words_gain_hay() {
    assert_eq!(pig_latinize("apple"), "apple-hay");
    assert_eq!(pig_latinize("u"), "u-hay");
}

#[test]
fn consonant_words_move_first_letter() {
    assert_eq!(pig_latinize("first"), "irst-fay");
    assert_eq!(pig_latinize("x"), "-xay");
    assert_eq!(pig_latinize("Apple"), "pple-Aay");
}

#[test]
fn builds_strings_from_chars() {
    assert_eq!(construct_string(&['h', 'é', 'y']), "héy");
    assert_eq!(construct_string(&[]), "");
}

#[test]
fn lines_are_translated_word_by_word() {
    assert_eq!(pig_latin_line("  first apple  "), "irst-fay apple-hay");
    assert_eq!(pig_latin_line(""), "");
}
