use employee_directory::pig_latin::is_gather;
use employee_directory::pig_latin::to_pig_latin;
use employee_directory::rectangle::basic_area;
use employee_directory::rectangle::struct_area;
use employee_directory::rectangle::tuple_area;
use employee_directory::rectangle::Rectangle;

#[test]
fn consonant_word_moves_first_letter() {
    assert_eq!(to_pig_latin("first"), "irst-fay");
}

#[test]
fn vowel_word_keeps_all_letters() {
    assert_eq!(to_pig_latin("apple"), "apple-hay");
}

#[test]
fn single_letter_words_convert() {
    assert_eq!(to_pig_latin("a"), "a-hay");
    assert_eq!(to_pig_latin("b"), "-bay");
}

#[test]
fn is_gather_accepts_only_single_vowels() {
    assert!(is_gather("a"));
    assert!(is_gather("e"));
    assert!(is_gather("i"));
    assert!(is_gather("o"));
    assert!(is_gather("u"));
    assert!(!is_gather("b"));
    assert!(!is_gather("A"));
    assert!(!is_gather("ae"));
    assert!(!is_gather(""));
}

#[test]
fn areas_match_product_of_sides() {
    assert_eq!(basic_area(30, 50), 1500);
    assert_eq!(tuple_area((30, 50)), 1500);
    let rect = Rectangle {
        width: 30,
        height: 50,
    };
    assert_eq!(struct_area(&rect), 1500);
}

#[test]
fn areas_with_zero_side() {
    assert_eq!(basic_area(0, 7), 0);
    assert_eq!(tuple_area((7, 0)), 0);
}
