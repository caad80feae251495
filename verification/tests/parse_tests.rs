use employee_directory::parse::get_name_and_department;
use employee_directory::text::str_eq;
use employee_directory::text::str_lex_lt;
use employee_directory::text::tokenize;

#[test]
fn parse_well_formed_add() {
    let (name, department) = get_name_and_department("Add Sally to Engineering");
    assert_eq!(name, "Sally");
    assert_eq!(department, "Engineering");
}

#[test]
fn parse_unrecognized_first_token() {
    let (name, department) = get_name_and_department("foo bar baz");
    assert_eq!(name, "");
    assert_eq!(department, "");
}

#[test]
fn parse_stops_at_unrecognized_token_after_name() {
    let (name, department) = get_name_and_department("Add Sally quickly to Sales");
    assert_eq!(name, "Sally");
    assert_eq!(department, "");
}

#[test]
fn parse_keyword_without_follower() {
    let (name, department) = get_name_and_department("Add");
    assert_eq!(name, "");
    assert_eq!(department, "");
}

#[test]
fn parse_department_alone() {
    let (name, department) = get_name_and_department("to Engineering");
    assert_eq!(name, "");
    assert_eq!(department, "Engineering");
}

#[test]
fn parse_handles_extra_whitespace() {
    let (name, department) = get_name_and_department("  Add \t Sally \n to  Engineering  ");
    assert_eq!(name, "Sally");
    assert_eq!(department, "Engineering");
}

#[test]
fn tokenize_splits_on_whitespace() {
    let toks = tokenize(" one\ttwo  three \n");
    assert_eq!(
        toks,
        vec!["one".to_string(), "two".to_string(), "three".to_string()]
    );
}

#[test]
fn tokenize_empty_text_has_no_tokens() {
    assert_eq!(tokenize("   "), Vec::<String>::new());
    assert_eq!(tokenize(""), Vec::<String>::new());
}

#[test]
fn str_eq_compares_characters() {
    assert!(str_eq("abc", "abc"));
    assert!(!str_eq("abc", "abd"));
    assert!(!str_eq("abc", "ab"));
}

#[test]
fn str_lex_lt_orders_strings() {
    assert!(str_lex_lt("Bob", "Sally"));
    assert!(!str_lex_lt("Sally", "Bob"));
    assert!(str_lex_lt("Ann", "Anna"));
    assert!(!str_lex_lt("Ann", "Ann"));
}
