use employee_directory::directory::Directory;

#[test]
fn two_adds_list_all_and_by_department() {
    let mut d = Directory::new();
    d.add("Add Sally to Engineering");
    d.add("Add Bob to Sales");
    let all = d.list_all();
    assert_eq!(all, vec!["Bob".to_string(), "Sally".to_string()]);
    let eng = d.list_by_department("Engineering");
    assert_eq!(eng, vec!["Sally".to_string()]);
}

#[test]
fn same_name_re_added_moves_department() {
    let mut d = Directory::new();
    d.add("Add Sally to Engineering");
    d.add("Add Sally to Sales");
    let sales = d.list_by_department("Sales");
    assert_eq!(sales, vec!["Sally".to_string()]);
    let eng = d.list_by_department("Engineering");
    assert_eq!(eng, Vec::<String>::new());
}

#[test]
fn overwrite_keeps_single_entry() {
    let mut d = Directory::new();
    d.add("Add Sally to Engineering");
    d.add("Add Sally to Sales");
    let all = d.list_all();
    assert_eq!(all, vec!["Sally".to_string()]);
}

#[test]
fn malformed_add_inserts_empty_pair() {
    let mut d = Directory::new();
    let pair = d.add("foo bar baz");
    assert_eq!(pair, (String::new(), String::new()));
    let unnamed = d.list_by_department("");
    assert_eq!(unnamed, vec![String::new()]);
}

#[test]
fn list_all_sorted_regardless_of_insertion_order() {
    let mut d = Directory::new();
    d.add("Add Zoe to Support");
    d.add("Add Amir to Engineering");
    d.add("Add Mia to Sales");
    d.add("Add Bob to Sales");
    let all = d.list_all();
    assert_eq!(
        all,
        vec![
            "Amir".to_string(),
            "Bob".to_string(),
            "Mia".to_string(),
            "Zoe".to_string()
        ]
    );
}

#[test]
fn list_by_department_collects_every_match() {
    let mut d = Directory::new();
    d.add("Add Sally to Engineering");
    d.add("Add Bob to Sales");
    d.add("Add Amir to Engineering");
    let mut eng = d.list_by_department("Engineering");
    eng.sort();
    assert_eq!(eng, vec!["Amir".to_string(), "Sally".to_string()]);
    let support = d.list_by_department("Support");
    assert_eq!(support, Vec::<String>::new());
}

#[test]
fn insert_direct_overwrites() {
    let mut d = Directory::new();
    d.insert("Ann".to_string(), "Legal".to_string());
    d.insert("Ann".to_string(), "Finance".to_string());
    assert_eq!(d.list_by_department("Legal"), Vec::<String>::new());
    assert_eq!(d.list_by_department("Finance"), vec!["Ann".to_string()]);
}
