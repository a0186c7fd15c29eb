use employee_records::{departments, DB};

fn s(t: &str) -> String {
    String::from(t)
}

fn seeded() -> DB {
    let mut db = DB::new();
    db.seed_departments(departments());
    db
}

#[test]
fn departments_are_the_fixed_three() {
    let d = departments();
    assert_eq!(d, vec![s("Engineering"), s("Sales"), s("Finance")]);
}

#[test]
fn new_directory_is_empty() {
    let db = DB::new();
    assert_eq!(db.get_all(), Vec::<String>::new());
    assert_eq!(db.get_all_by_dept(s("Engineering")), Vec::<String>::new());
}

#[test]
fn seed_gives_exactly_the_given_departments_with_empty_lists() {
    let mut db = DB::new();
    db.add_emp(s("Engineering"), s("Sally"));
    db.seed_departments(vec![s("A"), s("B")]);
    assert_eq!(db.get_all_by_dept(s("A")), Vec::<String>::new());
    assert_eq!(db.get_all_by_dept(s("B")), Vec::<String>::new());
    assert_eq!(db.get_all_by_dept(s("Engineering")), Vec::<String>::new());
    assert_eq!(db.get_all(), Vec::<String>::new());
}

#[test]
fn reseeding_discards_prior_contents() {
    let mut db = seeded();
    db.add_emp(s("Sales"), s("Amir"));
    db.seed_departments(vec![s("A"), s("B")]);
    assert_eq!(db.get_all(), Vec::<String>::new());
    assert_eq!(db.get_all_by_dept(s("Sales")), Vec::<String>::new());
}

#[test]
fn seed_with_duplicate_names_counts_each_once() {
    let mut db = DB::new();
    db.seed_departments(vec![s("A"), s("A")]);
    db.add_emp(s("A"), s("Nia"));
    assert_eq!(db.get_all(), vec![s("Nia")]);
    assert_eq!(db.get_all_by_dept(s("A")), vec![s("Nia")]);
}

#[test]
fn add_to_engineering_lists_sally() {
    let mut db = seeded();
    db.add_emp(s("Engineering"), s("Sally"));
    assert_eq!(db.get_all_by_dept(s("Engineering")), vec![s("Sally")]);
}

#[test]
fn adds_keep_insertion_order_within_a_department() {
    let mut db = seeded();
    db.add_emp(s("Sales"), s("Amir"));
    db.add_emp(s("Sales"), s("Priya"));
    assert_eq!(db.get_all_by_dept(s("Sales")), vec![s("Amir"), s("Priya")]);
}

#[test]
fn get_all_holds_exactly_the_added_names() {
    let mut db = seeded();
    db.add_emp(s("Engineering"), s("Sally"));
    db.add_emp(s("Sales"), s("Amir"));
    let mut all = db.get_all();
    all.sort();
    assert_eq!(all, vec![s("Amir"), s("Sally")]);
}

#[test]
fn add_appends_at_the_end_and_shows_in_get_all() {
    let mut db = seeded();
    db.add_emp(s("Finance"), s("Kim"));
    db.add_emp(s("Finance"), s("Lee"));
    let before = db.get_all_by_dept(s("Finance"));
    db.add_emp(s("Finance"), s("Mo"));
    let mut expected = before.clone();
    expected.push(s("Mo"));
    assert_eq!(db.get_all_by_dept(s("Finance")), expected);
    assert!(db.get_all().contains(&s("Mo")));
}

#[test]
fn add_to_unknown_department_changes_nothing() {
    let mut db = seeded();
    db.add_emp(s("Engineering"), s("Sally"));
    let all_before = db.get_all();
    let eng_before = db.get_all_by_dept(s("Engineering"));
    db.add_emp(s("Marketing"), s("X"));
    assert_eq!(db.get_all(), all_before);
    assert_eq!(db.get_all_by_dept(s("Engineering")), eng_before);
    assert!(!db.get_all().contains(&s("X")));
}

#[test]
fn unknown_department_lists_empty() {
    let db = seeded();
    assert_eq!(db.get_all_by_dept(s("Marketing")), Vec::<String>::new());
}

#[test]
fn listing_is_idempotent() {
    let mut db = seeded();
    db.add_emp(s("Engineering"), s("Sally"));
    db.add_emp(s("Sales"), s("Amir"));
    let all1 = db.get_all();
    let all2 = db.get_all();
    let all3 = db.get_all();
    assert_eq!(all1, all2);
    assert_eq!(all2, all3);
    let eng1 = db.get_all_by_dept(s("Engineering"));
    let eng2 = db.get_all_by_dept(s("Engineering"));
    assert_eq!(eng1, eng2);
}

#[test]
fn departments_keep_their_own_lists() {
    let mut db = seeded();
    db.add_emp(s("Engineering"), s("Sally"));
    db.add_emp(s("Sales"), s("Amir"));
    assert_eq!(db.get_all_by_dept(s("Engineering")), vec![s("Sally")]);
    assert_eq!(db.get_all_by_dept(s("Sales")), vec![s("Amir")]);
    assert_eq!(db.get_all_by_dept(s("Finance")), Vec::<String>::new());
}
