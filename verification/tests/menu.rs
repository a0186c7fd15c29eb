use employee_records::{
    add_menu_choice, departments, main_menu_choice, parse_menu_number, retrieve_menu_choice,
    AddMenuChoice, MainMenuChoice, RetrieveMenuChoice, DB,
};

fn s(t: &str) -> String {
    String::from(t)
}

#[test]
fn main_menu_reads_the_three_options() {
    assert_eq!(main_menu_choice(&s("1")), MainMenuChoice::AddEmployee);
    assert_eq!(main_menu_choice(&s("2")), MainMenuChoice::RetrieveData);
    assert_eq!(main_menu_choice(&s("3")), MainMenuChoice::Exit);
}

#[test]
fn main_menu_rejects_anything_else() {
    assert_eq!(main_menu_choice(&s("9")), MainMenuChoice::Invalid);
    assert_eq!(main_menu_choice(&s("0")), MainMenuChoice::Invalid);
    assert_eq!(main_menu_choice(&s("")), MainMenuChoice::Invalid);
    assert_eq!(main_menu_choice(&s("one")), MainMenuChoice::Invalid);
    assert_eq!(main_menu_choice(&s("12")), MainMenuChoice::Invalid);
}

#[test]
fn invalid_main_choice_leaves_the_directory_alone() {
    let mut db = DB::new();
    db.seed_departments(departments());
    db.add_emp(s("Sales"), s("Amir"));
    let before = db.get_all();
    let c = main_menu_choice(&s("9"));
    assert_eq!(c, MainMenuChoice::Invalid);
    assert_ne!(c, MainMenuChoice::Exit);
    assert_eq!(db.get_all(), before);
}

#[test]
fn parse_accepts_plain_numbers() {
    assert_eq!(parse_menu_number(&s("0")), Some(0));
    assert_eq!(parse_menu_number(&s("7")), Some(7));
    assert_eq!(parse_menu_number(&s("42")), Some(42));
    assert_eq!(parse_menu_number(&s("007")), Some(7));
}

#[test]
fn parse_rejects_what_is_not_a_number() {
    assert_eq!(parse_menu_number(&s("")), None);
    assert_eq!(parse_menu_number(&s("x")), None);
    assert_eq!(parse_menu_number(&s("4x")), None);
    assert_eq!(parse_menu_number(&s("-4")), None);
    assert_eq!(parse_menu_number(&s(" 4")), None);
}

#[test]
fn parse_rejects_what_overflows() {
    assert_eq!(parse_menu_number(&s("99999999999999999999999999")), None);
    let max = usize::MAX.to_string();
    assert_eq!(parse_menu_number(&max), Some(usize::MAX));
}

#[test]
fn add_menu_numbers_departments_from_one() {
    assert_eq!(add_menu_choice(&s("1"), 3), AddMenuChoice::Department(0));
    assert_eq!(add_menu_choice(&s("3"), 3), AddMenuChoice::Department(2));
}

#[test]
fn add_menu_back_is_one_past_the_departments() {
    assert_eq!(add_menu_choice(&s("4"), 3), AddMenuChoice::Back);
}

#[test]
fn add_menu_rejects_out_of_range_or_garbage() {
    assert_eq!(add_menu_choice(&s("0"), 3), AddMenuChoice::Invalid);
    assert_eq!(add_menu_choice(&s("5"), 3), AddMenuChoice::Invalid);
    assert_eq!(add_menu_choice(&s("abc"), 3), AddMenuChoice::Invalid);
    assert_eq!(add_menu_choice(&s(""), 3), AddMenuChoice::Invalid);
}

#[test]
fn retrieve_menu_numbers_departments_from_one() {
    assert_eq!(
        retrieve_menu_choice(&s("1"), 3),
        RetrieveMenuChoice::Department(0)
    );
    assert_eq!(
        retrieve_menu_choice(&s("3"), 3),
        RetrieveMenuChoice::Department(2)
    );
}

#[test]
fn retrieve_menu_show_all_then_back() {
    assert_eq!(retrieve_menu_choice(&s("4"), 3), RetrieveMenuChoice::ShowAll);
    assert_eq!(retrieve_menu_choice(&s("5"), 3), RetrieveMenuChoice::Back);
}

#[test]
fn retrieve_menu_rejects_out_of_range_or_garbage() {
    assert_eq!(retrieve_menu_choice(&s("0"), 3), RetrieveMenuChoice::Invalid);
    assert_eq!(retrieve_menu_choice(&s("6"), 3), RetrieveMenuChoice::Invalid);
    assert_eq!(
        retrieve_menu_choice(&s("nine"), 3),
        RetrieveMenuChoice::Invalid
    );
}
