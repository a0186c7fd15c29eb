//! An in-memory employee directory: employee names grouped under a fixed set
//! of departments, together with the decision logic for the numbered text
//! menus that drive it.

mod directory;

pub use directory::DB;
pub use directory::add_to_dept;
pub use directory::departments;
pub use directory::dept_listing;
pub use directory::distinct_keys;
pub use directory::entry_value;
pub use directory::flat;
pub use directory::has_key;
pub use directory::key_index;
pub use directory::lemma_add_employee_listed;
pub use directory::lemma_add_unknown_no_op;
pub use directory::lemma_listing_idempotent;
pub use directory::lemma_listing_membership;
pub use directory::map_of;
pub use directory::names_of;

mod menu;

pub use menu::AddMenuChoice;
pub use menu::MainMenuChoice;
pub use menu::RetrieveMenuChoice;
pub use menu::add_choice_of;
pub use menu::add_menu_choice;
pub use menu::all_digits;
pub use menu::digit_value;
pub use menu::digits_value;
pub use menu::is_digit;
pub use menu::main_choice_of;
pub use menu::main_menu_choice;
pub use menu::parse_menu_number;
pub use menu::parses_as_usize;
pub use menu::retrieve_choice_of;
pub use menu::retrieve_menu_choice;
