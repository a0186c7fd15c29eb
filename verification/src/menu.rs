//! Decision logic for the three text menus: turning the line a user typed
//! into the action each menu takes. Reading the line, drawing the menus and
//! printing listings are left to the caller.

use vstd::prelude::*;

verus! {

/// `c` is a decimal digit.
pub open spec fn is_digit(c: char) -> bool {
    48 <= c as int <= 57
}

/// The value of the decimal digit `c`.
pub open spec fn digit_value(c: char) -> int {
    c as int - 48
}

/// Every character of `s` is a decimal digit.
pub open spec fn all_digits(s: Seq<char>) -> bool {
    forall|i: int| 0 <= i < s.len() ==> is_digit(s[i])
}

/// The number the digit string `s` denotes, most significant digit first.
pub open spec fn digits_value(s: Seq<char>) -> int
    decreases s.len(),
{
    if s.len() == 0 {
        0
    } else {
        digits_value(s.drop_last()) * 10 + digit_value(s.last())
    }
}

/// `s` is a number a menu accepts: nonempty, digits only, and small enough
/// to count as a `usize`.
pub open spec fn parses_as_usize(s: Seq<char>) -> bool {
    s.len() > 0 && all_digits(s) && digits_value(s) <= usize::MAX as int
}

/// A digit string denotes a nonnegative number.
proof fn lemma_digits_value_nonneg(s: Seq<char>)
    requires
        all_digits(s),
    ensures
        digits_value(s) >= 0,
    decreases s.len(),
{
    if s.len() > 0 {
        lemma_digits_value_nonneg(s.drop_last());
    }
}

/// A digit string denotes at least what any of its prefixes denotes.
proof fn lemma_digits_value_prefix_le(s: Seq<char>, i: int)
    requires
        0 <= i <= s.len(),
        all_digits(s),
    ensures
        digits_value(s.take(i)) <= digits_value(s),
    decreases s.len() - i,
{
    if i == s.len() {
        assert(s.take(i) =~= s);
    } else {
        assert(s.take(i + 1).drop_last() =~= s.take(i));
        assert(all_digits(s.take(i))) by {
            assert(forall|t: int| 0 <= t < i ==> s.take(i)[t] == s[t]);
        }
        lemma_digits_value_nonneg(s.take(i));
        assert(digits_value(s.take(i + 1)) == digits_value(s.take(i)) * 10 + digit_value(
            s[i],
        ));
        lemma_digits_value_prefix_le(s, i + 1);
    }
}

/// Reads a whole line as a decimal number, the way the menus accept one:
/// `Some` exactly when the line is nonempty, all digits, and fits a `usize`.
pub fn parse_menu_number(s: &String) -> (r: Option<usize>)
    ensures
        r is Some <==> parses_as_usize(s@),
        r matches Some(v) ==> v == digits_value(s@),
{
    let st = s.as_str();
    let len = st.unicode_len();
    if len == 0 {
        return None;
    }
    let mut i: usize = 0;
    let mut acc: usize = 0;
    while i < len
        invariant
            0 < len == s@.len(),
            i <= len,
            st@ == s@,
            all_digits(s@.take(i as int)),
            acc == digits_value(s@.take(i as int)),
        decreases len - i,
    {
        let c = st.get_char(i);
        let d: u32 = c as u32;
        if d < 48 || 57 < d {
            proof {
                assert(!is_digit(s@[i as int]));
            }
            return None;
        }
        let dv: usize = (d - 48) as usize;
        proof {
            assert(s@.take(i as int + 1).drop_last() =~= s@.take(i as int));
            assert(all_digits(s@.take(i as int + 1))) by {
                assert(forall|t: int| 0 <= t < i ==> s@.take(i as int + 1)[t] == s@.take(
                    i as int,
                )[t]);
            }
        }
        let next = match acc.checked_mul(10) {
            Some(x) => x.checked_add(dv),
            None => None,
        };
        match next {
            Some(x) => {
                acc = x;
            },
            None => {
                proof {
                    assert(digits_value(s@.take(i as int + 1)) > usize::MAX as int);
                    if all_digits(s@) {
                        lemma_digits_value_prefix_le(s@, i as int + 1);
                        assert(digits_value(s@) > usize::MAX as int);
                    }
                }
                return None;
            },
        }
        i += 1;
    }
    proof {
        assert(s@.take(len as int) =~= s@);
    }
    Some(acc)
}

/// What the main menu does with a (trimmed) input line.
#[derive(PartialEq, Eq, Structural, Debug, Clone, Copy)]
pub enum MainMenuChoice {
    /// Go to the add-employee submenu.
    AddEmployee,
    /// Go to the retrieve submenu.
    RetrieveData,
    /// Leave the program.
    Exit,
    /// Anything else: show the menu again with an error message.
    Invalid,
}

/// The main menu's reading of the line `s`.
pub open spec fn main_choice_of(s: Seq<char>) -> MainMenuChoice {
    if s == "1"@ {
        MainMenuChoice::AddEmployee
    } else if s == "2"@ {
        MainMenuChoice::RetrieveData
    } else if s == "3"@ {
        MainMenuChoice::Exit
    } else {
        MainMenuChoice::Invalid
    }
}

/// Decides what the main menu does with the line `choice`.
pub fn main_menu_choice(choice: &String) -> (c: MainMenuChoice)
    ensures
        c == main_choice_of(choice@),
{
    if *choice == String::from_str("1") {
        MainMenuChoice::AddEmployee
    } else if *choice == String::from_str("2") {
        MainMenuChoice::RetrieveData
    } else if *choice == String::from_str("3") {
        MainMenuChoice::Exit
    } else {
        MainMenuChoice::Invalid
    }
}

/// What the add-employee submenu does with a (trimmed) input line.
#[derive(PartialEq, Eq, Structural, Debug, Clone, Copy)]
pub enum AddMenuChoice {
    /// Ask for a name to add under the department at this position of the
    /// department list.
    Department(usize),
    /// Return to the main menu without touching the directory.
    Back,
    /// Anything else: show the submenu again with an error message.
    Invalid,
}

/// The add-employee submenu's reading of the line `s`, over a department list
/// of length `dept_count`: the departments are numbered from 1, and one past
/// the last goes back.
pub open spec fn add_choice_of(s: Seq<char>, dept_count: int) -> AddMenuChoice {
    if !parses_as_usize(s) {
        AddMenuChoice::Invalid
    } else if digits_value(s) == dept_count + 1 {
        AddMenuChoice::Back
    } else if 1 <= digits_value(s) <= dept_count {
        AddMenuChoice::Department((digits_value(s) - 1) as usize)
    } else {
        AddMenuChoice::Invalid
    }
}

/// Decides what the add-employee submenu does with the line `choice`.
pub fn add_menu_choice(choice: &String, dept_count: usize) -> (c: AddMenuChoice)
    requires
        dept_count < usize::MAX,
    ensures
        c == add_choice_of(choice@, dept_count as int),
{
    match parse_menu_number(choice) {
        None => AddMenuChoice::Invalid,
        Some(v) => {
            if v == dept_count + 1 {
                AddMenuChoice::Back
            } else if 1 <= v && v <= dept_count {
                AddMenuChoice::Department(v - 1)
            } else {
                AddMenuChoice::Invalid
            }
        },
    }
}

/// What the retrieve submenu does with a (trimmed) input line.
#[derive(PartialEq, Eq, Structural, Debug, Clone, Copy)]
pub enum RetrieveMenuChoice {
    /// List the department at this position of the department list.
    Department(usize),
    /// List every department's employees.
    ShowAll,
    /// Return to the main menu.
    Back,
    /// Anything else: show the submenu again with an error message.
    Invalid,
}

/// The retrieve submenu's reading of the line `s`, over a department list of
/// length `dept_count`: the departments are numbered from 1, one past the
/// last shows all, and the number after that goes back.
pub open spec fn retrieve_choice_of(s: Seq<char>, dept_count: int) -> RetrieveMenuChoice {
    if !parses_as_usize(s) {
        RetrieveMenuChoice::Invalid
    } else if digits_value(s) == dept_count + 1 {
        RetrieveMenuChoice::ShowAll
    } else if digits_value(s) == dept_count + 2 {
        RetrieveMenuChoice::Back
    } else if 1 <= digits_value(s) <= dept_count {
        RetrieveMenuChoice::Department((digits_value(s) - 1) as usize)
    } else {
        RetrieveMenuChoice::Invalid
    }
}

/// Decides what the retrieve submenu does with the line `choice`.
pub fn retrieve_menu_choice(choice: &String, dept_count: usize) -> (c: RetrieveMenuChoice)
    requires
        dept_count + 2 <= usize::MAX,
    ensures
        c == retrieve_choice_of(choice@, dept_count as int),
{
    match parse_menu_number(choice) {
        None => RetrieveMenuChoice::Invalid,
        Some(v) => {
            if v == dept_count + 1 {
                RetrieveMenuChoice::ShowAll
            } else if v == dept_count + 2 {
                RetrieveMenuChoice::Back
            } else if 1 <= v && v <= dept_count {
                RetrieveMenuChoice::Department(v - 1)
            } else {
                RetrieveMenuChoice::Invalid
            }
        },
    }
}

} // verus!
