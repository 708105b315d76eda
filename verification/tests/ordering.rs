use lsnote::display::get_sorted_entries;

fn names(v: &[&str]) -> Vec<String> {
    v.iter().map(|s| String::from(*s)).collect()
}

fn sorted(v: &[&str], show_all: bool) -> Vec<String> {
    get_sorted_entries(&names(v), show_all)
}

#[test]
fn orders_case_insensitively() {
    // a byte-wise sort would put "B" first; the case-folded sort does not
    assert_eq!(sorted(&["B", "a"], false), names(&["a", "B"]));
    assert_eq!(sorted(&["zeta", "Alpha", "beta"], false), names(&["Alpha", "beta", "zeta"]));
}

#[test]
fn hides_dot_names_by_default() {
    assert_eq!(sorted(&[".git", "src", ".hidden", "README"], false), names(&["README", "src"]));
}

#[test]
fn shows_dot_names_with_show_all() {
    assert_eq!(
        sorted(&[".git", "src", ".hidden", "README"], true),
        names(&[".git", ".hidden", "README", "src"]),
    );
}

#[test]
fn equal_folded_names_keep_enumeration_order() {
    assert_eq!(sorted(&["README", "readme", "ReadMe"], false), names(&["README", "readme", "ReadMe"]));
    assert_eq!(sorted(&["readme", "README"], false), names(&["readme", "README"]));
}

#[test]
fn empty_listing() {
    assert_eq!(sorted(&[], false), names(&[]));
}

#[test]
fn digits_before_letters() {
    assert_eq!(sorted(&["b1", "10", "2"], false), names(&["10", "2", "b1"]));
}
