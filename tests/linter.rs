use johnnydecimal::{is_area, is_category, is_id};

#[test]
fn test_is_area() {
    assert_eq!(is_area("10-19 Area"), true);
    assert_eq!(is_area("10-30 Area"), false);
}

#[test]
fn test_is_category() {
    assert_eq!(is_category("11 Category"), true);
    assert_eq!(is_category("120 Category"), false);
}

#[test]
fn test_is_id() {
    assert_eq!(is_id("12.04 Name"), true);
}

#[test]
fn prefix_checks_need_a_space_after_the_code() {
    assert!(!is_area("10-19"));
    assert!(!is_area("10-19_Area"));
    assert!(is_area("30-39\tTabbed"));
    assert!(!is_category("1 Category"));
    assert!(is_id("12x04 Name"));
    assert!(!is_id("12.4 Name"));
}
