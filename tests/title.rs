use johnnydecimal::is_valid_title;

#[test]
fn titles_that_sanitising_changes_are_refused() {
    assert!(is_valid_title("Invoices 2024"));
    assert!(is_valid_title("テスト"));
    assert!(!is_valid_title(""));
    assert!(!is_valid_title("a/b"));
    assert!(!is_valid_title("../up"));
    assert!(!is_valid_title("what?"));
}
