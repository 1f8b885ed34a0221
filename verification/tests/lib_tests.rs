use rla::acquire::is_hidden_name;

#[test]
fn dot_files_are_hidden() {
    assert!(is_hidden_name(Some(b".gitignore")));
    assert!(!is_hidden_name(Some(b"build.log")));
    assert!(!is_hidden_name(Some(b"")));
}

#[test]
fn names_that_are_not_valid_text_are_not_hidden() {
    assert!(!is_hidden_name(None));
}
