use own::target::validate_file;

#[test]
fn an_existing_file_is_accepted() {
    assert_eq!(validate_file("add", "src/main.rs", true, false), Ok(()));
}

#[test]
fn a_missing_path_is_refused() {
    assert_eq!(
        validate_file("add", "nope.rs", false, false),
        Err("add: nope.rs does not exist".to_string())
    );
}

#[test]
fn a_directory_is_refused() {
    assert_eq!(
        validate_file("review", "src", true, true),
        Err("review: src is a directory, not a file".to_string())
    );
}
