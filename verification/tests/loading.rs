use bf_interp::loading::{error_file_not_found, error_reading_file, get_program_path};

#[test]
fn program_path_is_the_first_argument() {
    let args = vec![String::from("bf"), String::from("hello.bf"), String::from("more")];
    assert_eq!(get_program_path(&args), Ok(String::from("hello.bf")));
}

#[test]
fn program_path_without_argument() {
    assert_eq!(get_program_path(&[String::from("bf")]), Err(String::from("No file found")));
    assert_eq!(get_program_path(&[]), Err(String::from("No file found")));
}

#[test]
fn file_not_found_message() {
    assert_eq!(error_file_not_found(&String::from("a/b.bf")), "File not found: a/b.bf");
}

#[test]
fn reading_file_message() {
    assert_eq!(error_reading_file(), "Failed to read file content");
}
