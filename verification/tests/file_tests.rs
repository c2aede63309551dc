use ninja_linter::command::CommandError;
use ninja_linter::file::{
    clean_modified_file, get_modified_files, parse_git_status, status_is_readable_exec,
    try_parse_git_status,
};

#[test]
fn test_clean_modified_file() {
    let file_path = "back/src/Controller/HomeController.php".to_string();
    assert_eq!(clean_modified_file(file_path), "src/Controller/HomeController.php");
}

#[test]
fn test_clean_modified_file_start_with_tests() {
    let file_path = "back/tests/Controller/HomeControllerTest.php".to_string();
    assert_eq!(
        clean_modified_file(file_path),
        "tests/Controller/HomeControllerTest.php"
    );
}

#[test]
fn test_clean_modified_file_without_file_extension() {
    let file_path = "back/.env";
    assert_eq!(clean_modified_file(file_path.to_string()), ".env");
}

#[test]
fn test_parse_git_status() {
    let output = " M src/Controller/HomeController.php\n?? back/src/Entity/User.php\nA  tests/AppTest.php\n M README.md\n";
    let expected = vec![
        "src/Controller/HomeController.php".to_string(),
        "src/Entity/User.php".to_string(),
        "tests/AppTest.php".to_string(),
    ];
    assert_eq!(parse_git_status(output), expected);
}

#[test]
fn test_parse_git_status_empty() {
    let output = "";
    let expected: Vec<String> = Vec::new();
    assert_eq!(parse_git_status(output), expected);
}

#[test]
fn clean_keeps_src_and_tests_paths() {
    assert_eq!(clean_modified_file("src/back/A.php".to_string()), "src/back/A.php");
    assert_eq!(clean_modified_file("tests/back/A.php".to_string()), "tests/back/A.php");
}

#[test]
fn clean_removes_every_back_dir() {
    assert_eq!(clean_modified_file("back/lib/back/A.php".to_string()), "lib/A.php");
    assert_eq!(clean_modified_file("bacback/k/A.php".to_string()), "back/A.php");
}

#[test]
fn short_and_blank_lines_name_no_file() {
    assert_eq!(parse_git_status(" M\n?? \n M   \n"), Vec::<String>::new());
}

#[test]
fn crlf_lines_and_last_line_without_newline() {
    let output = " M src/A.php\r\n M src/B.php";
    assert_eq!(
        parse_git_status(output),
        vec!["src/A.php".to_string(), "src/B.php".to_string()]
    );
}

#[test]
fn multibyte_status_prefix_is_cut_at_byte_three() {
    // 'é' takes two bytes, so the first three bytes are "é ".
    assert_eq!(parse_git_status("é src/A.php\n"), vec!["src/A.php".to_string()]);
}

#[test]
fn unreadable_line_is_reported() {
    // each 'é' takes two bytes, so the third byte ends no character.
    let output = "éé src/A.php\n";
    assert!(!status_is_readable_exec(output));
    assert_eq!(try_parse_git_status(output), None);
    assert!(status_is_readable_exec(" M src/A.php\n"));
}

#[test]
fn get_modified_files_passes_errors_through() {
    let err = CommandError { message: "Git command failed: boom".to_string() };
    match get_modified_files(Err(err)) {
        Err(e) => assert_eq!(e.message, "Git command failed: boom"),
        Ok(_) => panic!("expected an error"),
    }
    let files = get_modified_files(Ok("?? back/src/A.php\n".to_string())).ok().unwrap();
    assert_eq!(files, vec!["src/A.php".to_string()]);
}
