use ninja_linter::command::{
    build_cs_fix_args, composer_stan_command, cs_fix_command, diff_tree_command,
    git_status_command, test_command, CommandStatus, CsFixRun, CsFixStep,
};

#[test]
fn test_command_status_values() {
    assert_eq!(CommandStatus::Success as i32, 0);
    assert_eq!(CommandStatus::FatalError as i32, 1);
}

#[test]
fn test_build_cs_fix_args() {
    let args = build_cs_fix_args("file1.php", "ninja_symfony", false);
    assert_eq!(
        args,
        vec![
            "exec".to_string(),
            "ninja_symfony".to_string(),
            "composer".to_string(),
            "cs:fix".to_string(),
            "file1.php".to_string(),
        ]
    );
}

#[test]
fn test_build_cs_fix_args_custom_container() {
    let args = build_cs_fix_args("src/Controller/FooController.php", "my_app_container", false);
    assert_eq!(args[0], "exec");
    assert_eq!(args[1], "my_app_container");
    assert_eq!(args[2], "composer");
    assert_eq!(args[3], "cs:fix");
    assert_eq!(args[4], "src/Controller/FooController.php");
}

#[test]
fn test_build_cs_fix_args_length() {
    let args = build_cs_fix_args("file.php", "some_container", false);
    assert_eq!(args.len(), 5);
}

#[test]
fn test_run_composer_stan_command_exists() {
    // Running it needs docker; the command line is what can be checked here.
    let c = composer_stan_command("ninja_symfony");
    assert_eq!(c.program, "docker");
}

#[test]
fn test_run_diff_tree_command_logic() {
    // Running it needs a repository; the command line is what can be checked here.
    let c = diff_tree_command();
    assert_eq!(c.program, "git");
}

#[test]
fn status_codes_match_exit_codes() {
    assert_eq!(CommandStatus::Success.code(), 0);
    assert_eq!(CommandStatus::FatalError.code(), 1);
}

#[test]
fn git_status_command_line() {
    let c = git_status_command();
    assert_eq!(c.program, "git");
    assert_eq!(c.args, vec!["status".to_string(), "--short".to_string()]);
}

#[test]
fn diff_tree_command_line() {
    let c = diff_tree_command();
    assert_eq!(
        c.args,
        vec!["diff-tree", "--no-commit-id", "--name-only", "-r", "HEAD"]
            .into_iter()
            .map(String::from)
            .collect::<Vec<_>>()
    );
}

#[test]
fn composer_stan_command_line() {
    let c = composer_stan_command("app");
    assert_eq!(
        c.args,
        vec!["exec".to_string(), "app".to_string(), "composer".to_string(), "stan".to_string()]
    );
}

#[test]
fn cs_fix_command_line() {
    let c = cs_fix_command("src/A.php", "app");
    assert_eq!(c.program, "docker");
    assert_eq!(c.args, build_cs_fix_args("src/A.php", "app", true));
}

#[test]
fn test_run_test_command_empty() {
    // an empty test command is not run: the tests count as failed
    let result = test_command("", "ninja_symfony");
    assert!(result.is_none());
}

#[test]
fn blank_test_command_is_not_run() {
    assert!(test_command("", "ninja_symfony").is_none());
    assert!(test_command("  \t\n", "ninja_symfony").is_none());
}

#[test]
fn test_command_runs_in_container_shell() {
    let c = test_command("bin/phpunit", "ninja_symfony").unwrap();
    assert_eq!(c.program, "docker");
    assert_eq!(
        c.args,
        vec!["exec", "ninja_symfony", "sh", "-c", "bin/phpunit"]
            .into_iter()
            .map(String::from)
            .collect::<Vec<_>>()
    );
}

fn drive(files: &Vec<String>, outcomes: &[bool]) -> (bool, Vec<usize>) {
    let mut run = CsFixRun::new();
    let mut linted = Vec::new();
    loop {
        match run.step(files, "c") {
            CsFixStep::Finished { clean } => return (clean, linted),
            CsFixStep::Lint { index, args } => {
                assert_eq!(args[4], files[index]);
                linted.push(index);
                run.record(outcomes[index]);
            }
        }
    }
}

#[test]
fn cs_fix_run_with_no_files_is_clean() {
    assert_eq!(drive(&vec![], &[]), (true, vec![]));
}

#[test]
fn cs_fix_run_lints_every_file_when_all_pass() {
    let files = vec!["a.php".to_string(), "b.php".to_string(), "c.php".to_string()];
    assert_eq!(drive(&files, &[true, true, true]), (true, vec![0, 1, 2]));
}

#[test]
fn cs_fix_run_stops_at_first_failure() {
    let files = vec!["a.php".to_string(), "b.php".to_string(), "c.php".to_string()];
    assert_eq!(drive(&files, &[true, false, true]), (false, vec![0, 1]));
}
