use ninja_linter::command::{CommandError, CommandStatus};
use ninja_linter::parallel::{plan_workers, Job};
use ninja_linter::pipeline::{Action, Check, Event, Options, Outcome, Run, Stage};

fn err(m: &str) -> CommandError {
    CommandError { message: m.to_string() }
}

fn files() -> Vec<String> {
    vec!["src/A.php".to_string()]
}

#[test]
fn plain_run_lists_files_then_fixes() {
    let mut run = Run::new(Options { run_tests: false, run_stan: false });
    assert!(matches!(run.step(Event::Began), Action::ListFiles));
    match run.step(Event::FilesListed(Ok(files()))) {
        Action::RunCsFix { files } => assert_eq!(files, vec!["src/A.php".to_string()]),
        _ => panic!("expected CS Fixer"),
    }
    assert!(matches!(
        run.step(Event::CsFixRan(Ok(true))),
        Action::Exit { status: CommandStatus::Success, outcome: Outcome::AllClean }
    ));
    assert_eq!(run.stage, Stage::Over);
}

#[test]
fn no_php_files_ends_successfully() {
    let mut run = Run::new(Options { run_tests: false, run_stan: true });
    run.step(Event::Began);
    assert!(matches!(
        run.step(Event::FilesListed(Ok(vec![]))),
        Action::Exit { status: CommandStatus::Success, outcome: Outcome::NoPhpFiles }
    ));
}

#[test]
fn tests_and_stan_run_in_order() {
    let mut run = Run::new(Options { run_tests: true, run_stan: true });
    assert!(matches!(run.step(Event::Began), Action::RunTests));
    assert!(matches!(run.step(Event::TestsRan(Ok(true))), Action::ListFiles));
    assert!(matches!(run.step(Event::FilesListed(Ok(files()))), Action::RunCsFix { .. }));
    assert!(matches!(run.step(Event::CsFixRan(Ok(true))), Action::RunStan));
    assert!(matches!(
        run.step(Event::StanRan(Ok(true))),
        Action::Exit { status: CommandStatus::Success, outcome: Outcome::AllClean }
    ));
}

#[test]
fn failures_stop_the_run() {
    let mut run = Run::new(Options { run_tests: true, run_stan: true });
    run.step(Event::Began);
    assert!(matches!(
        run.step(Event::TestsRan(Ok(false))),
        Action::Exit { status: CommandStatus::FatalError, outcome: Outcome::Failed(Check::Tests) }
    ));

    let mut run = Run::new(Options { run_tests: false, run_stan: true });
    run.step(Event::Began);
    run.step(Event::FilesListed(Ok(files())));
    assert!(matches!(
        run.step(Event::CsFixRan(Ok(false))),
        Action::Exit { status: CommandStatus::FatalError, outcome: Outcome::Failed(Check::CsFix) }
    ));

    let mut run = Run::new(Options { run_tests: false, run_stan: true });
    run.step(Event::Began);
    run.step(Event::FilesListed(Ok(files())));
    run.step(Event::CsFixRan(Ok(true)));
    assert!(matches!(
        run.step(Event::StanRan(Ok(false))),
        Action::Exit { status: CommandStatus::FatalError, outcome: Outcome::Failed(Check::Stan) }
    ));
}

#[test]
fn errors_stop_the_run_with_their_message() {
    let mut run = Run::new(Options { run_tests: false, run_stan: false });
    run.step(Event::Began);
    match run.step(Event::FilesListed(Err(err("Git command failed: x")))) {
        Action::Exit {
            status: CommandStatus::FatalError,
            outcome: Outcome::Broken(Check::Files, e),
        } => assert_eq!(e.message, "Git command failed: x"),
        _ => panic!("expected the git error"),
    }
    let mut run = Run::new(Options { run_tests: true, run_stan: false });
    run.step(Event::Began);
    assert!(matches!(
        run.step(Event::TestsRan(Err(err("no docker")))),
        Action::Exit { status: CommandStatus::FatalError, outcome: Outcome::Broken(Check::Tests, _) }
    ));
}

#[test]
fn workers_follow_the_flags() {
    let all = plan_workers(&Some("bin/phpunit".to_string()), true);
    assert_eq!(all.len(), 3);
    assert_eq!(all.iter().map(|w| w.task).collect::<Vec<_>>(), vec![0, 1, 2]);
    assert!(matches!(&all[0].job, Job::Tests { command } if command == "bin/phpunit"));
    assert!(matches!(all[1].job, Job::CsFix));
    assert!(matches!(all[2].job, Job::Stan));

    let only_fix = plan_workers(&None, false);
    assert_eq!(only_fix.len(), 1);
    assert_eq!(only_fix[0].task, 1);
    assert!(matches!(only_fix[0].job, Job::CsFix));
}
