use ninja_linter::parallel::{build_initial_tasks, TaskState, TaskStatus};

fn task(label: &str, status: TaskStatus) -> TaskState {
    TaskState { label: label.to_string(), status, output: String::new() }
}

#[test]
fn test_task_status_all_done_returns_true() {
    let tasks = vec![
        task("Tests", TaskStatus::Done),
        task("CS Fixer", TaskStatus::Done),
        task("PHPStan", TaskStatus::Done),
    ];
    let result = tasks.iter().all(|t| t.status != TaskStatus::Failed);
    assert!(result);
}

#[test]
fn test_task_status_one_failed_returns_false() {
    let tasks = vec![
        task("Tests", TaskStatus::Done),
        task("CS Fixer", TaskStatus::Failed),
        task("PHPStan", TaskStatus::Done),
    ];
    let result = tasks.iter().all(|t| t.status != TaskStatus::Failed);
    assert!(!result);
}

#[test]
fn test_build_initial_tasks_all_disabled() {
    let tasks = build_initial_tasks(&None, false);
    assert_eq!(tasks.len(), 3);
    assert!(matches!(tasks[0].status, TaskStatus::Done)); // tests skipped
    assert!(matches!(tasks[1].status, TaskStatus::Pending)); // cs-fixer always pending
    assert!(matches!(tasks[2].status, TaskStatus::Done)); // stan skipped
}

#[test]
fn test_build_initial_tasks_all_enabled() {
    let cmd = Some("bin/phpunit".to_string());
    let tasks = build_initial_tasks(&cmd, true);
    assert!(matches!(tasks[0].status, TaskStatus::Pending));
    assert!(matches!(tasks[1].status, TaskStatus::Pending));
    assert!(matches!(tasks[2].status, TaskStatus::Pending));
}

#[test]
fn initial_tasks_are_labelled_and_empty() {
    let tasks = build_initial_tasks(&None, true);
    let labels: Vec<&str> = tasks.iter().map(|t| t.label.as_str()).collect();
    assert_eq!(labels, vec!["Tests", "CS Fixer", "PHPStan"]);
    assert!(tasks.iter().all(|t| t.output.is_empty()));
    assert!(matches!(tasks[2].status, TaskStatus::Pending));
}
