use ninja_linter::parallel::{build_initial_tasks, plan_workers, TaskState, TaskStatus, TaskUpdate};
use ninja_linter::tui::{
    hint_text, output_border, output_excerpt, task_cursor, task_icon, App, KeyInput, KeyOutcome,
    Tone,
};

fn make_app(statuses: &[TaskStatus]) -> App {
    let tasks = statuses
        .iter()
        .map(|s| TaskState { label: "task".to_string(), status: s.clone(), output: String::new() })
        .collect();
    App::new(tasks, vec!["src/Foo.php".to_string()])
}

#[test]
fn test_is_complete_all_done() {
    let app = make_app(&[TaskStatus::Done, TaskStatus::Done]);
    assert!(app.is_complete());
}

#[test]
fn test_is_complete_with_failure() {
    let app = make_app(&[TaskStatus::Done, TaskStatus::Failed]);
    assert!(app.is_complete());
}

#[test]
fn test_is_complete_still_running() {
    let app = make_app(&[TaskStatus::Done, TaskStatus::Running]);
    assert!(!app.is_complete());
}

#[test]
fn test_is_complete_pending() {
    let app = make_app(&[TaskStatus::Pending]);
    assert!(!app.is_complete());
}

#[test]
fn test_has_failure_true() {
    let app = make_app(&[TaskStatus::Done, TaskStatus::Failed]);
    assert!(app.has_failure());
}

#[test]
fn test_has_failure_false() {
    let app = make_app(&[TaskStatus::Done, TaskStatus::Done]);
    assert!(!app.has_failure());
}

#[test]
fn test_apply_started() {
    let mut app = make_app(&[TaskStatus::Pending]);
    app.apply(TaskUpdate::Started(0));
    assert!(matches!(app.tasks[0].status, TaskStatus::Running));
}

#[test]
fn test_apply_finished_success() {
    let mut app = make_app(&[TaskStatus::Running]);
    app.apply(TaskUpdate::Finished(0, true, String::new()));
    assert!(matches!(app.tasks[0].status, TaskStatus::Done));
}

#[test]
fn test_apply_finished_failure() {
    let mut app = make_app(&[TaskStatus::Running]);
    app.apply(TaskUpdate::Finished(0, false, String::new()));
    assert!(matches!(app.tasks[0].status, TaskStatus::Failed));
}

#[test]
fn test_task_style_covers_all_variants() {
    let statuses = [TaskStatus::Pending, TaskStatus::Running, TaskStatus::Done, TaskStatus::Failed];
    for s in &statuses {
        let icon = task_icon(*s);
        assert!(!icon.is_empty());
    }
}

#[test]
fn task_icons_are_distinct() {
    assert_eq!(task_icon(TaskStatus::Pending), "⏳");
    assert_eq!(task_icon(TaskStatus::Running), "🔄");
    assert_eq!(task_icon(TaskStatus::Done), "✅");
    assert_eq!(task_icon(TaskStatus::Failed), "❌");
}

#[test]
fn apply_finished_keeps_output_and_other_tasks() {
    let mut app = make_app(&[TaskStatus::Running, TaskStatus::Pending]);
    app.apply(TaskUpdate::Finished(0, false, "boom".to_string()));
    assert_eq!(app.tasks[0].output, "boom");
    assert!(matches!(app.tasks[1].status, TaskStatus::Pending));
    assert_eq!(app.tasks[0].label, "task");
}

#[test]
fn empty_dashboard_is_complete_without_failure() {
    let app = make_app(&[]);
    assert!(app.is_complete());
    assert!(!app.has_failure());
}

#[test]
fn lock_in_completion_waits_for_every_task() {
    let mut app = make_app(&[TaskStatus::Done, TaskStatus::Running]);
    assert!(!app.lock_in_completion());
    assert!(!app.complete);
    app.apply(TaskUpdate::Finished(1, true, String::new()));
    assert!(app.lock_in_completion());
    assert!(app.complete);
    assert_eq!(app.selected, 0);
    // only the first time
    assert!(!app.lock_in_completion());
}

#[test]
fn lock_in_completion_selects_first_failure() {
    let mut app = make_app(&[TaskStatus::Done, TaskStatus::Failed, TaskStatus::Failed]);
    assert!(app.lock_in_completion());
    assert_eq!(app.selected, 1);
}

#[test]
fn quit_reports_success_only_when_every_task_succeeded() {
    let mut running = make_app(&[TaskStatus::Done, TaskStatus::Running]);
    assert!(matches!(running.handle_key(KeyInput::Quit), KeyOutcome::Exit { success: false }));
    let mut pending = make_app(&[TaskStatus::Pending]);
    assert!(matches!(pending.handle_key(KeyInput::Quit), KeyOutcome::Exit { success: false }));
    let mut failed = make_app(&[TaskStatus::Failed]);
    assert!(matches!(failed.handle_key(KeyInput::Quit), KeyOutcome::Exit { success: false }));
    let mut done = make_app(&[TaskStatus::Done, TaskStatus::Done]);
    assert!(matches!(done.handle_key(KeyInput::Quit), KeyOutcome::Exit { success: true }));
}

#[test]
fn succeeded_needs_every_task_done() {
    assert!(make_app(&[TaskStatus::Done, TaskStatus::Done]).succeeded());
    assert!(!make_app(&[TaskStatus::Done, TaskStatus::Pending]).succeeded());
    assert!(!make_app(&[TaskStatus::Done, TaskStatus::Failed]).succeeded());
    assert!(make_app(&[]).succeeded());
}

#[test]
fn cursor_marks_the_selected_task_once_complete() {
    let mut app = make_app(&[TaskStatus::Done, TaskStatus::Failed]);
    assert_eq!(task_cursor(&app, 0), "  ");
    assert!(app.lock_in_completion());
    assert_eq!(task_cursor(&app, 1), "▶ ");
    assert_eq!(task_cursor(&app, 0), "  ");
}

#[test]
fn output_border_follows_status() {
    assert_eq!(output_border(TaskStatus::Failed), Tone::Red);
    assert_eq!(output_border(TaskStatus::Done), Tone::Green);
    assert_eq!(output_border(TaskStatus::Running), Tone::Blue);
    assert_eq!(output_border(TaskStatus::Pending), Tone::Blue);
}

#[test]
fn selection_stays_first_until_complete_and_complete_stays() {
    let mut app = make_app(&[TaskStatus::Running, TaskStatus::Running]);
    app.handle_key(KeyInput::Down);
    assert!(!app.lock_in_completion());
    assert_eq!(app.selected, 0);
    app.apply(TaskUpdate::Finished(0, true, String::new()));
    app.apply(TaskUpdate::Finished(1, false, String::new()));
    assert!(app.lock_in_completion());
    assert_eq!(app.selected, 1);
    app.apply(TaskUpdate::Started(0));
    assert!(!app.lock_in_completion());
    assert!(app.complete);
}

#[test]
fn keys_move_selection_only_when_complete() {
    let mut app = make_app(&[TaskStatus::Done, TaskStatus::Done, TaskStatus::Running]);
    assert!(matches!(app.handle_key(KeyInput::Down), KeyOutcome::Continue));
    assert_eq!(app.selected, 0);
    assert!(matches!(app.handle_key(KeyInput::Enter), KeyOutcome::Continue));
    app.apply(TaskUpdate::Finished(2, true, "third".to_string()));
    assert!(app.lock_in_completion());
    app.handle_key(KeyInput::Down);
    app.handle_key(KeyInput::Down);
    app.handle_key(KeyInput::Down);
    assert_eq!(app.selected, 2);
    app.handle_key(KeyInput::Up);
    assert_eq!(app.selected, 1);
    app.handle_key(KeyInput::Up);
    app.handle_key(KeyInput::Up);
    assert_eq!(app.selected, 0);
    assert!(matches!(app.handle_key(KeyInput::Other), KeyOutcome::Continue));
}

#[test]
fn enter_shows_selected_output() {
    let mut app = make_app(&[TaskStatus::Running, TaskStatus::Running]);
    app.apply(TaskUpdate::Finished(0, true, "ok".to_string()));
    app.apply(TaskUpdate::Finished(1, false, "broken".to_string()));
    assert!(app.lock_in_completion());
    match app.handle_key(KeyInput::Enter) {
        KeyOutcome::ShowOutput { success, output } => {
            assert!(!success);
            assert_eq!(output, "broken");
        }
        _ => panic!("expected the selected output"),
    }
}

#[test]
fn hint_text_follows_state() {
    let mut app = make_app(&[TaskStatus::Done]);
    assert_eq!(hint_text(&app), "  Press q or Esc to exit early");
    app.lock_in_completion();
    assert_eq!(hint_text(&app), "  ✅ All tasks passed · ↑↓ select · Enter full output · q exit");
    let mut failed = make_app(&[TaskStatus::Failed]);
    failed.lock_in_completion();
    assert_eq!(hint_text(&failed), "  ❌ Some tasks failed · ↑↓ select · Enter full output · q exit");
}

#[test]
fn output_excerpt_blank_output() {
    assert_eq!(output_excerpt("  \n\t ", 10), "No output captured.");
    assert_eq!(output_excerpt("", 10), "No output captured.");
}

#[test]
fn output_excerpt_short_output_is_trimmed_at_the_end() {
    assert_eq!(output_excerpt("line one\nline two\n\n", 10), "line one\nline two");
}

#[test]
fn output_excerpt_keeps_last_lines_that_fit() {
    // height 4 leaves two rows inside the border
    assert_eq!(output_excerpt("a\nb\nc\nd", 4), "c\nd");
    assert_eq!(output_excerpt("a\nb\nc", 2), "");
}

#[test]
fn dashboard_completes_when_every_worker_reports() {
    let cmd = Some("bin/phpunit".to_string());
    let mut app = App::new(build_initial_tasks(&cmd, false), vec!["src/A.php".to_string()]);
    let workers = plan_workers(&cmd, false);
    for w in &workers {
        app.apply(TaskUpdate::Started(w.task));
    }
    assert!(!app.lock_in_completion());
    app.apply(TaskUpdate::Finished(1, true, "fixed".to_string()));
    assert!(!app.lock_in_completion());
    app.apply(TaskUpdate::Finished(0, false, "1 failure".to_string()));
    assert!(app.lock_in_completion());
    assert!(app.has_failure());
    assert_eq!(app.selected, 0);
}

#[test]
fn dashboard_succeeds_when_every_worker_succeeds() {
    let mut app = App::new(build_initial_tasks(&None, true), vec![]);
    for w in &plan_workers(&None, true) {
        app.apply(TaskUpdate::Started(w.task));
        app.apply(TaskUpdate::Finished(w.task, true, String::new()));
    }
    assert!(app.lock_in_completion());
    assert!(app.succeeded());
}
