//! The tasks that run side by side: the project's tests, PHP CS Fixer and
//! PHPStan, and the messages their workers send.
use vstd::prelude::*;

verus! {

/// Where a task stands.
#[derive(Clone, Copy, Debug, PartialEq, Eq, Structural)]
pub enum TaskStatus {
    Pending,
    Running,
    Done,
    Failed,
}

/// A task as the dashboard shows it.
pub struct TaskState {
    pub label: String,
    pub status: TaskStatus,
    /// What the task printed, shown once it has finished.
    pub output: String,
}

/// A message from a worker: the task at this index started, or finished
/// (successfully or not) with this output.
pub enum TaskUpdate {
    Started(usize),
    Finished(usize, bool, String),
}

/// The statuses of the tests, CS Fixer and PHPStan tasks before any worker
/// starts: a task that will not run counts as done at once.
pub open spec fn initial_statuses(has_tests: bool, run_stan: bool) -> Seq<TaskStatus> {
    seq![
        if has_tests {
            TaskStatus::Pending
        } else {
            TaskStatus::Done
        },
        TaskStatus::Pending,
        if run_stan {
            TaskStatus::Pending
        } else {
            TaskStatus::Done
        },
    ]
}

/// The tasks before any worker starts: tests (done at once when no test
/// command is configured), CS Fixer (always run) and PHPStan (done at once
/// unless asked for), all with empty output.
pub fn build_initial_tasks(test_command: &Option<String>, run_stan: bool) -> (tasks: Vec<TaskState>)
    ensures
        tasks@.len() == 3,
        tasks@[0].label@ == "Tests"@,
        tasks@[1].label@ == "CS Fixer"@,
        tasks@[2].label@ == "PHPStan"@,
        forall|i: int|
            0 <= i < 3 ==> (#[trigger] tasks@[i]).status == initial_statuses(
                test_command is Some,
                run_stan,
            )[i],
        forall|i: int| 0 <= i < 3 ==> (#[trigger] tasks@[i]).output@.len() == 0,
{
    let tests = TaskState {
        label: String::from_str("Tests"),
        status: if test_command.is_none() {
            TaskStatus::Done
        } else {
            TaskStatus::Pending
        },
        output: String::new(),
    };
    let cs_fixer = TaskState {
        label: String::from_str("CS Fixer"),
        status: TaskStatus::Pending,
        output: String::new(),
    };
    let stan = TaskState {
        label: String::from_str("PHPStan"),
        status: if !run_stan {
            TaskStatus::Done
        } else {
            TaskStatus::Pending
        },
        output: String::new(),
    };
    let mut tasks: Vec<TaskState> = Vec::new();
    tasks.push(tests);
    tasks.push(cs_fixer);
    tasks.push(stan);
    tasks
}

/// The work of one worker.
pub enum Job {
    /// Run the project's tests with this command.
    Tests { command: String },
    /// Run CS Fixer over the modified PHP files.
    CsFix,
    /// Run PHPStan.
    Stan,
}

/// A worker: the task it reports on, and its job.
pub struct Worker {
    pub task: usize,
    pub job: Job,
}

/// The tasks that get a worker, in the order the workers start.
pub open spec fn worker_tasks(has_tests: bool, run_stan: bool) -> Seq<int> {
    (if has_tests {
        seq![0int]
    } else {
        Seq::empty()
    }) + seq![1int] + (if run_stan {
        seq![2int]
    } else {
        Seq::empty()
    })
}

/// The job that runs for a task.
pub open spec fn job_fits(task: int, job: Job, test_command: Option<String>) -> bool {
    match job {
        Job::Tests { command } => task == 0 && (test_command matches Some(c) && command@ == c@),
        Job::CsFix => task == 1,
        Job::Stan => task == 2,
    }
}

/// The workers to start: one for the tests when a test command is
/// configured, one for CS Fixer, and one for PHPStan when asked for.
pub fn plan_workers(test_command: &Option<String>, run_stan: bool) -> (workers: Vec<Worker>)
    ensures
        workers@.len() == worker_tasks(test_command is Some, run_stan).len(),
        forall|i: int|
            0 <= i < workers@.len() ==> (#[trigger] workers@[i]).task == worker_tasks(
                test_command is Some,
                run_stan,
            )[i] && job_fits(workers@[i].task as int, workers@[i].job, *test_command),
{
    let mut workers: Vec<Worker> = Vec::new();
    match test_command {
        Some(c) => {
            workers.push(Worker { task: 0, job: Job::Tests { command: c.clone() } });
        },
        None => {},
    }
    workers.push(Worker { task: 1, job: Job::CsFix });
    if run_stan {
        workers.push(Worker { task: 2, job: Job::Stan });
    }
    workers
}

/// Every task that starts out pending has exactly one worker, and no worker
/// reports on a task that starts out done: once every worker has reported
/// its task finished, every task has finished.
pub proof fn lemma_pending_tasks_have_one_worker(has_tests: bool, run_stan: bool)
    ensures
        forall|t: int|
            0 <= t < 3 ==> (initial_statuses(has_tests, run_stan)[t] == TaskStatus::Pending
                <==> worker_tasks(has_tests, run_stan).contains(t)),
        forall|t: int|
            0 <= t < 3 ==> initial_statuses(has_tests, run_stan)[t] == TaskStatus::Pending
                || initial_statuses(has_tests, run_stan)[t] == TaskStatus::Done,
        worker_tasks(has_tests, run_stan).no_duplicates(),
        forall|i: int|
            0 <= i < worker_tasks(has_tests, run_stan).len() ==> 0 <= #[trigger] worker_tasks(
                has_tests,
                run_stan,
            )[i] < 3,
{
    let w = worker_tasks(has_tests, run_stan);
    let st = initial_statuses(has_tests, run_stan);
    if has_tests {
        if run_stan {
            assert(w =~= seq![0int, 1, 2]);
        } else {
            assert(w =~= seq![0int, 1]);
        }
    } else {
        if run_stan {
            assert(w =~= seq![1int, 2]);
        } else {
            assert(w =~= seq![1int]);
        }
    }
    assert forall|t: int| 0 <= t < 3 implies (st[t] == TaskStatus::Pending <==> w.contains(t)) by {
        if w.contains(t) {
            let j = choose|j: int| 0 <= j < w.len() && w[j] == t;
            assert(w[j] == t);
        }
        if st[t] == TaskStatus::Pending {
            if t == 0 {
                assert(w[0] == 0);
            } else if t == 1 {
                assert(w[if has_tests { 1int } else { 0int }] == 1);
            } else {
                assert(w[w.len() - 1] == 2);
            }
        }
    }
}

} // verus!
