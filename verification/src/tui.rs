//! The state behind the live dashboard: applying worker messages, noticing
//! when every task has finished, and answering keys.
//!
//! The dashboard closes by itself the first time every task has finished
//! (`App::lock_in_completion`). A dashboard driven that way is never left
//! open in its complete state, so the selection keys and the full-output
//! view of `App::handle_key` only answer for a caller that keeps it open.
use vstd::prelude::*;

use crate::parallel::{initial_statuses, worker_tasks, TaskState, TaskStatus, TaskUpdate};
use crate::text::{
    ends_with, lemma_join_lines_ends, starts_with, chars_of, join_lines, line_spans, lines_of, piece, trim, trim_bounds, trim_end, trimmed_end,
};

verus! {

/// All the state the dashboard shows.
pub struct App {
    pub tasks: Vec<TaskState>,
    pub php_files: Vec<String>,
    /// The highlighted task (used once `complete`).
    pub selected: usize,
    /// Set the first time every task has finished.
    pub complete: bool,
}

pub open spec fn is_finished(s: TaskStatus) -> bool {
    s == TaskStatus::Done || s == TaskStatus::Failed
}

pub open spec fn all_finished(ts: Seq<TaskState>) -> bool {
    forall|i: int| 0 <= i < ts.len() ==> is_finished(#[trigger] ts[i].status)
}

pub open spec fn any_failed(ts: Seq<TaskState>) -> bool {
    exists|i: int| 0 <= i < ts.len() && (#[trigger] ts[i].status) == TaskStatus::Failed
}

/// Every task finished and none failed: every task is done.
pub open spec fn all_passed(ts: Seq<TaskState>) -> bool {
    all_finished(ts) && !any_failed(ts)
}

/// Index of the first failed task, or `ts.len()`.
pub open spec fn first_failed(ts: Seq<TaskState>) -> int
    decreases ts.len(),
{
    if ts.len() == 0 {
        0
    } else if ts[0].status == TaskStatus::Failed {
        0
    } else {
        1 + first_failed(ts.skip(1))
    }
}

/// The task after a worker's message about it.
pub open spec fn updated(t: TaskState, u: TaskUpdate) -> TaskState {
    match u {
        TaskUpdate::Started(_) => TaskState { status: TaskStatus::Running, ..t },
        TaskUpdate::Finished(_, ok, out) => TaskState {
            status: if ok {
                TaskStatus::Done
            } else {
                TaskStatus::Failed
            },
            output: out,
            ..t
        },
    }
}

pub open spec fn update_index(u: TaskUpdate) -> int {
    match u {
        TaskUpdate::Started(i) => i as int,
        TaskUpdate::Finished(i, _, _) => i as int,
    }
}

/// A key as the dashboard reads it.
#[derive(Clone, Copy, Debug, PartialEq, Eq, Structural)]
pub enum KeyInput {
    /// `q` or `Esc`.
    Quit,
    Enter,
    Up,
    Down,
    Other,
}

/// What the dashboard does after a key.
pub enum KeyOutcome {
    Continue,
    /// Leave; `success` says whether no task failed.
    Exit { success: bool },
    /// Leave and print the selected task's output.
    ShowOutput { success: bool, output: String },
}

proof fn lemma_first_failed_is(ts: Seq<TaskState>, k: int)
    requires
        0 <= k <= ts.len(),
        forall|i: int| 0 <= i < k ==> (#[trigger] ts[i]).status != TaskStatus::Failed,
        k == ts.len() || ts[k].status == TaskStatus::Failed,
    ensures
        first_failed(ts) == k,
    decreases k,
{
    if k > 0 {
        assert(ts[0].status != TaskStatus::Failed);
        lemma_first_failed_is(ts.skip(1), k - 1);
    }
}

impl App {
    pub fn new(tasks: Vec<TaskState>, php_files: Vec<String>) -> (app: App)
        ensures
            app.tasks == tasks,
            app.php_files == php_files,
            app.selected == 0,
            !app.complete,
            state_of(app) == fresh(tasks@),
    {
        App { tasks, php_files, selected: 0, complete: false }
    }

    /// Applies a worker's message to the task it names.
    pub fn apply(&mut self, update: TaskUpdate)
        requires
            0 <= update_index(update) < old(self).tasks@.len(),
        ensures
            final(self).tasks@ == old(self).tasks@.update(
                update_index(update),
                updated(old(self).tasks@[update_index(update)], update),
            ),
            final(self).tasks@ == apply_all(old(self).tasks@, seq![update]),
            state_of(*final(self)) == dash_next(state_of(*old(self)), DashEvent::Message(update)),
            final(self).tasks@.len() == old(self).tasks@.len(),
            forall|j: int|
                0 <= j < old(self).tasks@.len() && j != update_index(update)
                    ==> final(self).tasks@[j] == old(self).tasks@[j],
            (match update {
                TaskUpdate::Started(i) => final(self).tasks@[i as int].status == TaskStatus::Running
                    && final(self).tasks@[i as int].output == old(self).tasks@[i as int].output
                    && final(self).tasks@[i as int].label == old(self).tasks@[i as int].label,
                TaskUpdate::Finished(i, ok, out) => final(self).tasks@[i as int].status == (if ok {
                    TaskStatus::Done
                } else {
                    TaskStatus::Failed
                }) && final(self).tasks@[i as int].output == out
                    && final(self).tasks@[i as int].label == old(self).tasks@[i as int].label,
            }),
            final(self).php_files == old(self).php_files,
            final(self).selected == old(self).selected,
            final(self).complete == old(self).complete,
    {
        let ghost before = self.tasks@;
        proof {
            let one = seq![update];
            assert(one.drop_last() =~= Seq::<TaskUpdate>::empty());
            assert(apply_all(before, one.drop_last()) == before);
            assert(one.last() == update);
        }
        match update {
            TaskUpdate::Started(i) => {
                self.tasks[i].status = TaskStatus::Running;
            },
            TaskUpdate::Finished(i, ok, output) => {
                self.tasks[i].status = if ok {
                    TaskStatus::Done
                } else {
                    TaskStatus::Failed
                };
                self.tasks[i].output = output;
            },
        }
        assert(self.tasks@ =~= apply_all(before, seq![update]));
    }

    /// Every task is done or failed.
    pub fn is_complete(&self) -> (b: bool)
        ensures
            b == all_finished(self.tasks@),
    {
        let mut i: usize = 0;
        while i < self.tasks.len()
            invariant
                i <= self.tasks@.len(),
                forall|k: int| 0 <= k < i ==> is_finished(#[trigger] self.tasks@[k].status),
            decreases self.tasks@.len() - i,
        {
            let s = self.tasks[i].status;
            if !(s == TaskStatus::Done || s == TaskStatus::Failed) {
                return false;
            }
            i = i + 1;
        }
        true
    }

    /// Some task failed.
    pub fn has_failure(&self) -> (b: bool)
        ensures
            b == any_failed(self.tasks@),
    {
        self.first_failure() < self.tasks.len()
    }

    /// Index of the first failed task, or the number of tasks.
    fn first_failure(&self) -> (r: usize)
        ensures
            r == first_failed(self.tasks@),
            r <= self.tasks@.len(),
            r < self.tasks@.len() <==> any_failed(self.tasks@),
    {
        let mut i: usize = 0;
        while i < self.tasks.len() && self.tasks[i].status != TaskStatus::Failed
            invariant
                i <= self.tasks@.len(),
                forall|k: int| 0 <= k < i ==> (#[trigger] self.tasks@[k]).status != TaskStatus::Failed,
            decreases self.tasks@.len() - i,
        {
            i = i + 1;
        }
        proof {
            lemma_first_failed_is(self.tasks@, i as int);
        }
        i
    }

    /// The first time every task has finished, locks the dashboard in its
    /// complete state, selects the first failed task (or the first task), and
    /// answers `true`: the dashboard closes then. Otherwise changes nothing.
    pub fn lock_in_completion(&mut self) -> (closing: bool)
        ensures
            closing == (!old(self).complete && all_finished(old(self).tasks@)),
            state_of(*final(self)) == dash_next(state_of(*old(self)), DashEvent::Check),
            final(self).tasks == old(self).tasks,
            final(self).php_files == old(self).php_files,
            closing ==> final(self).complete && final(self).selected == (if first_failed(
                old(self).tasks@,
            ) < old(self).tasks@.len() {
                first_failed(old(self).tasks@)
            } else {
                0
            }),
            !closing ==> final(self).complete == old(self).complete && final(self).selected == old(
                self,
            ).selected,
    {
        if !self.complete && self.is_complete() {
            self.complete = true;
            let f = self.first_failure();
            self.selected = if f < self.tasks.len() {
                f
            } else {
                0
            };
            true
        } else {
            false
        }
    }

    /// Whether every task succeeded: all of them finished and none failed.
    pub fn succeeded(&self) -> (b: bool)
        ensures
            b == all_passed(self.tasks@),
    {
        self.is_complete() && !self.has_failure()
    }

    /// Answers a key: `q`/`Esc` leaves, reporting success only when every
    /// task succeeded; once complete, Enter leaves showing the selected
    /// task's output and Up/Down move the selection.
    pub fn handle_key(&mut self, key: KeyInput) -> (r: KeyOutcome)
        requires
            key == KeyInput::Enter && old(self).complete ==> old(self).selected < old(
                self,
            ).tasks@.len(),
        ensures
            final(self).tasks == old(self).tasks,
            final(self).php_files == old(self).php_files,
            final(self).complete == old(self).complete,
            state_of(*final(self)) == dash_next(state_of(*old(self)), DashEvent::Key(key)),
            (match key {
                KeyInput::Quit => r == KeyOutcome::Exit { success: all_passed(old(self).tasks@) }
                    && final(self).selected == old(self).selected,
                KeyInput::Enter => if old(self).complete {
                    (r matches KeyOutcome::ShowOutput { success, output } && success == all_passed(
                        old(self).tasks@,
                    ) && output@ == old(self).tasks@[old(self).selected as int].output@)
                        && final(self).selected == old(self).selected
                } else {
                    r is Continue && final(self).selected == old(self).selected
                },
                KeyInput::Up => r is Continue && final(self).selected == (if old(self).complete
                    && old(self).selected > 0 {
                    (old(self).selected - 1) as usize
                } else {
                    old(self).selected
                }),
                KeyInput::Down => r is Continue && final(self).selected == (if old(self).complete
                    && old(self).selected + 1 < old(self).tasks@.len() {
                    (old(self).selected + 1) as usize
                } else {
                    old(self).selected
                }),
                KeyInput::Other => r is Continue && final(self).selected == old(self).selected,
            }),
    {
        match key {
            KeyInput::Quit => KeyOutcome::Exit { success: self.succeeded() },
            KeyInput::Enter => {
                if self.complete {
                    let output = self.tasks[self.selected].output.clone();
                    KeyOutcome::ShowOutput { success: self.succeeded(), output }
                } else {
                    KeyOutcome::Continue
                }
            },
            KeyInput::Up => {
                if self.complete && self.selected > 0 {
                    self.selected = self.selected - 1;
                }
                KeyOutcome::Continue
            },
            KeyInput::Down => {
                let last = if self.tasks.len() > 0 {
                    self.tasks.len() - 1
                } else {
                    0
                };
                if self.complete && self.selected < last {
                    self.selected = self.selected + 1;
                }
                KeyOutcome::Continue
            },
            KeyInput::Other => KeyOutcome::Continue,
        }
    }
}

/// The dashboard reports success exactly when every task is done.
pub proof fn lemma_success_means_all_done(ts: Seq<TaskState>)
    ensures
        all_passed(ts) <==> forall|i: int|
            0 <= i < ts.len() ==> (#[trigger] ts[i]).status == TaskStatus::Done,
{
    if all_passed(ts) {
        assert forall|i: int| 0 <= i < ts.len() implies (#[trigger] ts[i]).status
            == TaskStatus::Done by {
            assert(is_finished(ts[i].status));
            if ts[i].status == TaskStatus::Failed {
                assert(any_failed(ts));
            }
        }
    }
    if forall|i: int| 0 <= i < ts.len() ==> (#[trigger] ts[i]).status == TaskStatus::Done {
        assert(all_finished(ts));
        if any_failed(ts) {
            let i = choose|i: int| 0 <= i < ts.len() && (#[trigger] ts[i].status) == TaskStatus::Failed;
            assert(ts[i].status == TaskStatus::Done);
        }
    }
}

// ---------------------------------------------------------------- a whole run

/// What the dashboard keeps between two frames.
pub struct DashState {
    pub tasks: Seq<TaskState>,
    pub selected: int,
    pub complete: bool,
}

pub open spec fn state_of(app: App) -> DashState {
    DashState { tasks: app.tasks@, selected: app.selected as int, complete: app.complete }
}

/// What happens to the dashboard between two frames: a worker's message,
/// the check whether every task has finished, or a key.
pub enum DashEvent {
    Message(TaskUpdate),
    Check,
    Key(KeyInput),
}

/// The dashboard after one event (see `App::apply`,
/// `App::lock_in_completion` and `App::handle_key`).
pub open spec fn dash_next(s: DashState, e: DashEvent) -> DashState {
    match e {
        DashEvent::Message(u) => {
            let i = update_index(u);
            if 0 <= i < s.tasks.len() {
                DashState { tasks: s.tasks.update(i, updated(s.tasks[i], u)), ..s }
            } else {
                s
            }
        },
        DashEvent::Check => if !s.complete && all_finished(s.tasks) {
            DashState {
                complete: true,
                selected: if first_failed(s.tasks) < s.tasks.len() {
                    first_failed(s.tasks)
                } else {
                    0
                },
                ..s
            }
        } else {
            s
        },
        DashEvent::Key(k) => DashState {
            selected: match k {
                KeyInput::Up => if s.complete && s.selected > 0 {
                    s.selected - 1
                } else {
                    s.selected
                },
                KeyInput::Down => if s.complete && s.selected + 1 < s.tasks.len() {
                    s.selected + 1
                } else {
                    s.selected
                },
                _ => s.selected,
            },
            ..s
        },
    }
}

/// The dashboard after the events `es`, in order.
pub open spec fn dash_run(s: DashState, es: Seq<DashEvent>) -> DashState
    decreases es.len(),
{
    if es.len() == 0 {
        s
    } else {
        dash_next(dash_run(s, es.drop_last()), es.last())
    }
}

/// The dashboard as `App::new` makes it.
pub open spec fn fresh(tasks: Seq<TaskState>) -> DashState {
    DashState { tasks, selected: 0, complete: false }
}

/// Over a whole run of the dashboard from `App::new`: once complete, it
/// stays complete; until it is complete, the selection stays on the first
/// task; and it becomes complete at the first check after which every task
/// has finished, selecting the first failed task (or the first task).
pub proof fn lemma_dashboard_run(tasks: Seq<TaskState>, es: Seq<DashEvent>, j: int)
    requires
        0 <= j <= es.len(),
    ensures
        dash_run(fresh(tasks), es.take(j)).complete ==> dash_run(fresh(tasks), es).complete,
        !dash_run(fresh(tasks), es).complete ==> dash_run(fresh(tasks), es).selected == 0,
        j < es.len() && es[j] is Check && !dash_run(fresh(tasks), es.take(j)).complete
            && all_finished(dash_run(fresh(tasks), es.take(j)).tasks) ==> ({
            let before = dash_run(fresh(tasks), es.take(j));
            let after = dash_run(fresh(tasks), es.take(j + 1));
            after.complete && after.selected == (if first_failed(before.tasks)
                < before.tasks.len() {
                first_failed(before.tasks)
            } else {
                0
            })
        }),
    decreases es.len(),
{
    if es.len() > 0 {
        let init = es.drop_last();
        if j < es.len() {
            assert(es.take(j) =~= init.take(j));
            lemma_dashboard_run(tasks, init, j);
            if j + 1 < es.len() {
                assert(es.take(j + 1) =~= init.take(j + 1));
                lemma_dashboard_run(tasks, init, j + 1);
            } else {
                assert(es.take(j + 1) =~= es);
                assert(init =~= es.take(j));
            }
        } else {
            assert(es.take(j) =~= es);
            lemma_dashboard_run(tasks, init, init.len() as int);
            assert(init.take(init.len() as int) =~= init);
        }
    } else {
        assert(es.take(j) =~= es);
    }
}

/// `first_failed` is the index of the first failed task: the task there
/// failed and none before it did; it is the number of tasks exactly when no
/// task failed.
pub proof fn lemma_first_failed_finds_first(ts: Seq<TaskState>)
    ensures
        0 <= first_failed(ts) <= ts.len(),
        first_failed(ts) < ts.len() ==> ts[first_failed(ts)].status == TaskStatus::Failed,
        forall|i: int| 0 <= i < first_failed(ts) ==> (#[trigger] ts[i]).status != TaskStatus::Failed,
        first_failed(ts) == ts.len() <==> !any_failed(ts),
    decreases ts.len(),
{
    if ts.len() > 0 && ts[0].status != TaskStatus::Failed {
        let t = ts.skip(1);
        lemma_first_failed_finds_first(t);
        assert forall|i: int| 0 <= i < first_failed(ts) implies (#[trigger] ts[i]).status
            != TaskStatus::Failed by {
            if i > 0 {
                assert(ts[i] == t[i - 1]);
            }
        }
        if first_failed(ts) < ts.len() {
            assert(ts[first_failed(ts)] == t[first_failed(t)]);
        }
        if any_failed(ts) {
            let k = choose|k: int| 0 <= k < ts.len() && (#[trigger] ts[k].status) == TaskStatus::Failed;
            assert(t[k - 1] == ts[k]);
        }
        if any_failed(t) {
            let k = choose|k: int| 0 <= k < t.len() && (#[trigger] t[k].status) == TaskStatus::Failed;
            assert(t[k] == ts[k + 1]);
        }
    }
}

/// The tasks after the messages `us`, in order (a message naming no task
/// changes nothing).
pub open spec fn apply_all(ts: Seq<TaskState>, us: Seq<TaskUpdate>) -> Seq<TaskState>
    decreases us.len(),
{
    if us.len() == 0 {
        ts
    } else {
        let prev = apply_all(ts, us.drop_last());
        let u = us.last();
        let i = update_index(u);
        if 0 <= i < prev.len() {
            prev.update(i, updated(prev[i], u))
        } else {
            prev
        }
    }
}

/// The last message among `us` about task `t`, if any.
pub open spec fn last_update_for(us: Seq<TaskUpdate>, t: int) -> Option<TaskUpdate>
    decreases us.len(),
{
    if us.len() == 0 {
        None
    } else if update_index(us.last()) == t {
        Some(us.last())
    } else {
        last_update_for(us.drop_last(), t)
    }
}

proof fn lemma_apply_all_status(ts: Seq<TaskState>, us: Seq<TaskUpdate>, t: int)
    requires
        0 <= t < ts.len(),
    ensures
        apply_all(ts, us).len() == ts.len(),
        apply_all(ts, us)[t].status == (match last_update_for(us, t) {
            None => ts[t].status,
            Some(u) => updated(ts[t], u).status,
        }),
        last_update_for(us, t) is Some ==> exists|j: int|
            0 <= j < us.len() && update_index(#[trigger] us[j]) == t,
    decreases us.len(),
{
    if us.len() > 0 {
        lemma_apply_all_status(ts, us.drop_last(), t);
        if update_index(us.last()) != t && last_update_for(us, t) is Some {
            let j = choose|j: int|
                0 <= j < us.drop_last().len() && update_index(#[trigger] us.drop_last()[j]) == t;
            assert(us[j] == us.drop_last()[j]);
        }
    }
}

/// A task shows what its last message says: after messages ending, for
/// task `t`, with `Finished(_, ok, out)`, the task keeps its label, is done
/// when `ok` (failed otherwise), and its output is `out`, whether it
/// succeeded or not and whatever came before. Messages never change a label.
pub proof fn lemma_last_report_is_shown(ts: Seq<TaskState>, us: Seq<TaskUpdate>, t: int)
    requires
        0 <= t < ts.len(),
    ensures
        apply_all(ts, us).len() == ts.len(),
        apply_all(ts, us)[t].label == ts[t].label,
        (match last_update_for(us, t) {
            Some(TaskUpdate::Finished(_, ok, out)) => apply_all(ts, us)[t].output == out
                && apply_all(ts, us)[t].status == (if ok {
                TaskStatus::Done
            } else {
                TaskStatus::Failed
            }),
            _ => true,
        }),
        last_update_for(us, t) is None ==> apply_all(ts, us)[t] == ts[t],
    decreases us.len(),
{
    if us.len() > 0 {
        lemma_last_report_is_shown(ts, us.drop_last(), t);
    }
}

/// Starting from the tasks as first built, when the workers' messages name
/// only their own tasks and each worker's last message is that its task
/// finished (whatever came before, in whatever order the workers' messages
/// interleave), every task has finished: the dashboard closes. It then
/// reports success exactly when every worker's last message said its task
/// succeeded.
pub proof fn lemma_workers_finishing_completes(
    ts: Seq<TaskState>,
    us: Seq<TaskUpdate>,
    has_tests: bool,
    run_stan: bool,
)
    requires
        ts.len() == 3,
        forall|i: int| 0 <= i < 3 ==> (#[trigger] ts[i]).status == initial_statuses(has_tests, run_stan)[i],
        forall|j: int|
            0 <= j < us.len() ==> worker_tasks(has_tests, run_stan).contains(
                update_index(#[trigger] us[j]),
            ),
        forall|t: int|
            #![trigger worker_tasks(has_tests, run_stan).contains(t)]
            worker_tasks(has_tests, run_stan).contains(t) ==> (last_update_for(us, t) matches Some(
                TaskUpdate::Finished(..),
            )),
    ensures
        all_finished(apply_all(ts, us)),
        all_passed(apply_all(ts, us)) <==> forall|t: int|
            #![trigger worker_tasks(has_tests, run_stan).contains(t)]
            worker_tasks(has_tests, run_stan).contains(t) ==> (last_update_for(us, t) matches Some(
                TaskUpdate::Finished(_, true, _),
            )),
{
    crate::parallel::lemma_pending_tasks_have_one_worker(has_tests, run_stan);
    lemma_apply_all_status(ts, us, 0);
    let after = apply_all(ts, us);
    let w = worker_tasks(has_tests, run_stan);
    assert forall|t: int| 0 <= t < after.len() implies is_finished(#[trigger] after[t].status) && (
    after[t].status == TaskStatus::Done <==> (w.contains(t) ==> (last_update_for(us, t) matches Some(
        TaskUpdate::Finished(_, true, _),
    )))) by {
        lemma_apply_all_status(ts, us, t);
        if !w.contains(t) {
            assert(initial_statuses(has_tests, run_stan)[t] != TaskStatus::Pending);
            if last_update_for(us, t) is Some {
                let j = choose|j: int| 0 <= j < us.len() && update_index(#[trigger] us[j]) == t;
                assert(w.contains(update_index(us[j])));
            }
        }
    }
    lemma_success_means_all_done(after);
    if all_passed(after) {
        assert forall|t: int| #![trigger w.contains(t)] w.contains(t) implies (last_update_for(
            us,
            t,
        ) matches Some(TaskUpdate::Finished(_, true, _))) by {
            let k = choose|k: int| 0 <= k < w.len() && w[k] == t;
            assert(0 <= w[k] < 3);
            assert(after[t].status == TaskStatus::Done);
        }
    }
    if forall|t: int|
        #![trigger w.contains(t)]
        w.contains(t) ==> (last_update_for(us, t) matches Some(TaskUpdate::Finished(_, true, _))) {
        assert forall|t: int| 0 <= t < after.len() implies (#[trigger] after[t]).status
            == TaskStatus::Done by {
            if w.contains(t) {
                assert(last_update_for(us, t) matches Some(TaskUpdate::Finished(_, true, _)));
            }
        }
    }
}

/// The icon shown beside a task.
pub fn task_icon(status: TaskStatus) -> (icon: &'static str)
    ensures
        icon@ == (match status {
            TaskStatus::Pending => "⏳"@,
            TaskStatus::Running => "🔄"@,
            TaskStatus::Done => "✅"@,
            TaskStatus::Failed => "❌"@,
        }),
{
    match status {
        TaskStatus::Pending => "⏳",
        TaskStatus::Running => "🔄",
        TaskStatus::Done => "✅",
        TaskStatus::Failed => "❌",
    }
}

/// The marker before the row of task `i`: an arrow on the selected task once
/// the dashboard is complete.
pub fn task_cursor(app: &App, i: usize) -> (c: &'static str)
    ensures
        c@ == (if app.complete && i == app.selected {
            "▶ "@
        } else {
            "  "@
        }),
{
    if app.complete && i == app.selected {
        "▶ "
    } else {
        "  "
    }
}

/// A colour of the dashboard's borders.
#[derive(Clone, Copy, Debug, PartialEq, Eq, Structural)]
pub enum Tone {
    Red,
    Green,
    Blue,
}

/// The border colour of the output pane for a task: red when it failed,
/// green when it is done, blue otherwise.
pub fn output_border(status: TaskStatus) -> (t: Tone)
    ensures
        t == (match status {
            TaskStatus::Failed => Tone::Red,
            TaskStatus::Done => Tone::Green,
            _ => Tone::Blue,
        }),
{
    match status {
        TaskStatus::Failed => Tone::Red,
        TaskStatus::Done => Tone::Green,
        _ => Tone::Blue,
    }
}

/// The hint line under the dashboard.
pub fn hint_text(app: &App) -> (text: &'static str)
    ensures
        text@ == (if app.complete {
            if any_failed(app.tasks@) {
                "  ❌ Some tasks failed · ↑↓ select · Enter full output · q exit"@
            } else {
                "  ✅ All tasks passed · ↑↓ select · Enter full output · q exit"@
            }
        } else {
            "  Press q or Esc to exit early"@
        }),
{
    if app.complete {
        if app.has_failure() {
            "  ❌ Some tasks failed · ↑↓ select · Enter full output · q exit"
        } else {
            "  ✅ All tasks passed · ↑↓ select · Enter full output · q exit"
        }
    } else {
        "  Press q or Esc to exit early"
    }
}


/// The rows left for output in an area `height` rows high (two go to the
/// border).
pub open spec fn rows_for_output(height: u16) -> int {
    if height >= 2 {
        height - 2
    } else {
        0
    }
}

/// What the output pane shows of a finished task's `output` in an area
/// `height` rows high: a notice when the output is blank, the last lines
/// that fit when there are more lines than rows, else the whole output
/// without trailing whitespace.
pub open spec fn output_excerpt_text(output: Seq<char>, height: u16) -> Seq<char> {
    let ls = lines_of(output);
    let rows = rows_for_output(height);
    if trim(output).len() == 0 {
        "No output captured."@
    } else if ls.len() > rows {
        join_lines(ls.skip(ls.len() - rows))
    } else {
        trim_end(output)
    }
}

/// The output pane shows the end of a long output: with `r` rows inside the
/// border (two of an area's rows go to the border), an output with more
/// lines than `r` shows exactly its last `r` lines, joined by newlines, so
/// the pane ends with the output's last line and starts `r` lines before
/// it. A blank output shows a notice, and an output that fits is shown
/// whole, without trailing whitespace.
pub proof fn lemma_output_pane_shows_the_end(output: Seq<char>, height: u16)
    ensures
        ({
            let ls = lines_of(output);
            let n = ls.len();
            let r: int = if height >= 2 {
                height - 2
            } else {
                0
            };
            let shown = output_excerpt_text(output, height);
            &&& trim(output).len() == 0 ==> shown == "No output captured."@
            &&& trim(output).len() > 0 && n > r ==> shown == join_lines(ls.subrange(n - r, n as int))
            &&& trim(output).len() > 0 && n > r && r > 0 ==> ends_with(shown, ls[n - 1])
                && starts_with(shown, ls[n - r])
            &&& trim(output).len() > 0 && n <= r ==> shown == trim_end(output)
        }),
{
    let ls = lines_of(output);
    let n = ls.len();
    let r: int = if height >= 2 {
        height - 2
    } else {
        0
    };
    if n > r {
        let tail = ls.subrange(n - r, n as int);
        assert(ls.skip(n - r) =~= tail);
        if r > 0 {
            lemma_join_lines_ends(tail);
            assert(tail.last() == ls[n - 1]);
            assert(tail[0] == ls[n - r]);
        }
    }
}

/// The text of the output pane (see `output_excerpt_text`).
pub fn output_excerpt(output: &str, height: u16) -> (r: String)
    ensures
        r@ == output_excerpt_text(output@, height),
{
    let cs = chars_of(output);
    let (a, b) = trim_bounds(&cs, 0, cs.len());
    assert(cs@.subrange(0, cs@.len() as int) =~= output@);
    if a == b {
        return String::from_str("No output captured.");
    }
    let rows: usize = if height >= 2 {
        (height - 2) as usize
    } else {
        0
    };
    let spans = line_spans(&cs);
    if spans.len() <= rows {
        return trimmed_end(output);
    }
    let ghost ls = lines_of(output@);
    let first = spans.len() - rows;
    let mut out = String::new();
    let mut k = first;
    assert(ls.subrange(first as int, first as int) =~= Seq::<Seq<char>>::empty());
    while k < spans.len()
        invariant
            cs@ == output@,
            ls == lines_of(output@),
            spans@.len() == ls.len(),
            forall|j: int|
                0 <= j < spans@.len() ==> (#[trigger] spans@[j]).0 <= spans@[j].1 <= cs@.len()
                    && cs@.subrange(spans@[j].0 as int, spans@[j].1 as int) == ls[j],
            first <= k <= spans@.len(),
            out@ == join_lines(ls.subrange(first as int, k as int)),
        decreases spans@.len() - k,
    {
        let (x, y) = spans[k];
        let ghost before = out@;
        let ghost done = ls.subrange(first as int, k as int);
        if k > first {
            out.append("\n");
        }
        let p = piece(output, x, y);
        out.append(p.as_str());
        proof {
            let next = ls.subrange(first as int, k + 1);
            assert(next.drop_last() =~= done);
            assert(p@ == ls[k as int]);
            if k > first {
                reveal_strlit("\n");
                assert(out@ =~= before + seq!['\n'] + ls[k as int]);
            } else {
                assert(next =~= seq![ls[k as int]]);
                assert(out@ =~= p@);
            }
        }
        k = k + 1;
    }
    assert(ls.subrange(first as int, spans@.len() as int) =~= ls.skip(ls.len() - rows));
    out
}

} // verus!
