//! The order of a linter run and what ends it: the project's tests when
//! asked for, then the modified PHP files, CS Fixer on them, and PHPStan
//! when asked for. The run stops at the first step that fails.
//!
//! The caller performs each action and reports its result as an event; the
//! library decides what follows.
use vstd::prelude::*;

use crate::command::{CommandError, CommandStatus};

verus! {

/// The flags the linter was started with.
#[derive(Clone, Copy, Debug, PartialEq, Eq, Structural)]
pub struct Options {
    /// `--test`: run the project's tests first.
    pub run_tests: bool,
    /// `--stan`: run PHPStan after CS Fixer.
    pub run_stan: bool,
}

/// Where a run stands: which result it waits for.
#[derive(Clone, Copy, Debug, PartialEq, Eq, Structural)]
pub enum Stage {
    Start,
    Tests,
    Files,
    CsFix,
    Stan,
    Over,
}

/// A step of the run.
#[derive(Clone, Copy, Debug, PartialEq, Eq, Structural)]
pub enum Check {
    Tests,
    Files,
    CsFix,
    Stan,
}

/// The result of an action, as the caller reports it.
pub enum Event {
    /// The run starts.
    Began,
    /// The tests ran: whether they passed, or why they could not run.
    TestsRan(Result<bool, CommandError>),
    /// The modified PHP files, or why git could not list them.
    FilesListed(Result<Vec<String>, CommandError>),
    /// CS Fixer ran: whether every file came out clean.
    CsFixRan(Result<bool, CommandError>),
    /// PHPStan ran: whether it passed.
    StanRan(Result<bool, CommandError>),
}

/// Why a run ended.
pub enum Outcome {
    /// No modified PHP file: nothing to lint.
    NoPhpFiles,
    /// Every step passed.
    AllClean,
    /// A step ran and failed.
    Failed(Check),
    /// A step could not be run, for this reason.
    Broken(Check, CommandError),
}

/// What the caller does next.
pub enum Action {
    RunTests,
    ListFiles,
    RunCsFix { files: Vec<String> },
    RunStan,
    /// End the process with `status`.
    Exit { status: CommandStatus, outcome: Outcome },
}

/// The exit status that goes with an outcome.
pub open spec fn status_for(outcome: Outcome) -> CommandStatus {
    match outcome {
        Outcome::NoPhpFiles => CommandStatus::Success,
        Outcome::AllClean => CommandStatus::Success,
        _ => CommandStatus::FatalError,
    }
}

pub open spec fn exit_with(outcome: Outcome) -> (Stage, Action) {
    (Stage::Over, Action::Exit { status: status_for(outcome), outcome })
}

/// What follows a step that passed: the next enabled step, or the end.
pub open spec fn after_passing(options: Options, check: Check) -> (Stage, Action) {
    match check {
        Check::Tests => (Stage::Files, Action::ListFiles),
        Check::Stan => exit_with(Outcome::AllClean),
        _ => if options.run_stan {
            (Stage::Stan, Action::RunStan)
        } else {
            exit_with(Outcome::AllClean)
        },
    }
}

/// What follows a step that reported `result`.
pub open spec fn after_check(options: Options, check: Check, result: Result<bool, CommandError>) -> (
    Stage,
    Action,
) {
    match result {
        Ok(true) => after_passing(options, check),
        Ok(false) => exit_with(Outcome::Failed(check)),
        Err(e) => exit_with(Outcome::Broken(check, e)),
    }
}

/// The event answers what the stage waits for.
pub open spec fn fits(stage: Stage, event: Event) -> bool {
    match event {
        Event::Began => stage == Stage::Start,
        Event::TestsRan(_) => stage == Stage::Tests,
        Event::FilesListed(_) => stage == Stage::Files,
        Event::CsFixRan(_) => stage == Stage::CsFix,
        Event::StanRan(_) => stage == Stage::Stan,
    }
}

/// The next stage and action after `event` (an event that does not fit the
/// stage leaves the stage as it is; `Run::step` never takes one).
pub open spec fn next(options: Options, stage: Stage, event: Event) -> (Stage, Action) {
    if !fits(stage, event) {
        (stage, Action::ListFiles)
    } else {
        match event {
            Event::Began => if options.run_tests {
                (Stage::Tests, Action::RunTests)
            } else {
                (Stage::Files, Action::ListFiles)
            },
            Event::TestsRan(r) => after_check(options, Check::Tests, r),
            Event::FilesListed(r) => match r {
                Err(e) => exit_with(Outcome::Broken(Check::Files, e)),
                Ok(files) => if files@.len() == 0 {
                    exit_with(Outcome::NoPhpFiles)
                } else {
                    (Stage::CsFix, Action::RunCsFix { files })
                },
            },
            Event::CsFixRan(r) => after_check(options, Check::CsFix, r),
            Event::StanRan(r) => after_check(options, Check::Stan, r),
        }
    }
}

/// A run of the linter.
pub struct Run {
    pub options: Options,
    pub stage: Stage,
}

impl Run {
    pub fn new(options: Options) -> (run: Run)
        ensures
            run.options == options,
            run.stage == Stage::Start,
    {
        Run { options, stage: Stage::Start }
    }

    /// Takes in the result of the last action and says what to do next.
    pub fn step(&mut self, event: Event) -> (action: Action)
        requires
            fits(old(self).stage, event),
        ensures
            final(self).options == old(self).options,
            (final(self).stage, action) == next(old(self).options, old(self).stage, event),
    {
        let (stage, action) = match event {
            Event::Began => if self.options.run_tests {
                (Stage::Tests, Action::RunTests)
            } else {
                (Stage::Files, Action::ListFiles)
            },
            Event::TestsRan(r) => after_check_exec(self.options, Check::Tests, r),
            Event::FilesListed(r) => match r {
                Err(e) => exit_exec(Outcome::Broken(Check::Files, e)),
                Ok(files) => if files.len() == 0 {
                    exit_exec(Outcome::NoPhpFiles)
                } else {
                    (Stage::CsFix, Action::RunCsFix { files })
                },
            },
            Event::CsFixRan(r) => after_check_exec(self.options, Check::CsFix, r),
            Event::StanRan(r) => after_check_exec(self.options, Check::Stan, r),
        };
        self.stage = stage;
        action
    }
}

fn exit_exec(outcome: Outcome) -> (r: (Stage, Action))
    ensures
        r == exit_with(outcome),
{
    let status = match &outcome {
        Outcome::NoPhpFiles => CommandStatus::Success,
        Outcome::AllClean => CommandStatus::Success,
        _ => CommandStatus::FatalError,
    };
    (Stage::Over, Action::Exit { status, outcome })
}

fn after_check_exec(options: Options, check: Check, result: Result<bool, CommandError>) -> (r: (
    Stage,
    Action,
))
    ensures
        r == after_check(options, check, result),
{
    match result {
        Ok(true) => match check {
            Check::Tests => (Stage::Files, Action::ListFiles),
            Check::Stan => exit_exec(Outcome::AllClean),
            _ => if options.run_stan {
                (Stage::Stan, Action::RunStan)
            } else {
                exit_exec(Outcome::AllClean)
            },
        },
        Ok(false) => exit_exec(Outcome::Failed(check)),
        Err(e) => exit_exec(Outcome::Broken(check, e)),
    }
}

// ---------------------------------------------------------------- the whole run

/// What each action would report: the results of the tests, of listing the
/// files, of CS Fixer and of PHPStan.
pub struct World {
    pub tests: Result<bool, CommandError>,
    pub files: Result<Vec<String>, CommandError>,
    pub cs_fix: Result<bool, CommandError>,
    pub stan: Result<bool, CommandError>,
}

/// The event with which `world` answers `action`.
pub open spec fn answer(world: World, action: Action) -> Event {
    match action {
        Action::RunTests => Event::TestsRan(world.tests),
        Action::ListFiles => Event::FilesListed(world.files),
        Action::RunCsFix { .. } => Event::CsFixRan(world.cs_fix),
        Action::RunStan => Event::StanRan(world.stan),
        Action::Exit { .. } => Event::Began,
    }
}

/// How many steps are left at most, from a stage.
pub open spec fn rank(stage: Stage) -> nat {
    match stage {
        Stage::Start => 5,
        Stage::Tests => 4,
        Stage::Files => 3,
        Stage::CsFix => 2,
        Stage::Stan => 1,
        Stage::Over => 0,
    }
}

/// The status a run ends with when every action is answered by `world`,
/// from `stage` on with `event` in hand.
pub open spec fn final_status(options: Options, world: World, stage: Stage, event: Event) -> Option<
    CommandStatus,
>
    decreases rank(stage),
{
    let (s, a) = next(options, stage, event);
    match a {
        Action::Exit { status, .. } => Some(status),
        _ => if rank(s) < rank(stage) {
            final_status(options, world, s, answer(world, a))
        } else {
            None
        },
    }
}

/// The step passed.
pub open spec fn passed(r: Result<bool, CommandError>) -> bool {
    r matches Ok(true)
}

/// A run always ends, and it ends with success exactly when the tests passed
/// (if asked for), git listed the files, and either no PHP file was modified
/// or CS Fixer cleaned every file and PHPStan passed (if asked for).
pub proof fn lemma_run_succeeds_iff_every_step_passes(options: Options, world: World)
    ensures
        final_status(options, world, Stage::Start, Event::Began) is Some,
        final_status(options, world, Stage::Start, Event::Began) == Some(CommandStatus::Success)
            <==> ((!options.run_tests || passed(world.tests)) && (world.files matches Ok(files) && (
        files@.len() == 0 || (passed(world.cs_fix) && (!options.run_stan || passed(
            world.stan,
        )))))),
{
    let stan = final_status(options, world, Stage::Stan, Event::StanRan(world.stan));
    let cs = final_status(options, world, Stage::CsFix, Event::CsFixRan(world.cs_fix));
    let files = final_status(options, world, Stage::Files, Event::FilesListed(world.files));
    let tests = final_status(options, world, Stage::Tests, Event::TestsRan(world.tests));
    assert(stan == Some(if passed(world.stan) {
        CommandStatus::Success
    } else {
        CommandStatus::FatalError
    }));
    assert(cs == Some(if passed(world.cs_fix) && (!options.run_stan || passed(world.stan)) {
        CommandStatus::Success
    } else {
        CommandStatus::FatalError
    }));
    assert(files is Some);
    assert(files == Some(CommandStatus::Success) <==> (world.files matches Ok(f) && (f@.len() == 0
        || (passed(world.cs_fix) && (!options.run_stan || passed(world.stan))))));
    assert(tests == Some(if passed(world.tests) {
        files->0
    } else {
        CommandStatus::FatalError
    }));
}

} // verus!
