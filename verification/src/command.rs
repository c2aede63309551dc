//! The commands the linter runs: their exit codes, their command lines, and
//! the decisions taken between them.
//!
//! The library builds each command line and decides what follows from each
//! exit status; starting processes is left to the caller.
use vstd::prelude::*;

use crate::text::{chars_of, trim, trim_bounds};

verus! {

/// The process exit status of the linter.
#[derive(Clone, Copy, Debug, PartialEq, Eq, Structural)]
pub enum CommandStatus {
    Success,
    FatalError,
}

impl CommandStatus {
    /// The exit code: 0 for `Success`, 1 for `FatalError`.
    pub fn code(&self) -> (c: i32)
        ensures
            c == (match self {
                CommandStatus::Success => 0i32,
                CommandStatus::FatalError => 1i32,
            }),
    {
        match self {
            CommandStatus::Success => 0,
            CommandStatus::FatalError => 1,
        }
    }
}

/// A command that could not be started or that reported a failure.
#[derive(Debug)]
pub struct CommandError {
    pub message: String,
}

/// A program and its arguments.
pub struct CommandLine {
    pub program: String,
    pub args: Vec<String>,
}

/// The texts of a sequence of strings.
pub open spec fn views(v: Seq<String>) -> Seq<Seq<char>> {
    v.map_values(|s: String| s@)
}

fn strings(parts: Vec<&str>) -> (r: Vec<String>)
    ensures
        views(r@) == parts@.map_values(|s: &str| s@),
{
    let mut r: Vec<String> = Vec::new();
    let mut i: usize = 0;
    while i < parts.len()
        invariant
            i <= parts@.len(),
            views(r@) == parts@.take(i as int).map_values(|s: &str| s@),
        decreases parts@.len() - i,
    {
        let ghost before = r@;
        let item = String::from_str(parts[i]);
        r.push(item);
        proof {
            assert(r@ =~= before.push(item));
            assert(views(r@) =~= views(before).push(item@));
            assert(parts@.take(i + 1) =~= parts@.take(i as int).push(parts@[i as int]));
            assert(parts@.take(i + 1).map_values(|s: &str| s@) =~= parts@.take(i as int).map_values(
                |s: &str| s@,
            ).push(parts@[i as int]@));
        }
        i = i + 1;
    }
    assert(parts@.take(parts@.len() as int) =~= parts@);
    r
}

/// `git status --short`.
pub fn git_status_command() -> (c: CommandLine)
    ensures
        c.program@ == "git"@,
        views(c.args@) == seq!["status"@, "--short"@],
{
    let parts = vec!["status", "--short"];
    assert(parts@.map_values(|s: &str| s@) =~= seq!["status"@, "--short"@]);
    let args = strings(parts);
    CommandLine { program: String::from_str("git"), args }
}

/// `git diff-tree --no-commit-id --name-only -r HEAD`: the files of the last
/// commit.
pub fn diff_tree_command() -> (c: CommandLine)
    ensures
        c.program@ == "git"@,
        views(c.args@) == seq!["diff-tree"@, "--no-commit-id"@, "--name-only"@, "-r"@, "HEAD"@],
{
    let parts = vec!["diff-tree", "--no-commit-id", "--name-only", "-r", "HEAD"];
    assert(parts@.map_values(|s: &str| s@) =~= seq![
        "diff-tree"@,
        "--no-commit-id"@,
        "--name-only"@,
        "-r"@,
        "HEAD"@,
    ]);
    let args = strings(parts);
    CommandLine { program: String::from_str("git"), args }
}

/// The `docker` arguments that run `composer cs:fix` on `file` in
/// `container`. `silent` only decides whether the caller announces the
/// command; the arguments do not depend on it.
pub fn build_cs_fix_args(file: &str, container: &str, silent: bool) -> (args: Vec<String>)
    ensures
        views(args@) == seq!["exec"@, container@, "composer"@, "cs:fix"@, file@],
{
    let parts = vec!["exec", container, "composer", "cs:fix", file];
    assert(parts@.map_values(|s: &str| s@) =~= seq![
        "exec"@,
        container@,
        "composer"@,
        "cs:fix"@,
        file@,
    ]);
    strings(parts)
}

/// `docker exec <container> composer cs:fix <file>`.
pub fn cs_fix_command(file: &str, container: &str) -> (c: CommandLine)
    ensures
        c.program@ == "docker"@,
        views(c.args@) == seq!["exec"@, container@, "composer"@, "cs:fix"@, file@],
{
    CommandLine { program: String::from_str("docker"), args: build_cs_fix_args(file, container, true) }
}

/// `docker exec <container> composer stan`.
pub fn composer_stan_command(container: &str) -> (c: CommandLine)
    ensures
        c.program@ == "docker"@,
        views(c.args@) == seq!["exec"@, container@, "composer"@, "stan"@],
{
    let parts = vec!["exec", container, "composer", "stan"];
    assert(parts@.map_values(|s: &str| s@) =~= seq!["exec"@, container@, "composer"@, "stan"@]);
    let args = strings(parts);
    CommandLine { program: String::from_str("docker"), args }
}

/// `docker exec <container> sh -c <command>`, or `None` when the command is
/// blank: a blank test command is not run and counts as failed tests.
pub fn test_command(command: &str, container: &str) -> (c: Option<CommandLine>)
    ensures
        c is None <==> trim(command@).len() == 0,
        c matches Some(c) ==> c.program@ == "docker"@ && views(c.args@) == seq![
            "exec"@,
            container@,
            "sh"@,
            "-c"@,
            command@,
        ],
{
    let cs = chars_of(command);
    let (a, b) = trim_bounds(&cs, 0, cs.len());
    assert(cs@.subrange(0, cs@.len() as int) =~= command@);
    if a == b {
        return None;
    }
    let parts = vec!["exec", container, "sh", "-c", command];
    assert(parts@.map_values(|s: &str| s@) =~= seq![
        "exec"@,
        container@,
        "sh"@,
        "-c"@,
        command@,
    ]);
    let args = strings(parts);
    Some(CommandLine { program: String::from_str("docker"), args })
}

// ---------------------------------------------------------------- CS Fixer run

/// Progress of a CS Fixer run over a list of files: files are linted one at
/// a time, in order, and the run stops at the first file that fails.
#[derive(Clone, Copy, Debug)]
pub struct CsFixRun {
    /// Files linted successfully so far.
    pub linted: usize,
    /// A file failed.
    pub failed: bool,
}

/// What the run does next.
pub enum CsFixStep {
    /// Lint the file at this index with these `docker` arguments.
    Lint { index: usize, args: Vec<String> },
    /// The run is over; `clean` says whether every file passed.
    Finished { clean: bool },
}

/// The step that follows `run` over `n` files, as (finished, clean, index).
pub open spec fn next_step(run: CsFixRun, n: nat) -> (bool, bool, nat) {
    if run.failed {
        (true, false, 0)
    } else if run.linted >= n {
        (true, true, 0)
    } else {
        (false, false, run.linted as nat)
    }
}

pub open spec fn after(run: CsFixRun, success: bool) -> CsFixRun {
    if success {
        CsFixRun { linted: (run.linted + 1) as usize, failed: false }
    } else {
        CsFixRun { failed: true, ..run }
    }
}

impl CsFixRun {
    pub fn new() -> (run: CsFixRun)
        ensures
            run.linted == 0,
            !run.failed,
    {
        CsFixRun { linted: 0, failed: false }
    }

    /// The next step over `files`.
    pub fn step(&self, files: &Vec<String>, container: &str) -> (s: CsFixStep)
        ensures
            (match s {
                CsFixStep::Finished { clean } => next_step(*self, files@.len()) == (true, clean, 0nat),
                CsFixStep::Lint { index, args } => next_step(*self, files@.len()) == (
                    false,
                    false,
                    index as nat,
                ) && index < files@.len() && views(args@) == seq![
                    "exec"@,
                    container@,
                    "composer"@,
                    "cs:fix"@,
                    files@[index as int]@,
                ],
            }),
    {
        if self.failed {
            CsFixStep::Finished { clean: false }
        } else if self.linted >= files.len() {
            CsFixStep::Finished { clean: true }
        } else {
            let i = self.linted;
            CsFixStep::Lint { index: i, args: build_cs_fix_args(files[i].as_str(), container, true) }
        }
    }

    /// Records how the file just linted fared.
    pub fn record(&mut self, success: bool)
        requires
            !old(self).failed,
            old(self).linted < usize::MAX,
        ensures
            *final(self) == after(*old(self), success),
    {
        if success {
            self.linted = self.linted + 1;
        } else {
            self.failed = true;
        }
    }
}

/// Whether files `from..n` all pass, by `outcomes`.
pub open spec fn all_pass(outcomes: Seq<bool>, from: int, n: int) -> bool {
    forall|i: int| from <= i < n ==> #[trigger] outcomes[i]
}

/// The first file in `from..n` that fails, or `n`.
pub open spec fn first_failure(outcomes: Seq<bool>, from: int, n: int) -> int
    decreases n - from,
{
    if from >= n {
        n
    } else if !outcomes[from] {
        from
    } else {
        first_failure(outcomes, from + 1, n)
    }
}

/// Runs the protocol from `run` while file `i` fares as `outcomes[i]`:
/// the result says whether the run ended clean and how many files it linted.
pub open spec fn drive(run: CsFixRun, n: nat, outcomes: Seq<bool>) -> (bool, nat)
    decreases n - run.linted, (if run.failed { 0int } else { 1int }) when n <= usize::MAX
{
    let (finished, clean, index) = next_step(run, n);
    if finished {
        (clean, 0)
    } else {
        let (c, k) = drive(after(run, outcomes[index as int]), n, outcomes);
        (c, k + 1)
    }
}

/// A CS Fixer run ends clean exactly when every file passes, and it lints
/// the files up to and including the first that fails (all of them when
/// none fails).
pub proof fn lemma_cs_fix_run(n: nat, outcomes: Seq<bool>, from: usize)
    requires
        outcomes.len() == n,
        from <= n,
        n < usize::MAX,
    ensures
        drive(CsFixRun { linted: from, failed: false }, n, outcomes).0 == all_pass(
            outcomes,
            from as int,
            n as int,
        ),
        drive(CsFixRun { linted: from, failed: false }, n, outcomes).1 == (if all_pass(
            outcomes,
            from as int,
            n as int,
        ) {
            n - from
        } else {
            first_failure(outcomes, from as int, n as int) - from + 1
        }),
    decreases n - from,
{
    let run = CsFixRun { linted: from, failed: false };
    if from < n {
        let next = after(run, outcomes[from as int]);
        if outcomes[from as int] {
            lemma_cs_fix_run(n, outcomes, (from + 1) as usize);
            assert(next == CsFixRun { linted: (from + 1) as usize, failed: false });
            if all_pass(outcomes, from + 1, n as int) {
                assert(all_pass(outcomes, from as int, n as int));
            } else {
                let w = choose|i: int| from + 1 <= i < n && !#[trigger] outcomes[i];
                assert(!outcomes[w]);
            }
        } else {
            assert(drive(next, n, outcomes) == (false, 0nat));
            assert(!all_pass(outcomes, from as int, n as int)) by {
                assert(!outcomes[from as int]);
            }
        }
    }
}

} // verus!
