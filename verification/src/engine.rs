//! The decision and what follows it.
//!
//! A run begins idle. It turns to executing exactly where the ratio that the
//! mode selects has reached the threshold; otherwise it ends at once, with
//! status 0 and nothing run. Who runs the command is found out before it is
//! spawned. Spawning and waiting are left to the caller, who reports what
//! became of the child; the report settles the status that the run ends with.

use crate::account::current_login_shell;
use crate::args::{arg_views, checked, validate, ComparationMode, InputError};
use crate::ratio::{Ratio, UsageRatios};
use std::path::PathBuf;
use vstd::prelude::*;

verus! {

impl UsageRatios {
    /// The ratio that `mode` selects.
    pub open spec fn selected(self, mode: ComparationMode) -> Ratio {
        match mode {
            ComparationMode::RAM => self.ram,
            ComparationMode::SWAP => self.swap,
            ComparationMode::COMB => self.comb,
        }
    }

    /// The ratio that `mode` selects.
    pub fn select(&self, mode: ComparationMode) -> (ratio: Ratio)
        ensures
            ratio == self.selected(mode),
    {
        match mode {
            ComparationMode::RAM => self.ram,
            ComparationMode::SWAP => self.swap,
            ComparationMode::COMB => self.comb,
        }
    }
}

/// What is to be done with an argument vector, once the ratios are known.
#[derive(Clone, Debug, PartialEq, Eq)]
pub enum Plan {
    /// The arguments are turned down.
    Reject(InputError),
    /// The threshold is not reached: the run stays idle and ends.
    Skip,
    /// The threshold is reached: this command is to be run.
    Execute(String),
}

/// The view of a `Plan`: the command as a sequence of characters.
pub enum Planned {
    Reject(InputError),
    Skip,
    Execute(Seq<char>),
}

impl View for Plan {
    type V = Planned;

    open spec fn view(&self) -> Planned {
        match self {
            Plan::Reject(e) => Planned::Reject(*e),
            Plan::Skip => Planned::Skip,
            Plan::Execute(command) => Planned::Execute(command@),
        }
    }
}

/// What is to be done with `args` under `ratios`: where the arguments are
/// valid, the command is to be run exactly if the selected ratio has reached
/// the threshold.
pub open spec fn planned(args: Seq<Seq<char>>, ratios: UsageRatios) -> Planned {
    match checked(args) {
        Err(e) => Planned::Reject(e),
        Ok(request) => if ratios.selected(request.mode)@.reaches(request.threshold) {
            Planned::Execute(request.command)
        } else {
            Planned::Skip
        },
    }
}

/// Decides what is to be done with the argument vector `args`, the
/// program's name first, under `ratios`.
pub fn plan(args: &Vec<String>, ratios: &UsageRatios) -> (p: Plan)
    ensures
        p@ == planned(arg_views(args@), *ratios),
{
    match validate(args) {
        Err(e) => Plan::Reject(e),
        Ok(invocation) => {
            let ratio = ratios.select(invocation.mode);
            if invocation.threshold.is_reached_by(&ratio) {
                Plan::Execute(invocation.command)
            } else {
                Plan::Skip
            }
        },
    }
}

/// Why a run that was to execute its command did not bring back a status.
#[derive(Clone, Copy, Debug, PartialEq, Eq, Structural)]
pub enum Failure {
    /// The memory statistics could not be read.
    NoStatistics,
    /// The user database has no entry for the user with this id.
    UnknownUser(u32),
    /// The shell could not be spawned.
    Spawn,
    /// Waiting for the child failed.
    Wait,
    /// The child ended without an exit code.
    NoExitCode,
}

/// How a run ended.
#[derive(Clone, Copy, Debug, PartialEq, Eq, Structural)]
pub enum Outcome {
    /// The arguments were turned down.
    Rejected(InputError),
    /// The threshold was not reached; nothing was run.
    ConditionNotMet,
    /// The command was to be run, and the environment failed.
    Failed(Failure),
    /// The command ran and exited with this code.
    Finished(i32),
}

impl Outcome {
    /// The status that the process ends with: 0 where the threshold was not
    /// reached, the child's own code where it gave one, 1 otherwise.
    pub open spec fn status(self) -> i32 {
        match self {
            Outcome::Rejected(_) => 1,
            Outcome::ConditionNotMet => 0,
            Outcome::Failed(_) => 1,
            Outcome::Finished(code) => code,
        }
    }

    /// The status that the process ends with.
    pub fn exit_code(&self) -> (code: i32)
        ensures
            code == self.status(),
    {
        match self {
            Outcome::Rejected(_) => 1,
            Outcome::ConditionNotMet => 0,
            Outcome::Failed(_) => 1,
            Outcome::Finished(code) => *code,
        }
    }
}

/// What the caller saw of the child process.
#[derive(Clone, Copy, Debug, PartialEq, Eq, Structural)]
pub enum ChildReport {
    /// The shell could not be spawned.
    SpawnFailed,
    /// The child was spawned, and waiting for it failed.
    WaitFailed,
    /// The child exited with this code.
    Exited(i32),
    /// The child ended without an exit code, as when a signal kills it.
    NoExitCode,
}

/// The outcome that a report of the child amounts to.
pub open spec fn concluded(report: ChildReport) -> Outcome {
    match report {
        ChildReport::SpawnFailed => Outcome::Failed(Failure::Spawn),
        ChildReport::WaitFailed => Outcome::Failed(Failure::Wait),
        ChildReport::Exited(code) => Outcome::Finished(code),
        ChildReport::NoExitCode => Outcome::Failed(Failure::NoExitCode),
    }
}

/// Ends a run that executed its command: the child's exit code is carried
/// over unchanged, and every other report is a failure.
pub fn conclude(report: ChildReport) -> (outcome: Outcome)
    ensures
        outcome == concluded(report),
{
    match report {
        ChildReport::SpawnFailed => Outcome::Failed(Failure::Spawn),
        ChildReport::WaitFailed => Outcome::Failed(Failure::Wait),
        ChildReport::Exited(code) => Outcome::Finished(code),
        ChildReport::NoExitCode => Outcome::Failed(Failure::NoExitCode),
    }
}

/// The first step of a run: either it is over already, or a child is to be
/// spawned, as `<shell> -c <command>`, and reported to `conclude`.
#[derive(Debug, PartialEq, Eq)]
pub enum Step {
    /// The run is over.
    Done(Outcome),
    /// This shell is to run this command.
    Spawn(PathBuf, String),
}

/// How a plan ends where no command is to be run; `None` for a plan that
/// runs one.
pub open spec fn settled(plan: Planned) -> Option<Outcome> {
    match plan {
        Planned::Reject(e) => Some(Outcome::Rejected(e)),
        Planned::Skip => Some(Outcome::ConditionNotMet),
        Planned::Execute(_) => None,
    }
}

/// The step that runs `command` for the user with the id `uid`, given the
/// login shell that was found for that user: the command is spawned under
/// the shell, unchanged; where no shell was found, the run fails before
/// anything is spawned.
pub fn launch(command: String, uid: u32, shell: Option<PathBuf>) -> (step: Step)
    ensures
        step == match shell {
            Some(path) => Step::Spawn(path, command),
            None => Step::Done(Outcome::Failed(Failure::UnknownUser(uid))),
        },
{
    match shell {
        Some(path) => Step::Spawn(path, command),
        None => Step::Done(Outcome::Failed(Failure::UnknownUser(uid))),
    }
}

/// Begins a run on the argument vector `args` under `ratios`. Where the plan
/// runs no command, the run is over and the user database is not asked. Where
/// it runs one, the invoking user's login shell is looked up: the step is to
/// spawn that very command, or the run has failed for want of the user.
pub fn start(args: &Vec<String>, ratios: &UsageRatios) -> (step: Step)
    ensures
        match planned(arg_views(args@), *ratios) {
            Planned::Execute(command) => match step {
                Step::Spawn(_, spawned) => spawned@ == command,
                Step::Done(outcome) => outcome matches Outcome::Failed(Failure::UnknownUser(_)),
            },
            other => step is Done && settled(other) == Some(step->Done_0),
        },
{
    match plan(args, ratios) {
        Plan::Reject(e) => Step::Done(Outcome::Rejected(e)),
        Plan::Skip => Step::Done(Outcome::ConditionNotMet),
        Plan::Execute(command) => {
            let (uid, shell) = current_login_shell();
            launch(command, uid, shell)
        },
    }
}

} // verus!
