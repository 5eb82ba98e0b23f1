//! Reporting a failing execution so that it can be replayed. A failure is reported at most once
//! per execution: the first report carries the schedule up to the failure, and later attempts in
//! the same execution are suppressed. Whether and where the report goes is the configuration's
//! choice; writing it out is the caller's part.
use vstd::prelude::*;
use crate::config::{Config, FailurePersistence, ScheduleEncoding};
use crate::schedule::Schedule;
use crate::serialization::{serialize_schedule_with, serialize_spec, serializable};

verus! {

/// The execution running on a thread, as far as reporting its failure goes: its configuration,
/// and whether its failure was already reported.
pub struct ActiveExecution {
    config: Config,
    persisted: bool,
}

/// The reporting state of a thread: the execution running on it, if any.
pub struct FailureReporter {
    active: Option<ActiveExecution>,
}

/// Marks an execution as running; handing it back to `end_execution` ends it.
#[must_use]
pub struct ExecutionGuard;

/// What to do about a failure: nothing, print the serialized schedule, or write it to a file in
/// the configured directory.
#[derive(Debug, PartialEq, Eq)]
pub enum FailureReport {
    Nothing,
    Print(String),
    File(String),
}


impl FailureReporter {
    /// Whether an execution is running.
    pub closed spec fn running(&self) -> bool {
        self.active is Some
    }

    /// Whether the failure of the running execution was already reported.
    pub closed spec fn reported(&self) -> bool {
        match self.active {
            Some(a) => a.persisted,
            None => false,
        }
    }

    /// The configuration of the running execution.
    pub closed spec fn config(&self) -> Config {
        self.active->0.config
    }

    /// No execution running.
    pub fn new() -> (r: FailureReporter)
        ensures
            !r.running(),
    {
        FailureReporter { active: None }
    }

    /// Whether an execution is running.
    pub fn is_running(&self) -> (r: bool)
        ensures
            r == self.running(),
    {
        self.active.is_some()
    }

    /// The configuration of the running execution, if one is running.
    pub fn running_config(&self) -> (r: Option<&Config>)
        ensures
            (r is Some) == self.running(),
            r matches Some(c) ==> *c == self.config(),
    {
        match &self.active {
            Some(active) => Some(&active.config),
            None => None,
        }
    }

    /// Claims the right to report the running execution's failure: `false` if it was already
    /// reported or no execution is running.
    pub fn claim_report(&mut self) -> (r: bool)
        ensures
            r == (old(self).running() && !old(self).reported()),
            final(self).running() == old(self).running(),
            old(self).running() ==> final(self).reported() && final(self).config() == old(self).config(),
    {
        match &mut self.active {
            Some(active) => {
                let before = active.persisted;
                active.persisted = true;
                !before
            },
            None => false,
        }
    }
}

/// Marks the start of an execution with configuration `config`, whose failure is not yet
/// reported. The reporter keeps the configuration itself, so that a report made while the
/// execution runs goes where it asks.
pub fn begin_execution(reporter: &mut FailureReporter, config: Config) -> (r: ExecutionGuard)
    ensures
        final(reporter).running(),
        !final(reporter).reported(),
        final(reporter).config() == config,
{
    reporter.active = Some(ActiveExecution { config, persisted: false });
    ExecutionGuard
}

/// Marks the end of the execution: failures are no longer reported.
pub fn end_execution(reporter: &mut FailureReporter, guard: ExecutionGuard)
    ensures
        !final(reporter).running(),
{
    reporter.active = None;
}

/// The report of a failure whose schedule is `schedule`, under `config`, for a caller that has
/// already claimed the right to report it.
pub fn failure_report(config: &Config, schedule: &Schedule) -> (r: FailureReport)
    requires
        serializable(schedule@, config.schedule_encoding),
    ensures
        match config.failure_persistence {
            FailurePersistence::Disabled => r == FailureReport::Nothing,
            FailurePersistence::Print => r matches FailureReport::Print(s)
                && s@ == serialize_spec(schedule@, config.schedule_encoding, config.schedule_text_encoding),
            FailurePersistence::File(_) => r matches FailureReport::File(s)
                && s@ == serialize_spec(schedule@, config.schedule_encoding, config.schedule_text_encoding),
        },
{
    match &config.failure_persistence {
        FailurePersistence::Disabled => FailureReport::Nothing,
        FailurePersistence::File(_) => {
            FailureReport::File(serialize_schedule_with(schedule, config.schedule_encoding, config.schedule_text_encoding))
        },
        FailurePersistence::Print => {
            FailureReport::Print(serialize_schedule_with(schedule, config.schedule_encoding, config.schedule_text_encoding))
        },
    }
}

/// Reports the failure of the running execution, whose schedule is `schedule`, under `config`,
/// unless it was already reported or no execution is running.
pub fn persist_failure(reporter: &mut FailureReporter, config: &Config, schedule: &Schedule) -> (r: FailureReport)
    requires
        serializable(schedule@, config.schedule_encoding),
    ensures
        !(old(reporter).running() && !old(reporter).reported()) ==> r == FailureReport::Nothing,
        old(reporter).running() && !old(reporter).reported() ==> match config.failure_persistence {
            FailurePersistence::Disabled => r == FailureReport::Nothing,
            FailurePersistence::Print => r matches FailureReport::Print(s)
                && s@ == serialize_spec(schedule@, config.schedule_encoding, config.schedule_text_encoding),
            FailurePersistence::File(_) => r matches FailureReport::File(s)
                && s@ == serialize_spec(schedule@, config.schedule_encoding, config.schedule_text_encoding),
        },
        final(reporter).running() == old(reporter).running(),
        old(reporter).running() ==> final(reporter).reported(),
{
    if !reporter.claim_report() {
        return FailureReport::Nothing;
    }
    failure_report(config, schedule)
}

} // verus!
