//! Configuration of test runs: how failing schedules are persisted and encoded, the step bound, and
//! what to do when a test panics.
use vstd::prelude::*;
use std::time::Duration;
use std::path::PathBuf;

verus! {

/// A file system path, carried through to the code that writes failing schedules.
#[verifier::external_type_specification]
#[verifier::external_body]
pub struct ExPathBuf(PathBuf);

/// What to do with the continuation function when a task panics.
#[derive(Copy, Clone, Debug, PartialEq, Eq, Structural)]
#[non_exhaustive]
pub enum ContinuationFunctionBehavior {
    /// Drop the continuation function when a task panics.
    Drop,
    /// Leak the continuation function when a task panics.
    Leak,
}

impl ContinuationFunctionBehavior {
    /// The default behavior: leak the continuation function, as the continuation itself is
    /// already leaked when it is reset.
    pub fn new() -> (r: Self)
        ensures
            r == ContinuationFunctionBehavior::Leak,
    {
        ContinuationFunctionBehavior::Leak
    }
}

impl Default for ContinuationFunctionBehavior {
    fn default() -> (r: Self)
        ensures
            r == ContinuationFunctionBehavior::Leak,
    {
        Self::new()
    }
}

/// How to handle ungraceful shutdowns, that is a panic in the test.
#[derive(Copy, Clone, Debug, PartialEq, Eq, Structural)]
#[non_exhaustive]
pub struct UngracefulShutdownConfig {
    /// Whether scheduling stops as soon as a task panics, rather than continuing until the
    /// panicking task has unwound its stack.
    pub immediately_return_on_panic: bool,
    /// What to do with the continuation function when it is dropped after a panic.
    pub continuation_function_behavior: ContinuationFunctionBehavior,
}

impl UngracefulShutdownConfig {
    /// The default: keep scheduling until the panicking task has unwound, and leak the
    /// continuation function.
    pub fn new() -> (r: Self)
        ensures
            !r.immediately_return_on_panic,
            r.continuation_function_behavior == ContinuationFunctionBehavior::Leak,
    {
        UngracefulShutdownConfig {
            immediately_return_on_panic: false,
            continuation_function_behavior: ContinuationFunctionBehavior::new(),
        }
    }
}

impl Default for UngracefulShutdownConfig {
    fn default() -> (r: Self)
        ensures
            r == UngracefulShutdownConfig::spec_new(),
    {
        Self::new()
    }
}

impl UngracefulShutdownConfig {
    /// The value of `new`.
    pub open spec fn spec_new() -> UngracefulShutdownConfig {
        UngracefulShutdownConfig {
            immediately_return_on_panic: false,
            continuation_function_behavior: ContinuationFunctionBehavior::Leak,
        }
    }
}

/// How to persist schedules when a test fails.
#[derive(Debug, Clone, PartialEq, Eq)]
#[non_exhaustive]
pub enum FailurePersistence {
    /// Do not persist failing schedules.
    Disabled,
    /// Print failing schedules to stderr.
    Print,
    /// Persist schedules as files in the given directory, or the current directory if none.
    File(Option<PathBuf>),
}

/// The alphabet used to render a serialized schedule as text.
#[derive(Debug, Clone, Copy, PartialEq, Eq, Structural)]
#[non_exhaustive]
pub enum ScheduleTextEncoding {
    /// Unicode where the destination can carry non-ASCII text, hex otherwise. The default.
    Auto,
    /// Hexadecimal: four bits per character, pure ASCII.
    Hex,
    /// The dense Unicode alphabet, with up to `marks_per_cell` marks stacked on each base
    /// character.
    Unicode { marks_per_cell: u32 },
}

impl ScheduleTextEncoding {
    /// The default encoding, `Auto`.
    pub fn new() -> (r: Self)
        ensures
            r == ScheduleTextEncoding::Auto,
    {
        ScheduleTextEncoding::Auto
    }

    /// What `Auto` resolves to where non-ASCII text is safe: more marks than any schedule has
    /// bits, so that the whole schedule is one cell.
    pub open spec fn spec_dense() -> ScheduleTextEncoding {
        ScheduleTextEncoding::Unicode { marks_per_cell: u32::MAX }
    }

    /// What `Auto` resolves to where non-ASCII text is safe.
    pub fn dense() -> (r: Self)
        ensures
            r == Self::spec_dense(),
    {
        ScheduleTextEncoding::Unicode { marks_per_cell: u32::MAX }
    }

    /// The encoding for a destination that can or cannot carry non-ASCII text.
    pub open spec fn spec_resolve(self, destination_accepts_non_ascii: bool) -> ScheduleTextEncoding {
        match self {
            ScheduleTextEncoding::Auto => if destination_accepts_non_ascii {
                Self::spec_dense()
            } else {
                ScheduleTextEncoding::Hex
            },
            other => other,
        }
    }

    /// Resolves `Auto` for a destination that can or cannot carry non-ASCII text; every other
    /// encoding is returned unchanged.
    pub fn resolve(self, destination_accepts_non_ascii: bool) -> (r: Self)
        ensures
            r == self.spec_resolve(destination_accepts_non_ascii),
            r != ScheduleTextEncoding::Auto,
    {
        match self {
            ScheduleTextEncoding::Auto => if destination_accepts_non_ascii {
                Self::dense()
            } else {
                ScheduleTextEncoding::Hex
            },
            other => other,
        }
    }
}

impl Default for ScheduleTextEncoding {
    fn default() -> (r: Self)
        ensures
            r == ScheduleTextEncoding::Auto,
    {
        Self::new()
    }
}

/// How a schedule is encoded into bytes when it is serialized.
#[derive(Debug, Clone, Copy, PartialEq, Eq, Structural)]
#[non_exhaustive]
pub enum ScheduleEncoding {
    /// Each step is a fixed-width field sized for the largest task id of the schedule.
    FixedWidth,
    /// Each step is its rank in a move-to-front list of recently scheduled tasks. The default.
    MoveToFront,
}

impl Default for ScheduleEncoding {
    fn default() -> (r: Self)
        ensures
            r == ScheduleEncoding::MoveToFront,
    {
        ScheduleEncoding::MoveToFront
    }
}

/// An upper bound on the number of steps of one iteration of a test, and what to do when it is
/// reached.
#[derive(Debug, Clone, Copy, PartialEq, Eq, Structural)]
#[non_exhaustive]
pub enum MaxSteps {
    /// No bound.
    Unbounded,
    /// Fail the test after the given number of steps.
    FailAfter(usize),
    /// Stop the iteration after the given number of steps and begin the next one.
    ContinueAfter(usize),
}

/// Configuration parameters for test runs.
#[derive(Clone, Debug)]
#[non_exhaustive]
pub struct Config {
    /// Stack size allocated for each task.
    pub stack_size: usize,
    /// How to persist schedules when a test fails.
    pub failure_persistence: FailurePersistence,
    /// Step bound of one iteration, and what to do when it is reached.
    pub max_steps: MaxSteps,
    /// Time limit for the whole test, checked between iterations.
    pub max_time: Option<Duration>,
    /// Whether to silence warnings about behaviors that may miss bugs.
    pub silence_warnings: bool,
    /// Whether to record the step count in the tracing span of each step.
    pub record_steps_in_span: bool,
    /// How to handle a panic in the test.
    pub ungraceful_shutdown_config: UngracefulShutdownConfig,
    /// The encoding of failing schedules that are written.
    pub schedule_encoding: ScheduleEncoding,
    /// The alphabet of failing schedules that are written.
    pub schedule_text_encoding: ScheduleTextEncoding,
}

impl Config {
    /// The default configuration: a 60 KiB stack, failing schedules printed, failure after a
    /// million steps, no time limit, warnings on, and the default encodings.
    pub fn new() -> (r: Self)
        ensures
            r.stack_size == 0xf000,
            r.failure_persistence == FailurePersistence::Print,
            r.max_steps == MaxSteps::FailAfter(1_000_000),
            r.max_time is None,
            !r.silence_warnings,
            !r.record_steps_in_span,
            r.ungraceful_shutdown_config == UngracefulShutdownConfig::spec_new(),
            r.schedule_encoding == ScheduleEncoding::MoveToFront,
            r.schedule_text_encoding == ScheduleTextEncoding::Auto,
    {
        Config {
            stack_size: 0xf000,
            failure_persistence: FailurePersistence::Print,
            max_steps: MaxSteps::FailAfter(1_000_000),
            max_time: None,
            silence_warnings: false,
            record_steps_in_span: false,
            ungraceful_shutdown_config: UngracefulShutdownConfig::default(),
            schedule_encoding: ScheduleEncoding::default(),
            schedule_text_encoding: ScheduleTextEncoding::default(),
        }
    }
}

impl Default for Config {
    fn default() -> (r: Self)
        ensures
            r.stack_size == 0xf000,
            r.failure_persistence == FailurePersistence::Print,
            r.max_steps == MaxSteps::FailAfter(1_000_000),
            r.max_time is None,
            !r.silence_warnings,
            !r.record_steps_in_span,
            r.ungraceful_shutdown_config == UngracefulShutdownConfig::spec_new(),
            r.schedule_encoding == ScheduleEncoding::MoveToFront,
            r.schedule_text_encoding == ScheduleTextEncoding::Auto,
    {
        Self::new()
    }
}

} // verus!
