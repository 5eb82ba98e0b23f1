//! The decisions of a one-time initialization cell. The first task to call it races, through a
//! lock, to run its initializer; once an initializer has completed, later calls run nothing and
//! inherit the clock of the completing task, so that they causally follow the initialization.
//! Taking the lock and running the initializer are the caller's part.
use vstd::prelude::*;
use crate::clock::VectorClock;
use crate::signature::ResourceSignature;

verus! {

/// The state of a cell in an execution.
pub enum OnceInitState {
    /// Tasks race through the cell's lock to run their initializer.
    Running,
    /// An initializer completed, at the given clock.
    Complete(VectorClock),
}

/// What a call finds when it reaches the cell.
pub enum OnceStep {
    /// An initializer already completed: the caller's clock is to be joined with this one, and
    /// nothing runs.
    AlreadyComplete(VectorClock),
    /// The caller is to take the cell's lock, then decide with `Once::after_lock`.
    Race,
}

/// What a call does once it holds the lock.
#[derive(Clone, Copy, Debug, PartialEq, Eq, Structural)]
pub enum LockedStep {
    /// Another call's initializer finished while this one waited: nothing runs.
    Done,
    /// The caller runs its initializer, with this state, then calls `Once::complete`.
    RunInitializer(OnceState),
}

/// The state handed to the initializer of `call_once_force`: whether the cell was poisoned by an
/// initializer that panicked.
#[derive(Clone, Copy, Debug, PartialEq, Eq, Structural)]
#[non_exhaustive]
pub struct OnceState(pub bool);

impl OnceState {
    /// Whether the cell was poisoned before this initializer was called.
    pub fn is_poisoned(&self) -> (r: bool)
        ensures
            r == self.0,
    {
        self.0
    }
}

/// A cell for a one-time initialization.
pub struct Once {
    state: Option<OnceInitState>,
    signature: ResourceSignature,
}

impl Once {
    /// Whether some call has reached the cell in this execution.
    pub closed spec fn started(&self) -> bool {
        self.state is Some
    }

    /// The clock of the completed initialization, if one completed.
    pub closed spec fn completed_at(&self) -> Option<Seq<u32>> {
        match self.state {
            Some(OnceInitState::Complete(c)) => Some(c@),
            _ => None,
        }
    }

    /// The signature of the cell, which tells it apart from cells created elsewhere.
    pub closed spec fn resource_signature(&self) -> ResourceSignature {
        self.signature
    }

    /// A cell that no call has reached, with the signature of the place where it is created.
    pub fn new(signature: ResourceSignature) -> (r: Once)
        ensures
            !r.started(),
            r.completed_at() is None,
            r.resource_signature() == signature,
    {
        Once { state: None, signature }
    }

    /// The signature of the cell.
    pub fn signature(&self) -> (r: &ResourceSignature)
        ensures
            *r == self.resource_signature(),
    {
        &self.signature
    }

    /// Whether some initializer completed; the caller then inherits the completing task's clock.
    pub fn is_completed(&self) -> (r: Option<VectorClock>)
        ensures
            match self.completed_at() {
                Some(c) => r matches Some(rc) && rc@ == c,
                None => r is None,
            },
    {
        match &self.state {
            Some(OnceInitState::Complete(clock)) => Some(clock.clone()),
            _ => None,
        }
    }

    /// A call reaches the cell: the first one starts the race; after completion nothing runs.
    pub fn begin(&mut self) -> (r: OnceStep)
        ensures
            final(self).started(),
            final(self).completed_at() == old(self).completed_at(),
            final(self).resource_signature() == old(self).resource_signature(),
            match old(self).completed_at() {
                Some(c) => r matches OnceStep::AlreadyComplete(rc) && rc@ == c,
                None => r is Race,
            },
    {
        if self.state.is_none() {
            self.state = Some(OnceInitState::Running);
        }
        match &self.state {
            Some(OnceInitState::Complete(clock)) => OnceStep::AlreadyComplete(clock.clone()),
            _ => OnceStep::Race,
        }
    }

    /// A call holds the lock: `initialized` is the lock's flag, `poisoned` whether the lock was
    /// poisoned. A poisoned cell is only initialized again by `call_once_force`, whose caller
    /// passes `ignore_poisoning`; `call_once` on a poisoned cell fails, which is left to the
    /// caller.
    pub fn after_lock(initialized: bool, poisoned: bool, ignore_poisoning: bool) -> (r: LockedStep)
        requires
            !poisoned || ignore_poisoning,
        ensures
            initialized ==> r == LockedStep::Done,
            !initialized ==> r == LockedStep::RunInitializer(OnceState(poisoned)),
    {
        if initialized {
            LockedStep::Done
        } else {
            LockedStep::RunInitializer(OnceState(poisoned))
        }
    }

    /// The initializer of the caller completed, at `clock`.
    pub fn complete(&mut self, clock: VectorClock)
        ensures
            final(self).started(),
            final(self).completed_at() == Some(clock@),
            final(self).resource_signature() == old(self).resource_signature(),
    {
        self.state = Some(OnceInitState::Complete(clock));
    }
}

} // verus!
