//! A scheduling point reached from `async` code: awaiting it gives the scheduler one chance to
//! run another task, and then it resolves.
use vstd::prelude::*;

verus! {

/// A future that reaches a scheduling point once and then resolves.
#[derive(Debug)]
pub struct SwitchPoint {
    done: bool,
}

impl SwitchPoint {
    /// Whether the scheduling point was already reached.
    pub closed spec fn is_done(&self) -> bool {
        self.done
    }

    /// Polls the future: at the first poll the scheduling point is reached, and `true` says the
    /// runtime is to switch; later polls find it done.
    pub fn poll(&mut self) -> (r: bool)
        ensures
            r == !old(self).is_done(),
            final(self).is_done(),
    {
        if self.done {
            return false;
        }
        self.done = true;
        true
    }
}

/// A scheduling point, not yet reached.
pub fn switch_point() -> (r: SwitchPoint)
    ensures
        !r.is_done(),
{
    SwitchPoint { done: false }
}

} // verus!
