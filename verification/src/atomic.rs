//! The decisions of the modelled atomics that do not depend on a value: fences, and the one-time
//! warning that orderings weaker than sequential consistency are modelled as sequentially
//! consistent. Printing the warning, and knowing whether it was printed or silenced, is the
//! caller's part.
use vstd::prelude::*;

verus! {

/// A memory ordering of an atomic operation.
#[derive(Clone, Copy, Debug, PartialEq, Eq, Structural)]
pub enum AtomicOrdering {
    Relaxed,
    Release,
    Acquire,
    AcqRel,
    SeqCst,
}

/// Whether to warn about an operation with ordering `order`: only orderings weaker than
/// sequential consistency are warned about, once per process, and not when warnings are
/// silenced. Returns whether to print the warning now, and whether the one warning has been
/// claimed afterwards: an operation with a weaker ordering claims it even when silenced.
pub fn maybe_warn_about_ordering(order: AtomicOrdering, already_claimed: bool, silenced: bool) -> (r: (bool, bool))
    ensures
        r.0 == (order != AtomicOrdering::SeqCst && !already_claimed && !silenced),
        r.1 == (already_claimed || order != AtomicOrdering::SeqCst),
{
    if order != AtomicOrdering::SeqCst {
        if !already_claimed {
            return (!silenced, true);
        }
        return (false, true);
    }
    (false, already_claimed)
}

/// An atomic fence. Every fence is sequentially consistent in the model, so it has no effect
/// beyond the ordering warning; a relaxed fence does not exist.
pub fn fence(order: AtomicOrdering, already_claimed: bool, silenced: bool) -> (r: (bool, bool))
    requires
        order != AtomicOrdering::Relaxed,
    ensures
        r.0 == (order != AtomicOrdering::SeqCst && !already_claimed && !silenced),
        r.1 == (already_claimed || order != AtomicOrdering::SeqCst),
{
    maybe_warn_about_ordering(order, already_claimed, silenced)
}

} // verus!
