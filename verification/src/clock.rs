//! Vector clocks: for each task, the number of its events that happened before. Clocks are
//! ordered by causality: one is below another when every entry is, the shorter clock's missing
//! entries being zero in effect only in the longer one's favour.
use vstd::prelude::*;
use std::cmp::Ordering;
use smallvec::SmallVec;
use crate::task::TaskId;
use vstd::std_specs::cmp::{PartialEqSpecImpl, PartialOrdSpecImpl};

verus! {

/// The entries of a clock: a `smallvec::SmallVec`, whose first sixteen entries are
/// stored inline.
#[verifier::external_body]
#[derive(Debug)]
pub struct ClockEntries {
    inner: SmallVec<[u32; 16]>,
}

/// The entries of a clock's storage, in order.
pub uninterp spec fn clock_entries(v: ClockEntries) -> Seq<u32>;

/// `SmallVec::new_const`: no entries.
#[verifier::external_body]
fn entries_new() -> (r: ClockEntries)
    ensures
        clock_entries(r) == Seq::<u32>::empty(),
{
    ClockEntries { inner: SmallVec::new_const() }
}

/// `SmallVec::from_slice`: the entries of the slice.
#[verifier::external_body]
fn entries_from_slice(s: &[u32]) -> (r: ClockEntries)
    ensures
        clock_entries(r) == s@,
{
    ClockEntries { inner: SmallVec::from_slice(s) }
}

/// `SmallVec::len`: the number of entries.
#[verifier::external_body]
fn entries_len(v: &ClockEntries) -> (r: usize)
    ensures
        r == clock_entries(*v).len(),
{
    v.inner.len()
}

/// Indexing a `SmallVec`: entry `i`.
#[verifier::external_body]
fn entries_get(v: &ClockEntries, i: usize) -> (r: u32)
    requires
        i < clock_entries(*v).len(),
    ensures
        r == clock_entries(*v)[i as int],
{
    v.inner[i]
}

/// Indexing a `SmallVec` mutably: entry `i` replaced by `x`.
#[verifier::external_body]
fn entries_set(v: &mut ClockEntries, i: usize, x: u32)
    requires
        i < clock_entries(*old(v)).len(),
    ensures
        clock_entries(*final(v)) == clock_entries(*old(v)).update(i as int, x),
{
    v.inner[i] = x;
}

/// `SmallVec::push`: `x` appended.
#[verifier::external_body]
fn entries_push(v: &mut ClockEntries, x: u32)
    requires
        clock_entries(*old(v)).len() < max_clock_len(),
    ensures
        clock_entries(*final(v)) == clock_entries(*old(v)).push(x),
{
    v.inner.push(x)
}

/// `SmallVec::clone`: the same entries.
#[verifier::external_body]
fn entries_clone(v: &ClockEntries) -> (r: ClockEntries)
    ensures
        clock_entries(r) == clock_entries(*v),
{
    ClockEntries { inner: v.inner.clone() }
}

/// Most entries a clock's storage takes, keeping its bytes below `isize::MAX`.
pub open spec fn max_clock_len() -> nat {
    (isize::MAX as nat) / 4
}

/// Whether clock `a` is below or equal to clock `b`: `a` is no longer, and each of its entries
/// is at most the corresponding entry of `b`.
pub open spec fn clock_le(a: Seq<u32>, b: Seq<u32>) -> bool {
    a.len() <= b.len() && forall|i: int| 0 <= i < a.len() ==> a[i] <= b[i]
}

/// The causal comparison of two clocks.
pub open spec fn clock_order(a: Seq<u32>, b: Seq<u32>) -> Option<Ordering> {
    if a == b {
        Some(Ordering::Equal)
    } else if clock_le(a, b) {
        Some(Ordering::Less)
    } else if clock_le(b, a) {
        Some(Ordering::Greater)
    } else {
        None
    }
}

/// The join of two clocks: as long as the longer, each entry the larger of the two.
pub open spec fn clock_join(a: Seq<u32>, b: Seq<u32>) -> Seq<u32> {
    let n = if a.len() >= b.len() { a.len() } else { b.len() };
    Seq::new(
        n,
        |i: int|
            if i < a.len() && i < b.len() {
                if a[i] >= b[i] { a[i] } else { b[i] }
            } else if i < a.len() {
                a[i]
            } else {
                b[i]
            },
    )
}

/// A vector clock.
#[derive(Debug)]
pub struct VectorClock {
    time: ClockEntries,
}

impl View for VectorClock {
    type V = Seq<u32>;

    closed spec fn view(&self) -> Seq<u32> {
        clock_entries(self.time)
    }
}

impl Clone for VectorClock {
    fn clone(&self) -> (r: VectorClock)
        ensures
            r@ == self@,
    {
        VectorClock { time: entries_clone(&self.time) }
    }
}

impl VectorClock {
    /// The clock of no task.
    pub fn new() -> (r: VectorClock)
        ensures
            r@ == Seq::<u32>::empty(),
    {
        VectorClock { time: entries_new() }
    }

    /// The clock with the given entries.
    pub fn from(v: &[u32]) -> (r: VectorClock)
        ensures
            r@ == v@,
    {
        VectorClock { time: entries_from_slice(v) }
    }

    /// The number of entries.
    pub fn len(&self) -> (r: usize)
        ensures
            r == self@.len(),
    {
        entries_len(&self.time)
    }

    /// Extends the clock with zero entries so that it has an entry for `task_id`.
    pub fn extend(&mut self, task_id: TaskId)
        requires
            old(self)@.len() <= task_id.0 + 1,
            task_id.0 + 1 <= max_clock_len(),
        ensures
            final(self)@ == old(self)@ + Seq::new((task_id.0 + 1 - old(self)@.len()) as nat, |i: int| 0u32),
    {
        let n = entries_len(&self.time);
        let target = task_id.0 + 1;
        let ghost start = self@;
        let mut k = n;
        while k < target
            invariant
                n <= k <= target,
                target <= max_clock_len(),
                start.len() == n,
                self@ == start + Seq::new((k - n) as nat, |i: int| 0u32),
            decreases target - k,
        {
            entries_push(&mut self.time, 0);
            k = k + 1;
            proof {
                assert(self@ =~= start + Seq::new((k - n) as nat, |i: int| 0u32));
            }
        }
    }

    /// Counts one more event of `task_id`.
    pub fn increment(&mut self, task_id: TaskId)
        requires
            task_id.0 < old(self)@.len(),
            old(self)@[task_id.0 as int] < u32::MAX,
        ensures
            final(self)@ == old(self)@.update(task_id.0 as int, (old(self)@[task_id.0 as int] + 1) as u32),
    {
        let v = entries_get(&self.time, task_id.0);
        entries_set(&mut self.time, task_id.0, v + 1);
    }

    /// Joins `other` into this clock: each entry becomes the larger of the two, and the clock
    /// grows to the length of the longer.
    pub fn update(&mut self, other: &VectorClock)
        requires
            other@.len() <= max_clock_len(),
        ensures
            final(self)@ == clock_join(old(self)@, other@),
    {
        let n1 = entries_len(&self.time);
        let n2 = entries_len(&other.time);
        let m = if n1 <= n2 {
            n1
        } else {
            n2
        };
        let ghost a = self@;
        let ghost b = other@;
        let mut i: usize = 0;
        while i < m
            invariant
                m <= n1 && m <= n2,
                n1 == a.len() && n2 == b.len(),
                b == other@,
                i <= m,
                self@.len() == n1,
                forall|k: int| 0 <= k < i ==> self@[k] == clock_join(a, b)[k],
                forall|k: int| i <= k < n1 ==> self@[k] == a[k],
            decreases m - i,
        {
            let x = entries_get(&self.time, i);
            let y = entries_get(&other.time, i);
            let z = if x >= y {
                x
            } else {
                y
            };
            entries_set(&mut self.time, i, z);
            i = i + 1;
        }
        proof {
            assert forall|k: int| 0 <= k < n1 implies self@[k] == clock_join(a, b)[k] by {
                if k >= m {
                    assert(k >= n2);
                }
            }
        }
        let mut j = n1;
        while j < n2
            invariant
                n1 <= j,
                n1 < n2 ==> j <= n2,
                n1 >= n2 ==> j == n1,
                n2 <= max_clock_len(),
                n1 == a.len() && n2 == b.len(),
                b == other@,
                self@.len() == j,
                forall|k: int| 0 <= k < j ==> self@[k] == clock_join(a, b)[k],
            decreases n2 - j,
        {
            let y = entries_get(&other.time, j);
            entries_push(&mut self.time, y);
            j = j + 1;
        }
        proof {
            assert(self@ =~= clock_join(a, b));
        }
    }

    /// Entry `i`: the number of events of task `i` that happened before.
    pub fn get(&self, i: usize) -> (r: u32)
        requires
            i < self@.len(),
        ensures
            r == self@[i as int],
    {
        entries_get(&self.time, i)
    }

    /// Whether the two clocks have the same entries.
    pub fn same(&self, other: &VectorClock) -> (r: bool)
        ensures
            r == (self@ == other@),
    {
        let n1 = entries_len(&self.time);
        let n2 = entries_len(&other.time);
        if n1 != n2 {
            return false;
        }
        let mut i: usize = 0;
        while i < n1
            invariant
                n1 == self@.len() && n2 == other@.len() && n1 == n2,
                i <= n1,
                forall|k: int| 0 <= k < i ==> self@[k] == other@[k],
            decreases n1 - i,
        {
            if entries_get(&self.time, i) != entries_get(&other.time, i) {
                return false;
            }
            i = i + 1;
        }
        proof {
            assert(self@ =~= other@);
        }
        true
    }

    /// The causal comparison of the two clocks: `Less` when this one happened before `other`,
    /// `None` when they are concurrent.
    pub fn compare(&self, other: &VectorClock) -> (r: Option<Ordering>)
        ensures
            r == clock_order(self@, other@),
    {
        let a = &self.time;
        let b = &other.time;
        let n1 = entries_len(a);
        let n2 = entries_len(b);
        let ghost sa = self@;
        let ghost sb = other@;
        // Whether some entry so far is below, or above, the other clock's.
        let mut below = n1 < n2;
        let mut above = n1 > n2;
        let m = if n1 <= n2 {
            n1
        } else {
            n2
        };
        let mut i: usize = 0;
        while i < m
            invariant
                m <= n1 && m <= n2,
                n1 == sa.len() && n2 == sb.len(),
                sa == clock_entries(*a) && sb == clock_entries(*b),
                sa == self@ && sb == other@,
                i <= m,
                m == n1 || m == n2,
                below == (n1 < n2 || exists|k: int| 0 <= k < i && sa[k] < sb[k]),
                above == (n1 > n2 || exists|k: int| 0 <= k < i && sa[k] > sb[k]),
                !(below && above),
            decreases m - i,
        {
            let x = entries_get(a, i);
            let y = entries_get(b, i);
            if x < y {
                below = true;
            } else if x > y {
                above = true;
            }
            if below && above {
                proof {
                    lemma_witness(sa, sb, i, x, y);
                    lemma_incomparable(sa, sb, i + 1);
                }
                return None;
            }
            i = i + 1;
        }
        proof {
            lemma_compare_result(sa, sb, below, above);
        }
        if below {
            Some(Ordering::Less)
        } else if above {
            Some(Ordering::Greater)
        } else {
            Some(Ordering::Equal)
        }
    }
}

impl VectorClock {
    /// Whether this clock is causally before or equal to `other`.
    pub fn happens_before_or_equal(&self, other: &VectorClock) -> (r: bool)
        ensures
            r == clock_le(self@, other@),
    {
        match self.compare(other) {
            Some(o) => match o {
                Ordering::Greater => false,
                _ => true,
            },
            None => false,
        }
    }
}

impl PartialEq for VectorClock {
    fn eq(&self, other: &VectorClock) -> (r: bool) {
        self.same(other)
    }
}

impl PartialEqSpecImpl for VectorClock {
    open spec fn obeys_eq_spec() -> bool {
        true
    }

    open spec fn eq_spec(&self, other: &VectorClock) -> bool {
        self@ == other@
    }
}

impl Eq for VectorClock {
}

impl PartialOrd for VectorClock {
    fn partial_cmp(&self, other: &VectorClock) -> (r: Option<Ordering>) {
        self.compare(other)
    }
}

impl PartialOrdSpecImpl for VectorClock {
    open spec fn obeys_partial_cmp_spec() -> bool {
        true
    }

    open spec fn partial_cmp_spec(&self, other: &VectorClock) -> Option<Ordering> {
        clock_order(self@, other@)
    }
}

proof fn lemma_witness(a: Seq<u32>, b: Seq<u32>, i: usize, x: u32, y: u32)
    requires
        i < a.len() && i < b.len(),
        x == a[i as int] && y == b[i as int],
    ensures
        x < y ==> exists|k: int| 0 <= k < i + 1 && a[k] < b[k],
        x > y ==> exists|k: int| 0 <= k < i + 1 && a[k] > b[k],
{
    assert(a[i as int] == x && b[i as int] == y);
}

proof fn lemma_incomparable(a: Seq<u32>, b: Seq<u32>, i: int)
    requires
        0 <= i <= a.len() && i <= b.len(),
        a.len() < b.len() || exists|k: int| 0 <= k < i && a[k] < b[k],
        a.len() > b.len() || exists|k: int| 0 <= k < i && a[k] > b[k],
    ensures
        clock_order(a, b) is None,
{
    if clock_le(a, b) {
        let k = choose|k: int| 0 <= k < i && a[k] > b[k];
        assert(a[k] <= b[k]);
    }
    if clock_le(b, a) {
        let k = choose|k: int| 0 <= k < i && a[k] < b[k];
        assert(b[k] <= a[k]);
    }
}

proof fn lemma_compare_result(a: Seq<u32>, b: Seq<u32>, below: bool, above: bool)
    requires
        !(below && above),
        below == (a.len() < b.len() || exists|k: int| 0 <= k < a.len() && k < b.len() && a[k] < b[k]),
        above == (a.len() > b.len() || exists|k: int| 0 <= k < a.len() && k < b.len() && a[k] > b[k]),
    ensures
        clock_order(a, b) == if below {
            Some(Ordering::Less)
        } else if above {
            Some(Ordering::Greater)
        } else {
            Some(Ordering::Equal)
        },
{
    if !below && !above {
        assert(a =~= b);
    } else if below {
        assert(clock_le(a, b));
        if a == b {
            let k = choose|k: int| 0 <= k < a.len() && k < b.len() && a[k] < b[k];
        }
    } else {
        assert(clock_le(b, a));
        if a == b {
            let k = choose|k: int| 0 <= k < a.len() && k < b.len() && a[k] > b[k];
        }
    }
}

/// The join of two clocks is above both, and below every clock above both.
pub proof fn lemma_join_is_least_upper_bound(a: Seq<u32>, b: Seq<u32>, c: Seq<u32>)
    ensures
        clock_le(a, clock_join(a, b)),
        clock_le(b, clock_join(a, b)),
        clock_le(a, c) && clock_le(b, c) ==> clock_le(clock_join(a, b), c),
{
}

/// The causal order is a partial order: reflexive, antisymmetric and transitive.
pub proof fn lemma_clock_le_partial_order(a: Seq<u32>, b: Seq<u32>, c: Seq<u32>)
    ensures
        clock_le(a, a),
        clock_le(a, b) && clock_le(b, a) ==> a == b,
        clock_le(a, b) && clock_le(b, c) ==> clock_le(a, c),
{
    if clock_le(a, b) && clock_le(b, a) {
        assert(a =~= b);
    }
}

/// Comparing the other way round gives the opposite answer.
pub proof fn lemma_clock_order_reverse(a: Seq<u32>, b: Seq<u32>)
    ensures
        clock_order(a, b) == match clock_order(b, a) {
            Some(Ordering::Less) => Some(Ordering::Greater),
            Some(Ordering::Greater) => Some(Ordering::Less),
            other => other,
        },
{
    lemma_clock_le_partial_order(a, b, a);
}

} // verus!
