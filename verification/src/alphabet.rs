//! Alphabets given as ascending lists of inclusive code point ranges: the `v`-th character of an
//! alphabet, the index of a character in it, and the checks that keep two alphabets apart.
use vstd::prelude::*;

verus! {

/// Number of code points in the ranges.
pub open spec fn range_total(ranges: Seq<(u32, u32)>) -> nat
    decreases ranges.len(),
{
    if ranges.len() == 0 {
        0
    } else {
        (ranges[0].1 - ranges[0].0 + 1) as nat + range_total(ranges.drop_first())
    }
}

/// The code point at index `v` of the alphabet.
pub open spec fn range_point(ranges: Seq<(u32, u32)>, v: nat) -> nat
    decreases ranges.len(),
{
    if ranges.len() == 0 {
        0
    } else {
        let len = (ranges[0].1 - ranges[0].0 + 1) as nat;
        if v < len {
            (ranges[0].0 + v) as nat
        } else {
            range_point(ranges.drop_first(), (v - len) as nat)
        }
    }
}

/// The index of code point `cp` in the alphabet, if it is in it.
pub open spec fn range_index(ranges: Seq<(u32, u32)>, cp: nat) -> Option<nat>
    decreases ranges.len(),
{
    if ranges.len() == 0 {
        None
    } else if ranges[0].0 <= cp <= ranges[0].1 {
        Some((cp - ranges[0].0) as nat)
    } else {
        match range_index(ranges.drop_first(), cp) {
            Some(v) => Some(v + (ranges[0].1 - ranges[0].0 + 1) as nat),
            None => None,
        }
    }
}

/// Whether `cp` lies in one of the ranges.
pub open spec fn in_ranges(ranges: Seq<(u32, u32)>, cp: nat) -> bool
    decreases ranges.len(),
{
    if ranges.len() == 0 {
        false
    } else {
        (ranges[0].0 <= cp <= ranges[0].1) || in_ranges(ranges.drop_first(), cp)
    }
}

/// Each range is non-empty and lies strictly above the one before it.
pub open spec fn ranges_ascending(ranges: Seq<(u32, u32)>) -> bool
    decreases ranges.len(),
{
    if ranges.len() == 0 {
        true
    } else {
        &&& ranges[0].0 <= ranges[0].1
        &&& (ranges.len() > 1 ==> ranges[0].1 < ranges[1].0)
        &&& ranges_ascending(ranges.drop_first())
    }
}

/// Whether the range `(lo, hi)` shares no code point with the ranges.
pub open spec fn range_apart(lo: u32, hi: u32, ranges: Seq<(u32, u32)>) -> bool
    decreases ranges.len(),
{
    if ranges.len() == 0 {
        true
    } else {
        (hi < ranges[0].0 || ranges[0].1 < lo) && range_apart(lo, hi, ranges.drop_first())
    }
}

/// Whether no code point lies in both lists of ranges.
pub open spec fn ranges_apart(a: Seq<(u32, u32)>, b: Seq<(u32, u32)>) -> bool
    decreases a.len(),
{
    if a.len() == 0 {
        true
    } else {
        range_apart(a[0].0, a[0].1, b) && ranges_apart(a.drop_first(), b)
    }
}

/// Whether `cp` is a Unicode scalar value, that is a `char`.
pub open spec fn is_scalar(cp: nat) -> bool {
    cp < 0xD800 || (0xDFFF < cp && cp <= 0x10FFFF)
}

/// The code points that are not Unicode scalar values, and those beyond.
pub open spec fn non_scalars() -> Seq<(u32, u32)> {
    seq![(0xD800u32, 0xDFFFu32), (0x11_0000u32, 0xFFFF_FFFFu32)]
}

pub proof fn lemma_range_index_in(ranges: Seq<(u32, u32)>, cp: nat)
    ensures
        range_index(ranges, cp) is Some <==> in_ranges(ranges, cp),
        range_index(ranges, cp) matches Some(v) ==> v < range_total(ranges),
    decreases ranges.len(),
{
    if ranges.len() > 0 {
        lemma_range_index_in(ranges.drop_first(), cp);
    }
}

proof fn lemma_range_point_above(ranges: Seq<(u32, u32)>, v: nat)
    requires
        ranges_ascending(ranges),
        ranges.len() > 0,
        v < range_total(ranges),
    ensures
        ranges[0].0 <= range_point(ranges, v),
        in_ranges(ranges, range_point(ranges, v)),
    decreases ranges.len(),
{
    let len = (ranges[0].1 - ranges[0].0 + 1) as nat;
    if v >= len {
        let rest = ranges.drop_first();
        assert(range_total(rest) > 0);
        lemma_range_point_above(rest, (v - len) as nat);
        assert(rest[0] == ranges[1]);
    }
}

/// Index `v` of an ascending alphabet is a code point of it whose index is `v`.
pub proof fn lemma_range_roundtrip(ranges: Seq<(u32, u32)>, v: nat)
    requires
        ranges_ascending(ranges),
        v < range_total(ranges),
    ensures
        in_ranges(ranges, range_point(ranges, v)),
        range_index(ranges, range_point(ranges, v)) == Some(v),
    decreases ranges.len(),
{
    let len = (ranges[0].1 - ranges[0].0 + 1) as nat;
    lemma_range_point_above(ranges, v);
    if v >= len {
        let rest = ranges.drop_first();
        assert(range_total(rest) > 0);
        lemma_range_roundtrip(rest, (v - len) as nat);
        lemma_range_point_above(rest, (v - len) as nat);
        assert(rest[0] == ranges[1]);
    }
}

/// A code point of one list is in no range of a list apart from it.
pub proof fn lemma_apart(a: Seq<(u32, u32)>, b: Seq<(u32, u32)>, cp: nat)
    requires
        ranges_apart(a, b),
        in_ranges(a, cp),
    ensures
        !in_ranges(b, cp),
    decreases a.len(),
{
    if a[0].0 <= cp <= a[0].1 {
        lemma_range_apart(a[0].0, a[0].1, b, cp);
    } else {
        lemma_apart(a.drop_first(), b, cp);
    }
}

proof fn lemma_range_apart(lo: u32, hi: u32, b: Seq<(u32, u32)>, cp: nat)
    requires
        range_apart(lo, hi, b),
        lo <= cp <= hi,
    ensures
        !in_ranges(b, cp),
    decreases b.len(),
{
    if b.len() > 0 {
        lemma_range_apart(lo, hi, b.drop_first(), cp);
    }
}

/// Every code point of a list apart from the non-scalars is a `char`.
pub proof fn lemma_scalar(a: Seq<(u32, u32)>, cp: nat)
    requires
        ranges_apart(a, non_scalars()),
        in_ranges(a, cp),
    ensures
        is_scalar(cp),
{
    lemma_apart(a, non_scalars(), cp);
    lemma_in_ranges_bound(a, cp);
    reveal_with_fuel(in_ranges, 3);
}

proof fn lemma_in_ranges_bound(a: Seq<(u32, u32)>, cp: nat)
    requires
        in_ranges(a, cp),
    ensures
        cp <= u32::MAX,
    decreases a.len(),
{
    if !(a[0].0 <= cp <= a[0].1) {
        lemma_in_ranges_bound(a.drop_first(), cp);
    }
}

/// The code point at index `v` of the alphabet, computed by walking the ranges.
pub fn point_of(ranges: &Vec<(u32, u32)>, value: u32) -> (r: u32)
    requires
        ranges_ascending(ranges@),
        value < range_total(ranges@),
        range_total(ranges@) <= u32::MAX,
    ensures
        r == range_point(ranges@, value as nat),
{
    let mut v = value;
    let mut k: usize = 0;
    proof {
        assert(ranges@.skip(0) =~= ranges@);
    }
    while k < ranges.len()
        invariant
            k <= ranges@.len(),
            v < range_total(ranges@.skip(k as int)),
            range_total(ranges@.skip(k as int)) <= u32::MAX,
            range_point(ranges@, value as nat) == range_point(ranges@.skip(k as int), v as nat),
            ranges_ascending(ranges@.skip(k as int)),
        decreases ranges@.len() - k,
    {
        let (lo, hi) = ranges[k];
        let ghost rest = ranges@.skip(k as int);
        proof {
            assert(rest[0] == (lo, hi));
            assert(rest.drop_first() =~= ranges@.skip(k + 1));
        }
        let len = hi - lo + 1;
        if v < len {
            return lo + v;
        }
        v = v - len;
        k = k + 1;
    }
    proof {
        assert(ranges@.skip(k as int) =~= Seq::<(u32, u32)>::empty());
    }
    0
}

/// The index of code point `cp` in the alphabet, if it is in it.
pub fn index_of(ranges: &Vec<(u32, u32)>, cp: u32) -> (r: Option<u32>)
    requires
        ranges_ascending(ranges@),
        range_total(ranges@) <= u32::MAX,
    ensures
        r == match range_index(ranges@, cp as nat) {
            Some(v) => Some(v as u32),
            None => None::<u32>,
        },
{
    let mut base: u32 = 0;
    let mut k: usize = 0;
    proof {
        assert(ranges@.skip(0) =~= ranges@);
    }
    while k < ranges.len()
        invariant
            k <= ranges@.len(),
            base + range_total(ranges@.skip(k as int)) == range_total(ranges@),
            range_total(ranges@) <= u32::MAX,
            ranges_ascending(ranges@.skip(k as int)),
            range_index(ranges@, cp as nat) == match range_index(ranges@.skip(k as int), cp as nat) {
                Some(v) => Some(v + base as nat),
                None => None::<nat>,
            },
        decreases ranges@.len() - k,
    {
        let (lo, hi) = ranges[k];
        let ghost rest = ranges@.skip(k as int);
        proof {
            assert(rest[0] == (lo, hi));
            assert(rest.drop_first() =~= ranges@.skip(k + 1));
            lemma_range_index_in(rest.drop_first(), cp as nat);
        }
        if lo <= cp && cp <= hi {
            return Some(base + (cp - lo));
        }
        base = base + (hi - lo + 1);
        k = k + 1;
    }
    proof {
        assert(ranges@.skip(k as int) =~= Seq::<(u32, u32)>::empty());
    }
    None
}

/// The ranges are ascending when each is non-empty and below the next.
pub proof fn lemma_ascending_by_index(r: Seq<(u32, u32)>)
    requires
        forall|k: int| 0 <= k < r.len() ==> r[k].0 <= r[k].1,
        forall|k: int| 0 <= k < r.len() - 1 ==> r[k].1 < r[k + 1].0,
    ensures
        ranges_ascending(r),
    decreases r.len(),
{
    if r.len() > 0 {
        let rest = r.drop_first();
        assert forall|k: int| 0 <= k < rest.len() - 1 implies rest[k].1 < rest[k + 1].0 by {
            assert(rest[k] == r[k + 1] && rest[k + 1] == r[k + 2]);
        }
        lemma_ascending_by_index(rest);
    }
}

/// Two lists are apart when no range of one meets a range of the other.
pub proof fn lemma_apart_by_index(a: Seq<(u32, u32)>, b: Seq<(u32, u32)>)
    requires
        forall|i: int, j: int| 0 <= i < a.len() && 0 <= j < b.len() ==> (#[trigger] a[i]).1 < (#[trigger] b[j]).0 || b[j].1 < a[i].0,
    ensures
        ranges_apart(a, b),
    decreases a.len(),
{
    if a.len() > 0 {
        lemma_range_apart_by_index(a[0].0, a[0].1, b);
        let rest = a.drop_first();
        assert forall|i: int, j: int| 0 <= i < rest.len() && 0 <= j < b.len() implies (#[trigger] rest[i]).1 < (#[trigger] b[j]).0 || b[j].1 < rest[i].0 by {
            assert(rest[i] == a[i + 1]);
        }
        lemma_apart_by_index(rest, b);
    }
}

proof fn lemma_range_apart_by_index(lo: u32, hi: u32, b: Seq<(u32, u32)>)
    requires
        forall|j: int| 0 <= j < b.len() ==> hi < (#[trigger] b[j]).0 || b[j].1 < lo,
    ensures
        range_apart(lo, hi, b),
    decreases b.len(),
{
    if b.len() > 0 {
        let rest = b.drop_first();
        assert forall|j: int| 0 <= j < rest.len() implies hi < (#[trigger] rest[j]).0 || rest[j].1 < lo by {
            assert(rest[j] == b[j + 1]);
        }
        lemma_range_apart_by_index(lo, hi, rest);
    }
}

/// The number of code points in the first `n` ranges.
pub open spec fn prefix_total(r: Seq<(u32, u32)>, n: nat) -> nat
    decreases n,
{
    if n == 0 {
        0
    } else {
        prefix_total(r, (n - 1) as nat) + (r[n - 1].1 - r[n - 1].0 + 1) as nat
    }
}

proof fn lemma_prefix_total_first(r: Seq<(u32, u32)>, n: nat)
    requires
        1 <= n <= r.len(),
    ensures
        prefix_total(r, n) == (r[0].1 - r[0].0 + 1) as nat + prefix_total(r.drop_first(), (n - 1) as nat),
    decreases n,
{
    let rest = r.drop_first();
    if n > 1 {
        lemma_prefix_total_first(r, (n - 1) as nat);
        assert(rest[n - 2] == r[n - 1]);
        assert(prefix_total(rest, (n - 1) as nat) == prefix_total(rest, (n - 2) as nat) + (rest[n - 2].1 - rest[n - 2].0 + 1) as nat);
    } else {
        assert(prefix_total(r, 0) == 0);
        assert(prefix_total(rest, 0) == 0);
    }
}

/// The total of the ranges is the sum over them in order.
pub proof fn lemma_total_by_index(r: Seq<(u32, u32)>)
    ensures
        range_total(r) == prefix_total(r, r.len()),
    decreases r.len(),
{
    if r.len() > 0 {
        lemma_total_by_index(r.drop_first());
        lemma_prefix_total_first(r, r.len());
    }
}

} // verus!
