//! The `Pcg64Mcg` generator of `rand_pcg`, through which every random value and random scheduling
//! choice is drawn. Its outputs are a function of its state, and its state a function of the seed
//! and the draws made, so equal seeds give equal draws.
use vstd::prelude::*;
use rand::seq::SliceRandom;
use rand::Rng;
use rand::{RngCore, SeedableRng};
use rand_pcg::Mcg128Xsl64;
use crate::task::TaskId;
use crate::scheduler::Task;

verus! {

/// The `Pcg64Mcg` random number generator.
#[verifier::external_type_specification]
#[verifier::external_body]
pub struct ExMcg128Xsl64(Mcg128Xsl64);

/// The 128-bit state of a generator.
pub uninterp spec fn pcg_state(rng: Mcg128Xsl64) -> u128;

/// The state of a generator made by `seed_from_u64(seed)`.
pub uninterp spec fn pcg_seeded(seed: u64) -> u128;

/// The multiplier of the generator's congruential step.
pub open spec fn pcg_multiplier() -> u128 {
    0x2360_ED05_1FC6_5DA4_4385_DF64_9FCC_F645u128
}

/// The XSL RR output of a state: the exclusive or of its two 64-bit halves, rotated right by
/// its top six bits.
pub open spec fn pcg_output(state: u128) -> u64 {
    let rot = (state >> 122u128) as u64;
    let xsl = ((state >> 64u128) as u64) ^ (state as u64);
    if rot == 0 {
        xsl
    } else {
        (xsl >> rot) | (xsl << ((64 - rot) as u64))
    }
}

/// What `next_u64` returns from a generator in a state, and the state it leaves: the state is
/// multiplied by the multiplier, wrapping at 128 bits, and the output is that of the new state.
pub open spec fn pcg_next(state: u128) -> (u64, u128) {
    let next = ((state * pcg_multiplier()) % 0x1_0000_0000_0000_0000_0000_0000_0000_0000int) as u128;
    (pcg_output(next), next)
}

/// The index that `SliceRandom::choose` picks in a slice of `len` elements from a generator in a
/// state, and the state it leaves.
pub uninterp spec fn pcg_choose(state: u128, len: nat) -> (nat, u128);

/// The index that `SliceRandom::choose_weighted` picks among items of the given weights from a
/// generator in a state, and the state it leaves.
pub uninterp spec fn pcg_choose_weighted(state: u128, weights: Seq<nat>) -> (nat, u128);

/// `Pcg64Mcg::seed_from_u64`: a generator seeded from `seed`.
#[verifier::external_body]
pub(crate) fn pcg_from_seed(seed: u64) -> (r: Mcg128Xsl64)
    ensures
        pcg_state(r) == pcg_seeded(seed),
{
    Mcg128Xsl64::seed_from_u64(seed)
}

/// `RngCore::next_u64` of `Pcg64Mcg`: the next value, advancing the state.
#[verifier::external_body]
pub(crate) fn pcg_next_u64(rng: &mut Mcg128Xsl64) -> (r: u64)
    ensures
        (r, pcg_state(*final(rng))) == pcg_next(pcg_state(*old(rng))),
{
    rng.next_u64()
}

/// `SliceRandom::choose` on a non-empty slice of tasks with a `Pcg64Mcg`: the id of the task at
/// the index it picks, which is below the length of the slice.
#[verifier::external_body]
pub(crate) fn pcg_choose_task(rng: &mut Mcg128Xsl64, tasks: &[Task]) -> (r: TaskId)
    requires
        tasks@.len() > 0,
    ensures
        pcg_choose(pcg_state(*old(rng)), tasks@.len()).0 < tasks@.len(),
        pcg_state(*final(rng)) == pcg_choose(pcg_state(*old(rng)), tasks@.len()).1,
        r == tasks@[pcg_choose(pcg_state(*old(rng)), tasks@.len()).0 as int].id,
{
    tasks.choose(rng).unwrap().id
}

/// The sum of the weights.
pub open spec fn weight_sum(weights: Seq<nat>) -> nat
    decreases weights.len(),
{
    if weights.len() == 0 {
        0
    } else {
        weight_sum(weights.drop_last()) + weights.last()
    }
}

/// `SliceRandom::choose_weighted` on a non-empty slice of (task, weight) pairs, weighed by the
/// second of each pair, with a `Pcg64Mcg`: the task of the pair at the index it picks. The
/// weights are summed as `usize`, so their sum must fit; an index of zero weight is never
/// picked, and none is picked when all weights are zero.
#[verifier::external_body]
pub(crate) fn pcg_choose_weighted_task(rng: &mut Mcg128Xsl64, pairs: &[(TaskId, usize)]) -> (r: TaskId)
    requires
        pairs@.len() > 0,
        weight_sum(pair_weights(pairs@)) <= usize::MAX,
        weight_sum(pair_weights(pairs@)) > 0,
    ensures
        pcg_choose_weighted(pcg_state(*old(rng)), pair_weights(pairs@)).0 < pairs@.len()
            && pairs@[pcg_choose_weighted(pcg_state(*old(rng)), pair_weights(pairs@)).0 as int].1 > 0
            && r == pairs@[pcg_choose_weighted(pcg_state(*old(rng)), pair_weights(pairs@)).0 as int].0,
        pcg_state(*final(rng)) == pcg_choose_weighted(pcg_state(*old(rng)), pair_weights(pairs@)).1,
{
    pairs.choose_weighted(rng, |p| p.1).unwrap().0
}

/// The weights of the pairs: the second of each.
pub open spec fn pair_weights(pairs: Seq<(TaskId, usize)>) -> Seq<nat> {
    Seq::new(pairs.len(), |i: int| pairs[i].1 as nat)
}

/// `SliceRandom::choose` on a non-empty slice of tasks with a `Pcg64Mcg`, giving the index it
/// picks. The pick depends only on the length, so it is made among the indices.
#[verifier::external_body]
pub(crate) fn pcg_choose_index(rng: &mut Mcg128Xsl64, tasks: &[Task]) -> (r: usize)
    requires
        tasks@.len() > 0,
    ensures
        r == pcg_choose(pcg_state(*old(rng)), tasks@.len()).0,
        r < tasks@.len(),
        pcg_state(*final(rng)) == pcg_choose(pcg_state(*old(rng)), tasks@.len()).1,
{
    let indices: Vec<usize> = (0..tasks.len()).collect();
    *indices.choose(rng).unwrap()
}

/// `RngCore::next_u32` of `Pcg64Mcg`, which is the low half of `next_u64`: the value, advancing
/// the state.
#[verifier::external_body]
pub(crate) fn pcg_next_u32(rng: &mut Mcg128Xsl64) -> (r: u32)
    ensures
        r == pcg_next(pcg_state(*old(rng))).0 as u32,
        pcg_state(*final(rng)) == pcg_next(pcg_state(*old(rng))).1,
{
    rng.next_u32()
}

/// What `Rng::gen_range(0..n)` returns from a generator in a state, and the state it leaves.
pub uninterp spec fn pcg_gen_range(state: u128, n: nat) -> (nat, u128);

/// The order in which `SliceRandom::shuffle` leaves the indices `0..n`, from a generator in a
/// state, and the state it leaves.
pub uninterp spec fn pcg_shuffle(state: u128, n: nat) -> (Seq<usize>, u128);

/// The indices that `rand::seq::index::sample(rng, length, amount)` returns from a generator in
/// a state, and the state it leaves.
pub uninterp spec fn pcg_sample(state: u128, length: nat, amount: nat) -> (Seq<usize>, u128);

/// Whether the values are distinct and each below `n`.
pub open spec fn distinct_below(values: Seq<usize>, n: nat) -> bool {
    &&& forall|i: int| 0 <= i < values.len() ==> #[trigger] values[i] < n
    &&& forall|i: int, j: int| 0 <= i < j < values.len() ==> values[i] != values[j]
}

/// `Rng::gen_range(0..n)` with a `Pcg64Mcg`, on a range that is not empty: a value below `n`.
#[verifier::external_body]
pub(crate) fn pcg_below(rng: &mut Mcg128Xsl64, n: usize) -> (r: usize)
    requires
        n > 0,
    ensures
        r == pcg_gen_range(pcg_state(*old(rng)), n as nat).0,
        r < n,
        pcg_state(*final(rng)) == pcg_gen_range(pcg_state(*old(rng)), n as nat).1,
{
    rng.gen_range(0..n)
}

/// `SliceRandom::shuffle` of the indices `0..n` with a `Pcg64Mcg`: a permutation of them.
#[verifier::external_body]
pub(crate) fn pcg_shuffled_indices(rng: &mut Mcg128Xsl64, n: usize) -> (r: Vec<usize>)
    ensures
        r@ == pcg_shuffle(pcg_state(*old(rng)), n as nat).0,
        r@.len() == n,
        distinct_below(r@, n as nat),
        pcg_state(*final(rng)) == pcg_shuffle(pcg_state(*old(rng)), n as nat).1,
{
    let mut v: Vec<usize> = (0..n).collect();
    v.shuffle(rng);
    v
}

/// `rand::seq::index::sample` with a `Pcg64Mcg`: `amount` distinct indices below `length`.
#[verifier::external_body]
pub(crate) fn pcg_sample_indices(rng: &mut Mcg128Xsl64, length: usize, amount: usize) -> (r: Vec<usize>)
    requires
        amount <= length,
    ensures
        r@ == pcg_sample(pcg_state(*old(rng)), length as nat, amount as nat).0,
        r@.len() == amount,
        distinct_below(r@, length as nat),
        pcg_state(*final(rng)) == pcg_sample(pcg_state(*old(rng)), length as nat, amount as nat).1,
{
    rand::seq::index::sample(rng, length, amount).into_vec()
}

/// The state after `k` draws of `next_u64` from `state`.
pub open spec fn pcg_after(state: u128, k: nat) -> u128
    decreases k,
{
    if k == 0 {
        state
    } else {
        pcg_next(pcg_after(state, (k - 1) as nat)).1
    }
}

/// Draw `k` (from zero) of a generator seeded from `seed`.
pub open spec fn pcg_value(seed: u64, k: nat) -> u64 {
    pcg_next(pcg_after(pcg_seeded(seed), k)).0
}

} // verus!
