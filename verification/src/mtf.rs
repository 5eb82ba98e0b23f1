//! The move-to-front schedule encoding. Each step is coded by its rank in a list of the tasks
//! scheduled so far, most recent first: code 0 is a random choice, code `r + 1` the task at rank
//! `r`, which then moves to the front, and code `len + 1` a task seen for the first time, followed
//! by its id as an Elias delta code, after which it is put at the front.
//!
//! Layout: `[number of steps: varint] [seed: 8 bytes little-endian] [code words]`.
use vstd::prelude::*;
use vstd::bytes::{spec_u64_to_le_bytes, spec_u64_from_le_bytes, u64_to_le_bytes, u64_from_le_bytes, lemma_auto_spec_u64_to_from_le_bytes};
use vstd::slice::{slice_subrange, slice_to_vec};
use crate::task::TaskId;
use crate::schedule::{Schedule, ScheduleStep, ScheduleView};
use crate::bits::{LsbBits, lsb_bits, max_bits, pack_lsb, pad8, bytes_bits_lsb, lemma_unpack_pack_lsb, p2, lemma_p2_64, zeros};
use crate::bitcode::{code_bits, elias, read_code_at, read_elias_at, write_code, write_elias_delta, read_code, read_elias_delta, lemma_read_code_framed, lemma_read_elias_framed, lemma_code_bits_len, lemma_elias_len};
use crate::varint::{varint_encode, varint_decode, write_u64_varint, read_u64_varint, lemma_varint_roundtrip};

verus! {

/// Index of the first occurrence of `t` in `list`.
pub open spec fn find_index(list: Seq<usize>, t: usize) -> Option<nat>
    decreases list.len(),
{
    if list.len() == 0 {
        None
    } else if list[0] == t {
        Some(0nat)
    } else {
        match find_index(list.drop_first(), t) {
            Some(i) => Some(i + 1),
            None => None,
        }
    }
}

/// Moving `t` to the front of `list`: the new list, and the rank `t` had, if it was there.
pub open spec fn promote_spec(list: Seq<usize>, t: usize) -> (Seq<usize>, Option<nat>) {
    match find_index(list, t) {
        Some(r) => (seq![t] + list.remove(r as int), Some(r)),
        None => (seq![t] + list, None),
    }
}

/// The bits of one step, given the list before it.
pub open spec fn step_bits(step: ScheduleStep, list: Seq<usize>) -> Seq<bool> {
    match step {
        ScheduleStep::Random => code_bits(0),
        ScheduleStep::Task(tid) => match promote_spec(list, tid.0).1 {
            Some(r) => code_bits(r + 1),
            None => code_bits(list.len() + 1) + elias((tid.0 + 1) as nat),
        },
    }
}

/// The list after one step.
pub open spec fn step_list(step: ScheduleStep, list: Seq<usize>) -> Seq<usize> {
    match step {
        ScheduleStep::Random => list,
        ScheduleStep::Task(tid) => promote_spec(list, tid.0).0,
    }
}

/// The list after the first `i` steps.
pub open spec fn mtf_list(steps: Seq<ScheduleStep>, i: nat) -> Seq<usize>
    decreases i,
{
    if i == 0 || i > steps.len() {
        Seq::<usize>::empty()
    } else {
        step_list(steps[i - 1], mtf_list(steps, (i - 1) as nat))
    }
}

/// The bits of the first `i` steps.
pub open spec fn mtf_bits(steps: Seq<ScheduleStep>, i: nat) -> Seq<bool>
    decreases i,
{
    if i == 0 || i > steps.len() {
        Seq::<bool>::empty()
    } else {
        mtf_bits(steps, (i - 1) as nat) + step_bits(steps[i - 1], mtf_list(steps, (i - 1) as nat))
    }
}

/// The encoding of a schedule, without the leading magic byte.
pub open spec fn mtf_encode(steps: Seq<ScheduleStep>, seed: u64) -> Seq<u8> {
    varint_encode(steps.len()) + spec_u64_to_le_bytes(seed) + pack_lsb(mtf_bits(steps, steps.len()))
}

/// Decoding one step at `pos` with the given list: the step, the position after it and the
/// list after it.
pub open spec fn decode_one(bits: Seq<bool>, pos: nat, list: Seq<usize>) -> Option<(ScheduleStep, nat, Seq<usize>)> {
    match read_code_at(bits, pos) {
        None => None,
        Some((v, p)) => if v == 0 {
            Some((ScheduleStep::Random, p, list))
        } else if v - 1 < list.len() {
            let t = list[v - 1];
            Some((ScheduleStep::Task(TaskId(t)), p, seq![t] + list.remove(v - 1)))
        } else if v - 1 == list.len() {
            match read_elias_at(bits, p) {
                None => None,
                Some((e, q)) => if e == 0 || e - 1 > usize::MAX || find_index(list, (e - 1) as usize) is Some {
                    None
                } else {
                    let t = (e - 1) as usize;
                    Some((ScheduleStep::Task(TaskId(t)), q, seq![t] + list))
                },
            }
        } else {
            None
        },
    }
}

/// Decoding `remaining` steps from `pos` with the given list.
pub open spec fn mtf_decode_steps(bits: Seq<bool>, pos: nat, list: Seq<usize>, remaining: nat) -> Option<Seq<ScheduleStep>>
    decreases remaining,
{
    if remaining == 0 {
        Some(Seq::<ScheduleStep>::empty())
    } else {
        match decode_one(bits, pos, list) {
            None => None,
            Some((step, p, l)) => match mtf_decode_steps(bits, p, l, (remaining - 1) as nat) {
                Some(tail) => Some(seq![step] + tail),
                None => None,
            },
        }
    }
}

/// Decoding of an encoding without its magic byte.
pub open spec fn mtf_decode(bytes: Seq<u8>) -> Option<ScheduleView> {
    match varint_decode(bytes) {
        None => None,
        Some((n, h)) => if n > usize::MAX || h + 8 > bytes.len() || bytes.len() - (h + 8) > max_bits() / 8 {
            None
        } else {
            let seed = spec_u64_from_le_bytes(bytes.subrange(h as int, (h + 8) as int));
            let bits = bytes_bits_lsb(bytes.subrange((h + 8) as int, bytes.len() as int));
            if n > bits.len() / 4 {
                None
            } else {
                match mtf_decode_steps(bits, 0, Seq::<usize>::empty(), n) {
                    Some(steps) => Some(ScheduleView { seed, steps }),
                    None => None,
                }
            }
        },
    }
}

proof fn lemma_find_index(list: Seq<usize>, t: usize, i: nat)
    requires
        i <= list.len(),
        forall|k: int| 0 <= k < i ==> list[k] != t,
    ensures
        i < list.len() && list[i as int] == t ==> find_index(list, t) == Some(i),
        i == list.len() ==> find_index(list, t) is None,
    decreases i,
{
    if i > 0 {
        lemma_find_index(list.drop_first(), t, (i - 1) as nat);
    }
}

proof fn lemma_find_index_props(list: Seq<usize>, t: usize)
    ensures
        find_index(list, t) matches Some(i) ==> i < list.len() && list[i as int] == t,
        find_index(list, t) is None ==> !list.contains(t),
    decreases list.len(),
{
    if list.len() > 0 {
        lemma_find_index_props(list.drop_first(), t);
        if find_index(list, t) is None {
            assert forall|k: int| 0 <= k < list.len() implies list[k] != t by {
                if k > 0 {
                    assert(list[k] == list.drop_first()[k - 1]);
                }
            }
        }
    }
}

/// Moves the entry at `rank` to the front of `list`, keeping the order of the others.
fn move_to_front(list: &mut Vec<usize>, rank: usize)
    requires
        rank < old(list).len(),
    ensures
        final(list)@ == seq![old(list)@[rank as int]] + old(list)@.remove(rank as int),
{
    let ghost orig = list@;
    let len = list.len();
    let t = list[rank];
    let mut j = rank;
    while j > 0
        invariant
            len == list.len(),
            orig.len() == len,
            j <= rank < len,
            orig[rank as int] == t,
            list@ == orig.subrange(0, j + 1) + orig.subrange(j as int, rank as int) + orig.subrange(rank + 1, len as int),
        decreases j,
    {
        let prev = list[j - 1];
        proof {
            let a = orig.subrange(0, j + 1);
            let b = orig.subrange(j as int, rank as int);
            let c = orig.subrange(rank + 1, len as int);
            assert((a + b)[j - 1] == a[j - 1]);
            assert((a + b + c)[j - 1] == (a + b)[j - 1]);
        }
        list.set(j, prev);
        j = j - 1;
        proof {
            assert(list@ =~= orig.subrange(0, j + 1) + orig.subrange(j as int, rank as int) + orig.subrange(rank + 1, len as int));
        }
    }
    list.set(0, t);
    proof {
        assert(list@ =~= seq![t] + orig.remove(rank as int));
    }
}

/// Moves `task` to the front of `list`, returning the rank it had, or `None` when it was not in
/// the list, in which case it is added at the front.
pub fn promote(list: &mut Vec<usize>, task: usize) -> (r: Option<usize>)
    ensures
        final(list)@ == promote_spec(old(list)@, task).0,
        match promote_spec(old(list)@, task).1 {
            Some(k) => r == Some(k as usize),
            None => r is None,
        },
{
    let ghost orig = list@;
    let len = list.len();
    let mut i: usize = 0;
    while i < len
        invariant
            len == list.len(),
            list@ == orig,
            orig == old(list)@,
            i <= len,
            forall|k: int| 0 <= k < i ==> orig[k] != task,
        decreases len - i,
    {
        if list[i] == task {
            proof {
                lemma_find_index(orig, task, i as nat);
            }
            move_to_front(list, i);
            return Some(i);
        }
        i = i + 1;
    }
    proof {
        lemma_find_index(orig, task, len as nat);
    }
    list.insert(0, task);
    proof {
        assert(list@ =~= seq![task] + orig);
    }
    None
}

/// Decodes one step at `pos`, moving `pos` past it and updating the list as `decode_one` says.
fn decode_step(bits: &LsbBits, pos: &mut usize, list: &mut Vec<usize>) -> (r: Option<ScheduleStep>)
    requires
        *old(pos) <= lsb_bits(*bits).len(),
    ensures
        *final(pos) <= lsb_bits(*bits).len(),
        match decode_one(lsb_bits(*bits), *old(pos) as nat, old(list)@) {
            Some((step, p, l)) => r == Some(step) && *final(pos) == p && final(list)@ == l,
            None => r is None,
        },
{
    let v = match read_code(bits, pos) {
        Some(v) => v,
        None => {
            return None;
        },
    };
    if v == 0 {
        return Some(ScheduleStep::Random);
    }
    let rank64 = v - 1;
    let llen = list.len();
    if rank64 < llen as u64 {
        let rank = rank64 as usize;
        let t = list[rank];
        move_to_front(list, rank);
        Some(ScheduleStep::Task(TaskId(t)))
    } else if rank64 == llen as u64 {
        let e = match read_elias_delta(bits, pos) {
            Some(e) => e,
            None => {
                return None;
            },
        };
        if e == 0 || e - 1 > usize::MAX as u64 {
            return None;
        }
        let t = (e - 1) as usize;
        // A task seen before is coded by its rank, so finding it here means the input is corrupt.
        if promote(list, t).is_some() {
            return None;
        }
        Some(ScheduleStep::Task(TaskId(t)))
    } else {
        None
    }
}

/// The magic byte of the move-to-front encoding.
pub const MAGIC_MTF: u8 = 0x92;

/// Whether every task id of `steps` is below the largest `u64`, so that it can be coded.
pub open spec fn codable_steps(steps: Seq<ScheduleStep>) -> bool {
    forall|k: int| 0 <= k < steps.len() ==> (#[trigger] steps[k] matches ScheduleStep::Task(t) ==> (t.0 as nat) + 1 < 0x1_0000_0000_0000_0000)
}

/// Largest number of steps the encodings accept.
pub open spec fn max_steps_encodable() -> nat {
    (max_bits() / 160) as nat
}

proof fn lemma_mtf_list_len(steps: Seq<ScheduleStep>, i: nat)
    ensures
        mtf_list(steps, i).len() <= i,
    decreases i,
{
    if i > 0 && i <= steps.len() {
        lemma_mtf_list_len(steps, (i - 1) as nat);
        let l = mtf_list(steps, (i - 1) as nat);
        match steps[i - 1] {
            ScheduleStep::Random => {},
            ScheduleStep::Task(t) => {
                lemma_find_index_props(l, t.0);
            },
        }
    }
}

proof fn lemma_step_bits_len(step: ScheduleStep, list: Seq<usize>)
    requires
        list.len() < 0x1_0000_0000_0000_0000 - 1,
        step matches ScheduleStep::Task(t) ==> (t.0 as nat) + 1 < 0x1_0000_0000_0000_0000,
    ensures
        4 <= step_bits(step, list).len() <= 156,
{
    match step {
        ScheduleStep::Random => {
            lemma_code_bits_len(0);
        },
        ScheduleStep::Task(t) => {
            lemma_find_index_props(list, t.0);
            match promote_spec(list, t.0).1 {
                Some(r) => {
                    lemma_code_bits_len(r + 1);
                },
                None => {
                    lemma_code_bits_len(list.len() + 1);
                    lemma_elias_len((t.0 + 1) as nat);
                },
            }
        },
    }
}

proof fn lemma_mtf_bits_len(steps: Seq<ScheduleStep>, i: nat)
    requires
        i <= steps.len() < 0x1_0000_0000_0000_0000 - 1,
        codable_steps(steps),
    ensures
        4 * i <= mtf_bits(steps, i).len() <= 156 * i,
    decreases i,
{
    if i > 0 {
        lemma_mtf_bits_len(steps, (i - 1) as nat);
        lemma_mtf_list_len(steps, (i - 1) as nat);
        lemma_step_bits_len(steps[i - 1], mtf_list(steps, (i - 1) as nat));
    }
}

proof fn lemma_mtf_bits_prefix(steps: Seq<ScheduleStep>, i: nat, n: nat)
    requires
        i <= n <= steps.len(),
    ensures
        mtf_bits(steps, i).len() <= mtf_bits(steps, n).len(),
        mtf_bits(steps, n).subrange(0, mtf_bits(steps, i).len() as int) == mtf_bits(steps, i),
    decreases n - i,
{
    if i == n {
        assert(mtf_bits(steps, n).subrange(0, mtf_bits(steps, n).len() as int) =~= mtf_bits(steps, n));
    } else {
        lemma_mtf_bits_prefix(steps, i + 1, n);
        let a = mtf_bits(steps, i);
        let b = mtf_bits(steps, i + 1);
        assert(b == a + step_bits(steps[i as int], mtf_list(steps, i)));
        assert(mtf_bits(steps, n).subrange(0, a.len() as int) =~= b.subrange(0, a.len() as int));
        assert(b.subrange(0, a.len() as int) =~= a);
    }
}

proof fn lemma_decode_one(all: Seq<bool>, x: Seq<bool>, list: Seq<usize>, step: ScheduleStep, y: Seq<bool>)
    requires
        all == x + step_bits(step, list) + y,
        list.len() < 0x1_0000_0000_0000_0000 - 1,
        step matches ScheduleStep::Task(t) ==> (t.0 as nat) + 1 < 0x1_0000_0000_0000_0000,
    ensures
        decode_one(all, x.len(), list) == Some(
            (step, x.len() + step_bits(step, list).len(), step_list(step, list)),
        ),
{
    match step {
        ScheduleStep::Random => {
            lemma_read_code_framed(x, 0, y);
        },
        ScheduleStep::Task(t) => {
            lemma_find_index_props(list, t.0);
            match find_index(list, t.0) {
                Some(r) => {
                    lemma_read_code_framed(x, r + 1, y);
                    assert(TaskId(list[r as int]) == t);
                },
                None => {
                    lemma_read_code_framed(x, list.len() + 1, elias((t.0 + 1) as nat) + y);
                    assert(x + code_bits(list.len() + 1) + (elias((t.0 + 1) as nat) + y) =~= all);
                    lemma_read_elias_framed(x + code_bits(list.len() + 1), (t.0 + 1) as nat, y);
                    assert(x + code_bits(list.len() + 1) + elias((t.0 + 1) as nat) + y =~= all);
                    assert(TaskId(((t.0 + 1) as nat - 1) as usize) == t);
                },
            }
        },
    }
}

/// The bits of the whole schedule split at step `i`: those before it, its own, and the rest.
proof fn lemma_split_at_step(steps: Seq<ScheduleStep>, all: Seq<bool>, i: nat)
    requires
        i < steps.len(),
        mtf_bits(steps, steps.len()).len() <= all.len(),
        all.subrange(0, mtf_bits(steps, steps.len()).len() as int) == mtf_bits(steps, steps.len()),
    ensures
        ({
            let x = mtf_bits(steps, i);
            let code = step_bits(steps[i as int], mtf_list(steps, i));
            &&& mtf_bits(steps, i + 1) == x + code
            &&& mtf_list(steps, i + 1) == step_list(steps[i as int], mtf_list(steps, i))
            &&& all == x + code + all.subrange((x.len() + code.len()) as int, all.len() as int)
        }),
{
    let n = steps.len();
    let x = mtf_bits(steps, i);
    let code = step_bits(steps[i as int], mtf_list(steps, i));
    assert(mtf_bits(steps, i + 1) == x + code);
    lemma_mtf_bits_prefix(steps, i + 1, n);
    let y = all.subrange((x.len() + code.len()) as int, all.len() as int);
    assert(all.subrange(0, (x + code).len() as int) =~= mtf_bits(steps, n).subrange(0, (x + code).len() as int));
    assert(all =~= x + code + y);
}

proof fn lemma_decode_steps_from(steps: Seq<ScheduleStep>, all: Seq<bool>, i: nat)
    requires
        i <= steps.len() < 0x1_0000_0000_0000_0000 - 1,
        codable_steps(steps),
        mtf_bits(steps, steps.len()).len() <= all.len(),
        all.subrange(0, mtf_bits(steps, steps.len()).len() as int) == mtf_bits(steps, steps.len()),
    ensures
        mtf_decode_steps(all, mtf_bits(steps, i).len(), mtf_list(steps, i), (steps.len() - i) as nat)
            == Some(steps.subrange(i as int, steps.len() as int)),
    decreases steps.len() - i,
{
    let n = steps.len();
    if i == n {
        assert(steps.subrange(i as int, n as int) =~= Seq::<ScheduleStep>::empty());
    } else {
        let x = mtf_bits(steps, i);
        let list = mtf_list(steps, i);
        let step = steps[i as int];
        let code = step_bits(step, list);
        lemma_split_at_step(steps, all, i);
        lemma_decode_steps_from(steps, all, i + 1);
        lemma_mtf_list_len(steps, i);
        assert(step matches ScheduleStep::Task(t) ==> (t.0 as nat) + 1 < 0x1_0000_0000_0000_0000);
        lemma_decode_one(all, x, list, step, all.subrange((x.len() + code.len()) as int, all.len() as int));
        assert(steps.subrange(i as int, n as int) =~= seq![step] + steps.subrange((i + 1) as int, n as int));
    }
}

/// Decoding the encoding of a schedule gives the schedule back.
pub proof fn lemma_mtf_roundtrip(steps: Seq<ScheduleStep>, seed: u64)
    requires
        steps.len() <= max_steps_encodable(),
        codable_steps(steps),
    ensures
        mtf_decode(mtf_encode(steps, seed)) == Some(ScheduleView { seed, steps }),
{
    let n = steps.len();
    lemma_mtf_bits_len(steps, n);
    lemma_auto_spec_u64_to_from_le_bytes();
    let b = mtf_bits(steps, n);
    let packed = pack_lsb(b);
    let le = spec_u64_to_le_bytes(seed);
    let enc = mtf_encode(steps, seed);
    lemma_varint_roundtrip(n as u64, le + packed);
    let h = varint_encode(n).len();
    assert(enc =~= varint_encode(n) + (le + packed));
    assert(enc.subrange(h as int, (h + 8) as int) =~= le);
    assert(enc.subrange((h + 8) as int, enc.len() as int) =~= packed);
    lemma_unpack_pack_lsb(b);
    let all = pad8(b);
    assert(all.subrange(0, b.len() as int) =~= b);
    lemma_decode_steps_from(steps, all, 0);
    assert(steps.subrange(0, n as int) =~= steps);
    assert(mtf_list(steps, 0) == Seq::<usize>::empty());
    assert(mtf_bits(steps, 0).len() == 0);
}

/// Encodes a schedule, starting with the magic byte.
pub fn serialize(schedule: &Schedule) -> (r: Vec<u8>)
    requires
        schedule.steps@.len() <= max_steps_encodable(),
        codable_steps(schedule.steps@),
    ensures
        r@ == seq![MAGIC_MTF] + mtf_encode(schedule.steps@, schedule.seed),
{
    let n = schedule.steps.len();
    let ghost steps = schedule.steps@;
    let mut bits = LsbBits::new();
    let mut list: Vec<usize> = Vec::new();
    let mut i: usize = 0;
    proof {
        lemma_mtf_bits_len(steps, n as nat);
    }
    while i < n
        invariant
            n == steps.len(),
            steps == schedule.steps@,
            steps.len() <= max_steps_encodable(),
            codable_steps(steps),
            i <= n,
            lsb_bits(bits) == mtf_bits(steps, i as nat),
            list@ == mtf_list(steps, i as nat),
        decreases n - i,
    {
        proof {
            lemma_mtf_bits_len(steps, i as nat);
            lemma_mtf_list_len(steps, i as nat);
            assert(lsb_bits(bits).len() + 160 <= max_bits()) by (nonlinear_arith)
                requires
                    lsb_bits(bits).len() <= 156 * i,
                    i < n,
                    n <= max_bits() / 160,
            ;
        }
        let step = schedule.steps[i];
        match step {
            ScheduleStep::Random => {
                write_code(&mut bits, 0);
            },
            ScheduleStep::Task(tid) => {
                let t = tid.0;
                let len = list.len();
                let ghost before = lsb_bits(bits);
                proof {
                    lemma_find_index_props(list@, t);
                }
                match promote(&mut list, t) {
                    Some(rank) => {
                        write_code(&mut bits, rank as u64 + 1);
                    },
                    None => {
                        write_code(&mut bits, len as u64 + 1);
                        proof {
                            lemma_code_bits_len((len + 1) as nat);
                            assert(steps[i as int] matches ScheduleStep::Task(tt) ==> (tt.0 as nat) + 1 < 0x1_0000_0000_0000_0000);
                        }
                        write_elias_delta(&mut bits, t as u64 + 1);
                        proof {
                            assert(before + code_bits((len + 1) as nat) + elias((t + 1) as nat) =~= before + (code_bits((len + 1) as nat) + elias((t + 1) as nat)));
                        }
                    },
                }
            },
        }
        i = i + 1;
    }
    let mut buf: Vec<u8> = Vec::new();
    buf.push(MAGIC_MTF);
    write_u64_varint(&mut buf, n as u64);
    let mut le = u64_to_le_bytes(schedule.seed);
    buf.append(&mut le);
    let mut packed = bits.into_bytes();
    buf.append(&mut packed);
    proof {
        assert(steps.len() == n);
        assert(buf@ =~= seq![MAGIC_MTF] + mtf_encode(steps, schedule.seed));
    }
    buf
}

/// Decodes an encoding produced by `serialize`, without its magic byte.
pub fn deserialize(bytes: &[u8]) -> (r: Option<Schedule>)
    ensures
        match mtf_decode(bytes@) {
            Some(v) => r matches Some(s) && s@ == v,
            None => r is None,
        },
{
    let len = bytes.len();
    let (n64, h) = match read_u64_varint(bytes, 0) {
        Some(x) => x,
        None => {
            proof {
                assert(bytes@.subrange(0, len as int) =~= bytes@);
            }
            return None;
        },
    };
    proof {
        assert(bytes@.subrange(0, len as int) =~= bytes@);
    }
    if n64 > usize::MAX as u64 || len - h < 8 || len - h - 8 > usize::MAX / 64 {
        proof {
            assert(usize::MAX / 64 == max_bits() / 8);
        }
        return None;
    }
    let n = n64 as usize;
    let seed = u64_from_le_bytes(slice_subrange(bytes, h, h + 8));
    let rest = slice_to_vec(slice_subrange(bytes, h + 8, len));
    let bits = LsbBits::from_bytes(rest);
    let ghost all = lsb_bits(bits);
    if n > bits.len() / 4 {
        return None;
    }
    let mut list: Vec<usize> = Vec::new();
    let mut steps: Vec<ScheduleStep> = Vec::new();
    let mut pos: usize = 0;
    proof {
        assert(steps@ + Seq::<ScheduleStep>::empty() =~= steps@);
        assert(bytes@.subrange(h as int, (h + 8) as int) == bytes@.subrange(0, len as int).subrange(h as int, (h + 8) as int));
        assert(usize::MAX / 64 == max_bits() / 8);
        assert(mtf_decode(bytes@) == match mtf_decode_steps(all, 0, Seq::<usize>::empty(), n as nat) {
            Some(st) => Some(ScheduleView { seed, steps: st }),
            None => None::<ScheduleView>,
        });
    }
    while steps.len() < n
        invariant
            mtf_decode(bytes@) == match mtf_decode_steps(all, 0, Seq::<usize>::empty(), n as nat) {
                Some(st) => Some(ScheduleView { seed, steps: st }),
                None => None::<ScheduleView>,
            },
            all == lsb_bits(bits),
            pos <= all.len(),
            steps@.len() <= n,
            mtf_decode_steps(all, 0, Seq::<usize>::empty(), n as nat) == match mtf_decode_steps(all, pos as nat, list@, (n - steps@.len()) as nat) {
                Some(tail) => Some(steps@ + tail),
                None => None::<Seq<ScheduleStep>>,
            },
        decreases n - steps@.len(),
    {
        let ghost k = (n - steps@.len()) as nat;
        let ghost s0 = steps@;
        let step = match decode_step(&bits, &mut pos, &mut list) {
            Some(step) => step,
            None => {
                return None;
            },
        };
        steps.push(step);
        proof {
            match mtf_decode_steps(all, pos as nat, list@, (k - 1) as nat) {
                Some(tail) => {
                    assert(s0 + (seq![step] + tail) =~= steps@ + tail);
                },
                None => {},
            }
        }
    }
    proof {
        assert(steps@ + Seq::<ScheduleStep>::empty() =~= steps@);
        assert(bytes@.subrange(h as int, (h + 8) as int) == bytes@.subrange(0, len as int).subrange(h as int, (h + 8) as int));
    }
    Some(Schedule { seed, steps })
}

/// The encoding takes at most eighteen bytes of header and twenty bytes per step.
pub proof fn lemma_mtf_encode_len(steps: Seq<ScheduleStep>, seed: u64)
    requires
        steps.len() <= max_steps_encodable(),
        codable_steps(steps),
    ensures
        mtf_encode(steps, seed).len() <= 18 + 20 * steps.len(),
{
    lemma_mtf_bits_len(steps, steps.len());
    crate::varint::lemma_encode_len_bound(steps.len());
    lemma_auto_spec_u64_to_from_le_bytes();
}

/// The layout of the move-to-front encoding: the number of steps as a varint, then the seed as
/// eight bytes, least significant first, then the code words.
pub proof fn lemma_mtf_encode_layout(steps: Seq<ScheduleStep>, seed: u64)
    ensures
        ({
            let e = mtf_encode(steps, seed);
            let h = varint_encode(steps.len()).len();
            &&& e.subrange(0, h as int) == varint_encode(steps.len())
            &&& e.subrange(h as int, (h + 8) as int) == spec_u64_to_le_bytes(seed)
            &&& e.subrange(0, (h + 8) as int).len() == h + 8
        }),
{
    lemma_auto_spec_u64_to_from_le_bytes();
    let e = mtf_encode(steps, seed);
    let v = varint_encode(steps.len());
    let h = v.len();
    let le = spec_u64_to_le_bytes(seed);
    let rest = pack_lsb(mtf_bits(steps, steps.len()));
    assert(e == v + le + rest);
    assert(e.subrange(0, h as int) =~= v);
    assert(e.subrange(h as int, (h + 8) as int) =~= le);
}

/// A decoded schedule's seed is the one whose eight bytes, least significant first, follow the
/// varint that counts the steps, and its steps are as many as that varint says.
pub proof fn lemma_mtf_decoded_seed(bytes: Seq<u8>)
    ensures
        mtf_decode(bytes) matches Some(v) ==> (varint_decode(bytes) matches Some((n, h))
            && h + 8 <= bytes.len()
            && bytes.subrange(h as int, (h + 8) as int) == spec_u64_to_le_bytes(v.seed)
            && v.steps.len() == n),
{
    lemma_auto_spec_u64_to_from_le_bytes();
    if let Some(v) = mtf_decode(bytes) {
        let (n, h) = varint_decode(bytes)->0;
        let b = bytes.subrange(h as int, (h + 8) as int);
        assert(b.len() == 8);
        assert(v.seed == spec_u64_from_le_bytes(b));
        assert(spec_u64_to_le_bytes(spec_u64_from_le_bytes(b)) == b);
        let bits = bytes_bits_lsb(bytes.subrange((h + 8) as int, bytes.len() as int));
        lemma_mtf_decode_steps_len(bits, 0, Seq::<usize>::empty(), n);
    }
}

proof fn lemma_mtf_decode_steps_len(bits: Seq<bool>, pos: nat, list: Seq<usize>, remaining: nat)
    ensures
        mtf_decode_steps(bits, pos, list, remaining) matches Some(s) ==> s.len() == remaining,
    decreases remaining,
{
    if remaining > 0 {
        match decode_one(bits, pos, list) {
            Some((step, p, l)) => {
                lemma_mtf_decode_steps_len(bits, p, l, (remaining - 1) as nat);
            },
            None => {},
        }
    }
}

} // verus!
