//! The fixed-width schedule encoding. Every step is one flag bit, unset for a task and set for a
//! random choice; a task step is followed by the task id in a field wide enough for the largest
//! task id of the schedule, least significant bit first.
//!
//! Layout: `[field width: varint] [number of steps: varint] [seed: varint] [step bits]`, the bits
//! packed least significant first into a buffer of `steps * (1 + width)` bits.
use vstd::prelude::*;
use crate::task::TaskId;
use crate::schedule::{Schedule, ScheduleStep, ScheduleView};
use crate::bits::{LsbBits, lsb_bits, max_bits, pack_lsb, bytes_bits_lsb, pad8, zeros, nat_bits, bits_nat, p2, lemma_p2_pos, lemma_p2_64, lemma_p2_is_pow2, lemma_p2_monotone, lemma_nat_bits_len, lemma_nat_bits_index, lemma_bits_nat_of_nat_bits, lemma_bits_nat_bound, lemma_shift_bit, lemma_unpack_pack_lsb};
use crate::bitcode::{bitlen, lemma_bitlen_bounds, lemma_bitlen_below, lemma_bitlen_monotone, bit_length};
use crate::varint::{varint_encode, varint_decode, write_u64_varint, read_u64_varint, lemma_varint_roundtrip};
use crate::mtf::max_steps_encodable;
use vstd::slice::{slice_subrange, slice_to_vec};

verus! {

/// The largest task id among the steps, zero when there is none.
pub open spec fn max_task_id(steps: Seq<ScheduleStep>) -> nat
    decreases steps.len(),
{
    if steps.len() == 0 {
        0
    } else {
        let m = max_task_id(steps.drop_last());
        match steps.last() {
            ScheduleStep::Task(t) => if t.0 > m {
                t.0 as nat
            } else {
                m
            },
            ScheduleStep::Random => m,
        }
    }
}

/// Width of the task id field: the bit length of the largest task id, and at least one.
pub open spec fn fixed_width(steps: Seq<ScheduleStep>) -> nat {
    let b = bitlen(max_task_id(steps));
    if b == 0 {
        1
    } else {
        b
    }
}

/// The low `w` bits of `v`, least significant first.
pub open spec fn lsb_field(v: nat, w: nat) -> Seq<bool> {
    nat_bits(v, w).reverse()
}

/// The value of a run of bits read least significant first.
pub open spec fn lsb_value(s: Seq<bool>) -> nat {
    bits_nat(s.reverse())
}

/// The bits of one step with a task id field of width `w`.
pub open spec fn fixed_step_bits(step: ScheduleStep, w: nat) -> Seq<bool> {
    match step {
        ScheduleStep::Task(t) => seq![false] + lsb_field(t.0 as nat, w),
        ScheduleStep::Random => seq![true],
    }
}

/// The bits of the first `i` steps.
pub open spec fn fixed_bits(steps: Seq<ScheduleStep>, w: nat, i: nat) -> Seq<bool>
    decreases i,
{
    if i == 0 || i > steps.len() {
        Seq::<bool>::empty()
    } else {
        fixed_bits(steps, w, (i - 1) as nat) + fixed_step_bits(steps[i - 1], w)
    }
}

/// The encoding of a schedule, without the leading magic byte.
pub open spec fn fixed_encode(steps: Seq<ScheduleStep>, seed: u64) -> Seq<u8> {
    let w = fixed_width(steps);
    let b = fixed_bits(steps, w, steps.len());
    varint_encode(w) + varint_encode(steps.len()) + varint_encode(seed as nat) + pack_lsb(
        b + zeros((steps.len() * (1 + w) - b.len()) as nat),
    )
}

/// Decoding `remaining` steps at `pos` with task id fields of width `w`.
pub open spec fn fixed_decode_steps(bits: Seq<bool>, w: nat, pos: nat, remaining: nat) -> Option<Seq<ScheduleStep>>
    decreases remaining,
{
    if remaining == 0 {
        Some(Seq::<ScheduleStep>::empty())
    } else if pos >= bits.len() {
        None
    } else if bits[pos as int] {
        match fixed_decode_steps(bits, w, pos + 1, (remaining - 1) as nat) {
            Some(tail) => Some(seq![ScheduleStep::Random] + tail),
            None => None,
        }
    } else if pos + 1 + w > bits.len() {
        None
    } else {
        let t = lsb_value(bits.subrange(pos + 1 as int, (pos + 1 + w) as int));
        match fixed_decode_steps(bits, w, pos + 1 + w, (remaining - 1) as nat) {
            Some(tail) => Some(seq![ScheduleStep::Task(TaskId(t as usize))] + tail),
            None => None,
        }
    }
}

/// Decoding of an encoding without its magic byte.
pub open spec fn fixed_decode(bytes: Seq<u8>) -> Option<ScheduleView> {
    match varint_decode(bytes) {
        None => None,
        Some((w, h1)) => match varint_decode(bytes.subrange(h1 as int, bytes.len() as int)) {
            None => None,
            Some((n, h2)) => match varint_decode(bytes.subrange((h1 + h2) as int, bytes.len() as int)) {
                None => None,
                Some((seed, h3)) => {
                    let rest = bytes.subrange((h1 + h2 + h3) as int, bytes.len() as int);
                    if w > usize::MAX || n > usize::MAX || w > usize::BITS || rest.len() > max_bits() / 8 {
                        None
                    } else if n > 8 * rest.len() {
                        None
                    } else {
                        match fixed_decode_steps(bytes_bits_lsb(rest), w, 0, n) {
                            Some(steps) => Some(ScheduleView { seed: seed as u64, steps }),
                            None => None,
                        }
                    }
                },
            },
        },
    }
}

/// Every `usize` is below `2` to the number of bits of `usize`.
pub proof fn lemma_usize_bits()
    ensures
        usize::MAX < p2(usize::BITS as nat),
        usize::BITS <= 64,
{
    lemma_p2_64();
    assert(usize::BITS == 32 || usize::BITS == 64);
}

proof fn lemma_bits_nat_prepend(b: bool, t: Seq<bool>)
    ensures
        bits_nat(seq![b] + t) == (if b {
            p2(t.len())
        } else {
            0
        }) + bits_nat(t),
    decreases t.len(),
{
    let s = seq![b] + t;
    if t.len() == 0 {
        assert(s.drop_last() =~= Seq::<bool>::empty());
        assert(bits_nat(Seq::<bool>::empty()) == 0);
        assert(s.last() == b);
        assert(p2(0) == 1);
        assert(bits_nat(t) == 0);
    } else {
        lemma_bits_nat_prepend(b, t.drop_last());
        assert(s.drop_last() =~= seq![b] + t.drop_last());
        assert(s.last() == t.last());
        assert(p2(t.len()) == 2 * p2((t.len() - 1) as nat));
        assert(bits_nat(s) == 2 * bits_nat(s.drop_last()) + if s.last() { 1nat } else { 0nat });
        assert(bits_nat(t) == 2 * bits_nat(t.drop_last()) + if t.last() { 1nat } else { 0nat });
    }
}

/// Appending a bit to a least-significant-first run adds its weight.
proof fn lemma_lsb_value_push(s: Seq<bool>, b: bool)
    ensures
        lsb_value(s.push(b)) == lsb_value(s) + if b {
            p2(s.len())
        } else {
            0
        },
{
    assert(s.push(b).reverse() =~= seq![b] + s.reverse());
    lemma_bits_nat_prepend(b, s.reverse());
}

/// The field of `v` is read back as `v` modulo `2^w`, and bit `i` of it is bit `i` of `v`.
proof fn lemma_lsb_field(v: nat, w: nat)
    ensures
        lsb_field(v, w).len() == w,
        lsb_value(lsb_field(v, w)) == v % p2(w),
        forall|i: int| 0 <= i < w ==> #[trigger] lsb_field(v, w)[i] == ((v / p2(i as nat)) % 2 == 1),
{
    lemma_nat_bits_len(v, w);
    assert(lsb_field(v, w).reverse() =~= nat_bits(v, w));
    lemma_bits_nat_of_nat_bits(v, w);
    assert forall|i: int| 0 <= i < w implies #[trigger] lsb_field(v, w)[i] == ((v / p2(i as nat)) % 2 == 1) by {
        lemma_nat_bits_index(v, w, w - 1 - i);
    }
}

proof fn lemma_max_task_id(steps: Seq<ScheduleStep>, k: int)
    requires
        0 <= k < steps.len(),
    ensures
        steps[k] matches ScheduleStep::Task(t) ==> t.0 <= max_task_id(steps),
        max_task_id(steps) <= usize::MAX,
    decreases steps.len(),
{
    let m = max_task_id(steps.drop_last());
    if k < steps.len() - 1 {
        lemma_max_task_id(steps.drop_last(), k);
        assert(steps.drop_last()[k] == steps[k]);
    } else if steps.len() > 1 {
        lemma_max_task_id(steps.drop_last(), 0);
    } else {
        assert(steps.drop_last().len() == 0);
        assert(m == 0);
    }
    assert(m <= usize::MAX);
}

proof fn lemma_fixed_step_bits_len(step: ScheduleStep, w: nat)
    ensures
        1 <= fixed_step_bits(step, w).len() <= 1 + w,
{
    match step {
        ScheduleStep::Task(t) => {
            lemma_lsb_field(t.0 as nat, w);
        },
        ScheduleStep::Random => {},
    }
}

pub proof fn lemma_fixed_bits_len(steps: Seq<ScheduleStep>, w: nat, i: nat)
    requires
        i <= steps.len(),
    ensures
        i <= fixed_bits(steps, w, i).len() <= i * (1 + w),
    decreases i,
{
    if i > 0 {
        lemma_fixed_bits_len(steps, w, (i - 1) as nat);
        lemma_fixed_step_bits_len(steps[i - 1], w);
        assert((i - 1) * (1 + w) + (1 + w) == i * (1 + w)) by (nonlinear_arith);
    }
}

/// The largest task id fits the field of the schedule.
pub proof fn lemma_fixed_width(steps: Seq<ScheduleStep>)
    requires
        usize::MAX < p2(usize::BITS as nat),
    ensures
        1 <= fixed_width(steps) <= usize::BITS,
        forall|k: int| 0 <= k < steps.len() ==> (#[trigger] steps[k] matches ScheduleStep::Task(t) ==> (t.0 as nat) < p2(fixed_width(steps))),
{
    let m = max_task_id(steps);
    if steps.len() > 0 {
        lemma_max_task_id(steps, 0);
    }
    lemma_bitlen_below(m, usize::BITS as nat);
    lemma_p2_pos(fixed_width(steps));
    if m >= 1 {
        lemma_bitlen_bounds(m);
        lemma_p2_monotone(bitlen(m), fixed_width(steps));
    }
    assert forall|k: int| 0 <= k < steps.len() implies (#[trigger] steps[k] matches ScheduleStep::Task(t) ==> (t.0 as nat) < p2(fixed_width(steps))) by {
        lemma_max_task_id(steps, k);
    }
}

/// The bits of the first `i` steps are a prefix of the bits of the first `n`.
proof fn lemma_fixed_bits_prefix(steps: Seq<ScheduleStep>, w: nat, i: nat, n: nat)
    requires
        i <= n <= steps.len(),
    ensures
        fixed_bits(steps, w, i).len() <= fixed_bits(steps, w, n).len(),
        fixed_bits(steps, w, n).subrange(0, fixed_bits(steps, w, i).len() as int) == fixed_bits(steps, w, i),
    decreases n - i,
{
    if i == n {
        assert(fixed_bits(steps, w, n).subrange(0, fixed_bits(steps, w, n).len() as int) =~= fixed_bits(steps, w, n));
    } else {
        lemma_fixed_bits_prefix(steps, w, i + 1, n);
        let a = fixed_bits(steps, w, i);
        let b = fixed_bits(steps, w, i + 1);
        assert(b == a + fixed_step_bits(steps[i as int], w));
        assert(fixed_bits(steps, w, n).subrange(0, a.len() as int) =~= b.subrange(0, a.len() as int));
        assert(b.subrange(0, a.len() as int) =~= a);
    }
}

proof fn lemma_fixed_decode_from(steps: Seq<ScheduleStep>, w: nat, all: Seq<bool>, i: nat)
    requires
        i <= steps.len(),
        w <= usize::BITS,
        usize::MAX < p2(usize::BITS as nat),
        forall|k: int| 0 <= k < steps.len() ==> (#[trigger] steps[k] matches ScheduleStep::Task(t) ==> (t.0 as nat) < p2(w)),
        fixed_bits(steps, w, steps.len()).len() <= all.len(),
        all.subrange(0, fixed_bits(steps, w, steps.len()).len() as int) == fixed_bits(steps, w, steps.len()),
    ensures
        fixed_decode_steps(all, w, fixed_bits(steps, w, i).len(), (steps.len() - i) as nat)
            == Some(steps.subrange(i as int, steps.len() as int)),
    decreases steps.len() - i,
{
    let n = steps.len();
    if i == n {
        assert(steps.subrange(i as int, n as int) =~= Seq::<ScheduleStep>::empty());
    } else {
        let x = fixed_bits(steps, w, i);
        let step = steps[i as int];
        let code = fixed_step_bits(step, w);
        assert(fixed_bits(steps, w, i + 1) == x + code);
        lemma_fixed_bits_prefix(steps, w, i + 1, n);
        assert(all.subrange(0, (x + code).len() as int) =~= fixed_bits(steps, w, n).subrange(0, (x + code).len() as int));
        lemma_fixed_decode_from(steps, w, all, i + 1);
        let p = x.len();
        match step {
            ScheduleStep::Random => {
                assert(all[p as int] == (x + code)[p as int]);
            },
            ScheduleStep::Task(t) => {
                lemma_lsb_field(t.0 as nat, w);
                assert(all[p as int] == (x + code)[p as int]);
                assert(all.subrange(p + 1 as int, (p + 1 + w) as int) =~= lsb_field(t.0 as nat, w)) by {
                    assert forall|j: int| 0 <= j < w implies all.subrange(p + 1 as int, (p + 1 + w) as int)[j] == lsb_field(t.0 as nat, w)[j] by {
                        assert(all[p + 1 + j] == (x + code)[p + 1 + j]);
                    }
                }
                assert((t.0 as nat) % p2(w) == t.0) by {
                    vstd::arithmetic::div_mod::lemma_small_mod(t.0 as nat, p2(w));
                }
            },
        }
        assert(steps.subrange(i as int, n as int) =~= seq![step] + steps.subrange((i + 1) as int, n as int));
    }
}

/// Decoding the encoding of a schedule gives the schedule back.
pub proof fn lemma_fixed_roundtrip(steps: Seq<ScheduleStep>, seed: u64)
    requires
        steps.len() <= max_steps_encodable(),
    ensures
        fixed_decode(fixed_encode(steps, seed)) == Some(ScheduleView { seed, steps }),
{
    lemma_usize_bits();
    lemma_fixed_width(steps);
    let n = steps.len();
    let w = fixed_width(steps);
    let b = fixed_bits(steps, w, n);
    lemma_fixed_bits_len(steps, w, n);
    assert(n * (1 + w) <= 65 * n) by (nonlinear_arith)
        requires
            w <= 64,
    ;
    let total = n * (1 + w);
    let all_bits = b + zeros((total - b.len()) as nat);
    let packed = pack_lsb(all_bits);
    let e1 = varint_encode(w);
    let e2 = varint_encode(n);
    let e3 = varint_encode(seed as nat);
    let enc = fixed_encode(steps, seed);
    assert(enc =~= e1 + (e2 + (e3 + packed)));
    lemma_varint_roundtrip(w as u64, e2 + (e3 + packed));
    let h1 = e1.len();
    assert(enc.subrange(h1 as int, enc.len() as int) =~= e2 + (e3 + packed));
    lemma_varint_roundtrip(n as u64, e3 + packed);
    let h2 = e2.len();
    assert(enc.subrange((h1 + h2) as int, enc.len() as int) =~= e3 + packed);
    lemma_varint_roundtrip(seed, packed);
    let h3 = e3.len();
    assert(enc.subrange((h1 + h2 + h3) as int, enc.len() as int) =~= packed);
    lemma_unpack_pack_lsb(all_bits);
    let all = pad8(all_bits);
    assert(all.subrange(0, b.len() as int) =~= b);
    assert(all_bits.len() == total);
    assert(packed.len() <= max_bits() / 8);
    lemma_fixed_decode_from(steps, w, all, 0);
    assert(steps.subrange(0, n as int) =~= steps);
    assert(fixed_bits(steps, w, 0).len() == 0);
}

/// The magic byte of the fixed-width encoding.
pub const MAGIC_FIXED: u8 = 0x91;

/// Appends the low `w` bits of `v`, least significant first.
fn write_field(bits: &mut LsbBits, v: u64, w: usize)
    requires
        w <= 64,
        lsb_bits(*old(bits)).len() + w <= max_bits(),
    ensures
        lsb_bits(*final(bits)) == lsb_bits(*old(bits)) + lsb_field(v as nat, w as nat),
{
    let ghost start = lsb_bits(*bits);
    proof {
        lemma_lsb_field(v as nat, w as nat);
    }
    let mut i: usize = 0;
    while i < w
        invariant
            i <= w <= 64,
            start.len() + w <= max_bits(),
            lsb_field(v as nat, w as nat).len() == w,
            forall|j: int| 0 <= j < w ==> #[trigger] lsb_field(v as nat, w as nat)[j] == ((v as nat / p2(j as nat)) % 2 == 1),
            lsb_bits(*bits) == start + lsb_field(v as nat, w as nat).subrange(0, i as int),
        decreases w - i,
    {
        let b = (v >> (i as u64)) & 1 == 1;
        proof {
            lemma_shift_bit(v, i as u64);
        }
        bits.push(b);
        proof {
            let f = lsb_field(v as nat, w as nat);
            assert(f.subrange(0, i + 1) =~= f.subrange(0, i as int).push(b));
        }
        i = i + 1;
    }
    proof {
        assert(lsb_field(v as nat, w as nat).subrange(0, w as int) =~= lsb_field(v as nat, w as nat));
    }
}

/// Reads the `w <= 64` bits at `pos`, least significant first.
fn read_field(bits: &LsbBits, pos: usize, w: usize) -> (r: u64)
    requires
        w <= 64,
        lsb_bits(*bits).len() <= max_bits(),
        pos + w <= lsb_bits(*bits).len(),
    ensures
        r as nat == lsb_value(lsb_bits(*bits).subrange(pos as int, (pos + w) as int)),
{
    let ghost all = lsb_bits(*bits);
    let mut val: u64 = 0;
    let mut j: usize = 0;
    proof {
        assert(all.subrange(pos as int, pos as int) =~= Seq::<bool>::empty());
        lemma_p2_64();
    }
    while j < w
        invariant
            j <= w <= 64,
            pos + w <= all.len(),
            all.len() <= max_bits(),
            all == lsb_bits(*bits),
            val as nat == lsb_value(all.subrange(pos as int, (pos + j) as int)),
            val < p2(j as nat),
        decreases w - j,
    {
        let b = match bits.get(pos + j) {
            Some(b) => b,
            None => false,
        };
        proof {
            let s = all.subrange(pos as int, (pos + j) as int);
            assert(all.subrange(pos as int, (pos + j + 1) as int) =~= s.push(b));
            lemma_lsb_value_push(s, b);
            lemma_p2_monotone((j + 1) as nat, 64);
            lemma_p2_64();
            lemma_p2_is_pow2(j as nat);
            vstd::bits::lemma_u64_shl_is_mul(1, j as u64);
        }
        if b {
            val = val + (1u64 << (j as u64));
        }
        j = j + 1;
    }
    val
}

/// The largest task id of the steps, zero when there is none.
fn max_task(steps: &Vec<ScheduleStep>) -> (r: usize)
    ensures
        r == max_task_id(steps@),
{
    let mut m: usize = 0;
    let mut i: usize = 0;
    while i < steps.len()
        invariant
            i <= steps@.len(),
            m == max_task_id(steps@.take(i as int)),
        decreases steps@.len() - i,
    {
        proof {
            assert(steps@.take(i + 1).drop_last() =~= steps@.take(i as int));
        }
        match steps[i] {
            ScheduleStep::Task(t) => {
                if t.0 > m {
                    m = t.0;
                }
            },
            ScheduleStep::Random => {},
        }
        i = i + 1;
    }
    proof {
        assert(steps@.take(steps@.len() as int) =~= steps@);
    }
    m
}

/// Encodes a schedule in the fixed-width encoding, starting with the magic byte.
pub fn serialize_fixed_width(schedule: &Schedule) -> (r: Vec<u8>)
    requires
        schedule.steps@.len() <= max_steps_encodable(),
    ensures
        r@ == seq![MAGIC_FIXED] + fixed_encode(schedule.steps@, schedule.seed),
{
    let ghost steps = schedule.steps@;
    let n = schedule.steps.len();
    proof {
        lemma_usize_bits();
        lemma_fixed_width(steps);
    }
    let m = max_task(&schedule.steps);
    let b = bit_length(m as u64);
    let w: usize = if b == 0 {
        1
    } else {
        b
    };
    proof {
        lemma_fixed_bits_len(steps, w as nat, n as nat);
        assert(n * (1 + w) <= 65 * n) by (nonlinear_arith)
            requires
                w <= 64,
        ;
        assert(65 * n <= max_bits());
    }
    let total = n * (1 + w);
    let mut bits = LsbBits::new();
    let mut i: usize = 0;
    while i < n
        invariant
            n == steps.len(),
            steps == schedule.steps@,
            steps.len() <= max_steps_encodable(),
            w == fixed_width(steps),
            1 <= w <= 64,
            total == n * (1 + w),
            total <= max_bits(),
            i <= n,
            lsb_bits(bits) == fixed_bits(steps, w as nat, i as nat),
            forall|k: int| 0 <= k < steps.len() ==> (#[trigger] steps[k] matches ScheduleStep::Task(t) ==> (t.0 as nat) < p2(w as nat)),
        decreases n - i,
    {
        proof {
            lemma_fixed_bits_len(steps, w as nat, i as nat);
            assert(i * (1 + w) + (1 + w) <= total) by (nonlinear_arith)
                requires
                    i < n,
                    total == n * (1 + w),
            ;
        }
        match schedule.steps[i] {
            ScheduleStep::Task(tid) => {
                bits.push(false);
                write_field(&mut bits, tid.0 as u64, w);
                proof {
                    assert(fixed_bits(steps, w as nat, (i + 1) as nat) =~= fixed_bits(steps, w as nat, i as nat).push(false) + lsb_field(tid.0 as nat, w as nat));
                }
            },
            ScheduleStep::Random => {
                bits.push(true);
                proof {
                    assert(fixed_bits(steps, w as nat, (i + 1) as nat) =~= fixed_bits(steps, w as nat, i as nat).push(true));
                }
            },
        }
        i = i + 1;
    }
    let ghost used = lsb_bits(bits);
    proof {
        lemma_fixed_bits_len(steps, w as nat, n as nat);
    }
    let mut k = bits.len();
    while k < total
        invariant
            used.len() <= k <= total,
            total <= max_bits(),
            lsb_bits(bits) == used + zeros((k - used.len()) as nat),
        decreases total - k,
    {
        bits.push(false);
        proof {
            assert(used + zeros((k + 1 - used.len()) as nat) =~= (used + zeros((k - used.len()) as nat)).push(false));
        }
        k = k + 1;
    }
    let mut buf: Vec<u8> = Vec::new();
    buf.push(MAGIC_FIXED);
    write_u64_varint(&mut buf, w as u64);
    write_u64_varint(&mut buf, n as u64);
    write_u64_varint(&mut buf, schedule.seed);
    let mut packed = bits.into_bytes();
    buf.append(&mut packed);
    proof {
        assert(buf@ =~= seq![MAGIC_FIXED] + fixed_encode(steps, schedule.seed));
    }
    buf
}

/// Decodes an encoding produced by `serialize_fixed_width`, without its magic byte.
pub fn deserialize_fixed_width(bytes: &[u8]) -> (r: Option<Schedule>)
    ensures
        match fixed_decode(bytes@) {
            Some(v) => r matches Some(s) && s@ == v,
            None => r is None,
        },
{
    let len = bytes.len();
    proof {
        assert(bytes@.subrange(0, len as int) =~= bytes@);
        lemma_usize_bits();
    }
    let (w64, p1) = match read_u64_varint(bytes, 0) {
        Some(x) => x,
        None => {
            return None;
        },
    };
    let (n64, p2_) = match read_u64_varint(bytes, p1) {
        Some(x) => x,
        None => {
            return None;
        },
    };
    let (seed, p3) = match read_u64_varint(bytes, p2_) {
        Some(x) => x,
        None => {
            return None;
        },
    };
    proof {
        assert(bytes@.subrange(p1 as int, len as int).subrange((p2_ - p1) as int, (len - p1) as int) =~= bytes@.subrange(p2_ as int, len as int));
        assert(bytes@.subrange(p2_ as int, len as int).subrange((p3 - p2_) as int, (len - p2_) as int) =~= bytes@.subrange(p3 as int, len as int));
    }
    if w64 > usize::MAX as u64 || n64 > usize::MAX as u64 || w64 > usize::BITS as u64 || len - p3 > usize::MAX / 64 {
        return None;
    }
    let w = w64 as usize;
    let n = n64 as usize;
    let rest = slice_to_vec(slice_subrange(bytes, p3, len));
    let bits = LsbBits::from_bytes(rest);
    let ghost all = lsb_bits(bits);
    if n > bits.len() {
        return None;
    }
    let mut steps: Vec<ScheduleStep> = Vec::new();
    let mut pos: usize = 0;
    proof {
        assert(all.len() <= max_bits());
        assert(steps@ + Seq::<ScheduleStep>::empty() =~= steps@);
        assert(usize::MAX / 64 == max_bits() / 8);
    }
    while steps.len() < n
        invariant
            fixed_decode(bytes@) == match fixed_decode_steps(all, w as nat, 0, n as nat) {
                Some(st) => Some(ScheduleView { seed, steps: st }),
                None => None::<ScheduleView>,
            },
            all == lsb_bits(bits),
            all.len() <= max_bits(),
            w <= 64,
            pos <= all.len(),
            steps@.len() <= n,
            fixed_decode_steps(all, w as nat, 0, n as nat) == match fixed_decode_steps(all, w as nat, pos as nat, (n - steps@.len()) as nat) {
                Some(tail) => Some(steps@ + tail),
                None => None::<Seq<ScheduleStep>>,
            },
        decreases n - steps@.len(),
    {
        let ghost k = (n - steps@.len()) as nat;
        let ghost s0 = steps@;
        let ghost p0 = pos as nat;
        let flag = match bits.get(pos) {
            Some(b) => b,
            None => {
                return None;
            },
        };
        let step = if flag {
            pos = pos + 1;
            ScheduleStep::Random
        } else {
            let end = pos + 1 + w;
            if end > bits.len() {
                return None;
            }
            let tid = read_field(&bits, pos + 1, w);
            pos = end;
            ScheduleStep::Task(TaskId(tid as usize))
        };
        steps.push(step);
        proof {
            match fixed_decode_steps(all, w as nat, pos as nat, (k - 1) as nat) {
                Some(tail) => {
                    assert(s0 + (seq![step] + tail) =~= steps@ + tail);
                },
                None => {},
            }
        }
    }
    proof {
        assert(steps@ + Seq::<ScheduleStep>::empty() =~= steps@);
    }
    Some(Schedule { seed, steps })
}

/// The encoding takes at most thirty bytes of header and nine bytes per step.
pub proof fn lemma_fixed_encode_len(steps: Seq<ScheduleStep>, seed: u64)
    requires
        steps.len() <= max_steps_encodable(),
    ensures
        fixed_encode(steps, seed).len() <= 30 + 9 * steps.len(),
{
    lemma_usize_bits();
    lemma_fixed_width(steps);
    let n = steps.len();
    let w = fixed_width(steps);
    lemma_fixed_bits_len(steps, w, n);
    crate::varint::lemma_encode_len_bound(w);
    crate::varint::lemma_encode_len_bound(n);
    crate::varint::lemma_encode_len_bound(seed as nat);
    assert(n * (1 + w) <= 65 * n) by (nonlinear_arith)
        requires
            w <= 64,
    ;
}

/// The layout of the fixed-width encoding: the width of the task id fields, the number of steps
/// and the seed, each as a varint, then the packed fields. Reading the three varints back gives
/// the width, the number of steps and the seed.
pub proof fn lemma_fixed_encode_layout(steps: Seq<ScheduleStep>, seed: u64)
    requires
        steps.len() <= usize::MAX,
    ensures
        ({
            let e = fixed_encode(steps, seed);
            let h1 = varint_encode(fixed_width(steps)).len();
            let h2 = varint_encode(steps.len()).len();
            &&& varint_decode(e) == Some((fixed_width(steps), h1))
            &&& varint_decode(e.subrange(h1 as int, e.len() as int)) == Some((steps.len(), h2))
            &&& varint_decode(e.subrange((h1 + h2) as int, e.len() as int)) == Some((seed as nat, varint_encode(seed as nat).len()))
        }),
{
    lemma_usize_bits();
    lemma_fixed_width(steps);
    let w = fixed_width(steps);
    let n = steps.len();
    let b = fixed_bits(steps, w, n);
    let packed = pack_lsb(b + zeros((n * (1 + w) - b.len()) as nat));
    let e1 = varint_encode(w);
    let e2 = varint_encode(n);
    let e3 = varint_encode(seed as nat);
    let e = fixed_encode(steps, seed);
    assert(e =~= e1 + (e2 + (e3 + packed)));
    lemma_varint_roundtrip(w as u64, e2 + (e3 + packed));
    assert(e.subrange(e1.len() as int, e.len() as int) =~= e2 + (e3 + packed));
    lemma_varint_roundtrip(n as u64, e3 + packed);
    assert(e.subrange((e1.len() + e2.len()) as int, e.len() as int) =~= e3 + packed);
    lemma_varint_roundtrip(seed, packed);
}

/// A decoded schedule's seed is the value of the third varint, after the width and the number
/// of steps, and its steps are as many as the second varint says.
pub proof fn lemma_fixed_decoded_seed(bytes: Seq<u8>)
    ensures
        fixed_decode(bytes) matches Some(v) ==> (varint_decode(bytes) matches Some((w, h1))
            && varint_decode(bytes.subrange(h1 as int, bytes.len() as int)) matches Some((n, h2))
            && varint_decode(bytes.subrange((h1 + h2) as int, bytes.len() as int)) matches Some((x, h3))
            && v.seed == x as u64 && v.steps.len() == n),
{
    if let Some(v) = fixed_decode(bytes) {
        let (w, h1) = varint_decode(bytes)->0;
        let (n, h2) = varint_decode(bytes.subrange(h1 as int, bytes.len() as int))->0;
        let rest = bytes.subrange((h1 + h2) as int, bytes.len() as int);
        let (x, h3) = varint_decode(rest)->0;
        let r = bytes.subrange((h1 + h2 + h3) as int, bytes.len() as int);
        lemma_fixed_decode_steps_len(bytes_bits_lsb(r), w, 0, n);
    }
}

proof fn lemma_fixed_decode_steps_len(bits: Seq<bool>, w: nat, pos: nat, remaining: nat)
    ensures
        fixed_decode_steps(bits, w, pos, remaining) matches Some(s) ==> s.len() == remaining,
    decreases remaining,
{
    if remaining > 0 && pos < bits.len() {
        if bits[pos as int] {
            lemma_fixed_decode_steps_len(bits, w, pos + 1, (remaining - 1) as nat);
        } else if pos + 1 + w <= bits.len() {
            lemma_fixed_decode_steps_len(bits, w, pos + 1 + w, (remaining - 1) as nat);
        }
    }
}

} // verus!
