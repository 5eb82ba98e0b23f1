//! Codes on bit streams: fixed-width fields, Elias delta codes, and the flat code words of the
//! move-to-front schedule encoding, with readers and writers over `LsbBits`.
use vstd::prelude::*;
use crate::bits::{p2, lemma_p2_64, lemma_p2_pos, lemma_p2_monotone, lemma_p2_is_pow2, nat_bits, bits_nat, zeros, lemma_nat_bits_len, lemma_bits_nat_bound, lemma_bits_nat_of_nat_bits, lemma_nat_bits_index, lemma_nat_bits_split, lemma_shift_bit, LsbBits, lsb_bits, max_bits};

verus! {

/// Number of bits in the binary representation of `n` (zero for zero).
pub open spec fn bitlen(n: nat) -> nat
    decreases n,
{
    if n == 0 {
        0
    } else {
        1 + bitlen(n / 2)
    }
}

pub proof fn lemma_bitlen_bounds(n: nat)
    requires
        n >= 1,
    ensures
        bitlen(n) >= 1,
        p2((bitlen(n) - 1) as nat) <= n < p2(bitlen(n)),
    decreases n,
{
    if n == 1 {
        assert(bitlen(0) == 0);
        assert(p2(0) == 1 && p2(1) == 2) by {
            reveal_with_fuel(p2, 2);
        }
    } else {
        lemma_bitlen_bounds(n / 2);
        let b = bitlen(n / 2);
        assert(p2(b) == 2 * p2((b - 1) as nat));
        assert(p2(b + 1) == 2 * p2(b));
    }
}

pub proof fn lemma_bitlen_monotone(a: nat, b: nat)
    requires
        a <= b,
    ensures
        bitlen(a) <= bitlen(b),
    decreases b,
{
    if a > 0 {
        lemma_bitlen_monotone(a / 2, b / 2);
    }
}

pub proof fn lemma_bitlen_below(n: nat, k: nat)
    requires
        n < p2(k),
    ensures
        bitlen(n) <= k,
    decreases k,
{
    if n > 0 {
        assert(k > 0) by {
            if k == 0 {
                assert(p2(0) == 1);
            }
        }
        assert(n / 2 < p2((k - 1) as nat));
        lemma_bitlen_below(n / 2, (k - 1) as nat);
    }
}

/// The Elias delta code of `n >= 1`: the Elias gamma code of the bit length of `n`, then the bits
/// of `n` below its leading one.
pub open spec fn elias(n: nat) -> Seq<bool> {
    let l = (bitlen(n) - 1) as nat;
    let m = l + 1;
    let mw = bitlen(m);
    zeros((mw - 1) as nat) + nat_bits(m, mw) + nat_bits(n, l)
}

/// Width of the flat code word field.
pub open spec fn code_width() -> nat {
    4
}

/// The bits of code word `v`: four bits, with the all-ones value escaping to an Elias delta code
/// of the remainder.
pub open spec fn code_bits(v: nat) -> Seq<bool> {
    if v < 15 {
        nat_bits(v, 4)
    } else {
        nat_bits(15, 4) + elias((v - 14) as nat)
    }
}

/// Reading `w` bits at `pos`, most significant first.
pub open spec fn read_bits_at(bits: Seq<bool>, pos: nat, w: nat) -> Option<nat> {
    if pos + w <= bits.len() {
        Some(bits_nat(bits.subrange(pos as int, (pos + w) as int)))
    } else {
        None
    }
}

/// Number of consecutive unset bits starting at `pos`.
pub open spec fn zero_run(bits: Seq<bool>, pos: nat) -> nat
    decreases bits.len() - pos,
{
    if pos < bits.len() && !bits[pos as int] {
        1 + zero_run(bits, pos + 1)
    } else {
        0
    }
}

/// Reading an Elias delta code at `pos`: its value and the position after it.
#[verifier::opaque]
pub open spec fn read_elias_at(bits: Seq<bool>, pos: nat) -> Option<(nat, nat)> {
    let z = zero_run(bits, pos);
    if z >= 64 || pos + z >= bits.len() {
        None
    } else {
        match read_bits_at(bits, pos + z + 1, z) {
            None => None,
            Some(low) => {
                let m = p2(z) + low;
                let l = (m - 1) as nat;
                if l >= 64 {
                    None
                } else {
                    match read_bits_at(bits, pos + z + 1 + z, l) {
                        None => None,
                        Some(x) => Some((p2(l) + x, pos + z + 1 + z + l)),
                    }
                }
            },
        }
    }
}

/// Reading a code word at `pos`: its value and the position after it.
#[verifier::opaque]
pub open spec fn read_code_at(bits: Seq<bool>, pos: nat) -> Option<(nat, nat)> {
    match read_bits_at(bits, pos, 4) {
        None => None,
        Some(v) => if v < 15 {
            Some((v, pos + 4))
        } else {
            match read_elias_at(bits, pos + 4) {
                None => None,
                Some((e, p)) => if e + 14 < 0x1_0000_0000_0000_0000 {
                    Some((e + 14, p))
                } else {
                    None
                },
            }
        },
    }
}

pub proof fn lemma_read_bits_framed(x: Seq<bool>, v: nat, w: nat, y: Seq<bool>)
    ensures
        read_bits_at(x + nat_bits(v, w) + y, x.len(), w) == Some(v % p2(w)),
{
    lemma_nat_bits_len(v, w);
    let all = x + nat_bits(v, w) + y;
    assert(all.subrange(x.len() as int, (x.len() + w) as int) =~= nat_bits(v, w));
    lemma_bits_nat_of_nat_bits(v, w);
}

proof fn lemma_zero_run_exact(bits: Seq<bool>, pos: nat, k: nat)
    requires
        pos + k < bits.len(),
        forall|i: int| pos <= i < pos + k ==> !bits[i],
        bits[(pos + k) as int],
    ensures
        zero_run(bits, pos) == k,
    decreases k,
{
    if k > 0 {
        lemma_zero_run_exact(bits, pos + 1, (k - 1) as nat);
    }
}

pub proof fn lemma_elias_len(n: nat)
    requires
        1 <= n < 0x1_0000_0000_0000_0000,
    ensures
        elias(n).len() == (bitlen(bitlen(n)) - 1) + bitlen(bitlen(n)) + (bitlen(n) - 1),
        bitlen(n) <= 64,
        1 <= bitlen(bitlen(n)) <= 7,
        elias(n).len() <= 76,
{
    lemma_p2_64();
    lemma_bitlen_bounds(n);
    lemma_bitlen_below(n, 64);
    let l = (bitlen(n) - 1) as nat;
    let m = l + 1;
    lemma_bitlen_bounds(m);
    assert(m < p2(7)) by {
        lemma_p2_64();
    }
    lemma_bitlen_below(m, 7);
    lemma_nat_bits_len(m, bitlen(m));
    lemma_nat_bits_len(n, l);
}

/// An Elias delta code is read back as the value it codes, whatever surrounds it.
pub proof fn lemma_read_elias_framed(x: Seq<bool>, n: nat, y: Seq<bool>)
    requires
        1 <= n < 0x1_0000_0000_0000_0000,
    ensures
        read_elias_at(x + elias(n) + y, x.len()) == Some((n, x.len() + elias(n).len())),
{
    lemma_elias_len(n);
    lemma_p2_64();
    lemma_bitlen_bounds(n);
    let l = (bitlen(n) - 1) as nat;
    let m = l + 1;
    let mw = bitlen(m);
    lemma_bitlen_bounds(m);
    let z = (mw - 1) as nat;
    let zs = zeros(z);
    let mb = nat_bits(m, mw);
    let nb = nat_bits(n, l);
    lemma_nat_bits_len(m, mw);
    lemma_nat_bits_len(n, l);
    let all = x + elias(n) + y;
    assert(elias(n) == zs + mb + nb);
    assert(all == x + zs + mb + nb + y) by {
        assert(x + (zs + mb + nb) + y =~= x + zs + mb + nb + y);
    }
    // the leading bit of the bits of `m` is one
    assert(mb == nat_bits(m / p2(z), 1) + nat_bits(m, z)) by {
        lemma_nat_bits_split(m, 1, z);
    }
    lemma_p2_pos(z);
    assert(m / p2(z) == 1) by {
        assert(p2(mw) == 2 * p2(z));
        if m / p2(z) >= 2 {
            vstd::arithmetic::div_mod::lemma_fundamental_div_mod(m as int, p2(z) as int);
            assert(m >= 2 * p2(z)) by (nonlinear_arith)
                requires
                    m == p2(z) * (m / p2(z)) + m % p2(z),
                    m / p2(z) >= 2,
                    m % p2(z) >= 0,
                    p2(z) >= 1,
            ;
        }
        if m / p2(z) == 0 {
            vstd::arithmetic::div_mod::lemma_fundamental_div_mod(m as int, p2(z) as int);
            assert(m < p2(z));
        }
    }
    assert(nat_bits(1, 1) == seq![true]) by {
        assert(nat_bits(0, 0) == Seq::<bool>::empty());
    }
    let p0 = x.len();
    assert(all[(p0 + z) as int] == true) by {
        assert(all == x + zs + seq![true] + nat_bits(m, z) + nb + y) by {
            assert(x + zs + mb + nb + y =~= x + zs + seq![true] + nat_bits(m, z) + nb + y);
        }
    }
    assert forall|i: int| p0 <= i < p0 + z implies !all[i] by {
        assert(all[i] == zs[i - p0]);
    }
    lemma_zero_run_exact(all, p0, z);
    assert(z < 64);
    assert(p0 + z < all.len());
    // the low bits of `m`
    lemma_nat_bits_len(m, z);
    lemma_read_bits_framed(x + zs + seq![true], m, z, nb + y);
    assert(x + zs + seq![true] + nat_bits(m, z) + (nb + y) =~= all) by {
        assert(all =~= x + zs + seq![true] + nat_bits(m, z) + nb + y);
    }
    assert(read_bits_at(all, p0 + z + 1, z) == Some(m % p2(z)));
    assert(p2(z) + m % p2(z) == m) by {
        vstd::arithmetic::div_mod::lemma_fundamental_div_mod(m as int, p2(z) as int);
        assert(p2(z) * (m / p2(z)) == p2(z));
    }
    assert(l < 64);
    // the low bits of `n`
    lemma_read_bits_framed(x + zs + mb, n, l, y);
    assert(read_bits_at(all, p0 + z + 1 + z, l) == Some(n % p2(l)));
    assert(p2(l) + n % p2(l) == n) by {
        assert(p2(l + 1) == 2 * p2(l));
        vstd::arithmetic::div_mod::lemma_fundamental_div_mod(n as int, p2(l) as int);
        if n / p2(l) >= 2 {
            assert(n >= 2 * p2(l)) by (nonlinear_arith)
                requires
                    n == p2(l) * (n / p2(l)) + n % p2(l),
                    n / p2(l) >= 2,
                    n % p2(l) >= 0,
                    p2(l) >= 1,
            ;
        }
        if n / p2(l) == 0 {
            assert(n < p2(l));
        }
        assert(n / p2(l) == 1);
    }
    reveal(read_elias_at);
}

/// A code word is read back as its value, whatever surrounds it.
pub proof fn lemma_read_code_framed(x: Seq<bool>, v: nat, y: Seq<bool>)
    requires
        v < 0x1_0000_0000_0000_0000,
    ensures
        read_code_at(x + code_bits(v) + y, x.len()) == Some((v, x.len() + code_bits(v).len())),
{
    reveal(read_code_at);
    lemma_p2_64();
    if v < 15 {
        lemma_read_bits_framed(x, v, 4, y);
        lemma_nat_bits_len(v, 4);
    } else {
        let e = (v - 14) as nat;
        lemma_nat_bits_len(15, 4);
        lemma_read_bits_framed(x, 15, 4, elias(e) + y);
        assert(x + nat_bits(15, 4) + (elias(e) + y) =~= x + code_bits(v) + y);
        lemma_read_elias_framed(x + nat_bits(15, 4), e, y);
        assert(x + nat_bits(15, 4) + elias(e) + y =~= x + code_bits(v) + y);
    }
}

pub proof fn lemma_code_bits_len(v: nat)
    requires
        v < 0x1_0000_0000_0000_0000,
    ensures
        4 <= code_bits(v).len() <= 80,
{
    lemma_nat_bits_len(v, 4);
    lemma_nat_bits_len(15, 4);
    if v >= 15 {
        lemma_elias_len((v - 14) as nat);
    }
}

/// Appends the low `width` bits of `val`, most significant first.
pub fn write_bits(bits: &mut LsbBits, val: u64, width: usize)
    requires
        width <= 64,
        lsb_bits(*old(bits)).len() + width <= max_bits(),
    ensures
        lsb_bits(*final(bits)) == lsb_bits(*old(bits)) + nat_bits(val as nat, width as nat),
{
    let ghost start = lsb_bits(*bits);
    proof {
        lemma_nat_bits_len(val as nat, width as nat);
    }
    let mut i: usize = width;
    while i > 0
        invariant
            i <= width <= 64,
            start.len() + width <= max_bits(),
            nat_bits(val as nat, width as nat).len() == width,
            lsb_bits(*bits) == start + nat_bits(val as nat, width as nat).subrange(0, (width - i) as int),
        decreases i,
    {
        let s = (i - 1) as u64;
        let b = (val >> s) & 1 == 1;
        proof {
            lemma_shift_bit(val, s);
            lemma_nat_bits_index(val as nat, width as nat, (width - i) as int);
            assert((width - 1 - (width - i)) as nat == s as nat);
        }
        bits.push(b);
        i = i - 1;
        proof {
            let nb = nat_bits(val as nat, width as nat);
            assert(nb.subrange(0, (width - i) as int) =~= nb.subrange(0, (width - i - 1) as int).push(b));
        }
    }
    proof {
        assert(nat_bits(val as nat, width as nat).subrange(0, width as int) =~= nat_bits(val as nat, width as nat));
    }
}

/// The number of bits of `n` (zero for zero).
pub(crate) fn bit_length(n: u64) -> (r: usize)
    ensures
        r == bitlen(n as nat),
        r <= 64,
{
    proof {
        lemma_p2_64();
        lemma_bitlen_below(n as nat, 64);
    }
    let mut v = n;
    let mut r: usize = 0;
    while v > 0
        invariant
            bitlen(n as nat) == r + bitlen(v as nat),
            bitlen(n as nat) <= 64,
        decreases v,
    {
        v = v / 2;
        r = r + 1;
    }
    r
}

proof fn lemma_nat_bits_zero(w: nat)
    ensures
        nat_bits(0, w) == zeros(w),
    decreases w,
{
    if w > 0 {
        lemma_nat_bits_zero((w - 1) as nat);
        assert(zeros((w - 1) as nat).push(false) =~= zeros(w));
    }
}

/// Appends the Elias delta code of `n >= 1`.
pub fn write_elias_delta(bits: &mut LsbBits, n: u64)
    requires
        n >= 1,
        lsb_bits(*old(bits)).len() + 76 <= max_bits(),
    ensures
        lsb_bits(*final(bits)) == lsb_bits(*old(bits)) + elias(n as nat),
{
    proof {
        lemma_elias_len(n as nat);
        lemma_bitlen_bounds(n as nat);
    }
    let l = bit_length(n) - 1;
    let m = (l + 1) as u64;
    let m_width = bit_length(m);
    proof {
        lemma_bitlen_bounds(m as nat);
        lemma_nat_bits_zero((m_width - 1) as nat);
        lemma_nat_bits_len(0, (m_width - 1) as nat);
        lemma_nat_bits_len(m as nat, m_width as nat);
        lemma_nat_bits_len(n as nat, l as nat);
    }
    write_bits(bits, 0, m_width - 1);
    write_bits(bits, m, m_width);
    write_bits(bits, n, l);
    proof {
        let zs = zeros((m_width - 1) as nat);
        assert(elias(n as nat) == zs + nat_bits(m as nat, m_width as nat) + nat_bits(n as nat, l as nat));
    }
}

/// Appends code word `v`.
pub fn write_code(bits: &mut LsbBits, v: u64)
    requires
        lsb_bits(*old(bits)).len() + 80 <= max_bits(),
    ensures
        lsb_bits(*final(bits)) == lsb_bits(*old(bits)) + code_bits(v as nat),
{
    if v < 15 {
        write_bits(bits, v, 4);
    } else {
        write_bits(bits, 15, 4);
        proof {
            lemma_nat_bits_len(15, 4);
        }
        write_elias_delta(bits, v - 14);
        proof {
            assert(lsb_bits(*old(bits)) + nat_bits(15, 4) + elias((v - 14) as nat) =~= lsb_bits(*old(bits)) + code_bits(v as nat));
        }
    }
}

/// Reads `width <= 64` bits at `*pos`, most significant first, advancing `*pos`.
pub fn read_bits(bits: &LsbBits, pos: &mut usize, width: usize) -> (r: Option<u64>)
    requires
        width <= 64,
        *old(pos) <= lsb_bits(*bits).len(),
    ensures
        r == match read_bits_at(lsb_bits(*bits), *old(pos) as nat, width as nat) {
            Some(v) => Some(v as u64),
            None => None::<u64>,
        },
        r is Some ==> *final(pos) == *old(pos) + width,
        *final(pos) <= lsb_bits(*bits).len(),
        r matches Some(v) ==> v < p2(width as nat) && read_bits_at(
            lsb_bits(*bits),
            *old(pos) as nat,
            width as nat,
        ) == Some(v as nat),
{
    let ghost all = lsb_bits(*bits);
    let ghost p0 = *pos as nat;
    let len = bits.len();
    if width > len - *pos {
        return None;
    }
    let mut val: u64 = 0;
    let mut i: usize = 0;
    proof {
        lemma_p2_64();
        lemma_p2_monotone(width as nat, 64);
        assert(all.subrange(p0 as int, p0 as int) =~= Seq::<bool>::empty());
    }
    while i < width
        invariant
            len == all.len(),
            all == lsb_bits(*bits),
            p0 + width <= len,
            *pos == p0 + i,
            i <= width <= 64,
            val == bits_nat(all.subrange(p0 as int, (p0 + i) as int)),
            p2(width as nat) <= 0x1_0000_0000_0000_0000,
        decreases width - i,
    {
        let b = bits.get(*pos);
        let bit = match b {
            Some(x) => x,
            None => false,
        };
        proof {
            lemma_bits_nat_bound(all.subrange(p0 as int, (p0 + i) as int));
            lemma_p2_monotone((i + 1) as nat, width as nat);
            assert(p2((i + 1) as nat) == 2 * p2(i as nat));
            let next = all.subrange(p0 as int, (p0 + i + 1) as int);
            assert(next.drop_last() =~= all.subrange(p0 as int, (p0 + i) as int));
            assert(next.last() == bit);
        }
        val = val * 2 + if bit { 1 } else { 0 };
        *pos = *pos + 1;
        i = i + 1;
    }
    proof {
        lemma_bits_nat_bound(all.subrange(p0 as int, (p0 + width) as int));
    }
    Some(val)
}

/// Reads one bit at `*pos`, advancing `*pos`.
pub fn read_bit(bits: &LsbBits, pos: &mut usize) -> (r: Option<bool>)
    requires
        *old(pos) <= lsb_bits(*bits).len(),
    ensures
        r == if *old(pos) < lsb_bits(*bits).len() {
            Some(lsb_bits(*bits)[*old(pos) as int])
        } else {
            None::<bool>
        },
        r is Some ==> *final(pos) == *old(pos) + 1,
        *final(pos) <= lsb_bits(*bits).len(),
{
    let len = bits.len();
    if *pos < len {
        let b = bits.get(*pos);
        *pos = *pos + 1;
        b
    } else {
        None
    }
}

proof fn lemma_zero_run_step(bits: Seq<bool>, pos: nat)
    requires
        pos < bits.len(),
        !bits[pos as int],
    ensures
        zero_run(bits, pos) == 1 + zero_run(bits, pos + 1),
{
}

/// Reads an Elias delta code at `*pos`, advancing `*pos`.
pub fn read_elias_delta(bits: &LsbBits, pos: &mut usize) -> (r: Option<u64>)
    requires
        *old(pos) <= lsb_bits(*bits).len(),
    ensures
        r == match read_elias_at(lsb_bits(*bits), *old(pos) as nat) {
            Some((v, p)) => Some(v as u64),
            None => None::<u64>,
        },
        r is Some ==> read_elias_at(lsb_bits(*bits), *old(pos) as nat) == Some(
            (r->0 as nat, *final(pos) as nat),
        ),
        *final(pos) <= lsb_bits(*bits).len(),
{
    let ghost all = lsb_bits(*bits);
    let ghost p0 = *pos as nat;
    let mut zeros: usize = 0;
    loop
        invariant_except_break
            p0 == *old(pos) as nat,
            *pos == p0 + zeros,
            zero_run(all, p0) == zeros + zero_run(all, *pos as nat),
        invariant
            p0 == *old(pos) as nat,
            all == lsb_bits(*bits),
            *pos <= all.len(),
            zeros < 64,
        ensures
            *pos <= all.len(),
            zeros < 64,
            *pos == p0 + zeros + 1,
            zero_run(all, p0) == zeros,
            p0 + zeros < all.len(),
        decreases all.len() - *pos,
    {
        let ghost here = *pos as nat;
        let b = read_bit(bits, pos);
        match b {
            None => {
                proof {
                    assert(zero_run(all, here) == 0);
                    reveal(read_elias_at);
                    assert(read_elias_at(all, p0) is None);
                }
                return None;
            },
            Some(true) => {
                proof {
                    assert(zero_run(all, here) == 0);
                }
                break;
            },
            Some(false) => {
                proof {
                    lemma_zero_run_step(all, here);
                }
                zeros = zeros + 1;
                if zeros >= 64 {
                    proof {
                        assert(zero_run(all, p0) >= 64);
                        reveal(read_elias_at);
                        assert(read_elias_at(all, p0) is None);
                    }
                    return None;
                }
            },
        }
    }
    let ghost q0 = *pos as nat;
    let low = match read_bits(bits, pos, zeros) {
        Some(v) => v,
        None => {
            proof {
                reveal(read_elias_at);
                assert(read_elias_at(all, p0) is None);
            }
            return None;
        },
    };
    proof {
        lemma_p2_64();
        lemma_p2_monotone(zeros as nat, 63);
        lemma_p2_is_pow2(zeros as nat);
        vstd::bits::lemma_u64_shl_is_mul(1, zeros as u64);
    }
    let m: u64 = (1u64 << (zeros as u64)) + low;
    proof {
        assert(m as nat == p2(zeros as nat) + low as nat);
    }
    let l = m - 1;
    if l >= 64 {
        proof {
            reveal(read_elias_at);
            assert(read_elias_at(all, p0) is None);
        }
        return None;
    }
    let ghost q1 = *pos as nat;
    let x = match read_bits(bits, pos, l as usize) {
        Some(v) => v,
        None => {
            proof {
                reveal(read_elias_at);
                assert(read_elias_at(all, p0) is None);
            }
            return None;
        },
    };
    proof {
        lemma_p2_monotone(l as nat, 63);
        lemma_p2_is_pow2(l as nat);
        vstd::bits::lemma_u64_shl_is_mul(1, l);
    }
    let r = (1u64 << l) + x;
    proof {
        let z = zeros as nat;
        assert(zero_run(all, p0) == z);
        assert(read_bits_at(all, p0 + z + 1, z) == Some(low as nat));
        assert(p2(z) + low as nat == m as nat);
        assert(read_bits_at(all, p0 + z + 1 + z, l as nat) == Some(x as nat));
        assert(r as nat == p2(l as nat) + x as nat);
        assert(*pos as nat == p0 + z + 1 + z + l as nat);
        reveal(read_elias_at);
        assert(read_elias_at(all, p0) == Some((r as nat, *pos as nat)));
    }
    Some(r)
}

/// Reads a code word at `*pos`, advancing `*pos`.
pub fn read_code(bits: &LsbBits, pos: &mut usize) -> (r: Option<u64>)
    requires
        *old(pos) <= lsb_bits(*bits).len(),
    ensures
        r == match read_code_at(lsb_bits(*bits), *old(pos) as nat) {
            Some((v, p)) => Some(v as u64),
            None => None::<u64>,
        },
        r is Some ==> read_code_at(lsb_bits(*bits), *old(pos) as nat) == Some(
            (r->0 as nat, *final(pos) as nat),
        ),
        *final(pos) <= lsb_bits(*bits).len(),
{
    let ghost all = lsb_bits(*bits);
    let ghost p0 = *pos as nat;
    let v = match read_bits(bits, pos, 4) {
        Some(v) => v,
        None => {
            proof {
                reveal(read_code_at);
                assert(read_code_at(all, p0) is None);
            }
            return None;
        },
    };
    if v < 15 {
        proof {
            reveal(read_code_at);
            assert(read_code_at(all, p0) == Some((v as nat, *pos as nat)));
        }
        Some(v)
    } else {
        let e = match read_elias_delta(bits, pos) {
            Some(e) => e,
            None => {
                proof {
                    reveal(read_code_at);
                    assert(read_code_at(all, p0) is None);
                }
                return None;
            },
        };
        if e <= u64::MAX - 14 {
            proof {
                reveal(read_code_at);
                assert(read_code_at(all, p0) == Some(((e + 14) as nat, *pos as nat)));
            }
            Some(e + 14)
        } else {
            proof {
                reveal(read_code_at);
                assert(read_code_at(all, p0) is None);
            }
            None
        }
    }
}

} // verus!
