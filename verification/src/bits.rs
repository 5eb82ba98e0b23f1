//! Bit sequences: packing them into bytes (through the `bitvec` crate), and reading and writing
//! unsigned values as runs of bits.
use vstd::prelude::*;
use vstd::arithmetic::power2::{pow2, lemma_pow2_unfold, lemma_pow2_pos};
use bitvec::prelude::{BitVec, Lsb0, Msb0};

verus! {

/// `2` raised to the power `n`.
pub open spec fn p2(n: nat) -> nat
    decreases n,
{
    if n == 0 {
        1
    } else {
        2 * p2((n - 1) as nat)
    }
}

pub proof fn lemma_p2_pos(n: nat)
    ensures
        p2(n) >= 1,
    decreases n,
{
    if n > 0 {
        lemma_p2_pos((n - 1) as nat);
    }
}

pub proof fn lemma_p2_is_pow2(n: nat)
    ensures
        p2(n) == pow2(n),
    decreases n,
{
    if n == 0 {
        vstd::arithmetic::power2::lemma2_to64();
    } else {
        lemma_p2_is_pow2((n - 1) as nat);
        lemma_pow2_unfold(n);
    }
}

pub proof fn lemma_p2_adds(a: nat, b: nat)
    ensures
        p2(a + b) == p2(a) * p2(b),
    decreases a,
{
    if a == 0 {
        assert(p2(0) == 1);
    } else {
        lemma_p2_adds((a - 1) as nat, b);
        assert(p2(a + b) == 2 * p2((a - 1 + b) as nat));
        assert(2 * (p2((a - 1) as nat) * p2(b)) == (2 * p2((a - 1) as nat)) * p2(b))
            by (nonlinear_arith);
    }
}

pub proof fn lemma_p2_monotone(a: nat, b: nat)
    requires
        a <= b,
    ensures
        p2(a) <= p2(b),
    decreases b,
{
    if a < b {
        lemma_p2_monotone(a, (b - 1) as nat);
        lemma_p2_pos((b - 1) as nat);
    }
}

pub proof fn lemma_p2_64()
    ensures
        p2(64) == 0x1_0000_0000_0000_0000,
        p2(63) == 0x8000_0000_0000_0000,
        p2(32) == 0x1_0000_0000,
        p2(8) == 256,
        p2(7) == 128,
        p2(4) == 16,
        p2(14) == 16384,
{
    reveal_with_fuel(p2, 65);
}

/// The low `w` bits of `v`, most significant first.
pub open spec fn nat_bits(v: nat, w: nat) -> Seq<bool>
    decreases w,
{
    if w == 0 {
        Seq::<bool>::empty()
    } else {
        nat_bits(v / 2, (w - 1) as nat).push(v % 2 == 1)
    }
}

/// The value of a run of bits read most significant first.
pub open spec fn bits_nat(s: Seq<bool>) -> nat
    decreases s.len(),
{
    if s.len() == 0 {
        0
    } else {
        2 * bits_nat(s.drop_last()) + if s.last() {
            1nat
        } else {
            0nat
        }
    }
}

/// `n` copies of `false`.
pub open spec fn zeros(n: nat) -> Seq<bool> {
    Seq::new(n, |i: int| false)
}

pub proof fn lemma_nat_bits_len(v: nat, w: nat)
    ensures
        nat_bits(v, w).len() == w,
    decreases w,
{
    if w > 0 {
        lemma_nat_bits_len(v / 2, (w - 1) as nat);
    }
}

pub proof fn lemma_bits_nat_bound(s: Seq<bool>)
    ensures
        bits_nat(s) < p2(s.len()),
    decreases s.len(),
{
    if s.len() > 0 {
        lemma_bits_nat_bound(s.drop_last());
    }
}

/// Reading back the low `w` bits of `v` gives `v` modulo `2^w`.
pub proof fn lemma_bits_nat_of_nat_bits(v: nat, w: nat)
    ensures
        bits_nat(nat_bits(v, w)) == v % p2(w),
    decreases w,
{
    if w > 0 {
        lemma_bits_nat_of_nat_bits(v / 2, (w - 1) as nat);
        let s = nat_bits(v, w);
        assert(s.drop_last() == nat_bits(v / 2, (w - 1) as nat));
        lemma_p2_pos((w - 1) as nat);
        let q = p2((w - 1) as nat);
        assert(2 * ((v / 2) % q) + v % 2 == v % (2 * q)) by {
            vstd::arithmetic::div_mod::lemma_mod_breakdown(v as int, 2, q as int);
        }
    }
}

/// The bits of the value of a bit run are the run itself.
pub proof fn lemma_nat_bits_of_bits_nat(s: Seq<bool>)
    ensures
        nat_bits(bits_nat(s), s.len()) == s,
    decreases s.len(),
{
    if s.len() > 0 {
        let t = s.drop_last();
        lemma_nat_bits_of_bits_nat(t);
        let v = bits_nat(s);
        let b: nat = if s.last() {
            1
        } else {
            0
        };
        assert(v / 2 == bits_nat(t));
        assert(v % 2 == b);
        assert(nat_bits(v, s.len()) == nat_bits(bits_nat(t), t.len()).push(s.last()));
        assert(t.push(s.last()) == s);
    }
}

/// Element `k` of the low `w` bits of `v` is bit `w - 1 - k` of `v`.
pub proof fn lemma_nat_bits_index(v: nat, w: nat, k: int)
    requires
        0 <= k < w,
    ensures
        nat_bits(v, w)[k] == ((v / p2((w - 1 - k) as nat)) % 2 == 1),
    decreases w,
{
    lemma_nat_bits_len(v, w);
    lemma_nat_bits_len(v / 2, (w - 1) as nat);
    let s = nat_bits(v, w);
    assert(s == nat_bits(v / 2, (w - 1) as nat).push(v % 2 == 1));
    if k == w - 1 {
        assert(p2(0) == 1);
        assert(v / 1 == v);
        assert(s[k] == (v % 2 == 1));
    } else {
        assert(s[k] == nat_bits(v / 2, (w - 1) as nat)[k]);
        lemma_nat_bits_index(v / 2, (w - 1) as nat, k);
        let e = (w - 2 - k) as nat;
        lemma_p2_pos(e);
        assert((v / 2) / p2(e) == v / (2 * p2(e))) by {
            vstd::arithmetic::div_mod::lemma_div_denominator(v as int, 2, p2(e) as int);
        }
        assert(p2((w - 1 - k) as nat) == 2 * p2(e));
    }
}

/// Splitting the bits of `v`: the high `a` bits then the low `b` bits.
pub proof fn lemma_nat_bits_split(v: nat, a: nat, b: nat)
    ensures
        nat_bits(v, a + b) == nat_bits(v / p2(b), a) + nat_bits(v, b),
    decreases b,
{
    if b == 0 {
        assert(p2(0) == 1);
        assert(nat_bits(v, 0) == Seq::<bool>::empty());
        assert(nat_bits(v, a) + Seq::<bool>::empty() == nat_bits(v, a));
    } else {
        lemma_nat_bits_split(v / 2, a, (b - 1) as nat);
        lemma_p2_pos((b - 1) as nat);
        assert((v / 2) / p2((b - 1) as nat) == v / p2(b)) by {
            vstd::arithmetic::div_mod::lemma_div_denominator(v as int, 2, p2((b - 1) as nat) as int);
        }
        assert(nat_bits(v, a + b) == nat_bits(v / 2, (a + b - 1) as nat).push(v % 2 == 1));
        assert((a + b - 1) as nat == a + (b - 1) as nat);
        assert(nat_bits(v, b) == nat_bits(v / 2, (b - 1) as nat).push(v % 2 == 1));
        let x = nat_bits(v / p2(b), a);
        let y = nat_bits(v / 2, (b - 1) as nat);
        assert((x + y).push(v % 2 == 1) == x + y.push(v % 2 == 1));
    }
}

/// The bits of a byte in least-significant-first order.
pub open spec fn byte_bit(b: u8, j: int) -> bool {
    (b as nat / p2(j as nat)) % 2 == 1
}

/// Bytes viewed as bits, each byte least significant bit first.
pub open spec fn bytes_bits_lsb(bytes: Seq<u8>) -> Seq<bool> {
    Seq::new(8 * bytes.len(), |i: int| byte_bit(bytes[i / 8], i % 8))
}

/// Bytes viewed as bits, each byte most significant bit first.
pub open spec fn bytes_bits_msb(bytes: Seq<u8>) -> Seq<bool> {
    Seq::new(8 * bytes.len(), |i: int| byte_bit(bytes[i / 8], 7 - i % 8))
}

/// `bits` followed by unset bits up to a whole number of bytes.
pub open spec fn pad8(bits: Seq<bool>) -> Seq<bool> {
    bits + zeros((8 * ((bits.len() + 7) / 8) - bits.len()) as nat)
}

/// Bits packed into bytes, each byte least significant bit first, the last byte padded with
/// unset bits.
pub open spec fn pack_lsb(bits: Seq<bool>) -> Seq<u8> {
    Seq::new(
        (bits.len() + 7) / 8,
        |k: int| bits_nat(pad8(bits).subrange(8 * k, 8 * k + 8).reverse()) as u8,
    )
}

/// Bits packed into bytes, each byte most significant bit first, the last byte padded with
/// unset bits.
pub open spec fn pack_msb(bits: Seq<bool>) -> Seq<u8> {
    Seq::new((bits.len() + 7) / 8, |k: int| bits_nat(pad8(bits).subrange(8 * k, 8 * k + 8)) as u8)
}

/// Longest bit sequence that a bit vector can hold.
pub open spec fn max_bits() -> nat {
    (usize::MAX / 8) as nat
}

/// A growable sequence of bits stored least significant bit first in bytes: a
/// `bitvec::vec::BitVec<u8, Lsb0>`.
#[verifier::external_body]
pub struct LsbBits {
    inner: BitVec<u8, Lsb0>,
}

/// The bits held by an `LsbBits`, in order.
pub uninterp spec fn lsb_bits(v: LsbBits) -> Seq<bool>;

/// A growable sequence of bits stored most significant bit first in bytes: a
/// `bitvec::vec::BitVec<u8, Msb0>`.
#[verifier::external_body]
pub struct MsbBits {
    inner: BitVec<u8, Msb0>,
}

/// The bits held by an `MsbBits`, in order.
pub uninterp spec fn msb_bits(v: MsbBits) -> Seq<bool>;

impl LsbBits {
    /// `BitVec::new`: no bits.
    #[verifier::external_body]
    pub fn new() -> (r: LsbBits)
        ensures
            lsb_bits(r) == Seq::<bool>::empty(),
    {
        LsbBits { inner: BitVec::new() }
    }

    /// `BitVec::from_vec`: the bits of the given bytes, every bit of every byte.
    #[verifier::external_body]
    pub fn from_bytes(bytes: Vec<u8>) -> (r: LsbBits)
        requires
            bytes@.len() <= max_bits() / 8,
        ensures
            lsb_bits(r) == bytes_bits_lsb(bytes@),
    {
        LsbBits { inner: BitVec::from_vec(bytes) }
    }

    /// `BitSlice::len`: the number of bits.
    #[verifier::external_body]
    pub fn len(&self) -> (r: usize)
        ensures
            r == lsb_bits(*self).len(),
    {
        self.inner.len()
    }

    /// `BitSlice::get`: the bit at `i`, if there is one.
    #[verifier::external_body]
    pub fn get(&self, i: usize) -> (r: Option<bool>)
        ensures
            r == if i < lsb_bits(*self).len() {
                Some(lsb_bits(*self)[i as int])
            } else {
                None::<bool>
            },
    {
        match self.inner.get(i) {
            Some(b) => Some(*b),
            None => None,
        }
    }

    /// `BitVec::push`: appends a bit.
    #[verifier::external_body]
    pub fn push(&mut self, b: bool)
        requires
            lsb_bits(*old(self)).len() < max_bits(),
        ensures
            lsb_bits(*final(self)) == lsb_bits(*old(self)).push(b),
    {
        self.inner.push(b)
    }

    /// `BitVec::set_uninitialized(false)` then `BitVec::into_vec`: the bytes holding the bits,
    /// with the unused bits of the last byte zero.
    #[verifier::external_body]
    pub fn into_bytes(self) -> (r: Vec<u8>)
        ensures
            r@ == pack_lsb(lsb_bits(self)),
    {
        let mut inner = self.inner;
        inner.set_uninitialized(false);
        inner.into_vec()
    }
}

impl MsbBits {
    /// `BitVec::new`: no bits.
    #[verifier::external_body]
    pub fn new() -> (r: MsbBits)
        ensures
            msb_bits(r) == Seq::<bool>::empty(),
    {
        MsbBits { inner: BitVec::new() }
    }

    /// `BitVec::from_vec`: the bits of the given bytes, every bit of every byte.
    #[verifier::external_body]
    pub fn from_bytes(bytes: Vec<u8>) -> (r: MsbBits)
        requires
            bytes@.len() <= max_bits() / 8,
        ensures
            msb_bits(r) == bytes_bits_msb(bytes@),
    {
        MsbBits { inner: BitVec::from_vec(bytes) }
    }

    /// `BitSlice::len`: the number of bits.
    #[verifier::external_body]
    pub fn len(&self) -> (r: usize)
        ensures
            r == msb_bits(*self).len(),
    {
        self.inner.len()
    }

    /// `BitSlice::get`: the bit at `i`, if there is one.
    #[verifier::external_body]
    pub fn get(&self, i: usize) -> (r: Option<bool>)
        ensures
            r == if i < msb_bits(*self).len() {
                Some(msb_bits(*self)[i as int])
            } else {
                None::<bool>
            },
    {
        match self.inner.get(i) {
            Some(b) => Some(*b),
            None => None,
        }
    }

    /// `BitVec::push`: appends a bit.
    #[verifier::external_body]
    pub fn push(&mut self, b: bool)
        requires
            msb_bits(*old(self)).len() < max_bits(),
        ensures
            msb_bits(*final(self)) == msb_bits(*old(self)).push(b),
    {
        self.inner.push(b)
    }

    /// `BitVec::set_uninitialized(false)` then `BitVec::into_vec`: the bytes holding the bits,
    /// with the unused bits of the last byte zero.
    #[verifier::external_body]
    pub fn into_bytes(self) -> (r: Vec<u8>)
        ensures
            r@ == pack_msb(msb_bits(self)),
    {
        let mut inner = self.inner;
        inner.set_uninitialized(false);
        inner.into_vec()
    }
}

proof fn lemma_byte_bit_at(b8: Seq<bool>, j: int)
    requires
        b8.len() == 8,
        0 <= j < 8,
    ensures
        bits_nat(b8) < 256,
        b8[j] == byte_bit(bits_nat(b8) as u8, 7 - j),
{
    lemma_bits_nat_bound(b8);
    lemma_p2_64();
    lemma_nat_bits_of_bits_nat(b8);
    lemma_nat_bits_index(bits_nat(b8), 8, j);
}

/// Unpacking packed bits gives the bits back, padded to whole bytes.
pub proof fn lemma_unpack_pack_lsb(bits: Seq<bool>)
    ensures
        bytes_bits_lsb(pack_lsb(bits)) == pad8(bits),
{
    let p = pad8(bits);
    let n = (bits.len() + 7) / 8;
    assert(p.len() == 8 * n);
    let packed = pack_lsb(bits);
    assert forall|i: int| 0 <= i < 8 * n implies #[trigger] bytes_bits_lsb(packed)[i] == p[i] by {
        let k = i / 8;
        let j = i % 8;
        let b8 = p.subrange(8 * k, 8 * k + 8).reverse();
        lemma_byte_bit_at(b8, 7 - j);
        assert(b8[7 - j] == p[8 * k + j]);
        assert(packed[k] == bits_nat(b8) as u8);
    }
    assert(bytes_bits_lsb(packed) =~= p);
}

/// Unpacking packed bits gives the bits back, padded to whole bytes.
pub proof fn lemma_unpack_pack_msb(bits: Seq<bool>)
    ensures
        bytes_bits_msb(pack_msb(bits)) == pad8(bits),
{
    let p = pad8(bits);
    let n = (bits.len() + 7) / 8;
    assert(p.len() == 8 * n);
    let packed = pack_msb(bits);
    assert forall|i: int| 0 <= i < 8 * n implies #[trigger] bytes_bits_msb(packed)[i] == p[i] by {
        let k = i / 8;
        let j = i % 8;
        let b8 = p.subrange(8 * k, 8 * k + 8);
        lemma_byte_bit_at(b8, j);
        assert(b8[j] == p[8 * k + j]);
        assert(packed[k] == bits_nat(b8) as u8);
    }
    assert(bytes_bits_msb(packed) =~= p);
}

/// Bit `s` of `x`, by shifting.
pub proof fn lemma_shift_bit(x: u64, s: u64)
    requires
        s < 64,
    ensures
        ((x >> s) & 1 == 1) == ((x as nat / p2(s as nat)) % 2 == 1),
{
    vstd::bits::lemma_u64_shr_is_div(x, s);
    lemma_p2_is_pow2(s as nat);
    let y = x >> s;
    assert(y & 1 == y % 2) by (bit_vector);
}

/// Appending `k` unset bits multiplies the value by `2^k`.
pub proof fn lemma_bits_nat_zeros(s: Seq<bool>, k: nat)
    ensures
        bits_nat(s + zeros(k)) == bits_nat(s) * p2(k),
    decreases k,
{
    if k == 0 {
        assert(s + zeros(0) =~= s);
        assert(p2(0) == 1);
    } else {
        lemma_bits_nat_zeros(s, (k - 1) as nat);
        let t = s + zeros(k);
        assert(t.drop_last() =~= s + zeros((k - 1) as nat));
        assert(!t.last());
        assert(2 * (bits_nat(s) * p2((k - 1) as nat)) == bits_nat(s) * (2 * p2((k - 1) as nat))) by (nonlinear_arith);
    }
}

} // verus!
