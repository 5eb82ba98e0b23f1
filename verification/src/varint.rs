//! Variable-length encoding of unsigned integers: seven bits per byte, least significant group
//! first, with the high bit of each byte set when more bytes follow.
use vstd::prelude::*;

verus! {

/// `128` raised to the power `d`.
pub open spec fn p128(d: nat) -> nat
    decreases d,
{
    if d == 0 {
        1
    } else {
        128 * p128((d - 1) as nat)
    }
}

/// The bytes that encode `v`.
pub open spec fn varint_encode(v: nat) -> Seq<u8>
    decreases v,
{
    if v < 128 {
        seq![v as u8]
    } else {
        seq![(v % 128 + 128) as u8] + varint_encode(v / 128)
    }
}

/// Decoding of the bytes `b` when `d` groups of seven bits have already been read: the value
/// carried by these bytes (to be weighted by `128^d`) and the number of bytes they take. The
/// tenth byte of an encoding carries only the top bit of a 64-bit value, so it must be exactly 1.
pub open spec fn varint_decode_from(b: Seq<u8>, d: nat) -> Option<(nat, nat)>
    decreases b.len(),
{
    if b.len() == 0 {
        None
    } else if d >= 9 {
        if b[0] == 1 {
            Some((1nat, 1nat))
        } else {
            None
        }
    } else if b[0] < 128 {
        Some((b[0] as nat, 1nat))
    } else {
        match varint_decode_from(b.drop_first(), d + 1) {
            Some((v, n)) => Some(((b[0] - 128) as nat + 128 * v, n + 1)),
            None => None,
        }
    }
}

/// Decoding of a varint at the start of `b`: its value and its length in bytes.
pub open spec fn varint_decode(b: Seq<u8>) -> Option<(nat, nat)> {
    varint_decode_from(b, 0)
}

pub open spec fn shift_decoded(o: Option<(nat, nat)>, acc: nat, w: nat, d: nat) -> Option<(nat, nat)> {
    match o {
        Some((v, n)) => Some((acc + w * v, n + d)),
        None => None,
    }
}

proof fn lemma_p128_pos(d: nat)
    ensures
        p128(d) >= 1,
    decreases d,
{
    if d > 0 {
        lemma_p128_pos((d - 1) as nat);
    }
}

proof fn lemma_p128_9()
    ensures
        p128(9) == 0x8000_0000_0000_0000,
{
    reveal_with_fuel(p128, 10);
}

proof fn lemma_decode_encode_from(v: nat, d: nat, rest: Seq<u8>)
    requires
        d <= 9,
        v * p128(d) < 0x1_0000_0000_0000_0000,
        d == 9 ==> v >= 1,
    ensures
        varint_decode_from(varint_encode(v) + rest, d) == Some((v, varint_encode(v).len())),
    decreases v,
{
    lemma_p128_pos(d);
    let e = varint_encode(v);
    if d == 9 {
        lemma_p128_9();
        assert(v < 2) by (nonlinear_arith)
            requires
                v * 0x8000_0000_0000_0000 < 0x1_0000_0000_0000_0000nat,
        ;
        assert(v == 1);
        assert((e + rest)[0] == 1);
    } else if v < 128 {
        assert((e + rest)[0] == v);
    } else {
        let q = v / 128;
        let tail = varint_encode(q);
        assert(e == seq![(v % 128 + 128) as u8] + tail);
        assert((e + rest).drop_first() == tail + rest);
        assert(q * p128(d + 1) < 0x1_0000_0000_0000_0000) by {
            assert(p128(d + 1) == 128 * p128(d));
            assert(q * (128 * p128(d)) <= v * p128(d)) by (nonlinear_arith)
                requires
                    q == v / 128,
                    p128(d) >= 1,
            ;
        }
        assert(q >= 1);
        lemma_decode_encode_from(q, d + 1, rest);
        assert((e + rest)[0] == (v % 128 + 128) as u8);
        assert(((v % 128 + 128) as u8) >= 128);
    }
}

/// Decoding the encoding of any 64-bit value gives back the value and the encoding's length,
/// whatever bytes follow it.
pub proof fn lemma_varint_roundtrip(v: u64, rest: Seq<u8>)
    ensures
        varint_decode(varint_encode(v as nat) + rest) == Some((v as nat, varint_encode(
            v as nat,
        ).len())),
{
    assert(p128(0) == 1);
    lemma_decode_encode_from(v as nat, 0, rest);
}

pub proof fn lemma_encode_len_bound(v: nat)
    ensures
        1 <= varint_encode(v).len(),
        v < 0x1_0000_0000_0000_0000 ==> varint_encode(v).len() <= 10,
    decreases v,
{
    if v >= 128 {
        lemma_encode_len_bound(v / 128);
        if v < 0x1_0000_0000_0000_0000 {
            assert(varint_encode(v / 128).len() <= 10);
            if v / 128 >= 128 {
                assert(v / 128 / 128 < 0x1_0000_0000_0000_0000);
            }
            lemma_encode_len_small(v);
        }
    }
}

proof fn lemma_encode_len_small(v: nat)
    requires
        v < 0x1_0000_0000_0000_0000,
    ensures
        varint_encode(v).len() <= 10,
{
    reveal_with_fuel(p128, 11);
    assert(p128(10) >= 0x1_0000_0000_0000_0000);
    lemma_encode_len_below(v, 10);
}

proof fn lemma_encode_len_below(v: nat, k: nat)
    requires
        k >= 1,
        v < p128(k),
    ensures
        varint_encode(v).len() <= k,
    decreases k,
{
    if v >= 128 {
        assert(k >= 2) by {
            if k == 1 {
                reveal_with_fuel(p128, 2);
            }
        }
        assert(v / 128 < p128((k - 1) as nat)) by {
            assert(p128(k) == 128 * p128((k - 1) as nat));
        }
        lemma_encode_len_below(v / 128, (k - 1) as nat);
    }
}

/// Number of bytes that the encoding of `val` takes.
pub fn space_needed(val: u64) -> (r: usize)
    ensures
        r == varint_encode(val as nat).len(),
        1 <= r <= 10,
{
    proof {
        lemma_encode_len_small(val as nat);
        lemma_encode_len_bound(val as nat);
    }
    let mut v = val;
    let mut n: usize = 1;
    while v >= 128
        invariant
            varint_encode(val as nat).len() == n - 1 + varint_encode(v as nat).len(),
            varint_encode(val as nat).len() <= 10,
            1 <= n,
            varint_encode(v as nat).len() >= 1,
        decreases v,
    {
        proof {
            lemma_encode_len_bound((v / 128) as nat);
        }
        v = v / 128;
        n = n + 1;
    }
    n
}

/// Appends the encoding of `val` to `buf`.
pub fn write_u64_varint(buf: &mut Vec<u8>, val: u64)
    ensures
        final(buf)@ == old(buf)@ + varint_encode(val as nat),
{
    let mut v = val;
    while v >= 128
        invariant
            old(buf)@ + varint_encode(val as nat) == buf@ + varint_encode(v as nat),
        decreases v,
    {
        let byte = (v % 128 + 128) as u8;
        proof {
            assert(varint_encode(v as nat) == seq![byte] + varint_encode((v / 128) as nat));
            assert(buf@ + varint_encode(v as nat) == buf@.push(byte) + varint_encode(
                (v / 128) as nat,
            ));
        }
        buf.push(byte);
        v = v / 128;
    }
    buf.push(v as u8);
    proof {
        assert(varint_encode(v as nat) == seq![v as u8]);
    }
}

/// Reads a varint starting at `pos` in `bytes`. Returns the value and the position just after it,
/// or `None` where the bytes end before the varint does or it does not fit in 64 bits.
pub fn read_u64_varint(bytes: &[u8], pos: usize) -> (r: Option<(u64, usize)>)
    requires
        pos <= bytes@.len(),
    ensures
        r == match varint_decode(bytes@.subrange(pos as int, bytes@.len() as int)) {
            Some((v, n)) => Some((v as u64, (pos + n) as usize)),
            None => None,
        },
        r matches Some((v, p)) ==> pos < p <= bytes@.len() && varint_decode(
            bytes@.subrange(pos as int, bytes@.len() as int),
        ) == Some((v as nat, (p - pos) as nat)),
{
    let len = bytes.len();
    let ghost whole = bytes@.subrange(pos as int, len as int);
    if pos >= len {
        return None;
    }
    let first = bytes[pos];
    if first < 128 {
        return Some((first as u64, pos + 1));
    }
    let mut result: u64 = (first - 128) as u64;
    let mut weight: u64 = 128;
    let mut depth: usize = 1;
    let mut p: usize = pos + 1;
    proof {
        assert(whole.drop_first() == bytes@.subrange(p as int, len as int));
        assert(p128(1) == 128) by {
            reveal_with_fuel(p128, 2);
        }
    }
    loop
        invariant
            len == bytes@.len(),
            whole == bytes@.subrange(pos as int, len as int),
            1 <= depth <= 8,
            p == pos + depth,
            p <= len,
            weight == p128(depth as nat),
            result < weight,
            varint_decode_from(whole, 0) == shift_decoded(
                varint_decode_from(bytes@.subrange(p as int, len as int), depth as nat),
                result as nat,
                weight as nat,
                depth as nat,
            ),
        decreases len - p,
    {
        proof {
            assert(weight * 128 <= 0x8000_0000_0000_0000) by {
                lemma_p128_le_8(depth as nat);
            }
        }
        let ghost here = bytes@.subrange(p as int, len as int);
        if p >= len {
            return None;
        }
        let cur = bytes[p];
        if cur < 128 {
            proof {
                assert(here[0] == cur);
                assert(result + weight * (cur as nat) < 0x1_0000_0000_0000_0000) by (nonlinear_arith)
                    requires
                        result < weight,
                        cur < 128,
                        weight * 128 <= 0x8000_0000_0000_0000,
                ;
            }
            return Some((result + weight * (cur as u64), p + 1));
        }
        let ghost old_result = result;
        proof {
            assert(result + weight * ((cur - 128) as nat) < weight * 128) by (nonlinear_arith)
                requires
                    result < weight,
                    cur >= 128,
            ;
        }
        result = result + weight * ((cur - 128) as u64);
        let ghost old_weight = weight;
        weight = weight * 128;
        depth = depth + 1;
        p = p + 1;
        proof {
            assert(here.drop_first() == bytes@.subrange(p as int, len as int));
            assert(here[0] == cur);
            assert(weight == p128(depth as nat));
            let rest = varint_decode_from(bytes@.subrange(p as int, len as int), depth as nat);
            match rest {
                Some((v, n)) => {
                    assert(old_result + old_weight * ((cur - 128) as nat + 128 * v) == result
                        + weight * v) by (nonlinear_arith)
                        requires
                            result == old_result + old_weight * ((cur - 128) as nat),
                            weight == old_weight * 128,
                    ;
                },
                None => {},
            }
        }
        if depth == 9 {
            let ghost last = bytes@.subrange(p as int, len as int);
            if p >= len {
                return None;
            }
            let b = bytes[p];
            proof {
                assert(last[0] == b);
                lemma_p128_9();
            }
            if b == 1 {
                proof {
                    assert(varint_decode_from(last, 9) == Some((1nat, 1nat)));
                    assert(weight * 1 == weight);
                }
                return Some((result + weight, p + 1));
            } else {
                return None;
            }
        }
    }
}

proof fn lemma_p128_le_8(d: nat)
    requires
        d <= 8,
    ensures
        p128(d) * 128 <= 0x8000_0000_0000_0000,
        p128(d) <= 0x100_0000_0000_0000,
    decreases d,
{
    reveal_with_fuel(p128, 10);
    if d == 0 {
    } else if d == 1 {
    } else if d == 2 {
    } else if d == 3 {
    } else if d == 4 {
    } else if d == 5 {
    } else if d == 6 {
    } else if d == 7 {
    } else {
    }
}

} // verus!
