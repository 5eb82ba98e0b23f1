//! The dense Unicode rendering of bytes. The bytes are framed with their length and a CRC-32 and
//! read as bits, most significant first. Each cell of the text is one base character carrying
//! fourteen bits, followed by up to `marks_per_cell` zero-width variation selectors carrying eight
//! bits each; a line break is put before every 120th cell. No character of either alphabet is
//! ASCII or whitespace, and the two alphabets share no character.
use vstd::prelude::*;
use vstd::bytes::{spec_u32_to_le_bytes, spec_u32_from_le_bytes, u32_to_le_bytes, u32_from_le_bytes, lemma_auto_spec_u32_to_from_le_bytes};
use vstd::slice::{slice_subrange, slice_to_vec};
use crate::bits::{MsbBits, msb_bits, max_bits, bytes_bits_msb, pack_msb, pad8, zeros, nat_bits, bits_nat, p2, lemma_p2_64, lemma_p2_pos, lemma_p2_is_pow2, lemma_p2_monotone, lemma_nat_bits_len, lemma_nat_bits_index, lemma_bits_nat_bound, lemma_nat_bits_of_bits_nat, lemma_bits_nat_of_nat_bits, lemma_shift_bit, lemma_bits_nat_zeros, lemma_p2_adds};
use crate::varint::{varint_encode, varint_decode, write_u64_varint, read_u64_varint, lemma_varint_roundtrip};
use crate::alphabet::{lemma_ascending_by_index, lemma_apart_by_index, lemma_total_by_index, prefix_total, range_total, range_point, range_index, in_ranges, ranges_ascending, ranges_apart, non_scalars, is_scalar, lemma_range_roundtrip, lemma_range_index_in, lemma_apart, lemma_scalar, point_of, index_of};

verus! {

/// Range `k` of the base characters.
pub open spec fn base_range(k: int) -> (u32, u32) {
    if k == 0 {
        (0x0262u32, 0x02AFu32)
    } else if k == 1 {
        (0x048Au32, 0x04C0u32)
    } else if k == 2 {
        (0x04FAu32, 0x052Fu32)
    } else if k == 3 {
        (0x0559u32, 0x0586u32)
    } else if k == 4 {
        (0x0E01u32, 0x0E30u32)
    } else if k == 5 {
        (0x1160u32, 0x1248u32)
    } else if k == 6 {
        (0x12D8u32, 0x1310u32)
    } else if k == 7 {
        (0x1318u32, 0x135Au32)
    } else if k == 8 {
        (0x13A0u32, 0x13F5u32)
    } else if k == 9 {
        (0x1400u32, 0x167Fu32)
    } else if k == 10 {
        (0x16A0u32, 0x16F8u32)
    } else if k == 11 {
        (0x1780u32, 0x17B3u32)
    } else if k == 12 {
        (0x1820u32, 0x1878u32)
    } else if k == 13 {
        (0x18B0u32, 0x18F5u32)
    } else if k == 14 {
        (0x19DEu32, 0x1A16u32)
    } else if k == 15 {
        (0x1A1Eu32, 0x1A54u32)
    } else if k == 16 {
        (0x1BAEu32, 0x1BE5u32)
    } else if k == 17 {
        (0x1C4Du32, 0x1C8Au32)
    } else if k == 18 {
        (0x232Bu32, 0x23E8u32)
    } else if k == 19 {
        (0x23F4u32, 0x2429u32)
    } else if k == 20 {
        (0x27C0u32, 0x2A0Bu32)
    } else if k == 21 {
        (0x2A0Du32, 0x2A73u32)
    } else if k == 22 {
        (0x2A77u32, 0x2ADBu32)
    } else if k == 23 {
        (0x2ADDu32, 0x2B1Au32)
    } else if k == 24 {
        (0x2B1Du32, 0x2B4Fu32)
    } else if k == 25 {
        (0x2B97u32, 0x2C7Bu32)
    } else if k == 26 {
        (0x2C7Eu32, 0x2CEEu32)
    } else if k == 27 {
        (0x2CF9u32, 0x2CFDu32)
    } else if k == 28 {
        (0x2D30u32, 0x2D67u32)
    } else if k == 29 {
        (0x2E00u32, 0x2E5Du32)
    } else if k == 30 {
        (0xA4D0u32, 0xA62Bu32)
    } else if k == 31 {
        (0xA640u32, 0xA66Eu32)
    } else if k == 32 {
        (0xA6A0u32, 0xA6EFu32)
    } else if k == 33 {
        (0xA700u32, 0xA76Fu32)
    } else if k == 34 {
        (0xA771u32, 0xA7CDu32)
    } else if k == 35 {
        (0xA840u32, 0xA877u32)
    } else if k == 36 {
        (0xA882u32, 0xA8B3u32)
    } else if k == 37 {
        (0xA984u32, 0xA9B2u32)
    } else if k == 38 {
        (0xAA7Eu32, 0xAAAFu32)
    } else if k == 39 {
        (0xAB70u32, 0xABE2u32)
    } else if k == 40 {
        (0xD7CBu32, 0xD7FBu32)
    } else if k == 41 {
        (0x10080u32, 0x100FAu32)
    } else if k == 42 {
        (0x10137u32, 0x1018Eu32)
    } else if k == 43 {
        (0x102A0u32, 0x102D0u32)
    } else if k == 44 {
        (0x10400u32, 0x1049Du32)
    } else if k == 45 {
        (0x10530u32, 0x10563u32)
    } else if k == 46 {
        (0x10600u32, 0x10736u32)
    } else if k == 47 {
        (0x11003u32, 0x11037u32)
    } else if k == 48 {
        (0x11183u32, 0x111B2u32)
    } else if k == 49 {
        (0x112B0u32, 0x112DEu32)
    } else if k == 50 {
        (0x11400u32, 0x11434u32)
    } else if k == 51 {
        (0x11480u32, 0x114AFu32)
    } else if k == 52 {
        (0x11580u32, 0x115AEu32)
    } else if k == 53 {
        (0x11600u32, 0x1162Fu32)
    } else if k == 54 {
        (0x118A0u32, 0x118F2u32)
    } else if k == 55 {
        (0x11A5Cu32, 0x11A89u32)
    } else if k == 56 {
        (0x11AB0u32, 0x11AF8u32)
    } else if k == 57 {
        (0x11FC0u32, 0x11FF1u32)
    } else if k == 58 {
        (0x11FFFu32, 0x12399u32)
    } else if k == 59 {
        (0x12400u32, 0x1246Eu32)
    } else if k == 60 {
        (0x12480u32, 0x12543u32)
    } else if k == 61 {
        (0x12F90u32, 0x12FF2u32)
    } else if k == 62 {
        (0x13000u32, 0x1342Fu32)
    } else if k == 63 {
        (0x13460u32, 0x143FAu32)
    } else if k == 64 {
        (0x14400u32, 0x14646u32)
    } else if k == 65 {
        (0x16800u32, 0x16A38u32)
    } else if k == 66 {
        (0x16A6Eu32, 0x16ABEu32)
    } else if k == 67 {
        (0x16B00u32, 0x16B2Fu32)
    } else if k == 68 {
        (0x16E40u32, 0x16E9Au32)
    } else if k == 69 {
        (0x16F00u32, 0x16F4Au32)
    } else if k == 70 {
        (0x1BC00u32, 0x1BC6Au32)
    } else if k == 71 {
        (0x1CC00u32, 0x1CCD5u32)
    } else if k == 72 {
        (0x1CD00u32, 0x1CEB3u32)
    } else if k == 73 {
        (0x1CF50u32, 0x1CFC3u32)
    } else if k == 74 {
        (0x1D000u32, 0x1D0F5u32)
    } else if k == 75 {
        (0x1D129u32, 0x1D15Du32)
    } else if k == 76 {
        (0x1D200u32, 0x1D241u32)
    } else if k == 77 {
        (0x1D800u32, 0x1D9FFu32)
    } else if k == 78 {
        (0x1F030u32, 0x1F093u32)
    } else if k == 79 {
        (0x1F5A5u32, 0x1F5FAu32)
    } else if k == 80 {
        (0x1F650u32, 0x1F67Fu32)
    } else if k == 81 {
        (0x1F700u32, 0x1F776u32)
    } else if k == 82 {
        (0x1F77Bu32, 0x1F7D9u32)
    } else if k == 83 {
        (0x1F810u32, 0x1F847u32)
    } else if k == 84 {
        (0x1FA00u32, 0x1FA53u32)
    } else if k == 85 {
        (0x1FB00u32, 0x1FB92u32)
    } else if k == 86 {
        (0x1FB94u32, 0x1FBEFu32)
    } else {
        (0u32, 0u32)
    }
}

/// The base characters: single-column, left-to-right or neutral, normalization-stable, assigned,
/// non-ASCII code points, `2^14` of them.
pub open spec fn base_ranges() -> Seq<(u32, u32)> {
    Seq::new(87, |k: int| base_range(k))
}

/// The marks: variation selectors, zero-width with combining class zero, `2^8` of them.
pub open spec fn mark_ranges() -> Seq<(u32, u32)> {
    seq![(0xFE00u32, 0xFE0Fu32), (0xE0100u32, 0xE01EFu32)]
}

/// The code points with the Unicode `White_Space` property.
pub open spec fn whitespace_ranges() -> Seq<(u32, u32)> {
    seq![
        (0x0009u32, 0x000Du32),
        (0x0020u32, 0x0020u32),
        (0x0085u32, 0x0085u32),
        (0x00A0u32, 0x00A0u32),
        (0x1680u32, 0x1680u32),
        (0x2000u32, 0x200Au32),
        (0x2028u32, 0x2029u32),
        (0x202Fu32, 0x202Fu32),
        (0x205Fu32, 0x205Fu32),
        (0x3000u32, 0x3000u32),
    ]
}

/// The ASCII code points.
pub open spec fn ascii_ranges() -> Seq<(u32, u32)> {
    seq![(0u32, 0x7Fu32)]
}

proof fn lemma_base_ascending()
    ensures
        ranges_ascending(base_ranges()),
{
    let r = base_ranges();
    assert forall|k: int| 0 <= k < r.len() implies r[k].0 <= r[k].1 by {}
    assert forall|k: int| 0 <= k < r.len() - 1 implies r[k].1 < r[k + 1].0 by {}
    lemma_ascending_by_index(r);
}

proof fn lemma_base_total()
    ensures
        range_total(base_ranges()) == 16384,
{
    lemma_total_by_index(base_ranges());
    reveal_with_fuel(prefix_total, 90);
}

proof fn lemma_base_apart(other: Seq<(u32, u32)>)
    requires
        forall|i: int, j: int| 0 <= i < 87 && 0 <= j < other.len() ==> (#[trigger] base_range(i)).1 < (#[trigger] other[j]).0 || other[j].1 < base_range(i).0,
    ensures
        ranges_apart(base_ranges(), other),
{
    let r = base_ranges();
    assert forall|i: int, j: int| 0 <= i < r.len() && 0 <= j < other.len() implies (#[trigger] r[i]).1 < (#[trigger] other[j]).0 || other[j].1 < r[i].0 by {
        assert(r[i] == base_range(i));
    }
    lemma_apart_by_index(r, other);
}

/// The facts about the alphabets that the text encoding relies on.
pub proof fn lemma_alphabets()
    ensures
        ranges_ascending(base_ranges()),
        range_total(base_ranges()) == 16384,
        ranges_ascending(mark_ranges()),
        range_total(mark_ranges()) == 256,
        ranges_apart(base_ranges(), mark_ranges()),
        ranges_apart(mark_ranges(), base_ranges()),
        ranges_apart(base_ranges(), non_scalars()),
        ranges_apart(mark_ranges(), non_scalars()),
        ranges_apart(base_ranges(), whitespace_ranges()),
        ranges_apart(mark_ranges(), whitespace_ranges()),
        ranges_apart(base_ranges(), ascii_ranges()),
        ranges_apart(mark_ranges(), ascii_ranges()),
{
    lemma_base_ascending();
    lemma_base_total();
    reveal_with_fuel(ranges_ascending, 3);
    reveal_with_fuel(range_total, 3);
    assert forall|i: int, j: int| 0 <= i < 87 && 0 <= j < mark_ranges().len() implies (#[trigger] base_range(i)).1 < (#[trigger] mark_ranges()[j]).0 || mark_ranges()[j].1 < base_range(i).0 by {}
    lemma_base_apart(mark_ranges());
    assert forall|i: int, j: int| 0 <= i < 87 && 0 <= j < non_scalars().len() implies (#[trigger] base_range(i)).1 < (#[trigger] non_scalars()[j]).0 || non_scalars()[j].1 < base_range(i).0 by {}
    lemma_base_apart(non_scalars());
    assert forall|i: int, j: int| 0 <= i < 87 && 0 <= j < whitespace_ranges().len() implies (#[trigger] base_range(i)).1 < (#[trigger] whitespace_ranges()[j]).0 || whitespace_ranges()[j].1 < base_range(i).0 by {}
    lemma_base_apart(whitespace_ranges());
    assert forall|i: int, j: int| 0 <= i < 87 && 0 <= j < ascii_ranges().len() implies (#[trigger] base_range(i)).1 < (#[trigger] ascii_ranges()[j]).0 || ascii_ranges()[j].1 < base_range(i).0 by {}
    lemma_base_apart(ascii_ranges());
    let b = base_ranges();
    assert forall|i: int, j: int| 0 <= i < mark_ranges().len() && 0 <= j < b.len() implies (#[trigger] mark_ranges()[i]).1 < (#[trigger] b[j]).0 || b[j].1 < mark_ranges()[i].0 by {
        assert(b[j] == base_range(j));
    }
    lemma_apart_by_index(mark_ranges(), b);
    lemma_apart_by_index(mark_ranges(), non_scalars());
    lemma_apart_by_index(mark_ranges(), whitespace_ranges());
    lemma_apart_by_index(mark_ranges(), ascii_ranges());
}

/// The base characters, as a vector.
pub fn base_ranges_vec() -> (r: Vec<(u32, u32)>)
    ensures
        r@ == base_ranges(),
{
    let r = vec![
        (0x0262u32, 0x02AFu32),
        (0x048Au32, 0x04C0u32),
        (0x04FAu32, 0x052Fu32),
        (0x0559u32, 0x0586u32),
        (0x0E01u32, 0x0E30u32),
        (0x1160u32, 0x1248u32),
        (0x12D8u32, 0x1310u32),
        (0x1318u32, 0x135Au32),
        (0x13A0u32, 0x13F5u32),
        (0x1400u32, 0x167Fu32),
        (0x16A0u32, 0x16F8u32),
        (0x1780u32, 0x17B3u32),
        (0x1820u32, 0x1878u32),
        (0x18B0u32, 0x18F5u32),
        (0x19DEu32, 0x1A16u32),
        (0x1A1Eu32, 0x1A54u32),
        (0x1BAEu32, 0x1BE5u32),
        (0x1C4Du32, 0x1C8Au32),
        (0x232Bu32, 0x23E8u32),
        (0x23F4u32, 0x2429u32),
        (0x27C0u32, 0x2A0Bu32),
        (0x2A0Du32, 0x2A73u32),
        (0x2A77u32, 0x2ADBu32),
        (0x2ADDu32, 0x2B1Au32),
        (0x2B1Du32, 0x2B4Fu32),
        (0x2B97u32, 0x2C7Bu32),
        (0x2C7Eu32, 0x2CEEu32),
        (0x2CF9u32, 0x2CFDu32),
        (0x2D30u32, 0x2D67u32),
        (0x2E00u32, 0x2E5Du32),
        (0xA4D0u32, 0xA62Bu32),
        (0xA640u32, 0xA66Eu32),
        (0xA6A0u32, 0xA6EFu32),
        (0xA700u32, 0xA76Fu32),
        (0xA771u32, 0xA7CDu32),
        (0xA840u32, 0xA877u32),
        (0xA882u32, 0xA8B3u32),
        (0xA984u32, 0xA9B2u32),
        (0xAA7Eu32, 0xAAAFu32),
        (0xAB70u32, 0xABE2u32),
        (0xD7CBu32, 0xD7FBu32),
        (0x10080u32, 0x100FAu32),
        (0x10137u32, 0x1018Eu32),
        (0x102A0u32, 0x102D0u32),
        (0x10400u32, 0x1049Du32),
        (0x10530u32, 0x10563u32),
        (0x10600u32, 0x10736u32),
        (0x11003u32, 0x11037u32),
        (0x11183u32, 0x111B2u32),
        (0x112B0u32, 0x112DEu32),
        (0x11400u32, 0x11434u32),
        (0x11480u32, 0x114AFu32),
        (0x11580u32, 0x115AEu32),
        (0x11600u32, 0x1162Fu32),
        (0x118A0u32, 0x118F2u32),
        (0x11A5Cu32, 0x11A89u32),
        (0x11AB0u32, 0x11AF8u32),
        (0x11FC0u32, 0x11FF1u32),
        (0x11FFFu32, 0x12399u32),
        (0x12400u32, 0x1246Eu32),
        (0x12480u32, 0x12543u32),
        (0x12F90u32, 0x12FF2u32),
        (0x13000u32, 0x1342Fu32),
        (0x13460u32, 0x143FAu32),
        (0x14400u32, 0x14646u32),
        (0x16800u32, 0x16A38u32),
        (0x16A6Eu32, 0x16ABEu32),
        (0x16B00u32, 0x16B2Fu32),
        (0x16E40u32, 0x16E9Au32),
        (0x16F00u32, 0x16F4Au32),
        (0x1BC00u32, 0x1BC6Au32),
        (0x1CC00u32, 0x1CCD5u32),
        (0x1CD00u32, 0x1CEB3u32),
        (0x1CF50u32, 0x1CFC3u32),
        (0x1D000u32, 0x1D0F5u32),
        (0x1D129u32, 0x1D15Du32),
        (0x1D200u32, 0x1D241u32),
        (0x1D800u32, 0x1D9FFu32),
        (0x1F030u32, 0x1F093u32),
        (0x1F5A5u32, 0x1F5FAu32),
        (0x1F650u32, 0x1F67Fu32),
        (0x1F700u32, 0x1F776u32),
        (0x1F77Bu32, 0x1F7D9u32),
        (0x1F810u32, 0x1F847u32),
        (0x1FA00u32, 0x1FA53u32),
        (0x1FB00u32, 0x1FB92u32),
        (0x1FB94u32, 0x1FBEFu32),
    ];
    proof {
        assert(r@ =~= base_ranges());
    }
    r
}

/// The marks, as a vector.
fn mark_ranges_vec() -> (r: Vec<(u32, u32)>)
    ensures
        r@ == mark_ranges(),
{
    let r = vec![(0xFE00u32, 0xFE0Fu32), (0xE0100u32, 0xE01EFu32)];
    proof {
        assert(r@ =~= mark_ranges());
    }
    r
}

/// The characters of a string.
pub fn chars_of(s: &str) -> (r: Vec<char>)
    ensures
        r@ == s@,
{
    broadcast use vstd::string::axiom_spec_iter;
    let mut v: Vec<char> = Vec::new();
    for c in it: s.chars()
        invariant
            v@ == it.seq().take(it.index()),
            it.seq() == s@,
    {
        v.push(c);
    }
    v
}

/// One step of the bitwise CRC-32 (IEEE, reflected) register update.
pub open spec fn crc_shift(c: u32) -> u32 {
    if c & 1 == 1 {
        (c >> 1) ^ 0xEDB8_8320u32
    } else {
        c >> 1
    }
}

/// `k` steps of the register update.
pub open spec fn crc_shifts(c: u32, k: nat) -> u32
    decreases k,
{
    if k == 0 {
        c
    } else {
        crc_shifts(crc_shift(c), (k - 1) as nat)
    }
}

/// The CRC register after the bytes.
pub open spec fn crc_register(bytes: Seq<u8>) -> u32
    decreases bytes.len(),
{
    if bytes.len() == 0 {
        0xFFFF_FFFFu32
    } else {
        crc_shifts(crc_register(bytes.drop_last()) ^ (bytes.last() as u32), 8)
    }
}

/// The CRC-32 (IEEE) of the bytes.
pub open spec fn crc32(bytes: Seq<u8>) -> u32 {
    !crc_register(bytes)
}

/// The bytes with their length in front and their CRC-32 behind.
pub open spec fn frame(payload: Seq<u8>) -> Seq<u8> {
    varint_encode(payload.len()) + payload + spec_u32_to_le_bytes(crc32(payload))
}

/// The payload of a framed buffer whose checksum matches; bytes after the frame are ignored.
pub open spec fn unframe(framed: Seq<u8>) -> Option<Seq<u8>> {
    match varint_decode(framed) {
        None => None,
        Some((len, h)) => if len > usize::MAX || h + len + 4 > framed.len() {
            None
        } else {
            let payload = framed.subrange(h as int, (h + len) as int);
            if spec_u32_from_le_bytes(framed.subrange((h + len) as int, (h + len + 4) as int)) == crc32(payload) {
                Some(payload)
            } else {
                None
            }
        },
    }
}

/// The CRC-32 (IEEE) of the bytes.
pub fn crc32_of(bytes: &[u8]) -> (r: u32)
    ensures
        r == crc32(bytes@),
{
    let mut crc: u32 = 0xFFFF_FFFF;
    let mut i: usize = 0;
    while i < bytes.len()
        invariant
            i <= bytes@.len(),
            crc == crc_register(bytes@.take(i as int)),
        decreases bytes@.len() - i,
    {
        proof {
            assert(bytes@.take(i + 1).drop_last() =~= bytes@.take(i as int));
        }
        crc = crc ^ (bytes[i] as u32);
        let ghost start = crc;
        let mut k: usize = 0;
        while k < 8
            invariant
                k <= 8,
                crc_shifts(start, 8) == crc_shifts(crc, (8 - k) as nat),
            decreases 8 - k,
        {
            if crc & 1 == 1 {
                crc = (crc >> 1) ^ 0xEDB8_8320;
            } else {
                crc = crc >> 1;
            }
            k = k + 1;
        }
        i = i + 1;
    }
    proof {
        assert(bytes@.take(bytes@.len() as int) =~= bytes@);
    }
    !crc
}

/// Frames the payload with its length and CRC-32.
fn frame_bytes(payload: &[u8]) -> (r: Vec<u8>)
    ensures
        r@ == frame(payload@),
{
    let mut framed: Vec<u8> = Vec::new();
    write_u64_varint(&mut framed, payload.len() as u64);
    let mut body = slice_to_vec(payload);
    framed.append(&mut body);
    let mut check = u32_to_le_bytes(crc32_of(payload));
    framed.append(&mut check);
    framed
}

/// The payload of a framed buffer, if its checksum matches.
fn unframe_bytes(framed: &[u8]) -> (r: Option<Vec<u8>>)
    ensures
        match unframe(framed@) {
            Some(p) => r matches Some(v) && v@ == p,
            None => r is None,
        },
{
    let total = framed.len();
    proof {
        assert(framed@.subrange(0, total as int) =~= framed@);
    }
    let (len64, h) = match read_u64_varint(framed, 0) {
        Some(x) => x,
        None => {
            return None;
        },
    };
    if len64 > usize::MAX as u64 {
        return None;
    }
    let len = len64 as usize;
    if len > total - h || 4 > total - h - len {
        return None;
    }
    let payload = slice_to_vec(slice_subrange(framed, h, h + len));
    let checksum = u32_from_le_bytes(slice_subrange(framed, h + len, h + len + 4));
    if checksum == crc32_of(payload.as_slice()) {
        Some(payload)
    } else {
        None
    }
}

/// The base character of index `v`.
pub open spec fn base_char(v: nat) -> char {
    range_point(base_ranges(), v) as char
}

/// The mark of index `v`.
pub open spec fn mark_char(v: nat) -> char {
    range_point(mark_ranges(), v) as char
}

/// The position after reading up to `w` bits at `pos`.
pub open spec fn take_end(bits: Seq<bool>, pos: nat, w: nat) -> nat {
    if pos + w <= bits.len() {
        pos + w
    } else {
        bits.len() as nat
    }
}

/// The value of up to `w` bits at `pos`, most significant first, a short read padded with unset
/// low bits.
pub open spec fn take_value(bits: Seq<bool>, pos: nat, w: nat) -> nat {
    let end = take_end(bits, pos, w);
    bits_nat(bits.subrange(pos as int, end as int) + zeros((w - (end - pos)) as nat))
}

/// Number of cells after which a line break is put.
pub open spec fn line_cells() -> nat {
    120
}

/// The text for the bits from `pos` on, `left` marks being still allowed in the current cell (none
/// means the next character starts a cell), `cell` cells having been written.
pub open spec fn render(bits: Seq<bool>, pos: nat, m: nat, left: nat, cell: nat) -> Seq<char>
    decreases bits.len() - pos,
{
    if pos >= bits.len() {
        Seq::<char>::empty()
    } else if left == 0 {
        let brk = if cell > 0 && cell % line_cells() == 0 {
            seq!['\n']
        } else {
            Seq::<char>::empty()
        };
        brk + seq![base_char(take_value(bits, pos, 14))] + render(bits, take_end(bits, pos, 14), m, m, cell + 1)
    } else {
        seq![mark_char(take_value(bits, pos, 8))] + render(bits, take_end(bits, pos, 8), m, (left - 1) as nat, cell)
    }
}

/// The text rendering of a payload with up to `m` marks per cell.
pub open spec fn text_encode(payload: Seq<u8>, m: nat) -> Seq<char> {
    render(bytes_bits_msb(frame(payload)), 0, m, 0, 0)
}

/// The bits carried by one character, `seen` telling whether a base character came before it.
pub open spec fn char_bits(c: char, seen: bool) -> Option<Seq<bool>> {
    match range_index(mark_ranges(), c as nat) {
        Some(v) => if seen {
            Some(nat_bits(v, 8))
        } else {
            None
        },
        None => match range_index(base_ranges(), c as nat) {
            Some(v) => Some(nat_bits(v, 14)),
            None => None,
        },
    }
}

/// The bits carried by the characters, `seen` telling whether a base character came before them.
pub open spec fn decode_bits(chars: Seq<char>, seen: bool) -> Option<Seq<bool>>
    decreases chars.len(),
{
    if chars.len() == 0 {
        Some(Seq::<bool>::empty())
    } else {
        match char_bits(chars[0], seen) {
            None => None,
            Some(b) => match decode_bits(chars.drop_first(), true) {
                Some(rest) => Some(b + rest),
                None => None,
            },
        }
    }
}

/// The payload carried by a text without whitespace.
pub open spec fn text_decode(chars: Seq<char>) -> Option<Seq<u8>> {
    if chars.len() > max_bits() / 14 {
        None
    } else {
        match decode_bits(chars, false) {
            Some(bits) => unframe(pack_msb(bits)),
            None => None,
        }
    }
}

/// Longest payload that the text encoding takes.
pub open spec fn max_text_payload() -> nat {
    max_bits() / 128
}

/// `char::from_u32`: the character of code point `v`, if `v` is a Unicode scalar value.
#[verifier::external_body]
fn char_from_u32(v: u32) -> (r: Option<char>)
    ensures
        r == if is_scalar(v as nat) {
            Some(v as char)
        } else {
            None::<char>
        },
{
    char::from_u32(v)
}

/// `String::push`: appends a character.
#[verifier::external_body]
pub(crate) fn push_char(s: &mut String, c: char)
    ensures
        final(s)@ == old(s)@.push(c),
{
    s.push(c)
}

/// The character of index `value` in one of the two alphabets.
fn to_char(ranges: &Vec<(u32, u32)>, value: u32) -> (r: char)
    requires
        ranges@ == base_ranges() || ranges@ == mark_ranges(),
        value < range_total(ranges@),
    ensures
        r == range_point(ranges@, value as nat) as char,
{
    proof {
        lemma_alphabets();
        lemma_range_roundtrip(ranges@, value as nat);
        lemma_scalar(ranges@, range_point(ranges@, value as nat));
    }
    let cp = point_of(ranges, value);
    match char_from_u32(cp) {
        Some(c) => c,
        None => {
            proof {
                assert(false);
            }
            ' '
        },
    }
}

/// The index of `c` in one of the two alphabets, if it is in it.
fn to_value(ranges: &Vec<(u32, u32)>, c: char) -> (r: Option<u32>)
    requires
        ranges@ == base_ranges() || ranges@ == mark_ranges(),
    ensures
        r == match range_index(ranges@, c as nat) {
            Some(v) => Some(v as u32),
            None => None::<u32>,
        },
        r matches Some(v) ==> v < range_total(ranges@),
        range_index(ranges@, c as nat) matches Some(v) ==> v < range_total(ranges@),
{
    proof {
        lemma_alphabets();
        lemma_range_index_in(ranges@, c as nat);
    }
    index_of(ranges, c as u32)
}

/// Reads up to `width` bits at `*pos`, most significant first, padding a short read with unset
/// low bits, and advances `*pos` past them.
fn take(bits: &MsbBits, pos: &mut usize, width: usize) -> (r: u32)
    requires
        1 <= width <= 14,
        *old(pos) <= msb_bits(*bits).len(),
        msb_bits(*bits).len() <= max_bits(),
    ensures
        r == take_value(msb_bits(*bits), *old(pos) as nat, width as nat),
        *final(pos) == take_end(msb_bits(*bits), *old(pos) as nat, width as nat),
        r < p2(width as nat),
{
    let ghost all = msb_bits(*bits);
    let start = *pos;
    let len = bits.len();
    let end = if start + width <= len {
        start + width
    } else {
        len
    };
    let mut value: u32 = 0;
    let mut i = start;
    proof {
        assert(all.subrange(start as int, start as int) =~= Seq::<bool>::empty());
        lemma_p2_64();
    }
    while i < end
        invariant
            start <= i <= end <= len,
            end - start <= width <= 14,
            len == all.len(),
            all == msb_bits(*bits),
            value == bits_nat(all.subrange(start as int, i as int)),
            value < p2((i - start) as nat),
        decreases end - i,
    {
        let b = match bits.get(i) {
            Some(b) => b,
            None => false,
        };
        proof {
            let sub = all.subrange(start as int, i as int);
            assert(all.subrange(start as int, i + 1) =~= sub.push(b));
            assert(sub.push(b).drop_last() =~= sub);
            lemma_p2_monotone((i - start) as nat, 13);
            lemma_p2_64();
            assert(p2(13) == 8192) by {
                reveal_with_fuel(p2, 14);
            }
        }
        value = 2 * value + if b {
            1
        } else {
            0
        };
        i = i + 1;
    }
    let pad = width - (end - start);
    let ghost sub = all.subrange(start as int, end as int);
    proof {
        lemma_bits_nat_zeros(sub, pad as nat);
        lemma_p2_pos(pad as nat);
        lemma_p2_adds((end - start) as nat, pad as nat);
        lemma_p2_is_pow2(pad as nat);
        lemma_p2_monotone(width as nat, 14);
        lemma_p2_64();
        assert(value * p2(pad as nat) < p2(width as nat)) by (nonlinear_arith)
            requires
                value < p2((end - start) as nat),
                p2(width as nat) == p2((end - start) as nat) * p2(pad as nat),
                p2(pad as nat) >= 1,
        ;
        vstd::bits::lemma_u32_shl_is_mul(value, pad as u32);
    }
    let r = value << (pad as u32);
    *pos = end;
    r
}

/// Renders the payload as text, with up to `marks_per_cell` marks per cell.
pub fn unicode_encode(payload: &[u8], marks_per_cell: u32) -> (r: String)
    requires
        payload@.len() <= max_text_payload(),
    ensures
        r@ == text_encode(payload@, marks_per_cell as nat),
{
    let framed = frame_bytes(payload);
    proof {
        lemma_auto_spec_u32_to_from_le_bytes();
        assert(varint_encode(payload@.len()).len() <= 10) by {
            crate::varint::lemma_encode_len_bound(payload@.len());
        }
    }
    let bits = MsbBits::from_bytes(framed);
    let ghost all = msb_bits(bits);
    let ghost m = marks_per_cell as nat;
    let base = base_ranges_vec();
    let marks = mark_ranges_vec();
    proof {
        lemma_alphabets();
    }
    let len = bits.len();
    let mut out = String::new();
    let mut pos: usize = 0;
    let mut cell: usize = 0;
    proof {
        assert(out@ =~= Seq::<char>::empty());
    }
    while pos < len
        invariant
            all == msb_bits(bits),
            len == all.len(),
            len <= max_bits(),
            pos <= len,
            cell <= pos,
            base@ == base_ranges(),
            marks@ == mark_ranges(),
            range_total(base_ranges()) == 16384,
            range_total(mark_ranges()) == 256,
            m == marks_per_cell as nat,
            out@ + render(all, pos as nat, m, 0, cell as nat) == render(all, 0, m, 0, 0),
        decreases len - pos,
    {
        let ghost before = out@;
        let ghost p0 = pos as nat;
        if cell > 0 && cell % 120 == 0 {
            push_char(&mut out, '\n');
        }
        let v = take(&bits, &mut pos, 14);
        proof {
            lemma_p2_64();
        }
        let c = to_char(&base, v);
        push_char(&mut out, c);
        proof {
            let brk = if cell > 0 && (cell as nat) % line_cells() == 0 {
                seq!['\n']
            } else {
                Seq::<char>::empty()
            };
            assert(out@ == before + brk + seq![c]);
            assert(render(all, p0, m, 0, cell as nat) == brk + seq![c] + render(all, pos as nat, m, m, (cell + 1) as nat));
            assert(out@ + render(all, pos as nat, m, m, (cell + 1) as nat) =~= before + render(all, p0, m, 0, cell as nat));
        }
        let mut j: u32 = 0;
        while j < marks_per_cell
            invariant_except_break
                j <= marks_per_cell,
            invariant
                all == msb_bits(bits),
                len == all.len(),
                len <= max_bits(),
                p0 < pos <= len,
                cell < pos,
                marks@ == mark_ranges(),
                range_total(mark_ranges()) == 256,
                m == marks_per_cell as nat,
                out@ + render(all, pos as nat, m, (m - j) as nat, (cell + 1) as nat) == render(all, 0, m, 0, 0),
            ensures
                out@ + render(all, pos as nat, m, 0, (cell + 1) as nat) == render(all, 0, m, 0, 0),
            decreases marks_per_cell - j,
        {
            if pos >= len {
                break;
            }
            let ghost before_mark = out@;
            let ghost q0 = pos as nat;
            let v = take(&bits, &mut pos, 8);
            proof {
                lemma_p2_64();
            }
            let c = to_char(&marks, v);
            push_char(&mut out, c);
            proof {
                assert(render(all, q0, m, (m - j) as nat, (cell + 1) as nat) == seq![c] + render(all, pos as nat, m, (m - j - 1) as nat, (cell + 1) as nat));
                assert(out@ + render(all, pos as nat, m, (m - j - 1) as nat, (cell + 1) as nat) =~= before_mark + render(all, q0, m, (m - j) as nat, (cell + 1) as nat));
            }
            j = j + 1;
        }
        cell = cell + 1;
    }
    proof {
        assert(out@ + render(all, pos as nat, m, 0, cell as nat) =~= out@);
    }
    out
}

/// The payload carried by a text without whitespace, if it is a well-formed rendering.
pub fn unicode_decode(text: &str) -> (r: Option<Vec<u8>>)
    ensures
        match text_decode(text@) {
            Some(p) => r matches Some(v) && v@ == p,
            None => r is None,
        },
{
    let chars = chars_of(text);
    let n = chars.len();
    if n > usize::MAX / 8 / 14 {
        return None;
    }
    let ghost all = chars@;
    let base = base_ranges_vec();
    let marks = mark_ranges_vec();
    let mut bits = MsbBits::new();
    let mut seen = false;
    let mut i: usize = 0;
    proof {
        assert(all.skip(0) =~= all);
        assert(msb_bits(bits) + Seq::<bool>::empty() =~= msb_bits(bits));
    }
    while i < n
        invariant
            n == chars@.len(),
            all == chars@,
            all == text@,
            n <= max_bits() / 14,
            i <= n,
            base@ == base_ranges(),
            marks@ == mark_ranges(),
            msb_bits(bits).len() <= 14 * i,
            decode_bits(all, false) == match decode_bits(all.skip(i as int), seen) {
                Some(rest) => Some(msb_bits(bits) + rest),
                None => None::<Seq<bool>>,
            },
        decreases n - i,
    {
        let c = chars[i];
        let ghost b0 = msb_bits(bits);
        let ghost s0 = seen;
        proof {
            assert(all.skip(i as int)[0] == c);
            assert(all.skip(i as int).drop_first() =~= all.skip(i + 1));
        }
        let (value, width) = match char_value(c, seen, &base, &marks) {
            Some(x) => x,
            None => {
                return None;
            },
        };
        seen = true;
        proof {
            lemma_alphabets();
            assert(width == 8 || width == 14);
            assert(msb_bits(bits).len() + width <= 14 * (i + 1));
        }
        push_value(&mut bits, value, width);
        proof {
            lemma_nat_bits_len(value as nat, width as nat);
        }
        proof {
            let t = all.skip(i as int);
            assert(t.drop_first() =~= all.skip(i + 1));
            match decode_bits(all.skip(i + 1), true) {
                Some(rest) => {
                    assert(b0 + (nat_bits(value as nat, width as nat) + rest) =~= msb_bits(bits) + rest);
                },
                None => {},
            }
            assert(seen);
        }
        i = i + 1;
    }
    proof {
        assert(all.skip(n as int) =~= Seq::<char>::empty());
        assert(msb_bits(bits) + Seq::<bool>::empty() =~= msb_bits(bits));
        assert(usize::MAX / 8 / 14 == max_bits() / 14);
    }
    let bytes = bits.into_bytes();
    unframe_bytes(bytes.as_slice())
}

/// The value and width of the bits that a character carries, `seen` telling whether a base
/// character came before it.
fn char_value(c: char, seen: bool, base: &Vec<(u32, u32)>, marks: &Vec<(u32, u32)>) -> (r: Option<(u32, usize)>)
    requires
        base@ == base_ranges(),
        marks@ == mark_ranges(),
    ensures
        match char_bits(c, seen) {
            None => r is None,
            Some(b) => r matches Some((v, w)) && b == nat_bits(v as nat, w as nat) && (w == 8 || w == 14),
        },
{
    proof {
        lemma_alphabets();
    }
    match to_value(marks, c) {
        Some(v) => {
            if seen {
                Some((v, 8))
            } else {
                None
            }
        },
        None => match to_value(base, c) {
            Some(v) => Some((v, 14)),
            None => None,
        },
    }
}

/// Appends the low `width` bits of `value`, most significant first.
fn push_value(bits: &mut MsbBits, value: u32, width: usize)
    requires
        width <= 14,
        msb_bits(*old(bits)).len() + width <= max_bits(),
    ensures
        msb_bits(*final(bits)) == msb_bits(*old(bits)) + nat_bits(value as nat, width as nat),
{
    let ghost start = msb_bits(*bits);
    proof {
        lemma_nat_bits_len(value as nat, width as nat);
    }
    let mut k: usize = width;
    while k > 0
        invariant
            k <= width <= 14,
            start.len() + width <= max_bits(),
            nat_bits(value as nat, width as nat).len() == width,
            msb_bits(*bits) == start + nat_bits(value as nat, width as nat).subrange(0, (width - k) as int),
        decreases k,
    {
        let s = (k - 1) as u64;
        let b = ((value as u64) >> s) & 1 == 1;
        proof {
            lemma_shift_bit(value as u64, s);
            lemma_nat_bits_index(value as nat, width as nat, (width - k) as int);
            assert((width - 1 - (width - k)) as nat == s as nat);
        }
        bits.push(b);
        k = k - 1;
        proof {
            let nb = nat_bits(value as nat, width as nat);
            assert(nb.subrange(0, (width - k) as int) =~= nb.subrange(0, (width - k - 1) as int).push(b));
        }
    }
    proof {
        assert(nat_bits(value as nat, width as nat).subrange(0, width as int) =~= nat_bits(value as nat, width as nat));
    }
}

/// Whether `c` has the Unicode `White_Space` property.
pub open spec fn is_whitespace(c: char) -> bool {
    in_ranges(whitespace_ranges(), c as nat)
}

/// The characters that are not whitespace, in order.
pub open spec fn strip_whitespace(s: Seq<char>) -> Seq<char>
    decreases s.len(),
{
    if s.len() == 0 {
        Seq::<char>::empty()
    } else {
        let r = strip_whitespace(s.drop_last());
        if is_whitespace(s.last()) {
            r
        } else {
            r.push(s.last())
        }
    }
}

/// The text for the bits from `pos` on, without line breaks.
pub open spec fn render_plain(bits: Seq<bool>, pos: nat, m: nat, left: nat) -> Seq<char>
    decreases bits.len() - pos,
{
    if pos >= bits.len() {
        Seq::<char>::empty()
    } else if left == 0 {
        seq![base_char(take_value(bits, pos, 14))] + render_plain(bits, take_end(bits, pos, 14), m, m)
    } else {
        seq![mark_char(take_value(bits, pos, 8))] + render_plain(bits, take_end(bits, pos, 8), m, (left - 1) as nat)
    }
}

pub proof fn lemma_strip_concat(a: Seq<char>, b: Seq<char>)
    ensures
        strip_whitespace(a + b) == strip_whitespace(a) + strip_whitespace(b),
    decreases b.len(),
{
    if b.len() == 0 {
        assert(a + b =~= a);
        assert(strip_whitespace(a) + Seq::<char>::empty() =~= strip_whitespace(a));
    } else {
        lemma_strip_concat(a, b.drop_last());
        assert((a + b).drop_last() =~= a + b.drop_last());
        assert((a + b).last() == b.last());
        if !is_whitespace(b.last()) {
            assert((strip_whitespace(a) + strip_whitespace(b.drop_last())).push(b.last()) =~= strip_whitespace(a) + strip_whitespace(b.drop_last()).push(b.last()));
        }
    }
}

pub proof fn lemma_strip_one(c: char)
    ensures
        strip_whitespace(seq![c]) == if is_whitespace(c) {
            Seq::<char>::empty()
        } else {
            seq![c]
        },
{
    let s = seq![c];
    assert(s.drop_last() =~= Seq::<char>::empty());
    assert(strip_whitespace(Seq::<char>::empty()) == Seq::<char>::empty());
    assert(s.last() == c);
    assert(Seq::<char>::empty().push(c) =~= s);
}

/// The characters of the alphabets are code points of them, and no whitespace.
pub proof fn lemma_alphabet_chars(v: nat)
    ensures
        v < 16384 ==> (base_char(v) as nat) == range_point(base_ranges(), v),
        v < 16384 ==> range_index(base_ranges(), base_char(v) as nat) == Some(v),
        v < 16384 ==> range_index(mark_ranges(), base_char(v) as nat) is None,
        v < 16384 ==> !is_whitespace(base_char(v)),
        v < 256 ==> (mark_char(v) as nat) == range_point(mark_ranges(), v),
        v < 256 ==> range_index(mark_ranges(), mark_char(v) as nat) == Some(v),
        v < 256 ==> !is_whitespace(mark_char(v)),
{
    lemma_alphabets();
    if v < 16384 {
        let cp = range_point(base_ranges(), v);
        lemma_range_roundtrip(base_ranges(), v);
        lemma_scalar(base_ranges(), cp);
        assert((cp as char) as nat == cp);
        lemma_apart(base_ranges(), mark_ranges(), cp);
        lemma_range_index_in(mark_ranges(), cp);
        lemma_apart(base_ranges(), whitespace_ranges(), cp);
    }
    if v < 256 {
        let cp = range_point(mark_ranges(), v);
        lemma_range_roundtrip(mark_ranges(), v);
        lemma_scalar(mark_ranges(), cp);
        assert((cp as char) as nat == cp);
        lemma_apart(mark_ranges(), whitespace_ranges(), cp);
    }
}

pub proof fn lemma_take_value(bits: Seq<bool>, pos: nat, w: nat)
    requires
        pos < bits.len(),
        w >= 1,
    ensures
        pos < take_end(bits, pos, w) <= bits.len(),
        take_value(bits, pos, w) < p2(w),
        nat_bits(take_value(bits, pos, w), w) == bits.subrange(pos as int, take_end(bits, pos, w) as int) + zeros((w - (take_end(bits, pos, w) - pos)) as nat),
{
    let end = take_end(bits, pos, w);
    let s = bits.subrange(pos as int, end as int) + zeros((w - (end - pos)) as nat);
    assert(s.len() == w);
    lemma_bits_nat_bound(s);
    lemma_nat_bits_of_bits_nat(s);
}

pub proof fn lemma_strip_render(bits: Seq<bool>, pos: nat, m: nat, left: nat, cell: nat)
    ensures
        strip_whitespace(render(bits, pos, m, left, cell)) == render_plain(bits, pos, m, left),
    decreases bits.len() - pos,
{
    if pos < bits.len() {
        if left == 0 {
            let end = take_end(bits, pos, 14);
            let v = take_value(bits, pos, 14);
            lemma_take_value(bits, pos, 14);
            lemma_p2_64();
            lemma_strip_render(bits, end, m, m, cell + 1);
            lemma_alphabet_chars(v);
            let brk = if cell > 0 && cell % line_cells() == 0 {
                seq!['\n']
            } else {
                Seq::<char>::empty()
            };
            let rest = render(bits, end, m, m, cell + 1);
            lemma_strip_concat(brk + seq![base_char(v)], rest);
            lemma_strip_concat(brk, seq![base_char(v)]);
            lemma_strip_one(base_char(v));
            if cell > 0 && cell % line_cells() == 0 {
                lemma_strip_one('\n');
                assert(is_whitespace('\n')) by {
                    reveal_with_fuel(in_ranges, 2);
                }
            } else {
                assert(strip_whitespace(brk) == Seq::<char>::empty());
            }
            assert(strip_whitespace(brk) + seq![base_char(v)] + render_plain(bits, end, m, m) =~= seq![base_char(v)] + render_plain(bits, end, m, m));
        } else {
            let end = take_end(bits, pos, 8);
            let v = take_value(bits, pos, 8);
            lemma_take_value(bits, pos, 8);
            lemma_p2_64();
            lemma_strip_render(bits, end, m, (left - 1) as nat, cell);
            lemma_alphabet_chars(v);
            lemma_strip_concat(seq![mark_char(v)], render(bits, end, m, (left - 1) as nat, cell));
            lemma_strip_one(mark_char(v));
        }
    }
}

proof fn lemma_render_plain_len(bits: Seq<bool>, pos: nat, m: nat, left: nat)
    requires
        pos <= bits.len(),
    ensures
        render_plain(bits, pos, m, left).len() <= bits.len() - pos,
    decreases bits.len() - pos,
{
    if pos < bits.len() {
        if left == 0 {
            lemma_take_value(bits, pos, 14);
            lemma_render_plain_len(bits, take_end(bits, pos, 14), m, m);
        } else {
            lemma_take_value(bits, pos, 8);
            lemma_render_plain_len(bits, take_end(bits, pos, 8), m, (left - 1) as nat);
        }
    }
}

/// Decoding the plain rendering of bits gives the bits back, followed by unset padding bits.
proof fn lemma_decode_render(bits: Seq<bool>, pos: nat, m: nat, left: nat, seen: bool)
    requires
        pos <= bits.len(),
        left > 0 ==> seen,
    ensures
        decode_bits(render_plain(bits, pos, m, left), seen) matches Some(d) && d.len() >= bits.len() - pos
            && d == bits.subrange(pos as int, bits.len() as int) + zeros((d.len() - (bits.len() - pos)) as nat),
    decreases bits.len() - pos,
{
    let len = bits.len();
    if pos == len {
        assert(bits.subrange(pos as int, len as int) + zeros(0) =~= Seq::<bool>::empty());
    } else {
        let w: nat = if left == 0 {
            14
        } else {
            8
        };
        let end = take_end(bits, pos, w);
        let v = take_value(bits, pos, w);
        lemma_take_value(bits, pos, w);
        lemma_p2_64();
        lemma_alphabet_chars(v);
        let c = if left == 0 {
            base_char(v)
        } else {
            mark_char(v)
        };
        let next_left: nat = if left == 0 {
            m
        } else {
            (left - 1) as nat
        };
        let rest = render_plain(bits, end, m, next_left);
        assert(render_plain(bits, pos, m, left) == seq![c] + rest);
        assert((seq![c] + rest)[0] == c);
        assert((seq![c] + rest).drop_first() =~= rest);
        lemma_decode_render(bits, end, m, next_left, true);
        let head = bits.subrange(pos as int, end as int) + zeros((w - (end - pos)) as nat);
        assert(char_bits(c, seen) == Some(head));
        let d2 = decode_bits(rest, true)->0;
        if end < pos + w {
            assert(end == len);
            assert(rest =~= Seq::<char>::empty());
            assert(d2 =~= Seq::<bool>::empty());
            assert(head + d2 =~= bits.subrange(pos as int, len as int) + zeros(((head + d2).len() - (len - pos)) as nat));
        } else {
            assert(head + d2 =~= bits.subrange(pos as int, len as int) + zeros(((head + d2).len() - (len - pos)) as nat));
        }
    }
}

/// Packing the bits of some bytes, with unset bits after them, gives the bytes back first.
proof fn lemma_pack_msb_prefix(x: Seq<u8>, z: nat)
    ensures
        pack_msb(bytes_bits_msb(x) + zeros(z)).len() >= x.len(),
        pack_msb(bytes_bits_msb(x) + zeros(z)).subrange(0, x.len() as int) == x,
{
    let d = bytes_bits_msb(x) + zeros(z);
    let packed = pack_msb(d);
    assert forall|k: int| 0 <= k < x.len() implies #[trigger] packed[k] == x[k] by {
        let b8 = pad8(d).subrange(8 * k, 8 * k + 8);
        assert(b8 =~= nat_bits(x[k] as nat, 8)) by {
            lemma_nat_bits_len(x[k] as nat, 8);
            assert forall|j: int| 0 <= j < 8 implies b8[j] == nat_bits(x[k] as nat, 8)[j] by {
                lemma_nat_bits_index(x[k] as nat, 8, j);
                assert(b8[j] == bytes_bits_msb(x)[8 * k + j]);
                assert((8 * k + j) / 8 == k && (8 * k + j) % 8 == j);
            }
        }
        lemma_bits_nat_of_nat_bits(x[k] as nat, 8);
        lemma_p2_64();
    }
    assert(packed.subrange(0, x.len() as int) =~= x);
}

/// A buffer that starts with the frame of a payload unframes to the payload.
proof fn lemma_unframe_prefix(payload: Seq<u8>, buf: Seq<u8>)
    requires
        payload.len() <= usize::MAX,
        frame(payload).len() <= buf.len(),
        buf.subrange(0, frame(payload).len() as int) == frame(payload),
    ensures
        unframe(buf) == Some(payload),
{
    lemma_auto_spec_u32_to_from_le_bytes();
    let f = frame(payload);
    let e = varint_encode(payload.len());
    let crc = spec_u32_to_le_bytes(crc32(payload));
    let tail = buf.subrange(f.len() as int, buf.len() as int);
    assert(buf =~= e + (payload + crc + tail)) by {
        assert(buf =~= buf.subrange(0, f.len() as int) + tail);
    }
    lemma_varint_roundtrip(payload.len() as u64, payload + crc + tail);
    let h = e.len();
    assert(buf.subrange(h as int, (h + payload.len()) as int) =~= payload);
    assert(buf.subrange((h + payload.len()) as int, (h + payload.len() + 4) as int) =~= crc);
}

/// Decoding the text rendering of a payload, with its whitespace removed, gives the payload back.
pub proof fn lemma_text_roundtrip(payload: Seq<u8>, m: nat)
    requires
        payload.len() <= max_text_payload(),
    ensures
        text_decode(strip_whitespace(text_encode(payload, m))) == Some(payload),
{
    let f = frame(payload);
    let bits = bytes_bits_msb(f);
    lemma_auto_spec_u32_to_from_le_bytes();
    crate::varint::lemma_encode_len_bound(payload.len());
    lemma_strip_render(bits, 0, m, 0, 0);
    let plain = render_plain(bits, 0, m, 0);
    lemma_render_plain_len(bits, 0, m, 0);
    assert(plain.len() <= max_bits() / 14);
    lemma_decode_render(bits, 0, m, 0, false);
    let d = decode_bits(plain, false)->0;
    assert(bits.subrange(0, bits.len() as int) =~= bits);
    let z = (d.len() - bits.len()) as nat;
    lemma_pack_msb_prefix(f, z);
    lemma_unframe_prefix(payload, pack_msb(d));
}

/// The text rendering of a payload, whitespace removed, is not ASCII: it starts with a base
/// character.
pub proof fn lemma_text_not_ascii(payload: Seq<u8>, m: nat)
    ensures
        !vstd::utf8::is_ascii_chars(strip_whitespace(text_encode(payload, m))),
{
    let f = frame(payload);
    let bits = bytes_bits_msb(f);
    crate::varint::lemma_encode_len_bound(payload.len());
    lemma_auto_spec_u32_to_from_le_bytes();
    assert(bits.len() > 0);
    lemma_strip_render(bits, 0, m, 0, 0);
    let v = take_value(bits, 0, 14);
    lemma_take_value(bits, 0, 14);
    lemma_p2_64();
    lemma_alphabet_chars(v);
    let plain = render_plain(bits, 0, m, 0);
    assert(plain[0] == base_char(v));
    let cp = range_point(base_ranges(), v);
    lemma_alphabets();
    lemma_range_roundtrip(base_ranges(), v);
    lemma_apart(base_ranges(), ascii_ranges(), cp);
    assert(!(plain[0] as nat <= 0x7f));
}

} // verus!
