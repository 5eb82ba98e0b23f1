//! Serialized schedules: a schedule is encoded into bytes (fixed-width or move-to-front), and the
//! bytes are rendered as text, in hex or in the dense Unicode alphabet. Reading detects both the
//! encoding, from the leading magic byte, and the alphabet, from whether the text is ASCII, and
//! ignores all whitespace.
use vstd::prelude::*;
use crate::schedule::{Schedule, ScheduleStep, ScheduleView};
use crate::config::{ScheduleEncoding, ScheduleTextEncoding};
use crate::bits::max_bits;
use crate::fixed::{lemma_fixed_encode_len, MAGIC_FIXED, fixed_encode, fixed_decode, serialize_fixed_width, deserialize_fixed_width, lemma_fixed_roundtrip};
use crate::mtf::{lemma_mtf_encode_len, MAGIC_MTF, mtf_encode, mtf_decode, codable_steps, max_steps_encodable, lemma_mtf_roundtrip};
use crate::text::{text_encode, text_decode, strip_whitespace, is_whitespace, whitespace_ranges, max_text_payload, unicode_encode, unicode_decode, push_char, chars_of, lemma_strip_concat, lemma_strip_one, lemma_text_roundtrip, lemma_text_not_ascii};
use vstd::slice::slice_subrange;
use crate::alphabet::in_ranges;
use vstd::utf8::is_ascii_chars;

verus! {

/// Number of characters after which hex text is broken into a new line.
pub open spec fn line_width() -> nat {
    120
}

/// The text with a line break before every `line_width()`-th character.
pub open spec fn wrap(s: Seq<char>) -> Seq<char>
    decreases s.len(),
{
    if s.len() == 0 {
        Seq::<char>::empty()
    } else {
        let i = (s.len() - 1) as nat;
        let brk = if i > 0 && i % line_width() == 0 {
            seq!['\n']
        } else {
            Seq::<char>::empty()
        };
        wrap(s.drop_last()) + brk + seq![s.last()]
    }
}

/// The lowercase hex digit of `n < 16`.
pub open spec fn hex_digit(n: nat) -> char {
    if n < 10 {
        (48 + n) as char
    } else {
        (87 + n) as char
    }
}

/// The value of a hex digit of either case.
pub open spec fn hex_value(c: char) -> Option<nat> {
    if '0' <= c <= '9' {
        Some((c as nat - 48) as nat)
    } else if 'a' <= c <= 'f' {
        Some((c as nat - 87) as nat)
    } else if 'A' <= c <= 'F' {
        Some((c as nat - 55) as nat)
    } else {
        None
    }
}

/// The bytes as lowercase hex, two digits per byte, high nibble first.
pub open spec fn hex_encode(bytes: Seq<u8>) -> Seq<char> {
    Seq::new(
        2 * bytes.len(),
        |i: int|
            hex_digit(
                if i % 2 == 0 {
                    bytes[i / 2] as nat / 16
                } else {
                    bytes[i / 2] as nat % 16
                },
            ),
    )
}

/// The bytes of a hex string: `None` for an odd length or a character that is no hex digit.
pub open spec fn hex_decode(s: Seq<char>) -> Option<Seq<u8>> {
    if s.len() % 2 != 0 {
        None
    } else if exists|i: int| 0 <= i < s.len() && (#[trigger] hex_value(s[i])) is None {
        None
    } else {
        Some(
            Seq::new(
                s.len() / 2,
                |k: int| (hex_value(s[2 * k])->0 * 16 + hex_value(s[2 * k + 1])->0) as u8,
            ),
        )
    }
}

/// `hex::FromHexError`, the error of `hex::decode`.
#[verifier::external_type_specification]
#[verifier::external_body]
pub struct ExFromHexError(hex::FromHexError);

/// `hex::encode`: the bytes as lowercase hex digits, the high nibble of each byte first.
#[verifier::external_body]
fn hex_encode_bytes(bytes: &[u8]) -> (r: String)
    ensures
        r@ == hex_encode(bytes@),
{
    hex::encode(bytes)
}

/// `hex::decode` on an ASCII string: an error for an odd length or a character that is no hex
/// digit, otherwise the bytes, each from two digits of either case, high nibble first.
#[verifier::external_body]
fn hex_decode_str(s: &str) -> (r: Result<Vec<u8>, hex::FromHexError>)
    requires
        is_ascii_chars(s@),
    ensures
        match hex_decode(s@) {
            Some(b) => r matches Ok(v) && v@ == b,
            None => r is Err,
        },
{
    hex::decode(s)
}

/// Whether `c` has the Unicode `White_Space` property.
pub fn is_whitespace_char(c: char) -> (r: bool)
    ensures
        r == is_whitespace(c),
{
    proof {
        reveal_with_fuel(in_ranges, 11);
    }
    let cp = c as u32;
    (0x09 <= cp && cp <= 0x0D) || cp == 0x20 || cp == 0x85 || cp == 0xA0 || cp == 0x1680 || (0x2000 <= cp
        && cp <= 0x200A) || cp == 0x2028 || cp == 0x2029 || cp == 0x202F || cp == 0x205F || cp == 0x3000
}

/// The text without its whitespace.
pub fn strip_whitespace_str(s: &str) -> (r: String)
    ensures
        r@ == strip_whitespace(s@),
{
    let chars = chars_of(s);
    let mut out = String::new();
    let mut i: usize = 0;
    proof {
        assert(chars@.take(0) =~= Seq::<char>::empty());
    }
    while i < chars.len()
        invariant
            i <= chars@.len(),
            out@ == strip_whitespace(chars@.take(i as int)),
        decreases chars@.len() - i,
    {
        let c = chars[i];
        proof {
            assert(chars@.take(i + 1).drop_last() =~= chars@.take(i as int));
            assert(chars@.take(i + 1).last() == c);
        }
        if !is_whitespace_char(c) {
            push_char(&mut out, c);
        }
        i = i + 1;
    }
    proof {
        assert(chars@.take(chars@.len() as int) =~= chars@);
    }
    out
}

/// The text with a line break before every 120th character.
pub fn wrap_lines(s: &str) -> (r: String)
    ensures
        r@ == wrap(s@),
{
    let chars = chars_of(s);
    let mut out = String::new();
    let mut i: usize = 0;
    proof {
        assert(chars@.take(0) =~= Seq::<char>::empty());
    }
    while i < chars.len()
        invariant
            i <= chars@.len(),
            out@ == wrap(chars@.take(i as int)),
        decreases chars@.len() - i,
    {
        let c = chars[i];
        let ghost before = out@;
        proof {
            assert(chars@.take(i + 1).drop_last() =~= chars@.take(i as int));
            assert(chars@.take(i + 1).last() == c);
        }
        if i > 0 && i % 120 == 0 {
            push_char(&mut out, '\n');
        }
        push_char(&mut out, c);
        proof {
            let brk = if i > 0 && (i as nat) % line_width() == 0 {
                seq!['\n']
            } else {
                Seq::<char>::empty()
            };
            assert(out@ =~= before + brk + seq![c]);
        }
        i = i + 1;
    }
    proof {
        assert(chars@.take(chars@.len() as int) =~= chars@);
    }
    out
}

/// The bytes of a schedule in the given encoding, starting with its magic byte.
pub open spec fn payload_encode(s: ScheduleView, encoding: ScheduleEncoding) -> Seq<u8> {
    match encoding {
        ScheduleEncoding::FixedWidth => seq![MAGIC_FIXED] + fixed_encode(s.steps, s.seed),
        ScheduleEncoding::MoveToFront => seq![MAGIC_MTF] + mtf_encode(s.steps, s.seed),
    }
}

/// The schedule that bytes encode, by their magic byte.
pub open spec fn payload_decode(bytes: Seq<u8>) -> Option<ScheduleView> {
    if bytes.len() == 0 {
        None
    } else if bytes[0] == MAGIC_FIXED {
        fixed_decode(bytes.drop_first())
    } else if bytes[0] == MAGIC_MTF {
        mtf_decode(bytes.drop_first())
    } else {
        None
    }
}

/// The text of bytes in an alphabet, `Auto` taken as a destination that carries any text.
pub open spec fn render_text(bytes: Seq<u8>, text: ScheduleTextEncoding) -> Seq<char> {
    match text.spec_resolve(true) {
        ScheduleTextEncoding::Unicode { marks_per_cell } => text_encode(bytes, marks_per_cell as nat),
        _ => wrap(hex_encode(bytes)),
    }
}

/// The serialized text of a schedule.
pub open spec fn serialize_spec(s: ScheduleView, encoding: ScheduleEncoding, text: ScheduleTextEncoding) -> Seq<char> {
    render_text(payload_encode(s, encoding), text)
}

/// The schedule that a text holds: whitespace is ignored, ASCII text is hex and other text the
/// Unicode alphabet.
pub open spec fn deserialize_spec(text: Seq<char>) -> Option<ScheduleView> {
    let s = strip_whitespace(text);
    let bytes = if is_ascii_chars(s) {
        hex_decode(s)
    } else {
        text_decode(s)
    };
    match bytes {
        Some(b) => payload_decode(b),
        None => None,
    }
}

/// Whether a schedule can be serialized in the given encoding: the encoders' bit buffers hold
/// its steps, the move-to-front encoding names no task whose id is the largest 64-bit value, and
/// its bytes are no more than the text encoding takes.
pub open spec fn serializable(s: ScheduleView, encoding: ScheduleEncoding) -> bool {
    &&& s.steps.len() <= max_steps_encodable()
    &&& (encoding == ScheduleEncoding::MoveToFront ==> codable_steps(s.steps))
    &&& payload_encode(s, encoding).len() <= max_text_payload()
}

proof fn lemma_payload_len(s: ScheduleView, encoding: ScheduleEncoding)
    requires
        serializable(s, encoding),
    ensures
        1 <= payload_encode(s, encoding).len() <= max_text_payload(),
        payload_encode(s, encoding).len() <= 31 + 20 * s.steps.len(),
{
    let n = s.steps.len();
    assert(n <= max_steps_encodable());
    match encoding {
        ScheduleEncoding::FixedWidth => {
            lemma_fixed_encode_len(s.steps, s.seed);
        },
        ScheduleEncoding::MoveToFront => {
            lemma_mtf_encode_len(s.steps, s.seed);
        },
    }
}

/// Decoding the bytes of a schedule gives the schedule back.
proof fn lemma_payload_roundtrip(s: ScheduleView, encoding: ScheduleEncoding)
    requires
        serializable(s, encoding),
    ensures
        payload_decode(payload_encode(s, encoding)) == Some(s),
{
    let p = payload_encode(s, encoding);
    match encoding {
        ScheduleEncoding::FixedWidth => {
            assert(p.drop_first() =~= fixed_encode(s.steps, s.seed));
            lemma_fixed_roundtrip(s.steps, s.seed);
        },
        ScheduleEncoding::MoveToFront => {
            assert(p.drop_first() =~= mtf_encode(s.steps, s.seed));
            lemma_mtf_roundtrip(s.steps, s.seed);
        },
    }
}

proof fn lemma_hex_digit(n: nat)
    requires
        n < 16,
    ensures
        hex_value(hex_digit(n)) == Some(n),
        (hex_digit(n) as nat) < 128,
        !is_whitespace(hex_digit(n)),
{
    let c = hex_digit(n);
    if n < 10 {
        assert((c as nat) == 48 + n);
    } else {
        assert((c as nat) == 87 + n);
    }
    reveal_with_fuel(in_ranges, 11);
}

proof fn lemma_hex_roundtrip(bytes: Seq<u8>)
    ensures
        hex_decode(hex_encode(bytes)) == Some(bytes),
        is_ascii_chars(hex_encode(bytes)),
        forall|i: int| 0 <= i < hex_encode(bytes).len() ==> !is_whitespace(#[trigger] hex_encode(bytes)[i]),
{
    let h = hex_encode(bytes);
    assert forall|i: int| 0 <= i < h.len() implies (#[trigger] hex_value(h[i])) is Some && (h[i] as nat) < 128 && !is_whitespace(h[i]) by {
        let b = bytes[i / 2] as nat;
        lemma_hex_digit(b / 16);
        lemma_hex_digit(b % 16);
    }
    assert forall|k: int| 0 <= k < bytes.len() implies (hex_value(h[2 * k])->0 * 16 + hex_value(h[2 * k + 1])->0) as u8 == bytes[k] by {
        let b = bytes[k] as nat;
        lemma_hex_digit(b / 16);
        lemma_hex_digit(b % 16);
        assert((2 * k) / 2 == k && (2 * k + 1) / 2 == k);
        assert((2 * k) % 2 == 0 && (2 * k + 1) % 2 == 1);
    }
    assert(hex_decode(h) =~= Some(bytes));
}

/// Wrapping text without whitespace and removing the whitespace again gives the text back.
proof fn lemma_strip_wrap(s: Seq<char>)
    requires
        forall|i: int| 0 <= i < s.len() ==> !is_whitespace(#[trigger] s[i]),
    ensures
        strip_whitespace(wrap(s)) == s,
    decreases s.len(),
{
    if s.len() > 0 {
        let t = s.drop_last();
        assert forall|i: int| 0 <= i < t.len() implies !is_whitespace(#[trigger] t[i]) by {
            assert(t[i] == s[i]);
        }
        lemma_strip_wrap(t);
        let i = (s.len() - 1) as nat;
        let brk = if i > 0 && i % line_width() == 0 {
            seq!['\n']
        } else {
            Seq::<char>::empty()
        };
        lemma_strip_concat(wrap(t) + brk, seq![s.last()]);
        lemma_strip_concat(wrap(t), brk);
        lemma_strip_one(s.last());
        assert(!is_whitespace(s[s.len() - 1]));
        if i > 0 && i % line_width() == 0 {
            lemma_strip_one('\n');
            assert(is_whitespace('\n')) by {
                reveal_with_fuel(in_ranges, 2);
            }
        } else {
            assert(strip_whitespace(brk) == Seq::<char>::empty());
        }
        assert(t + Seq::<char>::empty() + seq![s.last()] =~= s);
        assert(t + seq![s.last()] =~= s);
    }
}

/// Reading back the text of a serialized schedule gives the schedule, whatever the encoding and
/// the alphabet.
pub proof fn lemma_serialization_roundtrip(s: ScheduleView, encoding: ScheduleEncoding, text: ScheduleTextEncoding)
    requires
        serializable(s, encoding),
    ensures
        deserialize_spec(serialize_spec(s, encoding, text)) == Some(s),
{
    let p = payload_encode(s, encoding);
    lemma_payload_len(s, encoding);
    lemma_payload_roundtrip(s, encoding);
    match text.spec_resolve(true) {
        ScheduleTextEncoding::Unicode { marks_per_cell } => {
            lemma_text_roundtrip(p, marks_per_cell as nat);
            lemma_text_not_ascii(p, marks_per_cell as nat);
        },
        _ => {
            lemma_hex_roundtrip(p);
            lemma_strip_wrap(hex_encode(p));
        },
    }
}

/// The whitespace that reading a schedule ignores is exactly the characters with the Unicode
/// `White_Space` property: tab, line feed, vertical tab, form feed, carriage return, space, next
/// line, no-break space, ogham space mark, the spaces from en quad to hair space, line and
/// paragraph separators, narrow no-break space, medium mathematical space and ideographic space.
pub proof fn lemma_whitespace_is_white_space(c: char)
    ensures
        is_whitespace(c) <==> (c == '\u{0009}' || c == '\u{000A}' || c == '\u{000B}' || c == '\u{000C}'
            || c == '\u{000D}' || c == '\u{0020}' || c == '\u{0085}' || c == '\u{00A0}' || c == '\u{1680}'
            || c == '\u{2000}' || c == '\u{2001}' || c == '\u{2002}' || c == '\u{2003}' || c == '\u{2004}'
            || c == '\u{2005}' || c == '\u{2006}' || c == '\u{2007}' || c == '\u{2008}' || c == '\u{2009}'
            || c == '\u{200A}' || c == '\u{2028}' || c == '\u{2029}' || c == '\u{202F}' || c == '\u{205F}'
            || c == '\u{3000}'),
{
    reveal_with_fuel(in_ranges, 11);
}

/// Whitespace anywhere in a schedule's text changes nothing that is read from it: adding any
/// whitespace character, a carriage return among them, at any place reads the same schedule.
pub proof fn lemma_deserialize_ignores_whitespace(before: Seq<char>, c: char, after: Seq<char>)
    requires
        is_whitespace(c),
    ensures
        deserialize_spec(before + seq![c] + after) == deserialize_spec(before + after),
{
    lemma_strip_concat(before + seq![c], after);
    lemma_strip_concat(before, seq![c]);
    lemma_strip_one(c);
    lemma_strip_concat(before, after);
    assert(strip_whitespace(before) + Seq::<char>::empty() =~= strip_whitespace(before));
}

/// Serializes a schedule in the given encoding, rendered in the given alphabet; `Auto` is taken
/// as a destination that carries any text, so it renders in the Unicode alphabet.
pub fn serialize_schedule_with(schedule: &Schedule, encoding: ScheduleEncoding, text_encoding: ScheduleTextEncoding) -> (r: String)
    requires
        serializable(schedule@, encoding),
    ensures
        r@ == serialize_spec(schedule@, encoding, text_encoding),
{
    proof {
        lemma_payload_len(schedule@, encoding);
    }
    let buf = match encoding {
        ScheduleEncoding::FixedWidth => serialize_fixed_width(schedule),
        ScheduleEncoding::MoveToFront => crate::mtf::serialize(schedule),
    };
    match text_encoding.resolve(true) {
        ScheduleTextEncoding::Unicode { marks_per_cell } => unicode_encode(buf.as_slice(), marks_per_cell),
        _ => {
            let hex = hex_encode_bytes(buf.as_slice());
            wrap_lines(hex.as_str())
        },
    }
}

/// Whether `schedule` can be serialized in `encoding`: its steps fit the encoders' bit buffers,
/// the move-to-front encoding names no task whose id is the largest 64-bit value, and its bytes,
/// encoded to find out, fit the text encoding.
pub fn can_serialize(schedule: &Schedule, encoding: ScheduleEncoding) -> (r: bool)
    ensures
        r == serializable(schedule@, encoding),
{
    let limit: usize = usize::MAX / 8 / 160;
    assert(limit == max_steps_encodable());
    if schedule.steps.len() > limit {
        return false;
    }
    let bytes = match encoding {
        ScheduleEncoding::FixedWidth => serialize_fixed_width(schedule),
        ScheduleEncoding::MoveToFront => {
            let mut i: usize = 0;
            while i < schedule.steps.len()
                invariant
                    i <= schedule.steps@.len(),
                    encoding == ScheduleEncoding::MoveToFront,
                    schedule.steps@.len() <= max_steps_encodable(),
                    forall|k: int| 0 <= k < i ==> (#[trigger] schedule.steps@[k] matches ScheduleStep::Task(t) ==> (t.0 as nat) + 1 < 0x1_0000_0000_0000_0000),
                decreases schedule.steps@.len() - i,
            {
                match schedule.steps[i] {
                    ScheduleStep::Task(t) => {
                        if (t.0 as u128) + 1 >= 0x1_0000_0000_0000_0000u128 {
                            proof {
                                assert(!codable_steps(schedule.steps@)) by {
                                    assert(schedule.steps@[i as int] == ScheduleStep::Task(t));
                                }
                            }
                            return false;
                        }
                    },
                    ScheduleStep::Random => {},
                }
                i = i + 1;
            }
            crate::mtf::serialize(schedule)
        },
    };
    let most: usize = usize::MAX / 8 / 128;
    assert(most == max_text_payload());
    bytes.len() <= most
}

/// Serializes a schedule with the default encodings: move-to-front, in the Unicode alphabet.
pub fn serialize_schedule(schedule: &Schedule) -> (r: String)
    requires
        serializable(schedule@, ScheduleEncoding::MoveToFront),
    ensures
        r@ == serialize_spec(schedule@, ScheduleEncoding::MoveToFront, ScheduleTextEncoding::Auto),
{
    serialize_schedule_with(schedule, ScheduleEncoding::default(), ScheduleTextEncoding::default())
}

/// Reads a schedule written by `serialize_schedule` or `serialize_schedule_with`, in any encoding
/// and alphabet.
pub fn deserialize_schedule(text: &str) -> (r: Option<Schedule>)
    ensures
        match deserialize_spec(text@) {
            Some(v) => r matches Some(s) && s@ == v,
            None => r is None,
        },
{
    let stripped = strip_whitespace_str(text);
    let s = stripped.as_str();
    let bytes = if s.is_ascii() {
        match hex_decode_str(s) {
            Ok(b) => b,
            Err(_) => {
                return None;
            },
        }
    } else {
        match unicode_decode(s) {
            Some(b) => b,
            None => {
                return None;
            },
        }
    };
    let len = bytes.len();
    if len == 0 {
        return None;
    }
    let rest = slice_subrange(bytes.as_slice(), 1, len);
    proof {
        assert(rest@ =~= bytes@.drop_first());
    }
    if bytes[0] == MAGIC_FIXED {
        deserialize_fixed_width(rest)
    } else if bytes[0] == MAGIC_MTF {
        crate::mtf::deserialize(rest)
    } else {
        None
    }
}

} // verus!
