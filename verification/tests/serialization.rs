use shuttle::config::{ScheduleEncoding, ScheduleTextEncoding};
use shuttle::schedule::{Schedule, ScheduleStep};
use shuttle::serialization::{deserialize_schedule, serialize_schedule, serialize_schedule_with};
use shuttle::task::TaskId;
use shuttle::text::{base_ranges_vec, crc32_of};

const LINE_WIDTH: usize = 120;

const ENCODINGS: [ScheduleEncoding; 2] = [ScheduleEncoding::FixedWidth, ScheduleEncoding::MoveToFront];

const TEXT_ENCODINGS: [ScheduleTextEncoding; 7] = [
    ScheduleTextEncoding::Hex,
    ScheduleTextEncoding::Unicode { marks_per_cell: 0 },
    ScheduleTextEncoding::Unicode { marks_per_cell: 1 },
    ScheduleTextEncoding::Unicode { marks_per_cell: 4 },
    ScheduleTextEncoding::Unicode { marks_per_cell: 255 },
    ScheduleTextEncoding::Unicode { marks_per_cell: 4096 },
    ScheduleTextEncoding::Unicode {
        marks_per_cell: u32::MAX,
    },
];

fn is_mark(c: char) -> bool {
    matches!(u32::from(c), 0xFE00..=0xFE0F | 0xE0100..=0xE01EF)
}

/// Every combination of payload encoding and alphabet must reproduce the schedule exactly.
fn check_roundtrip(schedule: Schedule) {
    for encoding in ENCODINGS {
        for text in TEXT_ENCODINGS {
            let encoded = serialize_schedule_with(&schedule, encoding, text);
            let decoded = deserialize_schedule(encoded.as_str())
                .unwrap_or_else(|| panic!("{encoding:?}/{text:?} failed to decode {encoded:?}"));
            assert_eq!(schedule, decoded, "{encoding:?}/{text:?} roundtrip mismatch");
        }
    }
}

#[test]
fn serialization_roundtrip_basic() {
    check_roundtrip(Schedule {
        seed: 10,
        steps: vec![ScheduleStep::Random],
    });
    check_roundtrip(Schedule {
        seed: 10,
        steps: vec![ScheduleStep::Task(TaskId::from(0))],
    });
}

#[test]
fn serialization_roundtrip_empty() {
    check_roundtrip(Schedule { seed: 0, steps: vec![] });
}

#[test]
fn serialization_roundtrip_extreme_values() {
    check_roundtrip(Schedule {
        seed: u64::MAX,
        steps: vec![
            ScheduleStep::Task(TaskId::from(usize::MAX - 1)),
            ScheduleStep::Random,
            ScheduleStep::Task(TaskId::from(usize::MAX - 1)),
            ScheduleStep::Task(TaskId::from(0)),
        ],
    });
}

#[test]
fn text_encoding_is_independent_of_payload_encoding() {
    let schedule = Schedule {
        seed: 42,
        steps: (0..300).map(|i| ScheduleStep::Task(TaskId::from(i % 9))).collect(),
    };
    for encoding in ENCODINGS {
        let via_hex = deserialize_schedule(&serialize_schedule_with(&schedule, encoding, ScheduleTextEncoding::Hex));
        let via_unicode = deserialize_schedule(&serialize_schedule_with(
            &schedule,
            encoding,
            ScheduleTextEncoding::Unicode { marks_per_cell: 4 },
        ));
        assert_eq!(via_hex.as_ref(), Some(&schedule), "{encoding:?} via hex");
        assert_eq!(via_unicode.as_ref(), Some(&schedule), "{encoding:?} via unicode");
    }
}

#[test]
fn unicode_alphabet_reduces_columns() {
    let schedule = Schedule {
        seed: 42,
        steps: (0..4000).map(|i| ScheduleStep::Task(TaskId::from(i % 9))).collect(),
    };
    let payload_bits = serialize_schedule_with(&schedule, ScheduleEncoding::MoveToFront, ScheduleTextEncoding::Hex)
        .chars()
        .filter(|c| !c.is_whitespace())
        .count()
        * 4;

    let columns = |text: &str| text.chars().filter(|c| !c.is_whitespace() && !is_mark(*c)).count();

    let hex = serialize_schedule_with(&schedule, ScheduleEncoding::MoveToFront, ScheduleTextEncoding::Hex);
    let hex_columns = columns(&hex);

    let mut previous = hex_columns;
    for marks in [0u32, 1, 4, 16, 64, 255, 4096, u32::MAX] {
        let text = serialize_schedule_with(
            &schedule,
            ScheduleEncoding::MoveToFront,
            ScheduleTextEncoding::Unicode { marks_per_cell: marks },
        );
        let cols = columns(&text);
        assert!(cols <= previous, "{marks} marks/cell: {cols} columns, more than {previous}");

        let per_column = 14 + 8 * u64::from(marks);
        let floor = payload_bits as u64 / per_column;
        assert!(cols as u64 >= floor, "{marks} marks/cell: {cols} columns beats the {floor} column floor");
        assert!(
            (cols as u64) < floor + floor / 10 + 8,
            "{marks} marks/cell: {cols} columns is well above {floor}"
        );

        previous = cols;
    }

    let flat = serialize_schedule_with(
        &schedule,
        ScheduleEncoding::MoveToFront,
        ScheduleTextEncoding::Unicode { marks_per_cell: 0 },
    );
    assert!(columns(&flat) * 3 < hex_columns, "{} columns vs hex's {hex_columns}", columns(&flat));

    let dense = serialize_schedule_with(&schedule, ScheduleEncoding::MoveToFront, ScheduleTextEncoding::default());
    assert_eq!(columns(&dense), 1, "the default should emit exactly one column");
    assert_eq!(dense.lines().count(), 1, "the default should emit exactly one line");
}

#[test]
fn base_alphabet_is_well_formed() {
    let ranges = base_ranges_vec();
    let total: usize = ranges.iter().map(|(lo, hi)| (hi - lo + 1) as usize).sum();
    assert_eq!(total, 1 << 14, "base alphabet is the wrong size");

    let mut previous_end = 0u32;
    for &(lo, hi) in &ranges {
        assert!(lo <= hi, "range {lo:#X}..={hi:#X} is inverted");
        assert!(lo > previous_end, "range at {lo:#X} is out of order or overlaps");
        assert!(lo >= 0x80, "range at {lo:#X} contains ASCII");
        previous_end = hi;

        for cp in [lo, hi] {
            let c = char::from_u32(cp).unwrap_or_else(|| panic!("{cp:#X} is not a scalar value"));
            assert!(!c.is_whitespace(), "{cp:#X} is whitespace, which decoding strips");
            assert!(!is_mark(c), "{cp:#X} is in both the base and mark alphabets");
        }
    }
}

#[test]
fn damaged_unicode_is_detected() {
    let schedule = Schedule {
        seed: 42,
        steps: (0..500).map(|i| ScheduleStep::Task(TaskId::from(i % 9))).collect(),
    };
    let encoded = serialize_schedule_with(
        &schedule,
        ScheduleEncoding::MoveToFront,
        ScheduleTextEncoding::Unicode { marks_per_cell: 4 },
    );
    let chars = encoded.chars().filter(|c| !c.is_whitespace()).collect::<Vec<_>>();
    assert_eq!(deserialize_schedule(&encoded).as_ref(), Some(&schedule));

    let mut checked = 0;
    for (i, c) in chars.iter().enumerate() {
        if !is_mark(*c) {
            continue;
        }
        let damaged: String = chars[..i].iter().chain(&chars[i + 1..]).collect();
        assert_ne!(
            deserialize_schedule(&damaged).as_ref(),
            Some(&schedule),
            "dropping the mark at {i} went undetected"
        );
        checked += 1;
        if checked >= 100 {
            break;
        }
    }
    assert!(checked > 0, "no marks were emitted to damage");

    for cut in [1usize, 2, 7, chars.len() / 2] {
        let damaged: String = chars[..chars.len() - cut].iter().collect();
        assert_ne!(deserialize_schedule(&damaged).as_ref(), Some(&schedule));
    }
}

#[test]
fn leading_mark_is_rejected() {
    assert_eq!(deserialize_schedule("\u{FE00}\u{1400}"), None);
    assert_eq!(deserialize_schedule("\u{E0100}"), None);
}

#[test]
fn unknown_characters_are_rejected() {
    let schedule = Schedule {
        seed: 1,
        steps: vec![ScheduleStep::Random],
    };
    let encoded = serialize_schedule(&schedule);
    assert_eq!(deserialize_schedule(&encoded).as_ref(), Some(&schedule));
    assert_eq!(deserialize_schedule(&format!("{encoded}\u{4E00}")), None, "CJK is not in the alphabet");
    assert_eq!(deserialize_schedule(&format!("{encoded}q")), None, "mixed ASCII and unicode");
}

#[test]
fn fixed_width_encoding_is_stable() {
    for encoded in [
        "9102110090205124480000",
        "910102fe93a9cef4f3faaf5a04",
        "91022ceac7d5bcb1a7fcc5d801a8050ea528954032492693491200000000",
        "910216c5ebeace8f90be89c601804082124090024901",
        "910228b4d9dee0deaddaee970100440aa64d93a44dc9b62d8914254a",
    ] {
        let schedule = deserialize_schedule(encoded).expect("V2 schedule should still decode");
        assert_eq!(
            serialize_schedule_with(&schedule, ScheduleEncoding::FixedWidth, ScheduleTextEncoding::Hex),
            encoded,
            "V2 encoding is no longer byte-stable"
        );
    }
}

#[test]
fn move_to_front_is_smaller_for_many_tasks() {
    let mut steps = vec![ScheduleStep::Task(TaskId::from(5000))];
    for i in 0..2000 {
        steps.push(ScheduleStep::Task(TaskId::from(i % 4)));
    }
    let schedule = Schedule { seed: 12345, steps };

    let len = |encoding| {
        serialize_schedule_with(&schedule, encoding, ScheduleTextEncoding::Hex)
            .chars()
            .filter(|c| !c.is_whitespace())
            .count()
    };
    let fixed = len(ScheduleEncoding::FixedWidth);
    let mtf = len(ScheduleEncoding::MoveToFront);
    assert!(mtf * 2 < fixed, "expected MTF ({mtf}) to be much smaller than fixed ({fixed})");
}

#[test]
fn long_schedules_are_wrapped() {
    let schedule = Schedule {
        seed: 7,
        steps: (0..5000).map(|i| ScheduleStep::Task(TaskId::from(i % 6))).collect(),
    };

    for encoding in ENCODINGS {
        for text in TEXT_ENCODINGS {
            let encoded = serialize_schedule_with(&schedule, encoding, text);
            let lines = encoded.lines().collect::<Vec<_>>();
            let columns = encoded.chars().filter(|c| !c.is_whitespace() && !is_mark(*c)).count();
            assert_eq!(
                lines.len(),
                columns.div_ceil(LINE_WIDTH),
                "{encoding:?}/{text:?} wrapped {columns} columns into {} lines",
                lines.len()
            );
            for (i, line) in lines.iter().enumerate() {
                let width = line.chars().filter(|c| !is_mark(*c)).count();
                assert!(width <= LINE_WIDTH, "{encoding:?}/{text:?} line {i} is {width} wide");
                if i + 1 < lines.len() {
                    assert_eq!(width, LINE_WIDTH, "{encoding:?}/{text:?} line {i} is short");
                }
            }
            assert_eq!(deserialize_schedule(&encoded).as_ref(), Some(&schedule));
        }
    }
}

#[test]
fn wrapping_is_insignificant() {
    let schedule = Schedule {
        seed: 7,
        steps: (0..400).map(|i| ScheduleStep::Task(TaskId::from(i % 6))).collect(),
    };
    let encoded = serialize_schedule(&schedule);
    let flat = encoded.replace('\n', "");

    for width in [1, 2, 3, 76, 119, 120, 121, flat.len()] {
        let rewrapped = flat
            .chars()
            .enumerate()
            .flat_map(|(i, c)| {
                let brk = if i > 0 && i % width == 0 { Some('\n') } else { None };
                brk.into_iter().chain(std::iter::once(c))
            })
            .collect::<String>();
        assert_eq!(
            deserialize_schedule(&rewrapped).as_ref(),
            Some(&schedule),
            "failed when wrapped at {width}"
        );
    }
    assert_eq!(deserialize_schedule(&format!("  {flat}\n\n")).as_ref(), Some(&schedule));
}

#[test]
fn malformed_input_is_rejected() {
    assert_eq!(deserialize_schedule(""), None);
    assert_eq!(deserialize_schedule("00"), None, "unknown magic byte");
    assert_eq!(deserialize_schedule("zz"), None, "not hex");
    assert_eq!(deserialize_schedule("9"), None, "odd number of hex digits");

    let schedule = Schedule {
        seed: 99,
        steps: (0..50).map(|i| ScheduleStep::Task(TaskId::from(i))).collect(),
    };
    let encoded = serialize_schedule_with(&schedule, ScheduleEncoding::MoveToFront, ScheduleTextEncoding::Hex);
    for len in (2..encoded.len()).step_by(2) {
        let _ = deserialize_schedule(&encoded[..len]);
    }

    let encoded = serialize_schedule(&schedule);
    let chars = encoded.chars().collect::<Vec<_>>();
    for len in 0..chars.len() {
        let _ = deserialize_schedule(&chars[..len].iter().collect::<String>());
    }
}

#[test]
fn arbitrary_unicode_does_not_panic() {
    let alphabet: Vec<char> = [0x1400u32, 0x1401, 0x167F, 0x27C0, 0x143FA, 0x16986, 0xFE00, 0xE01EF]
        .iter()
        .map(|cp| char::from_u32(*cp).unwrap())
        .collect();

    let mut state = 0x2545_F491_4F6C_DD1Du64;
    for len in 0..300 {
        let s: String = (0..len)
            .map(|_| {
                state ^= state << 13;
                state ^= state >> 7;
                state ^= state << 17;
                alphabet[(state % alphabet.len() as u64) as usize]
            })
            .collect();
        let _ = deserialize_schedule(&s);
    }
}

#[test]
fn serialize_schedule_uses_move_to_front_and_unicode() {
    let schedule = Schedule {
        seed: 10,
        steps: vec![ScheduleStep::Task(TaskId::from(7)), ScheduleStep::Random],
    };
    assert_eq!(
        serialize_schedule(&schedule),
        serialize_schedule_with(
            &schedule,
            ScheduleEncoding::MoveToFront,
            ScheduleTextEncoding::Unicode { marks_per_cell: u32::MAX }
        )
    );
    assert_eq!(deserialize_schedule(&serialize_schedule(&schedule)), Some(schedule));
}

#[test]
fn auto_resolves_by_destination() {
    assert_eq!(ScheduleTextEncoding::default(), ScheduleTextEncoding::Auto);
    assert_eq!(
        ScheduleTextEncoding::Auto.resolve(true),
        ScheduleTextEncoding::Unicode { marks_per_cell: u32::MAX }
    );
    assert_eq!(ScheduleTextEncoding::Auto.resolve(false), ScheduleTextEncoding::Hex);
    assert_eq!(ScheduleTextEncoding::Hex.resolve(true), ScheduleTextEncoding::Hex);
    assert_eq!(ScheduleEncoding::default(), ScheduleEncoding::MoveToFront);
}

#[test]
fn fixed_width_bytes_of_a_small_schedule() {
    // Width 3 for task 5: flag 0, then 101 least significant first; a random step is flag 1.
    let schedule = Schedule {
        seed: 1,
        steps: vec![ScheduleStep::Task(TaskId::from(5)), ScheduleStep::Random],
    };
    let hex = serialize_schedule_with(&schedule, ScheduleEncoding::FixedWidth, ScheduleTextEncoding::Hex);
    assert_eq!(hex, "910302011a");
}

#[test]
fn move_to_front_bytes_of_a_small_schedule() {
    // Code 1 (new task, list empty), Elias delta of 3 = 0 11 1... then code 0 for random.
    let schedule = Schedule {
        seed: 0,
        steps: vec![ScheduleStep::Task(TaskId::from(2)), ScheduleStep::Random],
    };
    let hex = serialize_schedule_with(&schedule, ScheduleEncoding::MoveToFront, ScheduleTextEncoding::Hex);
    assert!(hex.starts_with("92020000000000000000"));
    assert_eq!(deserialize_schedule(&hex), Some(schedule));
}

#[test]
fn crc32_of_check_string() {
    assert_eq!(crc32_of(b"123456789"), 0xCBF4_3926);
    assert_eq!(crc32_of(b""), 0);
}

#[test]
fn hex_output_is_lowercase_and_uppercase_is_accepted() {
    let schedule = Schedule {
        seed: 0xABCD,
        steps: vec![ScheduleStep::Random],
    };
    let hex = serialize_schedule_with(&schedule, ScheduleEncoding::MoveToFront, ScheduleTextEncoding::Hex);
    assert_eq!(hex, hex.to_lowercase());
    assert_eq!(deserialize_schedule(&hex.to_uppercase()), Some(schedule));
}
