use const_siphasher::sip::SipHasher;
use shuttle::signature::{ResourceSignature, ResourceType, CONST_CONTEXT_SIGNATURE};

/// The hashes computed by writing the fields to one hasher in turn, finishing it twice.
fn incremental_hashes(file: &str, line: u32, column: u32, parent: u64, counter: u32) -> (u64, u64) {
    let mut hasher = SipHasher::new();
    let _ = hasher.hash(file.as_bytes());
    hasher.write_u32(line);
    hasher.write_u32(column);
    let location = hasher.finish();
    hasher.write_u64(location);
    hasher.write_u64(parent);
    hasher.write_u32(counter);
    (location, hasher.finish())
}

#[test]
fn signature_hashes_match_incremental_hashing() {
    for &(line, column, parent, counter) in &[(1u32, 1u32, 0u64, 1u32), (42, 17, 0xdead_beef, 3), (u32::MAX, 0, u64::MAX, u32::MAX)] {
        let s = ResourceSignature::new(ResourceType::Mutex, "src/lib.rs", line, column, parent, counter);
        let (location, signature) = incremental_hashes("src/lib.rs", line, column, parent, counter);
        assert_eq!(s.static_create_location_hash(), location);
        assert_eq!(s.signature_hash(), signature);
        assert_eq!(s.kind(), ResourceType::Mutex);
    }
}

#[test]
fn const_signatures_have_no_parent_and_count_one() {
    let c = ResourceSignature::new_const(ResourceType::Atomic, "src/a.rs", 10, 5);
    let n = ResourceSignature::new(ResourceType::Atomic, "src/a.rs", 10, 5, CONST_CONTEXT_SIGNATURE, 1);
    assert_eq!(c.signature_hash(), n.signature_hash());
    assert!(c == n);
}

#[test]
fn signatures_differ_by_context_not_by_kind_or_file() {
    let a = ResourceSignature::new(ResourceType::Mutex, "src/a.rs", 7, 9, 11, 1);
    let b = ResourceSignature::new(ResourceType::RwLock, "src/b.rs", 7, 9, 11, 1);
    assert!(a == b);
    let second = ResourceSignature::new(ResourceType::Mutex, "src/a.rs", 7, 9, 11, 2);
    assert!(a != second);
    let other_parent = ResourceSignature::new(ResourceType::Mutex, "src/a.rs", 7, 9, 12, 1);
    assert!(a != other_parent);
    assert_eq!(a.static_create_location_hash(), other_parent.static_create_location_hash());
}
