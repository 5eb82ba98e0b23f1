//! Stable signatures of the resources a test creates (locks, atomics, semaphores and the like),
//! which tell resources apart across the executions of a test. A signature hashes, with SipHash,
//! where in the source the resource is created and in what context: the signature of the task
//! creating it, and how many resources that task created there before. Two resources may share
//! a signature; a resource made in a constant context has no task to tell it apart from another
//! made at the same place.
use vstd::prelude::*;
use vstd::std_specs::cmp::PartialEqSpecImpl;
use const_siphasher::sip::SipHasher;

verus! {

/// The signature of the context of a resource created in a constant context: there is no task.
pub const CONST_CONTEXT_SIGNATURE: u64 = 0;

/// The kind of a resource.
#[derive(Clone, Copy, Debug, Hash, PartialEq, Eq, Structural)]
pub enum ResourceType {
    Atomic,
    BatchSemaphore,
    Barrier,
    Condvar,
    Mutex,
    RwLock,
    Once,
    MpscChannel,
}

/// The `n` bytes of `x`, least significant first.
pub open spec fn le_bytes(x: nat, n: nat) -> Seq<u8>
    decreases n,
{
    if n == 0 {
        Seq::empty()
    } else {
        seq![(x % 256) as u8] + le_bytes(x / 256, (n - 1) as nat)
    }
}

/// SipHash-2-4, keyed with zeros, of the bytes: what a fresh `SipHasher` of `const_siphasher`
/// finishes with once the bytes are written to it, in one piece or in several.
pub uninterp spec fn sip_hash(bytes: Seq<u8>) -> u64;

/// `SipHasher::new().hash(bytes)` of `const_siphasher`: a hasher with both keys zero, hashing
/// the bytes in one piece. The result is SipHash-2-4 of the bytes, named and not stated.
#[verifier::external_body]
fn sip_hash_bytes(bytes: &[u8]) -> (r: u64)
    ensures
        r == sip_hash(bytes@),
{
    SipHasher::new().hash(bytes)
}

/// Appends the `n` bytes of `x`, least significant first.
fn push_le_bytes(out: &mut Vec<u8>, x: u64, n: usize)
    requires
        n <= 8,
    ensures
        final(out)@ == old(out)@ + le_bytes(x as nat, n as nat),
{
    let mut v: u64 = x;
    let mut i: usize = 0;
    while i < n
        invariant
            i <= n <= 8,
            out@ + le_bytes(v as nat, (n - i) as nat) == old(out)@ + le_bytes(x as nat, n as nat),
        decreases n - i,
    {
        let ghost before = out@;
        let ghost rest = le_bytes((v / 256) as nat, (n - i - 1) as nat);
        out.push((v % 256) as u8);
        proof {
            assert(le_bytes(v as nat, (n - i) as nat) == seq![(v % 256) as u8] + rest);
            assert(out@ + rest =~= before + (seq![(v % 256) as u8] + rest));
        }
        v = v / 256;
        i = i + 1;
    }
    proof {
        assert(le_bytes(v as nat, 0) =~= Seq::<u8>::empty());
        assert(out@ + Seq::<u8>::empty() =~= out@);
    }
}

/// The bytes the location of a resource is hashed from: its line and its column. The file does
/// not enter the hash.
pub open spec fn location_bytes(line: u32, column: u32) -> Seq<u8> {
    le_bytes(line as nat, 4) + le_bytes(column as nat, 4)
}

/// The bytes a signature is hashed from: those of the location, then the location's hash, the
/// parent task's signature and the count of resources created at the location before.
pub open spec fn signature_bytes(line: u32, column: u32, parent: u64, counter: u32) -> Seq<u8> {
    location_bytes(line, column) + le_bytes(sip_hash(location_bytes(line, column)) as nat, 8) + le_bytes(
        parent as nat,
        8,
    ) + le_bytes(counter as nat, 4)
}

/// The signature of a resource: its kind, where it was created, in what context, and the
/// hashes that identify it.
#[derive(Clone, Debug)]
pub struct ResourceSignature {
    resource_type: ResourceType,
    file: &'static str,
    line: u32,
    column: u32,
    parent_task_signature: u64,
    create_location_counter: u32,
    static_create_location_hash: u64,
    signature_hash: u64,
}

impl ResourceSignature {
    pub closed spec fn resource_type(&self) -> ResourceType {
        self.resource_type
    }

    /// The file, line and column of the place in the source where the resource is created.
    pub closed spec fn location(&self) -> (&'static str, u32, u32) {
        (self.file, self.line, self.column)
    }

    pub closed spec fn parent_signature(&self) -> u64 {
        self.parent_task_signature
    }

    pub closed spec fn counter(&self) -> u32 {
        self.create_location_counter
    }

    pub closed spec fn location_hash(&self) -> u64 {
        self.static_create_location_hash
    }

    pub closed spec fn hash(&self) -> u64 {
        self.signature_hash
    }

    /// The signature of a resource of kind `resource_type` created at `file`, `line` and
    /// `column`, by a task whose signature is `parent_task_signature`, which had created
    /// `create_location_counter - 1` resources there before.
    pub fn new(
        resource_type: ResourceType,
        file: &'static str,
        line: u32,
        column: u32,
        parent_task_signature: u64,
        create_location_counter: u32,
    ) -> (r: ResourceSignature)
        ensures
            r.resource_type() == resource_type,
            r.location() == (file, line, column),
            r.parent_signature() == parent_task_signature,
            r.counter() == create_location_counter,
            r.location_hash() == sip_hash(location_bytes(line, column)),
            r.hash() == sip_hash(signature_bytes(line, column, parent_task_signature, create_location_counter)),
    {
        let mut bytes: Vec<u8> = Vec::new();
        push_le_bytes(&mut bytes, line as u64, 4);
        push_le_bytes(&mut bytes, column as u64, 4);
        proof {
            assert(bytes@ =~= location_bytes(line, column));
        }
        let static_create_location_hash = sip_hash_bytes(bytes.as_slice());
        push_le_bytes(&mut bytes, static_create_location_hash, 8);
        push_le_bytes(&mut bytes, parent_task_signature, 8);
        push_le_bytes(&mut bytes, create_location_counter as u64, 4);
        proof {
            assert(bytes@ =~= signature_bytes(line, column, parent_task_signature, create_location_counter));
        }
        let signature_hash = sip_hash_bytes(bytes.as_slice());
        ResourceSignature {
            resource_type,
            file,
            line,
            column,
            parent_task_signature,
            create_location_counter,
            static_create_location_hash,
            signature_hash,
        }
    }

    /// The signature of a resource created in a constant context, where there is no task: the
    /// first at its location in the constant context.
    pub fn new_const(resource_type: ResourceType, file: &'static str, line: u32, column: u32) -> (r: ResourceSignature)
        ensures
            r.resource_type() == resource_type,
            r.location() == (file, line, column),
            r.parent_signature() == CONST_CONTEXT_SIGNATURE,
            r.counter() == 1,
            r.location_hash() == sip_hash(location_bytes(line, column)),
            r.hash() == sip_hash(signature_bytes(line, column, CONST_CONTEXT_SIGNATURE, 1)),
    {
        Self::new(resource_type, file, line, column, CONST_CONTEXT_SIGNATURE, 1)
    }

    /// The kind of the resource.
    pub fn kind(&self) -> (r: ResourceType)
        ensures
            r == self.resource_type(),
    {
        self.resource_type
    }

    /// The hash of the place in the source where the resource is created.
    pub fn static_create_location_hash(&self) -> (r: u64)
        ensures
            r == self.location_hash(),
    {
        self.static_create_location_hash
    }

    /// The hash of the place and the context where the resource is created.
    pub fn signature_hash(&self) -> (r: u64)
        ensures
            r == self.hash(),
    {
        self.signature_hash
    }

}

/// Two signatures are the same when their hashes are.
impl PartialEq for ResourceSignature {
    fn eq(&self, other: &Self) -> (r: bool) {
        self.signature_hash == other.signature_hash
    }
}

impl PartialEqSpecImpl for ResourceSignature {
    open spec fn obeys_eq_spec() -> bool {
        true
    }

    open spec fn eq_spec(&self, other: &Self) -> bool {
        self.hash() == other.hash()
    }
}

impl Eq for ResourceSignature {}

/// Signatures are stable across executions: two made at the same line and column, in the same
/// context and with the same count are the same signature, whatever their kind or file.
pub proof fn lemma_signature_stable(a: ResourceSignature, b: ResourceSignature)
    requires
        a.location().1 == b.location().1,
        a.location().2 == b.location().2,
        a.parent_signature() == b.parent_signature(),
        a.counter() == b.counter(),
        a.hash() == sip_hash(signature_bytes(a.location().1, a.location().2, a.parent_signature(), a.counter())),
        b.hash() == sip_hash(signature_bytes(b.location().1, b.location().2, b.parent_signature(), b.counter())),
    ensures
        a.hash() == b.hash(),
{
}

} // verus!
