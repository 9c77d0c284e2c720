//! Byte strings: the keys and values of the database.
//!
//! Keys and values are `Arc<[u8]>`, so handing one out is a reference-count
//! bump. Contracts speak of the bytes themselves, a `Seq<u8>`.

use std::sync::Arc;

use vstd::prelude::*;

verus! {

/// The bytes behind a shared byte string.
pub open spec fn bytes_of(shared: Arc<[u8]>) -> Seq<u8> {
    (*shared)@
}

/// The bytes of an optional value; `None` is a tombstone.
pub open spec fn value_of(value: Option<Arc<[u8]>>) -> Option<Seq<u8>> {
    match value {
        Some(shared) => Some(bytes_of(shared)),
        None => None,
    }
}

/// The bytes of each of a sequence of keys.
pub open spec fn keys_of(keys: Seq<Arc<[u8]>>) -> Seq<Seq<u8>> {
    Seq::new(keys.len(), |i: int| bytes_of(keys[i]))
}

/// Share a byte vector, through `Arc::<[u8]>::from`.
///
/// Trusted: the shared slice holds exactly the bytes of the vector.
#[verifier::external_body]
pub(crate) fn share(bytes: Vec<u8>) -> (shared: Arc<[u8]>)
    ensures
        bytes_of(shared) == bytes@,
{
    Arc::from(bytes)
}

/// Another reference to the same value.
pub fn share_value(value: &Option<Arc<[u8]>>) -> (copy: Option<Arc<[u8]>>)
    ensures
        value_of(copy) == value_of(*value),
{
    match value {
        Some(shared) => Some(Arc::clone(shared)),
        None => None,
    }
}

/// Whether two byte strings are equal.
pub fn same_bytes(a: &[u8], b: &[u8]) -> (same: bool)
    ensures
        same == (a@ == b@),
{
    if a.len() != b.len() {
        return false;
    }
    let mut i: usize = 0;
    while i < a.len()
        invariant
            i <= a@.len(),
            a@.len() == b@.len(),
            forall|j: int| 0 <= j < i ==> a@[j] == b@[j],
        decreases a@.len() - i,
    {
        if a[i] != b[i] {
            return false;
        }
        i += 1;
    }
    assert(a@ =~= b@);
    true
}

/// A vector of its own with the bytes of `bytes`.
pub fn copy_bytes(bytes: &[u8]) -> (copy: Vec<u8>)
    ensures
        copy@ == bytes@,
{
    let mut copy: Vec<u8> = Vec::new();
    copy.extend_from_slice(bytes);
    assert(copy@ =~= bytes@);
    copy
}

/// One step of the FNV-1a hash.
pub open spec fn fnv_step(hash: u64, byte: u8) -> u64 {
    (hash ^ (byte as u64)).wrapping_mul(0x0000_0100_0000_01b3)
}

/// The FNV-1a hash of a byte string.
pub open spec fn fnv_hash(key: Seq<u8>) -> u64
    decreases key.len(),
{
    if key.len() == 0 {
        0xcbf2_9ce4_8422_2325
    } else {
        fnv_step(fnv_hash(key.drop_last()), key.last())
    }
}

/// FNV-1a hash of a key, which picks its shard and its place in a
/// [`KeyMap`](crate::keymap::KeyMap). A non-cryptographic spread is all they need.
pub fn hash_key(key: &[u8]) -> (hash: u64)
    ensures
        hash == fnv_hash(key@),
{
    let mut hash: u64 = 0xcbf2_9ce4_8422_2325;
    let mut i: usize = 0;
    assert(key@.take(0) =~= Seq::<u8>::empty());
    while i < key.len()
        invariant
            i <= key@.len(),
            hash == fnv_hash(key@.take(i as int)),
        decreases key@.len() - i,
    {
        proof {
            assert(key@.take(i + 1).drop_last() =~= key@.take(i as int));
        }
        hash = (hash ^ (key[i] as u64)).wrapping_mul(0x0000_0100_0000_01b3);
        i += 1;
    }
    assert(key@.take(i as int) =~= key@);
    hash
}

} // verus!
