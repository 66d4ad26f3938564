//! Hashes of content, and checks of content against them.

use std::collections::hash_map::DefaultHasher;
use std::hash::Hasher;
use vstd::prelude::*;

use crate::hashing;
use crate::integration::ContentHash;
use crate::wire;

verus! {

/// Hashes content and checks it.
#[derive(Debug, Clone, Copy)]
pub struct IntegrityVerifier;

/// The hash of some content.
pub open spec fn content_hash(data: Seq<u8>) -> ContentHash {
    ContentHash(hashing::hash_of(hashing::bytes_writes(data)))
}

/// What hashes feed to a hash over them.
pub open spec fn hash_writes(hashes: Seq<ContentHash>) -> Seq<Seq<u8>> {
    hashes.map_values(|h: ContentHash| wire::le_bytes(h.0 as nat, 8))
}

/// The hash over a list of hashes.
pub open spec fn combined_hash(hashes: Seq<ContentHash>) -> ContentHash {
    ContentHash(hashing::hash_of(hash_writes(hashes)))
}

impl IntegrityVerifier {
    pub fn new() -> Self {
        IntegrityVerifier
    }

    /// The hash of some content.
    pub fn compute_content_hash(data: &[u8]) -> (r: ContentHash)
        ensures
            r == content_hash(data@),
    {
        let mut h: DefaultHasher = DefaultHasher::new();
        hashing::write_bytes(&mut h, data);
        assert(h@ =~= hashing::bytes_writes(data@));
        ContentHash(h.finish())
    }

    /// Whether content has the hash that is expected of it.
    pub fn verify_object(data: &[u8], expected_hash: &ContentHash) -> (r: bool)
        ensures
            r == (content_hash(data@) == *expected_hash),
    {
        IntegrityVerifier::compute_content_hash(data) == *expected_hash
    }

    /// The hash over a list of hashes.
    pub fn combine_hashes(hashes: &[ContentHash]) -> (r: ContentHash)
        ensures
            r == combined_hash(hashes@),
    {
        let mut h: DefaultHasher = DefaultHasher::new();
        let mut i: usize = 0;
        assert(h@ =~= hash_writes(hashes@.take(0)));
        while i < hashes.len()
            invariant
                i <= hashes@.len(),
                h@ == hash_writes(hashes@.take(i as int)),
            decreases hashes@.len() - i,
        {
            let ghost before = h@;
            hashing::write_number(&mut h, hashes[i].0, 8);
            assert(hash_writes(hashes@.take(i + 1)) =~= before.push(
                wire::le_bytes(hashes@[i as int].0 as nat, 8),
            ));
            i = i + 1;
        }
        assert(hashes@.take(hashes@.len() as int) =~= hashes@);
        ContentHash(h.finish())
    }
}

/// The outcome of a check.
#[derive(Debug)]
pub struct IntegrityResult {
    pub object_id: String,
    pub verified: bool,
    pub expected_hash: ContentHash,
    pub computed_hash: ContentHash,
}

/// When an object was last checked.
#[derive(Debug)]
pub struct IntegrityRecord {
    pub object_id: String,
    pub checksum: ContentHash,
    pub verified_at: String,
}

/// Content that has not changed is found to be whole.
pub proof fn law_unchanged_content_verifies(data: &[u8], hash: &ContentHash, r: bool)
    requires
        call_ensures(IntegrityVerifier::compute_content_hash, (data,), *hash),
        call_ensures(IntegrityVerifier::verify_object, (data, hash), r),
    ensures
        r,
{
}

} // verus!
