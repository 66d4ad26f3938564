//! The seal of an executable.

use vstd::prelude::*;

use crate::integration::ContentHash;

verus! {

/// The hashes that an executable is checked against.
#[derive(Debug)]
pub struct ExecutableSeal {
    pub root_hash: ContentHash,
    pub manifest_hash: ContentHash,
    pub profile_hashes: Vec<ContentHash>,
    pub receipt_bundle_hash: ContentHash,
    pub signature: Option<ExecutableSignature>,
}

/// Who signed an executable, and how.
#[derive(Debug)]
pub struct ExecutableSignature {
    pub signature_bytes: Vec<u8>,
    pub signer_identity: String,
    pub signature_scheme: String,
}

} // verus!
