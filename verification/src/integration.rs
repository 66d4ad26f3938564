//! Identities that the parts of an image refer to each other by.

use vstd::prelude::*;

verus! {

/// The hash of some content.
#[derive(Debug, Clone, Copy, PartialEq, Eq, Structural)]
pub struct ContentHash(pub u64);

impl Default for ContentHash {
    fn default() -> (r: Self)
        ensures
            r.0 == 0,
    {
        ContentHash(0)
    }
}

} // verus!
