//! The registry of compiled kernels.
//!
//! A kernel is compiled once for each set of constants. The registry finds it
//! again by its name and a digest of the constants.

use std::collections::hash_map::DefaultHasher;
use std::hash::Hasher;
use vstd::prelude::*;

use crate::hashing;
use crate::text;
use crate::wire;

verus! {

/// The constants that a projection kernel is compiled with, and their digest.
#[derive(Debug, Clone, Copy, PartialEq, Eq, Structural)]
pub struct ProjectionConstants {
    pub page_width: u32,
    pub sidecar_enabled: u8,
    pub instrumented: u8,
    pub digest: u64,
}

/// A flag as a byte.
pub open spec fn flag_byte(flag: bool) -> u8 {
    if flag {
        1
    } else {
        0
    }
}

/// What the constants feed to their digest.
pub open spec fn constant_writes(page_width: u32, sidecar: bool, instrumented: bool) -> Seq<
    Seq<u8>,
> {
    seq![
        wire::le_bytes(page_width as nat, 4),
        wire::le_bytes(flag_byte(sidecar) as nat, 1),
        wire::le_bytes(flag_byte(instrumented) as nat, 1),
    ]
}

/// The constants of a projection kernel.
pub open spec fn constants_of(page_width: u32, sidecar: bool, instrumented: bool) -> ProjectionConstants {
    ProjectionConstants {
        page_width,
        sidecar_enabled: flag_byte(sidecar),
        instrumented: flag_byte(instrumented),
        digest: hashing::hash_of(constant_writes(page_width, sidecar, instrumented)),
    }
}

/// The constants of a projection kernel.
pub fn projection_constants(page_width: u32, sidecar_enabled: bool, instrumented: bool) -> (r:
    ProjectionConstants)
    ensures
        r == constants_of(page_width, sidecar_enabled, instrumented),
{
    let sidecar: u8 = if sidecar_enabled {
        1
    } else {
        0
    };
    let probe: u8 = if instrumented {
        1
    } else {
        0
    };
    let mut h: DefaultHasher = DefaultHasher::new();
    hashing::write_number(&mut h, page_width as u64, 4);
    hashing::write_number(&mut h, sidecar as u64, 1);
    hashing::write_number(&mut h, probe as u64, 1);
    assert(h@ =~= constant_writes(page_width, sidecar_enabled, instrumented));
    ProjectionConstants {
        page_width,
        sidecar_enabled: sidecar,
        instrumented: probe,
        digest: h.finish(),
    }
}

/// What a kernel is found by.
#[derive(Debug)]
pub struct KernelKey {
    pub name: String,
    pub digest: u64,
}

/// The kernels that were compiled, each under its name and digest.
#[derive(Debug)]
pub struct KernelCache<P> {
    keys: Vec<KernelKey>,
    pipelines: Vec<P>,
}

impl<P> KernelCache<P> {
    /// Every key has one kernel, and no key stands twice.
    pub closed spec fn wf(&self) -> bool {
        &&& self.keys@.len() == self.pipelines@.len()
        &&& forall|i: int, j: int|
            0 <= i < j < self.keys@.len() ==> !((#[trigger] self.keys@[i]).name@ == (
            #[trigger] self.keys@[j]).name@ && self.keys@[i].digest == self.keys@[j].digest)
    }

    spec fn is_at(&self, name: Seq<char>, digest: u64, i: int) -> bool {
        0 <= i < self.keys@.len() && self.keys@[i].name@ == name && self.keys@[i].digest == digest
    }

    spec fn holds(&self, name: Seq<char>, digest: u64) -> bool {
        exists|i: int| self.is_at(name, digest, i)
    }

    spec fn place(&self, name: Seq<char>, digest: u64) -> int {
        choose|i: int| self.is_at(name, digest, i)
    }

    /// The kernels by name and digest.
    pub closed spec fn view(&self) -> Map<(Seq<char>, u64), P> {
        Map::new(
            |k: (Seq<char>, u64)| self.holds(k.0, k.1),
            |k: (Seq<char>, u64)| self.pipelines@[self.place(k.0, k.1)],
        )
    }

    /// No kernels.
    pub fn new() -> (r: Self)
        ensures
            r.wf(),
            r@ == Map::<(Seq<char>, u64), P>::empty(),
    {
        let r: KernelCache<P> = KernelCache { keys: Vec::new(), pipelines: Vec::new() };
        assert(r@ =~= Map::<(Seq<char>, u64), P>::empty());
        r
    }

    proof fn lemma_at(&self, i: int)
        requires
            self.wf(),
            0 <= i < self.keys@.len(),
        ensures
            self@.dom().contains((self.keys@[i].name@, self.keys@[i].digest)),
            self@[(self.keys@[i].name@, self.keys@[i].digest)] == self.pipelines@[i],
    {
        let n = self.keys@[i].name@;
        let d = self.keys@[i].digest;
        assert(self.is_at(n, d, i));
        assert(self.holds(n, d));
        let j = self.place(n, d);
        assert(self.is_at(n, d, j));
        assert(i == j);
    }

    /// The kernel of that name and digest.
    pub fn get(&self, name: &str, digest: u64) -> (r: Option<&P>)
        requires
            self.wf(),
        ensures
            match r {
                Some(p) => self@.dom().contains((name@, digest)) && self@[(name@, digest)] == *p,
                None => !self@.dom().contains((name@, digest)),
            },
    {
        let mut i: usize = 0;
        while i < self.keys.len()
            invariant
                i <= self.keys@.len(),
                self.wf(),
                forall|j: int| 0 <= j < i ==> !#[trigger] self.is_at(name@, digest, j),
            decreases self.keys@.len() - i,
        {
            if self.keys[i].digest == digest && text::same_text(self.keys[i].name.as_str(), name) {
                proof {
                    self.lemma_at(i as int);
                }
                return Some(&self.pipelines[i]);
            }
            i = i + 1;
        }
        None
    }

    /// Keeps a kernel that was compiled for a name and digest that had none.
    pub fn insert(&mut self, name: &str, digest: u64, pipeline: P)
        requires
            old(self).wf(),
            !old(self)@.dom().contains((name@, digest)),
        ensures
            final(self).wf(),
            final(self)@ == old(self)@.insert((name@, digest), pipeline),
    {
        let ghost before = *self;
        let key: KernelKey = KernelKey { name: name.to_owned(), digest };
        self.keys.push(key);
        self.pipelines.push(pipeline);
        proof {
            let n = before.keys@.len() as int;
            assert forall|i: int, j: int| 0 <= i < j < self.keys@.len() implies !((
            #[trigger] self.keys@[i]).name@ == (#[trigger] self.keys@[j]).name@
                && self.keys@[i].digest == self.keys@[j].digest) by {
                if j == n {
                    before.lemma_at(i);
                }
            }
            assert forall|k: (Seq<char>, u64)| #[trigger]
                self@.dom().contains(k) <==> before@.insert((name@, digest), pipeline).dom().contains(
                    k,
                ) by {
                if before@.dom().contains(k) {
                    let i = before.place(k.0, k.1);
                    assert(before.is_at(k.0, k.1, i));
                    assert(self.is_at(k.0, k.1, i));
                }
                if k == (name@, digest) {
                    assert(self.is_at(k.0, k.1, n));
                }
                if self@.dom().contains(k) {
                    let i = self.place(k.0, k.1);
                    assert(self.is_at(k.0, k.1, i));
                    if i < n {
                        assert(before.is_at(k.0, k.1, i));
                    }
                }
            }
            assert forall|k: (Seq<char>, u64)| #[trigger] self@.dom().contains(k) implies self@[k]
                == before@.insert((name@, digest), pipeline)[k] by {
                let i = self.place(k.0, k.1);
                    assert(self.is_at(k.0, k.1, i));
                self.lemma_at(i);
                if i < n {
                    before.lemma_at(i);
                }
            }
            assert(self@ =~= before@.insert((name@, digest), pipeline));
        }
    }
}

} // verus!
