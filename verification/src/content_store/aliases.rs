//! Objects with the same content are stored once.

use vstd::prelude::*;

use crate::integration::ContentHash;
use crate::table::NameTable;
use crate::text;

verus! {

/// Another name of an object.
#[derive(Debug)]
pub struct ContentAliasEntry {
    pub alias: String,
    pub canonical_object_id: String,
    pub canonical_content_hash: ContentHash,
    pub alias_kind: AliasKind,
}

/// Why an object has another name.
#[derive(Debug, Clone, Copy, PartialEq, Eq, Structural)]
pub enum AliasKind {
    TiedEmbedding,
    SharedExpert,
    IdenticalProjection,
    ManifestDeclared,
    ContentHashCollision,
}

/// An alias in contracts.
#[verifier::ext_equal]
pub ghost struct ContentAliasView {
    pub alias: Seq<char>,
    pub canonical: Seq<char>,
    pub hash: ContentHash,
    pub kind: AliasKind,
}

impl ContentAliasEntry {
    pub open spec fn view(&self) -> ContentAliasView {
        ContentAliasView {
            alias: self.alias@,
            canonical: self.canonical_object_id@,
            hash: self.canonical_content_hash,
            kind: self.alias_kind,
        }
    }
}

/// An object that is stored, and what storing it once has saved.
#[derive(Debug)]
pub struct DedupEntry {
    pub content_hash: ContentHash,
    pub canonical_object_id: String,
    pub ref_count: u64,
    pub total_storage_bytes: u64,
    pub dedup_savings_bytes: u64,
}

/// A stored object in contracts.
#[verifier::ext_equal]
pub ghost struct DedupView {
    pub hash: ContentHash,
    pub canonical: Seq<char>,
    pub refs: int,
    pub bytes: int,
    pub savings: int,
}

impl DedupEntry {
    pub open spec fn view(&self) -> DedupView {
        DedupView {
            hash: self.content_hash,
            canonical: self.canonical_object_id@,
            refs: self.ref_count as int,
            bytes: self.total_storage_bytes as int,
            savings: self.dedup_savings_bytes as int,
        }
    }
}

/// The stored objects, their other names, and which object each name means.
#[derive(Debug)]
pub struct ContentDedupTable {
    entries: Vec<DedupEntry>,
    aliases: Vec<ContentAliasEntry>,
    object_to_canonical: NameTable<String>,
}

/// A table in contracts.
#[verifier::ext_equal]
pub ghost struct StoreView {
    pub entries: Seq<DedupView>,
    pub aliases: Seq<ContentAliasView>,
    pub names: Map<Seq<char>, Seq<char>>,
}

/// The first stored object with the hash.
pub open spec fn entry_of_hash(entries: Seq<DedupView>, hash: ContentHash) -> Option<DedupView>
    decreases entries.len(),
{
    if entries.len() == 0 {
        None
    } else if entries[0].hash == hash {
        Some(entries[0])
    } else {
        entry_of_hash(entries.drop_first(), hash)
    }
}

/// Where the first stored object with the id stands; past the end where there
/// is none.
pub open spec fn place_of_id(entries: Seq<DedupView>, id: Seq<char>) -> int
    decreases entries.len(),
{
    if entries.len() == 0 {
        0
    } else if entries[0].canonical == id {
        0
    } else {
        1 + place_of_id(entries.drop_first(), id)
    }
}

/// An object that is named once more.
pub open spec fn referred(e: DedupView) -> DedupView {
    DedupView { refs: e.refs + 1, savings: e.savings + e.bytes, ..e }
}

/// The table after a name was given to an object.
pub open spec fn with_alias(
    t: StoreView,
    alias: Seq<char>,
    id: Seq<char>,
    hash: ContentHash,
    kind: AliasKind,
) -> StoreView {
    let k = place_of_id(t.entries, id);
    StoreView {
        entries: if k < t.entries.len() {
            t.entries.update(k, referred(t.entries[k]))
        } else {
            t.entries
        },
        aliases: t.aliases.push(ContentAliasView { alias, canonical: id, hash, kind }),
        names: t.names.insert(alias, id),
    }
}

/// The table after an object came in: a new one is stored, and one with content
/// that is stored becomes another name of that.
pub open spec fn with_object(t: StoreView, id: Seq<char>, hash: ContentHash, bytes: int) -> StoreView {
    match entry_of_hash(t.entries, hash) {
        Some(e) => with_alias(t, id, e.canonical, hash, AliasKind::ContentHashCollision),
        None => StoreView {
            entries: t.entries.push(
                DedupView { hash, canonical: id, refs: 1, bytes, savings: 0 },
            ),
            aliases: t.aliases,
            names: t.names.insert(id, id),
        },
    }
}

/// The counts of the object can grow by one more name.
pub open spec fn can_refer(entries: Seq<DedupView>, id: Seq<char>) -> bool {
    let k = place_of_id(entries, id);
    k < entries.len() ==> entries[k].refs < u64::MAX && entries[k].savings + entries[k].bytes
        <= u64::MAX
}

/// No content is stored twice, every stored object is named, and what it saved
/// is its size for every name but one.
pub open spec fn is_deduplicated(t: StoreView) -> bool {
    &&& forall|i: int, j: int|
        0 <= i < j < t.entries.len() ==> (#[trigger] t.entries[i]).hash != (
        #[trigger] t.entries[j]).hash
    &&& forall|i: int|
        0 <= i < t.entries.len() ==> {
            &&& 1 <= (#[trigger] t.entries[i]).refs
            &&& 0 <= t.entries[i].bytes
            &&& t.entries[i].savings == t.entries[i].bytes * (t.entries[i].refs - 1)
        }
}

/// The bytes that the objects would take if each name were stored.
pub open spec fn named_bytes(entries: Seq<DedupView>) -> int
    decreases entries.len(),
{
    if entries.len() == 0 {
        0
    } else {
        named_bytes(entries.drop_last()) + entries.last().bytes * entries.last().refs
    }
}

/// The bytes that the objects take.
pub open spec fn stored_bytes(entries: Seq<DedupView>) -> int
    decreases entries.len(),
{
    if entries.len() == 0 {
        0
    } else {
        stored_bytes(entries.drop_last()) + entries.last().bytes
    }
}

/// The bytes that were saved.
pub open spec fn saved_bytes(entries: Seq<DedupView>) -> int
    decreases entries.len(),
{
    if entries.len() == 0 {
        0
    } else {
        saved_bytes(entries.drop_last()) + entries.last().savings
    }
}

proof fn lemma_place(entries: Seq<DedupView>, id: Seq<char>)
    ensures
        0 <= place_of_id(entries, id) <= entries.len(),
        place_of_id(entries, id) < entries.len() ==> entries[place_of_id(entries, id)].canonical
            == id,
    decreases entries.len(),
{
    if entries.len() > 0 && entries[0].canonical != id {
        lemma_place(entries.drop_first(), id);
    }
}

proof fn lemma_hash_absent(entries: Seq<DedupView>, hash: ContentHash, i: int)
    requires
        entry_of_hash(entries, hash) is None,
        0 <= i < entries.len(),
    ensures
        entries[i].hash != hash,
    decreases entries.len(),
{
    if i > 0 {
        lemma_hash_absent(entries.drop_first(), hash, i - 1);
    }
}

proof fn lemma_alias_keeps(
    t: StoreView,
    alias: Seq<char>,
    id: Seq<char>,
    hash: ContentHash,
    kind: AliasKind,
)
    requires
        is_deduplicated(t),
    ensures
        is_deduplicated(with_alias(t, alias, id, hash, kind)),
{
    lemma_place(t.entries, id);
    let after = with_alias(t, alias, id, hash, kind);
    let k = place_of_id(t.entries, id);
    assert forall|i: int| 0 <= i < after.entries.len() implies {
        &&& 1 <= (#[trigger] after.entries[i]).refs
        &&& 0 <= after.entries[i].bytes
        &&& after.entries[i].savings == after.entries[i].bytes * (after.entries[i].refs - 1)
    } by {
        let e = t.entries[i];
        if i == k {
            assert(e.bytes * (e.refs - 1) + e.bytes == e.bytes * e.refs) by (nonlinear_arith);
        }
    }
    assert forall|i: int, j: int| 0 <= i < j < after.entries.len() implies (
    #[trigger] after.entries[i]).hash != (#[trigger] after.entries[j]).hash by {
        assert(after.entries[i].hash == t.entries[i].hash);
        assert(after.entries[j].hash == t.entries[j].hash);
    }
}

proof fn lemma_object_keeps(t: StoreView, id: Seq<char>, hash: ContentHash, bytes: int)
    requires
        is_deduplicated(t),
        0 <= bytes,
    ensures
        is_deduplicated(with_object(t, id, hash, bytes)),
{
    match entry_of_hash(t.entries, hash) {
        Some(e) => {
            lemma_alias_keeps(t, id, e.canonical, hash, AliasKind::ContentHashCollision);
        },
        None => {
            let after = with_object(t, id, hash, bytes);
            assert forall|i: int, j: int| 0 <= i < j < after.entries.len() implies (
            #[trigger] after.entries[i]).hash != (#[trigger] after.entries[j]).hash by {
                if j == t.entries.len() {
                    lemma_hash_absent(t.entries, hash, i);
                }
            }
            assert(bytes * (1 - 1) == 0);
        },
    }
}

proof fn lemma_sums_grow(entries: Seq<DedupView>, k: int)
    requires
        forall|i: int|
            0 <= i < entries.len() ==> 1 <= (#[trigger] entries[i]).refs && 0 <= entries[i].bytes,
        0 <= k <= entries.len(),
    ensures
        0 <= stored_bytes(entries.take(k)) <= named_bytes(entries.take(k)) <= named_bytes(entries),
    decreases entries.len(),
{
    if k < entries.len() {
        let e = entries.last();
        assert(entries[entries.len() - 1] == e);
        assert(0 <= e.bytes * e.refs) by (nonlinear_arith)
            requires
                0 <= e.bytes,
                1 <= e.refs,
        ;
        assert forall|i: int| 0 <= i < entries.drop_last().len() implies 1 <= (
        #[trigger] entries.drop_last()[i]).refs && 0 <= entries.drop_last()[i].bytes by {
            assert(entries.drop_last()[i] == entries[i]);
        }
        lemma_sums_grow(entries.drop_last(), k);
        assert(entries.drop_last().take(k) =~= entries.take(k));
    } else {
        assert(entries.take(k) =~= entries);
        if k > 0 {
            let e = entries.last();
            assert(entries[k - 1] == e);
            assert(e.bytes <= e.bytes * e.refs) by (nonlinear_arith)
                requires
                    0 <= e.bytes,
                    1 <= e.refs,
            ;
            assert forall|i: int| 0 <= i < entries.drop_last().len() implies 1 <= (
            #[trigger] entries.drop_last()[i]).refs && 0 <= entries.drop_last()[i].bytes by {
                assert(entries.drop_last()[i] == entries[i]);
            }
            lemma_sums_grow(entries.drop_last(), k - 1);
            assert(entries.drop_last().take(k - 1) =~= entries.drop_last());
        }
    }
}

impl ContentDedupTable {
    pub closed spec fn view(&self) -> StoreView {
        StoreView {
            entries: self.entries@.map_values(|e: DedupEntry| e@),
            aliases: self.aliases@.map_values(|a: ContentAliasEntry| a@),
            names: self.object_to_canonical@.map_values(|s: String| s@),
        }
    }

    pub closed spec fn wf(&self) -> bool {
        &&& self.object_to_canonical.wf()
        &&& is_deduplicated(self@)
    }

    /// The empty table.
    pub fn new() -> (r: Self)
        ensures
            r.wf(),
            r@ == (StoreView { entries: Seq::empty(), aliases: Seq::empty(), names: Map::empty() }),
    {
        let r: ContentDedupTable = ContentDedupTable {
            entries: Vec::new(),
            aliases: Vec::new(),
            object_to_canonical: NameTable::new(),
        };
        assert(r@.entries =~= Seq::<DedupView>::empty());
        assert(r@.aliases =~= Seq::<ContentAliasView>::empty());
        assert(r@.names =~= Map::<Seq<char>, Seq<char>>::empty());
        r
    }

    fn find_hash(&self, hash: ContentHash) -> (r: Option<usize>)
        ensures
            match r {
                Some(i) => i < self@.entries.len() && entry_of_hash(self@.entries, hash) == Some(
                    self@.entries[i as int],
                ),
                None => entry_of_hash(self@.entries, hash) is None,
            },
    {
        let ghost all = self@.entries;
        let mut i: usize = 0;
        assert(all.skip(0) =~= all);
        while i < self.entries.len()
            invariant
                i <= self.entries@.len(),
                all == self@.entries,
                entry_of_hash(all, hash) == entry_of_hash(all.skip(i as int), hash),
            decreases self.entries@.len() - i,
        {
            assert(all.skip(i as int)[0] == self.entries@[i as int]@);
            if self.entries[i].content_hash == hash {
                return Some(i);
            }
            assert(all.skip(i as int).drop_first() =~= all.skip(i + 1));
            i = i + 1;
        }
        None
    }

    fn find_id(&self, id: &str) -> (r: usize)
        ensures
            r == place_of_id(self@.entries, id@),
    {
        let ghost all = self@.entries;
        let mut i: usize = 0;
        assert(all.skip(0) =~= all);
        while i < self.entries.len()
            invariant
                i <= self.entries@.len(),
                all == self@.entries,
                place_of_id(all, id@) == i + place_of_id(all.skip(i as int), id@),
            decreases self.entries@.len() - i,
        {
            assert(all.skip(i as int)[0] == self.entries@[i as int]@);
            if text::same_text(self.entries[i].canonical_object_id.as_str(), id) {
                return i;
            }
            assert(all.skip(i as int).drop_first() =~= all.skip(i + 1));
            i = i + 1;
        }
        i
    }

    /// Takes an object in. One with content that is stored already becomes
    /// another name of that.
    pub fn register_object(&mut self, object_id: &str, content_hash: ContentHash, storage_bytes: u64)
        requires
            old(self).wf(),
            entry_of_hash(old(self)@.entries, content_hash) matches Some(e) ==> can_refer(
                old(self)@.entries,
                e.canonical,
            ),
        ensures
            final(self).wf(),
            final(self)@ == with_object(
                old(self)@,
                object_id@,
                content_hash,
                storage_bytes as int,
            ),
    {
        let ghost before = self@;
        proof {
            lemma_object_keeps(before, object_id@, content_hash, storage_bytes as int);
        }
        match self.find_hash(content_hash) {
            Some(i) => {
                let canonical: String = self.entries[i].canonical_object_id.clone();
                self.add_alias(
                    object_id,
                    canonical.as_str(),
                    content_hash,
                    AliasKind::ContentHashCollision,
                );
            },
            None => {
                self.object_to_canonical.insert(object_id.to_owned(), object_id.to_owned());
                let entry: DedupEntry = DedupEntry {
                    content_hash,
                    canonical_object_id: object_id.to_owned(),
                    ref_count: 1,
                    total_storage_bytes: storage_bytes,
                    dedup_savings_bytes: 0,
                };
                let ghost view = entry@;
                self.entries.push(entry);
                assert(self@.entries =~= before.entries.push(view));
                assert(self@.aliases =~= before.aliases);
                assert(self@.names =~= before.names.insert(object_id@, object_id@));
            },
        }
    }

    /// Gives an object another name.
    pub fn add_alias(
        &mut self,
        alias: &str,
        canonical_object_id: &str,
        content_hash: ContentHash,
        kind: AliasKind,
    )
        requires
            old(self).wf(),
            can_refer(old(self)@.entries, canonical_object_id@),
        ensures
            final(self).wf(),
            final(self)@ == with_alias(
                old(self)@,
                alias@,
                canonical_object_id@,
                content_hash,
                kind,
            ),
    {
        let ghost before = self@;
        proof {
            lemma_place(before.entries, canonical_object_id@);
            lemma_alias_keeps(before, alias@, canonical_object_id@, content_hash, kind);
        }
        let k: usize = self.find_id(canonical_object_id);
        self.object_to_canonical.insert(alias.to_owned(), canonical_object_id.to_owned());
        let entry: ContentAliasEntry = ContentAliasEntry {
            alias: alias.to_owned(),
            canonical_object_id: canonical_object_id.to_owned(),
            canonical_content_hash: content_hash,
            alias_kind: kind,
        };
        let ghost view = entry@;
        self.aliases.push(entry);
        let ghost middle = self.entries@;
        assert(before.entries =~= middle.map_values(|e: DedupEntry| e@));
        if k < self.entries.len() {
            assert(before.entries[k as int] == middle[k as int]@);
            self.entries[k].ref_count = self.entries[k].ref_count + 1;
            self.entries[k].dedup_savings_bytes = self.entries[k].dedup_savings_bytes
                + self.entries[k].total_storage_bytes;
            assert(self.entries@[k as int]@ =~= referred(before.entries[k as int]));
            assert(self@.entries =~= before.entries.update(
                k as int,
                referred(before.entries[k as int]),
            ));
        }
        assert(self@.aliases =~= before.aliases.push(view));
        assert(self@.names =~= before.names.insert(alias@, canonical_object_id@));
    }

    /// The object that a name means.
    pub fn resolve(&self, object_id: &str) -> (r: Option<&str>)
        requires
            self.wf(),
        ensures
            match r {
                Some(s) => self@.names.dom().contains(object_id@) && self@.names[object_id@] == s@,
                None => !self@.names.dom().contains(object_id@),
            },
    {
        match self.object_to_canonical.get(object_id) {
            Some(s) => Some(s.as_str()),
            None => None,
        }
    }

    /// The saved bytes over the bytes that the names would take: the two sides
    /// of the fraction.
    pub fn dedup_ratio(&self) -> (r: (u64, u64))
        requires
            self.wf(),
            named_bytes(self@.entries) <= u64::MAX,
        ensures
            r.0 == named_bytes(self@.entries) - stored_bytes(self@.entries),
            r.1 == named_bytes(self@.entries),
    {
        let ghost all = self@.entries;
        let mut total: u64 = 0;
        let mut unique: u64 = 0;
        let mut i: usize = 0;
        while i < self.entries.len()
            invariant
                i <= self.entries@.len(),
                all == self@.entries,
                is_deduplicated(self@),
                named_bytes(all) <= u64::MAX,
                total == named_bytes(all.take(i as int)),
                unique == stored_bytes(all.take(i as int)),
            decreases self.entries@.len() - i,
        {
            proof {
                let next = all.take(i + 1);
                assert(next.drop_last() =~= all.take(i as int));
                assert(next.last() == self.entries@[i as int]@);
                lemma_sums_grow(all, i as int);
                lemma_sums_grow(all, i + 1);
            }
            total = total + self.entries[i].total_storage_bytes * self.entries[i].ref_count;
            unique = unique + self.entries[i].total_storage_bytes;
            i = i + 1;
        }
        proof {
            assert(all.take(all.len() as int) =~= all);
            lemma_sums_grow(all, all.len() as int);
        }
        (total - unique, total)
    }

    /// The stored objects.
    pub fn entry_count(&self) -> (r: usize)
        ensures
            r == self@.entries.len(),
    {
        self.entries.len()
    }

    /// The names given.
    pub fn alias_count(&self) -> (r: usize)
        ensures
            r == self@.aliases.len(),
    {
        self.aliases.len()
    }
}

/// An object that came in means a stored object with its hash.
pub proof fn law_registered_object_resolves(
    t: StoreView,
    id: Seq<char>,
    hash: ContentHash,
    bytes: int,
)
    ensures
        ({
            let after = with_object(t, id, hash, bytes);
            &&& after.names.dom().contains(id)
            &&& entry_of_hash(after.entries, hash) matches Some(e) && e.canonical
                == after.names[id]
        }),
{
    let after = with_object(t, id, hash, bytes);
    match entry_of_hash(t.entries, hash) {
        Some(e) => {
            lemma_canonical_after_alias(
                t,
                id,
                e.canonical,
                hash,
                AliasKind::ContentHashCollision,
                hash,
            );
        },
        None => {
            lemma_canonical_after_push(t.entries, after.entries.last(), hash);
        },
    }
}

/// Content that is stored is not stored again: the objects stay, and one more
/// name is listed.
pub proof fn law_stored_content_is_not_stored_again(
    t: StoreView,
    id: Seq<char>,
    hash: ContentHash,
    bytes: int,
)
    requires
        entry_of_hash(t.entries, hash) is Some,
    ensures
        with_object(t, id, hash, bytes).entries.len() == t.entries.len(),
        with_object(t, id, hash, bytes).aliases.len() == t.aliases.len() + 1,
        stored_bytes(with_object(t, id, hash, bytes).entries) == stored_bytes(t.entries),
{
    let c = (entry_of_hash(t.entries, hash)->0).canonical;
    lemma_place(t.entries, c);
    lemma_stored_after_update(t.entries, place_of_id(t.entries, c));
}

proof fn lemma_stored_after_update(entries: Seq<DedupView>, k: int)
    requires
        0 <= k <= entries.len(),
    ensures
        k < entries.len() ==> stored_bytes(entries.update(k, referred(entries[k])))
            == stored_bytes(entries),
    decreases entries.len(),
{
    if k < entries.len() - 1 {
        lemma_stored_after_update(entries.drop_last(), k);
        assert(entries.update(k, referred(entries[k])).drop_last() =~= entries.drop_last().update(
            k,
            referred(entries.drop_last()[k]),
        ));
    } else if k == entries.len() - 1 {
        assert(entries.update(k, referred(entries[k])).drop_last() =~= entries.drop_last());
    }
}

/// What the objects saved is what their names would take less what they take.
pub proof fn law_savings_add_up(t: StoreView)
    requires
        is_deduplicated(t),
    ensures
        saved_bytes(t.entries) == named_bytes(t.entries) - stored_bytes(t.entries),
    decreases t.entries.len(),
{
    if t.entries.len() > 0 {
        let before = StoreView { entries: t.entries.drop_last(), ..t };
        assert forall|i: int| 0 <= i < before.entries.len() implies {
            &&& 1 <= (#[trigger] before.entries[i]).refs
            &&& 0 <= before.entries[i].bytes
            &&& before.entries[i].savings == before.entries[i].bytes * (before.entries[i].refs - 1)
        } by {
            assert(before.entries[i] == t.entries[i]);
        }
        assert forall|i: int, j: int| 0 <= i < j < before.entries.len() implies (
        #[trigger] before.entries[i]).hash != (#[trigger] before.entries[j]).hash by {
            assert(before.entries[i] == t.entries[i] && before.entries[j] == t.entries[j]);
        }
        law_savings_add_up(before);
        let e = t.entries.last();
        assert(t.entries[t.entries.len() - 1] == e);
        assert(e.bytes * (e.refs - 1) == e.bytes * e.refs - e.bytes) by (nonlinear_arith);
    }
}

/// A call that changes a table.
pub ghost enum StoreCall {
    Register { id: Seq<char>, hash: ContentHash, bytes: int },
    Alias { alias: Seq<char>, id: Seq<char>, hash: ContentHash, kind: AliasKind },
}

/// The table that calls on an empty one come to.
pub open spec fn stored(calls: Seq<StoreCall>) -> StoreView
    decreases calls.len(),
{
    if calls.len() == 0 {
        StoreView { entries: Seq::empty(), aliases: Seq::empty(), names: Map::empty() }
    } else {
        let t = stored(calls.drop_last());
        match calls.last() {
            StoreCall::Register { id, hash, bytes } => with_object(t, id, hash, bytes),
            StoreCall::Alias { alias, id, hash, kind } => with_alias(t, alias, id, hash, kind),
        }
    }
}

/// The hashes of the objects that calls take in.
pub open spec fn registered_hashes(calls: Seq<StoreCall>) -> Set<ContentHash>
    decreases calls.len(),
{
    if calls.len() == 0 {
        Set::empty()
    } else {
        let rest = registered_hashes(calls.drop_last());
        match calls.last() {
            StoreCall::Register { hash, .. } => rest.insert(hash),
            StoreCall::Alias { .. } => rest,
        }
    }
}

/// The hashes of stored objects.
pub open spec fn entry_hashes(entries: Seq<DedupView>) -> Seq<ContentHash> {
    entries.map_values(|e: DedupView| e.hash)
}

proof fn lemma_hash_present(entries: Seq<DedupView>, hash: ContentHash)
    requires
        entry_of_hash(entries, hash) is Some,
    ensures
        entry_hashes(entries).contains(hash),
    decreases entries.len(),
{
    if entries[0].hash == hash {
        assert(entry_hashes(entries)[0] == hash);
    } else {
        let rest = entries.drop_first();
        lemma_hash_present(rest, hash);
        let i = choose|i: int| 0 <= i < rest.len() && entry_hashes(rest)[i] == hash;
        assert(entry_hashes(entries)[i + 1] == hash);
    }
}

proof fn lemma_alias_keeps_hashes(
    t: StoreView,
    alias: Seq<char>,
    id: Seq<char>,
    hash: ContentHash,
    kind: AliasKind,
)
    ensures
        entry_hashes(with_alias(t, alias, id, hash, kind).entries) == entry_hashes(t.entries),
{
    lemma_place(t.entries, id);
    assert(entry_hashes(with_alias(t, alias, id, hash, kind).entries) =~= entry_hashes(t.entries));
}

/// Each call on a table stores an object or lists a name, and the stored objects
/// are as many as there are different contents among those that were taken in.
pub proof fn law_counts_follow_calls(calls: Seq<StoreCall>)
    ensures
        stored(calls).entries.len() + stored(calls).aliases.len() == calls.len(),
        entry_hashes(stored(calls).entries).no_duplicates(),
        entry_hashes(stored(calls).entries).to_set() == registered_hashes(calls),
        registered_hashes(calls).finite(),
        stored(calls).entries.len() == registered_hashes(calls).len(),
    decreases calls.len(),
{
    let after = stored(calls);
    let hashes = entry_hashes(after.entries);
    if calls.len() == 0 {
        assert(hashes.to_set() =~= Set::<ContentHash>::empty());
    } else {
        let t = stored(calls.drop_last());
        let before = entry_hashes(t.entries);
        law_counts_follow_calls(calls.drop_last());
        match calls.last() {
            StoreCall::Register { id, hash, bytes } => {
                match entry_of_hash(t.entries, hash) {
                    Some(e) => {
                        lemma_place(t.entries, e.canonical);
                        lemma_alias_keeps_hashes(
                            t,
                            id,
                            e.canonical,
                            hash,
                            AliasKind::ContentHashCollision,
                        );
                        lemma_hash_present(t.entries, hash);
                        assert(before.to_set().contains(hash));
                        assert(registered_hashes(calls) =~= before.to_set());
                    },
                    None => {
                        assert(hashes =~= before.push(hash));
                        assert forall|i: int| 0 <= i < before.len() implies before[i] != hash by {
                            lemma_hash_absent(t.entries, hash, i);
                        }
                        assert forall|h: ContentHash| #[trigger]
                            hashes.to_set().contains(h) == registered_hashes(calls).contains(h) by {
                            if hashes.contains(h) {
                                let i = choose|i: int| 0 <= i < hashes.len() && hashes[i] == h;
                                if i < before.len() {
                                    assert(before.contains(before[i]));
                                    assert(before.to_set().contains(h));
                                }
                            }
                            if before.to_set().contains(h) {
                                let i = choose|i: int| 0 <= i < before.len() && before[i] == h;
                                assert(hashes[i] == h);
                            }
                            assert(hashes[before.len() as int] == hash);
                        }
                        assert(hashes.to_set() =~= registered_hashes(calls));
                    },
                }
            },
            StoreCall::Alias { alias, id, hash, kind } => {
                lemma_place(t.entries, id);
                lemma_alias_keeps_hashes(t, alias, id, hash, kind);
            },
        }
    }
    hashes.unique_seq_to_set();
}

/// The object by which content first came in.
pub open spec fn first_registered(calls: Seq<StoreCall>, hash: ContentHash) -> Option<Seq<char>>
    decreases calls.len(),
{
    if calls.len() == 0 {
        None
    } else {
        let earlier = first_registered(calls.drop_last(), hash);
        match calls.last() {
            StoreCall::Register { id, hash: h, .. } => if earlier is None && h == hash {
                Some(id)
            } else {
                earlier
            },
            StoreCall::Alias { .. } => earlier,
        }
    }
}

/// The id of the first stored object with the hash.
pub open spec fn canonical_of(entries: Seq<DedupView>, hash: ContentHash) -> Option<Seq<char>> {
    match entry_of_hash(entries, hash) {
        Some(e) => Some(e.canonical),
        None => None,
    }
}

proof fn lemma_canonical_after_update(entries: Seq<DedupView>, hash: ContentHash, k: int)
    requires
        0 <= k < entries.len(),
    ensures
        canonical_of(entries.update(k, referred(entries[k])), hash) == canonical_of(entries, hash),
    decreases entries.len(),
{
    let after = entries.update(k, referred(entries[k]));
    if entries[0].hash != hash {
        if k > 0 {
            lemma_canonical_after_update(entries.drop_first(), hash, k - 1);
            assert(after.drop_first() =~= entries.drop_first().update(
                k - 1,
                referred(entries.drop_first()[k - 1]),
            ));
        } else {
            assert(after.drop_first() =~= entries.drop_first());
        }
    }
}

proof fn lemma_canonical_after_push(entries: Seq<DedupView>, e: DedupView, hash: ContentHash)
    ensures
        canonical_of(entries.push(e), hash) == (if canonical_of(entries, hash) is None && e.hash
            == hash {
            Some(e.canonical)
        } else {
            canonical_of(entries, hash)
        }),
    decreases entries.len(),
{
    let after = entries.push(e);
    if entries.len() == 0 {
        assert(after[0] == e);
        assert(after.drop_first() =~= Seq::<DedupView>::empty());
        assert(entry_of_hash(after.drop_first(), hash) is None);
    } else {
        lemma_canonical_after_push(entries.drop_first(), e, hash);
        assert(after.drop_first() =~= entries.drop_first().push(e));
        assert(after[0] == entries[0]);
    }
}

proof fn lemma_canonical_after_alias(
    t: StoreView,
    alias: Seq<char>,
    id: Seq<char>,
    h: ContentHash,
    kind: AliasKind,
    hash: ContentHash,
)
    ensures
        canonical_of(with_alias(t, alias, id, h, kind).entries, hash) == canonical_of(
            t.entries,
            hash,
        ),
{
    lemma_place(t.entries, id);
    let k = place_of_id(t.entries, id);
    if k < t.entries.len() {
        lemma_canonical_after_update(t.entries, hash, k);
    }
}

/// What is stored of content is the object by which it first came in, whatever
/// calls were made since.
pub proof fn law_first_object_is_stored(calls: Seq<StoreCall>, hash: ContentHash)
    ensures
        canonical_of(stored(calls).entries, hash) == first_registered(calls, hash),
    decreases calls.len(),
{
    if calls.len() > 0 {
        let t = stored(calls.drop_last());
        law_first_object_is_stored(calls.drop_last(), hash);
        match calls.last() {
            StoreCall::Register { id, hash: h, bytes } => {
                match entry_of_hash(t.entries, h) {
                    Some(e) => {
                        lemma_canonical_after_alias(
                            t,
                            id,
                            e.canonical,
                            h,
                            AliasKind::ContentHashCollision,
                            hash,
                        );
                    },
                    None => {
                        let e = DedupView { hash: h, canonical: id, refs: 1, bytes, savings: 0 };
                        lemma_canonical_after_push(t.entries, e, hash);
                    },
                }
            },
            StoreCall::Alias { alias, id, hash: h, kind } => {
                lemma_canonical_after_alias(t, alias, id, h, kind, hash);
            },
        }
    }
}

/// After any calls, an object that comes in means the object by which its content
/// first came in, or itself where it is the first; every other name means what it
/// meant. The first object with a content adds to the stored objects alone, a later
/// one to the names alone.
pub proof fn law_object_means_the_first(
    calls: Seq<StoreCall>,
    id: Seq<char>,
    hash: ContentHash,
    bytes: int,
)
    ensures
        ({
            let before = stored(calls);
            let after = stored(calls.push(StoreCall::Register { id, hash, bytes }));
            let first = first_registered(calls, hash);
            &&& after == with_object(before, id, hash, bytes)
            &&& after.names == before.names.insert(
                id,
                if first is Some {
                    first->0
                } else {
                    id
                },
            )
            &&& after.entries.len() == before.entries.len() + if first is Some {
                0int
            } else {
                1
            }
            &&& after.aliases.len() == before.aliases.len() + if first is Some {
                1int
            } else {
                0
            }
        }),
{
    let grown = calls.push(StoreCall::Register { id, hash, bytes });
    assert(grown.drop_last() =~= calls);
    assert(stored(grown) == with_object(stored(calls), id, hash, bytes));
    law_first_object_is_stored(calls, hash);
    if let Some(e) = entry_of_hash(stored(calls).entries, hash) {
        lemma_place(stored(calls).entries, e.canonical);
    }
}

} // verus!
