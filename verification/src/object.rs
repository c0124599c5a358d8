//! Object bookkeeping: object references, ownership, and metadata with
//! versioning, timestamps and custom key-value annotations.

use vstd::prelude::*;
use vstd::slice::slice_to_vec;

verus! {

/// 64-byte object identifier.
#[derive(Debug, Clone, Copy, PartialEq, Eq)]
pub struct ObjectID {
    bytes: [u8; 64],
}

impl ObjectID {
    /// Create an identifier from its raw bytes.
    pub fn new(bytes: [u8; 64]) -> (r: Self)
        ensures
            r.spec_bytes() == bytes,
    {
        Self { bytes }
    }

    /// The raw bytes of the identifier.
    pub closed spec fn spec_bytes(&self) -> [u8; 64] {
        self.bytes
    }

    /// The raw bytes of the identifier.
    pub fn bytes(&self) -> (r: &[u8; 64])
        ensures
            r == self.spec_bytes(),
    {
        &self.bytes
    }
}

/// 64-byte account address.
#[derive(Debug, Clone, Copy, PartialEq, Eq)]
pub struct SilverAddress(pub [u8; 64]);

/// Ownership of an object: held by an address, shared, or frozen.
#[derive(Debug, Clone, Copy, PartialEq, Eq)]
pub enum Owner {
    /// Owned by a single address.
    Address(SilverAddress),
    /// Shared: no single owner.
    Shared,
    /// Immutable (frozen).
    Immutable,
}

impl Owner {
    /// Whether the owner is a single address.
    pub fn is_address(&self) -> (r: bool)
        ensures
            r == (self is Address),
    {
        matches!(self, Owner::Address(_))
    }

    /// Whether the object is shared.
    pub fn is_shared(&self) -> (r: bool)
        ensures
            r == (self is Shared),
    {
        matches!(self, Owner::Shared)
    }

    /// Whether the object is immutable.
    pub fn is_immutable(&self) -> (r: bool)
        ensures
            r == (self is Immutable),
    {
        matches!(self, Owner::Immutable)
    }

    /// The owning address, when there is one.
    pub fn as_address(&self) -> (r: Option<SilverAddress>)
        ensures
            self matches Owner::Address(addr) ==> r == Some(*addr),
            !(self is Address) ==> r is None,
    {
        match self {
            Owner::Address(addr) => Some(*addr),
            _ => None,
        }
    }
}

/// Reference to a particular version of an object in storage.
#[derive(Debug, Clone, Copy, PartialEq, Eq)]
pub struct ObjectRef {
    /// The object ID.
    pub id: ObjectID,
    /// The version of the object.
    pub version: u64,
    /// The digest of the object.
    pub digest: [u8; 32],
}

impl ObjectRef {
    /// Create a new object reference.
    pub fn new(id: ObjectID, version: u64, digest: [u8; 32]) -> (r: Self)
        ensures
            r.id == id,
            r.version == version,
            r.digest == digest,
    {
        Self { id, version, digest }
    }

    /// The object ID.
    pub fn id(&self) -> (r: ObjectID)
        ensures
            r == self.id,
    {
        self.id
    }

    /// The object version.
    pub fn version(&self) -> (r: u64)
        ensures
            r == self.version,
    {
        self.version
    }

    /// The object digest.
    pub fn digest(&self) -> (r: &[u8; 32])
        ensures
            r == self.digest,
    {
        &self.digest
    }
}

/// The finite map described by a sequence of key-value entries, later
/// entries overriding earlier ones with the same key.
pub open spec fn entries_map(entries: Seq<(String, Vec<u8>)>) -> Map<Seq<char>, Seq<u8>>
    decreases entries.len(),
{
    if entries.len() == 0 {
        Map::empty()
    } else {
        entries_map(entries.drop_last()).insert(entries.last().0@, entries.last().1@)
    }
}

/// No two entries carry the same key.
pub open spec fn keys_unique(entries: Seq<(String, Vec<u8>)>) -> bool {
    forall|i: int, j: int| 0 <= i < j < entries.len() ==> entries[i].0@ != entries[j].0@
}

/// A key is in the entries' map exactly when some entry carries it.
proof fn lemma_entries_map_contains(e: Seq<(String, Vec<u8>)>, k: Seq<char>)
    ensures
        entries_map(e).contains_key(k) <==> exists|i: int| 0 <= i < e.len() && e[i].0@ == k,
    decreases e.len(),
{
    if e.len() > 0 {
        lemma_entries_map_contains(e.drop_last(), k);
        if e.last().0@ == k {
            assert(e[e.len() - 1].0@ == k);
        } else {
            if exists|i: int| 0 <= i < e.len() && e[i].0@ == k {
                let i = choose|i: int| 0 <= i < e.len() && e[i].0@ == k;
                assert(i < e.len() - 1);
                assert(e.drop_last()[i].0@ == k);
            }
        }
    }
}

/// Under unique keys, looking an entry's key up in the entries' map gives
/// that entry's value.
proof fn lemma_entries_map_get(e: Seq<(String, Vec<u8>)>, i: int)
    requires
        keys_unique(e),
        0 <= i < e.len(),
    ensures
        entries_map(e).contains_key(e[i].0@),
        entries_map(e)[e[i].0@] == e[i].1@,
    decreases e.len(),
{
    if i < e.len() - 1 {
        assert(keys_unique(e.drop_last()));
        assert(e.drop_last()[i] == e[i]);
        lemma_entries_map_get(e.drop_last(), i);
        assert(e.last().0@ != e[i].0@);
    }
}

/// Under unique keys, overwriting the entry that carries a key updates the
/// entries' map at exactly that key.
proof fn lemma_entries_map_update(e: Seq<(String, Vec<u8>)>, i: int, pair: (String, Vec<u8>))
    requires
        keys_unique(e),
        0 <= i < e.len(),
        pair.0@ == e[i].0@,
    ensures
        entries_map(e.update(i, pair)) == entries_map(e).insert(pair.0@, pair.1@),
    decreases e.len(),
{
    let updated = e.update(i, pair);
    if i == e.len() - 1 {
        assert(updated.drop_last() =~= e.drop_last());
        assert(updated.last() == pair);
        assert(entries_map(updated) =~= entries_map(e).insert(pair.0@, pair.1@));
    } else {
        assert(keys_unique(e.drop_last()));
        assert(e.drop_last()[i] == e[i]);
        lemma_entries_map_update(e.drop_last(), i, pair);
        assert(updated.drop_last() =~= e.drop_last().update(i, pair));
        assert(updated.last() == e.last());
        assert(e.last().0@ != pair.0@);
        assert(entries_map(updated) =~= entries_map(e).insert(pair.0@, pair.1@));
    }
}

/// Under unique keys, removing the entry that carries a key removes exactly
/// that key from the entries' map.
proof fn lemma_entries_map_remove(e: Seq<(String, Vec<u8>)>, i: int)
    requires
        keys_unique(e),
        0 <= i < e.len(),
    ensures
        entries_map(e.remove(i)) == entries_map(e).remove(e[i].0@),
    decreases e.len(),
{
    let k = e[i].0@;
    if i == e.len() - 1 {
        assert(e.remove(i) =~= e.drop_last());
        lemma_entries_map_contains(e.drop_last(), k);
        assert(forall|j: int| 0 <= j < e.len() - 1 ==> e.drop_last()[j].0@ != k);
        assert(!entries_map(e.drop_last()).contains_key(k));
        assert(entries_map(e.drop_last()) =~= entries_map(e).remove(k));
    } else {
        assert(keys_unique(e.drop_last()));
        assert(e.drop_last()[i] == e[i]);
        lemma_entries_map_remove(e.drop_last(), i);
        assert(e.remove(i).drop_last() =~= e.drop_last().remove(i));
        assert(e.remove(i).last() == e.last());
        assert(e.last().0@ != k);
        assert(entries_map(e.remove(i)) =~= entries_map(e).remove(k));
    }
}

/// Metadata of a stored object: identity, ownership, version, size,
/// timestamps, and custom key-value annotations.
#[derive(Debug, Clone, PartialEq, Eq)]
pub struct ObjectMetadata {
    id: ObjectID,
    owner: Owner,
    version: u64,
    size: u64,
    created_at: u64,
    modified_at: u64,
    custom: Vec<(String, Vec<u8>)>,
}

impl ObjectMetadata {
    /// The object ID.
    pub closed spec fn spec_id(&self) -> ObjectID {
        self.id
    }

    /// The object owner.
    pub closed spec fn spec_owner(&self) -> Owner {
        self.owner
    }

    /// The object version.
    pub closed spec fn spec_version(&self) -> u64 {
        self.version
    }

    /// The object size in bytes.
    pub closed spec fn spec_size(&self) -> u64 {
        self.size
    }

    /// The creation timestamp.
    pub closed spec fn spec_created_at(&self) -> u64 {
        self.created_at
    }

    /// The last-modified timestamp.
    pub closed spec fn spec_modified_at(&self) -> u64 {
        self.modified_at
    }

    /// The custom annotations, as a map from key characters to value bytes.
    pub closed spec fn custom_map(&self) -> Map<Seq<char>, Seq<u8>> {
        entries_map(self.custom@)
    }

    /// The custom annotations hold no two entries with one key.
    pub closed spec fn wf(&self) -> bool {
        keys_unique(self.custom@)
    }

    /// Everything but the custom annotations, bundled for unchanged-ness
    /// clauses.
    pub open spec fn fixed_part(&self) -> (ObjectID, Owner, u64, u64, u64, u64) {
        (
            self.spec_id(),
            self.spec_owner(),
            self.spec_version(),
            self.spec_size(),
            self.spec_created_at(),
            self.spec_modified_at(),
        )
    }

    /// Create metadata for a fresh object: version 1, not yet modified, no
    /// custom annotations.
    pub fn new(id: ObjectID, owner: Owner, size: u64, created_at: u64) -> (r: Self)
        ensures
            r.wf(),
            r.spec_id() == id,
            r.spec_owner() == owner,
            r.spec_version() == 1,
            r.spec_size() == size,
            r.spec_created_at() == created_at,
            r.spec_modified_at() == created_at,
            r.custom_map() == Map::<Seq<char>, Seq<u8>>::empty(),
    {
        Self {
            id,
            owner,
            version: 1,
            size,
            created_at,
            modified_at: created_at,
            custom: Vec::new(),
        }
    }

    /// The object ID.
    pub fn id(&self) -> (r: ObjectID)
        ensures
            r == self.spec_id(),
    {
        self.id
    }

    /// The object owner.
    pub fn owner(&self) -> (r: Owner)
        ensures
            r == self.spec_owner(),
    {
        self.owner
    }

    /// Hand the object to a new owner.
    pub fn set_owner(&mut self, owner: Owner)
        ensures
            final(self).spec_owner() == owner,
            final(self).spec_id() == old(self).spec_id(),
            final(self).spec_version() == old(self).spec_version(),
            final(self).spec_size() == old(self).spec_size(),
            final(self).spec_created_at() == old(self).spec_created_at(),
            final(self).spec_modified_at() == old(self).spec_modified_at(),
            final(self).custom_map() == old(self).custom_map(),
            final(self).wf() == old(self).wf(),
    {
        self.owner = owner;
    }

    /// The object version.
    pub fn version(&self) -> (r: u64)
        ensures
            r == self.spec_version(),
    {
        self.version
    }

    /// Record a new object version.
    pub fn set_version(&mut self, version: u64)
        ensures
            final(self).spec_version() == version,
            final(self).spec_owner() == old(self).spec_owner(),
            final(self).spec_id() == old(self).spec_id(),
            final(self).spec_size() == old(self).spec_size(),
            final(self).spec_created_at() == old(self).spec_created_at(),
            final(self).spec_modified_at() == old(self).spec_modified_at(),
            final(self).custom_map() == old(self).custom_map(),
            final(self).wf() == old(self).wf(),
    {
        self.version = version;
    }

    /// Raise the object version by one.
    pub fn increment_version(&mut self)
        requires
            old(self).spec_version() < u64::MAX,
        ensures
            final(self).spec_version() == old(self).spec_version() + 1,
            final(self).spec_owner() == old(self).spec_owner(),
            final(self).spec_id() == old(self).spec_id(),
            final(self).spec_size() == old(self).spec_size(),
            final(self).spec_created_at() == old(self).spec_created_at(),
            final(self).spec_modified_at() == old(self).spec_modified_at(),
            final(self).custom_map() == old(self).custom_map(),
            final(self).wf() == old(self).wf(),
    {
        self.version = self.version + 1;
    }

    /// The object size in bytes.
    pub fn size(&self) -> (r: u64)
        ensures
            r == self.spec_size(),
    {
        self.size
    }

    /// Record a new object size.
    pub fn set_size(&mut self, size: u64)
        ensures
            final(self).spec_size() == size,
            final(self).spec_owner() == old(self).spec_owner(),
            final(self).spec_id() == old(self).spec_id(),
            final(self).spec_version() == old(self).spec_version(),
            final(self).spec_created_at() == old(self).spec_created_at(),
            final(self).spec_modified_at() == old(self).spec_modified_at(),
            final(self).custom_map() == old(self).custom_map(),
            final(self).wf() == old(self).wf(),
    {
        self.size = size;
    }

    /// The creation timestamp.
    pub fn created_at(&self) -> (r: u64)
        ensures
            r == self.spec_created_at(),
    {
        self.created_at
    }

    /// The last-modified timestamp.
    pub fn modified_at(&self) -> (r: u64)
        ensures
            r == self.spec_modified_at(),
    {
        self.modified_at
    }

    /// Record a new last-modified timestamp.
    pub fn set_modified_at(&mut self, timestamp: u64)
        ensures
            final(self).spec_modified_at() == timestamp,
            final(self).spec_owner() == old(self).spec_owner(),
            final(self).spec_id() == old(self).spec_id(),
            final(self).spec_version() == old(self).spec_version(),
            final(self).spec_size() == old(self).spec_size(),
            final(self).spec_created_at() == old(self).spec_created_at(),
            final(self).custom_map() == old(self).custom_map(),
            final(self).wf() == old(self).wf(),
    {
        self.modified_at = timestamp;
    }

    /// Record a custom annotation, overwriting the previous value under the
    /// same key if there was one.
    pub fn set_custom(&mut self, key: &str, value: &[u8])
        requires
            old(self).wf(),
        ensures
            final(self).wf(),
            final(self).custom_map() == old(self).custom_map().insert(key@, value@),
            final(self).fixed_part() == old(self).fixed_part(),
    {
        let owned_key = key.to_owned();
        let owned_value = slice_to_vec(value);
        let n = self.custom.len();
        let mut i: usize = 0;
        while i < n
            invariant
                0 <= i <= n,
                n == self.custom@.len(),
                self == old(self),
                old(self).wf(),
                owned_key@ == key@,
                owned_value@ == value@,
                forall|j: int| 0 <= j < i ==> self.custom@[j].0@ != key@,
            decreases n - i,
        {
            if self.custom[i].0 == owned_key {
                proof {
                    lemma_entries_map_update(
                        self.custom@,
                        i as int,
                        (owned_key, owned_value),
                    );
                }
                self.custom[i] = (owned_key, owned_value);
                proof {
                    assert forall|a: int, b: int|
                        0 <= a < b < self.custom@.len() implies self.custom@[a].0@ != self.custom@[
                        b
                    ].0@ by {
                        assert(old(self).custom@[a].0@ != old(self).custom@[b].0@);
                    }
                }
                return ;
            }
            i = i + 1;
        }
        proof {
            assert(self.custom@.push((owned_key, owned_value)).drop_last() =~= self.custom@);
        }
        self.custom.push((owned_key, owned_value));
        proof {
            assert forall|a: int, b: int|
                0 <= a < b < self.custom@.len() implies self.custom@[a].0@ != self.custom@[
                b
            ].0@ by {
                if b < self.custom@.len() - 1 {
                    assert(old(self).custom@[a].0@ != old(self).custom@[b].0@);
                }
            }
        }
    }

    /// The value recorded under `key`, when there is one.
    pub fn get_custom(&self, key: &str) -> (r: Option<Vec<u8>>)
        requires
            self.wf(),
        ensures
            r matches Some(v) ==> self.custom_map().contains_key(key@) && v@ == self.custom_map()[
                key@
            ],
            r is None ==> !self.custom_map().contains_key(key@),
    {
        let owned_key = key.to_owned();
        let n = self.custom.len();
        let mut i: usize = 0;
        while i < n
            invariant
                0 <= i <= n,
                n == self.custom@.len(),
                owned_key@ == key@,
                self.wf(),
                forall|j: int| 0 <= j < i ==> self.custom@[j].0@ != key@,
            decreases n - i,
        {
            if self.custom[i].0 == owned_key {
                proof {
                    lemma_entries_map_get(self.custom@, i as int);
                }
                return Some(slice_to_vec(self.custom[i].1.as_slice()));
            }
            i = i + 1;
        }
        proof {
            lemma_entries_map_contains(self.custom@, key@);
        }
        None
    }

    /// Remove the annotation under `key`, returning its value when there
    /// was one.
    pub fn remove_custom(&mut self, key: &str) -> (r: Option<Vec<u8>>)
        requires
            old(self).wf(),
        ensures
            final(self).wf(),
            final(self).custom_map() == old(self).custom_map().remove(key@),
            final(self).fixed_part() == old(self).fixed_part(),
            r matches Some(v) ==> old(self).custom_map().contains_key(key@) && v@ == old(
                self,
            ).custom_map()[key@],
            r is None ==> !old(self).custom_map().contains_key(key@) && final(self).custom_map()
                == old(self).custom_map(),
    {
        let owned_key = key.to_owned();
        let n = self.custom.len();
        let mut i: usize = 0;
        while i < n
            invariant
                0 <= i <= n,
                n == self.custom@.len(),
                self == old(self),
                owned_key@ == key@,
                old(self).wf(),
                forall|j: int| 0 <= j < i ==> self.custom@[j].0@ != key@,
            decreases n - i,
        {
            if self.custom[i].0 == owned_key {
                proof {
                    lemma_entries_map_get(self.custom@, i as int);
                    lemma_entries_map_remove(self.custom@, i as int);
                }
                let entry = self.custom.remove(i);
                return Some(entry.1);
            }
            i = i + 1;
        }
        proof {
            lemma_entries_map_contains(self.custom@, key@);
            assert(self.custom_map() =~= self.custom_map().remove(key@));
        }
        None
    }

    /// Whether an annotation is recorded under `key`.
    pub fn has_custom(&self, key: &str) -> (r: bool)
        requires
            self.wf(),
        ensures
            r == self.custom_map().contains_key(key@),
    {
        let owned_key = key.to_owned();
        let n = self.custom.len();
        let mut i: usize = 0;
        while i < n
            invariant
                0 <= i <= n,
                n == self.custom@.len(),
                owned_key@ == key@,
                self.wf(),
                forall|j: int| 0 <= j < i ==> self.custom@[j].0@ != key@,
            decreases n - i,
        {
            if self.custom[i].0 == owned_key {
                proof {
                    lemma_entries_map_get(self.custom@, i as int);
                }
                return true;
            }
            i = i + 1;
        }
        proof {
            lemma_entries_map_contains(self.custom@, key@);
        }
        false
    }

    /// Every key with a recorded annotation, each exactly once.
    pub fn custom_keys(&self) -> (r: Vec<String>)
        requires
            self.wf(),
        ensures
            r@.len() == self.custom_map().dom().len(),
            forall|i: int, j: int| 0 <= i < j < r@.len() ==> r@[i]@ != r@[j]@,
            forall|i: int| 0 <= i < r@.len() ==> self.custom_map().contains_key(#[trigger] r@[i]@),
            forall|k: Seq<char>|
                self.custom_map().contains_key(k) ==> exists|i: int|
                    0 <= i < r@.len() && #[trigger] r@[i]@ == k,
    {
        let n = self.custom.len();
        let mut result: Vec<String> = Vec::new();
        let mut i: usize = 0;
        while i < n
            invariant
                0 <= i <= n,
                n == self.custom@.len(),
                self.wf(),
                result@.len() == i,
                forall|j: int| 0 <= j < i ==> result@[j]@ == self.custom@[j].0@,
            decreases n - i,
        {
            result.push(self.custom[i].0.clone());
            i = i + 1;
        }
        proof {
            lemma_entries_map_key_count(self.custom@);
            assert forall|k: Seq<char>| self.custom_map().contains_key(k) implies exists|i: int|
                0 <= i < result@.len() && #[trigger] result@[i]@ == k by {
                lemma_entries_map_contains(self.custom@, k);
                let i = choose|i: int| 0 <= i < self.custom@.len() && self.custom@[i].0@ == k;
                assert(result@[i]@ == k);
            }
            assert forall|i: int| 0 <= i < result@.len() implies self.custom_map().contains_key(
                #[trigger] result@[i]@,
            ) by {
                lemma_entries_map_contains(self.custom@, result@[i]@);
            }
        }
        result
    }

    /// Drop every custom annotation.
    pub fn clear_custom(&mut self)
        ensures
            final(self).wf(),
            final(self).custom_map() == Map::<Seq<char>, Seq<u8>>::empty(),
            final(self).fixed_part() == old(self).fixed_part(),
    {
        self.custom.clear();
    }

    /// How long the object has existed at `current_time`: zero when the
    /// clock reads at or before the creation time.
    pub fn age(&self, current_time: u64) -> (r: u64)
        ensures
            r == if current_time > self.spec_created_at() {
                current_time - self.spec_created_at()
            } else {
                0
            },
    {
        if current_time > self.created_at {
            current_time - self.created_at
        } else {
            0
        }
    }

    /// Whether the object was modified after creation.
    pub fn is_modified(&self) -> (r: bool)
        ensures
            r == (self.spec_modified_at() > self.spec_created_at()),
    {
        self.modified_at > self.created_at
    }

    /// How long ago the object was last modified at `current_time`: zero
    /// when the clock reads at or before the modification time.
    pub fn time_since_modified(&self, current_time: u64) -> (r: u64)
        ensures
            r == if current_time > self.spec_modified_at() {
                current_time - self.spec_modified_at()
            } else {
                0
            },
    {
        if current_time > self.modified_at {
            current_time - self.modified_at
        } else {
            0
        }
    }
}

/// Under unique keys, the entries' map has exactly one key per entry.
proof fn lemma_entries_map_key_count(e: Seq<(String, Vec<u8>)>)
    requires
        keys_unique(e),
    ensures
        entries_map(e).dom().len() == e.len(),
        entries_map(e).dom().finite(),
    decreases e.len(),
{
    if e.len() > 0 {
        assert(keys_unique(e.drop_last()));
        lemma_entries_map_key_count(e.drop_last());
        lemma_entries_map_contains(e.drop_last(), e.last().0@);
        assert(forall|j: int| 0 <= j < e.len() - 1 ==> e.drop_last()[j].0@ != e.last().0@);
        assert(!entries_map(e.drop_last()).contains_key(e.last().0@));
        assert(entries_map(e).dom() =~= entries_map(e.drop_last()).dom().insert(e.last().0@));
        vstd::set::axiom_set_insert_len(entries_map(e.drop_last()).dom(), e.last().0@);
        vstd::set::axiom_set_insert_finite(entries_map(e.drop_last()).dom(), e.last().0@);
    }
}

} // verus!
