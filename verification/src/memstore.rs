//! An in-memory blob store satisfying the backends' capability contract:
//! writes create a blob under a deterministically derived locator, deletes
//! are idempotent, and whatever a finished write stored, a read returns
//! byte for byte.  The orchestrator and the sweeper are verified against
//! this store; the embedding program mirrors the same contract on a real
//! filesystem or object store.

use crate::store::blob_name;
use crate::store::garage_key;
use crate::store::spec_blob_path;
use crate::store::spec_garage_key;
use crate::store::str_eq;
use crate::store::GarageData;
use crate::store::InitFile;
use crate::store::LocalFsData;
use crate::store::Locator;
use crate::store::StorageBackendType;
use vstd::prelude::*;

verus! {

/// One stored blob.
pub struct MemEntry {
    pub key: String,
    pub data: Vec<u8>,
}

/// The storage key a locator addresses.
pub open spec fn spec_locator_key(l: Locator) -> Seq<char> {
    match l {
        Locator::LocalFs(d) => d.path@,
        Locator::Garage(g) => g.bucket@ + seq!['/'] + g.key@,
    }
}

/// The first blob stored under `k`.
pub open spec fn lookup_from(entries: Seq<MemEntry>, k: Seq<char>, i: int) -> Option<Seq<u8>>
    decreases entries.len() - i,
{
    if i < 0 || i >= entries.len() {
        Option::None
    } else if entries[i].key@ == k {
        Option::Some(entries[i].data@)
    } else {
        lookup_from(entries, k, i + 1)
    }
}

pub open spec fn spec_lookup(entries: Seq<MemEntry>, k: Seq<char>) -> Option<Seq<u8>> {
    lookup_from(entries, k, 0)
}

/// The store without any blob under `k`.
pub open spec fn without_key_from(entries: Seq<MemEntry>, k: Seq<char>, i: int) -> Seq<MemEntry>
    decreases entries.len() - i,
{
    if i < 0 || i >= entries.len() {
        Seq::empty()
    } else if entries[i].key@ == k {
        without_key_from(entries, k, i + 1)
    } else {
        seq![entries[i]] + without_key_from(entries, k, i + 1)
    }
}

pub open spec fn without_key(entries: Seq<MemEntry>, k: Seq<char>) -> Seq<MemEntry> {
    without_key_from(entries, k, 0)
}

/// Removing a key removes exactly that key's entries: lookups under any
/// other key are untouched, and the removed key is gone.
pub proof fn lemma_without_key_lookup(entries: Seq<MemEntry>, k: Seq<char>, k2: Seq<char>, i: int)
    requires
        0 <= i <= entries.len(),
    ensures
        k2 == k ==> lookup_from(without_key_from(entries, k, i), k2, 0) is None,
        k2 != k ==> lookup_from(without_key_from(entries, k, i), k2, 0) == lookup_from(
            entries,
            k2,
            i,
        ),
    decreases entries.len() - i,
{
    if i < entries.len() {
        lemma_without_key_lookup(entries, k, k2, i + 1);
        let r = without_key_from(entries, k, i);
        let rest = without_key_from(entries, k, i + 1);
        if entries[i].key@ != k {
            assert(r == seq![entries[i]] + rest);
            assert(r[0] == entries[i]);
            if entries[i].key@ == k2 {
                assert(lookup_from(r, k2, 0) == Option::Some(entries[i].data@));
            } else {
                assert(lookup_from(r, k2, 0) == lookup_from(r, k2, 1));
                lemma_lookup_shift(entries[i], rest, k2);
            }
        }
    }
}

/// Looking past a leading entry is looking into the rest.
proof fn lemma_lookup_shift(e: MemEntry, rest: Seq<MemEntry>, k: Seq<char>)
    ensures
        lookup_from(seq![e] + rest, k, 1) == lookup_from(rest, k, 0),
    decreases rest.len(),
{
    lemma_lookup_shift_from(e, rest, k, 0);
}

proof fn lemma_lookup_shift_from(e: MemEntry, rest: Seq<MemEntry>, k: Seq<char>, j: int)
    requires
        0 <= j <= rest.len(),
    ensures
        lookup_from(seq![e] + rest, k, j + 1) == lookup_from(rest, k, j),
    decreases rest.len() - j,
{
    let s = seq![e] + rest;
    if j < rest.len() {
        assert(s[j + 1] == rest[j]);
        lemma_lookup_shift_from(e, rest, k, j + 1);
    }
}

/// Deleting is idempotent: deleting a key that is already gone changes
/// nothing.
pub proof fn lemma_without_key_idempotent(entries: Seq<MemEntry>, k: Seq<char>, i: int)
    requires
        0 <= i <= entries.len(),
    ensures
        without_key(without_key_from(entries, k, i), k) == without_key_from(entries, k, i),
    decreases entries.len() - i,
{
    if i < entries.len() {
        lemma_without_key_idempotent(entries, k, i + 1);
        let r = without_key_from(entries, k, i);
        let rest = without_key_from(entries, k, i + 1);
        if entries[i].key@ != k {
            assert(r == seq![entries[i]] + rest);
            lemma_without_key_prepend(entries[i], rest, k);
        }
    }
}

/// Removing a key distributes over a kept head entry.
proof fn lemma_without_key_prepend(e: MemEntry, rest: Seq<MemEntry>, k: Seq<char>)
    requires
        e.key@ != k,
        without_key(rest, k) == rest,
    ensures
        without_key(seq![e] + rest, k) == seq![e] + rest,
{
    lemma_without_key_shift_from(e, rest, k, 0);
    let s = seq![e] + rest;
    assert(without_key_from(s, k, 0) == seq![e] + without_key_from(s, k, 1));
    assert(without_key_from(s, k, 1) == without_key_from(rest, k, 0));
}

proof fn lemma_without_key_shift_from(e: MemEntry, rest: Seq<MemEntry>, k: Seq<char>, j: int)
    requires
        0 <= j <= rest.len(),
    ensures
        without_key_from(seq![e] + rest, k, j + 1) == without_key_from(rest, k, j),
    decreases rest.len() - j,
{
    let s = seq![e] + rest;
    if j < rest.len() {
        assert(s[j + 1] == rest[j]);
        lemma_without_key_shift_from(e, rest, k, j + 1);
    }
}

/// A write followed by a read round-trips: after the blob under `k` is
/// replaced by `data`, looking `k` up yields exactly `data`.
pub proof fn lemma_write_read_roundtrip(entries: Seq<MemEntry>, e: MemEntry)
    ensures
        spec_lookup(without_key(entries, e.key@).push(e), e.key@) == Some(e.data@),
        forall|k2: Seq<char>|
            k2 != e.key@ ==> #[trigger] spec_lookup(without_key(entries, e.key@).push(e), k2)
                == spec_lookup(entries, k2),
{
    lemma_lookup_push(without_key(entries, e.key@), e, 0);
    lemma_without_key_lookup(entries, e.key@, e.key@, 0);
    assert forall|k2: Seq<char>| k2 != e.key@ implies #[trigger] spec_lookup(
        without_key(entries, e.key@).push(e),
        k2,
    ) == spec_lookup(entries, k2) by {
        lemma_lookup_push(without_key(entries, e.key@), e, 0);
        lemma_without_key_lookup(entries, e.key@, k2, 0);
    }
}

/// Appending an entry changes only its own key's lookup, and only if the
/// key was absent before.
pub proof fn lemma_lookup_push(entries: Seq<MemEntry>, e: MemEntry, i: int)
    requires
        0 <= i <= entries.len(),
    ensures
        lookup_from(entries, e.key@, i) is None ==> lookup_from(entries.push(e), e.key@, i)
            == Some(e.data@),
        forall|k2: Seq<char>|
            #![trigger lookup_from(entries.push(e), k2, i)]
            k2 != e.key@ ==> lookup_from(entries.push(e), k2, i) == lookup_from(entries, k2, i),
        forall|k2: Seq<char>|
            #![trigger lookup_from(entries.push(e), k2, i)]
            lookup_from(entries, k2, i) matches Some(d) ==> lookup_from(entries.push(e), k2, i)
                == Some(d),
    decreases entries.len() - i,
{
    assert(entries.push(e).len() == entries.len() + 1);
    if i < entries.len() {
        assert(entries.push(e)[i] == entries[i]);
        lemma_lookup_push(entries, e, i + 1);
        assert forall|k2: Seq<char>|
            #![trigger lookup_from(entries.push(e), k2, i)]
            k2 != e.key@ implies lookup_from(entries.push(e), k2, i) == lookup_from(
            entries,
            k2,
            i,
        ) by {
            if entries[i].key@ != k2 {
                assert(lookup_from(entries.push(e), k2, i) == lookup_from(
                    entries.push(e),
                    k2,
                    i + 1,
                ));
                assert(lookup_from(entries, k2, i) == lookup_from(entries, k2, i + 1));
            }
        }
        assert forall|k2: Seq<char>|
            #![trigger lookup_from(entries.push(e), k2, i)]
            lookup_from(entries, k2, i) is Some implies lookup_from(entries.push(e), k2, i)
            == lookup_from(entries, k2, i) by {
            if entries[i].key@ != k2 {
                assert(lookup_from(entries.push(e), k2, i) == lookup_from(
                    entries.push(e),
                    k2,
                    i + 1,
                ));
                assert(lookup_from(entries, k2, i) == lookup_from(entries, k2, i + 1));
            }
        }
    } else {
        assert(entries.push(e)[entries.len() as int] == e);
        assert(lookup_from(entries.push(e), e.key@, i) == Some(e.data@));
        assert forall|k2: Seq<char>|
            #![trigger lookup_from(entries.push(e), k2, i)]
            k2 != e.key@ implies lookup_from(entries.push(e), k2, i) == lookup_from(
            entries,
            k2,
            i,
        ) by {
            assert(lookup_from(entries.push(e), k2, i) == lookup_from(entries.push(e), k2, i + 1));
            assert(lookup_from(entries.push(e), k2, i + 1) is None);
            assert(lookup_from(entries, k2, i) is None);
        }
    }
}

/// A handle that accepts the bytes of one upload field.  The bytes are
/// committed to the store only when the write is finished; an abandoned
/// handle leaves the initial empty blob behind, exactly what an aborted
/// upload leaves on a real backend.
pub struct MemWriteBlob {
    pub key: String,
    pub data: Vec<u8>,
}

impl MemWriteBlob {
    /// Accepts one chunk.
    pub fn write(&mut self, chunk: &[u8])
        ensures
            final(self).key == old(self).key,
            final(self).data@ == old(self).data@ + chunk@,
    {
        let mut i: usize = 0;
        let n = chunk.len();
        while i < n
            invariant
                0 <= i <= n,
                n == chunk@.len(),
                self.key == old(self).key,
                self.data@ == old(self).data@ + chunk@.subrange(0, i as int),
            decreases n - i,
        {
            self.data.push(chunk[i]);
            proof {
                assert(old(self).data@ + chunk@.subrange(0, i as int + 1) =~= (old(self).data@
                    + chunk@.subrange(0, i as int)).push(chunk@[i as int]));
            }
            i = i + 1;
        }
        proof {
            assert(chunk@.subrange(0, n as int) =~= chunk@);
        }
    }
}

/// The in-memory store.  `root` is the storage root path of a local
/// filesystem backend, or the bucket of an object-store backend.
pub struct MemStore {
    kind: StorageBackendType,
    root: String,
    version: u8,
    entries: Vec<MemEntry>,
}

impl MemStore {
    pub closed spec fn kind(&self) -> StorageBackendType {
        self.kind
    }

    pub closed spec fn root(&self) -> Seq<char> {
        self.root@
    }

    pub closed spec fn version(&self) -> u8 {
        self.version
    }

    pub closed spec fn entries(&self) -> Seq<MemEntry> {
        self.entries@
    }

    /// What this store holds under `k`.
    pub open spec fn blob(&self, k: Seq<char>) -> Option<Seq<u8>> {
        spec_lookup(self.entries(), k)
    }

    pub fn new(kind: StorageBackendType, root: String) -> (s: Self)
        ensures
            s.kind() == kind,
            s.root() == root@,
            s.version() == 0,
            s.entries() == Seq::<MemEntry>::empty(),
    {
        MemStore { kind, root, version: 0, entries: Vec::new() }
    }

    /// identifier to know which implementation to use when one wants to
    /// manipulate a file.
    pub fn get_type(&self) -> (t: &'static str)
        ensures
            t@ == self.kind().spec_tag(),
    {
        self.kind.get_type()
    }

    /// Opens a write for one upload field: creates an empty blob under the
    /// derived locator and hands back the handle and the locator to persist.
    pub fn initiate_upload(&mut self, init: &InitFile) -> (r: (MemWriteBlob, Locator))
        ensures
            final(self).kind() == old(self).kind(),
            final(self).root() == old(self).root(),
            final(self).version() == old(self).version(),
            spec_locator_key(r.1) == (match old(self).kind() {
                StorageBackendType::LocalFS => spec_blob_path(
                    old(self).root(),
                    init.token_id as nat,
                    init.attempt_counter as nat,
                    init.file_index as nat,
                ),
                StorageBackendType::Garage => old(self).root() + seq!['/'] + spec_garage_key(
                    *init,
                ),
            }),
            r.1 is LocalFs <==> old(self).kind() is LocalFS,
            (r.1 matches Locator::LocalFs(d) ==> d.version == old(self).version()),
            (r.1 matches Locator::Garage(g) ==> g.bucket@ == old(self).root() && g.key@
                == spec_garage_key(*init)),
            r.0.key@ == spec_locator_key(r.1),
            r.0.data@ == Seq::<u8>::empty(),
            final(self).entries().len() == without_key(
                old(self).entries(),
                spec_locator_key(r.1),
            ).len() + 1,
            final(self).entries().drop_last() == without_key(
                old(self).entries(),
                spec_locator_key(r.1),
            ),
            final(self).entries().last().key@ == spec_locator_key(r.1),
            final(self).entries().last().data@ == Seq::<u8>::empty(),
            final(self).blob(spec_locator_key(r.1)) == Some(Seq::<u8>::empty()),
            forall|k2: Seq<char>|
                k2 != spec_locator_key(r.1) ==> #[trigger] final(self).blob(k2) == old(self).blob(
                    k2,
                ),
    {
        let locator = match self.kind {
            StorageBackendType::LocalFS => {
                let mut path = self.root.clone();
                path.append("/");
                let name = blob_name(init.token_id, init.attempt_counter, init.file_index);
                path.append(name.as_str());
                proof {
                    reveal_strlit("/");
                    assert("/"@ =~= seq!['/']);
                    assert(path@ =~= spec_blob_path(
                        self.root@,
                        init.token_id as nat,
                        init.attempt_counter as nat,
                        init.file_index as nat,
                    ));
                }
                Locator::LocalFs(LocalFsData { path, version: self.version })
            },
            StorageBackendType::Garage => {
                let key = garage_key(init);
                Locator::Garage(GarageData { bucket: self.root.clone(), key })
            },
        };
        let key = locator_key(&locator);
        let blob = MemWriteBlob { key: key.clone(), data: Vec::new() };
        self.remove_key(&key);
        let entry = MemEntry { key: key.clone(), data: Vec::new() };
        self.entries.push(entry);
        proof {
            let e = self.entries@.last();
            assert(self.entries@.drop_last() =~= without_key(old(self).entries@, key@));
            lemma_lookup_push(without_key(old(self).entries@, key@), e, 0);
            lemma_without_key_lookup(old(self).entries@, key@, key@, 0);
            assert forall|k2: Seq<char>|
                k2 != key@ implies #[trigger] spec_lookup(self.entries@, k2) == spec_lookup(
                old(self).entries@,
                k2,
            ) by {
                assert(without_key(old(self).entries@, key@).push(e) =~= self.entries@);
                lemma_lookup_push(without_key(old(self).entries@, key@), e, 0);
                lemma_without_key_lookup(old(self).entries@, key@, k2, 0);
            }
        }
        (blob, locator)
    }

    /// Commits a finished write: the handle's bytes become the stored blob.
    /// As on the real backends, no updated locator needs to be persisted.
    pub fn finalize_upload(&mut self, blob: MemWriteBlob) -> (r: Option<Locator>)
        ensures
            final(self).kind() == old(self).kind(),
            final(self).root() == old(self).root(),
            final(self).version() == old(self).version(),
            r is None,
            final(self).entries() == without_key(old(self).entries(), blob.key@).push(
                MemEntry { key: blob.key, data: blob.data },
            ),
            final(self).blob(blob.key@) == Some(blob.data@),
            forall|k2: Seq<char>|
                k2 != blob.key@ ==> #[trigger] final(self).blob(k2) == old(self).blob(k2),
    {
        let key_copy = blob.key.clone();
        self.remove_key(&key_copy);
        let entry = MemEntry { key: blob.key, data: blob.data };
        self.entries.push(entry);
        proof {
            lemma_write_read_roundtrip(old(self).entries@, self.entries@.last());
        }
        None
    }

    /// Deletes the blob a locator addresses.  Idempotent by construction:
    /// deleting an absent blob succeeds and changes nothing.
    pub fn delete_blob(&mut self, locator: &Locator)
        ensures
            final(self).kind() == old(self).kind(),
            final(self).root() == old(self).root(),
            final(self).version() == old(self).version(),
            final(self).entries() == without_key(old(self).entries(), spec_locator_key(*locator)),
            final(self).blob(spec_locator_key(*locator)) is None,
            forall|k2: Seq<char>|
                k2 != spec_locator_key(*locator) ==> #[trigger] final(self).blob(k2) == old(
                    self,
                ).blob(k2),
    {
        let key = locator_key(locator);
        self.remove_key(&key);
        proof {
            lemma_without_key_lookup(old(self).entries@, key@, key@, 0);
            assert forall|k2: Seq<char>|
                k2 != spec_locator_key(*locator) implies #[trigger] self.blob(k2) == old(
                self,
            ).blob(k2) by {
                lemma_without_key_lookup(old(self).entries@, key@, k2, 0);
            }
        }
    }

    /// Streams a stored blob back out: exactly the bytes that were written.
    pub fn read_blob(&self, locator: &Locator) -> (r: Option<Vec<u8>>)
        ensures
            (r is Some) == (self.blob(spec_locator_key(*locator)) is Some),
            r matches Some(v) ==> Some(v@) == self.blob(spec_locator_key(*locator)),
    {
        let key = locator_key(locator);
        let n = self.entries.len();
        let mut i: usize = 0;
        while i < n
            invariant
                0 <= i <= n,
                n == self.entries@.len(),
                key@ == spec_locator_key(*locator),
                spec_lookup(self.entries@, key@) == lookup_from(self.entries@, key@, i as int),
            decreases n - i,
        {
            let e = &self.entries[i];
            if str_eq(e.key.as_str(), key.as_str()) {
                let mut out: Vec<u8> = Vec::new();
                let m = e.data.len();
                let mut j: usize = 0;
                while j < m
                    invariant
                        0 <= j <= m,
                        m == e.data@.len(),
                        out@ == e.data@.subrange(0, j as int),
                    decreases m - j,
                {
                    out.push(e.data[j]);
                    proof {
                        assert(e.data@.subrange(0, j as int + 1) =~= e.data@.subrange(
                            0,
                            j as int,
                        ).push(e.data@[j as int]));
                    }
                    j = j + 1;
                }
                proof {
                    assert(e.data@.subrange(0, m as int) =~= e.data@);
                }
                return Some(out);
            }
            i = i + 1;
        }
        None
    }

    /// Removes every entry stored under `key`.
    fn remove_key(&mut self, key: &String)
        ensures
            final(self).kind == old(self).kind,
            final(self).root == old(self).root,
            final(self).version == old(self).version,
            final(self).entries@ == without_key(old(self).entries@, key@),
    {
        let mut i: usize = 0;
        while i < self.entries.len()
            invariant
                0 <= i <= self.entries@.len(),
                self.kind == old(self).kind,
                self.root == old(self).root,
                self.version == old(self).version,
                forall|j: int| 0 <= j < i ==> #[trigger] self.entries@[j].key@ != key@,
                self.entries@.subrange(0, i as int) + without_key_from(
                    self.entries@,
                    key@,
                    i as int,
                ) == without_key(old(self).entries@, key@),
            decreases self.entries@.len() - i,
        {
            let hit = str_eq(self.entries[i].key.as_str(), key.as_str());
            if hit {
                let ghost pre = self.entries@;
                self.entries.remove(i);
                proof {
                    assert(self.entries@ =~= pre.remove(i as int));
                    assert(self.entries@.subrange(0, i as int) =~= pre.subrange(0, i as int));
                    assert forall|q: int|
                        0 <= q < self.entries@.len() - i implies #[trigger] self.entries@[i as int
                        + q] == pre[i + 1 + q] by {
                        assert(self.entries@[i as int + q] == pre.remove(i as int)[i as int + q]);
                    }
                    lemma_without_key_agree(self.entries@, pre, key@, i as int, i + 1);
                    assert(without_key_from(pre, key@, i as int) == without_key_from(
                        pre,
                        key@,
                        i + 1,
                    ));
                }
            } else {
                proof {
                    let pre = self.entries@;
                    assert(without_key_from(pre, key@, i as int) == seq![pre[i as int]]
                        + without_key_from(pre, key@, i + 1));
                    assert(pre.subrange(0, i as int + 1) =~= pre.subrange(0, i as int) + seq![
                        pre[i as int],
                    ]);
                    assert(pre.subrange(0, i as int + 1) + without_key_from(pre, key@, i + 1)
                        =~= pre.subrange(0, i as int) + (seq![pre[i as int]] + without_key_from(
                        pre,
                        key@,
                        i + 1,
                    )));
                }
                i = i + 1;
            }
        }
        proof {
            assert(self.entries@.subrange(0, self.entries@.len() as int) =~= self.entries@);
            assert(without_key_from(self.entries@, key@, self.entries@.len() as int)
                =~= Seq::<MemEntry>::empty());
            assert(self.entries@ + Seq::<MemEntry>::empty() =~= self.entries@);
        }
    }
}

/// Removing a key looks only at the suffix it is given: two states that
/// agree from their cursors on are cleaned to the same remainder.
proof fn lemma_without_key_agree(s1: Seq<MemEntry>, s2: Seq<MemEntry>, k: Seq<char>, i: int, j: int)
    requires
        0 <= i <= s1.len(),
        0 <= j <= s2.len(),
        s1.len() - i == s2.len() - j,
        forall|q: int| 0 <= q < s1.len() - i ==> #[trigger] s1[i + q] == s2[j + q],
    ensures
        without_key_from(s1, k, i) == without_key_from(s2, k, j),
    decreases s1.len() - i,
{
    if i < s1.len() {
        assert(s1[i + 0] == s2[j + 0]);
        assert forall|q: int| 0 <= q < s1.len() - (i + 1) implies #[trigger] s1[i + 1 + q] == s2[j
            + 1 + q] by {
            assert(s1[i + (q + 1)] == s2[j + (q + 1)]);
        }
        lemma_without_key_agree(s1, s2, k, i + 1, j + 1);
        assert(s1[i] == s2[j]);
    }
}

/// Renders the storage key a locator addresses.
fn locator_key(l: &Locator) -> (k: String)
    ensures
        k@ == spec_locator_key(*l),
{
    match l {
        Locator::LocalFs(d) => d.path.clone(),
        Locator::Garage(g) => {
            let mut k = g.bucket.clone();
            k.append("/");
            k.append(g.key.as_str());
            proof {
                reveal_strlit("/");
                assert("/"@ =~= seq!['/']);
                assert(k@ =~= g.bucket@ + seq!['/'] + g.key@);
            }
            k
        },
    }
}

} // verus!
