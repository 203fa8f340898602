//! The retention sweeper: one cycle finds the rows that are due, deletes
//! their blobs through the matching backend, removes the rows of the blobs
//! that could be cleaned, and finally drops expired tokens that no file
//! references any more.  A file whose backend is unknown or whose locator
//! does not parse is skipped — logged by the embedding program, retried the
//! next cycle — and never blocks the rest.

use crate::ledger::file_delete_pred;
use crate::ledger::spec_files_to_delete;
use crate::ledger::DBService;
use crate::ledger::DbFile;
use crate::ledger::MAX_INSTANT;
use crate::memstore::spec_locator_key;
use crate::memstore::MemStore;
use crate::store::decode_locator;
use crate::store::spec_encode_locator;
use crate::store::str_eq;
use crate::store::Locator;
use crate::store::StorageBackendType;
use vstd::prelude::*;

verus! {

/// Can this file's blob be deleted by a backend of the given kind: its
/// `backend_type` carries that kind's tag, and its locator parses to a
/// locator of that backend.
pub open spec fn blob_deletable_by(f: DbFile, kind: StorageBackendType) -> bool {
    &&& f.backend_type@ == kind.spec_tag()
    &&& exists|l: Locator|
        #![auto]
        f.backend_data@ == spec_encode_locator(l) && (match kind {
            StorageBackendType::LocalFS => l is LocalFs,
            StorageBackendType::Garage => l is Garage,
        })
}

/// The blob of this file can be deleted by one of the two backends.
pub open spec fn blob_deletable(f: DbFile) -> bool {
    blob_deletable_by(f, StorageBackendType::LocalFS) || blob_deletable_by(
        f,
        StorageBackendType::Garage,
    )
}

/// The ids of the plan entries whose blobs the cycle cleans.
pub open spec fn sweep_deleted_ids(plan: Seq<DbFile>, n: int) -> Seq<u64>
    decreases n,
{
    if n <= 0 {
        Seq::empty()
    } else if blob_deletable(plan[n - 1]) {
        sweep_deleted_ids(plan, n - 1).push(plan[n - 1].id)
    } else {
        sweep_deleted_ids(plan, n - 1)
    }
}

/// The ids of the plan entries the cycle has to skip.
pub open spec fn sweep_skipped_ids(plan: Seq<DbFile>, n: int) -> Seq<u64>
    decreases n,
{
    if n <= 0 {
        Seq::empty()
    } else if !blob_deletable(plan[n - 1]) {
        sweep_skipped_ids(plan, n - 1).push(plan[n - 1].id)
    } else {
        sweep_skipped_ids(plan, n - 1)
    }
}

/// The storage key of a file's blob, as far as its locator determines one.
/// Well defined whenever the locator parses: serialization is injective, so
/// every parse yields the same key.
pub open spec fn spec_key_of(f: DbFile) -> Seq<char> {
    spec_locator_key(choose|l: Locator| f.backend_data@ == spec_encode_locator(l))
}

/// Was one of the first `n` plan entries a cleaned blob of kind `kind`
/// stored under key `k`?
pub open spec fn swept_key(plan: Seq<DbFile>, n: int, kind: StorageBackendType, k: Seq<char>) -> bool {
    exists|i: int|
        0 <= i < n && blob_deletable_by(#[trigger] plan[i], kind) && spec_key_of(plan[i]) == k
}

/// What one sweeper cycle did.
pub struct SweepReport {
    /// rows removed, blob and row
    pub deleted_file_ids: Vec<u64>,
    /// rows kept because their blob could not be addressed
    pub skipped_file_ids: Vec<u64>,
    /// expired token rows removed, with their paths
    pub deleted_tokens: Vec<(u64, String)>,
}

/// One sweeper cycle at instant `now`: plan, fan out the blob deletes to
/// the backend each file names, remove the rows of the cleaned files, then
/// drop expired tokens that no remaining file references.
pub fn sweep_cycle(
    db: &mut DBService,
    fs_store: &mut MemStore,
    garage_store: &mut MemStore,
    now: u64,
) -> (r: SweepReport)
    requires
        old(db).wf(),
        now >= old(db)@.clock,
        now <= MAX_INSTANT,
        old(fs_store).kind() is LocalFS,
        old(garage_store).kind() is Garage,
    ensures
        final(db).wf(),
        final(db)@.clock == now,
        final(db)@.accounts == old(db)@.accounts,
        final(db)@.next_token_id == old(db)@.next_token_id,
        final(db)@.next_file_id == old(db)@.next_file_id,
        final(db)@.next_account_id == old(db)@.next_account_id,
        // which rows were planned, cleaned and skipped
        ({
            let plan = spec_files_to_delete(old(db)@, now);
            &&& r.deleted_file_ids@ == sweep_deleted_ids(plan, plan.len() as int)
            &&& r.skipped_file_ids@ == sweep_skipped_ids(plan, plan.len() as int)
            // only rows whose blobs were cleaned are removed
            &&& final(db)@.files == crate::ledger::files_without(
                old(db)@.files,
                sweep_deleted_ids(plan, plan.len() as int),
                0,
            )
            &&& final(db)@.metadata == crate::ledger::metadata_without(
                old(db)@.metadata,
                sweep_deleted_ids(plan, plan.len() as int),
                0,
            )
            // expired tokens fall once their files are gone
            &&& final(db)@.tokens == crate::ledger::tokens_without_expired(
                old(db)@.tokens,
                final(db)@.files,
                now,
                0,
            )
            &&& r.deleted_tokens@ == crate::ledger::expired_token_infos(
                old(db)@.tokens,
                final(db)@.files,
                now,
                0,
            )
            // each backend lost exactly the blobs of its cleaned files
            &&& fs_store_after(old(fs_store), final(fs_store), plan)
            &&& garage_store_after(old(garage_store), final(garage_store), plan)
        }),
        final(fs_store).kind() == old(fs_store).kind(),
        final(garage_store).kind() == old(garage_store).kind(),
        final(fs_store).root() == old(fs_store).root(),
        final(garage_store).root() == old(garage_store).root(),
{
    let plan = db.get_files_to_delete(now);
    let ghost planv = plan@;
    let ghost v0 = db@;
    let mut deleted: Vec<u64> = Vec::new();
    let mut skipped: Vec<u64> = Vec::new();
    let n = plan.len();
    let mut i: usize = 0;
    while i < n
        invariant
            0 <= i <= n,
            n == planv.len(),
            planv == plan@,
            fs_store.kind() is LocalFS,
            garage_store.kind() is Garage,
            fs_store.kind() == old(fs_store).kind(),
            fs_store.root() == old(fs_store).root(),
            fs_store.version() == old(fs_store).version(),
            garage_store.kind() == old(garage_store).kind(),
            garage_store.root() == old(garage_store).root(),
            garage_store.version() == old(garage_store).version(),
            deleted@ == sweep_deleted_ids(planv, i as int),
            skipped@ == sweep_skipped_ids(planv, i as int),
            forall|k: Seq<char>|
                #[trigger] fs_store.blob(k) == (if swept_key(
                    planv,
                    i as int,
                    StorageBackendType::LocalFS,
                    k,
                ) {
                    Option::<Seq<u8>>::None
                } else {
                    old(fs_store).blob(k)
                }),
            forall|k: Seq<char>|
                #[trigger] garage_store.blob(k) == (if swept_key(
                    planv,
                    i as int,
                    StorageBackendType::Garage,
                    k,
                ) {
                    Option::<Seq<u8>>::None
                } else {
                    old(garage_store).blob(k)
                }),
        decreases n - i,
    {
        let f = &plan[i];
        let is_local = str_eq(f.backend_type.as_str(), "local_fs");
        let is_garage = str_eq(f.backend_type.as_str(), "garage");
        let parsed = decode_locator(f.backend_data.as_str());
        let mut cleaned = false;
        match parsed {
            Option::Some(l) => {
                let backend = l.backend();
                match backend {
                    StorageBackendType::LocalFS => {
                        if is_local {
                            fs_store.delete_blob(&l);
                            cleaned = true;
                            proof {
                                lemma_key_of_witness(planv[i as int], l);
                            }
                        }
                    },
                    StorageBackendType::Garage => {
                        if is_garage {
                            garage_store.delete_blob(&l);
                            cleaned = true;
                            proof {
                                lemma_key_of_witness(planv[i as int], l);
                            }
                        }
                    },
                }
                proof {
                    lemma_tags_distinct();
                    let f0 = planv[i as int];
                    if cleaned {
                        assert(blob_deletable(f0));
                    } else {
                        if blob_deletable_by(f0, StorageBackendType::LocalFS) {
                            let l2 = choose|l2: Locator|
                                #![auto]
                                f0.backend_data@ == spec_encode_locator(l2) && (match
                                StorageBackendType::LocalFS {
                                    StorageBackendType::LocalFS => l2 is LocalFs,
                                    StorageBackendType::Garage => l2 is Garage,
                                });
                            crate::store::lemma_encode_locator_injective(l, l2);
                            assert(l is LocalFs);
                            assert(false);
                        }
                        if blob_deletable_by(f0, StorageBackendType::Garage) {
                            let l2 = choose|l2: Locator|
                                #![auto]
                                f0.backend_data@ == spec_encode_locator(l2) && (match
                                StorageBackendType::Garage {
                                    StorageBackendType::LocalFS => l2 is LocalFs,
                                    StorageBackendType::Garage => l2 is Garage,
                                });
                            crate::store::lemma_encode_locator_injective(l, l2);
                            assert(l is Garage);
                            assert(false);
                        }
                        assert(!blob_deletable(f0));
                    }
                }
            },
            Option::None => {
                proof {
                    assert(!blob_deletable(planv[i as int])) by {
                        if blob_deletable(planv[i as int]) {
                        }
                    }
                }
            },
        }
        if cleaned {
            deleted.push(plan[i].id);
        } else {
            skipped.push(plan[i].id);
        }
        proof {
            lemma_tags_distinct();
            assert(deleted@ == sweep_deleted_ids(planv, i + 1));
            assert(skipped@ == sweep_skipped_ids(planv, i + 1));
            assert forall|k: Seq<char>| #[trigger] fs_store.blob(k) == (if swept_key(
                planv,
                i + 1,
                StorageBackendType::LocalFS,
                k,
            ) {
                Option::<Seq<u8>>::None
            } else {
                old(fs_store).blob(k)
            }) by {
                lemma_swept_key_step(planv, i as int, StorageBackendType::LocalFS, k);
            }
            assert forall|k: Seq<char>| #[trigger] garage_store.blob(k) == (if swept_key(
                planv,
                i + 1,
                StorageBackendType::Garage,
                k,
            ) {
                Option::<Seq<u8>>::None
            } else {
                old(garage_store).blob(k)
            }) by {
                lemma_swept_key_step(planv, i as int, StorageBackendType::Garage, k);
            }
        }
        i = i + 1;
    }
    proof {
        // every id we delete names a condemned, hence reclaimable, row
        assert forall|j: int|
            0 <= j < v0.files.len() && deleted@.contains(#[trigger] v0.files[j].id) implies
            crate::ledger::file_deletable(v0, v0.files[j], now) by {
            let q = choose|q: int| 0 <= q < deleted@.len() && deleted@[q] == v0.files[j].id;
            lemma_deleted_ids_from_plan(planv, n as int, q);
            let pi = choose|pi: int|
                0 <= pi < planv.len() && #[trigger] planv[pi].id == deleted@[q] && blob_deletable(
                    planv[pi],
                );
            crate::ledger::lemma_files_to_delete_element(v0, now, 0, pi);
            let w = choose|w: int|
                0 <= w < v0.files.len() && #[trigger] v0.files[w] == planv[pi] && file_delete_pred(
                    v0.tokens,
                    v0.files[w],
                    now,
                );
            if w != j {
                assert(v0.files[w].id != v0.files[j].id);
            }
        }
    }
    db.delete_files(&deleted, now);
    let deleted_tokens = db.delete_expired_tokens(now);
    SweepReport { deleted_file_ids: deleted, skipped_file_ids: skipped, deleted_tokens }
}

/// The store-side summary of a cycle: exactly the cleaned keys are gone.
pub open spec fn fs_store_after(s0: &MemStore, s1: &MemStore, plan: Seq<DbFile>) -> bool {
    forall|k: Seq<char>|
        #[trigger] s1.blob(k) == (if swept_key(
            plan,
            plan.len() as int,
            StorageBackendType::LocalFS,
            k,
        ) {
            Option::<Seq<u8>>::None
        } else {
            s0.blob(k)
        })
}

pub open spec fn garage_store_after(s0: &MemStore, s1: &MemStore, plan: Seq<DbFile>) -> bool {
    forall|k: Seq<char>|
        #[trigger] s1.blob(k) == (if swept_key(
            plan,
            plan.len() as int,
            StorageBackendType::Garage,
            k,
        ) {
            Option::<Seq<u8>>::None
        } else {
            s0.blob(k)
        })
}

/// Any parse of a file's locator addresses the file's one storage key.
proof fn lemma_key_of_witness(f: DbFile, l: Locator)
    requires
        f.backend_data@ == spec_encode_locator(l),
    ensures
        spec_key_of(f) == spec_locator_key(l),
{
    let l2 = choose|l2: Locator| f.backend_data@ == spec_encode_locator(l2);
    crate::store::lemma_encode_locator_injective(l, l2);
    match (l, l2) {
        (Locator::LocalFs(d1), Locator::LocalFs(d2)) => {
            assert(spec_locator_key(l) == d1.path@);
            assert(spec_locator_key(l2) == d2.path@);
        },
        (Locator::Garage(g1), Locator::Garage(g2)) => {
            assert(spec_locator_key(l) == g1.bucket@ + seq!['/'] + g1.key@);
            assert(spec_locator_key(l2) == g2.bucket@ + seq!['/'] + g2.key@);
        },
        _ => {
        },
    }
}

/// The two backend tags are different words.
proof fn lemma_tags_distinct()
    ensures
        StorageBackendType::LocalFS.spec_tag() != StorageBackendType::Garage.spec_tag(),
{
    reveal_strlit("local_fs");
    reveal_strlit("garage");
    assert("local_fs"@.len() == 8);
    assert("garage"@.len() == 6);
}

/// One step of the swept-keys account.
proof fn lemma_swept_key_step(plan: Seq<DbFile>, i: int, kind: StorageBackendType, k: Seq<char>)
    requires
        0 <= i < plan.len(),
    ensures
        swept_key(plan, i + 1, kind, k) == (swept_key(plan, i, kind, k) || (blob_deletable_by(
            plan[i],
            kind,
        ) && spec_key_of(plan[i]) == k)),
{
    if swept_key(plan, i + 1, kind, k) {
        let w = choose|w: int|
            0 <= w < i + 1 && blob_deletable_by(#[trigger] plan[w], kind) && spec_key_of(plan[w])
                == k;
        if w < i {
            assert(swept_key(plan, i, kind, k));
        }
    }
    if swept_key(plan, i, kind, k) {
        let w = choose|w: int|
            0 <= w < i && blob_deletable_by(#[trigger] plan[w], kind) && spec_key_of(plan[w]) == k;
        assert(swept_key(plan, i + 1, kind, k));
    }
    if blob_deletable_by(plan[i], kind) && spec_key_of(plan[i]) == k {
        assert(swept_key(plan, i + 1, kind, k));
    }
}

/// Every id in the cleaned list names a plan entry whose blob was cleaned.
proof fn lemma_deleted_ids_from_plan(plan: Seq<DbFile>, n: int, q: int)
    requires
        0 <= n <= plan.len(),
        0 <= q < sweep_deleted_ids(plan, n).len(),
    ensures
        exists|pi: int|
            0 <= pi < plan.len() && #[trigger] plan[pi].id == sweep_deleted_ids(plan, n)[q]
                && blob_deletable(plan[pi]),
    decreases n,
{
    if n > 0 {
        let r = sweep_deleted_ids(plan, n);
        let prev = sweep_deleted_ids(plan, n - 1);
        if blob_deletable(plan[n - 1]) {
            if q < prev.len() {
                lemma_deleted_ids_from_plan(plan, n - 1, q);
            } else {
                assert(r[q] == plan[n - 1].id && blob_deletable(plan[n - 1]));
            }
        } else {
            lemma_deleted_ids_from_plan(plan, n - 1, q);
        }
    }
}

} // verus!
