//! The upload orchestrator: drives one incoming multipart upload against
//! the ledger and a blob store.  It validates token freshness, opens one
//! blob write per field, records metadata, discards empty fields, and
//! finalises the token only when at least one byte arrived anywhere.

use crate::ledger::counters_ok;
use crate::ledger::scan_tokens;
use crate::ledger::spec_bumped_token;
use crate::ledger::spec_finalised_token;
use crate::ledger::spec_token_by_id;
use crate::ledger::token_live;
use crate::ledger::AppError;
use crate::ledger::DBService;
use crate::ledger::DbFile;
use crate::ledger::DbFileMetadata;
use crate::ledger::DbToken;
use crate::ledger::FileMetadataRow;
use crate::ledger::GetTokenResult;
use crate::ledger::LedgerView;
use crate::ledger::MAX_INSTANT;
use crate::memstore::spec_locator_key;
use crate::memstore::MemStore;
use crate::store::spec_blob_name;
use crate::store::spec_blob_path;
use crate::store::spec_encode_locator;
use crate::store::InitFile;
use crate::store::Locator;
use crate::store::StorageBackendType;
use vstd::prelude::*;

verus! {

/// One multipart field, already drained from the wire: its client-supplied
/// metadata and its bytes.
pub struct UploadField {
    pub mime_type: Option<String>,
    pub file_name: Option<String>,
    pub data: Vec<u8>,
}

/// What one upload request ended as.
pub enum UploadOutcome {
    /// no fresh token lives at the path; nothing was changed
    NoValidToken,
    /// the upload ran; the caller redirects to the token's retrieval path,
    /// and `used` tells whether the token was consumed
    Completed { token_path: String, used: bool },
}

/// How many of the first `n` fields carry at least one byte.
pub open spec fn nonzero_count(fields: Seq<UploadField>, n: int) -> int
    decreases n,
{
    if n <= 0 {
        0
    } else {
        nonzero_count(fields, n - 1) + (if fields[n - 1].data.len() > 0 {
            1int
        } else {
            0int
        })
    }
}

pub proof fn lemma_nonzero_count_bounds(fields: Seq<UploadField>, n: int)
    requires
        0 <= n <= fields.len(),
    ensures
        0 <= nonzero_count(fields, n) <= n,
    decreases n,
{
    if n > 0 {
        lemma_nonzero_count_bounds(fields, n - 1);
    }
}

/// The nonzero count grows along the fields, and strictly across a field
/// that carries bytes.
pub proof fn lemma_nonzero_count_mono(fields: Seq<UploadField>, a: int, b: int)
    requires
        0 <= a <= b <= fields.len(),
    ensures
        nonzero_count(fields, a) <= nonzero_count(fields, b),
        a < b && fields[a].data.len() > 0 ==> nonzero_count(fields, a) + 1 <= nonzero_count(
            fields,
            b,
        ),
    decreases b - a,
{
    if a < b {
        lemma_nonzero_count_mono(fields, a + 1, b);
    }
}

/// Bumping the rows with one id moves the by-id lookup along with it.
pub proof fn lemma_token_by_id_map_bumped(s1: Seq<DbToken>, s2: Seq<DbToken>, id: u64, i: int)
    requires
        0 <= i,
        s1.len() == s2.len(),
        forall|j: int|
            0 <= j < s1.len() ==> #[trigger] s2[j] == (if s1[j].id == id {
                spec_bumped_token(s1[j])
            } else {
                s1[j]
            }),
    ensures
        crate::ledger::token_by_id_from(s1, id, i) matches Some(t)
            ==> crate::ledger::token_by_id_from(s2, id, i) == Some(spec_bumped_token(t)),
        crate::ledger::token_by_id_from(s1, id, i) is None ==> crate::ledger::token_by_id_from(
            s2,
            id,
            i,
        ) is None,
    decreases s1.len() - i,
{
    if i < s1.len() {
        lemma_token_by_id_map_bumped(s1, s2, id, i + 1);
    }
}

/// The storage key field `i` is written under.
pub open spec fn spec_field_key(
    kind: StorageBackendType,
    root: Seq<char>,
    token_id: u64,
    attempt: u64,
    fields: Seq<UploadField>,
    i: int,
) -> Seq<char> {
    match kind {
        StorageBackendType::LocalFS => spec_blob_path(
            root,
            token_id as nat,
            attempt as nat,
            (i + 1) as nat,
        ),
        StorageBackendType::Garage => root + seq!['/'] + (match fields[i].file_name {
            Option::Some(n) => n@,
            Option::None => spec_blob_name(token_id as nat, attempt as nat, (i + 1) as nat),
        }),
    }
}

/// What the store holds under key `k` after the first `n` fields were
/// processed: the last field addressing `k` wins — its bytes if it carried
/// any, nothing if it was empty (an empty field's blob is deleted again).
pub open spec fn blob_after(
    prev: Option<Seq<u8>>,
    kind: StorageBackendType,
    root: Seq<char>,
    token_id: u64,
    attempt: u64,
    fields: Seq<UploadField>,
    n: int,
    k: Seq<char>,
) -> Option<Seq<u8>>
    decreases n,
{
    if n <= 0 {
        prev
    } else {
        let b = blob_after(prev, kind, root, token_id, attempt, fields, n - 1, k);
        if spec_field_key(kind, root, token_id, attempt, fields, n - 1) == k {
            if fields[n - 1].data.len() > 0 {
                Option::Some(fields[n - 1].data@)
            } else {
                Option::None
            }
        } else {
            b
        }
    }
}

/// The token row after an upload attempt ran over it: the counter is
/// bumped; the token is marked used only if any byte arrived.
pub open spec fn spec_token_after_upload(t: DbToken, any: bool, now: u64) -> DbToken {
    if any {
        spec_finalised_token(spec_bumped_token(t), now)
    } else {
        spec_bumped_token(t)
    }
}

/// The file row recorded for field `i` (counting from zero) looks like
/// this: stamped with the bumped attempt counter, completed at `now`, and
/// carrying a locator that serializes to its storage key.
pub open spec fn file_matches_field(
    f: DbFile,
    token_id: u64,
    attempt: u64,
    kind: StorageBackendType,
    root: Seq<char>,
    fields: Seq<UploadField>,
    i: int,
    fid: u64,
    now: u64,
) -> bool {
    &&& f.id == fid
    &&& f.token_id == token_id
    &&& f.attempt_counter == attempt
    &&& f.mime_type == fields[i].mime_type
    &&& f.name == fields[i].file_name
    &&& f.backend_type@ == kind.spec_tag()
    &&& f.created_at == now
    &&& f.completed_at == Option::<u64>::Some(now)
    &&& exists|l: Locator|
        #![auto]
        f.backend_data@ == spec_encode_locator(l) && spec_locator_key(l) == spec_field_key(
            kind,
            root,
            token_id,
            attempt,
            fields,
            i,
        )
}

/// Handles one upload request: resolve the token, lock it for a new
/// attempt, stream each field into the store, record and complete file
/// rows, discard empty fields, and finalise the token only if any byte
/// arrived.  An upload with no bytes leaves the token fresh and reusable.
pub fn handle_upload(
    db: &mut DBService,
    store: &mut MemStore,
    tok_path: &str,
    fields: &Vec<UploadField>,
    now: u64,
) -> (r: Result<UploadOutcome, AppError>)
    requires
        old(db).wf(),
        now >= old(db)@.clock,
        now <= MAX_INSTANT,
        counters_ok(old(db)@.tokens),
        old(db)@.next_file_id + fields@.len() <= u64::MAX,
    ensures
        final(db).wf(),
        final(store).kind() == old(store).kind(),
        final(store).root() == old(store).root(),
        final(store).version() == old(store).version(),
        // a missing or already used token rejects the upload untouched
        (scan_tokens(old(db)@.tokens, tok_path@, now) is NotFound || scan_tokens(
            old(db)@.tokens,
            tok_path@,
            now,
        ) is Used) ==> r == Result::<UploadOutcome, AppError>::Ok(UploadOutcome::NoValidToken)
            && final(db)@ == old(db)@ && final(store).entries() == old(store).entries(),
        // a fresh token past its start deadline fails the request
        (scan_tokens(old(db)@.tokens, tok_path@, now) matches GetTokenResult::Fresh(t)
            && t.valid_until <= now) ==> r == Result::<UploadOutcome, AppError>::Err(
            AppError::NoTokenFound,
        ) && final(db)@ == (LedgerView { clock: now, ..old(db)@ }) && final(store).entries()
            == old(store).entries(),
        // a fresh, open token takes the upload
        scan_tokens(old(db)@.tokens, tok_path@, now) matches GetTokenResult::Fresh(t) ==> (
        t.valid_until > now ==> {
            let any = nonzero_count(fields@, fields@.len() as int) > 0;
            let attempt = (t.attempt_counter + 1) as u64;
            &&& r matches Result::Ok(o)
            &&& o matches UploadOutcome::Completed { token_path, used } && token_path@ == tok_path@
                && used == any
            // tokens: only the target row changes, as the state machine says
            &&& final(db)@.tokens.len() == old(db)@.tokens.len()
            &&& forall|j: int|
                0 <= j < old(db)@.tokens.len() ==> #[trigger] final(db)@.tokens[j] == (
                if old(db)@.tokens[j].id == t.id {
                    spec_token_after_upload(old(db)@.tokens[j], any, now)
                } else {
                    old(db)@.tokens[j]
                })
            // files: one completed row per nonempty field, in field order
            &&& final(db)@.files.len() == old(db)@.files.len() + nonzero_count(
                fields@,
                fields@.len() as int,
            )
            &&& final(db)@.files.subrange(0, old(db)@.files.len() as int) == old(db)@.files
            &&& forall|i: int|
                0 <= i < fields@.len() && fields@[i].data.len() > 0 ==> file_matches_field(
                    #[trigger] final(db)@.files[old(db)@.files.len() + nonzero_count(fields@, i)],
                    t.id,
                    attempt,
                    old(store).kind(),
                    old(store).root(),
                    fields@,
                    i,
                    (old(db)@.next_file_id + i) as u64,
                    now,
                )
            // metadata: one row per nonempty field, with its byte count
            &&& final(db)@.metadata.len() == old(db)@.metadata.len() + nonzero_count(
                fields@,
                fields@.len() as int,
            )
            &&& final(db)@.metadata.subrange(0, old(db)@.metadata.len() as int) == old(db)@.metadata
            &&& forall|i: int|
                0 <= i < fields@.len() && fields@[i].data.len() > 0
                    ==> #[trigger] final(db)@.metadata[old(db)@.metadata.len() + nonzero_count(
                    fields@,
                    i,
                )] == (FileMetadataRow {
                    file_id: (old(db)@.next_file_id + i) as u64,
                    size_b: Option::Some(fields@[i].data.len() as u64),
                    mime_type: fields@[i].mime_type,
                })
            // the store: per key, the last field addressing it decides
            &&& forall|k: Seq<char>|
                #[trigger] final(store).blob(k) == blob_after(
                    old(store).blob(k),
                    old(store).kind(),
                    old(store).root(),
                    t.id,
                    attempt,
                    fields@,
                    fields@.len() as int,
                    k,
                )
            &&& final(db)@.accounts == old(db)@.accounts
            &&& final(db)@.next_token_id == old(db)@.next_token_id
            &&& final(db)@.next_file_id == old(db)@.next_file_id + fields@.len()
            &&& final(db)@.next_account_id == old(db)@.next_account_id
            &&& final(db)@.clock == now
        }),
{
    let ghost v0 = db@;
    let token = match db.get_valid_token(tok_path, now) {
        GetTokenResult::Fresh(t) => t,
        GetTokenResult::NotFound => {
            return Ok(UploadOutcome::NoValidToken);
        },
        GetTokenResult::Used(_) => {
            return Ok(UploadOutcome::NoValidToken);
        },
    };
    proof {
        lemma_scan_found(v0.tokens, tok_path@, now, 0);
        let w = choose|w: int|
            0 <= w < v0.tokens.len() && #[trigger] v0.tokens[w] == token && v0.tokens[w].path@
                == tok_path@ && token_live(v0.tokens[w], now);
        crate::ledger::lemma_token_by_id_unique(v0.tokens, w, 0);
    }
    let ghost t0 = token;
    let mut token_path_copy = String::new();
    token_path_copy.append(tok_path);
    proof {
        assert(token_path_copy@ =~= tok_path@);
    }
    let ut = match db.initiate_upload(token, now) {
        Result::Ok(ut) => ut,
        Result::Err(e) => {
            proof {
                assert(t0.valid_until <= now);
                assert(db@ == (LedgerView { clock: now, ..v0 }));
            }
            return Err(e);
        },
    };
    proof {
        assert(t0.valid_until > now);
        assert(ut.attempt_counter == t0.attempt_counter + 1);
    }
    let ghost store0_entries = old(store).entries();
    let mut total_nonzero: u64 = 0;
    let mut idx: usize = 0;
    let n = fields.len();
    let ghost kind = store.kind();
    let ghost root = store.root();
    let ghost version = store.version();
    while idx < n
        invariant
            0 <= idx <= n,
            n == fields@.len(),
            db.wf(),
            v0.next_file_id + fields@.len() <= u64::MAX,
            t0.attempt_counter < u64::MAX,
            ut.id == t0.id,
            ut.attempt_counter == t0.attempt_counter + 1,
            now <= MAX_INSTANT,
            db@.clock == now,
            kind == store.kind(),
            root == store.root(),
            version == store.version(),
            // the ledger so far
            db@.tokens.len() == v0.tokens.len(),
            forall|j: int|
                0 <= j < v0.tokens.len() ==> #[trigger] db@.tokens[j] == (
                if v0.tokens[j].id == t0.id {
                    spec_bumped_token(v0.tokens[j])
                } else {
                    v0.tokens[j]
                }),
            spec_token_by_id(v0.tokens, t0.id) == Some(t0),
            t0.used_at is None,
            db@.files.len() == v0.files.len() + nonzero_count(fields@, idx as int),
            db@.files.subrange(0, v0.files.len() as int) == v0.files,
            forall|i: int|
                0 <= i < idx && fields@[i].data.len() > 0 ==> file_matches_field(
                    #[trigger] db@.files[v0.files.len() + nonzero_count(fields@, i)],
                    t0.id,
                    (t0.attempt_counter + 1) as u64,
                    kind,
                    root,
                    fields@,
                    i,
                    (v0.next_file_id + i) as u64,
                    now,
                ),
            db@.metadata.len() == v0.metadata.len() + nonzero_count(fields@, idx as int),
            db@.metadata.subrange(0, v0.metadata.len() as int) == v0.metadata,
            forall|i: int|
                0 <= i < idx && fields@[i].data.len() > 0 ==> #[trigger] db@.metadata[
                    v0.metadata.len() + nonzero_count(fields@, i)] == (FileMetadataRow {
                    file_id: (v0.next_file_id + i) as u64,
                    size_b: Option::Some(fields@[i].data.len() as u64),
                    mime_type: fields@[i].mime_type,
                }),
            forall|k: Seq<char>|
                #[trigger] store.blob(k) == blob_after(
                    crate::memstore::spec_lookup(store0_entries, k),
                    kind,
                    root,
                    t0.id,
                    (t0.attempt_counter + 1) as u64,
                    fields@,
                    idx as int,
                    k,
                ),
            db@.accounts == v0.accounts,
            db@.next_token_id == v0.next_token_id,
            db@.next_file_id == v0.next_file_id + idx,
            db@.next_account_id == v0.next_account_id,
            total_nonzero as int == nonzero_count(fields@, idx as int),
            (total_nonzero > 0) == (nonzero_count(fields@, idx as int) > 0),
        decreases n - idx,
    {
        let ghost pre_iter = db@;
        proof {
            lemma_nonzero_count_bounds(fields@, idx as int);
        }
        let field = &fields[idx];
        let file_index = (idx as u64) + 1;
        let init = InitFile {
            token_id: ut.id,
            token_path: ut.path.clone(),
            file_index,
            attempt_counter: ut.attempt_counter,
            mime_type: crate::ledger::clone_opt_string(&field.mime_type),
            file_name: crate::ledger::clone_opt_string(&field.file_name),
        };
        let (mut blob, locator) = store.initiate_upload(&init);
        proof {
            assert(spec_locator_key(locator) == spec_field_key(
                kind,
                root,
                t0.id,
                (t0.attempt_counter + 1) as u64,
                fields@,
                idx as int,
            ));
        }
        let backend_data = crate::store::encode_locator(&locator);
        let backend_type_str = store.get_type();
        let mut backend_type = String::new();
        backend_type.append(backend_type_str);
        proof {
            assert(backend_type@ =~= kind.spec_tag());
            crate::ledger::lemma_token_by_id_same_ids(v0.tokens, db@.tokens, ut.id, 0);
        }
        let db_file = db.create_file(
            &ut,
            backend_type,
            backend_data,
            crate::ledger::clone_opt_string(&field.mime_type),
            crate::ledger::clone_opt_string(&field.file_name),
            now,
        );
        blob.write(field.data.as_slice());
        let bytes_copied = field.data.len();
        if bytes_copied == 0 {
            store.delete_blob(&locator);
            let mut one_id: Vec<u64> = Vec::new();
            one_id.push(db_file.id);
            let ghost before_del = db@;
            proof {
                let last = before_del.files.len() - 1;
                assert(before_del.files[last] == db_file);
                assert forall|j: int|
                    0 <= j < before_del.files.len() && one_id@.contains(
                        #[trigger] before_del.files[j].id,
                    ) implies crate::ledger::file_deletable(before_del, before_del.files[j], now)
                    by {
                    assert(one_id@[0] == db_file.id);
                    let q = choose|q: int|
                        0 <= q < one_id@.len() && one_id@[q] == before_del.files[j].id;
                    assert(before_del.files[j].id == db_file.id);
                    if j != last {
                        assert(before_del.files[j].id != before_del.files[last].id);
                    }
                    assert(before_del.files[j].completed_at is None);
                }
            }
            db.delete_files(&one_id, now);
            proof {
                lemma_delete_last_uncompleted(before_del, one_id@, db_file.id, now);
                assert(db@.files =~= before_del.files.drop_last());
                assert(db@.files.subrange(0, v0.files.len() as int) =~= v0.files);
                assert forall|j: int|
                    0 <= j < before_del.metadata.len() implies !one_id@.contains(
                    #[trigger] before_del.metadata[j].file_id,
                ) by {
                    if one_id@.contains(before_del.metadata[j].file_id) {
                        let q = choose|q: int|
                            0 <= q < one_id@.len() && one_id@[q] == before_del.metadata[j].file_id;
                        assert(before_del.metadata[j].file_id == db_file.id);
                        let w = choose|w: int|
                            0 <= w < before_del.files.len() && #[trigger] before_del.files[w].id
                                == before_del.metadata[j].file_id && before_del.files[w]
                                .completed_at is Some;
                        let last = before_del.files.len() - 1;
                        if w != last {
                            assert(before_del.files[w].id != before_del.files[last].id);
                        }
                        assert(false);
                    }
                }
                lemma_metadata_without_none(before_del.metadata, one_id@, before_del.files, 0);
                assert(db@.metadata =~= before_del.metadata);
            }
        } else {
            let updated = store.finalize_upload(blob);
            let size: u64 = bytes_copied as u64;
            let md = DbFileMetadata {
                size_b: Some(size),
                mime_type: crate::ledger::clone_opt_string(&field.mime_type),
            };
            let ghost before_fin = db@;
            proof {
                assert(before_fin.files.last() == db_file);
                assert(before_fin.files[before_fin.files.len() - 1].id == db_file.id);
            }
            let updated_data = match updated {
                Option::Some(l) => Option::Some(crate::store::encode_locator(&l)),
                Option::None => Option::None,
            };
            db.finalise_file_upload(db_file, updated_data, md, now);
            proof {
                let k = before_fin.files.len() - 1;
                assert(db@.files[k] == crate::ledger::spec_finalised_file(
                    before_fin.files[k],
                    updated_data,
                    now,
                ));
                assert forall|j: int|
                    0 <= j < before_fin.files.len() && j != k implies #[trigger] db@.files[j]
                    == before_fin.files[j] by {
                    assert(before_fin.files[j].id != before_fin.files[k].id);
                }
                assert(db@.files.subrange(0, v0.files.len() as int) =~= v0.files);
                assert(k == v0.files.len() + nonzero_count(fields@, idx as int));
                assert(file_matches_field(
                    db@.files[k],
                    t0.id,
                    (t0.attempt_counter + 1) as u64,
                    kind,
                    root,
                    fields@,
                    idx as int,
                    (v0.next_file_id + idx) as u64,
                    now,
                )) by {
                    assert(db@.files[k].backend_data@ == spec_encode_locator(locator));
                    assert(spec_locator_key(locator) == spec_field_key(
                        kind,
                        root,
                        t0.id,
                        (t0.attempt_counter + 1) as u64,
                        fields@,
                        idx as int,
                    ));
                }
                assert(db@.metadata == before_fin.metadata.push(
                    FileMetadataRow {
                        file_id: (v0.next_file_id + idx) as u64,
                        size_b: Option::Some(fields@[idx as int].data.len() as u64),
                        mime_type: fields@[idx as int].mime_type,
                    },
                ));
                assert(db@.metadata.subrange(0, v0.metadata.len() as int) =~= v0.metadata);
            }
            total_nonzero = total_nonzero + 1;
        }
        proof {
            assert(nonzero_count(fields@, idx + 1) == nonzero_count(fields@, idx as int) + (
            if fields@[idx as int].data.len() > 0 {
                1int
            } else {
                0int
            }));
            // the per-field facts survive this iteration: earlier rows sit
            // below everything this iteration touched
            assert forall|i: int|
                0 <= i < idx + 1 && fields@[i].data.len() > 0 implies file_matches_field(
                #[trigger] db@.files[v0.files.len() + nonzero_count(fields@, i)],
                t0.id,
                (t0.attempt_counter + 1) as u64,
                kind,
                root,
                fields@,
                i,
                (v0.next_file_id + i) as u64,
                now,
            ) by {
                lemma_nonzero_count_bounds(fields@, i);
                if i < idx {
                    lemma_nonzero_count_mono(fields@, i, idx as int);
                    let pos = v0.files.len() + nonzero_count(fields@, i);
                    assert(pos < pre_iter.files.len());
                    assert(db@.files[pos] == pre_iter.files[pos]);
                    assert(file_matches_field(
                        pre_iter.files[pos],
                        t0.id,
                        (t0.attempt_counter + 1) as u64,
                        kind,
                        root,
                        fields@,
                        i,
                        (v0.next_file_id + i) as u64,
                        now,
                    ));
                }
            }
            assert forall|i: int|
                0 <= i < idx + 1 && fields@[i].data.len() > 0 implies #[trigger] db@.metadata[
                v0.metadata.len() + nonzero_count(fields@, i)] == (FileMetadataRow {
                file_id: (v0.next_file_id + i) as u64,
                size_b: Option::Some(fields@[i].data.len() as u64),
                mime_type: fields@[i].mime_type,
            }) by {
                lemma_nonzero_count_bounds(fields@, i);
                if i < idx {
                    lemma_nonzero_count_mono(fields@, i, idx as int);
                    let pos = v0.metadata.len() + nonzero_count(fields@, i);
                    assert(pos < pre_iter.metadata.len());
                    assert(db@.metadata[pos] == pre_iter.metadata[pos]);
                }
            }
            let fkey = spec_field_key(
                kind,
                root,
                t0.id,
                (t0.attempt_counter + 1) as u64,
                fields@,
                idx as int,
            );
            assert forall|k: Seq<char>| #[trigger] store.blob(k) == blob_after(
                crate::memstore::spec_lookup(store0_entries, k),
                kind,
                root,
                t0.id,
                (t0.attempt_counter + 1) as u64,
                fields@,
                idx + 1,
                k,
            ) by {
                if k == fkey {
                    if fields@[idx as int].data.len() > 0 {
                        assert(store.blob(k) == Some(fields@[idx as int].data@)) by {
                            assert(Seq::<u8>::empty() + fields@[idx as int].data@ =~= fields@[
                                idx as int].data@);
                        }
                    } else {
                        assert(store.blob(k) is None);
                    }
                }
            }
        }
        idx = idx + 1;
    }
    let used = total_nonzero > 0;
    let ghost v_exit = db@;
    proof {
        lemma_token_by_id_map_bumped(v0.tokens, v_exit.tokens, t0.id, 0);
        assert(spec_token_by_id(v_exit.tokens, ut.id) == Some(spec_bumped_token(t0)));
    }
    if used {
        proof {
            lemma_first_nonzero(fields@, n as int);
            let fi = choose|fi: int| 0 <= fi < n && #[trigger] fields@[fi].data.len() > 0;
            lemma_nonzero_count_bounds(fields@, fi);
            lemma_nonzero_count_mono(fields@, fi, n as int);
            let pos = v0.files.len() + nonzero_count(fields@, fi);
            assert(pos < v_exit.files.len());
            assert(file_matches_field(
                v_exit.files[pos],
                t0.id,
                (t0.attempt_counter + 1) as u64,
                kind,
                root,
                fields@,
                fi,
                (v0.next_file_id + fi) as u64,
                now,
            ));
            assert(v_exit.files[pos].token_id == ut.id && v_exit.files[pos].attempt_counter
                == ut.attempt_counter && v_exit.files[pos].completed_at is Some);
            assert(crate::ledger::has_completed_file(v_exit.files, ut.id, ut.attempt_counter));
        }
        let res = db.finalise_token_upload(ut, now);
        proof {
            assert(res is Ok);
            // compose the counter bump with the finalisation, row by row
            assert forall|j: int|
                0 <= j < v0.tokens.len() implies #[trigger] db@.tokens[j] == (
            if v0.tokens[j].id == t0.id {
                spec_token_after_upload(v0.tokens[j], true, now)
            } else {
                v0.tokens[j]
            }) by {
                if v0.tokens[j].id == t0.id {
                    assert(v_exit.tokens[j] == spec_bumped_token(v0.tokens[j]));
                    assert(db@.tokens[j] == spec_finalised_token(v_exit.tokens[j], now));
                } else {
                    assert(v_exit.tokens[j] == v0.tokens[j]);
                    assert(db@.tokens[j] == v_exit.tokens[j]);
                }
            }
            assert(db@.files == v_exit.files);
            assert(db@.metadata == v_exit.metadata);
        }
    }
    Ok(UploadOutcome::Completed { token_path: token_path_copy, used })
}

/// A classified scan result is a live row of the sequence at the path.
pub proof fn lemma_scan_found(s: Seq<DbToken>, path: Seq<char>, now: u64, i: int)
    requires
        0 <= i <= s.len(),
    ensures
        scan_from_res(s, path, now, i) matches Some(t) ==> exists|w: int|
            i <= w < s.len() && #[trigger] s[w] == t && s[w].path@ == path && token_live(s[w], now),
        crate::ledger::scan_from(s, path, now, i) matches GetTokenResult::Fresh(t) ==> (
        scan_from_res(s, path, now, i) == Some(t) && t.used_at is None),
        crate::ledger::scan_from(s, path, now, i) matches GetTokenResult::Used(t)
            ==> scan_from_res(s, path, now, i) == Some(t),
    decreases s.len() - i,
{
    if i < s.len() {
        lemma_scan_found(s, path, now, i + 1);
    }
}

/// The row the scan classified, if any.
pub open spec fn scan_from_res(s: Seq<DbToken>, path: Seq<char>, now: u64, i: int) -> Option<
    DbToken,
>
    decreases s.len() - i,
{
    if i < 0 || i >= s.len() {
        Option::None
    } else if s[i].path@ == path && token_live(s[i], now) {
        Option::Some(s[i])
    } else {
        scan_from_res(s, path, now, i + 1)
    }
}

/// Some field carries a byte exactly when the nonzero count is positive.
pub proof fn lemma_first_nonzero(fields: Seq<UploadField>, n: int)
    requires
        0 <= n <= fields.len(),
        nonzero_count(fields, n) > 0,
    ensures
        exists|fi: int| 0 <= fi < n && #[trigger] fields[fi].data.len() > 0,
    decreases n,
{
    if n > 0 {
        if fields[n - 1].data.len() > 0 {
            assert(0 <= n - 1 < n && fields[n - 1].data.len() > 0);
        } else {
            lemma_first_nonzero(fields, n - 1);
        }
    }
}

/// Deleting the single, just-created, uncompleted last row removes exactly
/// that row.
proof fn lemma_delete_last_uncompleted(v: LedgerView, ids: Seq<u64>, id: u64, now: u64)
    requires
        crate::ledger::ledger_wf(v),
        v.files.len() > 0,
        v.files.last().id == id,
        ids == seq![id],
    ensures
        crate::ledger::files_without(v.files, ids, 0) == v.files.drop_last(),
{
    lemma_files_without_single_last(v.files, ids, id, 0);
}

proof fn lemma_files_without_single_last(files: Seq<DbFile>, ids: Seq<u64>, id: u64, i: int)
    requires
        0 <= i <= files.len() - 1,
        files.len() > 0,
        files.last().id == id,
        ids == seq![id],
        forall|a: int, b: int|
            #![trigger files[a], files[b]]
            0 <= a < b < files.len() ==> files[a].id != files[b].id,
    ensures
        crate::ledger::files_without(files, ids, i) == files.subrange(i, files.len() - 1),
    decreases files.len() - i,
{
    let r = crate::ledger::files_without(files, ids, i);
    if i == files.len() - 1 {
        assert(ids.contains(files[i].id)) by {
            assert(ids[0] == id);
        }
        assert(r == crate::ledger::files_without(files, ids, i + 1));
        assert(crate::ledger::files_without(files, ids, i + 1) =~= files.subrange(
            i,
            files.len() - 1,
        ));
    } else {
        lemma_files_without_single_last(files, ids, id, i + 1);
        assert(files[i].id != files.last().id);
        assert(!ids.contains(files[i].id)) by {
            if ids.contains(files[i].id) {
                let q = choose|q: int| 0 <= q < ids.len() && ids[q] == files[i].id;
                assert(ids[q] == id);
            }
        }
        assert(r == seq![files[i]] + crate::ledger::files_without(files, ids, i + 1));
        assert(r =~= files.subrange(i, files.len() - 1));
    }
}

/// Deleting ids that no metadata row carries leaves the metadata unchanged.
proof fn lemma_metadata_without_none(
    md: Seq<FileMetadataRow>,
    ids: Seq<u64>,
    files: Seq<DbFile>,
    i: int,
)
    requires
        0 <= i <= md.len(),
        forall|j: int| 0 <= j < md.len() ==> !ids.contains(#[trigger] md[j].file_id),
    ensures
        crate::ledger::metadata_without(md, ids, i) == md.subrange(i, md.len() as int),
    decreases md.len() - i,
{
    if i < md.len() {
        lemma_metadata_without_none(md, ids, files, i + 1);
        assert(crate::ledger::metadata_without(md, ids, i) == seq![md[i]]
            + crate::ledger::metadata_without(md, ids, i + 1));
        assert(seq![md[i]] + md.subrange(i + 1, md.len() as int) =~= md.subrange(
            i,
            md.len() as int,
        ));
    } else {
        assert(crate::ledger::metadata_without(md, ids, i) =~= md.subrange(i, md.len() as int));
    }
}

} // verus!
