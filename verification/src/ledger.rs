//! The token/file ledger: the persistent record of tokens and files, the
//! derived lifecycle state machine, and the transactional operations that
//! advance it.  The store is kept in memory behind this service; every
//! operation takes the current instant explicitly, so expiry can be tested
//! and reasoned about without a wall clock.

use vstd::prelude::*;
verus! {

/// Instants are UTC seconds since the epoch.  Operations accept instants up
/// to this bound so that expiry arithmetic cannot overflow a machine word.
pub const MAX_INSTANT: u64 = 1152921504606846976;

/// Retention windows are capped at this many hours (over four hundred
/// thousand years), again so that expiry arithmetic stays in bounds.
pub const MAX_EXPIRE_HOURS: u64 = 4294967296;

/// Seconds in one hour; expiry arithmetic is exact in seconds.
pub const SECONDS_PER_HOUR: u64 = 3600;

/// One token row: a single-use, path-addressed authorization to upload.
#[derive(Debug)]
pub struct DbToken {
    pub id: u64,
    /// the path in the url
    pub path: String,
    /// advisory cap, in MiB, for the sum of all files under this token
    pub max_size_mib: Option<u64>,
    /// deadline to start an upload; moot once files were uploaded
    pub valid_until: u64,
    pub created_at: u64,
    /// how long content is kept after a successful upload; absent = forever
    pub content_expires_after_hours: Option<u64>,
    /// soft-delete marker, unused in the normal flow
    pub deleted_at: Option<u64>,
    /// bumped each time an upload is initiated; scopes file rows to attempts
    pub attempt_counter: u64,
    /// set once an upload completed with at least one byte
    pub used_at: Option<u64>,
    /// absolute deadline computed when the token is used
    pub content_expires_at: Option<u64>,
    /// which storage backend serves this token's files
    pub backend_type: String,
}

impl DbToken {
    /// A field-for-field copy of the row.
    pub fn duplicate(&self) -> (r: DbToken)
        ensures
            r == *self,
    {
        DbToken {
            id: self.id,
            path: self.path.clone(),
            max_size_mib: self.max_size_mib,
            valid_until: self.valid_until,
            created_at: self.created_at,
            content_expires_after_hours: self.content_expires_after_hours,
            deleted_at: self.deleted_at,
            attempt_counter: self.attempt_counter,
            used_at: self.used_at,
            content_expires_at: self.content_expires_at,
            backend_type: self.backend_type.clone(),
        }
    }
}

/// One file row, FK to its token; `attempt_counter` is copied from the token
/// when the row is created.
#[derive(Debug)]
pub struct DbFile {
    pub id: u64,
    pub token_id: u64,
    pub attempt_counter: u64,
    pub mime_type: Option<String>,
    pub name: Option<String>,
    pub backend_type: String,
    /// the backend-opaque serialized locator
    pub backend_data: String,
    pub created_at: u64,
    /// set only once the blob is fully written and synced
    pub completed_at: Option<u64>,
}

pub fn clone_opt_string(o: &Option<String>) -> (r: Option<String>)
    ensures
        r == *o,
{
    match o {
        Option::Some(s) => Option::Some(s.clone()),
        Option::None => Option::None,
    }
}

impl DbFile {
    /// A field-for-field copy of the row.
    pub fn duplicate(&self) -> (r: DbFile)
        ensures
            r == *self,
    {
        DbFile {
            id: self.id,
            token_id: self.token_id,
            attempt_counter: self.attempt_counter,
            mime_type: clone_opt_string(&self.mime_type),
            name: clone_opt_string(&self.name),
            backend_type: self.backend_type.clone(),
            backend_data: self.backend_data.clone(),
            created_at: self.created_at,
            completed_at: self.completed_at,
        }
    }
}

/// The metadata written atomically with a file's completion.
#[derive(Debug)]
pub struct DbFileMetadata {
    pub size_b: Option<u64>,
    pub mime_type: Option<String>,
}

/// The stored metadata row, keyed by the file it belongs to.
#[derive(Debug)]
pub struct FileMetadataRow {
    pub file_id: u64,
    pub size_b: Option<u64>,
    pub mime_type: Option<String>,
}

/// An admin credential; the ledger stores it and hands it to the
/// authentication collaborator without interpreting the hash string.
#[derive(Debug)]
pub struct Account {
    pub id: u64,
    pub username: String,
    pub phc: String,
}

impl Account {
    /// A field-for-field copy of the row.
    pub fn duplicate(&self) -> (r: Account)
        ensures
            r == *self,
    {
        Account { id: self.id, username: self.username.clone(), phc: self.phc.clone() }
    }
}

/// What a new token should look like.
#[derive(Debug)]
pub struct CreateToken {
    pub path: String,
    pub max_size_mib: Option<u64>,
    pub valid_until: u64,
    pub content_expires_after_hours: Option<u64>,
    pub backend_type: String,
}

/// Must be created before files can be uploaded for a token; it is an opaque
/// session handle carrying the attempt counter that the upload owns.
#[must_use]
pub struct UploadToken {
    pub id: u64,
    pub path: String,
    pub attempt_counter: u64,
}

/// Why a token could not be created.
#[derive(Clone, Copy, PartialEq, Eq, Structural, Debug)]
pub enum TokenError {
    /// a live token already exists at this path
    AlreadyExist,
}

/// The expected, non-exceptional business failures of the ledger.
#[derive(Clone, Copy, PartialEq, Eq, Structural, Debug)]
pub enum AppError {
    /// the token went stale between being looked up and being acted on
    NoTokenFound,
    /// no account row carries the requested username
    NoAccountFound,
}

/// The derived lifecycle classification of a token at one instant.
#[derive(Debug)]
pub enum GetTokenResult {
    /// no row satisfies the liveness predicate
    NotFound,
    /// the token exists and can be used to upload
    Fresh(DbToken),
    /// the token exists, was used, and its files can be shown
    Used(DbToken),
}

/// The row-scan liveness predicate: not deleted, and either still open for
/// upload, or retaining content (an absent deadline retains forever).
pub open spec fn scan_live(t: DbToken, now: u64) -> bool {
    &&& t.deleted_at is None
    &&& (t.valid_until > now || t.content_expires_at is None || t.content_expires_at->0 > now)
}

/// A used token still serves its content while no expiry applies or the
/// computed deadline lies ahead.
pub open spec fn used_live(t: DbToken, now: u64) -> bool {
    ||| t.content_expires_after_hours is None
    ||| t.content_expires_at is None
    ||| t.content_expires_at->0 > now
}

/// A token is live when the row scan keeps it and its classification does
/// not discard it: fresh rows are live, used rows only until content expiry.
pub open spec fn token_live(t: DbToken, now: u64) -> bool {
    scan_live(t, now) && (t.used_at is None || used_live(t, now))
}

/// The classification of a live row.
pub open spec fn classify(t: DbToken) -> GetTokenResult {
    if t.used_at is None {
        GetTokenResult::Fresh(t)
    } else {
        GetTokenResult::Used(t)
    }
}

/// The scan: the first live row at `path`, classified.
pub open spec fn scan_from(s: Seq<DbToken>, path: Seq<char>, now: u64, i: int) -> GetTokenResult
    decreases s.len() - i,
{
    if i < 0 || i >= s.len() {
        GetTokenResult::NotFound
    } else if s[i].path@ == path && token_live(s[i], now) {
        classify(s[i])
    } else {
        scan_from(s, path, now, i + 1)
    }
}

pub open spec fn scan_tokens(s: Seq<DbToken>, path: Seq<char>, now: u64) -> GetTokenResult {
    scan_from(s, path, now, 0)
}

/// The narrower freshness check used when an upload is initiated: once
/// `used_at` is set the token is no longer uploadable even if still live.
pub open spec fn uploadable(t: DbToken, now: u64) -> bool {
    t.deleted_at is None && t.valid_until > now && t.used_at is None
}

/// The first token with the given id.
pub open spec fn token_by_id_from(s: Seq<DbToken>, id: u64, i: int) -> Option<DbToken>
    decreases s.len() - i,
{
    if i < 0 || i >= s.len() {
        Option::None
    } else if s[i].id == id {
        Option::Some(s[i])
    } else {
        token_by_id_from(s, id, i + 1)
    }
}

pub open spec fn spec_token_by_id(s: Seq<DbToken>, id: u64) -> Option<DbToken> {
    token_by_id_from(s, id, 0)
}

/// The first metadata row for the given file.
pub open spec fn md_by_file_from(s: Seq<FileMetadataRow>, id: u64, i: int) -> Option<
    FileMetadataRow,
>
    decreases s.len() - i,
{
    if i < 0 || i >= s.len() {
        Option::None
    } else if s[i].file_id == id {
        Option::Some(s[i])
    } else {
        md_by_file_from(s, id, i + 1)
    }
}

pub open spec fn spec_md_by_file(s: Seq<FileMetadataRow>, id: u64) -> Option<FileMetadataRow> {
    md_by_file_from(s, id, 0)
}

/// The first account with the given username.
pub open spec fn account_by_name_from(s: Seq<Account>, name: Seq<char>, i: int) -> Option<Account>
    decreases s.len() - i,
{
    if i < 0 || i >= s.len() {
        Option::None
    } else if s[i].username@ == name {
        Option::Some(s[i])
    } else {
        account_by_name_from(s, name, i + 1)
    }
}

pub open spec fn spec_account_by_name(s: Seq<Account>, name: Seq<char>) -> Option<Account> {
    account_by_name_from(s, name, 0)
}

/// Does some file row belong to this token?
pub open spec fn has_file_for_token(files: Seq<DbFile>, token_id: u64) -> bool {
    exists|i: int| 0 <= i < files.len() && #[trigger] files[i].token_id == token_id
}

/// Does a completed file of this attempt exist?  Exactly this is what makes
/// a used token's `used_at` honest.
pub open spec fn has_completed_file(files: Seq<DbFile>, token_id: u64, attempt: u64) -> bool {
    exists|i: int|
        0 <= i < files.len() && #[trigger] files[i].token_id == token_id
            && files[i].attempt_counter == attempt && files[i].completed_at is Some
}

/// The retention rule for files: its token's content expired, or the row is
/// an orphan of a superseded attempt, or its token was abandoned unused.
pub open spec fn file_delete_pred(tokens: Seq<DbToken>, f: DbFile, now: u64) -> bool {
    match spec_token_by_id(tokens, f.token_id) {
        Option::Some(t) => {
            ||| (t.content_expires_at matches Some(e) && e <= now)
            ||| t.attempt_counter > f.attempt_counter
            ||| (t.used_at is None && t.valid_until <= now)
        },
        Option::None => false,
    }
}

/// The retention rule for token rows themselves.
pub open spec fn token_expired(t: DbToken, now: u64) -> bool {
    ||| (t.content_expires_at matches Some(e) && e <= now)
    ||| (t.used_at is None && t.valid_until <= now)
}

/// A file row that `delete_files` may remove without breaking the ledger's
/// invariants: never completed, or up for retention at `now`.
pub open spec fn file_deletable(v: LedgerView, f: DbFile, now: u64) -> bool {
    f.completed_at is None || file_delete_pred(v.tokens, f, now)
}

/// The abstract state of the ledger.
pub struct LedgerView {
    pub tokens: Seq<DbToken>,
    pub files: Seq<DbFile>,
    pub metadata: Seq<FileMetadataRow>,
    pub accounts: Seq<Account>,
    pub next_token_id: u64,
    pub next_file_id: u64,
    pub next_account_id: u64,
    pub clock: u64,
}

/// Retention windows recorded in rows are capped, so expiry arithmetic at
/// any admissible instant stays in bounds.
pub open spec fn hours_bounded(t: DbToken) -> bool {
    t.content_expires_after_hours matches Some(h) ==> h <= MAX_EXPIRE_HOURS
}

/// The ledger's invariant.
pub open spec fn ledger_wf(v: LedgerView) -> bool {
    // identities are unique and below the allocators
    &&& forall|i: int, j: int|
        #![trigger v.tokens[i], v.tokens[j]]
        0 <= i < j < v.tokens.len() ==> v.tokens[i].id != v.tokens[j].id
    &&& forall|i: int| 0 <= i < v.tokens.len() ==> #[trigger] v.tokens[i].id < v.next_token_id
    &&& forall|i: int, j: int|
        #![trigger v.files[i], v.files[j]]
        0 <= i < j < v.files.len() ==> v.files[i].id != v.files[j].id
    &&& forall|i: int| 0 <= i < v.files.len() ==> #[trigger] v.files[i].id < v.next_file_id
    &&& forall|i: int, j: int|
        #![trigger v.accounts[i], v.accounts[j]]
        0 <= i < j < v.accounts.len() ==> v.accounts[i].id != v.accounts[j].id
    &&& forall|i: int|
        0 <= i < v.accounts.len() ==> #[trigger] v.accounts[i].id < v.next_account_id
    // every file row belongs to an existing token
    &&& forall|i: int|
        0 <= i < v.files.len() ==> spec_token_by_id(v.tokens, #[trigger] v.files[i].token_id)
            is Some
    // metadata rows are unique per file and exist exactly for completed files
    &&& forall|i: int, j: int|
        #![trigger v.metadata[i], v.metadata[j]]
        0 <= i < j < v.metadata.len() ==> v.metadata[i].file_id != v.metadata[j].file_id
    &&& forall|i: int|
        #![trigger v.metadata[i]]
        0 <= i < v.metadata.len() ==> exists|j: int|
            0 <= j < v.files.len() && #[trigger] v.files[j].id == v.metadata[i].file_id
                && v.files[j].completed_at is Some
    &&& forall|i: int|
        0 <= i < v.files.len() && v.files[i].completed_at is Some ==> spec_md_by_file(
            v.metadata,
            #[trigger] v.files[i].id,
        ) is Some
    // the derived-state fields are consistent
    &&& forall|i: int|
        0 <= i < v.tokens.len() && #[trigger] v.tokens[i].used_at is None ==> v.tokens[i]
            .content_expires_at is None
    &&& forall|i: int|
        0 <= i < v.tokens.len() && #[trigger] v.tokens[i].used_at is Some ==> (v.tokens[i]
            .content_expires_at is Some <==> v.tokens[i].content_expires_after_hours is Some)
    &&& forall|i: int| 0 <= i < v.tokens.len() ==> hours_bounded(#[trigger] v.tokens[i])
    // at most one token per path is live at the ledger's clock
    &&& forall|i: int, j: int|
        #![trigger v.tokens[i], v.tokens[j]]
        0 <= i < v.tokens.len() && 0 <= j < v.tokens.len() && i != j && v.tokens[i].path@
            == v.tokens[j].path@ ==> !(token_live(v.tokens[i], v.clock) && token_live(
            v.tokens[j],
            v.clock,
        ))
    // a used token that still retains content has a completed file of its attempt
    &&& forall|i: int|
        0 <= i < v.tokens.len() && #[trigger] v.tokens[i].used_at is Some && v.tokens[i].deleted_at
            is None && used_live(v.tokens[i], v.clock) ==> has_completed_file(
            v.files,
            v.tokens[i].id,
            v.tokens[i].attempt_counter,
        )
    &&& v.clock <= MAX_INSTANT
}

/// Liveness only fades: a token live at a later instant was live at every
/// earlier one, so classifications can only move towards expiry.
pub proof fn lemma_live_antitone(t: DbToken, n1: u64, n2: u64)
    requires
        n1 <= n2,
        token_live(t, n2),
    ensures
        token_live(t, n1),
{
}

/// The at-most-one-live-per-path invariant, carried forward from the
/// ledger's clock to any later instant.
pub proof fn lemma_at_most_one_live(v: LedgerView, now: u64, i: int, j: int)
    requires
        ledger_wf(v),
        now >= v.clock,
        0 <= i < v.tokens.len(),
        0 <= j < v.tokens.len(),
        i != j,
        v.tokens[i].path@ == v.tokens[j].path@,
    ensures
        !(token_live(v.tokens[i], now) && token_live(v.tokens[j], now)),
{
    if token_live(v.tokens[i], now) && token_live(v.tokens[j], now) {
        lemma_live_antitone(v.tokens[i], v.clock, now);
        lemma_live_antitone(v.tokens[j], v.clock, now);
    }
}

/// A used token that still retains content at any instant from the ledger's
/// clock on has a completed file stamped with its current attempt counter.
pub proof fn lemma_used_token_has_completed_file(v: LedgerView, now: u64, i: int)
    requires
        ledger_wf(v),
        now >= v.clock,
        0 <= i < v.tokens.len(),
        v.tokens[i].used_at is Some,
        v.tokens[i].deleted_at is None,
        used_live(v.tokens[i], now),
    ensures
        has_completed_file(v.files, v.tokens[i].id, v.tokens[i].attempt_counter),
{
    assert(used_live(v.tokens[i], v.clock));
}

/// A token that the scan classifies was found live; in particular a
/// `NotFound` answer means no row at the path is live.
pub proof fn lemma_scan_from_not_found(s: Seq<DbToken>, path: Seq<char>, now: u64, i: int)
    requires
        0 <= i <= s.len(),
    ensures
        (scan_from(s, path, now, i) is NotFound) <==> (forall|j: int|
            i <= j < s.len() ==> !(#[trigger] s[j].path@ == path && token_live(s[j], now))),
    decreases s.len() - i,
{
    if i < s.len() {
        lemma_scan_from_not_found(s, path, now, i + 1);
    }
}

/// What the first-by-id lookup finds is a row of the sequence with that id,
/// and it finds one whenever one exists.
pub proof fn lemma_token_by_id_from(s: Seq<DbToken>, id: u64, i: int)
    requires
        0 <= i <= s.len(),
    ensures
        (token_by_id_from(s, id, i) matches Some(t) ==> exists|j: int|
            i <= j < s.len() && #[trigger] s[j] == t && t.id == id),
        (token_by_id_from(s, id, i) is None) <==> (forall|j: int|
            i <= j < s.len() ==> #[trigger] s[j].id != id),
    decreases s.len() - i,
{
    if i < s.len() {
        lemma_token_by_id_from(s, id, i + 1);
    }
}


/// Does every token's attempt counter still have headroom?  The counter is
/// bumped on each initiated upload, so callers that may initiate must check.
pub open spec fn counters_ok(s: Seq<DbToken>) -> bool {
    forall|i: int| 0 <= i < s.len() ==> #[trigger] s[i].attempt_counter < u64::MAX
}

/// The first file row found to be servable at `path` under file id `fid`:
/// completed, and its token used, not deleted, and not content-expired.
pub open spec fn file_servable(v: LedgerView, f: DbFile, path: Seq<char>, fid: u64, now: u64) -> bool {
    &&& f.id == fid
    &&& f.completed_at is Some
    &&& match spec_token_by_id(v.tokens, f.token_id) {
        Option::Some(t) => {
            &&& t.path@ == path
            &&& t.deleted_at is None
            &&& t.used_at is Some
            &&& (t.content_expires_after_hours is None || (t.content_expires_at matches Some(e)
                && e > now))
        },
        Option::None => false,
    }
}

pub open spec fn find_servable_from(
    v: LedgerView,
    path: Seq<char>,
    fid: u64,
    now: u64,
    i: int,
) -> Option<DbFile>
    decreases v.files.len() - i,
{
    if i < 0 || i >= v.files.len() {
        Option::None
    } else if file_servable(v, v.files[i], path, fid, now) {
        Option::Some(v.files[i])
    } else {
        find_servable_from(v, path, fid, now, i + 1)
    }
}

/// The answer `get_valid_file` owes: the first servable row with that id.
pub open spec fn spec_get_valid_file(v: LedgerView, path: Seq<char>, fid: u64, now: u64) -> Option<
    DbFile,
> {
    find_servable_from(v, path, fid, now, 0)
}

/// The lookup finds a servable row exactly when one exists.
pub proof fn lemma_find_servable_from(v: LedgerView, path: Seq<char>, fid: u64, now: u64, i: int)
    requires
        0 <= i <= v.files.len(),
    ensures
        (find_servable_from(v, path, fid, now, i) matches Some(f) ==> exists|j: int|
            i <= j < v.files.len() && #[trigger] v.files[j] == f && file_servable(
                v,
                f,
                path,
                fid,
                now,
            )),
        (find_servable_from(v, path, fid, now, i) is None) <==> (forall|j: int|
            i <= j < v.files.len() ==> !file_servable(v, #[trigger] v.files[j], path, fid, now)),
    decreases v.files.len() - i,
{
    if i < v.files.len() {
        lemma_find_servable_from(v, path, fid, now, i + 1);
    }
}

/// The ledger service.  The rows live in memory; an embedding program that
/// wants durability wraps this service and persists its operations.
pub struct DBService {
    tokens: Vec<DbToken>,
    files: Vec<DbFile>,
    metadata: Vec<FileMetadataRow>,
    accounts: Vec<Account>,
    next_token_id: u64,
    next_file_id: u64,
    next_account_id: u64,
    clock: u64,
}

impl View for DBService {
    type V = LedgerView;

    closed spec fn view(&self) -> LedgerView {
        LedgerView {
            tokens: self.tokens@,
            files: self.files@,
            metadata: self.metadata@,
            accounts: self.accounts@,
            next_token_id: self.next_token_id,
            next_file_id: self.next_file_id,
            next_account_id: self.next_account_id,
            clock: self.clock,
        }
    }
}

/// Is a token live at `now`?
pub fn is_token_live(t: &DbToken, now: u64) -> (b: bool)
    ensures
        b == token_live(*t, now),
{
    let not_deleted = match t.deleted_at {
        Option::None => true,
        Option::Some(_) => false,
    };
    let in_scan = not_deleted && (t.valid_until > now || (match t.content_expires_at {
        Option::None => true,
        Option::Some(e) => e > now,
    }));
    let kept = match t.used_at {
        Option::None => true,
        Option::Some(_) => (match t.content_expires_after_hours {
            Option::None => true,
            Option::Some(_) => (match t.content_expires_at {
                Option::None => true,
                Option::Some(e) => e > now,
            }),
        }),
    };
    in_scan && kept
}

/// The position of the token with the given id, if any.
fn find_token_index(tokens: &Vec<DbToken>, id: u64) -> (r: Option<usize>)
    ensures
        (r matches Some(k) ==> k < tokens@.len() && tokens@[k as int].id == id
            && spec_token_by_id(tokens@, id) == Some(tokens@[k as int])),
        (r is None) == (spec_token_by_id(tokens@, id) is None),
{
    let n = tokens.len();
    let mut i: usize = 0;
    while i < n
        invariant
            0 <= i <= n,
            n == tokens@.len(),
            spec_token_by_id(tokens@, id) == token_by_id_from(tokens@, id, i as int),
        decreases n - i,
    {
        if tokens[i].id == id {
            return Some(i);
        }
        i = i + 1;
    }
    None
}

/// The position of the file with the given id, if any.  File ids are unique,
/// so this is the only row with that id.
fn find_file_index(files: &Vec<DbFile>, id: u64) -> (r: Option<usize>)
    ensures
        (r matches Some(k) ==> k < files@.len() && files@[k as int].id == id),
        (r is None) == (forall|j: int| 0 <= j < files@.len() ==> #[trigger] files@[j].id != id),
{
    let n = files.len();
    let mut i: usize = 0;
    while i < n
        invariant
            0 <= i <= n,
            n == files@.len(),
            forall|j: int| 0 <= j < i ==> #[trigger] files@[j].id != id,
        decreases n - i,
    {
        if files[i].id == id {
            return Some(i);
        }
        i = i + 1;
    }
    None
}

impl DBService {
    /// The ledger's invariant, stated over its abstract state.
    pub open spec fn wf(&self) -> bool {
        ledger_wf(self@)
    }

    /// A fresh, empty ledger.
    pub fn new() -> (s: Self)
        ensures
            s.wf(),
            s@.tokens == Seq::<DbToken>::empty(),
            s@.files == Seq::<DbFile>::empty(),
            s@.metadata == Seq::<FileMetadataRow>::empty(),
            s@.accounts == Seq::<Account>::empty(),
            s@.next_token_id == 1,
            s@.next_file_id == 1,
            s@.next_account_id == 1,
            s@.clock == 0,
    {
        DBService {
            tokens: Vec::new(),
            files: Vec::new(),
            metadata: Vec::new(),
            accounts: Vec::new(),
            next_token_id: 1,
            next_file_id: 1,
            next_account_id: 1,
            clock: 0,
        }
    }

    /// The last instant the ledger acted at; operations take instants from
    /// here on.
    pub fn current_clock(&self) -> (c: u64)
        ensures
            c == self@.clock,
    {
        self.clock
    }

    /// Whether `now` is admissible for the mutating operations.
    pub fn accepts_instant(&self, now: u64) -> (b: bool)
        ensures
            b == (now >= self@.clock && now <= MAX_INSTANT),
    {
        now >= self.clock && now <= MAX_INSTANT
    }

    /// Whether the id allocators still have headroom; callers check this
    /// before creating rows.
    pub fn ids_available(&self) -> (b: bool)
        ensures
            b == (self@.next_token_id < u64::MAX && self@.next_file_id < u64::MAX
                && self@.next_account_id < u64::MAX),
    {
        self.next_token_id < u64::MAX && self.next_file_id < u64::MAX && self.next_account_id
            < u64::MAX
    }

    /// Whether every attempt counter still has headroom; callers check this
    /// before initiating uploads.
    pub fn counters_have_headroom(&self) -> (b: bool)
        ensures
            b == counters_ok(self@.tokens),
    {
        let n = self.tokens.len();
        let mut i: usize = 0;
        while i < n
            invariant
                0 <= i <= n,
                n == self.tokens@.len(),
                forall|j: int| 0 <= j < i ==> #[trigger] self.tokens@[j].attempt_counter < u64::MAX,
            decreases n - i,
        {
            if self.tokens[i].attempt_counter == u64::MAX {
                return false;
            }
            i = i + 1;
        }
        true
    }

    /// a non deleted token that can be used to upload some files: the first
    /// live row at `path`, classified Fresh or Used.
    pub fn get_valid_token(&self, path: &str, now: u64) -> (r: GetTokenResult)
        ensures
            r == scan_tokens(self@.tokens, path@, now),
    {
        let n = self.tokens.len();
        let mut i: usize = 0;
        while i < n
            invariant
                0 <= i <= n,
                n == self.tokens@.len(),
                scan_tokens(self@.tokens, path@, now) == scan_from(
                    self@.tokens,
                    path@,
                    now,
                    i as int,
                ),
            decreases n - i,
        {
            let t = &self.tokens[i];
            let live = is_token_live(t, now);
            if live && crate::store::str_eq(t.path.as_str(), path) {
                let dup = t.duplicate();
                match t.used_at {
                    Option::None => {
                        return GetTokenResult::Fresh(dup);
                    },
                    Option::Some(_) => {
                        return GetTokenResult::Used(dup);
                    },
                }
            }
            i = i + 1;
        }
        GetTokenResult::NotFound
    }

    /// a non deleted token already associated with files: the completed file
    /// with this id whose token at `path` is used, not deleted, and not
    /// content-expired.
    pub fn get_valid_file(&self, path: &str, file_id: u64, now: u64) -> (r: Option<DbFile>)
        ensures
            r == spec_get_valid_file(self@, path@, file_id, now),
    {
        let n = self.files.len();
        let mut i: usize = 0;
        while i < n
            invariant
                0 <= i <= n,
                n == self@.files.len(),
                spec_get_valid_file(self@, path@, file_id, now) == find_servable_from(
                    self@,
                    path@,
                    file_id,
                    now,
                    i as int,
                ),
            decreases n - i,
        {
            let f = &self.files[i];
            let completed = match f.completed_at {
                Option::Some(_) => true,
                Option::None => false,
            };
            if f.id == file_id && completed {
                let tk = find_token_index(&self.tokens, f.token_id);
                match tk {
                    Option::Some(k) => {
                        let t = &self.tokens[k];
                        let not_deleted = match t.deleted_at {
                            Option::None => true,
                            Option::Some(_) => false,
                        };
                        let used = match t.used_at {
                            Option::Some(_) => true,
                            Option::None => false,
                        };
                        let unexpired = match t.content_expires_after_hours {
                            Option::None => true,
                            Option::Some(_) => (match t.content_expires_at {
                                Option::Some(e) => e > now,
                                Option::None => false,
                            }),
                        };
                        if not_deleted && used && unexpired && crate::store::str_eq(
                            t.path.as_str(),
                            path,
                        ) {
                            return Some(f.duplicate());
                        }
                    },
                    Option::None => {
                    },
                }
            }
            i = i + 1;
        }
        None
    }

    /// The stored account for a username, if one exists.
    pub fn get_account(&self, username: &str) -> (r: Option<Account>)
        ensures
            r == spec_account_by_name(self@.accounts, username@),
    {
        let n = self.accounts.len();
        let mut i: usize = 0;
        while i < n
            invariant
                0 <= i <= n,
                n == self@.accounts.len(),
                spec_account_by_name(self@.accounts, username@) == account_by_name_from(
                    self@.accounts,
                    username@,
                    i as int,
                ),
            decreases n - i,
        {
            let a = &self.accounts[i];
            if crate::store::str_eq(a.username.as_str(), username) {
                return Some(a.duplicate());
            }
            i = i + 1;
        }
        None
    }
}


/// Looking a token up by id is unaffected by appending a row, except that a
/// previously missing id may now be found at the end.
pub proof fn lemma_token_by_id_push(s: Seq<DbToken>, t: DbToken, id: u64, i: int)
    requires
        0 <= i <= s.len(),
    ensures
        token_by_id_from(s, id, i) matches Some(x) ==> token_by_id_from(s.push(t), id, i)
            == Some(x),
        token_by_id_from(s, id, i) is None ==> token_by_id_from(s.push(t), id, i) == (if t.id == id {
            Some(t)
        } else {
            Option::<DbToken>::None
        }),
    decreases s.len() - i,
{
    assert(s.push(t).len() == s.len() + 1);
    if i < s.len() {
        assert(s.push(t)[i] == s[i]);
        lemma_token_by_id_push(s, t, id, i + 1);
    } else {
        assert(s.push(t)[s.len() as int] == t);
    }
}

/// Looking a token up by id only cares about the ids: on two sequences whose
/// rows carry the same ids position by position, it finds a row at the same
/// position or fails on both.
pub proof fn lemma_token_by_id_same_ids(s1: Seq<DbToken>, s2: Seq<DbToken>, id: u64, i: int)
    requires
        0 <= i,
        s1.len() == s2.len(),
        forall|j: int| 0 <= j < s1.len() ==> #[trigger] s1[j].id == s2[j].id,
    ensures
        (token_by_id_from(s1, id, i) is Some) == (token_by_id_from(s2, id, i) is Some),
        token_by_id_from(s1, id, i) matches Some(x) ==> (token_by_id_from(s2, id, i) matches Some(
            y,
        ) && x.id == y.id),
    decreases s1.len() - i,
{
    if i < s1.len() {
        lemma_token_by_id_same_ids(s1, s2, id, i + 1);
    }
}

/// Looking metadata up by file id is unaffected by appending a row, except
/// that a previously missing id may now be found at the end.
pub proof fn lemma_md_by_file_push(s: Seq<FileMetadataRow>, m: FileMetadataRow, id: u64, i: int)
    requires
        0 <= i <= s.len(),
    ensures
        md_by_file_from(s, id, i) matches Some(x) ==> md_by_file_from(s.push(m), id, i) == Some(x),
        md_by_file_from(s, id, i) is None ==> md_by_file_from(s.push(m), id, i) == (if m.file_id
            == id {
            Some(m)
        } else {
            Option::<FileMetadataRow>::None
        }),
    decreases s.len() - i,
{
    assert(s.push(m).len() == s.len() + 1);
    if i < s.len() {
        assert(s.push(m)[i] == s[i]);
        lemma_md_by_file_push(s, m, id, i + 1);
    } else {
        assert(s.push(m)[s.len() as int] == m);
    }
}

/// The row a token created from `ct` at `now` will carry.
pub open spec fn spec_new_token(v: LedgerView, ct: CreateToken, now: u64) -> DbToken {
    DbToken {
        id: v.next_token_id,
        path: ct.path,
        max_size_mib: ct.max_size_mib,
        valid_until: ct.valid_until,
        created_at: now,
        content_expires_after_hours: ct.content_expires_after_hours,
        deleted_at: Option::None,
        attempt_counter: 0,
        used_at: Option::None,
        content_expires_at: Option::None,
        backend_type: ct.backend_type,
    }
}

impl DBService {
    /// Creates a token at `ct.path`, unless a live token already occupies the
    /// path: the liveness re-check and the insert are one atomic step, which
    /// is what keeps at most one token per path live.
    pub fn create_token(&mut self, ct: CreateToken, now: u64) -> (r: Result<DbToken, TokenError>)
        requires
            old(self).wf(),
            now >= old(self)@.clock,
            now <= MAX_INSTANT,
            ct.content_expires_after_hours matches Some(h) ==> h <= MAX_EXPIRE_HOURS,
            old(self)@.next_token_id < u64::MAX,
        ensures
            final(self).wf(),
            final(self)@.files == old(self)@.files,
            final(self)@.metadata == old(self)@.metadata,
            final(self)@.accounts == old(self)@.accounts,
            final(self)@.next_file_id == old(self)@.next_file_id,
            final(self)@.next_account_id == old(self)@.next_account_id,
            final(self)@.clock == now,
            (r is Ok) == (scan_tokens(old(self)@.tokens, ct.path@, now) is NotFound),
            r matches Ok(t) ==> t == spec_new_token(old(self)@, ct, now)
                && final(self)@.tokens == old(self)@.tokens.push(t)
                && final(self)@.next_token_id == old(self)@.next_token_id + 1,
            r is Err ==> r == Result::<DbToken, TokenError>::Err(TokenError::AlreadyExist)
                && final(self)@.tokens == old(self)@.tokens
                && final(self)@.next_token_id == old(self)@.next_token_id,
    {
        let ghost v0 = self@;
        match self.get_valid_token(ct.path.as_str(), now) {
            GetTokenResult::NotFound => {
            },
            GetTokenResult::Fresh(_) => {
                self.clock = now;
                proof {
                    lemma_wf_later_clock(v0, now);
                }
                return Err(TokenError::AlreadyExist);
            },
            GetTokenResult::Used(_) => {
                self.clock = now;
                proof {
                    lemma_wf_later_clock(v0, now);
                }
                return Err(TokenError::AlreadyExist);
            },
        }
        let t = DbToken {
            id: self.next_token_id,
            path: ct.path,
            max_size_mib: ct.max_size_mib,
            valid_until: ct.valid_until,
            created_at: now,
            content_expires_after_hours: ct.content_expires_after_hours,
            deleted_at: None,
            attempt_counter: 0,
            used_at: None,
            content_expires_at: None,
            backend_type: ct.backend_type,
        };
        let dup = t.duplicate();
        self.tokens.push(t);
        self.next_token_id = self.next_token_id + 1;
        self.clock = now;
        proof {
            let v1 = self@;
            lemma_wf_later_clock(v0, now);
            lemma_scan_from_not_found(v0.tokens, dup.path@, now, 0);
            assert forall|i: int|
                0 <= i < v1.files.len() implies spec_token_by_id(
                v1.tokens,
                #[trigger] v1.files[i].token_id,
            ) is Some by {
                lemma_token_by_id_push(v0.tokens, dup, v1.files[i].token_id, 0);
            }
            assert forall|i: int, j: int|
                #![trigger v1.tokens[i], v1.tokens[j]]
                0 <= i < v1.tokens.len() && 0 <= j < v1.tokens.len() && i != j && v1.tokens[i].path@
                    == v1.tokens[j].path@ implies !(token_live(v1.tokens[i], now) && token_live(
                v1.tokens[j],
                now,
            )) by {
                let n0 = v0.tokens.len() as int;
                if i < n0 && j < n0 {
                    lemma_at_most_one_live(v0, now, i, j);
                } else if i == n0 {
                    assert(v1.tokens[j] == v0.tokens[j]);
                    assert(!(v0.tokens[j].path@ == dup.path@ && token_live(v0.tokens[j], now)));
                } else {
                    assert(v1.tokens[i] == v0.tokens[i]);
                    assert(!(v0.tokens[i].path@ == dup.path@ && token_live(v0.tokens[i], now)));
                }
            }
            assert forall|i: int|
                0 <= i < v1.tokens.len() && #[trigger] v1.tokens[i].used_at is Some && v1.tokens[i]
                    .deleted_at is None && used_live(v1.tokens[i], now) implies has_completed_file(
                v1.files,
                v1.tokens[i].id,
                v1.tokens[i].attempt_counter,
            ) by {
                let n0 = v0.tokens.len() as int;
                if i < n0 {
                    assert(v1.tokens[i] == v0.tokens[i]);
                    lemma_used_token_has_completed_file(v0, now, i);
                }
            }
            assert(ledger_wf(v1));
        }
        Ok(dup)
    }
}

/// A well-formed ledger stays well-formed when only its clock advances.
pub proof fn lemma_wf_later_clock(v: LedgerView, now: u64)
    requires
        ledger_wf(v),
        v.clock <= now <= MAX_INSTANT,
    ensures
        ledger_wf(LedgerView { clock: now, ..v }),
{
    let v1 = LedgerView { clock: now, ..v };
    assert forall|i: int, j: int|
        #![trigger v1.tokens[i], v1.tokens[j]]
        0 <= i < v1.tokens.len() && 0 <= j < v1.tokens.len() && i != j && v1.tokens[i].path@
            == v1.tokens[j].path@ implies !(token_live(v1.tokens[i], now) && token_live(
        v1.tokens[j],
        now,
    )) by {
        lemma_at_most_one_live(v, now, i, j);
    }
    assert forall|i: int|
        0 <= i < v1.tokens.len() && #[trigger] v1.tokens[i].used_at is Some && v1.tokens[i]
            .deleted_at is None && used_live(v1.tokens[i], now) implies has_completed_file(
        v1.files,
        v1.tokens[i].id,
        v1.tokens[i].attempt_counter,
    ) by {
        lemma_used_token_has_completed_file(v, now, i);
    }
}


/// The row after an upload attempt is initiated: the counter is bumped, all
/// else is kept.
pub open spec fn spec_bumped_token(t: DbToken) -> DbToken {
    DbToken { attempt_counter: (t.attempt_counter + 1) as u64, ..t }
}

impl DBService {
    /// Locks a fresh token for one upload attempt: the freshness re-check
    /// and the counter bump are one atomic step, and the returned session
    /// carries the new counter, which only the most recent caller holds.
    pub fn initiate_upload(&mut self, token: DbToken, now: u64) -> (r: Result<
        UploadToken,
        AppError,
    >)
        requires
            old(self).wf(),
            now >= old(self)@.clock,
            now <= MAX_INSTANT,
            forall|i: int|
                0 <= i < old(self)@.tokens.len() && #[trigger] old(self)@.tokens[i].id == token.id
                    ==> old(self)@.tokens[i].attempt_counter < u64::MAX,
        ensures
            final(self).wf(),
            final(self)@.files == old(self)@.files,
            final(self)@.metadata == old(self)@.metadata,
            final(self)@.accounts == old(self)@.accounts,
            final(self)@.next_token_id == old(self)@.next_token_id,
            final(self)@.next_file_id == old(self)@.next_file_id,
            final(self)@.next_account_id == old(self)@.next_account_id,
            final(self)@.clock == now,
            (r is Ok) == (spec_token_by_id(old(self)@.tokens, token.id) matches Some(t)
                && uploadable(t, now)),
            r matches Ok(ut) ==> (spec_token_by_id(old(self)@.tokens, token.id) matches Some(t)
                && ut.id == token.id && ut.path == token.path && ut.attempt_counter
                == t.attempt_counter + 1),
            r is Ok ==> final(self)@.tokens.len() == old(self)@.tokens.len() && (forall|i: int|
                0 <= i < old(self)@.tokens.len() ==> #[trigger] final(self)@.tokens[i] == (
                if old(self)@.tokens[i].id == token.id {
                    spec_bumped_token(old(self)@.tokens[i])
                } else {
                    old(self)@.tokens[i]
                })),
            r is Err ==> r == Result::<UploadToken, AppError>::Err(AppError::NoTokenFound)
                && final(self)@.tokens == old(self)@.tokens,
    {
        let ghost v0 = self@;
        let found = find_token_index(&self.tokens, token.id);
        match found {
            Option::None => {
                self.clock = now;
                proof {
                    lemma_wf_later_clock(v0, now);
                }
                Err(AppError::NoTokenFound)
            },
            Option::Some(k) => {
                let ok = {
                    let t = &self.tokens[k];
                    let not_deleted = match t.deleted_at {
                        Option::None => true,
                        Option::Some(_) => false,
                    };
                    let unused = match t.used_at {
                        Option::None => true,
                        Option::Some(_) => false,
                    };
                    not_deleted && t.valid_until > now && unused
                };
                if !ok {
                    self.clock = now;
                    proof {
                        lemma_wf_later_clock(v0, now);
                    }
                    Err(AppError::NoTokenFound)
                } else {
                    let mut bumped = self.tokens[k].duplicate();
                    proof {
                        assert(v0.tokens[k as int].attempt_counter < u64::MAX);
                    }
                    bumped.attempt_counter = bumped.attempt_counter + 1;
                    let counter = bumped.attempt_counter;
                    self.tokens[k] = bumped;
                    self.clock = now;
                    let ut = UploadToken { id: token.id, path: token.path, attempt_counter: counter };
                    proof {
                        let v1 = self@;
                        let told = v0.tokens[k as int];
                        let tnew = v1.tokens[k as int];
                        assert(tnew == spec_bumped_token(told));
                        assert forall|i: int|
                            0 <= i < v1.tokens.len() implies #[trigger] v1.tokens[i] == (
                        if v0.tokens[i].id == token.id {
                            spec_bumped_token(v0.tokens[i])
                        } else {
                            v0.tokens[i]
                        }) by {
                            if i != k {
                                assert(v1.tokens[i] == v0.tokens[i]);
                                assert(v0.tokens[i].id != token.id);
                            }
                        }
                        lemma_wf_later_clock(v0, now);
                        let vc = LedgerView { clock: now, ..v0 };
                        assert forall|i: int|
                            0 <= i < v1.files.len() implies spec_token_by_id(
                            v1.tokens,
                            #[trigger] v1.files[i].token_id,
                        ) is Some by {
                            lemma_token_by_id_same_ids(
                                vc.tokens,
                                v1.tokens,
                                v1.files[i].token_id,
                                0,
                            );
                        }
                        assert forall|i: int, j: int|
                            #![trigger v1.tokens[i], v1.tokens[j]]
                            0 <= i < v1.tokens.len() && 0 <= j < v1.tokens.len() && i != j
                                && v1.tokens[i].path@ == v1.tokens[j].path@ implies !(token_live(
                            v1.tokens[i],
                            now,
                        ) && token_live(v1.tokens[j], now)) by {
                            assert(token_live(v1.tokens[i], now) == token_live(vc.tokens[i], now));
                            assert(token_live(v1.tokens[j], now) == token_live(vc.tokens[j], now));
                            assert(vc.tokens[i].path@ == v1.tokens[i].path@);
                            assert(vc.tokens[j].path@ == v1.tokens[j].path@);
                            lemma_at_most_one_live(v0, now, i, j);
                        }
                        assert forall|i: int|
                            0 <= i < v1.tokens.len() && #[trigger] v1.tokens[i].used_at is Some
                                && v1.tokens[i].deleted_at is None && used_live(v1.tokens[i], now)
                            implies has_completed_file(
                            v1.files,
                            v1.tokens[i].id,
                            v1.tokens[i].attempt_counter,
                        ) by {
                            assert(i != k);
                            assert(v1.tokens[i] == v0.tokens[i]);
                            lemma_used_token_has_completed_file(v0, now, i);
                        }
                        assert(ledger_wf(v1));
                    }
                    Ok(ut)
                }
            },
        }
    }

    /// Records an uncommitted file row for the session's attempt; it stays
    /// invisible until finalised, and is always created before streaming
    /// begins so an aborted upload is attributable and sweepable.
    pub fn create_file(
        &mut self,
        ut: &UploadToken,
        backend_type: String,
        backend_data: String,
        mime_type: Option<String>,
        file_name: Option<String>,
        now: u64,
    ) -> (r: DbFile)
        requires
            old(self).wf(),
            now >= old(self)@.clock,
            now <= MAX_INSTANT,
            old(self)@.next_file_id < u64::MAX,
            spec_token_by_id(old(self)@.tokens, ut.id) is Some,
        ensures
            final(self).wf(),
            final(self)@.tokens == old(self)@.tokens,
            final(self)@.metadata == old(self)@.metadata,
            final(self)@.accounts == old(self)@.accounts,
            final(self)@.next_token_id == old(self)@.next_token_id,
            final(self)@.next_account_id == old(self)@.next_account_id,
            final(self)@.clock == now,
            r == (DbFile {
                id: old(self)@.next_file_id,
                token_id: ut.id,
                attempt_counter: ut.attempt_counter,
                mime_type: mime_type,
                name: file_name,
                backend_type: backend_type,
                backend_data: backend_data,
                created_at: now,
                completed_at: Option::<u64>::None,
            }),
            final(self)@.files == old(self)@.files.push(r),
            final(self)@.next_file_id == old(self)@.next_file_id + 1,
    {
        let ghost v0 = self@;
        let f = DbFile {
            id: self.next_file_id,
            token_id: ut.id,
            attempt_counter: ut.attempt_counter,
            mime_type: mime_type,
            name: file_name,
            backend_type: backend_type,
            backend_data: backend_data,
            created_at: now,
            completed_at: None,
        };
        let dup = f.duplicate();
        self.files.push(f);
        self.next_file_id = self.next_file_id + 1;
        self.clock = now;
        proof {
            let v1 = self@;
            lemma_wf_later_clock(v0, now);
            assert forall|i: int|
                0 <= i < v1.files.len() implies spec_token_by_id(
                v1.tokens,
                #[trigger] v1.files[i].token_id,
            ) is Some by {
                if i < v0.files.len() {
                    assert(v1.files[i] == v0.files[i]);
                } else {
                    assert(v1.files[i] == dup);
                }
            }
            assert forall|i: int|
                #![trigger v1.metadata[i]]
                0 <= i < v1.metadata.len() implies exists|j: int|
                0 <= j < v1.files.len() && #[trigger] v1.files[j].id == v1.metadata[i].file_id
                    && v1.files[j].completed_at is Some by {
                let j = choose|j: int|
                    0 <= j < v0.files.len() && #[trigger] v0.files[j].id == v0.metadata[i].file_id
                        && v0.files[j].completed_at is Some;
                assert(v1.files[j] == v0.files[j]);
            }
            assert forall|i: int|
                0 <= i < v1.tokens.len() && #[trigger] v1.tokens[i].used_at is Some && v1.tokens[i]
                    .deleted_at is None && used_live(v1.tokens[i], now) implies has_completed_file(
                v1.files,
                v1.tokens[i].id,
                v1.tokens[i].attempt_counter,
            ) by {
                lemma_used_token_has_completed_file(v0, now, i);
                let j = choose|j: int|
                    0 <= j < v0.files.len() && #[trigger] v0.files[j].token_id == v0.tokens[i].id
                        && v0.files[j].attempt_counter == v0.tokens[i].attempt_counter
                        && v0.files[j].completed_at is Some;
                assert(v1.files[j] == v0.files[j]);
                assert(v1.files[j].token_id == v1.tokens[i].id);
            }
            assert(ledger_wf(v1));
        }
        dup
    }
}


/// The file row after its upload is finalised: the locator possibly
/// replaced, and the completion instant set.
pub open spec fn spec_finalised_file(f: DbFile, backend_data: Option<String>, now: u64) -> DbFile {
    DbFile {
        backend_data: match backend_data {
            Option::Some(d) => d,
            Option::None => f.backend_data,
        },
        completed_at: Option::Some(now),
        ..f
    }
}

/// The token row after its upload is finalised at `now`.
pub open spec fn spec_finalised_token(t: DbToken, now: u64) -> DbToken {
    DbToken {
        used_at: Option::Some(now),
        content_expires_at: match t.content_expires_after_hours {
            Option::Some(h) => Option::Some((now + h * SECONDS_PER_HOUR) as u64),
            Option::None => Option::None,
        },
        ..t
    }
}

impl DBService {
    /// Completes one file: optionally replaces the locator, sets the
    /// completion instant, and records the metadata row — one atomic step,
    /// so a file is never observably completed without its metadata.
    pub fn finalise_file_upload(
        &mut self,
        file: DbFile,
        backend_data: Option<String>,
        metadata: DbFileMetadata,
        now: u64,
    )
        requires
            old(self).wf(),
            now >= old(self)@.clock,
            now <= MAX_INSTANT,
            exists|k: int|
                0 <= k < old(self)@.files.len() && #[trigger] old(self)@.files[k].id == file.id
                    && old(self)@.files[k].completed_at is None,
        ensures
            final(self).wf(),
            final(self)@.tokens == old(self)@.tokens,
            final(self)@.accounts == old(self)@.accounts,
            final(self)@.next_token_id == old(self)@.next_token_id,
            final(self)@.next_file_id == old(self)@.next_file_id,
            final(self)@.next_account_id == old(self)@.next_account_id,
            final(self)@.clock == now,
            final(self)@.files.len() == old(self)@.files.len(),
            forall|i: int|
                0 <= i < old(self)@.files.len() ==> #[trigger] final(self)@.files[i] == (
                if old(self)@.files[i].id == file.id {
                    spec_finalised_file(old(self)@.files[i], backend_data, now)
                } else {
                    old(self)@.files[i]
                }),
            final(self)@.metadata == old(self)@.metadata.push(
                FileMetadataRow {
                    file_id: file.id,
                    size_b: metadata.size_b,
                    mime_type: metadata.mime_type,
                },
            ),
    {
        let ghost v0 = self@;
        let found = find_file_index(&self.files, file.id);
        let k = match found {
            Option::Some(k) => k,
            Option::None => {
                proof {
                    assert(false);
                }
                0
            },
        };
        let mut updated = self.files[k].duplicate();
        match backend_data {
            Option::Some(d) => {
                updated.backend_data = d;
            },
            Option::None => {
            },
        }
        updated.completed_at = Some(now);
        proof {
            // the row at k is the unique row with this id, and is uncompleted
            let w = choose|w: int|
                0 <= w < v0.files.len() && #[trigger] v0.files[w].id == file.id && v0.files[w]
                    .completed_at is None;
            assert(w == k);
        }
        self.files[k] = updated;
        let md = FileMetadataRow {
            file_id: file.id,
            size_b: metadata.size_b,
            mime_type: metadata.mime_type,
        };
        self.metadata.push(md);
        self.clock = now;
        proof {
            let v1 = self@;
            lemma_wf_later_clock(v0, now);
            assert(v1.files[k as int] == spec_finalised_file(v0.files[k as int], backend_data, now));
            assert forall|i: int|
                0 <= i < v0.files.len() implies #[trigger] v1.files[i] == (
            if v0.files[i].id == file.id {
                spec_finalised_file(v0.files[i], backend_data, now)
            } else {
                v0.files[i]
            }) by {
                if i != k {
                    assert(v1.files[i] == v0.files[i]);
                    assert(v0.files[i].id != file.id);
                }
            }
            // no metadata row referenced this file before: its row was uncompleted
            assert forall|i: int|
                0 <= i < v0.metadata.len() implies #[trigger] v0.metadata[i].file_id != file.id by {
                if v0.metadata[i].file_id == file.id {
                    let j = choose|j: int|
                        0 <= j < v0.files.len() && #[trigger] v0.files[j].id == v0.metadata[i].file_id
                            && v0.files[j].completed_at is Some;
                    assert(j == k);
                }
            }
            assert forall|i: int, j: int|
                #![trigger v1.metadata[i], v1.metadata[j]]
                0 <= i < j < v1.metadata.len() implies v1.metadata[i].file_id != v1.metadata[j].file_id
            by {
                if j < v0.metadata.len() {
                } else {
                    assert(v1.metadata[j] == md);
                    assert(v1.metadata[i] == v0.metadata[i]);
                }
            }
            assert forall|i: int|
                #![trigger v1.metadata[i]]
                0 <= i < v1.metadata.len() implies exists|j: int|
                0 <= j < v1.files.len() && #[trigger] v1.files[j].id == v1.metadata[i].file_id
                    && v1.files[j].completed_at is Some by {
                if i < v0.metadata.len() {
                    let j = choose|j: int|
                        0 <= j < v0.files.len() && #[trigger] v0.files[j].id == v0.metadata[i].file_id
                            && v0.files[j].completed_at is Some;
                    assert(j != k);
                    assert(v1.files[j] == v0.files[j]);
                } else {
                    assert(v1.metadata[i] == md);
                    assert(v1.files[k as int].id == file.id);
                    assert(v1.files[k as int].completed_at is Some);
                }
            }
            assert forall|i: int|
                0 <= i < v1.files.len() && v1.files[i].completed_at is Some implies spec_md_by_file(
                v1.metadata,
                #[trigger] v1.files[i].id,
            ) is Some by {
                if i != k && v0.files[i].completed_at is Some {
                    lemma_md_by_file_push(v0.metadata, md, v0.files[i].id, 0);
                } else {
                    assert(i == k || v0.files[i].completed_at is None);
                    assert(v1.files[i].id == file.id || i != k);
                    if i == k {
                        if spec_md_by_file(v0.metadata, file.id) is Some {
                            lemma_md_by_file_from_found(v0.metadata, file.id, 0);
                        }
                        lemma_md_by_file_push(v0.metadata, md, file.id, 0);
                    }
                }
            }
            assert forall|i: int|
                0 <= i < v1.files.len() implies spec_token_by_id(
                v1.tokens,
                #[trigger] v1.files[i].token_id,
            ) is Some by {
                assert(v1.files[i].token_id == v0.files[i].token_id);
            }
            assert forall|i: int, j: int|
                #![trigger v1.files[i], v1.files[j]]
                0 <= i < j < v1.files.len() implies v1.files[i].id != v1.files[j].id by {
                assert(v1.files[i].id == v0.files[i].id);
                assert(v1.files[j].id == v0.files[j].id);
            }
            assert forall|i: int|
                0 <= i < v1.files.len() implies #[trigger] v1.files[i].id < v1.next_file_id by {
                assert(v1.files[i].id == v0.files[i].id);
            }
            assert forall|i: int|
                0 <= i < v1.tokens.len() && #[trigger] v1.tokens[i].used_at is Some && v1.tokens[i]
                    .deleted_at is None && used_live(v1.tokens[i], now) implies has_completed_file(
                v1.files,
                v1.tokens[i].id,
                v1.tokens[i].attempt_counter,
            ) by {
                lemma_used_token_has_completed_file(v0, now, i);
                let j = choose|j: int|
                    0 <= j < v0.files.len() && #[trigger] v0.files[j].token_id == v0.tokens[i].id
                        && v0.files[j].attempt_counter == v0.tokens[i].attempt_counter
                        && v0.files[j].completed_at is Some;
                assert(j != k);
                assert(v1.files[j] == v0.files[j]);
            }
            assert(ledger_wf(v1));
        }
    }

    /// Marks the token used and computes its content deadline — but only if
    /// the session still owns the token's current attempt counter; a
    /// superseded session's update silently changes nothing.
    pub fn finalise_token_upload(&mut self, ut: UploadToken, now: u64) -> (r: Result<(), AppError>)
        requires
            old(self).wf(),
            now >= old(self)@.clock,
            now <= MAX_INSTANT,
            spec_token_by_id(old(self)@.tokens, ut.id) matches Some(t) ==> (t.attempt_counter
                == ut.attempt_counter ==> t.used_at is None && has_completed_file(
                old(self)@.files,
                t.id,
                t.attempt_counter,
            )),
        ensures
            final(self).wf(),
            final(self)@.files == old(self)@.files,
            final(self)@.metadata == old(self)@.metadata,
            final(self)@.accounts == old(self)@.accounts,
            final(self)@.next_token_id == old(self)@.next_token_id,
            final(self)@.next_file_id == old(self)@.next_file_id,
            final(self)@.next_account_id == old(self)@.next_account_id,
            final(self)@.clock == now,
            (r is Err) == (spec_token_by_id(old(self)@.tokens, ut.id) is None),
            r is Err ==> r == Result::<(), AppError>::Err(AppError::NoTokenFound)
                && final(self)@.tokens == old(self)@.tokens,
            spec_token_by_id(old(self)@.tokens, ut.id) matches Some(t) && t.attempt_counter
                != ut.attempt_counter ==> final(self)@.tokens == old(self)@.tokens,
            spec_token_by_id(old(self)@.tokens, ut.id) matches Some(t) && t.attempt_counter
                == ut.attempt_counter ==> final(self)@.tokens.len() == old(self)@.tokens.len() && (
            forall|i: int|
                0 <= i < old(self)@.tokens.len() ==> #[trigger] final(self)@.tokens[i] == (
                if old(self)@.tokens[i].id == ut.id {
                    spec_finalised_token(old(self)@.tokens[i], now)
                } else {
                    old(self)@.tokens[i]
                })),
    {
        let ghost v0 = self@;
        let found = find_token_index(&self.tokens, ut.id);
        match found {
            Option::None => {
                self.clock = now;
                proof {
                    lemma_wf_later_clock(v0, now);
                }
                Err(AppError::NoTokenFound)
            },
            Option::Some(k) => {
                let matches_counter = self.tokens[k].attempt_counter == ut.attempt_counter;
                if !matches_counter {
                    self.clock = now;
                    proof {
                        lemma_wf_later_clock(v0, now);
                    }
                    Ok(())
                } else {
                    let mut updated = self.tokens[k].duplicate();
                    let expires_at = match updated.content_expires_after_hours {
                        Option::Some(h) => {
                            proof {
                                assert(hours_bounded(v0.tokens[k as int]));
                                assert(h * SECONDS_PER_HOUR <= MAX_EXPIRE_HOURS * SECONDS_PER_HOUR)
                                    by (nonlinear_arith)
                                    requires
                                        h <= MAX_EXPIRE_HOURS,
                                ;
                            }
                            Some(now + h * SECONDS_PER_HOUR)
                        },
                        Option::None => None,
                    };
                    updated.used_at = Some(now);
                    updated.content_expires_at = expires_at;
                    self.tokens[k] = updated;
                    self.clock = now;
                    proof {
                        let v1 = self@;
                        let told = v0.tokens[k as int];
                        let tnew = v1.tokens[k as int];
                        assert(tnew == spec_finalised_token(told, now));
                        assert forall|i: int|
                            0 <= i < v0.tokens.len() implies #[trigger] v1.tokens[i] == (
                        if v0.tokens[i].id == ut.id {
                            spec_finalised_token(v0.tokens[i], now)
                        } else {
                            v0.tokens[i]
                        }) by {
                            if i != k {
                                assert(v1.tokens[i] == v0.tokens[i]);
                                assert(v0.tokens[i].id != ut.id);
                            }
                        }
                        assert forall|i: int|
                            0 <= i < v1.files.len() implies spec_token_by_id(
                            v1.tokens,
                            #[trigger] v1.files[i].token_id,
                        ) is Some by {
                            lemma_token_by_id_same_ids(v0.tokens, v1.tokens, v1.files[i].token_id, 0);
                        }
                        // the token was fresh, hence live at the old clock whenever
                        // it was not deleted; its peers at the path were not
                        assert forall|i: int, j: int|
                            #![trigger v1.tokens[i], v1.tokens[j]]
                            0 <= i < v1.tokens.len() && 0 <= j < v1.tokens.len() && i != j
                                && v1.tokens[i].path@ == v1.tokens[j].path@ implies !(token_live(
                            v1.tokens[i],
                            now,
                        ) && token_live(v1.tokens[j], now)) by {
                            if i != k && j != k {
                                lemma_at_most_one_live(v0, now, i, j);
                            } else {
                                let m = if i == k {
                                    j
                                } else {
                                    i
                                };
                                assert(v1.tokens[m] == v0.tokens[m]);
                                if told.deleted_at is Some {
                                    assert(!token_live(tnew, now));
                                } else {
                                    // the fresh row was live at the old clock
                                    assert(told.content_expires_at is None);
                                    assert(token_live(told, v0.clock));
                                    assert(v0.tokens[m].path@ == told.path@);
                                    assert(!token_live(v0.tokens[m], v0.clock));
                                    if token_live(v0.tokens[m], now) {
                                        lemma_live_antitone(v0.tokens[m], v0.clock, now);
                                    }
                                }
                            }
                        }
                        assert forall|i: int|
                            0 <= i < v1.tokens.len() && #[trigger] v1.tokens[i].used_at is Some
                                && v1.tokens[i].deleted_at is None && used_live(v1.tokens[i], now)
                            implies has_completed_file(
                            v1.files,
                            v1.tokens[i].id,
                            v1.tokens[i].attempt_counter,
                        ) by {
                            if i == k {
                                assert(has_completed_file(v0.files, told.id, told.attempt_counter));
                            } else {
                                assert(v1.tokens[i] == v0.tokens[i]);
                                lemma_used_token_has_completed_file(v0, now, i);
                            }
                        }
                        assert(ledger_wf(v1));
                    }
                    Ok(())
                }
            },
        }
    }
}

/// Metadata lookup success means a row with that file id sits in the
/// sequence.
pub proof fn lemma_md_by_file_from_found(s: Seq<FileMetadataRow>, id: u64, i: int)
    requires
        0 <= i <= s.len(),
    ensures
        md_by_file_from(s, id, i) matches Some(m) ==> m.file_id == id && exists|j: int|
            i <= j < s.len() && #[trigger] s[j] == m,
    decreases s.len() - i,
{
    if i < s.len() {
        lemma_md_by_file_from_found(s, id, i + 1);
    }
}


/// With unique ids, the by-id lookup finds exactly the row at hand.
pub proof fn lemma_token_by_id_unique(s: Seq<DbToken>, k: int, i: int)
    requires
        0 <= i <= k < s.len(),
        forall|a: int, b: int|
            #![trigger s[a], s[b]]
            0 <= a < b < s.len() ==> s[a].id != s[b].id,
    ensures
        token_by_id_from(s, s[k].id, i) == Some(s[k]),
    decreases s.len() - i,
{
    if i < k {
        assert(s[i].id != s[k].id);
        lemma_token_by_id_unique(s, k, i + 1);
    }
}

/// Metadata lookup succeeds exactly when a row with the file id exists.
pub proof fn lemma_md_by_file_exists(s: Seq<FileMetadataRow>, id: u64, i: int)
    requires
        0 <= i <= s.len(),
    ensures
        (md_by_file_from(s, id, i) is None) <==> (forall|j: int|
            i <= j < s.len() ==> #[trigger] s[j].file_id != id),
    decreases s.len() - i,
{
    if i < s.len() {
        lemma_md_by_file_exists(s, id, i + 1);
    }
}

/// The files the sweeper should clean at `now`, in row order.
pub open spec fn files_to_delete_from(v: LedgerView, now: u64, i: int) -> Seq<DbFile>
    decreases v.files.len() - i,
{
    if i < 0 || i >= v.files.len() {
        Seq::empty()
    } else if file_delete_pred(v.tokens, v.files[i], now) {
        seq![v.files[i]] + files_to_delete_from(v, now, i + 1)
    } else {
        files_to_delete_from(v, now, i + 1)
    }
}

pub open spec fn spec_files_to_delete(v: LedgerView, now: u64) -> Seq<DbFile> {
    files_to_delete_from(v, now, 0)
}

/// Each entry of the sweep plan is a condemned row of the ledger.
pub proof fn lemma_files_to_delete_element(v: LedgerView, now: u64, i: int, p: int)
    requires
        0 <= i <= v.files.len(),
        0 <= p < files_to_delete_from(v, now, i).len(),
    ensures
        exists|j: int|
            i <= j < v.files.len() && #[trigger] v.files[j] == files_to_delete_from(v, now, i)[p]
                && file_delete_pred(v.tokens, v.files[j], now),
    decreases v.files.len() - i,
{
    let r = files_to_delete_from(v, now, i);
    let rest = files_to_delete_from(v, now, i + 1);
    if file_delete_pred(v.tokens, v.files[i], now) {
        assert(r == seq![v.files[i]] + rest);
        if p == 0 {
            assert(v.files[i] == r[0] && file_delete_pred(v.tokens, v.files[i], now));
        } else {
            lemma_files_to_delete_element(v, now, i + 1, p - 1);
            assert(r[p] == rest[p - 1]);
        }
    } else {
        assert(r == rest);
        lemma_files_to_delete_element(v, now, i + 1, p);
    }
}

/// Every condemned row of the ledger appears in the sweep plan.
pub proof fn lemma_files_to_delete_complete(v: LedgerView, now: u64, i: int)
    requires
        0 <= i <= v.files.len(),
    ensures
        forall|j: int|
            i <= j < v.files.len() && file_delete_pred(v.tokens, #[trigger] v.files[j], now)
                ==> files_to_delete_from(v, now, i).contains(v.files[j]),
    decreases v.files.len() - i,
{
    if i < v.files.len() {
        lemma_files_to_delete_complete(v, now, i + 1);
        let r = files_to_delete_from(v, now, i);
        let rest = files_to_delete_from(v, now, i + 1);
        if file_delete_pred(v.tokens, v.files[i], now) {
            assert(r == seq![v.files[i]] + rest);
            assert forall|j: int|
                i <= j < v.files.len() && file_delete_pred(v.tokens, #[trigger] v.files[j], now)
                implies r.contains(v.files[j]) by {
                if j == i {
                    assert(r[0] == v.files[j]);
                } else {
                    assert(rest.contains(v.files[j]));
                    let q = choose|q: int| 0 <= q < rest.len() && rest[q] == v.files[j];
                    assert(r[q + 1] == v.files[j]);
                }
            }
        } else {
            assert(r == rest);
            assert forall|j: int|
                i <= j < v.files.len() && file_delete_pred(v.tokens, #[trigger] v.files[j], now)
                implies r.contains(v.files[j]) by {
                if j > i {
                    assert(rest.contains(v.files[j]));
                }
            }
        }
    }
}

impl DBService {
    /// The sweep plan: every file whose token's content expired, whose row
    /// belongs to a superseded attempt, or whose token was abandoned unused.
    pub fn get_files_to_delete(&self, now: u64) -> (r: Vec<DbFile>)
        ensures
            r@ == spec_files_to_delete(self@, now),
    {
        let mut out: Vec<DbFile> = Vec::new();
        let n = self.files.len();
        let mut i: usize = 0;
        while i < n
            invariant
                0 <= i <= n,
                n == self@.files.len(),
                out@ + files_to_delete_from(self@, now, i as int) == spec_files_to_delete(
                    self@,
                    now,
                ),
            decreases n - i,
        {
            let f = &self.files[i];
            let tk = find_token_index(&self.tokens, f.token_id);
            let condemned = match tk {
                Option::Some(k) => {
                    let t = &self.tokens[k];
                    let content_gone = match t.content_expires_at {
                        Option::Some(e) => e <= now,
                        Option::None => false,
                    };
                    let abandoned = (match t.used_at {
                        Option::None => true,
                        Option::Some(_) => false,
                    }) && t.valid_until <= now;
                    content_gone || t.attempt_counter > f.attempt_counter || abandoned
                },
                Option::None => false,
            };
            if condemned {
                out.push(f.duplicate());
            }
            proof {
                assert(out@ + files_to_delete_from(self@, now, i + 1) == spec_files_to_delete(
                    self@,
                    now,
                )) by {
                    if file_delete_pred(self@.tokens, self@.files[i as int], now) {
                        assert(out@.drop_last() + (seq![self@.files[i as int]]
                            + files_to_delete_from(self@, now, i + 1)) =~= out@
                            + files_to_delete_from(self@, now, i + 1));
                    }
                }
            }
            i = i + 1;
        }
        proof {
            assert(out@ + files_to_delete_from(self@, now, n as int) =~= out@);
        }
        out
    }
}


/// The file rows that survive a bulk delete of `ids`.
pub open spec fn files_without(files: Seq<DbFile>, ids: Seq<u64>, i: int) -> Seq<DbFile>
    decreases files.len() - i,
{
    if i < 0 || i >= files.len() {
        Seq::empty()
    } else if ids.contains(files[i].id) {
        files_without(files, ids, i + 1)
    } else {
        seq![files[i]] + files_without(files, ids, i + 1)
    }
}

/// The metadata rows that survive a bulk delete of the files in `ids`.
pub open spec fn metadata_without(md: Seq<FileMetadataRow>, ids: Seq<u64>, i: int) -> Seq<
    FileMetadataRow,
>
    decreases md.len() - i,
{
    if i < 0 || i >= md.len() {
        Seq::empty()
    } else if ids.contains(md[i].file_id) {
        metadata_without(md, ids, i + 1)
    } else {
        seq![md[i]] + metadata_without(md, ids, i + 1)
    }
}

/// Each surviving file row is an original row whose id was not named, and
/// every unnamed original row survives.
pub proof fn lemma_files_without_element(files: Seq<DbFile>, ids: Seq<u64>, i: int, p: int)
    requires
        0 <= i <= files.len(),
        0 <= p < files_without(files, ids, i).len(),
    ensures
        exists|j: int|
            i <= j < files.len() && #[trigger] files[j] == files_without(files, ids, i)[p]
                && !ids.contains(files[j].id),
    decreases files.len() - i,
{
    let r = files_without(files, ids, i);
    let rest = files_without(files, ids, i + 1);
    if ids.contains(files[i].id) {
        lemma_files_without_element(files, ids, i + 1, p);
    } else {
        assert(r == seq![files[i]] + rest);
        if p == 0 {
            assert(files[i] == r[0] && !ids.contains(files[i].id));
        } else {
            lemma_files_without_element(files, ids, i + 1, p - 1);
            assert(r[p] == rest[p - 1]);
        }
    }
}

pub proof fn lemma_files_without_complete(files: Seq<DbFile>, ids: Seq<u64>, i: int)
    requires
        0 <= i <= files.len(),
    ensures
        forall|j: int|
            i <= j < files.len() && !ids.contains(#[trigger] files[j].id) ==> files_without(
                files,
                ids,
                i,
            ).contains(files[j]),
    decreases files.len() - i,
{
    if i < files.len() {
        lemma_files_without_complete(files, ids, i + 1);
        let r = files_without(files, ids, i);
        let rest = files_without(files, ids, i + 1);
        assert forall|j: int|
            i <= j < files.len() && !ids.contains(#[trigger] files[j].id) implies r.contains(
            files[j],
        ) by {
            if ids.contains(files[i].id) {
                assert(j != i);
                assert(rest.contains(files[j]));
                let q = choose|q: int| 0 <= q < rest.len() && rest[q] == files[j];
                assert(r[q] == files[j]);
            } else {
                assert(r == seq![files[i]] + rest);
                if j == i {
                    assert(r[0] == files[j]);
                } else {
                    assert(rest.contains(files[j]));
                    let q = choose|q: int| 0 <= q < rest.len() && rest[q] == files[j];
                    assert(r[q + 1] == files[j]);
                }
            }
        }
    }
}

/// As above, for the metadata rows.
pub proof fn lemma_metadata_without_element(md: Seq<FileMetadataRow>, ids: Seq<u64>, i: int, p: int)
    requires
        0 <= i <= md.len(),
        0 <= p < metadata_without(md, ids, i).len(),
    ensures
        exists|j: int|
            i <= j < md.len() && #[trigger] md[j] == metadata_without(md, ids, i)[p]
                && !ids.contains(md[j].file_id),
    decreases md.len() - i,
{
    let r = metadata_without(md, ids, i);
    let rest = metadata_without(md, ids, i + 1);
    if ids.contains(md[i].file_id) {
        lemma_metadata_without_element(md, ids, i + 1, p);
    } else {
        assert(r == seq![md[i]] + rest);
        if p == 0 {
            assert(md[i] == r[0] && !ids.contains(md[i].file_id));
        } else {
            lemma_metadata_without_element(md, ids, i + 1, p - 1);
            assert(r[p] == rest[p - 1]);
        }
    }
}

pub proof fn lemma_metadata_without_complete(md: Seq<FileMetadataRow>, ids: Seq<u64>, i: int)
    requires
        0 <= i <= md.len(),
    ensures
        forall|j: int|
            i <= j < md.len() && !ids.contains(#[trigger] md[j].file_id) ==> metadata_without(
                md,
                ids,
                i,
            ).contains(md[j]),
    decreases md.len() - i,
{
    if i < md.len() {
        lemma_metadata_without_complete(md, ids, i + 1);
        let r = metadata_without(md, ids, i);
        let rest = metadata_without(md, ids, i + 1);
        assert forall|j: int|
            i <= j < md.len() && !ids.contains(#[trigger] md[j].file_id) implies r.contains(
            md[j],
        ) by {
            if ids.contains(md[i].file_id) {
                assert(j != i);
                assert(rest.contains(md[j]));
                let q = choose|q: int| 0 <= q < rest.len() && rest[q] == md[j];
                assert(r[q] == md[j]);
            } else {
                assert(r == seq![md[i]] + rest);
                if j == i {
                    assert(r[0] == md[j]);
                } else {
                    assert(rest.contains(md[j]));
                    let q = choose|q: int| 0 <= q < rest.len() && rest[q] == md[j];
                    assert(r[q + 1] == md[j]);
                }
            }
        }
    }
}

impl DBService {
    /// Removes the file rows named by `ids` (and their metadata) in one
    /// step.  A named row must be reclaimable: never completed, or condemned
    /// by the retention rule at `now` — the sweep plan's rows always are.
    pub fn delete_files(&mut self, ids: &Vec<u64>, now: u64)
        requires
            old(self).wf(),
            now >= old(self)@.clock,
            now <= MAX_INSTANT,
            forall|i: int|
                0 <= i < old(self)@.files.len() && ids@.contains(
                    #[trigger] old(self)@.files[i].id,
                ) ==> file_deletable(old(self)@, old(self)@.files[i], now),
        ensures
            final(self).wf(),
            final(self)@.tokens == old(self)@.tokens,
            final(self)@.accounts == old(self)@.accounts,
            final(self)@.next_token_id == old(self)@.next_token_id,
            final(self)@.next_file_id == old(self)@.next_file_id,
            final(self)@.next_account_id == old(self)@.next_account_id,
            final(self)@.clock == now,
            final(self)@.files == files_without(old(self)@.files, ids@, 0),
            final(self)@.metadata == metadata_without(old(self)@.metadata, ids@, 0),
    {
        let ghost v0 = self@;
        let mut kept: Vec<DbFile> = Vec::new();
        let n = self.files.len();
        let mut i: usize = 0;
        while i < n
            invariant
                0 <= i <= n,
                n == self@.files.len(),
                kept@ + files_without(self@.files, ids@, i as int) == files_without(
                    self@.files,
                    ids@,
                    0,
                ),
            decreases n - i,
        {
            let f = &self.files[i];
            if !contains_id(ids, f.id) {
                kept.push(f.duplicate());
            }
            proof {
                if !ids@.contains(self@.files[i as int].id) {
                    assert(kept@.drop_last() + (seq![self@.files[i as int]] + files_without(
                        self@.files,
                        ids@,
                        i + 1,
                    )) =~= kept@ + files_without(self@.files, ids@, i + 1));
                }
            }
            i = i + 1;
        }
        proof {
            assert(kept@ + files_without(self@.files, ids@, n as int) =~= kept@);
        }
        let mut kept_md: Vec<FileMetadataRow> = Vec::new();
        let m = self.metadata.len();
        let mut q: usize = 0;
        while q < m
            invariant
                0 <= q <= m,
                m == self@.metadata.len(),
                kept_md@ + metadata_without(self@.metadata, ids@, q as int) == metadata_without(
                    self@.metadata,
                    ids@,
                    0,
                ),
            decreases m - q,
        {
            let r = &self.metadata[q];
            if !contains_id(ids, r.file_id) {
                kept_md.push(
                    FileMetadataRow {
                        file_id: r.file_id,
                        size_b: r.size_b,
                        mime_type: clone_opt_string(&r.mime_type),
                    },
                );
            }
            proof {
                if !ids@.contains(self@.metadata[q as int].file_id) {
                    assert(kept_md@.drop_last() + (seq![self@.metadata[q as int]]
                        + metadata_without(self@.metadata, ids@, q + 1)) =~= kept_md@
                        + metadata_without(self@.metadata, ids@, q + 1));
                }
            }
            q = q + 1;
        }
        proof {
            assert(kept_md@ + metadata_without(self@.metadata, ids@, m as int) =~= kept_md@);
        }
        self.files = kept;
        self.metadata = kept_md;
        self.clock = now;
        proof {
            let v1 = self@;
            lemma_wf_later_clock(v0, now);
            assert forall|p: int|
                #![trigger v1.files[p]]
                0 <= p < v1.files.len() implies exists|j: int|
                0 <= j < v0.files.len() && #[trigger] v0.files[j] == v1.files[p] && !ids@.contains(
                    v0.files[j].id,
                ) by {
                lemma_files_without_element(v0.files, ids@, 0, p);
            }
            assert forall|p: int|
                #![trigger v1.metadata[p]]
                0 <= p < v1.metadata.len() implies exists|j: int|
                0 <= j < v0.metadata.len() && #[trigger] v0.metadata[j] == v1.metadata[p]
                    && !ids@.contains(v0.metadata[j].file_id) by {
                lemma_metadata_without_element(v0.metadata, ids@, 0, p);
            }
            // unique ids survive
            lemma_files_without_unique(v0.files, ids@, 0);
            lemma_metadata_without_unique(v0.metadata, ids@, 0);
            // ids stay below the allocator; tokens still back every file
            assert forall|p: int|
                0 <= p < v1.files.len() implies #[trigger] v1.files[p].id < v1.next_file_id
                    && spec_token_by_id(v1.tokens, v1.files[p].token_id) is Some by {
                let j = choose|j: int|
                    0 <= j < v0.files.len() && #[trigger] v0.files[j] == v1.files[p]
                        && !ids@.contains(v0.files[j].id);
                assert(v0.files[j].id < v0.next_file_id);
            }
            // surviving metadata still points at a surviving completed file
            assert forall|p: int|
                #![trigger v1.metadata[p]]
                0 <= p < v1.metadata.len() implies exists|j: int|
                0 <= j < v1.files.len() && #[trigger] v1.files[j].id == v1.metadata[p].file_id
                    && v1.files[j].completed_at is Some by {
                let jm = choose|j: int|
                    0 <= j < v0.metadata.len() && #[trigger] v0.metadata[j] == v1.metadata[p]
                        && !ids@.contains(v0.metadata[j].file_id);
                let jf = choose|j: int|
                    0 <= j < v0.files.len() && #[trigger] v0.files[j].id == v0.metadata[jm].file_id
                        && v0.files[j].completed_at is Some;
                lemma_files_without_complete(v0.files, ids@, 0);
                assert(v1.files.contains(v0.files[jf]));
                let pf = choose|pf: int| 0 <= pf < v1.files.len() && v1.files[pf] == v0.files[jf];
                assert(v1.files[pf].id == v1.metadata[p].file_id);
            }
            // surviving completed files keep their metadata row
            assert forall|p: int|
                0 <= p < v1.files.len() && v1.files[p].completed_at is Some implies spec_md_by_file(
                v1.metadata,
                #[trigger] v1.files[p].id,
            ) is Some by {
                let j = choose|j: int|
                    0 <= j < v0.files.len() && #[trigger] v0.files[j] == v1.files[p]
                        && !ids@.contains(v0.files[j].id);
                assert(spec_md_by_file(v0.metadata, v0.files[j].id) is Some);
                lemma_md_by_file_from_found(v0.metadata, v0.files[j].id, 0);
                let m0 = spec_md_by_file(v0.metadata, v0.files[j].id)->0;
                let jm = choose|jm: int| 0 <= jm < v0.metadata.len() && v0.metadata[jm] == m0;
                lemma_metadata_without_complete(v0.metadata, ids@, 0);
                assert(v1.metadata.contains(v0.metadata[jm]));
                lemma_md_by_file_exists(v1.metadata, v1.files[p].id, 0);
                let pm = choose|pm: int|
                    0 <= pm < v1.metadata.len() && v1.metadata[pm] == v0.metadata[jm];
                assert(v1.metadata[pm].file_id == v1.files[p].id);
            }
            // a used, retained token keeps its completed file
            assert forall|i2: int|
                0 <= i2 < v1.tokens.len() && #[trigger] v1.tokens[i2].used_at is Some
                    && v1.tokens[i2].deleted_at is None && used_live(v1.tokens[i2], now) implies
                has_completed_file(v1.files, v1.tokens[i2].id, v1.tokens[i2].attempt_counter) by {
                lemma_used_token_has_completed_file(v0, now, i2);
                let t = v0.tokens[i2];
                let jf = choose|j: int|
                    0 <= j < v0.files.len() && #[trigger] v0.files[j].token_id == t.id
                        && v0.files[j].attempt_counter == t.attempt_counter && v0.files[j]
                        .completed_at is Some;
                if ids@.contains(v0.files[jf].id) {
                    assert(file_deletable(v0, v0.files[jf], now));
                    lemma_token_by_id_unique(v0.tokens, i2, 0);
                    assert(spec_token_by_id(v0.tokens, t.id) == Some(t));
                    assert(!file_delete_pred(v0.tokens, v0.files[jf], now));
                    assert(false);
                }
                lemma_files_without_complete(v0.files, ids@, 0);
                assert(v1.files.contains(v0.files[jf]));
                let pf = choose|pf: int| 0 <= pf < v1.files.len() && v1.files[pf] == v0.files[jf];
                assert(v1.files[pf].token_id == v1.tokens[i2].id && v1.files[pf].attempt_counter
                    == v1.tokens[i2].attempt_counter && v1.files[pf].completed_at is Some);
            }
            assert(ledger_wf(v1));
        }
    }
}

/// Surviving file rows keep pairwise-distinct ids.
pub proof fn lemma_files_without_unique(files: Seq<DbFile>, ids: Seq<u64>, i: int)
    requires
        0 <= i <= files.len(),
        forall|a: int, b: int|
            #![trigger files[a], files[b]]
            0 <= a < b < files.len() ==> files[a].id != files[b].id,
    ensures
        forall|a: int, b: int|
            #![trigger files_without(files, ids, i)[a], files_without(files, ids, i)[b]]
            0 <= a < b < files_without(files, ids, i).len() ==> files_without(files, ids, i)[a].id
                != files_without(files, ids, i)[b].id,
    decreases files.len() - i,
{
    if i < files.len() {
        lemma_files_without_unique(files, ids, i + 1);
        let r = files_without(files, ids, i);
        let rest = files_without(files, ids, i + 1);
        if !ids.contains(files[i].id) {
            assert(r == seq![files[i]] + rest);
            assert forall|a: int, b: int|
                #![trigger r[a], r[b]]
                0 <= a < b < r.len() implies r[a].id != r[b].id by {
                if a == 0 {
                    assert(r[b] == rest[b - 1]);
                    lemma_files_without_element(files, ids, i + 1, b - 1);
                    let j = choose|j: int|
                        i + 1 <= j < files.len() && #[trigger] files[j] == rest[b - 1]
                            && !ids.contains(files[j].id);
                    assert(files[i].id != files[j].id);
                } else {
                    assert(r[a] == rest[a - 1]);
                    assert(r[b] == rest[b - 1]);
                }
            }
        }
    }
}

/// Surviving metadata rows keep pairwise-distinct file ids.
pub proof fn lemma_metadata_without_unique(md: Seq<FileMetadataRow>, ids: Seq<u64>, i: int)
    requires
        0 <= i <= md.len(),
        forall|a: int, b: int|
            #![trigger md[a], md[b]]
            0 <= a < b < md.len() ==> md[a].file_id != md[b].file_id,
    ensures
        forall|a: int, b: int|
            #![trigger metadata_without(md, ids, i)[a], metadata_without(md, ids, i)[b]]
            0 <= a < b < metadata_without(md, ids, i).len() ==> metadata_without(md, ids, i)[a]
                .file_id != metadata_without(md, ids, i)[b].file_id,
    decreases md.len() - i,
{
    if i < md.len() {
        lemma_metadata_without_unique(md, ids, i + 1);
        let r = metadata_without(md, ids, i);
        let rest = metadata_without(md, ids, i + 1);
        if !ids.contains(md[i].file_id) {
            assert(r == seq![md[i]] + rest);
            assert forall|a: int, b: int|
                #![trigger r[a], r[b]]
                0 <= a < b < r.len() implies r[a].file_id != r[b].file_id by {
                if a == 0 {
                    assert(r[b] == rest[b - 1]);
                    lemma_metadata_without_element(md, ids, i + 1, b - 1);
                    let j = choose|j: int|
                        i + 1 <= j < md.len() && #[trigger] md[j] == rest[b - 1] && !ids.contains(
                            md[j].file_id,
                        );
                    assert(md[i].file_id != md[j].file_id);
                } else {
                    assert(r[a] == rest[a - 1]);
                    assert(r[b] == rest[b - 1]);
                }
            }
        }
    }
}

/// Does the id vector name `id`?
fn contains_id(ids: &Vec<u64>, id: u64) -> (r: bool)
    ensures
        r == ids@.contains(id),
{
    let n = ids.len();
    let mut i: usize = 0;
    while i < n
        invariant
            0 <= i <= n,
            n == ids@.len(),
            forall|j: int| 0 <= j < i ==> #[trigger] ids@[j] != id,
        decreases n - i,
    {
        if ids[i] == id {
            return true;
        }
        i = i + 1;
    }
    false
}


/// Is a token row removable at `now`: past retention, and no file row still
/// references it (file rows must be cleaned first, as the sweeper does).
pub open spec fn token_removable(files: Seq<DbFile>, t: DbToken, now: u64) -> bool {
    token_expired(t, now) && !has_file_for_token(files, t.id)
}

/// The token rows that survive the expiry pass at `now`.
pub open spec fn tokens_without_expired(
    tokens: Seq<DbToken>,
    files: Seq<DbFile>,
    now: u64,
    i: int,
) -> Seq<DbToken>
    decreases tokens.len() - i,
{
    if i < 0 || i >= tokens.len() {
        Seq::empty()
    } else if token_removable(files, tokens[i], now) {
        tokens_without_expired(tokens, files, now, i + 1)
    } else {
        seq![tokens[i]] + tokens_without_expired(tokens, files, now, i + 1)
    }
}

/// The identities of the rows the expiry pass removes, in row order.
pub open spec fn expired_token_infos(
    tokens: Seq<DbToken>,
    files: Seq<DbFile>,
    now: u64,
    i: int,
) -> Seq<(u64, String)>
    decreases tokens.len() - i,
{
    if i < 0 || i >= tokens.len() {
        Seq::empty()
    } else if token_removable(files, tokens[i], now) {
        seq![(tokens[i].id, tokens[i].path)] + expired_token_infos(tokens, files, now, i + 1)
    } else {
        expired_token_infos(tokens, files, now, i + 1)
    }
}

/// Each surviving token row is an original row that was not removable.
pub proof fn lemma_tokens_without_element(
    tokens: Seq<DbToken>,
    files: Seq<DbFile>,
    now: u64,
    i: int,
    p: int,
)
    requires
        0 <= i <= tokens.len(),
        0 <= p < tokens_without_expired(tokens, files, now, i).len(),
    ensures
        exists|j: int|
            i <= j < tokens.len() && #[trigger] tokens[j] == tokens_without_expired(
                tokens,
                files,
                now,
                i,
            )[p] && !token_removable(files, tokens[j], now),
    decreases tokens.len() - i,
{
    let r = tokens_without_expired(tokens, files, now, i);
    let rest = tokens_without_expired(tokens, files, now, i + 1);
    if token_removable(files, tokens[i], now) {
        lemma_tokens_without_element(tokens, files, now, i + 1, p);
    } else {
        assert(r == seq![tokens[i]] + rest);
        if p == 0 {
            assert(tokens[i] == r[0] && !token_removable(files, tokens[i], now));
        } else {
            lemma_tokens_without_element(tokens, files, now, i + 1, p - 1);
            assert(r[p] == rest[p - 1]);
        }
    }
}

/// Every original row that is not removable survives the expiry pass.
pub proof fn lemma_tokens_without_complete(
    tokens: Seq<DbToken>,
    files: Seq<DbFile>,
    now: u64,
    i: int,
)
    requires
        0 <= i <= tokens.len(),
    ensures
        forall|j: int|
            i <= j < tokens.len() && !token_removable(files, #[trigger] tokens[j], now)
                ==> tokens_without_expired(tokens, files, now, i).contains(tokens[j]),
    decreases tokens.len() - i,
{
    if i < tokens.len() {
        lemma_tokens_without_complete(tokens, files, now, i + 1);
        let r = tokens_without_expired(tokens, files, now, i);
        let rest = tokens_without_expired(tokens, files, now, i + 1);
        assert forall|j: int|
            i <= j < tokens.len() && !token_removable(files, #[trigger] tokens[j], now) implies r
            .contains(tokens[j]) by {
            if token_removable(files, tokens[i], now) {
                assert(j != i);
                assert(rest.contains(tokens[j]));
                let q = choose|q: int| 0 <= q < rest.len() && rest[q] == tokens[j];
                assert(r[q] == tokens[j]);
            } else {
                assert(r == seq![tokens[i]] + rest);
                if j == i {
                    assert(r[0] == tokens[j]);
                } else {
                    assert(rest.contains(tokens[j]));
                    let q = choose|q: int| 0 <= q < rest.len() && rest[q] == tokens[j];
                    assert(r[q + 1] == tokens[j]);
                }
            }
        }
    }
}

/// Surviving token rows keep pairwise-distinct ids.
pub proof fn lemma_tokens_without_unique(
    tokens: Seq<DbToken>,
    files: Seq<DbFile>,
    now: u64,
    i: int,
)
    requires
        0 <= i <= tokens.len(),
        forall|a: int, b: int|
            #![trigger tokens[a], tokens[b]]
            0 <= a < b < tokens.len() ==> tokens[a].id != tokens[b].id,
    ensures
        forall|a: int, b: int|
            #![trigger tokens_without_expired(tokens, files, now, i)[a], tokens_without_expired(tokens, files, now, i)[b]]
            0 <= a < b < tokens_without_expired(tokens, files, now, i).len()
                ==> tokens_without_expired(tokens, files, now, i)[a].id != tokens_without_expired(
                tokens,
                files,
                now,
                i,
            )[b].id,
    decreases tokens.len() - i,
{
    if i < tokens.len() {
        lemma_tokens_without_unique(tokens, files, now, i + 1);
        let r = tokens_without_expired(tokens, files, now, i);
        let rest = tokens_without_expired(tokens, files, now, i + 1);
        if !token_removable(files, tokens[i], now) {
            assert(r == seq![tokens[i]] + rest);
            assert forall|a: int, b: int|
                #![trigger r[a], r[b]]
                0 <= a < b < r.len() implies r[a].id != r[b].id by {
                if a == 0 {
                    assert(r[b] == rest[b - 1]);
                    lemma_tokens_without_element(tokens, files, now, i + 1, b - 1);
                    let j = choose|j: int|
                        i + 1 <= j < tokens.len() && #[trigger] tokens[j] == rest[b - 1]
                            && !token_removable(files, tokens[j], now);
                    assert(tokens[i].id != tokens[j].id);
                } else {
                    assert(r[a] == rest[a - 1]);
                    assert(r[b] == rest[b - 1]);
                }
            }
        }
    }
}

/// Does any file row reference this token?
fn token_has_file(files: &Vec<DbFile>, id: u64) -> (r: bool)
    ensures
        r == has_file_for_token(files@, id),
{
    let n = files.len();
    let mut i: usize = 0;
    while i < n
        invariant
            0 <= i <= n,
            n == files@.len(),
            forall|j: int| 0 <= j < i ==> #[trigger] files@[j].token_id != id,
        decreases n - i,
    {
        if files[i].token_id == id {
            return true;
        }
        i = i + 1;
    }
    false
}

impl DBService {
    /// Delete the token rows that are expired (used or not).  A row still
    /// referenced by a file is kept for a later cycle, so no file row is
    /// ever orphaned; the identities of the removed rows are returned.
    pub fn delete_expired_tokens(&mut self, now: u64) -> (r: Vec<(u64, String)>)
        requires
            old(self).wf(),
            now >= old(self)@.clock,
            now <= MAX_INSTANT,
        ensures
            final(self).wf(),
            final(self)@.files == old(self)@.files,
            final(self)@.metadata == old(self)@.metadata,
            final(self)@.accounts == old(self)@.accounts,
            final(self)@.next_token_id == old(self)@.next_token_id,
            final(self)@.next_file_id == old(self)@.next_file_id,
            final(self)@.next_account_id == old(self)@.next_account_id,
            final(self)@.clock == now,
            final(self)@.tokens == tokens_without_expired(
                old(self)@.tokens,
                old(self)@.files,
                now,
                0,
            ),
            r@ == expired_token_infos(old(self)@.tokens, old(self)@.files, now, 0),
    {
        let ghost v0 = self@;
        let mut kept: Vec<DbToken> = Vec::new();
        let mut removed: Vec<(u64, String)> = Vec::new();
        let n = self.tokens.len();
        let mut i: usize = 0;
        while i < n
            invariant
                0 <= i <= n,
                n == self@.tokens.len(),
                kept@ + tokens_without_expired(self@.tokens, self@.files, now, i as int)
                    == tokens_without_expired(self@.tokens, self@.files, now, 0),
                removed@ + expired_token_infos(self@.tokens, self@.files, now, i as int)
                    == expired_token_infos(self@.tokens, self@.files, now, 0),
            decreases n - i,
        {
            let t = &self.tokens[i];
            let content_gone = match t.content_expires_at {
                Option::Some(e) => e <= now,
                Option::None => false,
            };
            let abandoned = (match t.used_at {
                Option::None => true,
                Option::Some(_) => false,
            }) && t.valid_until <= now;
            let expired = content_gone || abandoned;
            if expired && !token_has_file(&self.files, t.id) {
                removed.push((t.id, t.path.clone()));
                proof {
                    assert(removed@.drop_last() + (seq![
                        (self@.tokens[i as int].id, self@.tokens[i as int].path),
                    ] + expired_token_infos(self@.tokens, self@.files, now, i + 1)) =~= removed@
                        + expired_token_infos(self@.tokens, self@.files, now, i + 1));
                }
            } else {
                kept.push(t.duplicate());
                proof {
                    assert(kept@.drop_last() + (seq![self@.tokens[i as int]]
                        + tokens_without_expired(self@.tokens, self@.files, now, i + 1)) =~= kept@
                        + tokens_without_expired(self@.tokens, self@.files, now, i + 1));
                }
            }
            i = i + 1;
        }
        proof {
            assert(kept@ + tokens_without_expired(self@.tokens, self@.files, now, n as int)
                =~= kept@);
            assert(removed@ + expired_token_infos(self@.tokens, self@.files, now, n as int)
                =~= removed@);
        }
        self.tokens = kept;
        self.clock = now;
        proof {
            let v1 = self@;
            lemma_wf_later_clock(v0, now);
            assert forall|p: int|
                #![trigger v1.tokens[p]]
                0 <= p < v1.tokens.len() implies exists|j: int|
                0 <= j < v0.tokens.len() && #[trigger] v0.tokens[j] == v1.tokens[p]
                    && !token_removable(v0.files, v0.tokens[j], now) by {
                lemma_tokens_without_element(v0.tokens, v0.files, now, 0, p);
            }
            lemma_tokens_without_unique(v0.tokens, v0.files, now, 0);
            // every file still has its token: that token has a file, so it
            // was not removable and survives
            assert forall|p: int|
                0 <= p < v1.files.len() implies spec_token_by_id(
                v1.tokens,
                #[trigger] v1.files[p].token_id,
            ) is Some by {
                let t0 = spec_token_by_id(v0.tokens, v0.files[p].token_id);
                lemma_token_by_id_from(v0.tokens, v0.files[p].token_id, 0);
                let j = choose|j: int|
                    0 <= j < v0.tokens.len() && #[trigger] v0.tokens[j] == t0->0 && t0->0.id
                        == v0.files[p].token_id;
                assert(has_file_for_token(v0.files, v0.tokens[j].id));
                lemma_tokens_without_complete(v0.tokens, v0.files, now, 0);
                assert(v1.tokens.contains(v0.tokens[j]));
                lemma_token_by_id_from(v1.tokens, v1.files[p].token_id, 0);
                let q = choose|q: int| 0 <= q < v1.tokens.len() && v1.tokens[q] == v0.tokens[j];
                assert(v1.tokens[q].id == v1.files[p].token_id);
            }
            // liveness facts transfer row by row
            assert forall|a: int, b: int|
                #![trigger v1.tokens[a], v1.tokens[b]]
                0 <= a < v1.tokens.len() && 0 <= b < v1.tokens.len() && a != b && v1.tokens[a].path@
                    == v1.tokens[b].path@ implies !(token_live(v1.tokens[a], now) && token_live(
                v1.tokens[b],
                now,
            )) by {
                let ja = choose|j: int|
                    0 <= j < v0.tokens.len() && #[trigger] v0.tokens[j] == v1.tokens[a]
                        && !token_removable(v0.files, v0.tokens[j], now);
                let jb = choose|j: int|
                    0 <= j < v0.tokens.len() && #[trigger] v0.tokens[j] == v1.tokens[b]
                        && !token_removable(v0.files, v0.tokens[j], now);
                if ja != jb {
                    lemma_at_most_one_live(v0, now, ja, jb);
                } else {
                    assert(v1.tokens[a].id == v1.tokens[b].id);
                    assert(false);
                }
            }
            assert forall|p: int|
                0 <= p < v1.tokens.len() && #[trigger] v1.tokens[p].used_at is Some && v1.tokens[p]
                    .deleted_at is None && used_live(v1.tokens[p], now) implies has_completed_file(
                v1.files,
                v1.tokens[p].id,
                v1.tokens[p].attempt_counter,
            ) by {
                let j = choose|j: int|
                    0 <= j < v0.tokens.len() && #[trigger] v0.tokens[j] == v1.tokens[p]
                        && !token_removable(v0.files, v0.tokens[j], now);
                lemma_used_token_has_completed_file(v0, now, j);
            }
            assert(ledger_wf(v1));
        }
        removed
    }
}


/// The metadata payload recorded for a file (meaningful only when a row
/// exists).
pub open spec fn md_payload(md: Seq<FileMetadataRow>, id: u64) -> DbFileMetadata {
    match spec_md_by_file(md, id) {
        Option::Some(m) => DbFileMetadata { size_b: m.size_b, mime_type: m.mime_type },
        Option::None => DbFileMetadata { size_b: Option::None, mime_type: Option::None },
    }
}

/// The files of one attempt joined with their metadata, in row order: the
/// join keeps exactly the rows that have a metadata row.
pub open spec fn files_with_md_from(v: LedgerView, token_id: u64, attempt: u64, i: int) -> Seq<
    (DbFile, DbFileMetadata),
>
    decreases v.files.len() - i,
{
    if i < 0 || i >= v.files.len() {
        Seq::empty()
    } else if v.files[i].token_id == token_id && v.files[i].attempt_counter == attempt
        && spec_md_by_file(v.metadata, v.files[i].id) is Some {
        seq![(v.files[i], md_payload(v.metadata, v.files[i].id))] + files_with_md_from(
            v,
            token_id,
            attempt,
            i + 1,
        )
    } else {
        files_with_md_from(v, token_id, attempt, i + 1)
    }
}

pub open spec fn spec_get_files(v: LedgerView, token_id: u64, attempt: u64) -> Seq<
    (DbFile, DbFileMetadata),
> {
    files_with_md_from(v, token_id, attempt, 0)
}

/// The first metadata row for a file id, as a position.
fn find_md_index(md: &Vec<FileMetadataRow>, id: u64) -> (r: Option<usize>)
    ensures
        (r matches Some(k) ==> k < md@.len() && spec_md_by_file(md@, id) == Some(md@[k as int])),
        (r is None) == (spec_md_by_file(md@, id) is None),
{
    let n = md.len();
    let mut i: usize = 0;
    while i < n
        invariant
            0 <= i <= n,
            n == md@.len(),
            spec_md_by_file(md@, id) == md_by_file_from(md@, id, i as int),
        decreases n - i,
    {
        if md[i].file_id == id {
            return Some(i);
        }
        i = i + 1;
    }
    None
}

impl DBService {
    /// The completed files of one attempt, with their metadata.
    pub fn get_files(&self, token_id: u64, attempt_counter: u64) -> (r: Vec<
        (DbFile, DbFileMetadata),
    >)
        ensures
            r@ == spec_get_files(self@, token_id, attempt_counter),
    {
        let mut out: Vec<(DbFile, DbFileMetadata)> = Vec::new();
        let n = self.files.len();
        let mut i: usize = 0;
        while i < n
            invariant
                0 <= i <= n,
                n == self@.files.len(),
                out@ + files_with_md_from(self@, token_id, attempt_counter, i as int)
                    == spec_get_files(self@, token_id, attempt_counter),
            decreases n - i,
        {
            let f = &self.files[i];
            if f.token_id == token_id && f.attempt_counter == attempt_counter {
                let mk = find_md_index(&self.metadata, f.id);
                match mk {
                    Option::Some(k) => {
                        let m = &self.metadata[k];
                        let payload = DbFileMetadata {
                            size_b: m.size_b,
                            mime_type: clone_opt_string(&m.mime_type),
                        };
                        out.push((f.duplicate(), payload));
                        proof {
                            assert(out@.drop_last() + (seq![
                                (
                                    self@.files[i as int],
                                    md_payload(self@.metadata, self@.files[i as int].id),
                                ),
                            ] + files_with_md_from(self@, token_id, attempt_counter, i + 1))
                                =~= out@ + files_with_md_from(
                                self@,
                                token_id,
                                attempt_counter,
                                i + 1,
                            ));
                        }
                    },
                    Option::None => {
                    },
                }
            }
            i = i + 1;
        }
        proof {
            assert(out@ + files_with_md_from(self@, token_id, attempt_counter, n as int)
                =~= out@);
        }
        out
    }

    /// Records an admin credential.
    pub fn create_account(&mut self, username: String, phc: String) -> (r: Account)
        requires
            old(self).wf(),
            old(self)@.next_account_id < u64::MAX,
        ensures
            final(self).wf(),
            final(self)@.tokens == old(self)@.tokens,
            final(self)@.files == old(self)@.files,
            final(self)@.metadata == old(self)@.metadata,
            final(self)@.next_token_id == old(self)@.next_token_id,
            final(self)@.next_file_id == old(self)@.next_file_id,
            final(self)@.clock == old(self)@.clock,
            r == (Account { id: old(self)@.next_account_id, username: username, phc: phc }),
            final(self)@.accounts == old(self)@.accounts.push(r),
            final(self)@.next_account_id == old(self)@.next_account_id + 1,
    {
        let ghost v0 = self@;
        let a = Account { id: self.next_account_id, username, phc };
        let dup = a.duplicate();
        self.accounts.push(a);
        self.next_account_id = self.next_account_id + 1;
        proof {
            let v1 = self@;
            assert(v1.tokens == v0.tokens && v1.files == v0.files && v1.metadata == v0.metadata
                && v1.clock == v0.clock);
            assert forall|x: int, y: int|
                #![trigger v1.accounts[x], v1.accounts[y]]
                0 <= x < y < v1.accounts.len() implies v1.accounts[x].id != v1.accounts[y].id by {
                if y < v0.accounts.len() {
                    assert(v1.accounts[x] == v0.accounts[x]);
                    assert(v1.accounts[y] == v0.accounts[y]);
                } else {
                    assert(v1.accounts[x] == v0.accounts[x]);
                    assert(v1.accounts[y] == dup);
                    assert(v0.accounts[x].id < v0.next_account_id);
                }
            }
            assert forall|x: int|
                0 <= x < v1.accounts.len() implies #[trigger] v1.accounts[x].id
                < v1.next_account_id by {
                if x < v0.accounts.len() {
                    assert(v1.accounts[x] == v0.accounts[x]);
                    assert(v0.accounts[x].id < v0.next_account_id);
                }
            }
            assert(ledger_wf(v1));
        }
        dup
    }

    /// Replaces the credential of an existing account.
    pub fn change_password(&mut self, username: String, phc: String) -> (r: Result<
        Account,
        AppError,
    >)
        requires
            old(self).wf(),
        ensures
            final(self).wf(),
            final(self)@.tokens == old(self)@.tokens,
            final(self)@.files == old(self)@.files,
            final(self)@.metadata == old(self)@.metadata,
            final(self)@.next_token_id == old(self)@.next_token_id,
            final(self)@.next_file_id == old(self)@.next_file_id,
            final(self)@.next_account_id == old(self)@.next_account_id,
            final(self)@.clock == old(self)@.clock,
            (r is Err) == (spec_account_by_name(old(self)@.accounts, username@) is None),
            r is Err ==> r == Result::<Account, AppError>::Err(AppError::NoAccountFound)
                && final(self)@.accounts == old(self)@.accounts,
            r matches Ok(a) ==> spec_account_by_name(old(self)@.accounts, username@)
                matches Some(a0) && a == (Account { id: a0.id, username: a0.username, phc: phc })
                && final(self)@.accounts.len() == old(self)@.accounts.len() && (forall|i: int|
                0 <= i < old(self)@.accounts.len() ==> #[trigger] final(self)@.accounts[i] == (
                if old(self)@.accounts[i].username@ == username@ && (forall|j: int|
                    0 <= j < i ==> #[trigger] old(self)@.accounts[j].username@ != username@) {
                    Account { id: old(self)@.accounts[i].id, username: old(self)@.accounts[i].username, phc: phc }
                } else {
                    old(self)@.accounts[i]
                })),
    {
        let ghost v0 = self@;
        let n = self.accounts.len();
        let mut i: usize = 0;
        while i < n
            invariant
                0 <= i <= n,
                v0 == old(self)@,
                self@ == v0,
                ledger_wf(v0),
                n == self@.accounts.len(),
                spec_account_by_name(self@.accounts, username@) == account_by_name_from(
                    self@.accounts,
                    username@,
                    i as int,
                ),
                forall|j: int| 0 <= j < i ==> #[trigger] self@.accounts[j].username@ != username@,
            decreases n - i,
        {
            if crate::store::str_eq(self.accounts[i].username.as_str(), username.as_str()) {
                let old_row = self.accounts[i].duplicate();
                let updated = Account { id: old_row.id, username: old_row.username, phc: phc };
                let dup = updated.duplicate();
                self.accounts[i] = updated;
                proof {
                    let v1 = self@;
                    assert(account_by_name_from(v0.accounts, username@, i as int)
                        == Some(v0.accounts[i as int]));
                    assert forall|a: int, b: int|
                        #![trigger v1.accounts[a], v1.accounts[b]]
                        0 <= a < b < v1.accounts.len() implies v1.accounts[a].id
                        != v1.accounts[b].id by {
                        assert(v1.accounts[a].id == v0.accounts[a].id);
                        assert(v1.accounts[b].id == v0.accounts[b].id);
                    }
                    assert forall|a: int|
                        0 <= a < v1.accounts.len() implies #[trigger] v1.accounts[a].id
                        < v1.next_account_id by {
                        assert(v1.accounts[a].id == v0.accounts[a].id);
                    }
                    assert(ledger_wf(v1));
                }
                return Ok(dup);
            }
            i = i + 1;
        }
        Err(AppError::NoAccountFound)
    }
}


/// A file is servable exactly when a completed row with that id exists whose
/// token at the path is used, not deleted, and not content-expired.
pub proof fn lemma_get_valid_file_iff(v: LedgerView, path: Seq<char>, fid: u64, now: u64)
    ensures
        (spec_get_valid_file(v, path, fid, now) is Some) <==> (exists|i: int|
            0 <= i < v.files.len() && file_servable(v, #[trigger] v.files[i], path, fid, now)),
        spec_get_valid_file(v, path, fid, now) matches Some(f) ==> file_servable(
            v,
            f,
            path,
            fid,
            now,
        ),
{
    lemma_find_servable_from(v, path, fid, now, 0);
    match spec_get_valid_file(v, path, fid, now) {
        Option::Some(f) => {
            let j = choose|j: int|
                0 <= j < v.files.len() && #[trigger] v.files[j] == f && file_servable(
                    v,
                    f,
                    path,
                    fid,
                    now,
                );
        },
        Option::None => {
        },
    }
}

/// Orphan reclamation: a file row whose attempt counter trails its token's
/// current counter is in the sweep plan, whatever else holds of it.
pub proof fn lemma_orphan_file_swept(v: LedgerView, now: u64, i: int)
    requires
        0 <= i < v.files.len(),
        spec_token_by_id(v.tokens, v.files[i].token_id) matches Some(t) ==> t.attempt_counter
            > v.files[i].attempt_counter,
        spec_token_by_id(v.tokens, v.files[i].token_id) is Some,
    ensures
        spec_files_to_delete(v, now).contains(v.files[i]),
{
    lemma_files_to_delete_complete(v, now, 0);
}

} // verus!
