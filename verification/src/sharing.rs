//! The shared, permissioned ledger: a ledger, a storage port, a permission
//! table and a status table, each behind its own lock so unrelated
//! operations do not contend. The remote sheet is the source of truth; the
//! in-memory ledger and statuses are caches rebuilt by replaying it.
//!
//! There is no atomicity across the four locks: a reader may observe a
//! remote append not yet reflected locally, or the reverse. The remote
//! append is the durability boundary: nothing is committed locally without
//! a prior successful remote write.

use vstd::prelude::*;
use vstd::rwlock::{RwLock, RwLockPredicate};

use crate::hashing::generate_signature;
use crate::ledger::{Ledger, LedgerError};
use crate::outside::parsed_rfc3339;
use crate::port::{CloudSpreadsheetService, SpreadsheetError};
use crate::record::{Record, RecordView};
use crate::rows::{is_status_row, parsed_record, parsed_status, record_from_row, row_is_status,
    row_parses, rows_view, status_from_row};
use crate::textutil::str_eq;

verus! {

/// What a user may do with the shared ledger.
#[derive(Debug, Clone, Copy, PartialEq, Eq, Structural)]
pub enum Permission {
    /// May read records.
    Read,
    /// May read and write records.
    Write,
}

/// Errors the shared ledger raises.
#[derive(Debug, Clone, Copy, PartialEq, Eq, Structural)]
pub enum AccessError {
    /// The user lacks the permission the operation needs.
    Unauthorized,
    /// The underlying ledger refused the operation.
    Ledger(LedgerError),
    /// The remote side refused a write or a share.
    ShareFailed,
}

/// The mathematical value of one permission grant.
pub ghost struct GrantView {
    pub user: Seq<char>,
    pub perm: Permission,
}

#[derive(Debug)]
struct Grant {
    user: String,
    perm: Permission,
}

impl View for Grant {
    type V = GrantView;

    closed spec fn view(&self) -> GrantView {
        GrantView { user: self.user@, perm: self.perm }
    }
}

impl DeepView for Grant {
    type V = GrantView;

    closed spec fn deep_view(&self) -> GrantView {
        self@
    }
}

/// The permission of `user`, if any was granted.
pub open spec fn perm_lookup(grants: Seq<GrantView>, user: Seq<char>) -> Option<Permission>
    decreases grants.len(),
{
    if grants.len() == 0 {
        None
    } else if grants[0].user == user {
        Some(grants[0].perm)
    } else {
        perm_lookup(grants.drop_first(), user)
    }
}

/// The grants with `user`'s permission replaced, or appended when absent.
pub open spec fn perm_upsert(
    grants: Seq<GrantView>,
    user: Seq<char>,
    perm: Permission,
) -> Seq<GrantView>
    decreases grants.len(),
{
    if grants.len() == 0 {
        seq![GrantView { user, perm }]
    } else if grants[0].user == user {
        grants.update(0, GrantView { user, perm })
    } else {
        seq![grants[0]] + perm_upsert(grants.drop_first(), user, perm)
    }
}

/// Does the granted permission satisfy the required one? Write satisfies
/// both; Read satisfies only Read; an unknown user satisfies neither.
pub open spec fn authorized(grants: Seq<GrantView>, user: Seq<char>, required: Permission) -> bool {
    match perm_lookup(grants, user) {
        Some(Permission::Write) => true,
        Some(Permission::Read) => required == Permission::Read,
        None => false,
    }
}

/// A user granted only Read may read but not write: read checks pass and
/// write checks fail, exactly as `check` reports them.
pub proof fn lemma_read_only_access(grants: Seq<GrantView>, user: Seq<char>)
    requires
        perm_lookup(grants, user) == Some(Permission::Read),
    ensures
        authorized(grants, user, Permission::Read),
        !authorized(grants, user, Permission::Write),
{
}

/// The per-user permission table.
#[derive(Debug)]
pub struct PermissionTable {
    grants: Vec<Grant>,
}

impl View for PermissionTable {
    type V = Seq<GrantView>;

    closed spec fn view(&self) -> Seq<GrantView> {
        self.grants.deep_view()
    }
}

impl PermissionTable {
    /// The empty table: nobody may do anything.
    pub fn new() -> (r: PermissionTable)
        ensures
            r@ == Seq::<GrantView>::empty(),
    {
        let r = PermissionTable { grants: Vec::new() };
        proof {
            assert(r@ =~= Seq::<GrantView>::empty());
        }
        r
    }

    /// Grants `user` the permission, replacing any earlier grant.
    pub fn grant(&mut self, user: &str, perm: Permission)
        ensures
            final(self)@ == perm_upsert(old(self)@, user@, perm),
    {
        let ghost prev = self@;
        let n = self.grants.len();
        let mut i: usize = 0;
        while i < n
            invariant
                i <= n,
                n == self.grants.len(),
                self@.len() == n,
                prev == old(self)@,
                self@ == prev,
                forall|j: int| 0 <= j < i ==> (#[trigger] self@[j]).user != user@,
            decreases n - i,
        {
            if str_eq(self.grants[i].user.as_str(), user) {
                proof {
                    lemma_perm_upsert_at(prev, user@, i as int, perm);
                }
                let mut g = self.grants.remove(i);
                let ghost mid = self.grants.deep_view();
                proof {
                    assert(mid =~= prev.remove(i as int));
                }
                g.perm = perm;
                let ghost gv = g@;
                self.grants.insert(i, g);
                proof {
                    assert(self.grants.deep_view() =~= mid.insert(i as int, gv));
                    assert(mid.insert(i as int, gv) =~= prev.update(
                        i as int,
                        GrantView { user: user@, perm },
                    ));
                }
                return ;
            }
            i += 1;
        }
        proof {
            lemma_perm_upsert_push(prev, user@, perm);
        }
        let ghost before = self@;
        self.grants.push(Grant { user: user.to_owned(), perm });
        proof {
            assert(self@ =~= before.push(GrantView { user: user@, perm }));
        }
    }

    /// Checks that `user` may perform an operation needing `required`;
    /// fails with `Unauthorized` exactly when not.
    pub fn check(&self, user: &str, required: Permission) -> (r: Result<(), AccessError>)
        ensures
            r is Ok <==> authorized(self@, user@, required),
            r is Err ==> r == Err::<(), AccessError>(AccessError::Unauthorized),
    {
        let n = self.grants.len();
        let mut i: usize = 0;
        while i < n
            invariant
                i <= n,
                n == self.grants.len(),
                self@.len() == n,
                forall|j: int| 0 <= j < i ==> (#[trigger] self@[j]).user != user@,
            decreases n - i,
        {
            if str_eq(self.grants[i].user.as_str(), user) {
                proof {
                    lemma_perm_lookup_at(self@, user@, i as int);
                }
                let allowed = match (self.grants[i].perm, required) {
                    (Permission::Write, _) => true,
                    (Permission::Read, Permission::Read) => true,
                    (Permission::Read, Permission::Write) => false,
                };
                if allowed {
                    return Ok(());
                } else {
                    return Err(AccessError::Unauthorized);
                }
            }
            i += 1;
        }
        proof {
            lemma_perm_lookup_none(self@, user@);
        }
        Err(AccessError::Unauthorized)
    }
}

proof fn lemma_perm_lookup_at(grants: Seq<GrantView>, user: Seq<char>, k: int)
    requires
        0 <= k < grants.len(),
        grants[k].user == user,
        forall|j: int| 0 <= j < k ==> (#[trigger] grants[j]).user != user,
    ensures
        perm_lookup(grants, user) == Some(grants[k].perm),
    decreases k,
{
    if k > 0 {
        let t = grants.drop_first();
        assert(forall|j: int| 0 <= j < t.len() ==> t[j] == grants[j + 1]);
        assert(forall|j: int| 0 <= j < k - 1 ==> (#[trigger] t[j]).user != user) by {
            assert(forall|j: int| 0 <= j < k - 1 ==> t[j] == grants[j + 1]);
        }
        lemma_perm_lookup_at(t, user, k - 1);
    }
}

proof fn lemma_perm_lookup_none(grants: Seq<GrantView>, user: Seq<char>)
    requires
        forall|j: int| 0 <= j < grants.len() ==> (#[trigger] grants[j]).user != user,
    ensures
        perm_lookup(grants, user) is None,
    decreases grants.len(),
{
    if grants.len() > 0 {
        let t = grants.drop_first();
        assert(forall|j: int| 0 <= j < t.len() ==> t[j] == grants[j + 1]);
        lemma_perm_lookup_none(t, user);
    }
}

proof fn lemma_perm_upsert_at(grants: Seq<GrantView>, user: Seq<char>, k: int, perm: Permission)
    requires
        0 <= k < grants.len(),
        grants[k].user == user,
        forall|j: int| 0 <= j < k ==> (#[trigger] grants[j]).user != user,
    ensures
        perm_upsert(grants, user, perm) == grants.update(k, GrantView { user, perm }),
    decreases k,
{
    if k > 0 {
        let t = grants.drop_first();
        assert(forall|j: int| 0 <= j < t.len() ==> t[j] == grants[j + 1]);
        assert(forall|j: int| 0 <= j < k - 1 ==> (#[trigger] t[j]).user != user) by {
            assert(forall|j: int| 0 <= j < k - 1 ==> t[j] == grants[j + 1]);
        }
        lemma_perm_upsert_at(t, user, k - 1, perm);
        assert(seq![grants[0]] + t.update(k - 1, GrantView { user, perm }) =~= grants.update(
            k,
            GrantView { user, perm },
        ));
    }
}

proof fn lemma_perm_upsert_push(grants: Seq<GrantView>, user: Seq<char>, perm: Permission)
    requires
        forall|j: int| 0 <= j < grants.len() ==> (#[trigger] grants[j]).user != user,
    ensures
        perm_upsert(grants, user, perm) == grants.push(GrantView { user, perm }),
    decreases grants.len(),
{
    if grants.len() == 0 {
        assert(perm_upsert(grants, user, perm) =~= grants.push(GrantView { user, perm }));
    } else {
        let t = grants.drop_first();
        assert(forall|j: int| 0 <= j < t.len() ==> t[j] == grants[j + 1]);
        lemma_perm_upsert_push(t, user, perm);
        assert(seq![grants[0]] + t.push(GrantView { user, perm }) =~= grants.push(
            GrantView { user, perm },
        ));
    }
}

/// The latest appended status mark for `id`, if any: status changes are
/// append-only events, and the most recent one wins.
pub open spec fn status_lookup(marks: Seq<(u128, bool)>, id: u128) -> Option<bool>
    decreases marks.len(),
{
    if marks.len() == 0 {
        None
    } else if marks.last().0 == id {
        Some(marks.last().1)
    } else {
        status_lookup(marks.drop_last(), id)
    }
}

/// The cleared mark for `id`: the latest status event, or false when none.
pub open spec fn spec_cleared(marks: Seq<(u128, bool)>, id: u128) -> bool {
    match status_lookup(marks, id) {
        Some(c) => c,
        None => false,
    }
}

/// The per-record cleared marks, kept as an append-only event log.
#[derive(Debug)]
pub struct StatusTable {
    marks: Vec<(u128, bool)>,
}

impl View for StatusTable {
    type V = Seq<(u128, bool)>;

    closed spec fn view(&self) -> Seq<(u128, bool)> {
        self.marks@
    }
}

impl StatusTable {
    /// The empty table: every record reads as pending.
    pub fn new() -> (r: StatusTable)
        ensures
            r@ == Seq::<(u128, bool)>::empty(),
    {
        let r = StatusTable { marks: Vec::new() };
        proof {
            assert(r@ =~= Seq::<(u128, bool)>::empty());
        }
        r
    }

    /// Appends a status event for `id`.
    pub fn set(&mut self, id: u128, cleared: bool)
        ensures
            final(self)@ == old(self)@.push((id, cleared)),
    {
        self.marks.push((id, cleared));
    }

    /// The record's cleared mark: its latest status event, or false.
    pub fn cleared_of(&self, id: u128) -> (r: bool)
        ensures
            r == spec_cleared(self@, id),
    {
        let n = self.marks.len();
        let mut i: usize = n;
        proof {
            assert(self@.take(n as int) =~= self@);
        }
        while i > 0
            invariant
                i <= n,
                n == self.marks.len(),
                self@.len() == n,
                status_lookup(self@, id) == status_lookup(self@.take(i as int), id),
            decreases i,
        {
            proof {
                assert(self@.take(i as int).last() == self@[i - 1]);
                assert(self@.take(i as int).drop_last() =~= self@.take(i - 1));
            }
            if self.marks[i - 1].0 == id {
                return self.marks[i - 1].1;
            }
            i -= 1;
        }
        proof {
            assert(self@.take(0) =~= Seq::<(u128, bool)>::empty());
        }
        false
    }
}

/// What replaying the remote rows yields: the records of the record rows in
/// order, and the status events of the well-formed status rows in order.
/// Nothing when some record row cannot be read; malformed status rows are
/// skipped.
pub open spec fn spec_replay(rows: Seq<Seq<Seq<char>>>) -> Option<
    (Seq<RecordView>, Seq<(u128, bool)>),
>
    decreases rows.len(),
{
    if rows.len() == 0 {
        Some((Seq::empty(), Seq::empty()))
    } else {
        match spec_replay(rows.drop_last()) {
            None => None,
            Some((recs, marks)) => {
                let row = rows.last();
                if is_status_row(row) {
                    match parsed_status(row) {
                        Some(m) => Some((recs, marks.push(m))),
                        None => Some((recs, marks)),
                    }
                } else if row_parses(row) {
                    Some((recs.push(parsed_record(row)), marks))
                } else {
                    None
                }
            },
        }
    }
}

/// Replays the rows of a remote sheet into a fresh ledger and status
/// table; mirrors `spec_replay`, failing on the first unreadable record
/// row.
pub fn replay_rows(rows: &Vec<Vec<String>>) -> (r: Result<(Ledger, StatusTable), SpreadsheetError>)
    ensures
        r is Ok <==> spec_replay(rows_view(rows@)) is Some,
        r matches Ok(out) ==> Some((out.0@, out.1@)) == spec_replay(rows_view(rows@)),
        r matches Err(e) ==> e@ is Permanent,
{
    let ghost rv = rows_view(rows@);
    let mut ledger = Ledger::new();
    let mut marks = StatusTable::new();
    let n = rows.len();
    let mut i: usize = 0;
    proof {
        assert(rv.take(0) =~= Seq::<Seq<Seq<char>>>::empty());
    }
    while i < n
        invariant
            i <= n,
            n == rows.len(),
            rv == rows_view(rows@),
            rv.len() == n,
            spec_replay(rv.take(i as int)) == Some((ledger@, marks@)),
        decreases n - i,
    {
        let row = &rows[i];
        proof {
            assert(rv.take(i + 1).drop_last() =~= rv.take(i as int));
            assert(rv.take(i + 1).last() == rv[i as int]);
            assert(crate::hashing::strings_view(row@) =~= rv[i as int]);
        }
        if row_is_status(row) {
            match status_from_row(row) {
                Some(m) => {
                    marks.set(m.0, m.1);
                },
                None => {},
            }
        } else {
            match record_from_row(row) {
                Ok(rec) => {
                    ledger.commit(rec);
                },
                Err(e) => {
                    proof {
                        lemma_replay_extend_none(rv, i as int);
                    }
                    return Err(e);
                },
            }
        }
        i += 1;
    }
    proof {
        assert(rv.take(n as int) =~= rv);
    }
    Ok((ledger, marks))
}

/// When the row at `i` is an unreadable record row, no extension of the
/// prefix replays.
proof fn lemma_replay_extend_none(rv: Seq<Seq<Seq<char>>>, i: int)
    requires
        0 <= i < rv.len(),
        !is_status_row(rv[i]),
        !row_parses(rv[i]),
    ensures
        forall|m: int| i < m <= rv.len() ==> spec_replay(#[trigger] rv.take(m)) is None,
    decreases rv.len(),
{
    assert forall|m: int| i < m <= rv.len() implies spec_replay(#[trigger] rv.take(m)) is None by {
        lemma_replay_none_from(rv, i, m);
    }
}

proof fn lemma_replay_none_from(rv: Seq<Seq<Seq<char>>>, i: int, m: int)
    requires
        0 <= i < m <= rv.len(),
        !is_status_row(rv[i]),
        !row_parses(rv[i]),
    ensures
        spec_replay(rv.take(m)) is None,
    decreases m,
{
    if m == i + 1 {
        assert(rv.take(m).last() == rv[i]);
        assert(rv.take(m).drop_last() =~= rv.take(i));
    } else {
        lemma_replay_none_from(rv, i, m - 1);
        assert(rv.take(m).drop_last() =~= rv.take(m - 1));
    }
}

/// The rows that a run of records is written as, one row per record.
pub open spec fn written_rows(recs: Seq<RecordView>) -> Seq<Seq<Seq<char>>> {
    Seq::new(recs.len(), |i: int| crate::rows::record_row(recs[i]))
}

/// Rehydration inverts committing: replaying the rows written for a run of
/// records rebuilds exactly those records, each still unmarked, and no
/// status events — for every run of records the row format can round
/// (`row_round_wf`) whose written timestamps the calendar backend reads
/// back, which the formatting wrapper's contract guarantees for every
/// instant whose year has four digits.
pub proof fn lemma_replay_written_rows(recs: Seq<RecordView>)
    requires
        forall|i: int| 0 <= i < recs.len() ==> crate::rows::row_round_wf(#[trigger] recs[i]),
        forall|i: int|
            0 <= i < recs.len() ==> parsed_rfc3339(
                crate::rows::ts_text((#[trigger] recs[i]).timestamp),
            ) == Some(recs[i].timestamp),
    ensures
        spec_replay(written_rows(recs)) == Some((recs, Seq::<(u128, bool)>::empty())),
    decreases recs.len(),
{
    reveal_strlit("status");
    if recs.len() == 0 {
        assert(written_rows(recs) =~= Seq::<Seq<Seq<char>>>::empty());
        assert(recs =~= Seq::<RecordView>::empty());
    } else {
        let dl = recs.drop_last();
        lemma_replay_written_rows(dl);
        let rows = written_rows(recs);
        assert(rows.drop_last() =~= written_rows(dl));
        let last_row = rows.last();
        assert(last_row == crate::rows::record_row(recs.last()));
        crate::rows::lemma_record_row_roundtrip(recs.last());
        assert(!is_status_row(last_row)) by {
            assert(last_row[0] == crate::numtext::id_chars(recs.last().id));
            crate::numtext::lemma_id_text_len(recs.last().id);
            assert("status"@.len() == 6);
        }
        assert(dl.push(recs.last()) =~= recs);
    }
}

/// The records with each one's cleared mark merged in from the status
/// events, false when a record never had one.
pub open spec fn merge_status(recs: Seq<RecordView>, marks: Seq<(u128, bool)>) -> Seq<RecordView> {
    Seq::new(
        recs.len(),
        |i: int| RecordView { cleared: spec_cleared(marks, recs[i].id), ..recs[i] },
    )
}

/// Copies the records with their current status merged in.
fn merged_records(ledger: &Ledger, marks: &StatusTable) -> (r: Vec<Record>)
    ensures
        r.deep_view() == merge_status(ledger@, marks@),
{
    let recs = ledger.records();
    let n = recs.len();
    let mut out: Vec<Record> = Vec::new();
    let mut i: usize = 0;
    while i < n
        invariant
            i <= n,
            n == recs.len(),
            recs.deep_view() == ledger@,
            out.len() == i,
            forall|j: int| 0 <= j < i ==> out.deep_view()[j] == merge_status(ledger@, marks@)[j],
        decreases n - i,
    {
        let ghost before = out.deep_view();
        let mut rec = recs[i].clone();
        rec.cleared = marks.cleared_of(rec.id);
        out.push(rec);
        proof {
            assert forall|j: int| 0 <= j < i + 1 implies out.deep_view()[j] == merge_status(
                ledger@,
                marks@,
            )[j] by {
                if j < i {
                    assert(out.deep_view()[j] == before[j]);
                } else {
                    assert(out.deep_view()[j] == out@[j].deep_view());
                }
            }
        }
        i += 1;
    }
    proof {
        assert(out.deep_view() =~= merge_status(ledger@, marks@));
    }
    out
}

/// The trivial lock predicate: any value may be stored.
pub struct AnyValue;

impl<V> RwLockPredicate<V> for AnyValue {
    open spec fn inv(self, v: V) -> bool {
        true
    }
}

/// Permissioned, concurrency-safe facade over a ledger and a remote-backed
/// storage port. Each field sits behind its own lock; the contracts of the
/// pieces it orchestrates — `PermissionTable::check`, `Ledger`,
/// `replay_rows`, the row codec — carry the exact behaviour, since values
/// inside the locks cannot be spoken of across calls.
pub struct SharedLedger<S> {
    ledger: RwLock<Ledger, AnyValue>,
    service: RwLock<S, AnyValue>,
    sheet_id: String,
    signature: String,
    statuses: RwLock<StatusTable, AnyValue>,
    permissions: RwLock<PermissionTable, AnyValue>,
}

impl<S: CloudSpreadsheetService> SharedLedger<S> {
    /// Creates a fresh remote sheet and a shared ledger over it, granting
    /// `owner` write access. The per-ledger signature that salts every row
    /// hash is derived from the owner's name alone; fails when that name is
    /// blank, since no signature can be derived from it.
    pub fn new(service: S, owner: &str) -> (r: Result<SharedLedger<S>, SpreadsheetError>) {
        SharedLedger::new_with_password(service, owner, None)
    }

    /// As `new`, but folds a password into the per-ledger signature.
    pub fn new_with_password(service: S, owner: &str, password: Option<&str>) -> (r: Result<
        SharedLedger<S>,
        SpreadsheetError,
    >) {
        let signature = match generate_signature(owner, password) {
            Ok(sig) => sig,
            Err(_) => {
                return Err(SpreadsheetError::Permanent("ledger name must not be blank".to_owned()));
            },
        };
        let mut service = service;
        let sheet_id = match service.create_sheet("ledger") {
            Ok(id) => id,
            Err(e) => {
                return Err(e);
            },
        };
        let mut perms = PermissionTable::new();
        perms.grant(owner, Permission::Write);
        Ok(
            SharedLedger {
                ledger: RwLock::new(Ledger::new(), Ghost(AnyValue)),
                service: RwLock::new(service, Ghost(AnyValue)),
                sheet_id,
                signature,
                statuses: RwLock::new(StatusTable::new(), Ghost(AnyValue)),
                permissions: RwLock::new(perms, Ghost(AnyValue)),
            },
        )
    }

    /// Binds to an existing remote sheet, rebuilding the local ledger and
    /// status table by replaying every remote row, and granting `owner`
    /// write access. The replay is `replay_rows`, whose contract pins it.
    /// The per-ledger signature is derived as in `new`.
    pub fn from_sheet(service: S, sheet_id: &str, owner: &str) -> (r: Result<
        SharedLedger<S>,
        SpreadsheetError,
    >) {
        SharedLedger::from_sheet_with_password(service, sheet_id, owner, None)
    }

    /// As `from_sheet`, but folds a password into the per-ledger signature.
    pub fn from_sheet_with_password(
        service: S,
        sheet_id: &str,
        owner: &str,
        password: Option<&str>,
    ) -> (r: Result<SharedLedger<S>, SpreadsheetError>) {
        let signature = match generate_signature(owner, password) {
            Ok(sig) => sig,
            Err(_) => {
                return Err(SpreadsheetError::Permanent("ledger name must not be blank".to_owned()));
            },
        };
        let mut service = service;
        let rows = match service.list_rows(sheet_id) {
            Ok(rows) => rows,
            Err(e) => {
                return Err(e);
            },
        };
        let (ledger, marks) = match replay_rows(&rows) {
            Ok(out) => out,
            Err(e) => {
                return Err(e);
            },
        };
        let mut perms = PermissionTable::new();
        perms.grant(owner, Permission::Write);
        Ok(
            SharedLedger {
                ledger: RwLock::new(ledger, Ghost(AnyValue)),
                service: RwLock::new(service, Ghost(AnyValue)),
                sheet_id: sheet_id.to_owned(),
                signature,
                statuses: RwLock::new(marks, Ghost(AnyValue)),
                permissions: RwLock::new(perms, Ghost(AnyValue)),
            },
        )
    }

    /// The remote sheet this ledger writes to.
    pub closed spec fn sheet_ref(&self) -> Seq<char> {
        self.sheet_id@
    }

    /// The remote sheet identifier.
    pub fn sheet_id(&self) -> (r: &str)
        ensures
            r@ == self.sheet_ref(),
    {
        self.sheet_id.as_str()
    }

    /// Checks the caller's permission under the permission lock.
    fn check(&self, user: &str, required: Permission) -> Result<(), AccessError> {
        let handle = self.permissions.acquire_read();
        let r = handle.borrow().check(user, required);
        handle.release_read();
        r
    }

    /// Shares the remote sheet with `email` and, only when the remote share
    /// succeeded, grants the permission locally: requires Write of the
    /// calling user.
    pub fn share_with(&self, user: &str, email: &str, permission: Permission) -> Result<
        (),
        AccessError,
    > {
        match self.check(user, Permission::Write) {
            Ok(_) => {},
            Err(e) => {
                return Err(e);
            },
        }
        let (mut svc, sh) = self.service.acquire_write();
        let res = svc.share_sheet(self.sheet_id.as_str(), email);
        sh.release_write(svc);
        match res {
            Ok(_) => {},
            Err(_) => {
                return Err(AccessError::ShareFailed);
            },
        }
        let (mut perms, ph) = self.permissions.acquire_write();
        perms.grant(email, permission);
        ph.release_write(perms);
        Ok(())
    }

    /// Commits a record: requires Write; appends the record with its
    /// trailing row hash — salted by the per-ledger signature — to the
    /// remote sheet, and only on remote success commits it locally and
    /// records its initial pending status (`cleared = false`). A remote
    /// failure leaves local state untouched.
    pub fn commit(&self, user: &str, record: Record) -> Result<(), AccessError> {
        match self.check(user, Permission::Write) {
            Ok(_) => {},
            Err(e) => {
                return Err(e);
            },
        }
        let row = record.to_row_hashed(self.signature.as_str());
        let (mut svc, sh) = self.service.acquire_write();
        let res = svc.append_row(self.sheet_id.as_str(), row);
        sh.release_write(svc);
        match res {
            Ok(_) => {},
            Err(_) => {
                return Err(AccessError::ShareFailed);
            },
        }
        let id = record.id;
        let (mut led, lh) = self.ledger.acquire_write();
        led.commit(record);
        lh.release_write(led);
        let (mut marks, mh) = self.statuses.acquire_write();
        marks.set(id, false);
        mh.release_write(marks);
        Ok(())
    }

    /// Retrieves a record by id, merged with its current status: requires
    /// Read.
    pub fn get_record(&self, user: &str, id: u128) -> Result<Record, AccessError> {
        match self.check(user, Permission::Read) {
            Ok(_) => {},
            Err(e) => {
                return Err(e);
            },
        }
        let lh = self.ledger.acquire_read();
        let found = match lh.borrow().get_record(id) {
            Ok(rec) => Ok(rec.clone()),
            Err(e) => Err(e),
        };
        lh.release_read();
        let mut rec = match found {
            Ok(rec) => rec,
            Err(e) => {
                return Err(AccessError::Ledger(e));
            },
        };
        let mh = self.statuses.acquire_read();
        let cleared = mh.borrow().cleared_of(rec.id);
        mh.release_read();
        rec.cleared = cleared;
        Ok(rec)
    }

    /// All records merged with their current status: requires Read.
    pub fn records(&self, user: &str) -> Result<Vec<Record>, AccessError> {
        match self.check(user, Permission::Read) {
            Ok(_) => {},
            Err(e) => {
                return Err(e);
            },
        }
        let lh = self.ledger.acquire_read();
        let mh = self.statuses.acquire_read();
        let out = merged_records(lh.borrow(), mh.borrow());
        mh.release_read();
        lh.release_read();
        Ok(out)
    }

    /// Applies an adjustment: requires Write; fails with the ledger's own
    /// error when the original is absent. The adjustment, its reference set
    /// to the original, is committed like any record: appended to the
    /// remote sheet with its row hash, and only on remote success committed
    /// locally with an initial pending status.
    pub fn apply_adjustment(&self, user: &str, original_id: u128, adjustment: Record) -> Result<
        (),
        AccessError,
    > {
        match self.check(user, Permission::Write) {
            Ok(_) => {},
            Err(e) => {
                return Err(e);
            },
        }
        let lh = self.ledger.acquire_read();
        let known = lh.borrow().contains_record(original_id);
        lh.release_read();
        if !known {
            return Err(AccessError::Ledger(LedgerError::RecordNotFound));
        }
        let mut adjustment = adjustment;
        adjustment.reference_id = Some(original_id);
        let row = adjustment.to_row_hashed(self.signature.as_str());
        let (mut svc, sh) = self.service.acquire_write();
        let res = svc.append_row(self.sheet_id.as_str(), row);
        sh.release_write(svc);
        match res {
            Ok(_) => {},
            Err(_) => {
                return Err(AccessError::ShareFailed);
            },
        }
        let id = adjustment.id;
        let (mut led, lh) = self.ledger.acquire_write();
        let res = led.apply_adjustment(original_id, adjustment);
        lh.release_write(led);
        match res {
            Ok(_) => {},
            Err(e) => {
                return Err(AccessError::Ledger(e));
            },
        }
        let (mut marks, mh) = self.statuses.acquire_write();
        marks.set(id, false);
        mh.release_write(marks);
        Ok(())
    }

    /// Appends a status row remotely and, only on remote success, records
    /// the new cleared mark locally: requires Write.
    pub fn set_cleared(&self, user: &str, id: u128, cleared: bool) -> Result<(), AccessError> {
        match self.check(user, Permission::Write) {
            Ok(_) => {},
            Err(e) => {
                return Err(e);
            },
        }
        let row = crate::rows::status_row_for(id, cleared);
        let (mut svc, sh) = self.service.acquire_write();
        let res = svc.append_row(self.sheet_id.as_str(), row);
        sh.release_write(svc);
        match res {
            Ok(_) => {},
            Err(_) => {
                return Err(AccessError::ShareFailed);
            },
        }
        let (mut marks, mh) = self.statuses.acquire_write();
        marks.set(id, cleared);
        mh.release_write(marks);
        Ok(())
    }

    /// Marks a record reconciled: requires Write.
    pub fn mark_cleared(&self, user: &str, id: u128) -> Result<(), AccessError> {
        self.set_cleared(user, id, true)
    }

    /// Marks a record pending: requires Write.
    pub fn mark_pending(&self, user: &str, id: u128) -> Result<(), AccessError> {
        self.set_cleared(user, id, false)
    }

    /// Takes the storage port and the sheet identifier back out.
    pub fn into_parts(self) -> (S, String) {
        let SharedLedger { ledger, service, sheet_id, signature, statuses, permissions } = self;
        let _ = signature;
        let _ = ledger;
        let _ = statuses;
        let _ = permissions;
        (service.into_inner(), sheet_id)
    }
}

} // verus!
