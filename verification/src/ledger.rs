//! The append-only ledger: records are committed, never edited; the only
//! sanctioned correction path is an adjustment record referencing an
//! existing one.

use vstd::prelude::*;

use crate::record::{Record, RecordView};

verus! {

/// Errors from ledger lookups and mutation attempts.
#[derive(Debug, Clone, Copy, PartialEq, Eq, Structural)]
pub enum LedgerError {
    /// The requested record was not found.
    RecordNotFound,
    /// Records are immutable once committed and cannot be modified or deleted.
    ImmutableRecord,
}

/// Index of the first record carrying `id`, or -1 when none does.
pub open spec fn first_with_id(s: Seq<RecordView>, id: u128) -> int
    decreases s.len(),
{
    if s.len() == 0 {
        -1
    } else if s[0].id == id {
        0
    } else {
        let r = first_with_id(s.drop_first(), id);
        if r < 0 {
            -1
        } else {
            r + 1
        }
    }
}

/// Some record carries `id`.
pub open spec fn has_record(s: Seq<RecordView>, id: u128) -> bool {
    exists|j: int| 0 <= j < s.len() && (#[trigger] s[j]).id == id
}

/// `first_with_id` really is the least index carrying `id`, or -1 when none.
pub proof fn lemma_first_with_id(s: Seq<RecordView>, id: u128)
    ensures
        first_with_id(s, id) == -1 ==> !has_record(s, id),
        first_with_id(s, id) >= 0 ==> {
            &&& first_with_id(s, id) < s.len()
            &&& s[first_with_id(s, id)].id == id
            &&& forall|j: int| 0 <= j < first_with_id(s, id) ==> (#[trigger] s[j]).id != id
        },
    decreases s.len(),
{
    if s.len() > 0 && s[0].id != id {
        lemma_first_with_id(s.drop_first(), id);
        let r = first_with_id(s.drop_first(), id);
        assert(forall|j: int|
            0 <= j < s.drop_first().len() ==> s.drop_first()[j] == s[j + 1]);
        if r >= 0 {
            assert(s[r + 1].id == id);
            assert(forall|j: int| 1 <= j < r + 1 ==> s[j] == s.drop_first()[j - 1]);
        } else {
            if has_record(s, id) {
                let j = choose|j: int| 0 <= j < s.len() && (#[trigger] s[j]).id == id;
                assert(s.drop_first()[j - 1].id == id);
                assert(has_record(s.drop_first(), id));
            }
        }
    }
}

/// One step of the adjustment closure: the indices of records referencing
/// the root or any record already reached.
pub open spec fn desc_step(s: Seq<RecordView>, root: u128, prev: Set<int>) -> Set<int> {
    Set::new(
        |j: int|
            0 <= j < s.len() && (s[j].reference_id == Some(root) || exists|k: int|
                #![auto]
                prev.contains(k) && 0 <= k < s.len() && s[j].reference_id == Some(s[k].id)),
    )
}

/// The closure step iterated `fuel` times from the empty set.
pub open spec fn desc_iter(s: Seq<RecordView>, root: u128, fuel: nat) -> Set<int>
    decreases fuel,
{
    if fuel == 0 {
        Set::empty()
    } else {
        desc_step(s, root, desc_iter(s, root, (fuel - 1) as nat))
    }
}

/// The indices of all transitive adjustments of the record carrying `root`:
/// the closure step iterated once per record, which reaches every chain the
/// ledger can hold.
pub open spec fn descendants(s: Seq<RecordView>, root: u128) -> Set<int> {
    desc_iter(s, root, s.len())
}

/// The records at the indices of `d` below `n`, in ledger order.
pub open spec fn select_in(s: Seq<RecordView>, d: Set<int>, n: int) -> Seq<RecordView>
    decreases n,
{
    if n <= 0 {
        Seq::empty()
    } else if d.contains(n - 1) {
        select_in(s, d, n - 1).push(s[n - 1])
    } else {
        select_in(s, d, n - 1)
    }
}

/// `r` inserted into `s` after every element whose timestamp does not
/// exceed `r`'s: the insertion step of a stable sort.
pub open spec fn insert_by_ts(s: Seq<RecordView>, r: RecordView) -> Seq<RecordView>
    decreases s.len(),
{
    if s.len() == 0 {
        seq![r]
    } else if s.last().timestamp <= r.timestamp {
        s.push(r)
    } else {
        insert_by_ts(s.drop_last(), r).push(s.last())
    }
}

/// `s` stably sorted by timestamp, ascending: elements with equal
/// timestamps keep their relative order.
pub open spec fn sort_by_ts(s: Seq<RecordView>) -> Seq<RecordView>
    decreases s.len(),
{
    if s.len() == 0 {
        Seq::empty()
    } else {
        insert_by_ts(sort_by_ts(s.drop_last()), s.last())
    }
}

/// Ascending by timestamp throughout.
pub open spec fn sorted_by_ts(s: Seq<RecordView>) -> bool {
    forall|i: int, j: int| 0 <= i < j < s.len() ==> s[i].timestamp <= s[j].timestamp
}

/// Inserting into a sorted run keeps it sorted and adds exactly the new
/// record.
proof fn lemma_insert_props(s: Seq<RecordView>, r: RecordView)
    requires
        sorted_by_ts(s),
    ensures
        sorted_by_ts(insert_by_ts(s, r)),
        insert_by_ts(s, r).to_multiset() == s.to_multiset().insert(r),
    decreases s.len(),
{
    broadcast use vstd::seq_lib::group_to_multiset_ensures;

    if s.len() == 0 {
        assert(insert_by_ts(s, r) == seq![r]);
        assert(seq![r] =~= Seq::<RecordView>::empty().push(r));
        assert(seq![r].to_multiset() =~= s.to_multiset().insert(r));
    } else if s.last().timestamp <= r.timestamp {
        let p = s.push(r);
        assert forall|i: int, j: int| 0 <= i < j < p.len() implies p[i].timestamp
            <= p[j].timestamp by {
            if j < s.len() {
            } else {
                assert(p[i] == s[i]);
                assert(s[i].timestamp <= s.last().timestamp);
            }
        }
    } else {
        let dl = s.drop_last();
        assert(sorted_by_ts(dl)) by {
            assert(forall|k: int| 0 <= k < dl.len() ==> dl[k] == s[k]);
        }
        lemma_insert_props(dl, r);
        let q0 = insert_by_ts(dl, r);
        let q = q0.push(s.last());
        assert(insert_by_ts(s, r) == q);
        // The multiset: both inserts, in either order.
        assert(s =~= dl.push(s.last()));
        assert(s.to_multiset() == dl.to_multiset().insert(s.last()));
        assert(q.to_multiset() == dl.to_multiset().insert(r).insert(s.last()));
        assert(dl.to_multiset().insert(r).insert(s.last()) =~= dl.to_multiset().insert(
            s.last(),
        ).insert(r));
        // Sortedness: everything inserted so far stays at or before the last.
        assert forall|i: int, j: int| 0 <= i < j < q.len() implies q[i].timestamp
            <= q[j].timestamp by {
            if j < q0.len() {
            } else {
                assert(q[i] == q0[i]);
                assert(q0.contains(q0[i]));
                assert(q0.to_multiset().count(q0[i]) > 0);
                if q0[i] == r {
                    assert(q0[i].timestamp <= s.last().timestamp);
                } else {
                    assert(dl.to_multiset().count(q0[i]) > 0);
                    assert(dl.contains(q0[i]));
                    let k = choose|k: int| 0 <= k < dl.len() && dl[k] == q0[i];
                    assert(dl[k] == s[k]);
                    assert(s[k].timestamp <= s.last().timestamp);
                }
            }
        }
    }
}

/// The stable sort is sorted ascending and a permutation of its input.
pub proof fn lemma_sort_props(s: Seq<RecordView>)
    ensures
        sorted_by_ts(sort_by_ts(s)),
        sort_by_ts(s).to_multiset() == s.to_multiset(),
    decreases s.len(),
{
    broadcast use vstd::seq_lib::group_to_multiset_ensures;

    if s.len() > 0 {
        let dl = s.drop_last();
        lemma_sort_props(dl);
        lemma_insert_props(sort_by_ts(dl), s.last());
        assert(s =~= dl.push(s.last()));
        assert(s.to_multiset() == dl.to_multiset().insert(s.last()));
    }
}

/// The selection holds exactly the records at the chosen indices.
pub proof fn lemma_select_in_membership(s: Seq<RecordView>, d: Set<int>, n: int)
    requires
        0 <= n <= s.len(),
    ensures
        forall|rv: RecordView|
            #[trigger] select_in(s, d, n).to_multiset().count(rv) > 0 <==> exists|j: int|
                0 <= j < n && d.contains(j) && s[j] == rv,
    decreases n,
{
    broadcast use vstd::seq_lib::group_to_multiset_ensures;

    if n > 0 {
        lemma_select_in_membership(s, d, n - 1);
        let prev = select_in(s, d, n - 1);
        let cur = select_in(s, d, n);
        assert forall|rv: RecordView| #[trigger] cur.to_multiset().count(rv) > 0 implies exists|
            j: int,
        | 0 <= j < n && d.contains(j) && s[j] == rv by {
            if d.contains(n - 1) {
                assert(cur == prev.push(s[n - 1]));
                if rv == s[n - 1] {
                    assert(d.contains(n - 1) && s[n - 1] == rv);
                } else {
                    assert(prev.to_multiset().count(rv) > 0);
                    let j = choose|j: int| 0 <= j < n - 1 && d.contains(j) && s[j] == rv;
                    assert(0 <= j < n && d.contains(j) && s[j] == rv);
                }
            } else {
                assert(cur == prev);
                let j = choose|j: int| 0 <= j < n - 1 && d.contains(j) && s[j] == rv;
                assert(0 <= j < n && d.contains(j) && s[j] == rv);
            }
        }
        assert forall|rv: RecordView|
            (exists|j: int| 0 <= j < n && d.contains(j) && s[j] == rv) implies #[trigger] cur.to_multiset().count(
            rv,
        ) > 0 by {
            let j = choose|j: int| 0 <= j < n && d.contains(j) && s[j] == rv;
            if d.contains(n - 1) {
                assert(cur == prev.push(s[n - 1]));
                if j == n - 1 {
                } else {
                    assert(prev.to_multiset().count(rv) > 0);
                }
            } else {
                assert(cur == prev);
                assert(j != n - 1);
                assert(prev.to_multiset().count(rv) > 0);
            }
        }
    }
}

/// What the adjustment history holds, in the words of its reading: it is
/// sorted ascending by timestamp, and a record appears in it exactly when
/// it stands at an index of the adjustment closure below `root` — nothing
/// else appears.
pub proof fn lemma_adjustment_history_shape(s: Seq<RecordView>, root: u128)
    ensures
        sorted_by_ts(sort_by_ts(select_in(s, descendants(s, root), s.len() as int))),
        forall|rv: RecordView|
            #[trigger] sort_by_ts(
                select_in(s, descendants(s, root), s.len() as int),
            ).to_multiset().count(rv) > 0 <==> exists|j: int|
                0 <= j < s.len() && descendants(s, root).contains(j) && s[j] == rv,
{
    let sel = select_in(s, descendants(s, root), s.len() as int);
    lemma_sort_props(sel);
    lemma_select_in_membership(s, descendants(s, root), s.len() as int);
}

/// Inserting lands `r` exactly at the first position, counted from the
/// right, whose suffix holds only later timestamps.
proof fn lemma_insert_at(s: Seq<RecordView>, r: RecordView, k: int)
    requires
        0 <= k <= s.len(),
        forall|j: int| k <= j < s.len() ==> (#[trigger] s[j]).timestamp > r.timestamp,
        k > 0 ==> s[k - 1].timestamp <= r.timestamp,
    ensures
        insert_by_ts(s, r) == s.take(k) + seq![r] + s.skip(k),
    decreases s.len(),
{
    if k == s.len() {
        if s.len() == 0 {
            assert(insert_by_ts(s, r) =~= s.take(k) + seq![r] + s.skip(k));
        } else {
            assert(s.last().timestamp <= r.timestamp);
            assert(s.push(r) =~= s.take(k) + seq![r] + s.skip(k));
        }
    } else {
        assert(s.last().timestamp > r.timestamp);
        let dl = s.drop_last();
        assert(forall|j: int| k <= j < dl.len() ==> (#[trigger] dl[j]).timestamp > r.timestamp);
        if k > 0 {
            assert(dl[k - 1] == s[k - 1]);
        }
        lemma_insert_at(dl, r, k);
        assert((dl.take(k) + seq![r] + dl.skip(k)).push(s.last()) =~= s.take(k) + seq![r] + s.skip(
            k,
        ));
    }
}

/// Inserts `rec` into the timestamp-sorted vector `out`, after any equal
/// timestamps.
fn insert_sorted(out: &mut Vec<Record>, rec: Record)
    ensures
        final(out).deep_view() == insert_by_ts(old(out).deep_view(), rec@),
{
    let ghost s = out.deep_view();
    let ghost rv = rec@;
    let mut k = out.len();
    while k > 0 && out[k - 1].timestamp > rec.timestamp
        invariant
            k <= out.len(),
            out.deep_view() == s,
            out.len() == s.len(),
            rv == rec@,
            forall|j: int| k <= j < s.len() ==> (#[trigger] s[j]).timestamp > rv.timestamp,
        decreases k,
    {
        proof {
            assert(s[k - 1] == out@[k - 1]@);
            assert(s[k - 1].timestamp > rv.timestamp);
        }
        k -= 1;
    }
    proof {
        if k > 0 {
            assert(s[k - 1].timestamp <= rv.timestamp);
        }
        lemma_insert_at(s, rv, k as int);
    }
    out.insert(k, rec);
    proof {
        assert(out.deep_view() =~= s.take(k as int) + seq![rv] + s.skip(k as int));
    }
}

/// Stably sorts the records by timestamp, ascending.
fn sort_records_by_timestamp(v: Vec<Record>) -> (r: Vec<Record>)
    ensures
        r.deep_view() == sort_by_ts(v.deep_view()),
{
    let ghost orig = v.deep_view();
    let mut v = v;
    let mut out: Vec<Record> = Vec::new();
    let mut i: usize = 0;
    let n0 = v.len();
    proof {
        assert(orig.len() == n0);
        assert(orig.take(0) =~= Seq::<RecordView>::empty());
        assert(v.deep_view() =~= orig.skip(0));
    }
    while v.len() > 0
        invariant
            orig.len() <= usize::MAX,
            i + v.len() == orig.len(),
            v.deep_view() == orig.skip(i as int),
            out.deep_view() == sort_by_ts(orig.take(i as int)),
        decreases v.len(),
    {
        let ghost before = v.deep_view();
        let rec = v.remove(0);
        proof {
            assert(rec@ == before[0]);
            assert(before[0] == orig[i as int]);
            assert(v.deep_view() =~= orig.skip(i + 1)) by {
                assert(v.deep_view() =~= before.drop_first());
            }
            assert(orig.take(i + 1).drop_last() =~= orig.take(i as int));
            assert(orig.take(i + 1).last() == orig[i as int]);
        }
        insert_sorted(&mut out, rec);
        i += 1;
    }
    proof {
        assert(orig.take(i as int) =~= orig);
    }
    out
}

/// Adjustment chains are reported in full and in timestamp order: in a
/// ledger holding an original `o`, an adjustment `a1` of `o` and an
/// adjustment `a2` of `a1`, the history of `o` is `[a1, a2]` and the
/// history of `a1` is `[a2]`, as `adjustment_history` reports them.
pub proof fn lemma_adjustment_chain(o: RecordView, a1: RecordView, a2: RecordView)
    requires
        o.reference_id is None,
        a1.reference_id == Some(o.id),
        a2.reference_id == Some(a1.id),
        o.id != a1.id,
        o.id != a2.id,
        a1.id != a2.id,
        a1.timestamp <= a2.timestamp,
    ensures
        sort_by_ts(select_in(seq![o, a1, a2], descendants(seq![o, a1, a2], o.id), 3)) == seq![
            a1,
            a2,
        ],
        sort_by_ts(select_in(seq![o, a1, a2], descendants(seq![o, a1, a2], a1.id), 3)) == seq![a2],
{
    let s = seq![o, a1, a2];
    assert(s.len() == 3);

    // The closure below o: a1 enters first, then a2 through a1.
    let e0 = desc_iter(s, o.id, 0);
    let e1 = desc_iter(s, o.id, 1);
    let e2 = desc_iter(s, o.id, 2);
    let e3 = desc_iter(s, o.id, 3);
    assert(e1 == desc_step(s, o.id, e0));
    assert(e1 =~= set![1int]) by {
        assert(s[1].reference_id == Some(o.id));
        assert(!e0.contains(0int) && !e0.contains(1int) && !e0.contains(2int));
    }
    assert(e2 =~= set![1int, 2int]) by {
        assert(desc_step(s, o.id, e1).contains(2int)) by {
            assert(e1.contains(1int) && 0 <= 1int < s.len() && s[2].reference_id == Some(s[1].id));
        }
        assert(desc_step(s, o.id, e1).contains(1int));
        assert(!desc_step(s, o.id, e1).contains(0int)) by {
            assert(forall|k: int| #![auto] e1.contains(k) ==> k == 1);
        }
    }
    assert(e3 =~= set![1int, 2int]) by {
        assert(desc_step(s, o.id, e2).contains(2int)) by {
            assert(e2.contains(1int) && 0 <= 1int < s.len() && s[2].reference_id == Some(s[1].id));
        }
        assert(desc_step(s, o.id, e2).contains(1int));
        assert(!desc_step(s, o.id, e2).contains(0int)) by {
            assert(forall|k: int| #![auto] e2.contains(k) ==> k == 1 || k == 2);
        }
    }
    assert(descendants(s, o.id) == e3);
    let sel = select_in(s, e3, 3);
    assert(sel == seq![a1, a2]) by {
        assert(select_in(s, e3, 0) == Seq::<RecordView>::empty());
        assert(!e3.contains(0int));
        assert(select_in(s, e3, 1) == select_in(s, e3, 0));
        assert(select_in(s, e3, 2) == select_in(s, e3, 1).push(s[1]));
        assert(select_in(s, e3, 3) == select_in(s, e3, 2).push(s[2]));
        assert(Seq::<RecordView>::empty().push(a1).push(a2) =~= seq![a1, a2]);
    }
    lemma_sort_pair(a1, a2);

    // The closure below a1 holds a2 alone.
    let f0 = desc_iter(s, a1.id, 0);
    let f1 = desc_iter(s, a1.id, 1);
    let f2 = desc_iter(s, a1.id, 2);
    let f3 = desc_iter(s, a1.id, 3);
    assert(f1 =~= set![2int]) by {
        assert(s[2].reference_id == Some(a1.id));
        assert(!f0.contains(0int) && !f0.contains(1int) && !f0.contains(2int));
    }
    assert(f2 =~= set![2int]) by {
        assert(desc_step(s, a1.id, f1).contains(2int));
        assert(forall|k: int| #![auto] f1.contains(k) ==> k == 2);
        assert(s[2].id == a2.id && a2.id != o.id);
        assert(!desc_step(s, a1.id, f1).contains(0int));
        assert(!desc_step(s, a1.id, f1).contains(1int)) by {
            if desc_step(s, a1.id, f1).contains(1int) {
                assert(s[1].reference_id == Some(o.id));
            }
        }
    }
    assert(f3 =~= set![2int]) by {
        assert(desc_step(s, a1.id, f2).contains(2int));
        assert(forall|k: int| #![auto] f2.contains(k) ==> k == 2);
        assert(!desc_step(s, a1.id, f2).contains(0int));
        assert(!desc_step(s, a1.id, f2).contains(1int)) by {
            if desc_step(s, a1.id, f2).contains(1int) {
                assert(s[1].reference_id == Some(o.id));
            }
        }
    }
    assert(descendants(s, a1.id) == f3);
    let sel2 = select_in(s, f3, 3);
    assert(sel2 == seq![a2]) by {
        assert(select_in(s, f3, 0) == Seq::<RecordView>::empty());
        assert(select_in(s, f3, 1) == select_in(s, f3, 0));
        assert(select_in(s, f3, 2) == select_in(s, f3, 1));
        assert(select_in(s, f3, 3) == select_in(s, f3, 2).push(s[2]));
        assert(Seq::<RecordView>::empty().push(a2) =~= seq![a2]);
    }
    assert(sort_by_ts(seq![a2]) == seq![a2]) by {
        lemma_sort_single(a2);
    }
}

/// Sorting a single record returns it alone.
proof fn lemma_sort_single(r: RecordView)
    ensures
        sort_by_ts(seq![r]) == seq![r],
{
    let s = seq![r];
    assert(s.drop_last() =~= Seq::<RecordView>::empty());
    assert(sort_by_ts(s.drop_last()) == Seq::<RecordView>::empty());
    assert(insert_by_ts(Seq::<RecordView>::empty(), r) == seq![r]);
}

/// Sorting a pair already in timestamp order keeps it.
proof fn lemma_sort_pair(x: RecordView, y: RecordView)
    requires
        x.timestamp <= y.timestamp,
    ensures
        sort_by_ts(seq![x, y]) == seq![x, y],
{
    let s = seq![x, y];
    assert(s.drop_last() =~= seq![x]);
    lemma_sort_single(x);
    assert(sort_by_ts(s) == insert_by_ts(seq![x], y));
    assert(seq![x].last() == x);
    assert(insert_by_ts(seq![x], y) == seq![x].push(y));
    assert(seq![x].push(y) =~= seq![x, y]);
}

/// In-memory append-only store of records.
#[derive(Debug)]
pub struct Ledger {
    records: Vec<Record>,
}

impl View for Ledger {
    type V = Seq<RecordView>;

    closed spec fn view(&self) -> Seq<RecordView> {
        self.records.deep_view()
    }
}

impl Default for Ledger {
    /// The empty ledger.
    fn default() -> (l: Ledger)
        ensures
            l@ == Seq::<RecordView>::empty(),
    {
        Ledger::new()
    }
}

impl Ledger {
    /// Creates an empty ledger.
    pub fn new() -> (l: Ledger)
        ensures
            l@ == Seq::<RecordView>::empty(),
    {
        let l = Ledger { records: Vec::new() };
        proof {
            assert(l@ =~= Seq::<RecordView>::empty());
        }
        l
    }

    /// Commits a record: the ledger grows by exactly that record, at the end.
    pub fn commit(&mut self, record: Record)
        ensures
            final(self)@ == old(self)@.push(record@),
    {
        let ghost prev = self@;
        let ghost rv = record@;
        self.records.push(record);
        proof {
            assert(self@ =~= prev.push(rv));
        }
    }

    /// Appends a record; prefer `commit`.
    pub fn append(&mut self, record: Record)
        ensures
            final(self)@ == old(self)@.push(record@),
    {
        self.commit(record);
    }

    /// All committed records, in commit order.
    pub fn records(&self) -> (r: &Vec<Record>)
        ensures
            r.deep_view() == self@,
    {
        &self.records
    }

    /// Does some record carry `id`?
    pub fn contains_record(&self, id: u128) -> (r: bool)
        ensures
            r == has_record(self@, id),
    {
        let n = self.records.len();
        let mut i: usize = 0;
        while i < n
            invariant
                i <= n,
                n == self.records.len(),
                self@.len() == n,
                forall|j: int| 0 <= j < i ==> (#[trigger] self@[j]).id != id,
            decreases n - i,
        {
            if self.records[i].id == id {
                assert(self@[i as int].id == id);
                return true;
            }
            i += 1;
        }
        false
    }

    /// Retrieves the first record carrying `id`; fails with `RecordNotFound`
    /// exactly when no record does.
    pub fn get_record(&self, id: u128) -> (r: Result<&Record, LedgerError>)
        ensures
            r is Ok <==> has_record(self@, id),
            r matches Ok(rec) ==> {
                &&& first_with_id(self@, id) >= 0
                &&& rec@ == self@[first_with_id(self@, id)]
            },
            r matches Err(e) ==> e == LedgerError::RecordNotFound,
    {
        let n = self.records.len();
        let mut i: usize = 0;
        while i < n
            invariant
                i <= n,
                n == self.records.len(),
                self@.len() == n,
                forall|j: int| 0 <= j < i ==> (#[trigger] self@[j]).id != id,
            decreases n - i,
        {
            if self.records[i].id == id {
                proof {
                    lemma_first_with_id(self@, id);
                    assert(self@[i as int].id == id);
                    let f = first_with_id(self@, id);
                    if f == -1 {
                        assert(has_record(self@, id));
                        assert(false);
                    }
                    if f < i {
                        assert(self@[f].id != id);
                        assert(false);
                    }
                    if f > i {
                        assert(self@[i as int].id != id);
                        assert(false);
                    }
                }
                return Ok(&self.records[i]);
            }
            i += 1;
        }
        proof {
            if has_record(self@, id) {
                let j = choose|j: int| 0 <= j < self@.len() && (#[trigger] self@[j]).id == id;
                assert(self@[j].id != id);
            }
        }
        Err(LedgerError::RecordNotFound)
    }

    /// Applies an adjustment: when a record carrying `original_id` exists,
    /// the adjustment is committed with its `reference_id` overwritten to
    /// name the original; otherwise the ledger is unchanged and the call
    /// fails with `RecordNotFound`.
    pub fn apply_adjustment(&mut self, original_id: u128, adjustment: Record) -> (r: Result<
        (),
        LedgerError,
    >)
        ensures
            r is Ok <==> has_record(old(self)@, original_id),
            r is Ok ==> final(self)@ == old(self)@.push(
                RecordView { reference_id: Some(original_id), ..adjustment@ },
            ),
            r is Err ==> final(self)@ == old(self)@ && r == Err::<(), LedgerError>(
                LedgerError::RecordNotFound,
            ),
    {
        if !self.contains_record(original_id) {
            return Err(LedgerError::RecordNotFound);
        }
        let mut adjustment = adjustment;
        adjustment.reference_id = Some(original_id);
        self.commit(adjustment);
        Ok(())
    }

    /// Does some record marked reached carry `rid`?
    fn references_included(&self, included: &Vec<bool>, rid: u128) -> (r: bool)
        requires
            included.len() == self@.len(),
        ensures
            r == exists|k: int|
                #![auto]
                0 <= k < self@.len() && included@[k] && self@[k].id == rid,
    {
        let n = self.records.len();
        let mut k: usize = 0;
        while k < n
            invariant
                k <= n,
                n == self.records.len(),
                self@.len() == n,
                included.len() == n,
                forall|kk: int| #![auto] 0 <= kk < k ==> !(included@[kk] && self@[kk].id == rid),
            decreases n - k,
        {
            if included[k] && self.records[k].id == rid {
                assert(included@[k as int] && self@[k as int].id == rid);
                return true;
            }
            k += 1;
        }
        false
    }

    /// All adjustments referencing the record carrying `id`, transitively,
    /// stably sorted by timestamp from oldest to newest.
    pub fn adjustment_history(&self, id: u128) -> (r: Vec<Record>)
        ensures
            r.deep_view() == sort_by_ts(
                select_in(self@, descendants(self@, id), self@.len() as int),
            ),
    {
        let n = self.records.len();
        let mut cur: Vec<bool> = vec![false; n];
        proof {
            assert(forall|j: int| #![auto] 0 <= j < n ==> cur@[j] == false);
        }
        let mut round: usize = 0;
        while round < n
            invariant
                round <= n,
                n == self.records.len(),
                self@.len() == n,
                cur.len() == n,
                forall|j: int|
                    #![auto]
                    0 <= j < n ==> cur@[j] == desc_iter(self@, id, round as nat).contains(j),
            decreases n - round,
        {
            let ghost prev = desc_iter(self@, id, round as nat);
            let mut next: Vec<bool> = Vec::new();
            let mut j: usize = 0;
            while j < n
                invariant
                    j <= n,
                    next.len() == j,
                    n == self.records.len(),
                    self@.len() == n,
                    cur.len() == n,
                    forall|jj: int| #![auto] 0 <= jj < n ==> cur@[jj] == prev.contains(jj),
                    forall|jj: int|
                        #![auto]
                        0 <= jj < j ==> next@[jj] == desc_step(self@, id, prev).contains(jj),
                decreases n - j,
            {
                let hit: bool = match self.records[j].reference_id {
                    Some(rid) => {
                        if rid == id {
                            true
                        } else {
                            self.references_included(&cur, rid)
                        }
                    },
                    None => false,
                };
                proof {
                    let sv = self@;
                    if hit {
                        if sv[j as int].reference_id != Some(id) {
                            let k = choose|k: int|
                                #![auto]
                                0 <= k < sv.len() && cur@[k] && sv[k].id
                                    == sv[j as int].reference_id->0;
                            assert(prev.contains(k) && sv[j as int].reference_id == Some(sv[k].id));
                        }
                        assert(desc_step(sv, id, prev).contains(j as int));
                    } else {
                        if desc_step(sv, id, prev).contains(j as int) {
                            if sv[j as int].reference_id != Some(id) {
                                let k = choose|k: int|
                                    #![auto]
                                    prev.contains(k) && 0 <= k < sv.len() && sv[
                                        j as int
                                    ].reference_id == Some(sv[k].id);
                                assert(cur@[k] && sv[k].id == sv[j as int].reference_id->0);
                            }
                            assert(false);
                        }
                    }
                }
                next.push(hit);
                j += 1;
            }
            cur = next;
            round += 1;
        }
        let ghost d = descendants(self@, id);
        let mut picked: Vec<Record> = Vec::new();
        let mut j: usize = 0;
        proof {
            assert(picked.deep_view() =~= select_in(self@, d, 0));
        }
        while j < n
            invariant
                j <= n,
                n == self.records.len(),
                self@.len() == n,
                cur.len() == n,
                d == descendants(self@, id),
                forall|jj: int| #![auto] 0 <= jj < n ==> cur@[jj] == d.contains(jj),
                picked.deep_view() == select_in(self@, d, j as int),
            decreases n - j,
        {
            let ghost before = picked.deep_view();
            if cur[j] {
                picked.push(self.records[j].clone());
                proof {
                    assert(picked.deep_view() =~= before.push(self@[j as int]));
                }
            }
            j += 1;
        }
        sort_records_by_timestamp(picked)
    }

    /// Attempts to modify a record. Always fails, leaving the ledger
    /// unchanged: committed records are immutable.
    pub fn modify_record(&mut self, id: u128, record: Record) -> (r: Result<(), LedgerError>)
        ensures
            r == Err::<(), LedgerError>(LedgerError::ImmutableRecord),
            final(self)@ == old(self)@,
    {
        let _ = id;
        let _ = record;
        Err(LedgerError::ImmutableRecord)
    }

    /// Attempts to delete a record. Always fails, leaving the ledger
    /// unchanged: committed records are immutable.
    pub fn delete_record(&mut self, id: u128) -> (r: Result<(), LedgerError>)
        ensures
            r == Err::<(), LedgerError>(LedgerError::ImmutableRecord),
            final(self)@ == old(self)@,
    {
        let _ = id;
        Err(LedgerError::ImmutableRecord)
    }
}

} // verus!
