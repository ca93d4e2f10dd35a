//! Batching and caching decorator: buffers appended rows into per-sheet
//! batches flushed in one call, and caches reads, optionally bounded with
//! least-recently-used eviction. Buffered writes are invisible to readers
//! until flushed, and the cache is never invalidated by writes.

use vstd::prelude::*;

use crate::port::{CloudSpreadsheetService, SpreadsheetError};
use crate::record::clone_strings;
use crate::textutil::str_eq;

verus! {

/// Policy used to evict cached rows.
#[derive(Debug, Clone, Copy, PartialEq, Eq, Structural)]
pub enum EvictionPolicy {
    /// No eviction: the cache grows without bounds.
    Unbounded,
    /// Keep at most this many rows, evicting the least recently used.
    Lru(usize),
}

/// The mathematical value of one pending batch.
pub ghost struct PendingView {
    pub sheet: Seq<char>,
    pub rows: Seq<Seq<Seq<char>>>,
}

/// The mathematical value of one cached row.
pub ghost struct CacheEntryView {
    pub sheet: Seq<char>,
    pub index: int,
    pub row: Seq<Seq<char>>,
}

#[derive(Debug)]
struct Batch {
    sheet: String,
    rows: Vec<Vec<String>>,
}

impl View for Batch {
    type V = PendingView;

    closed spec fn view(&self) -> PendingView {
        PendingView { sheet: self.sheet@, rows: self.rows.deep_view() }
    }
}

impl DeepView for Batch {
    type V = PendingView;

    closed spec fn deep_view(&self) -> PendingView {
        self@
    }
}

#[derive(Debug)]
struct CacheEntry {
    sheet: String,
    index: usize,
    row: Vec<String>,
}

impl View for CacheEntry {
    type V = CacheEntryView;

    closed spec fn view(&self) -> CacheEntryView {
        CacheEntryView { sheet: self.sheet@, index: self.index as int, row: self.row.deep_view() }
    }
}

impl DeepView for CacheEntry {
    type V = CacheEntryView;

    closed spec fn deep_view(&self) -> CacheEntryView {
        self@
    }
}

/// The rows pending for a sheet, if any.
pub open spec fn pending_lookup(batches: Seq<PendingView>, sheet: Seq<char>) -> Option<
    Seq<Seq<Seq<char>>>,
>
    decreases batches.len(),
{
    if batches.len() == 0 {
        None
    } else if batches[0].sheet == sheet {
        Some(batches[0].rows)
    } else {
        pending_lookup(batches.drop_first(), sheet)
    }
}

/// The batches with the rows of `sheet` replaced, or appended when absent.
pub open spec fn pending_upsert(
    batches: Seq<PendingView>,
    sheet: Seq<char>,
    rows: Seq<Seq<Seq<char>>>,
) -> Seq<PendingView>
    decreases batches.len(),
{
    if batches.len() == 0 {
        seq![PendingView { sheet, rows }]
    } else if batches[0].sheet == sheet {
        batches.update(0, PendingView { sheet, rows })
    } else {
        seq![batches[0]] + pending_upsert(batches.drop_first(), sheet, rows)
    }
}

/// The batches with the batch of `sheet` removed, when present.
pub open spec fn pending_remove(batches: Seq<PendingView>, sheet: Seq<char>) -> Seq<PendingView>
    decreases batches.len(),
{
    if batches.len() == 0 {
        batches
    } else if batches[0].sheet == sheet {
        batches.drop_first()
    } else {
        seq![batches[0]] + pending_remove(batches.drop_first(), sheet)
    }
}

/// The cached row under `(sheet, index)`, if any.
pub open spec fn cache_lookup(
    entries: Seq<CacheEntryView>,
    sheet: Seq<char>,
    index: int,
) -> Option<Seq<Seq<char>>>
    decreases entries.len(),
{
    if entries.len() == 0 {
        None
    } else if entries[0].sheet == sheet && entries[0].index == index {
        Some(entries[0].row)
    } else {
        cache_lookup(entries.drop_first(), sheet, index)
    }
}

/// The keys of the cached rows, in cache order.
pub open spec fn cache_keys(entries: Seq<CacheEntryView>) -> Seq<(Seq<char>, int)> {
    Seq::new(entries.len(), |i: int| (entries[i].sheet, entries[i].index))
}

/// Index of the first recency entry carrying `key`, or -1 when none does.
pub open spec fn first_key(recency: Seq<(Seq<char>, int)>, key: (Seq<char>, int)) -> int
    decreases recency.len(),
{
    if recency.len() == 0 {
        -1
    } else if recency[0] == key {
        0
    } else {
        let r = first_key(recency.drop_first(), key);
        if r < 0 {
            -1
        } else {
            r + 1
        }
    }
}

/// `key` moved to the most-recent end: its first occurrence removed and the
/// key pushed; untouched when absent.
pub open spec fn touch(
    recency: Seq<(Seq<char>, int)>,
    key: (Seq<char>, int),
) -> Seq<(Seq<char>, int)> {
    let j = first_key(recency, key);
    if j < 0 {
        recency
    } else {
        recency.remove(j).push(key)
    }
}

/// The entries with the first one keyed `key` removed; untouched when none
/// is.
pub open spec fn cache_remove_key(
    entries: Seq<CacheEntryView>,
    key: (Seq<char>, int),
) -> Seq<CacheEntryView>
    decreases entries.len(),
{
    if entries.len() == 0 {
        entries
    } else if entries[0].sheet == key.0 && entries[0].index == key.1 {
        entries.drop_first()
    } else {
        seq![entries[0]] + cache_remove_key(entries.drop_first(), key)
    }
}

/// `first_key` really is the least index carrying `key`, or -1 when none.
proof fn lemma_first_key(recency: Seq<(Seq<char>, int)>, key: (Seq<char>, int))
    ensures
        first_key(recency, key) == -1 ==> (forall|j: int|
            0 <= j < recency.len() ==> recency[j] != key),
        first_key(recency, key) >= 0 ==> {
            &&& first_key(recency, key) < recency.len()
            &&& recency[first_key(recency, key)] == key
            &&& forall|j: int| 0 <= j < first_key(recency, key) ==> recency[j] != key
        },
    decreases recency.len(),
{
    if recency.len() > 0 && recency[0] != key {
        lemma_first_key(recency.drop_first(), key);
        let t = recency.drop_first();
        assert(forall|j: int| 0 <= j < t.len() ==> t[j] == recency[j + 1]);
        let r = first_key(t, key);
        if r >= 0 {
            assert(forall|j: int| 1 <= j < r + 1 ==> recency[j] == t[j - 1]);
        } else {
            assert(forall|j: int| 1 <= j < recency.len() ==> recency[j] == t[j - 1]);
        }
    }
}

/// Removing at the first index keyed `key` is `cache_remove_key`.
proof fn lemma_cache_remove_at(entries: Seq<CacheEntryView>, key: (Seq<char>, int), k: int)
    requires
        0 <= k < entries.len(),
        entries[k].sheet == key.0,
        entries[k].index == key.1,
        forall|j: int|
            0 <= j < k ==> !((#[trigger] entries[j]).sheet == key.0 && entries[j].index == key.1),
    ensures
        cache_remove_key(entries, key) == entries.remove(k),
    decreases k,
{
    if k == 0 {
        assert(entries.drop_first() =~= entries.remove(0));
    } else {
        let t = entries.drop_first();
        assert(forall|j: int| 0 <= j < t.len() ==> t[j] == entries[j + 1]);
        assert(forall|j: int|
            0 <= j < k - 1 ==> !((#[trigger] t[j]).sheet == key.0 && t[j].index == key.1)) by {
            assert(forall|j: int| 0 <= j < k - 1 ==> t[j] == entries[j + 1]);
        }
        lemma_cache_remove_at(t, key, k - 1);
        assert(seq![entries[0]] + t.remove(k - 1) =~= entries.remove(k));
    }
}

/// Removing an absent key leaves the entries unchanged.
proof fn lemma_cache_remove_absent(entries: Seq<CacheEntryView>, key: (Seq<char>, int))
    requires
        forall|j: int|
            0 <= j < entries.len() ==> !((#[trigger] entries[j]).sheet == key.0 && entries[j].index
                == key.1),
    ensures
        cache_remove_key(entries, key) == entries,
    decreases entries.len(),
{
    if entries.len() > 0 {
        let t = entries.drop_first();
        assert(forall|j: int| 0 <= j < t.len() ==> t[j] == entries[j + 1]);
        lemma_cache_remove_absent(t, key);
        assert(seq![entries[0]] + t =~= entries);
    }
}

/// How a cache miss that fetched `row` leaves the cache and the recency
/// list: the entry cached, the key appended, and — when a bounded cache
/// overflows — exactly the least-recently-used key's first entry removed.
pub open spec fn read_miss_result(
    prev_cache: Seq<CacheEntryView>,
    prev_recency: Seq<(Seq<char>, int)>,
    policy: EvictionPolicy,
    key: (Seq<char>, int),
    row: Seq<Seq<char>>,
    new_cache: Seq<CacheEntryView>,
    new_recency: Seq<(Seq<char>, int)>,
) -> bool {
    let grown = prev_cache.push(CacheEntryView { sheet: key.0, index: key.1, row });
    let grown_recency = prev_recency.push(key);
    match policy {
        EvictionPolicy::Unbounded => new_cache == grown && new_recency == prev_recency,
        EvictionPolicy::Lru(cap) => {
            if grown_recency.len() <= cap {
                new_cache == grown && new_recency == grown_recency
            } else {
                new_cache == cache_remove_key(grown, grown_recency[0]) && new_recency
                    == grown_recency.drop_first()
            }
        },
    }
}

/// How buffering a run of rows leaves the pending batches when every row
/// stays under the batch size: each row joins the sheet's batch, in order.
/// Nothing when some row would fill the batch and trigger a send.
pub open spec fn buffer_all(
    pending: Seq<PendingView>,
    sheet: Seq<char>,
    rows: Seq<Seq<Seq<char>>>,
    cap: int,
) -> Option<Seq<PendingView>>
    decreases rows.len(),
{
    if rows.len() == 0 {
        Some(pending)
    } else {
        let prior = match pending_lookup(pending, sheet) {
            Some(rs) => rs,
            None => Seq::empty(),
        };
        let grown = prior.push(rows[0]);
        if grown.len() < cap {
            buffer_all(pending_upsert(pending, sheet, grown), sheet, rows.drop_first(), cap)
        } else {
            None
        }
    }
}

/// Wrapper that batches writes and caches reads over the wrapped port.
#[derive(Debug)]
pub struct BatchingCacheService<S> {
    inner: S,
    batch_size: usize,
    batches: Vec<Batch>,
    policy: EvictionPolicy,
    cache: Vec<CacheEntry>,
    order: Vec<(String, usize)>,
}

impl<S: CloudSpreadsheetService> BatchingCacheService<S> {
    /// The wrapped port.
    pub closed spec fn inner_state(&self) -> S {
        self.inner
    }

    /// How many rows a sheet's batch holds before it is flushed.
    pub closed spec fn batch_capacity(&self) -> int {
        self.batch_size as int
    }

    /// The eviction policy the cache runs with.
    pub closed spec fn policy_spec(&self) -> EvictionPolicy {
        self.policy
    }

    /// The pending, unflushed batches, in first-use order.
    pub closed spec fn pending(&self) -> Seq<PendingView> {
        self.batches.deep_view()
    }

    /// The cached rows, in insertion order.
    pub closed spec fn cached(&self) -> Seq<CacheEntryView> {
        self.cache.deep_view()
    }

    /// The cached keys ordered by recency of use, least recent first; empty
    /// under the unbounded policy, which never tracks recency.
    pub closed spec fn recency(&self) -> Seq<(Seq<char>, int)> {
        Seq::new(self.order@.len(), |i: int| (self.order@[i].0@, self.order@[i].1 as int))
    }

    /// The cache's own coherence: under the unbounded policy the recency
    /// list stays empty; under a bounded one the cache never exceeds the
    /// capacity and holds exactly the keys the recency list tracks. Every
    /// method preserves it.
    pub open spec fn cache_wf(&self) -> bool {
        match self.policy_spec() {
            EvictionPolicy::Unbounded => self.recency().len() == 0,
            EvictionPolicy::Lru(cap) => self.cached().len() <= cap && cache_keys(
                self.cached(),
            ).to_multiset() == self.recency().to_multiset(),
        }
    }

    /// Wraps `inner` with the given batch size (at least one) and policy.
    pub fn new(inner: S, batch_size: usize, policy: EvictionPolicy) -> (r: BatchingCacheService<
        S,
    >)
        ensures
            r.inner_state() == inner,
            r.batch_capacity() == if batch_size == 0 {
                1int
            } else {
                batch_size as int
            },
            r.policy_spec() == policy,
            r.pending() == Seq::<PendingView>::empty(),
            r.cached() == Seq::<CacheEntryView>::empty(),
            r.recency() == Seq::<(Seq<char>, int)>::empty(),
            r.cache_wf(),
    {
        let size = if batch_size == 0 {
            1
        } else {
            batch_size
        };
        let r = BatchingCacheService {
            inner,
            batch_size: size,
            batches: Vec::new(),
            policy,
            cache: Vec::new(),
            order: Vec::new(),
        };
        proof {
            assert(r.pending() =~= Seq::<PendingView>::empty());
            assert(r.cached() =~= Seq::<CacheEntryView>::empty());
            assert(r.recency() =~= Seq::<(Seq<char>, int)>::empty());
            assert(cache_keys(r.cached()) =~= Seq::<(Seq<char>, int)>::empty());
            assert(cache_keys(r.cached()).to_multiset() =~= r.recency().to_multiset());
        }
        r
    }

    /// Index of the first batch for `sheet`, or the batch count.
    fn find_batch(&self, sheet_id: &str) -> (r: usize)
        ensures
            r <= self.pending().len(),
            r < self.pending().len() ==> self.pending()[r as int].sheet == sheet_id@
                && pending_lookup(self.pending(), sheet_id@) == Some(
                self.pending()[r as int].rows,
            ),
            r == self.pending().len() ==> pending_lookup(self.pending(), sheet_id@) is None,
            forall|j: int| 0 <= j < r ==> (#[trigger] self.pending()[j]).sheet != sheet_id@,
    {
        let n = self.batches.len();
        let mut i: usize = 0;
        while i < n
            invariant
                i <= n,
                n == self.batches.len(),
                self.pending().len() == n,
                forall|j: int| 0 <= j < i ==> (#[trigger] self.pending()[j]).sheet != sheet_id@,
            decreases n - i,
        {
            if str_eq(self.batches[i].sheet.as_str(), sheet_id) {
                proof {
                    lemma_pending_lookup_at(self.pending(), sheet_id@, i as int);
                }
                return i;
            }
            i += 1;
        }
        proof {
            lemma_pending_lookup_none(self.pending(), sheet_id@);
        }
        n
    }

    /// Index of the first cache entry for `(sheet, index)`, or the count.
    fn find_cache(&self, sheet_id: &str, index: usize) -> (r: usize)
        ensures
            r <= self.cached().len(),
            r < self.cached().len() ==> self.cached()[r as int].sheet == sheet_id@
                && self.cached()[r as int].index == index && cache_lookup(
                self.cached(),
                sheet_id@,
                index as int,
            ) == Some(self.cached()[r as int].row),
            r == self.cached().len() ==> cache_lookup(self.cached(), sheet_id@, index as int)
                is None,
            forall|j: int|
                0 <= j < r ==> !((#[trigger] self.cached()[j]).sheet == sheet_id@ && self.cached()[
                    j
                ].index == index),
    {
        let n = self.cache.len();
        let mut i: usize = 0;
        while i < n
            invariant
                i <= n,
                n == self.cache.len(),
                self.cached().len() == n,
                forall|j: int|
                    0 <= j < i ==> !((#[trigger] self.cached()[j]).sheet == sheet_id@ && self.cached()[
                        j
                    ].index == index),
            decreases n - i,
        {
            if self.cache[i].index == index && str_eq(self.cache[i].sheet.as_str(), sheet_id) {
                proof {
                    lemma_cache_lookup_at(self.cached(), sheet_id@, index as int, i as int);
                }
                return i;
            }
            i += 1;
        }
        proof {
            lemma_cache_lookup_none(self.cached(), sheet_id@, index as int);
        }
        n
    }

    /// Drains every pending batch, one append per sheet, in first-use
    /// order. On success nothing is left pending; a failure is returned at
    /// once, the failing batch dropped and the later ones still pending.
    pub fn flush(&mut self) -> (r: Result<(), SpreadsheetError>)
        ensures
            final(self).batch_capacity() == old(self).batch_capacity(),
            final(self).policy_spec() == old(self).policy_spec(),
            final(self).cached() == old(self).cached(),
            final(self).recency() == old(self).recency(),
            r is Ok ==> final(self).pending().len() == 0,
            r is Err ==> exists|k: int|
                0 <= k < old(self).pending().len() && final(self).pending() == #[trigger] old(
                    self,
                ).pending().skip(k + 1),
    {
        let ghost orig = self.pending();
        let n0 = self.batches.len();
        proof {
            assert(orig.len() == n0);
        }
        let mut flushed: usize = 0;
        while self.batches.len() > 0
            invariant
                self.batch_capacity() == old(self).batch_capacity(),
                self.policy_spec() == old(self).policy_spec(),
                self.cached() == old(self).cached(),
                self.recency() == old(self).recency(),
                orig == old(self).pending(),
                orig.len() <= usize::MAX,
                flushed <= orig.len(),
                self.pending() == orig.skip(flushed as int),
            decreases self.batches.len(),
        {
            let ghost before = self.pending();
            let batch = self.batches.remove(0);
            proof {
                assert(self.pending() =~= before.drop_first());
                assert(batch@ == before[0]);
                assert(self.pending() =~= orig.skip(flushed + 1));
            }
            let result = self.inner.append_rows(batch.sheet.as_str(), batch.rows);
            match result {
                Ok(_) => {},
                Err(e) => {
                    return Err(e);
                },
            }
            flushed += 1;
        }
        proof {
            assert(self.pending().len() == 0);
        }
        Ok(())
    }
}

impl<S: CloudSpreadsheetService> BatchingCacheService<S> {
    /// Takes the decorator down: drains every pending batch and hands the
    /// wrapped port back, together with the outcome of that final flush.
    /// This is the explicit counterpart of flushing on teardown — a failure
    /// here is observable, not discarded.
    pub fn close(self) -> (Result<(), SpreadsheetError>, S) {
        let mut this = self;
        let flushed = this.flush();
        let BatchingCacheService { inner, batch_size, batches, policy, cache, order } = this;
        let _ = batch_size;
        let _ = batches;
        let _ = policy;
        let _ = cache;
        let _ = order;
        (flushed, inner)
    }
}

/// When the first index for `sheet` is `k`, the lookup returns its rows.
proof fn lemma_pending_lookup_at(batches: Seq<PendingView>, sheet: Seq<char>, k: int)
    requires
        0 <= k < batches.len(),
        batches[k].sheet == sheet,
        forall|j: int| 0 <= j < k ==> (#[trigger] batches[j]).sheet != sheet,
    ensures
        pending_lookup(batches, sheet) == Some(batches[k].rows),
    decreases k,
{
    if k > 0 {
        let t = batches.drop_first();
        assert(forall|j: int| 0 <= j < t.len() ==> t[j] == batches[j + 1]);
        assert(forall|j: int| 0 <= j < k - 1 ==> (#[trigger] t[j]).sheet != sheet) by {
            assert(forall|j: int| 0 <= j < k - 1 ==> t[j] == batches[j + 1]);
        }
        lemma_pending_lookup_at(t, sheet, k - 1);
    }
}

/// When no batch is for `sheet`, the lookup returns nothing.
proof fn lemma_pending_lookup_none(batches: Seq<PendingView>, sheet: Seq<char>)
    requires
        forall|j: int| 0 <= j < batches.len() ==> (#[trigger] batches[j]).sheet != sheet,
    ensures
        pending_lookup(batches, sheet) is None,
    decreases batches.len(),
{
    if batches.len() > 0 {
        let t = batches.drop_first();
        assert(forall|j: int| 0 <= j < t.len() ==> t[j] == batches[j + 1]);
        lemma_pending_lookup_none(t, sheet);
    }
}

/// Updating at the first index for `sheet` is `pending_upsert`.
proof fn lemma_pending_upsert_at(
    batches: Seq<PendingView>,
    sheet: Seq<char>,
    k: int,
    rows: Seq<Seq<Seq<char>>>,
)
    requires
        0 <= k < batches.len(),
        batches[k].sheet == sheet,
        forall|j: int| 0 <= j < k ==> (#[trigger] batches[j]).sheet != sheet,
    ensures
        pending_upsert(batches, sheet, rows) == batches.update(k, PendingView { sheet, rows }),
    decreases k,
{
    if k == 0 {
    } else {
        let t = batches.drop_first();
        assert(forall|j: int| 0 <= j < t.len() ==> t[j] == batches[j + 1]);
        assert(forall|j: int| 0 <= j < k - 1 ==> (#[trigger] t[j]).sheet != sheet) by {
            assert(forall|j: int| 0 <= j < k - 1 ==> t[j] == batches[j + 1]);
        }
        lemma_pending_upsert_at(t, sheet, k - 1, rows);
        assert(seq![batches[0]] + t.update(k - 1, PendingView { sheet, rows }) =~= batches.update(
            k,
            PendingView { sheet, rows },
        ));
    }
}

/// Appending a fresh batch is `pending_upsert` when the sheet was absent.
proof fn lemma_pending_upsert_push(
    batches: Seq<PendingView>,
    sheet: Seq<char>,
    rows: Seq<Seq<Seq<char>>>,
)
    requires
        forall|j: int| 0 <= j < batches.len() ==> (#[trigger] batches[j]).sheet != sheet,
    ensures
        pending_upsert(batches, sheet, rows) == batches.push(PendingView { sheet, rows }),
    decreases batches.len(),
{
    if batches.len() == 0 {
        assert(pending_upsert(batches, sheet, rows) =~= batches.push(PendingView { sheet, rows }));
    } else {
        let t = batches.drop_first();
        assert(forall|j: int| 0 <= j < t.len() ==> t[j] == batches[j + 1]);
        lemma_pending_upsert_push(t, sheet, rows);
        assert(seq![batches[0]] + t.push(PendingView { sheet, rows }) =~= batches.push(
            PendingView { sheet, rows },
        ));
    }
}

/// Removing at the first index for `sheet` is `pending_remove`.
proof fn lemma_pending_remove_at(batches: Seq<PendingView>, sheet: Seq<char>, k: int)
    requires
        0 <= k < batches.len(),
        batches[k].sheet == sheet,
        forall|j: int| 0 <= j < k ==> (#[trigger] batches[j]).sheet != sheet,
    ensures
        pending_remove(batches, sheet) == batches.remove(k),
    decreases k,
{
    if k == 0 {
        assert(batches.drop_first() =~= batches.remove(0));
    } else {
        let t = batches.drop_first();
        assert(forall|j: int| 0 <= j < t.len() ==> t[j] == batches[j + 1]);
        assert(forall|j: int| 0 <= j < k - 1 ==> (#[trigger] t[j]).sheet != sheet) by {
            assert(forall|j: int| 0 <= j < k - 1 ==> t[j] == batches[j + 1]);
        }
        lemma_pending_remove_at(t, sheet, k - 1);
        assert(seq![batches[0]] + t.remove(k - 1) =~= batches.remove(k));
    }
}

/// When the first index for `(sheet, index)` is `k`, the lookup returns
/// its row.
proof fn lemma_cache_lookup_at(entries: Seq<CacheEntryView>, sheet: Seq<char>, index: int, k: int)
    requires
        0 <= k < entries.len(),
        entries[k].sheet == sheet,
        entries[k].index == index,
        forall|j: int|
            0 <= j < k ==> !((#[trigger] entries[j]).sheet == sheet && entries[j].index == index),
    ensures
        cache_lookup(entries, sheet, index) == Some(entries[k].row),
    decreases k,
{
    if k > 0 {
        let t = entries.drop_first();
        assert(forall|j: int| 0 <= j < t.len() ==> t[j] == entries[j + 1]);
        assert(forall|j: int|
            0 <= j < k - 1 ==> !((#[trigger] t[j]).sheet == sheet && t[j].index == index)) by {
            assert(forall|j: int| 0 <= j < k - 1 ==> t[j] == entries[j + 1]);
        }
        lemma_cache_lookup_at(t, sheet, index, k - 1);
    }
}

/// When no entry is keyed `(sheet, index)`, the lookup returns nothing.
proof fn lemma_cache_lookup_none(entries: Seq<CacheEntryView>, sheet: Seq<char>, index: int)
    requires
        forall|j: int|
            0 <= j < entries.len() ==> !((#[trigger] entries[j]).sheet == sheet && entries[j].index
                == index),
    ensures
        cache_lookup(entries, sheet, index) is None,
    decreases entries.len(),
{
    if entries.len() > 0 {
        let t = entries.drop_first();
        assert(forall|j: int| 0 <= j < t.len() ==> t[j] == entries[j + 1]);
        lemma_cache_lookup_none(t, sheet, index);
    }
}

impl<S: CloudSpreadsheetService> CloudSpreadsheetService for BatchingCacheService<S> {
    /// Passes straight through to the wrapped port.
    fn create_sheet(&mut self, title: &str) -> (r: Result<String, SpreadsheetError>)
        ensures
            final(self).batch_capacity() == old(self).batch_capacity(),
            final(self).policy_spec() == old(self).policy_spec(),
            final(self).pending() == old(self).pending(),
            final(self).cached() == old(self).cached(),
            final(self).recency() == old(self).recency(),
    {
        self.inner.create_sheet(title)
    }

    /// Buffers the row into the sheet's pending batch. While the batch
    /// stays under the batch size nothing reaches the wrapped port; when it
    /// fills, the whole batch is sent in one call and left pending no more,
    /// whether or not the send succeeded.
    fn append_row(&mut self, sheet_id: &str, values: Vec<String>) -> (r: Result<
        (),
        SpreadsheetError,
    >)
        ensures
            final(self).batch_capacity() == old(self).batch_capacity(),
            final(self).policy_spec() == old(self).policy_spec(),
            final(self).cached() == old(self).cached(),
            final(self).recency() == old(self).recency(),
            ({
                let prior = match pending_lookup(old(self).pending(), sheet_id@) {
                    Some(rs) => rs,
                    None => Seq::empty(),
                };
                let grown = prior.push(values.deep_view());
                if grown.len() < old(self).batch_capacity() {
                    &&& r is Ok
                    &&& final(self).inner_state() == old(self).inner_state()
                    &&& final(self).pending() == pending_upsert(
                        old(self).pending(),
                        sheet_id@,
                        grown,
                    )
                } else {
                    final(self).pending() == pending_remove(old(self).pending(), sheet_id@)
                }
            }),
    {
        let ghost prev = self.pending();
        let ghost vdv = values.deep_view();
        let i = self.find_batch(sheet_id);
        if i == self.batches.len() {
            // No pending batch for this sheet yet.
            let mut rows: Vec<Vec<String>> = Vec::new();
            rows.push(values);
            proof {
                assert(rows.deep_view() =~= Seq::<Seq<Seq<char>>>::empty().push(vdv));
                lemma_pending_remove_none(prev, sheet_id@);
                lemma_pending_upsert_push(prev, sheet_id@, rows.deep_view());
            }
            if 1 >= self.batch_size {
                let res = self.inner.append_rows(sheet_id, rows);
                return res;
            }
            let ghost before = self.pending();
            self.batches.push(Batch { sheet: sheet_id.to_owned(), rows });
            proof {
                assert(self.pending() =~= prev.push(
                    PendingView { sheet: sheet_id@, rows: Seq::<Seq<Seq<char>>>::empty().push(vdv) },
                ));
            }
            return Ok(());
        }
        proof {
            lemma_pending_remove_at(prev, sheet_id@, i as int);
            lemma_pending_upsert_at(
                prev,
                sheet_id@,
                i as int,
                prev[i as int].rows.push(vdv),
            );
        }
        let mut batch = self.batches.remove(i);
        let ghost oldrows = batch@.rows;
        let ghost mid = self.batches.deep_view();
        proof {
            assert(mid =~= prev.remove(i as int));
        }
        batch.rows.push(values);
        proof {
            assert(batch@.rows =~= oldrows.push(vdv));
        }
        if batch.rows.len() >= self.batch_size {
            let res = self.inner.append_rows(sheet_id, batch.rows);
            return res;
        }
        let ghost bv = batch@;
        self.batches.insert(i, batch);
        proof {
            assert(self.batches.deep_view() =~= mid.insert(i as int, bv));
            assert(mid.insert(i as int, bv) =~= prev.update(
                i as int,
                PendingView { sheet: sheet_id@, rows: oldrows.push(vdv) },
            ));
        }
        Ok(())
    }

    /// Decomposes into repeated single-row appends, stopping at the first
    /// error. While every row stays under the batch size the rows simply
    /// join the sheet's pending batch, in order, and the wrapped port is
    /// never called.
    fn append_rows(&mut self, sheet_id: &str, rows: Vec<Vec<String>>) -> (r: Result<
        (),
        SpreadsheetError,
    >)
        ensures
            final(self).batch_capacity() == old(self).batch_capacity(),
            final(self).policy_spec() == old(self).policy_spec(),
            final(self).cached() == old(self).cached(),
            final(self).recency() == old(self).recency(),
            buffer_all(
                old(self).pending(),
                sheet_id@,
                rows.deep_view(),
                old(self).batch_capacity(),
            ) matches Some(p) ==> r is Ok && final(self).pending() == p
                && final(self).inner_state() == old(self).inner_state(),
    {
        let ghost rdv = rows.deep_view();
        let ghost cap0 = self.batch_capacity();
        let ghost goal = buffer_all(self.pending(), sheet_id@, rdv, cap0);
        let mut remaining = rows;
        while remaining.len() > 0
            invariant
                self.batch_capacity() == old(self).batch_capacity(),
                self.policy_spec() == old(self).policy_spec(),
                self.cached() == old(self).cached(),
                self.recency() == old(self).recency(),
                cap0 == old(self).batch_capacity(),
                rdv == rows.deep_view(),
                goal == buffer_all(old(self).pending(), sheet_id@, rdv, cap0),
                goal is Some ==> self.inner_state() == old(self).inner_state() && buffer_all(
                    self.pending(),
                    sheet_id@,
                    remaining.deep_view(),
                    cap0,
                ) == goal,
            decreases remaining.len(),
        {
            let ghost before = remaining.deep_view();
            let ghost pend_before = self.pending();
            let row = remaining.remove(0);
            proof {
                assert(row.deep_view() == before[0]);
                assert(remaining.deep_view() =~= before.drop_first());
            }
            let res = self.append_row(sheet_id, row);
            proof {
                if goal is Some {
                    let prior = match pending_lookup(pend_before, sheet_id@) {
                        Some(rs) => rs,
                        None => Seq::empty(),
                    };
                    let grown = prior.push(before[0]);
                    assert(buffer_all(pend_before, sheet_id@, before, cap0) == goal);
                    assert(grown.len() < cap0);
                    assert(res is Ok);
                    assert(self.pending() == pending_upsert(pend_before, sheet_id@, grown));
                }
            }
            match res {
                Ok(_) => {},
                Err(e) => {
                    return Err(e);
                },
            }
        }
        Ok(())
    }

    /// Serves the row from the cache when present — the wrapped port is not
    /// called, the cache keeps its rows and, under a bounded policy, the key
    /// becomes the most recently used. On a miss it delegates; a failed
    /// fetch changes nothing, a fetched row is cached, and when a bounded
    /// cache overflows exactly the least-recently-used key's entry leaves.
    /// Buffered, unflushed rows are never seen here, and writes never
    /// invalidate cached rows.
    fn read_row(&mut self, sheet_id: &str, index: usize) -> (r: Result<
        Vec<String>,
        SpreadsheetError,
    >)
        ensures
            final(self).batch_capacity() == old(self).batch_capacity(),
            final(self).policy_spec() == old(self).policy_spec(),
            final(self).pending() == old(self).pending(),
            old(self).cache_wf() ==> final(self).cache_wf(),
            ({
                let key = (sheet_id@, index as int);
                match cache_lookup(old(self).cached(), sheet_id@, index as int) {
                    Some(row) => {
                        &&& final(self).inner_state() == old(self).inner_state()
                        &&& final(self).cached() == old(self).cached()
                        &&& (r matches Ok(out) && out.deep_view() == row)
                        &&& final(self).recency() == (match old(self).policy_spec() {
                            EvictionPolicy::Unbounded => old(self).recency(),
                            EvictionPolicy::Lru(_) => touch(old(self).recency(), key),
                        })
                    },
                    None => {
                        &&& (r is Err ==> final(self).cached() == old(self).cached()
                            && final(self).recency() == old(self).recency())
                        &&& (r matches Ok(out) ==> read_miss_result(
                            old(self).cached(),
                            old(self).recency(),
                            old(self).policy_spec(),
                            key,
                            out.deep_view(),
                            final(self).cached(),
                            final(self).recency(),
                        ))
                    },
                }
            }),
    {
        let ghost key = (sheet_id@, index as int);
        let i = self.find_cache(sheet_id, index);
        if i < self.cache.len() {
            // Hit: refresh recency, hand out a copy.
            proof {
                assert(cache_keys(self.cached())[i as int] == key);
            }
            if let EvictionPolicy::Lru(_) = self.policy {
                self.touch_order(sheet_id, index);
                proof {
                    if old(self).cache_wf() {
                        lemma_touch_preserves_multiset(old(self), i as int, key);
                    }
                }
            }
            let out = clone_strings(&self.cache[i].row);
            proof {
                assert(self.cache[i as int].deep_view().row == self.cached()[i as int].row);
            }
            return Ok(out);
        }
        let fetched = self.inner.read_row(sheet_id, index);
        let row = match fetched {
            Ok(row) => row,
            Err(e) => {
                return Err(e);
            },
        };
        let out = clone_strings(&row);
        let ghost prev = self.cached();
        let ghost prev_recency = self.recency();
        let ghost newv = CacheEntryView {
            sheet: sheet_id@,
            index: index as int,
            row: row.deep_view(),
        };
        self.cache.push(CacheEntry { sheet: sheet_id.to_owned(), index, row });
        proof {
            assert(self.cached() =~= prev.push(newv));
            assert(newv.row == out.deep_view());
        }
        match self.policy {
            EvictionPolicy::Unbounded => {},
            EvictionPolicy::Lru(cap) => {
                let ghost grown = self.cached();
                self.order.push((sheet_id.to_owned(), index));
                proof {
                    assert(self.recency() =~= prev_recency.push(key));
                }
                let ghost grown_recency = self.recency();
                if self.order.len() > cap {
                    let victim = self.order.remove(0);
                    proof {
                        assert(self.recency() =~= grown_recency.drop_first()) by {
                            assert(self.recency() =~= grown_recency.remove(0));
                        }
                        assert((victim.0@, victim.1 as int) == grown_recency[0]);
                    }
                    self.evict_entry(&victim.0, victim.1);
                    proof {
                        if old(self).cache_wf() {
                            broadcast use vstd::seq_lib::group_to_multiset_ensures;

                            assert(cache_keys(grown) =~= cache_keys(prev).push(key));
                            assert(cache_keys(grown).to_multiset() == grown_recency.to_multiset());
                            assert(grown_recency.contains(grown_recency[0]));
                            assert(cache_keys(grown).to_multiset().count(grown_recency[0]) > 0);
                            assert(cache_keys(grown).contains(grown_recency[0]));
                            let w = choose|j: int|
                                0 <= j < cache_keys(grown).len() && cache_keys(grown)[j]
                                    == grown_recency[0];
                            assert(grown[w].sheet == grown_recency[0].0 && grown[w].index
                                == grown_recency[0].1);
                            lemma_cache_remove_key_found(grown, grown_recency[0]);
                            assert(grown_recency.drop_first() =~= grown_recency.remove(0));
                            assert(grown_recency.remove(0).to_multiset() =~= grown_recency.to_multiset().remove(
                                grown_recency[0],
                            ));
                            assert(cache_keys(prev).to_multiset().len() == prev_recency.to_multiset().len());
                        }
                    }
                } else {
                    proof {
                        if old(self).cache_wf() {
                            broadcast use vstd::seq_lib::group_to_multiset_ensures;

                            assert(cache_keys(grown) =~= cache_keys(prev).push(key));
                            assert(cache_keys(prev).to_multiset().len()
                                == prev_recency.to_multiset().len());
                        }
                    }
                }
            },
        }
        Ok(out)
    }

    /// Passes straight through to the wrapped port.
    fn list_rows(&mut self, sheet_id: &str) -> (r: Result<Vec<Vec<String>>, SpreadsheetError>)
        ensures
            final(self).batch_capacity() == old(self).batch_capacity(),
            final(self).policy_spec() == old(self).policy_spec(),
            final(self).pending() == old(self).pending(),
            final(self).cached() == old(self).cached(),
            final(self).recency() == old(self).recency(),
    {
        self.inner.list_rows(sheet_id)
    }

    /// Passes straight through to the wrapped port.
    fn share_sheet(&mut self, sheet_id: &str, email: &str) -> (r: Result<(), SpreadsheetError>)
        ensures
            final(self).batch_capacity() == old(self).batch_capacity(),
            final(self).policy_spec() == old(self).policy_spec(),
            final(self).pending() == old(self).pending(),
            final(self).cached() == old(self).cached(),
            final(self).recency() == old(self).recency(),
    {
        self.inner.share_sheet(sheet_id, email)
    }
}

impl<S: CloudSpreadsheetService> BatchingCacheService<S> {
    /// Moves the key to the most-recent end of the recency list: its first
    /// occurrence is taken out and pushed at the back; an absent key leaves
    /// the list unchanged.
    fn touch_order(&mut self, sheet_id: &str, index: usize)
        ensures
            final(self).batch_capacity() == old(self).batch_capacity(),
            final(self).policy_spec() == old(self).policy_spec(),
            final(self).pending() == old(self).pending(),
            final(self).cached() == old(self).cached(),
            final(self).inner_state() == old(self).inner_state(),
            final(self).recency() == touch(old(self).recency(), (sheet_id@, index as int)),
    {
        let ghost rec0 = self.recency();
        let ghost key = (sheet_id@, index as int);
        let n = self.order.len();
        let mut i: usize = 0;
        while i < n
            invariant
                i <= n,
                n == self.order.len(),
                rec0.len() == n,
                rec0 == old(self).recency(),
                key == (sheet_id@, index as int),
                self.batch_capacity() == old(self).batch_capacity(),
                self.policy_spec() == old(self).policy_spec(),
                self.pending() == old(self).pending(),
                self.cached() == old(self).cached(),
                self.inner_state() == old(self).inner_state(),
                self.recency() == rec0,
                forall|j: int| 0 <= j < i ==> rec0[j] != key,
            decreases n - i,
        {
            if self.order[i].1 == index && str_eq(self.order[i].0.as_str(), sheet_id) {
                proof {
                    assert(rec0[i as int] == key);
                    lemma_first_key(rec0, key);
                    let f = first_key(rec0, key);
                    if f == -1 {
                        assert(rec0[i as int] != key);
                    }
                    if f < i {
                        assert(rec0[f] != key);
                    }
                    if f > i {
                        assert(rec0[i as int] != key);
                    }
                    assert(f == i);
                }
                let moved = self.order.remove(i);
                proof {
                    assert(self.recency() =~= rec0.remove(i as int));
                    assert((moved.0@, moved.1 as int) == key);
                }
                self.order.push(moved);
                proof {
                    assert(self.recency() =~= rec0.remove(i as int).push(key));
                }
                return ;
            }
            proof {
                assert(rec0[i as int] != key);
            }
            i += 1;
        }
        proof {
            lemma_first_key(rec0, key);
            let f = first_key(rec0, key);
            if f >= 0 {
                assert(rec0[f] != key);
            }
        }
    }

    /// Removes the first cache entry keyed `(sheet, index)`, when one is
    /// present.
    fn evict_entry(&mut self, sheet_id: &str, index: usize)
        ensures
            final(self).batch_capacity() == old(self).batch_capacity(),
            final(self).policy_spec() == old(self).policy_spec(),
            final(self).pending() == old(self).pending(),
            final(self).inner_state() == old(self).inner_state(),
            final(self).recency() == old(self).recency(),
            final(self).cached() == cache_remove_key(
                old(self).cached(),
                (sheet_id@, index as int),
            ),
    {
        let ghost key = (sheet_id@, index as int);
        let i = self.find_cache(sheet_id, index);
        if i < self.cache.len() {
            proof {
                lemma_cache_remove_at(self.cached(), key, i as int);
            }
            let ghost prev = self.cached();
            let _ = self.cache.remove(i);
            proof {
                assert(self.cached() =~= prev.remove(i as int));
            }
        } else {
            proof {
                lemma_cache_remove_absent(self.cached(), key);
            }
        }
    }
}

/// Touching a present key rearranges the recency list without changing its
/// multiset, so coherence survives a cache hit.
proof fn lemma_touch_preserves_multiset<S: CloudSpreadsheetService>(
    s: &BatchingCacheService<S>,
    i: int,
    key: (Seq<char>, int),
)
    requires
        s.cache_wf(),
        s.policy_spec() is Lru,
        0 <= i < s.cached().len(),
        cache_keys(s.cached())[i] == key,
    ensures
        touch(s.recency(), key).to_multiset() == s.recency().to_multiset(),
        touch(s.recency(), key).len() == s.recency().len(),
{
    broadcast use vstd::seq_lib::group_to_multiset_ensures;

    let rec = s.recency();
    assert(cache_keys(s.cached()).contains(key));
    assert(cache_keys(s.cached()).to_multiset().count(key) > 0);
    assert(rec.to_multiset().count(key) > 0);
    assert(rec.contains(key));
    lemma_first_key(rec, key);
    let f = first_key(rec, key);
    if f == -1 {
        let w = choose|j: int| 0 <= j < rec.len() && rec[j] == key;
        assert(rec[w] != key);
    }
    assert(rec[f] == key);
    assert(rec.remove(f).to_multiset() =~= rec.to_multiset().remove(key));
    assert(rec.remove(f).push(key).to_multiset() =~= rec.to_multiset().remove(key).insert(key));
    assert(rec.to_multiset().remove(key).insert(key) =~= rec.to_multiset());
}

/// Removing the first entry keyed `key` takes exactly one `key` out of the
/// cached keys, so coherence survives an eviction.
proof fn lemma_cache_remove_key_found(entries: Seq<CacheEntryView>, key: (Seq<char>, int))
    requires
        exists|i: int|
            0 <= i < entries.len() && (#[trigger] entries[i]).sheet == key.0 && entries[i].index
                == key.1,
    ensures
        cache_remove_key(entries, key).len() == entries.len() - 1,
        cache_keys(cache_remove_key(entries, key)).to_multiset() == cache_keys(
            entries,
        ).to_multiset().remove(key),
    decreases entries.len(),
{
    broadcast use vstd::seq_lib::group_to_multiset_ensures;

    let keys = cache_keys(entries);
    if entries[0].sheet == key.0 && entries[0].index == key.1 {
        assert(cache_remove_key(entries, key) == entries.drop_first());
        assert(cache_keys(entries.drop_first()) =~= keys.remove(0));
        assert(keys.remove(0).to_multiset() =~= keys.to_multiset().remove(keys[0]));
        assert(keys[0] == key);
    } else {
        let tail = entries.drop_first();
        assert(exists|i: int|
            0 <= i < tail.len() && (#[trigger] tail[i]).sheet == key.0 && tail[i].index
                == key.1) by {
            let w = choose|i: int|
                0 <= i < entries.len() && (#[trigger] entries[i]).sheet == key.0 && entries[i].index
                    == key.1;
            assert(tail[w - 1] == entries[w]);
        }
        lemma_cache_remove_key_found(tail, key);
        let rest = cache_remove_key(tail, key);
        assert(cache_remove_key(entries, key) == seq![entries[0]] + rest);
        // The keys of a one-element prefix concatenation split off.
        lemma_cache_keys_cons(entries[0], rest);
        lemma_cache_keys_cons(entries[0], tail);
        assert(cache_keys(tail) =~= keys.remove(0));
        assert(keys.remove(0).to_multiset() =~= keys.to_multiset().remove(keys[0]));
        let k0 = keys[0];
        assert(k0 != key);
        // Counts agree on every key, so the multisets agree.
        assert(cache_keys(seq![entries[0]] + rest).to_multiset() =~= keys.to_multiset().remove(
            key,
        )) by {
            assert(cache_keys(seq![entries[0]] + rest).to_multiset() == cache_keys(
                rest,
            ).to_multiset().insert(k0));
            assert(cache_keys(rest).to_multiset() == cache_keys(tail).to_multiset().remove(key));
            assert(cache_keys(tail).to_multiset() =~= keys.to_multiset().remove(k0));
            assert(keys.to_multiset().remove(k0).remove(key).insert(k0) =~= keys.to_multiset().remove(
                key,
            )) by {
                assert(keys.to_multiset().count(k0) > 0) by {
                    assert(keys.contains(k0));
                }
            }
        }
    }
}

/// The keys of a one-element prefix concatenation: the element's key, then
/// the rest's keys; as a multiset, the rest's keys with it inserted.
proof fn lemma_cache_keys_cons(e: CacheEntryView, rest: Seq<CacheEntryView>)
    ensures
        cache_keys(seq![e] + rest) =~= seq![(e.sheet, e.index)] + cache_keys(rest),
        cache_keys(seq![e] + rest).to_multiset() == cache_keys(rest).to_multiset().insert(
            (e.sheet, e.index),
        ),
{
    broadcast use vstd::seq_lib::group_to_multiset_ensures;

    let w = cache_keys(seq![e] + rest);
    assert(w =~= seq![(e.sheet, e.index)] + cache_keys(rest));
    assert(w.remove(0) =~= cache_keys(rest));
    assert(w.remove(0).to_multiset() =~= w.to_multiset().remove(w[0]));
    assert(w[0] == (e.sheet, e.index));
    assert(w.contains(w[0]));
    assert(w.to_multiset().count(w[0]) > 0);
    assert(w.to_multiset() =~= w.to_multiset().remove(w[0]).insert(w[0]));
}

/// Removing an absent sheet leaves the batches unchanged./// Removing an absent sheet leaves the batches unchanged.
proof fn lemma_pending_remove_none(batches: Seq<PendingView>, sheet: Seq<char>)
    requires
        forall|j: int| 0 <= j < batches.len() ==> (#[trigger] batches[j]).sheet != sheet,
    ensures
        pending_remove(batches, sheet) == batches,
    decreases batches.len(),
{
    if batches.len() > 0 {
        let t = batches.drop_first();
        assert(forall|j: int| 0 <= j < t.len() ==> t[j] == batches[j + 1]);
        lemma_pending_remove_none(t, sheet);
        assert(seq![batches[0]] + t =~= batches);
    }
}

} // verus!
