//! The rate source for currency conversion: dated conversion ratios with
//! last-known-rate-at-or-before lookup.

use vstd::prelude::*;

use crate::textutil::str_eq;

verus! {

/// A conversion rate, held as an exact ratio of two integers.
#[derive(Debug, Clone, Copy, PartialEq, Eq, Structural)]
pub struct Rate {
    /// Numerator of the ratio.
    pub num: u32,
    /// Denominator of the ratio; positive in any stored rate.
    pub den: u32,
}

/// The mathematical value of one dated rate entry.
pub ghost struct RateEntryView {
    pub day: i64,
    pub from: Seq<char>,
    pub to: Seq<char>,
    pub num: u32,
    pub den: u32,
}

#[derive(Debug)]
struct RateEntry {
    day: i64,
    from: String,
    to: String,
    rate: Rate,
}

impl View for RateEntry {
    type V = RateEntryView;

    closed spec fn view(&self) -> RateEntryView {
        RateEntryView {
            day: self.day,
            from: self.from@,
            to: self.to@,
            num: self.rate.num,
            den: self.rate.den,
        }
    }
}

impl DeepView for RateEntry {
    type V = RateEntryView;

    closed spec fn deep_view(&self) -> RateEntryView {
        self@
    }
}

/// The entry that a lookup returns: among the entries for the pair dated at
/// or before `day`, the latest-dated one. Entries are unique per pair and
/// day, re-adding having overwritten, so no ties arise.
pub open spec fn best_rate(
    s: Seq<RateEntryView>,
    day: int,
    from: Seq<char>,
    to: Seq<char>,
) -> Option<RateEntryView>
    decreases s.len(),
{
    if s.len() == 0 {
        None
    } else {
        let prev = best_rate(s.drop_last(), day, from, to);
        let e = s.last();
        if e.from == from && e.to == to && e.day <= day && (prev is None || prev->0.day <= e.day) {
            Some(e)
        } else {
            prev
        }
    }
}

/// Do two entries price the same pair on the same day?
pub open spec fn same_key(a: RateEntryView, b: RateEntryView) -> bool {
    a.day == b.day && a.from == b.from && a.to == b.to
}

/// The entries with the first one keyed like `e` replaced by `e`, or `e`
/// appended when no entry is.
pub open spec fn rate_upsert(s: Seq<RateEntryView>, e: RateEntryView) -> Seq<RateEntryView>
    decreases s.len(),
{
    if s.len() == 0 {
        seq![e]
    } else if same_key(s[0], e) {
        s.update(0, e)
    } else {
        seq![s[0]] + rate_upsert(s.drop_first(), e)
    }
}

/// Updating at the first index keyed like `e` is `rate_upsert`.
proof fn lemma_rate_upsert_at(s: Seq<RateEntryView>, e: RateEntryView, k: int)
    requires
        0 <= k < s.len(),
        same_key(s[k], e),
        forall|j: int| 0 <= j < k ==> !same_key(#[trigger] s[j], e),
    ensures
        rate_upsert(s, e) == s.update(k, e),
    decreases k,
{
    if k > 0 {
        let t = s.drop_first();
        assert(forall|j: int| 0 <= j < t.len() ==> t[j] == s[j + 1]);
        assert(forall|j: int| 0 <= j < k - 1 ==> !same_key(#[trigger] t[j], e)) by {
            assert(forall|j: int| 0 <= j < k - 1 ==> t[j] == s[j + 1]);
        }
        lemma_rate_upsert_at(t, e, k - 1);
        assert(seq![s[0]] + t.update(k - 1, e) =~= s.update(k, e));
    }
}

/// Appending is `rate_upsert` when no entry is keyed like `e`.
proof fn lemma_rate_upsert_push(s: Seq<RateEntryView>, e: RateEntryView)
    requires
        forall|j: int| 0 <= j < s.len() ==> !same_key(#[trigger] s[j], e),
    ensures
        rate_upsert(s, e) == s.push(e),
    decreases s.len(),
{
    if s.len() == 0 {
        assert(rate_upsert(s, e) =~= s.push(e));
    } else {
        let t = s.drop_first();
        assert(forall|j: int| 0 <= j < t.len() ==> t[j] == s[j + 1]);
        lemma_rate_upsert_push(t, e);
        assert(seq![s[0]] + t.push(e) =~= s.push(e));
    }
}

/// Every rate the database holds has a positive denominator.
pub open spec fn rates_wf(s: Seq<RateEntryView>) -> bool {
    forall|i: int| 0 <= i < s.len() ==> (#[trigger] s[i]).den > 0
}

/// A found rate is one of the entries.
pub proof fn lemma_best_rate_member(s: Seq<RateEntryView>, day: int, from: Seq<char>, to: Seq<char>)
    ensures
        best_rate(s, day, from, to) matches Some(e) ==> exists|i: int|
            0 <= i < s.len() && s[i] == e,
    decreases s.len(),
{
    if s.len() > 0 {
        lemma_best_rate_member(s.drop_last(), day, from, to);
        if best_rate(s, day, from, to) is Some {
            let e = best_rate(s, day, from, to)->0;
            if e == s.last() {
                assert(s[s.len() - 1] == e);
            } else {
                let i = choose|i: int| 0 <= i < s.drop_last().len() && s.drop_last()[i] == e;
                assert(s[i] == e);
            }
        }
    }
}

/// Dated conversion rates between currency pairs.
#[derive(Debug)]
pub struct PriceDatabase {
    entries: Vec<RateEntry>,
}

impl View for PriceDatabase {
    type V = Seq<RateEntryView>;

    closed spec fn view(&self) -> Seq<RateEntryView> {
        self.entries.deep_view()
    }
}

impl Default for PriceDatabase {
    /// The empty database.
    fn default() -> (db: PriceDatabase)
        ensures
            db@ == Seq::<RateEntryView>::empty(),
            rates_wf(db@),
    {
        PriceDatabase::new()
    }
}

impl PriceDatabase {
    /// Creates an empty database.
    pub fn new() -> (db: PriceDatabase)
        ensures
            db@ == Seq::<RateEntryView>::empty(),
            rates_wf(db@),
    {
        let db = PriceDatabase { entries: Vec::new() };
        proof {
            assert(db@ =~= Seq::<RateEntryView>::empty());
        }
        db
    }

    /// Records the rate from `from` to `to` on the day numbered `day` (days
    /// since the Unix epoch), overwriting any entry already stored for the
    /// same pair and day.
    pub fn add_rate(&mut self, day: i64, from: &str, to: &str, rate: Rate)
        requires
            rate.den > 0,
            rates_wf(old(self)@),
        ensures
            final(self)@ == rate_upsert(
                old(self)@,
                RateEntryView { day, from: from@, to: to@, num: rate.num, den: rate.den },
            ),
            rates_wf(final(self)@),
    {
        let ghost prev = self@;
        let ghost ev = RateEntryView { day, from: from@, to: to@, num: rate.num, den: rate.den };
        let n = self.entries.len();
        let mut i: usize = 0;
        while i < n
            invariant
                i <= n,
                n == self.entries.len(),
                self@.len() == n,
                prev == old(self)@,
                self@ == prev,
                rate.den > 0,
                rates_wf(prev),
                ev == (RateEntryView { day, from: from@, to: to@, num: rate.num, den: rate.den }),
                forall|j: int| 0 <= j < i ==> !same_key(#[trigger] self@[j], ev),
            decreases n - i,
        {
            let e = &self.entries[i];
            if e.day == day && str_eq(e.from.as_str(), from) && str_eq(e.to.as_str(), to) {
                proof {
                    assert(same_key(prev[i as int], ev));
                    lemma_rate_upsert_at(prev, ev, i as int);
                }
                let mut entry = self.entries.remove(i);
                let ghost mid = self.entries.deep_view();
                proof {
                    assert(mid =~= prev.remove(i as int));
                }
                entry.rate = rate;
                let ghost entv = entry@;
                self.entries.insert(i, entry);
                proof {
                    assert(entv == ev) by {
                        assert(prev[i as int].from == from@ && prev[i as int].to == to@);
                    }
                    assert(self.entries.deep_view() =~= mid.insert(i as int, entv));
                    assert(mid.insert(i as int, entv) =~= prev.update(i as int, ev));
                    assert forall|j: int| 0 <= j < self@.len() implies (#[trigger] self@[j]).den
                        > 0 by {
                        if j != i {
                            assert(self@[j] == prev[j]);
                        }
                    }
                }
                return ;
            }
            proof {
                assert(!same_key(prev[i as int], ev));
            }
            i += 1;
        }
        proof {
            lemma_rate_upsert_push(prev, ev);
        }
        self.entries.push(RateEntry { day, from: from.to_owned(), to: to.to_owned(), rate });
        proof {
            assert(self@ =~= prev.push(ev));
            assert forall|i: int| 0 <= i < self@.len() implies (#[trigger] self@[i]).den > 0 by {
                if i < prev.len() {
                    assert(self@[i] == prev[i]);
                }
            }
        }
    }

    /// Looks up the rate from `from` to `to` as of the day numbered `day`:
    /// the latest entry for the pair dated at or before that day.
    pub fn get_rate(&self, day: i64, from: &str, to: &str) -> (r: Option<Rate>)
        requires
            rates_wf(self@),
        ensures
            r is Some <==> best_rate(self@, day as int, from@, to@) is Some,
            r matches Some(rt) ==> {
                let e = best_rate(self@, day as int, from@, to@)->0;
                rt.num == e.num && rt.den == e.den && rt.den > 0
            },
    {
        let n = self.entries.len();
        let mut best: Option<(i64, Rate)> = None;
        let mut i: usize = 0;
        proof {
            assert(self@.take(0) =~= Seq::<RateEntryView>::empty());
        }
        while i < n
            invariant
                i <= n,
                n == self.entries.len(),
                self@.len() == n,
                rates_wf(self@),
                match best_rate(self@.take(i as int), day as int, from@, to@) {
                    None => best is None,
                    Some(e) => best matches Some(t) && t.0 == e.day && t.1.num == e.num
                        && t.1.den == e.den,
                },
            decreases n - i,
        {
            let e = &self.entries[i];
            proof {
                assert(self@.take(i + 1).drop_last() =~= self@.take(i as int));
                assert(self@.take(i + 1).last() == self@[i as int]);
                assert(e@ == self@[i as int]);
            }
            let pair_matches = str_eq(e.from.as_str(), from) && str_eq(e.to.as_str(), to);
            if pair_matches && e.day <= day {
                let better = match &best {
                    None => true,
                    Some(t) => t.0 <= e.day,
                };
                if better {
                    best = Some((e.day, e.rate));
                }
            }
            i += 1;
        }
        proof {
            assert(self@.take(n as int) =~= self@);
            lemma_best_rate_member(self@, day as int, from@, to@);
        }
        match best {
            Some(t) => Some(t.1),
            None => None,
        }
    }
}

/// `e` inserted into `s` after every entry dated no later: the insertion
/// step of a stable sort by day.
pub open spec fn insert_by_day(s: Seq<RateEntryView>, e: RateEntryView) -> Seq<RateEntryView>
    decreases s.len(),
{
    if s.len() == 0 {
        seq![e]
    } else if s.last().day <= e.day {
        s.push(e)
    } else {
        insert_by_day(s.drop_last(), e).push(s.last())
    }
}

/// `s` stably sorted by day, ascending: entries dated the same day keep
/// their insertion order.
pub open spec fn sort_by_day(s: Seq<RateEntryView>) -> Seq<RateEntryView>
    decreases s.len(),
{
    if s.len() == 0 {
        Seq::empty()
    } else {
        insert_by_day(sort_by_day(s.drop_last()), s.last())
    }
}

/// The mathematical value of a listed rate tuple.
pub open spec fn rate_tuples_view(v: Seq<(i64, String, String, Rate)>) -> Seq<RateEntryView> {
    Seq::new(
        v.len(),
        |i: int|
            RateEntryView {
                day: v[i].0,
                from: v[i].1@,
                to: v[i].2@,
                num: v[i].3.num,
                den: v[i].3.den,
            },
    )
}

/// Inserting lands the entry exactly at the first position, counted from
/// the right, whose suffix holds only later days.
proof fn lemma_insert_day_at(s: Seq<RateEntryView>, e: RateEntryView, k: int)
    requires
        0 <= k <= s.len(),
        forall|j: int| k <= j < s.len() ==> (#[trigger] s[j]).day > e.day,
        k > 0 ==> s[k - 1].day <= e.day,
    ensures
        insert_by_day(s, e) == s.take(k) + seq![e] + s.skip(k),
    decreases s.len(),
{
    if k == s.len() {
        if s.len() == 0 {
            assert(insert_by_day(s, e) =~= s.take(k) + seq![e] + s.skip(k));
        } else {
            assert(s.push(e) =~= s.take(k) + seq![e] + s.skip(k));
        }
    } else {
        assert(s.last().day > e.day);
        let dl = s.drop_last();
        assert(forall|j: int| k <= j < dl.len() ==> (#[trigger] dl[j]).day > e.day);
        if k > 0 {
            assert(dl[k - 1] == s[k - 1]);
        }
        lemma_insert_day_at(dl, e, k);
        assert((dl.take(k) + seq![e] + dl.skip(k)).push(s.last()) =~= s.take(k) + seq![e] + s.skip(
            k,
        ));
    }
}

impl PriceDatabase {
    /// Every stored rate as `(day, from, to, rate)`, stably sorted by day,
    /// oldest first.
    pub fn all_rates(&self) -> (r: Vec<(i64, String, String, Rate)>)
        ensures
            rate_tuples_view(r@) == sort_by_day(self@),
    {
        let n = self.entries.len();
        let mut out: Vec<(i64, String, String, Rate)> = Vec::new();
        let mut i: usize = 0;
        proof {
            assert(self@.take(0) =~= Seq::<RateEntryView>::empty());
            assert(rate_tuples_view(out@) =~= sort_by_day(self@.take(0)));
        }
        while i < n
            invariant
                i <= n,
                n == self.entries.len(),
                self@.len() == n,
                rate_tuples_view(out@) == sort_by_day(self@.take(i as int)),
            decreases n - i,
        {
            let e = &self.entries[i];
            proof {
                assert(self@.take(i + 1).drop_last() =~= self@.take(i as int));
                assert(self@.take(i + 1).last() == self@[i as int]);
                assert(e@ == self@[i as int]);
            }
            let ghost sorted = rate_tuples_view(out@);
            let ghost ev = e@;
            // Find the insertion point: past every entry dated no later.
            let mut k = out.len();
            while k > 0 && out[k - 1].0 > e.day
                invariant
                    k <= out.len(),
                    rate_tuples_view(out@) == sorted,
                    out.len() == sorted.len(),
                    ev == e@,
                    forall|j: int| k <= j < sorted.len() ==> (#[trigger] sorted[j]).day > ev.day,
                decreases k,
            {
                proof {
                    assert(sorted[k - 1].day == out@[k - 1].0);
                }
                k -= 1;
            }
            proof {
                if k > 0 {
                    assert(sorted[k - 1].day == out@[k - 1].0);
                }
                lemma_insert_day_at(sorted, ev, k as int);
            }
            out.insert(k, (e.day, e.from.clone(), e.to.clone(), e.rate));
            proof {
                assert(rate_tuples_view(out@) =~= sorted.take(k as int) + seq![ev] + sorted.skip(
                    k as int,
                ));
            }
            i += 1;
        }
        proof {
            assert(self@.take(n as int) =~= self@);
        }
        out
    }
}

} // verus!
