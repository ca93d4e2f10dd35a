//! Currency-aware balance aggregation: folds over every posting of every
//! record, converting amounts into a target currency through the rate
//! source. Debits raise the balance, credits lower it; a posting with no
//! applicable rate contributes nothing.

use vstd::prelude::*;

use vstd::arithmetic::div_mod::{lemma_div_nonincreasing, lemma_div_pos_is_pos,
    lemma_fundamental_div_mod_converse};
use vstd::arithmetic::mul::lemma_mul_upper_bound;

use crate::account::Account;
use crate::ledger::Ledger;
use crate::prices::{best_rate, rates_wf, PriceDatabase, RateEntryView};
use crate::record::{record_postings, PostingView, Record, RecordView};
use crate::textutil::{spec_join, str_eq};

verus! {

/// Day number (days since the Unix epoch) of an instant given in
/// microseconds; instants before the epoch fall on negative days.
pub open spec fn day_of_micros(us: i64) -> int {
    us as int / 86_400_000_000
}

/// Computes the day number of an instant.
pub fn day_of_timestamp(us: i64) -> (d: i64)
    ensures
        d == day_of_micros(us),
{
    if us >= 0 {
        let d = (us as u64) / 86_400_000_000;
        proof {
            assert(us as int / 86_400_000_000 == d as int);
        }
        d as i64
    } else {
        let pos: u64 = ((-(us + 1)) as u64) + 1;
        let q0 = pos / 86_400_000_000;
        let rem = pos % 86_400_000_000;
        proof {
            assert(pos as int == -(us as int));
            assert(pos as int == q0 as int * 86_400_000_000 + rem as int);
            if rem == 0 {
                lemma_fundamental_div_mod_converse(
                    us as int,
                    86_400_000_000,
                    -(q0 as int),
                    0,
                );
            } else {
                lemma_fundamental_div_mod_converse(
                    us as int,
                    86_400_000_000,
                    -(q0 as int) - 1,
                    86_400_000_000 - rem as int,
                );
            }
        }
        if rem == 0 {
            -(q0 as i64)
        } else {
            -((q0 + 1) as i64)
        }
    }
}

/// What a posting of `amount` in record `rv`'s currency is worth in
/// `target`: unconverted when the currencies are the same; `amount * rate`
/// at the record's date otherwise; zero when no rate applies.
pub open spec fn converted_amount(
    rv: RecordView,
    amount: u64,
    target: Seq<char>,
    db: Seq<RateEntryView>,
) -> int {
    if rv.currency == target {
        amount as int
    } else {
        match best_rate(db, day_of_micros(rv.timestamp), rv.currency, target) {
            Some(e) => amount as int * e.num as int / e.den as int,
            None => 0,
        }
    }
}

/// Which postings an aggregation counts: those naming exactly one account,
/// or every account in a subtree.
pub ghost enum BalanceSel {
    /// The posting's account, written out, equals this text.
    ByName(Seq<char>),
    /// These segments are a prefix of the posting's account.
    BySubtree(Seq<Seq<char>>),
}

/// Does the selector pick this account?
pub open spec fn sel_hits(sel: BalanceSel, a: Seq<Seq<char>>) -> bool {
    match sel {
        BalanceSel::ByName(n) => spec_join(a, ':') == n,
        BalanceSel::BySubtree(r) => r.is_prefix_of(a),
    }
}

/// One posting's contribution: plus the converted amount when the debit
/// account is selected, minus it when the credit account is.
pub open spec fn posting_delta(
    rv: RecordView,
    p: PostingView,
    sel: BalanceSel,
    target: Seq<char>,
    db: Seq<RateEntryView>,
) -> int {
    let amt = converted_amount(rv, p.amount, target, db);
    (if sel_hits(sel, p.debit_account) {
        amt
    } else {
        0
    }) + (if sel_hits(sel, p.credit_account) {
        -amt
    } else {
        0
    })
}

/// The sum of the contributions of a run of postings of one record.
pub open spec fn postings_delta(
    rv: RecordView,
    ps: Seq<PostingView>,
    sel: BalanceSel,
    target: Seq<char>,
    db: Seq<RateEntryView>,
) -> int
    decreases ps.len(),
{
    if ps.len() == 0 {
        0
    } else {
        postings_delta(rv, ps.drop_last(), sel, target, db) + posting_delta(
            rv,
            ps.last(),
            sel,
            target,
            db,
        )
    }
}

/// One record's contribution: the sum over all its postings.
pub open spec fn record_delta(
    rv: RecordView,
    sel: BalanceSel,
    target: Seq<char>,
    db: Seq<RateEntryView>,
) -> int {
    postings_delta(rv, record_postings(rv), sel, target, db)
}

/// The balance: the sum of every record's contribution.
pub open spec fn ledger_delta(
    s: Seq<RecordView>,
    sel: BalanceSel,
    target: Seq<char>,
    db: Seq<RateEntryView>,
) -> int
    decreases s.len(),
{
    if s.len() == 0 {
        0
    } else {
        ledger_delta(s.drop_last(), sel, target, db) + record_delta(s.last(), sel, target, db)
    }
}

/// How many postings the records hold in all.
pub open spec fn posting_count(s: Seq<RecordView>) -> int
    decreases s.len(),
{
    if s.len() == 0 {
        0
    } else {
        posting_count(s.drop_last()) + 1 + s.last().splits.len()
    }
}

/// Posting counts are non-negative and grow along prefixes.
pub proof fn lemma_posting_count_prefix(s: Seq<RecordView>, i: int)
    requires
        0 <= i <= s.len(),
    ensures
        0 <= posting_count(s.take(i)),
        posting_count(s.take(i)) <= posting_count(s),
    decreases s.len() - i, s.len(),
{
    lemma_posting_count_nonneg(s.take(i));
    if i == s.len() {
        assert(s.take(i) =~= s);
    } else {
        lemma_posting_count_prefix(s, i + 1);
        assert(s.take(i + 1).drop_last() =~= s.take(i));
        assert(s.take(i + 1).last() == s[i]);
    }
}

proof fn lemma_posting_count_nonneg(s: Seq<RecordView>)
    ensures
        posting_count(s) >= 0,
    decreases s.len(),
{
    if s.len() > 0 {
        lemma_posting_count_nonneg(s.drop_last());
    }
}

/// Every converted amount is non-negative and below 2^96.
proof fn lemma_converted_bound(
    rv: RecordView,
    amount: u64,
    target: Seq<char>,
    db: Seq<RateEntryView>,
)
    requires
        rates_wf(db),
    ensures
        0 <= converted_amount(rv, amount, target, db) <= 0xffff_ffff_ffff_ffff_ffff_ffff,
{
    if rv.currency != target {
        match best_rate(db, day_of_micros(rv.timestamp), rv.currency, target) {
            Some(e) => {
                crate::prices::lemma_best_rate_member(
                    db,
                    day_of_micros(rv.timestamp),
                    rv.currency,
                    target,
                );
                assert(e.den > 0);
                lemma_mul_upper_bound(amount as int, 0xffff_ffff_ffff_ffff, e.num as int, 0xffff_ffff);
                assert(amount as int * e.num as int >= 0) by (nonlinear_arith)
                    requires amount >= 0 && e.num >= 0;
                lemma_div_pos_is_pos(amount * e.num, e.den as int);
                lemma_div_nonincreasing(amount * e.num, e.den as int);
            },
            None => {},
        }
    }
}

/// The filter an aggregation runs with.
enum BalanceFilter {
    /// Count postings whose account, written out, equals this text.
    Exact(String),
    /// Count postings whose account lies under this path.
    Subtree(Account),
}

impl BalanceFilter {
    spec fn sel(&self) -> BalanceSel {
        match self {
            BalanceFilter::Exact(s) => BalanceSel::ByName(s@),
            BalanceFilter::Subtree(a) => BalanceSel::BySubtree(a@),
        }
    }

    /// Does the filter pick this account?
    fn hits(&self, a: &Account) -> (r: bool)
        ensures
            r == sel_hits(self.sel(), a@),
    {
        match self {
            BalanceFilter::Exact(s) => {
                let t = a.to_text();
                str_eq(t.as_str(), s.as_str())
            },
            BalanceFilter::Subtree(root) => a.starts_with(root),
        }
    }
}

/// One record's contribution, computed posting by posting.
fn record_balance(
    rec: &Record,
    filter: &BalanceFilter,
    target: &str,
    prices: &PriceDatabase,
) -> (r: i128)
    requires
        rates_wf(prices@),
        1 + rec@.splits.len() <= 0x8000_0000,
    ensures
        r == record_delta(rec@, filter.sel(), target@, prices@),
        -posting_count(seq![rec@]) * 0xffff_ffff_ffff_ffff_ffff_ffff <= r <= posting_count(
            seq![rec@],
        ) * 0xffff_ffff_ffff_ffff_ffff_ffff,
{
    let ghost rv = rec@;
    let ghost psv = record_postings(rec@);
    let ghost sel = filter.sel();
    let ps = rec.postings();
    let n = ps.len();
    proof {
        assert(psv.len() == 1 + rv.splits.len());
        assert(psv.take(0) =~= Seq::<PostingView>::empty());
    }
    let mut acc: i128 = 0;
    let mut k: usize = 0;
    while k < n
        invariant
            k <= n,
            n == ps.len(),
            n == psv.len(),
            n <= 0x8000_0000,
            rv == rec@,
            sel == filter.sel(),
            psv == record_postings(rv),
            ps.deep_view() == psv,
            rates_wf(prices@),
            acc == postings_delta(rv, psv.take(k as int), sel, target@, prices@),
            -(k as int) * 0xffff_ffff_ffff_ffff_ffff_ffff <= acc <= (k as int)
                * 0xffff_ffff_ffff_ffff_ffff_ffff,
        decreases n - k,
    {
        let p = &ps[k];
        proof {
            assert(p@ == psv[k as int]);
            assert(psv.take(k + 1).drop_last() =~= psv.take(k as int));
            assert(psv.take(k + 1).last() == psv[k as int]);
            lemma_converted_bound(rv, p.amount, target@, prices@);
        }
        let amt = converted(rec, p.amount, target, prices);
        if filter.hits(&p.debit_account) {
            acc = acc + amt;
        }
        if filter.hits(&p.credit_account) {
            acc = acc - amt;
        }
        k += 1;
    }
    proof {
        assert(psv.take(n as int) =~= psv);
        assert(posting_count(seq![rv]) == 1 + rv.splits.len()) by {
            assert(seq![rv].drop_last() =~= Seq::<RecordView>::empty());
            assert(seq![rv].last() == rv);
            assert(posting_count(Seq::<RecordView>::empty()) == 0);
        }
    }
    acc
}

/// The converted worth of one posting amount.
fn converted(rec: &Record, amount: u64, target: &str, prices: &PriceDatabase) -> (r: i128)
    requires
        rates_wf(prices@),
    ensures
        r == converted_amount(rec@, amount, target@, prices@),
        0 <= r <= 0xffff_ffff_ffff_ffff_ffff_ffff,
{
    proof {
        lemma_converted_bound(rec@, amount, target@, prices@);
    }
    if str_eq(rec.currency.as_str(), target) {
        amount as i128
    } else {
        let day = day_of_timestamp(rec.timestamp);
        match prices.get_rate(day, rec.currency.as_str(), target) {
            Some(rt) => {
                proof {
                    lemma_mul_upper_bound(
                        amount as int,
                        0xffff_ffff_ffff_ffff,
                        rt.num as int,
                        0xffff_ffff,
                    );
                }
                let prod: u128 = (amount as u128) * (rt.num as u128);
                let q: u128 = prod / (rt.den as u128);
                proof {
                    lemma_div_pos_is_pos(prod as int, rt.den as int);
                    lemma_div_nonincreasing(prod as int, rt.den as int);
                }
                q as i128
            },
            None => 0,
        }
    }
}

/// The whole aggregation, record by record.
fn balance_by(
    ledger: &Ledger,
    filter: &BalanceFilter,
    target: &str,
    prices: &PriceDatabase,
) -> (r: i128)
    requires
        rates_wf(prices@),
        posting_count(ledger@) <= 0x8000_0000,
    ensures
        r == ledger_delta(ledger@, filter.sel(), target@, prices@),
{
    let ghost sv = ledger@;
    let ghost sel = filter.sel();
    let recs = ledger.records();
    let n = recs.len();
    proof {
        assert(sv.take(0) =~= Seq::<RecordView>::empty());
        lemma_posting_count_prefix(sv, 0);
    }
    let mut acc: i128 = 0;
    let mut i: usize = 0;
    while i < n
        invariant
            i <= n,
            n == recs.len(),
            n == sv.len(),
            sv == ledger@,
            sel == filter.sel(),
            recs.deep_view() == sv,
            rates_wf(prices@),
            posting_count(sv) <= 0x8000_0000,
            acc == ledger_delta(sv.take(i as int), sel, target@, prices@),
            -posting_count(sv.take(i as int)) * 0xffff_ffff_ffff_ffff_ffff_ffff <= acc
                <= posting_count(sv.take(i as int)) * 0xffff_ffff_ffff_ffff_ffff_ffff,
        decreases n - i,
    {
        let rec = &recs[i];
        proof {
            assert(rec@ == sv[i as int]);
            assert(sv.take(i + 1).drop_last() =~= sv.take(i as int));
            assert(sv.take(i + 1).last() == sv[i as int]);
            lemma_posting_count_prefix(sv, i as int);
            lemma_posting_count_prefix(sv, i + 1);
            assert(posting_count(sv.take(i + 1)) == posting_count(sv.take(i as int)) + 1 + sv[
                i as int
            ].splits.len());
            lemma_posting_count_nonneg(sv.take(i as int));
        }
        let d = record_balance(rec, filter, target, prices);
        proof {
            assert(posting_count(seq![rec@]) == 1 + rec@.splits.len()) by {
                assert(seq![rec@].drop_last() =~= Seq::<RecordView>::empty());
                assert(seq![rec@].last() == rec@);
                assert(posting_count(Seq::<RecordView>::empty()) == 0);
            }
        }
        acc = acc + d;
        i += 1;
    }
    proof {
        assert(sv.take(n as int) =~= sv);
    }
    acc
}

impl Ledger {
    /// The balance of the account written exactly as `account`, in
    /// `target` currency: per posting, plus the converted amount on the
    /// debit side, minus it on the credit side; a posting with no
    /// applicable rate contributes zero.
    pub fn account_balance(&self, account: &str, target: &str, prices: &PriceDatabase) -> (r: i128)
        requires
            rates_wf(prices@),
            posting_count(self@) <= 0x8000_0000,
        ensures
            r == ledger_delta(self@, BalanceSel::ByName(account@), target@, prices@),
    {
        let filter = BalanceFilter::Exact(account.to_owned());
        balance_by(self, &filter, target, prices)
    }

    /// The balance of an account and all of its subaccounts.
    pub fn account_tree_balance(
        &self,
        account: &Account,
        target: &str,
        prices: &PriceDatabase,
    ) -> (r: i128)
        requires
            rates_wf(prices@),
            posting_count(self@) <= 0x8000_0000,
        ensures
            r == ledger_delta(self@, BalanceSel::BySubtree(account@), target@, prices@),
    {
        let filter = BalanceFilter::Subtree(account.duplicate());
        balance_by(self, &filter, target, prices)
    }
}

} // verus!
