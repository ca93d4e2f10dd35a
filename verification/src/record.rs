//! Double-entry records: postings, validation, and construction.
//!
//! A record is immutable once built: its identifier and timestamp are
//! assigned at construction and the only sanctioned correction path is an
//! adjustment record referencing it.

use vstd::prelude::*;

use crate::account::Account;
use crate::outside::{fresh_id_value, known_currency, now_timestamp_micros};

verus! {

/// The mathematical value of a posting: two paths and an amount.
pub ghost struct PostingView {
    pub debit_account: Seq<Seq<char>>,
    pub credit_account: Seq<Seq<char>>,
    pub amount: u64,
}

/// One debit/credit posting within a record. Amounts are in minor units.
#[derive(Debug)]
pub struct Posting {
    /// Account that is debited.
    pub debit_account: Account,
    /// Account that is credited.
    pub credit_account: Account,
    /// Monetary amount of the posting, in minor units of the record's currency.
    pub amount: u64,
}

impl View for Posting {
    type V = PostingView;

    open spec fn view(&self) -> PostingView {
        PostingView {
            debit_account: self.debit_account@,
            credit_account: self.credit_account@,
            amount: self.amount,
        }
    }
}

impl DeepView for Posting {
    type V = PostingView;

    open spec fn deep_view(&self) -> PostingView {
        self@
    }
}

impl Clone for Posting {
    /// Cloning keeps the accounts and the amount.
    fn clone(&self) -> (r: Posting)
        ensures
            r@ == self@,
    {
        Posting {
            debit_account: self.debit_account.duplicate(),
            credit_account: self.credit_account.duplicate(),
            amount: self.amount,
        }
    }
}

impl Posting {
    /// Character-level equality of two postings.
    pub fn matches(&self, other: &Posting) -> (r: bool)
        ensures
            r == (self@ == other@),
    {
        self.amount == other.amount && self.debit_account.matches(&other.debit_account)
            && self.credit_account.matches(&other.credit_account)
    }
}

impl PartialEq for Posting {
    fn eq(&self, other: &Posting) -> (r: bool)
        ensures
            r == (self@ == other@),
    {
        self.matches(other)
    }
}

impl Eq for Posting {

}

impl vstd::std_specs::cmp::PartialEqSpecImpl for Posting {
    open spec fn obeys_eq_spec() -> bool {
        true
    }

    open spec fn eq_spec(&self, other: &Posting) -> bool {
        self@ == other@
    }
}

/// A posting is valid when its accounts differ and its amount is positive.
pub open spec fn valid_posting(p: PostingView) -> bool {
    p.debit_account != p.credit_account && p.amount > 0
}

/// Errors that record construction can raise.
#[derive(Debug)]
pub enum RecordError {
    /// The debit and credit accounts are identical.
    SameAccount,
    /// The amount provided is not positive, or no posting was given.
    NonPositiveAmount,
    /// The provided currency code is not a known ISO 4217 code.
    UnsupportedCurrency(String),
}

/// The mathematical value of a construction error.
pub ghost enum RecordErrorView {
    SameAccount,
    NonPositiveAmount,
    UnsupportedCurrency(Seq<char>),
}

impl View for RecordError {
    type V = RecordErrorView;

    open spec fn view(&self) -> RecordErrorView {
        match self {
            RecordError::SameAccount => RecordErrorView::SameAccount,
            RecordError::NonPositiveAmount => RecordErrorView::NonPositiveAmount,
            RecordError::UnsupportedCurrency(c) => RecordErrorView::UnsupportedCurrency(c@),
        }
    }
}

impl Clone for RecordError {
    /// Cloning keeps the variant and the offending code.
    fn clone(&self) -> (r: RecordError)
        ensures
            r@ == self@,
    {
        match self {
            RecordError::SameAccount => RecordError::SameAccount,
            RecordError::NonPositiveAmount => RecordError::NonPositiveAmount,
            RecordError::UnsupportedCurrency(c) => RecordError::UnsupportedCurrency(c.clone()),
        }
    }
}

impl RecordError {
    /// Character-level equality of two errors.
    pub fn matches(&self, other: &RecordError) -> (r: bool)
        ensures
            r == (self@ == other@),
    {
        match (self, other) {
            (RecordError::SameAccount, RecordError::SameAccount) => true,
            (RecordError::NonPositiveAmount, RecordError::NonPositiveAmount) => true,
            (RecordError::UnsupportedCurrency(a), RecordError::UnsupportedCurrency(b)) => {
                crate::textutil::string_eq(a, b)
            },
            _ => false,
        }
    }
}

impl PartialEq for RecordError {
    fn eq(&self, other: &RecordError) -> (r: bool)
        ensures
            r == (self@ == other@),
    {
        self.matches(other)
    }
}

impl Eq for RecordError {

}

impl vstd::std_specs::cmp::PartialEqSpecImpl for RecordError {
    open spec fn obeys_eq_spec() -> bool {
        true
    }

    open spec fn eq_spec(&self, other: &RecordError) -> bool {
        self@ == other@
    }
}

/// The mathematical value of a record.
pub ghost struct RecordView {
    pub id: u128,
    pub timestamp: i64,
    pub description: Seq<char>,
    pub debit_account: Seq<Seq<char>>,
    pub credit_account: Seq<Seq<char>>,
    pub amount: u64,
    pub currency: Seq<char>,
    pub splits: Seq<PostingView>,
    pub reference_id: Option<u128>,
    pub external_reference: Option<Seq<char>>,
    pub tags: Seq<Seq<char>>,
    pub transaction_description: Option<Seq<char>>,
    pub cleared: bool,
}

/// One immutable double-entry transaction, possibly split across several
/// postings. The first posting is held inline; further ones in `splits`.
#[derive(Debug)]
pub struct Record {
    /// Unique identifier, assigned once at construction.
    pub id: u128,
    /// Creation instant, microseconds since the Unix epoch, assigned once.
    pub timestamp: i64,
    /// Description or memo for the transaction.
    pub description: String,
    /// Account that is debited by the first posting.
    pub debit_account: Account,
    /// Account that is credited by the first posting.
    pub credit_account: Account,
    /// Amount of the first posting, in minor units.
    pub amount: u64,
    /// ISO 4217 currency code for all postings.
    pub currency: String,
    /// Additional postings that make up a split transaction.
    pub splits: Vec<Posting>,
    /// Reference to the record this one adjusts, if any.
    pub reference_id: Option<u128>,
    /// External reference such as an invoice number, if any.
    pub external_reference: Option<String>,
    /// Tags for categorising the transaction.
    pub tags: Vec<String>,
    /// Description from the original statement line, if any.
    pub transaction_description: Option<String>,
    /// Whether the record has been reconciled with a statement line.
    pub cleared: bool,
}

impl View for Record {
    type V = RecordView;

    open spec fn view(&self) -> RecordView {
        RecordView {
            id: self.id,
            timestamp: self.timestamp,
            description: self.description@,
            debit_account: self.debit_account@,
            credit_account: self.credit_account@,
            amount: self.amount,
            currency: self.currency@,
            splits: self.splits.deep_view(),
            reference_id: self.reference_id,
            external_reference: self.external_reference.deep_view(),
            tags: self.tags.deep_view(),
            transaction_description: self.transaction_description.deep_view(),
            cleared: self.cleared,
        }
    }
}

impl DeepView for Record {
    type V = RecordView;

    open spec fn deep_view(&self) -> RecordView {
        self@
    }
}

/// All postings of a record: the inline one, then the splits.
pub open spec fn record_postings(rv: RecordView) -> Seq<PostingView> {
    seq![
        PostingView {
            debit_account: rv.debit_account,
            credit_account: rv.credit_account,
            amount: rv.amount,
        },
    ] + rv.splits
}

/// The first construction error that a scan of the postings meets:
/// identical accounts are reported before a zero amount, posting by posting.
pub open spec fn posting_error(ps: Seq<PostingView>) -> Option<RecordErrorView>
    decreases ps.len(),
{
    if ps.len() == 0 {
        None
    } else if ps[0].debit_account == ps[0].credit_account {
        Some(RecordErrorView::SameAccount)
    } else if ps[0].amount == 0 {
        Some(RecordErrorView::NonPositiveAmount)
    } else {
        posting_error(ps.drop_first())
    }
}

/// What constructing a record from these inputs yields: the error, or
/// nothing when construction succeeds.
pub open spec fn new_split_outcome(ps: Seq<PostingView>, currency: Seq<char>) -> Option<
    RecordErrorView,
> {
    if ps.len() == 0 {
        Some(RecordErrorView::NonPositiveAmount)
    } else if !known_currency(currency) {
        Some(RecordErrorView::UnsupportedCurrency(currency))
    } else {
        posting_error(ps)
    }
}

/// When the scan finds no error, every posting is valid, and conversely.
pub proof fn lemma_posting_error_none(ps: Seq<PostingView>)
    ensures
        posting_error(ps) is None <==> (forall|j: int|
            0 <= j < ps.len() ==> valid_posting(#[trigger] ps[j])),
    decreases ps.len(),
{
    if ps.len() > 0 {
        lemma_posting_error_none(ps.drop_first());
        if posting_error(ps) is None {
            assert(valid_posting(ps[0]));
            assert forall|j: int| 0 <= j < ps.len() implies valid_posting(#[trigger] ps[j]) by {
                if j >= 1 {
                    assert(ps.drop_first()[j - 1] == ps[j]);
                    assert(valid_posting(ps.drop_first()[j - 1]));
                }
            }
        } else {
            if valid_posting(ps[0]) {
                assert(posting_error(ps) == posting_error(ps.drop_first()));
                if forall|j: int| 0 <= j < ps.len() ==> valid_posting(#[trigger] ps[j]) {
                    assert forall|j: int|
                        0 <= j < ps.drop_first().len() implies valid_posting(
                        #[trigger] ps.drop_first()[j],
                    ) by {
                        assert(ps.drop_first()[j] == ps[j + 1]);
                    }
                    assert(posting_error(ps.drop_first()) is None);
                }
            }
        }
    }
}

impl Record {
    /// Creates a record with several postings after validating them and the
    /// currency. Succeeds exactly when at least one posting was given, every
    /// posting is valid, and the currency code is known; the identifier is
    /// freshly drawn and the timestamp is the clock's current instant.
    pub fn new_split(
        description: String,
        postings: Vec<Posting>,
        currency: String,
        reference_id: Option<u128>,
        external_reference: Option<String>,
        tags: Vec<String>,
    ) -> (r: Result<Record, RecordError>)
        ensures
            r is Ok <==> new_split_outcome(postings.deep_view(), currency@) is None,
            r matches Err(e) ==> Some(e@) == new_split_outcome(postings.deep_view(), currency@),
            r matches Ok(rec) ==> {
                let dv = postings.deep_view();
                &&& rec@.description == description@
                &&& rec@.debit_account == dv[0].debit_account
                &&& rec@.credit_account == dv[0].credit_account
                &&& rec@.amount == dv[0].amount
                &&& rec@.currency == currency@
                &&& rec@.splits == dv.drop_first()
                &&& rec@.reference_id == reference_id
                &&& rec@.external_reference == external_reference.deep_view()
                &&& rec@.tags == tags.deep_view()
                &&& rec@.transaction_description is None
                &&& rec@.cleared == false
            },
    {
        let ghost dv = postings.deep_view();
        if postings.len() == 0 {
            return Err(RecordError::NonPositiveAmount);
        }
        let known = crate::outside::currency_code_known(currency.as_str());
        if !known {
            return Err(RecordError::UnsupportedCurrency(currency));
        }
        assert(known_currency(currency@));
        let n = postings.len();
        let mut i: usize = 0;
        proof {
            assert(dv.skip(0) =~= dv);
        }
        while i < n
            invariant
                i <= n,
                n == postings.len(),
                n > 0,
                dv == postings.deep_view(),
                known_currency(currency@),
                posting_error(dv) == posting_error(dv.skip(i as int)),
            decreases n - i,
        {
            let p = &postings[i];
            proof {
                assert(dv.skip(i as int)[0] == dv[i as int]);
                assert(dv.skip(i as int).drop_first() =~= dv.skip(i + 1));
            }
            if p.debit_account.matches(&p.credit_account) {
                proof {
                    assert(dv.skip(i as int)[0].debit_account == dv.skip(i as int)[0].credit_account);
                    assert(posting_error(dv.skip(i as int)) == Some(RecordErrorView::SameAccount));
                    assert(dv.len() > 0);
                    assert(new_split_outcome(dv, currency@) == Some(RecordErrorView::SameAccount));
                }
                return Err(RecordError::SameAccount);
            }
            if p.amount == 0 {
                proof {
                    assert(posting_error(dv.skip(i as int)) == Some(
                        RecordErrorView::NonPositiveAmount,
                    ));
                    assert(new_split_outcome(dv, currency@) == Some(
                        RecordErrorView::NonPositiveAmount,
                    ));
                }
                return Err(RecordError::NonPositiveAmount);
            }
            i += 1;
        }
        proof {
            assert(dv.skip(n as int) =~= Seq::<PostingView>::empty());
        }
        let mut postings = postings;
        let first = postings.remove(0);
        proof {
            assert(postings.deep_view() =~= dv.drop_first());
        }
        Ok(Record {
            id: fresh_id_value(),
            timestamp: now_timestamp_micros(),
            description,
            debit_account: first.debit_account,
            credit_account: first.credit_account,
            amount: first.amount,
            currency,
            splits: postings,
            reference_id,
            external_reference,
            tags,
            transaction_description: None,
            cleared: false,
        })
    }

    /// Creates a record with a single posting.
    pub fn new(
        description: String,
        debit_account: Account,
        credit_account: Account,
        amount: u64,
        currency: String,
        reference_id: Option<u128>,
        external_reference: Option<String>,
        tags: Vec<String>,
    ) -> (r: Result<Record, RecordError>)
        ensures
            ({
                let p = PostingView {
                    debit_account: debit_account@,
                    credit_account: credit_account@,
                    amount,
                };
                &&& (r is Ok <==> new_split_outcome(seq![p], currency@) is None)
                &&& (r matches Err(e) ==> Some(e@) == new_split_outcome(seq![p], currency@))
                &&& (r matches Ok(rec) ==> {
                    &&& rec@.description == description@
                    &&& rec@.debit_account == debit_account@
                    &&& rec@.credit_account == credit_account@
                    &&& rec@.amount == amount
                    &&& rec@.currency == currency@
                    &&& rec@.splits == Seq::<PostingView>::empty()
                    &&& rec@.reference_id == reference_id
                    &&& rec@.external_reference == external_reference.deep_view()
                    &&& rec@.tags == tags.deep_view()
                    &&& rec@.transaction_description is None
                    &&& rec@.cleared == false
                })
            }),
    {
        let postings = vec![
            Posting { debit_account, credit_account, amount },
        ];
        proof {
            assert(postings.deep_view() =~= seq![
                PostingView {
                    debit_account: debit_account@,
                    credit_account: credit_account@,
                    amount,
                },
            ]);
            assert(postings.deep_view().drop_first() =~= Seq::<PostingView>::empty());
        }
        Record::new_split(description, postings, currency, reference_id, external_reference, tags)
    }

    /// All postings of the record: the inline one, then the splits.
    pub fn postings(&self) -> (r: Vec<Posting>)
        ensures
            r.deep_view() == record_postings(self@),
    {
        let mut r: Vec<Posting> = Vec::new();
        r.push(Posting {
            debit_account: self.debit_account.duplicate(),
            credit_account: self.credit_account.duplicate(),
            amount: self.amount,
        });
        let mut i: usize = 0;
        assert(r.deep_view()[0] == record_postings(self@)[0]);
        while i < self.splits.len()
            invariant
                i <= self.splits.len(),
                r.len() == 1 + i,
                forall|j: int| 0 <= j < 1 + i ==> r.deep_view()[j] == record_postings(self@)[j],
        decreases self.splits.len() - i,
        {
            let ghost prev = r.deep_view();
            r.push(self.splits[i].clone());
            proof {
                assert forall|j: int| 0 <= j < 1 + i + 1 implies r.deep_view()[j]
                    == record_postings(self@)[j] by {
                    if j < 1 + i {
                        assert(r.deep_view()[j] == prev[j]);
                    } else {
                        assert(r.deep_view()[j] == self.splits.deep_view()[i as int]);
                    }
                }
            }
            i += 1;
        }
        proof {
            assert(r.deep_view() =~= record_postings(self@));
        }
        r
    }

    /// Character-level equality of two records.
    pub fn matches(&self, other: &Record) -> (r: bool)
        ensures
            r == (self@ == other@),
    {
        if !(self.id == other.id && self.timestamp == other.timestamp && self.amount
            == other.amount && self.cleared == other.cleared) {
            return false;
        }
        if !crate::textutil::string_eq(&self.description, &other.description) {
            return false;
        }
        if !self.debit_account.matches(&other.debit_account) {
            return false;
        }
        if !self.credit_account.matches(&other.credit_account) {
            return false;
        }
        if !crate::textutil::string_eq(&self.currency, &other.currency) {
            return false;
        }
        if !vec_posting_eq(&self.splits, &other.splits) {
            return false;
        }
        match (&self.reference_id, &other.reference_id) {
            (Some(a), Some(b)) => {
                if a != b {
                    return false;
                }
            },
            (None, None) => {},
            _ => {
                return false;
            },
        }
        match (&self.external_reference, &other.external_reference) {
            (Some(a), Some(b)) => {
                if !crate::textutil::string_eq(a, b) {
                    return false;
                }
            },
            (None, None) => {},
            _ => {
                return false;
            },
        }
        if !vec_string_eq(&self.tags, &other.tags) {
            return false;
        }
        match (&self.transaction_description, &other.transaction_description) {
            (Some(a), Some(b)) => {
                if !crate::textutil::string_eq(a, b) {
                    return false;
                }
            },
            (None, None) => {},
            _ => {
                return false;
            },
        }
        true
    }
}

impl Clone for Record {
    /// Cloning keeps every field.
    fn clone(&self) -> (r: Record)
        ensures
            r@ == self@,
    {
        let splits = clone_postings(&self.splits);
        let tags = clone_strings(&self.tags);
        let r = Record {
            id: self.id,
            timestamp: self.timestamp,
            description: self.description.clone(),
            debit_account: self.debit_account.duplicate(),
            credit_account: self.credit_account.duplicate(),
            amount: self.amount,
            currency: self.currency.clone(),
            splits,
            reference_id: self.reference_id,
            external_reference: clone_opt_string(&self.external_reference),
            tags,
            transaction_description: clone_opt_string(&self.transaction_description),
            cleared: self.cleared,
        };
        r
    }
}

impl PartialEq for Record {
    fn eq(&self, other: &Record) -> (r: bool)
        ensures
            r == (self@ == other@),
    {
        self.matches(other)
    }
}

impl vstd::std_specs::cmp::PartialEqSpecImpl for Record {
    open spec fn obeys_eq_spec() -> bool {
        true
    }

    open spec fn eq_spec(&self, other: &Record) -> bool {
        self@ == other@
    }
}

/// A copy of an optional string with the same characters.
pub(crate) fn clone_opt_string(s: &Option<String>) -> (r: Option<String>)
    ensures
        r.deep_view() == s.deep_view(),
{
    match s {
        Some(v) => Some(v.clone()),
        None => None,
    }
}

/// A copy of a string vector with the same characters.
pub(crate) fn clone_strings(v: &Vec<String>) -> (r: Vec<String>)
    ensures
        r.deep_view() == v.deep_view(),
{
    let mut r: Vec<String> = Vec::new();
    let mut i: usize = 0;
    while i < v.len()
        invariant
            i <= v.len(),
            r.len() == i,
            forall|j: int| 0 <= j < i ==> r.deep_view()[j] == v.deep_view()[j],
        decreases v.len() - i,
    {
        r.push(v[i].clone());
        assert(r.deep_view()[i as int] == v.deep_view()[i as int]);
        i += 1;
    }
    proof {
        assert(r.deep_view() =~= v.deep_view());
    }
    r
}

/// A copy of a posting vector with the same values.
pub(crate) fn clone_postings(v: &Vec<Posting>) -> (r: Vec<Posting>)
    ensures
        r.deep_view() == v.deep_view(),
{
    let mut r: Vec<Posting> = Vec::new();
    let mut i: usize = 0;
    while i < v.len()
        invariant
            i <= v.len(),
            r.len() == i,
            forall|j: int| 0 <= j < i ==> r.deep_view()[j] == v.deep_view()[j],
        decreases v.len() - i,
    {
        r.push(v[i].clone());
        assert(r.deep_view()[i as int] == v.deep_view()[i as int]);
        i += 1;
    }
    proof {
        assert(r.deep_view() =~= v.deep_view());
    }
    r
}

/// Element-wise equality of two posting vectors.
pub(crate) fn vec_posting_eq(a: &Vec<Posting>, b: &Vec<Posting>) -> (r: bool)
    ensures
        r == (a.deep_view() == b.deep_view()),
{
    if a.len() != b.len() {
        assert(a.deep_view().len() != b.deep_view().len());
        return false;
    }
    let n = a.len();
    let mut i: usize = 0;
    while i < n
        invariant
            i <= n,
            n == a.len(),
            n == b.len(),
            forall|j: int| 0 <= j < i ==> a.deep_view()[j] == b.deep_view()[j],
        decreases n - i,
    {
        if !a[i].matches(&b[i]) {
            assert(a.deep_view()[i as int] != b.deep_view()[i as int]);
            return false;
        }
        i += 1;
    }
    proof {
        assert(a.deep_view() =~= b.deep_view());
    }
    true
}

/// Element-wise equality of two string vectors.
pub(crate) fn vec_string_eq(a: &Vec<String>, b: &Vec<String>) -> (r: bool)
    ensures
        r == (a.deep_view() == b.deep_view()),
{
    if a.len() != b.len() {
        assert(a.deep_view().len() != b.deep_view().len());
        return false;
    }
    let n = a.len();
    let mut i: usize = 0;
    while i < n
        invariant
            i <= n,
            n == a.len(),
            n == b.len(),
            forall|j: int| 0 <= j < i ==> a.deep_view()[j] == b.deep_view()[j],
        decreases n - i,
    {
        if !crate::textutil::string_eq(&a[i], &b[i]) {
            assert(a.deep_view()[i as int] != b.deep_view()[i as int]);
            return false;
        }
        i += 1;
    }
    proof {
        assert(a.deep_view() =~= b.deep_view());
    }
    true
}

} // verus!
