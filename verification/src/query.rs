//! Record queries: a small token language for filtering records by
//! account, tag and date range.
//!
//! A query text is a run of space-separated tokens: `account:NAME`,
//! `tag:NAME`, `start:YYYY-MM-DD`, `end:YYYY-MM-DD`, or
//! `date:YYYY-MM-DD..YYYY-MM-DD` with either bound optional.

use vstd::prelude::*;
use vstd::string::*;

use crate::balance::day_of_micros;
use crate::ledger::Ledger;
use crate::numtext::{dec_to_u64, dec_value, is_dec_digit, spec_parse_u64};
use crate::record::{record_postings, PostingView, Record, RecordView};
use crate::textutil::{spec_join, spec_split, split_on, str_eq};

verus! {

/// Errors that query parsing can raise.
#[derive(Debug)]
pub enum ParseError {
    /// A token carries no known prefix or is shaped wrongly.
    InvalidToken(String),
    /// A date bound does not read as a calendar date.
    InvalidDate(String),
}

/// The mathematical value of a parse error.
pub ghost enum ParseErrorView {
    InvalidToken(Seq<char>),
    InvalidDate(Seq<char>),
}

impl View for ParseError {
    type V = ParseErrorView;

    open spec fn view(&self) -> ParseErrorView {
        match self {
            ParseError::InvalidToken(t) => ParseErrorView::InvalidToken(t@),
            ParseError::InvalidDate(t) => ParseErrorView::InvalidDate(t@),
        }
    }
}

impl ParseError {
    /// Character-level equality of two errors.
    pub fn matches(&self, other: &ParseError) -> (r: bool)
        ensures
            r == (self@ == other@),
    {
        match (self, other) {
            (ParseError::InvalidToken(a), ParseError::InvalidToken(b)) => {
                crate::textutil::string_eq(a, b)
            },
            (ParseError::InvalidDate(a), ParseError::InvalidDate(b)) => {
                crate::textutil::string_eq(a, b)
            },
            _ => false,
        }
    }
}

impl PartialEq for ParseError {
    fn eq(&self, other: &ParseError) -> (r: bool)
        ensures
            r == (self@ == other@),
    {
        self.matches(other)
    }
}

impl Eq for ParseError {

}

impl vstd::std_specs::cmp::PartialEqSpecImpl for ParseError {
    open spec fn obeys_eq_spec() -> bool {
        true
    }

    open spec fn eq_spec(&self, other: &ParseError) -> bool {
        self@ == other@
    }
}

/// Is the given year a leap year of the proleptic Gregorian calendar?
pub open spec fn is_leap_year(y: int) -> bool {
    y % 4 == 0 && (y % 100 != 0 || y % 400 == 0)
}

/// How many days the month holds.
pub open spec fn days_in_month(y: int, m: int) -> int {
    if m == 2 {
        if is_leap_year(y) {
            29
        } else {
            28
        }
    } else if m == 4 || m == 6 || m == 9 || m == 11 {
        30
    } else {
        31
    }
}

/// The day number (days since the Unix epoch) of a calendar date, for
/// years from 0 through 9999: the standard civil-from-days computation,
/// run over the era that starts 400 years early so every quantity stays
/// non-negative.
pub open spec fn civil_day(y: int, m: int, d: int) -> int {
    let yy = if m <= 2 {
        y + 399
    } else {
        y + 400
    };
    let era = yy / 400;
    let yoe = yy % 400;
    let mp = (m + 9) % 12;
    let doy = (153 * mp + 2) / 5 + d - 1;
    let doe = yoe * 365 + yoe / 4 - yoe / 100 + doy;
    era * 146097 + doe - 719468 - 146097
}

/// Computes the day number of a calendar date.
pub fn civil_day_number(y: u64, m: u64, d: u64) -> (r: i64)
    requires
        y <= 9999,
        1 <= m <= 12,
        1 <= d <= 31,
    ensures
        r == civil_day(y as int, m as int, d as int),
{
    let yy: u64 = if m <= 2 {
        y + 399
    } else {
        y + 400
    };
    let era: u64 = yy / 400;
    let yoe: u64 = yy % 400;
    let mp: u64 = (m + 9) % 12;
    let doy: u64 = (153 * mp + 2) / 5 + d - 1;
    let doe: u64 = yoe * 365 + yoe / 4 - yoe / 100 + doy;
    let total: u64 = era * 146097 + doe;
    (total as i64) - 719468 - 146097
}

/// What parsing a `YYYY-MM-DD` text yields: the day number when the shape
/// and the calendar both accept it, nothing otherwise.
pub open spec fn spec_parse_date(s: Seq<char>) -> Option<i64> {
    if s.len() == 10 && s[4] == '-' && s[7] == '-' && spec_parse_u64(s.take(4)) is Some
        && spec_parse_u64(s.subrange(5, 7)) is Some && spec_parse_u64(s.subrange(8, 10)) is Some {
        let y = spec_parse_u64(s.take(4))->0;
        let m = spec_parse_u64(s.subrange(5, 7))->0;
        let d = spec_parse_u64(s.subrange(8, 10))->0;
        if 1 <= m <= 12 && 1 <= d <= days_in_month(y as int, m as int) {
            Some(civil_day(y as int, m as int, d as int) as i64)
        } else {
            None
        }
    } else {
        None
    }
}

/// Parses a `YYYY-MM-DD` date text; mirrors `spec_parse_date`.
pub fn parse_date_text(s: &str) -> (r: Option<i64>)
    ensures
        r == spec_parse_date(s@),
{
    let n = s.unicode_len();
    if n != 10 {
        return None;
    }
    if s.get_char(4) != '-' || s.get_char(7) != '-' {
        return None;
    }
    let ytext = s.substring_char(0, 4);
    let mtext = s.substring_char(5, 7);
    let dtext = s.substring_char(8, 10);
    proof {
        assert(ytext@ =~= s@.take(4));
        assert(mtext@ =~= s@.subrange(5, 7));
        assert(dtext@ =~= s@.subrange(8, 10));
    }
    let y = match dec_to_u64(ytext) {
        Some(v) => v,
        None => {
            return None;
        },
    };
    let m = match dec_to_u64(mtext) {
        Some(v) => v,
        None => {
            return None;
        },
    };
    let d = match dec_to_u64(dtext) {
        Some(v) => v,
        None => {
            return None;
        },
    };
    proof {
        lemma_dec_value_small(s@.take(4), 4);
        lemma_dec_value_small(s@.subrange(5, 7), 2);
        lemma_dec_value_small(s@.subrange(8, 10), 2);
    }
    if !(1 <= m && m <= 12) {
        return None;
    }
    let limit: u64 = if m == 2 {
        let leap = y % 4 == 0 && (y % 100 != 0 || y % 400 == 0);
        if leap {
            29
        } else {
            28
        }
    } else if m == 4 || m == 6 || m == 9 || m == 11 {
        30
    } else {
        31
    };
    if !(1 <= d && d <= limit) {
        return None;
    }
    Some(civil_day_number(y, m, d))
}

/// A digit string at most four wide denotes a value below ten thousand.
proof fn lemma_dec_value_small(s: Seq<char>, k: int)
    requires
        s.len() == k,
        1 <= k <= 4,
    ensures
        spec_parse_u64(s) matches Some(v) ==> v < 10000,
{
    if spec_parse_u64(s) is Some {
        lemma_dec_value_width_bound(s);
        assert(vstd::arithmetic::power::pow(10, 1) == 10 && vstd::arithmetic::power::pow(10, 2)
            == 100 && vstd::arithmetic::power::pow(10, 3) == 1000 && vstd::arithmetic::power::pow(
            10,
            4,
        ) == 10000) by {
            reveal_with_fuel(vstd::arithmetic::power::pow, 5);
        }
        if k == 1 {
            assert(dec_value(s) < 10);
        } else if k == 2 {
            assert(dec_value(s) < 100);
        } else if k == 3 {
            assert(dec_value(s) < 1000);
        } else {
            assert(dec_value(s) < 10000);
        }
    }
}

proof fn lemma_dec_value_width_bound(s: Seq<char>)
    requires
        1 <= s.len() <= 4,
        forall|j: int| 0 <= j < s.len() ==> is_dec_digit(#[trigger] s[j]),
    ensures
        0 <= dec_value(s) < vstd::arithmetic::power::pow(10, s.len() as nat),
    decreases s.len(),
{
    vstd::arithmetic::power::lemma_pow_positive(10, (s.len() - 1) as nat);
    if s.len() == 1 {
        assert(vstd::arithmetic::power::pow(10, 1) == 10) by {
            reveal_with_fuel(vstd::arithmetic::power::pow, 2);
        }
        assert(s.drop_last() =~= Seq::<char>::empty());
        assert(dec_value(s) == dec_value(s.drop_last()) * 10 + crate::numtext::digit_val(s.last()));
        assert(is_dec_digit(s.last()));
        assert(crate::numtext::digit_val(s.last()) < 10);
    } else {
        let dl = s.drop_last();
        assert(forall|j: int| 0 <= j < dl.len() ==> dl[j] == s[j]);
        lemma_dec_value_width_bound(dl);
        assert(vstd::arithmetic::power::pow(10, s.len() as nat) == 10
            * vstd::arithmetic::power::pow(10, (s.len() - 1) as nat)) by {
            reveal_with_fuel(vstd::arithmetic::power::pow, 1);
        }
        assert(dec_value(s) == dec_value(dl) * 10 + crate::numtext::digit_val(s.last()));
        assert(dec_value(dl) * 10 + 10 <= vstd::arithmetic::power::pow(10, (s.len() - 1) as nat)
            * 10) by (nonlinear_arith)
            requires
                dec_value(dl) + 1 <= vstd::arithmetic::power::pow(10, (s.len() - 1) as nat),
        ;
    }
}

/// The mathematical value of a query.
pub ghost struct QueryView {
    pub accounts: Seq<Seq<char>>,
    pub tags: Seq<Seq<char>>,
    pub start: Option<i64>,
    pub end: Option<i64>,
}

/// A record filter: accounts and tags to match, and an inclusive date
/// range, all optional.
#[derive(Debug)]
pub struct Query {
    /// Accounts a matching record must touch, written out; empty means any.
    pub accounts: Vec<String>,
    /// Tags a matching record must carry one of; empty means any.
    pub tags: Vec<String>,
    /// Earliest matching day (days since the Unix epoch), if bounded.
    pub start: Option<i64>,
    /// Latest matching day, if bounded.
    pub end: Option<i64>,
}

impl View for Query {
    type V = QueryView;

    open spec fn view(&self) -> QueryView {
        QueryView {
            accounts: self.accounts.deep_view(),
            tags: self.tags.deep_view(),
            start: self.start,
            end: self.end,
        }
    }
}

/// The query that matches everything.
pub open spec fn empty_query() -> QueryView {
    QueryView { accounts: Seq::empty(), tags: Seq::empty(), start: None, end: None }
}

impl Default for Query {
    /// The query that matches everything.
    fn default() -> (q: Query)
        ensures
            q@ == empty_query(),
    {
        let q = Query { accounts: Vec::new(), tags: Vec::new(), start: None, end: None };
        proof {
            assert(q@.accounts =~= empty_query().accounts);
            assert(q@.tags =~= empty_query().tags);
        }
        q
    }
}

/// Index of the first ".." in `s`, or -1 when absent.
pub open spec fn first_dots(s: Seq<char>) -> int
    decreases s.len(),
{
    if s.len() < 2 {
        -1
    } else if s[0] == '.' && s[1] == '.' {
        0
    } else {
        let r = first_dots(s.drop_first());
        if r < 0 {
            -1
        } else {
            r + 1
        }
    }
}

/// `first_dots` really is the least position opening "..", or -1.
proof fn lemma_first_dots(s: Seq<char>)
    ensures
        first_dots(s) == -1 ==> (forall|j: int|
            0 <= j <= s.len() - 2 ==> !(s[j] == '.' && #[trigger] s[j + 1] == '.')),
        first_dots(s) >= 0 ==> {
            &&& first_dots(s) <= s.len() - 2
            &&& s[first_dots(s)] == '.' && s[first_dots(s) + 1] == '.'
            &&& forall|j: int|
                0 <= j < first_dots(s) ==> !(s[j] == '.' && #[trigger] s[j + 1] == '.')
        },
    decreases s.len(),
{
    if s.len() >= 2 && !(s[0] == '.' && s[1] == '.') {
        lemma_first_dots(s.drop_first());
        let t = s.drop_first();
        assert(forall|j: int| 0 <= j < t.len() ==> t[j] == s[j + 1]);
        let r = first_dots(t);
        if r >= 0 {
            assert(t[r] == '.' && t[r + 1] == '.');
            assert(forall|j: int| 1 <= j < r + 1 ==> #[trigger] s[j] == t[j - 1] && s[j + 1] == t[j]);
        } else {
            assert(forall|j: int| 1 <= j <= s.len() - 2 ==> #[trigger] s[j] == t[j - 1] && s[j + 1] == t[j]);
        }
    }
}

/// How one token changes the query being built, or the error it raises:
/// `account:`/`tag:` push a name; `start:`/`end:` set a bound; `date:a..b`
/// sets whichever bounds are present; anything else is invalid.
pub open spec fn apply_token(q: QueryView, tok: Seq<char>) -> Result<QueryView, ParseErrorView> {
    if crate::textutil::spec_has_prefix(tok, "account:"@) {
        Ok(QueryView { accounts: q.accounts.push(tok.skip("account:"@.len() as int)), ..q })
    } else if crate::textutil::spec_has_prefix(tok, "tag:"@) {
        Ok(QueryView { tags: q.tags.push(tok.skip("tag:"@.len() as int)), ..q })
    } else if crate::textutil::spec_has_prefix(tok, "start:"@) {
        let rest = tok.skip("start:"@.len() as int);
        match spec_parse_date(rest) {
            Some(d) => Ok(QueryView { start: Some(d), ..q }),
            None => Err(ParseErrorView::InvalidDate(rest)),
        }
    } else if crate::textutil::spec_has_prefix(tok, "end:"@) {
        let rest = tok.skip("end:"@.len() as int);
        match spec_parse_date(rest) {
            Some(d) => Ok(QueryView { end: Some(d), ..q }),
            None => Err(ParseErrorView::InvalidDate(rest)),
        }
    } else if crate::textutil::spec_has_prefix(tok, "date:"@) {
        let rest = tok.skip("date:"@.len() as int);
        let k = first_dots(rest);
        if k < 0 {
            Err(ParseErrorView::InvalidToken(tok))
        } else {
            let a = rest.take(k);
            let b = rest.skip(k + 2);
            if first_dots(b) >= 0 {
                Err(ParseErrorView::InvalidToken(tok))
            } else if a.len() > 0 && spec_parse_date(a) is None {
                Err(ParseErrorView::InvalidDate(a))
            } else if b.len() > 0 && spec_parse_date(b) is None {
                Err(ParseErrorView::InvalidDate(b))
            } else {
                Ok(
                    QueryView {
                        start: if a.len() > 0 {
                            Some(spec_parse_date(a)->0)
                        } else {
                            q.start
                        },
                        end: if b.len() > 0 {
                            Some(spec_parse_date(b)->0)
                        } else {
                            q.end
                        },
                        ..q
                    },
                )
            }
        }
    } else {
        Err(ParseErrorView::InvalidToken(tok))
    }
}

/// What parsing a run of tokens yields: the tokens folded into the empty
/// query, empty tokens skipped, stopping at the first invalid one.
pub open spec fn spec_parse_query(tokens: Seq<Seq<char>>) -> Result<QueryView, ParseErrorView>
    decreases tokens.len(),
{
    if tokens.len() == 0 {
        Ok(empty_query())
    } else {
        match spec_parse_query(tokens.drop_last()) {
            Err(e) => Err(e),
            Ok(q) => {
                if tokens.last().len() == 0 {
                    Ok(q)
                } else {
                    apply_token(q, tokens.last())
                }
            },
        }
    }
}

/// Once a token errs, every longer prefix errs the same way.
proof fn lemma_parse_query_err_persists(tokens: Seq<Seq<char>>, i: int, m: int)
    requires
        0 <= i < m <= tokens.len(),
        spec_parse_query(tokens.take(i + 1)) is Err,
    ensures
        spec_parse_query(tokens.take(m)) == spec_parse_query(tokens.take(i + 1)),
    decreases m,
{
    if m > i + 1 {
        lemma_parse_query_err_persists(tokens, i, m - 1);
        assert(tokens.take(m).drop_last() =~= tokens.take(m - 1));
    } else {
        assert(tokens.take(m) =~= tokens.take(i + 1));
    }
}

/// Does some posting debit or credit the account written as `name`?
pub open spec fn posting_touches(ps: Seq<PostingView>, name: Seq<char>) -> bool {
    exists|k: int|
        0 <= k < ps.len() && (spec_join((#[trigger] ps[k]).debit_account, ':') == name
            || spec_join(ps[k].credit_account, ':') == name)
}

/// Decides whether some posting touches the account written as `name`.
fn touches_account(ps: &Vec<crate::record::Posting>, name: &str) -> (r: bool)
    ensures
        r == posting_touches(ps.deep_view(), name@),
{
    let n = ps.len();
    let mut k: usize = 0;
    while k < n
        invariant
            k <= n,
            n == ps.len(),
            forall|kk: int|
                0 <= kk < k ==> !(spec_join((#[trigger] ps.deep_view()[kk]).debit_account, ':')
                    == name@ || spec_join(ps.deep_view()[kk].credit_account, ':') == name@),
        decreases n - k,
    {
        let dtext = ps[k].debit_account.to_text();
        let ctext = ps[k].credit_account.to_text();
        if str_eq(dtext.as_str(), name) || str_eq(ctext.as_str(), name) {
            proof {
                assert(ps[k as int]@ == ps.deep_view()[k as int]);
            }
            return true;
        }
        proof {
            assert(ps[k as int]@ == ps.deep_view()[k as int]);
        }
        k += 1;
    }
    false
}

/// Does some text in `hs` equal `h`?
fn text_among(hs: &Vec<String>, h: &str) -> (r: bool)
    ensures
        r == exists|j: int| 0 <= j < hs.deep_view().len() && #[trigger] hs.deep_view()[j] == h@,
{
    let n = hs.len();
    let mut j: usize = 0;
    while j < n
        invariant
            j <= n,
            n == hs.len(),
            forall|q: int| 0 <= q < j ==> #[trigger] hs.deep_view()[q] != h@,
        decreases n - j,
    {
        if str_eq(hs[j].as_str(), h) {
            assert(hs.deep_view()[j as int] == h@);
            return true;
        }
        j += 1;
    }
    false
}

impl Query {
    /// Applies one token to the query being built; mirrors `apply_token`.
    fn apply(&mut self, tok: &str) -> (r: Result<(), ParseError>)
        ensures
            r is Ok <==> apply_token(old(self)@, tok@) is Ok,
            r is Ok ==> Ok::<QueryView, ParseErrorView>(final(self)@) == apply_token(
                old(self)@,
                tok@,
            ),
            r matches Err(e) ==> final(self)@ == old(self)@ && apply_token(old(self)@, tok@)
                == Err::<QueryView, ParseErrorView>(e@),
    {
        let n = tok.unicode_len();
        if crate::textutil::has_prefix_text(tok, "account:") {
            proof {
                reveal_strlit("account:");
            }
            let rest = tok.substring_char(8, n);
            let ghost before = self@;
            self.accounts.push(rest.to_owned());
            proof {
                assert(self@.accounts =~= before.accounts.push(tok@.skip(8)));
                assert(tok@.skip("account:"@.len() as int) =~= tok@.skip(8));
            }
            Ok(())
        } else if crate::textutil::has_prefix_text(tok, "tag:") {
            proof {
                reveal_strlit("tag:");
            }
            let rest = tok.substring_char(4, n);
            let ghost before = self@;
            self.tags.push(rest.to_owned());
            proof {
                assert(self@.tags =~= before.tags.push(tok@.skip(4)));
            }
            Ok(())
        } else if crate::textutil::has_prefix_text(tok, "start:") {
            proof {
                reveal_strlit("start:");
            }
            let rest = tok.substring_char(6, n);
            match parse_date_text(rest) {
                Some(d) => {
                    self.start = Some(d);
                    Ok(())
                },
                None => Err(ParseError::InvalidDate(rest.to_owned())),
            }
        } else if crate::textutil::has_prefix_text(tok, "end:") {
            proof {
                reveal_strlit("end:");
            }
            let rest = tok.substring_char(4, n);
            match parse_date_text(rest) {
                Some(d) => {
                    self.end = Some(d);
                    Ok(())
                },
                None => Err(ParseError::InvalidDate(rest.to_owned())),
            }
        } else if crate::textutil::has_prefix_text(tok, "date:") {
            proof {
                reveal_strlit("date:");
            }
            let rest = tok.substring_char(5, n);
            let ghost restv = tok@.skip(5);
            proof {
                assert(rest@ =~= restv);
            }
            let m = rest.unicode_len();
            let mut k: usize = 0;
            let mut found = false;
            proof {
                lemma_first_dots(restv);
            }
            while m - k >= 2 && !found
                invariant
                    k <= m,
                    m == restv.len(),
                    rest@ == restv,
                    !found ==> forall|j: int|
                        0 <= j < k ==> !(restv[j] == '.' && #[trigger] restv[j + 1] == '.'),
                    found ==> k <= m - 2 && restv[k as int] == '.' && restv[k + 1] == '.' && (forall|
                        j: int,
                    |
                        0 <= j < k ==> !(restv[j] == '.' && #[trigger] restv[j + 1] == '.')),
                decreases m - k + (if found {
                    0int
                } else {
                    1int
                }),
            {
                if rest.get_char(k) == '.' && rest.get_char(k + 1) == '.' {
                    found = true;
                } else {
                    k += 1;
                }
            }
            if !found {
                proof {
                    if first_dots(restv) >= 0 {
                        let f = first_dots(restv);
                        assert(!(restv[f] == '.' && restv[f + 1] == '.'));
                    }
                }
                return Err(ParseError::InvalidToken(tok.to_owned()));
            }
            proof {
                let f = first_dots(restv);
                if f == -1 {
                    assert(!(restv[k as int] == '.' && restv[k + 1] == '.'));
                }
                if f < k {
                    assert(!(restv[f] == '.' && restv[f + 1] == '.'));
                }
                if f > k {
                    assert(!(restv[k as int] == '.' && restv[k + 1] == '.'));
                }
                assert(f == k);
            }
            let a = rest.substring_char(0, k);
            let b = rest.substring_char(k + 2, m);
            let ghost av = restv.take(k as int);
            let ghost bv = restv.skip(k + 2);
            proof {
                assert(a@ =~= av);
                assert(b@ =~= bv);
            }
            // The remainder may hold no second separator.
            let bm = b.unicode_len();
            let mut j: usize = 0;
            let mut more = false;
            proof {
                lemma_first_dots(bv);
            }
            while bm - j >= 2 && !more
                invariant
                    j <= bm,
                    bm == bv.len(),
                    b@ == bv,
                    !more ==> forall|q: int|
                        0 <= q < j ==> !(bv[q] == '.' && #[trigger] bv[q + 1] == '.'),
                    more ==> j <= bm - 2 && bv[j as int] == '.' && bv[j + 1] == '.',
                decreases bm - j + (if more {
                    0int
                } else {
                    1int
                }),
            {
                if b.get_char(j) == '.' && b.get_char(j + 1) == '.' {
                    more = true;
                } else {
                    j += 1;
                }
            }
            proof {
                let f = first_dots(bv);
                if more {
                    if f == -1 {
                        assert(!(bv[j as int] == '.' && bv[j + 1] == '.'));
                    }
                } else {
                    if f >= 0 {
                        assert(!(bv[f] == '.' && bv[f + 1] == '.'));
                    }
                }
            }
            if more {
                return Err(ParseError::InvalidToken(tok.to_owned()));
            }
            let start_bound = if !a.is_empty() {
                match parse_date_text(a) {
                    Some(d) => Some(d),
                    None => {
                        return Err(ParseError::InvalidDate(a.to_owned()));
                    },
                }
            } else {
                None
            };
            let end_bound = if !b.is_empty() {
                match parse_date_text(b) {
                    Some(d) => Some(d),
                    None => {
                        return Err(ParseError::InvalidDate(b.to_owned()));
                    },
                }
            } else {
                None
            };
            match start_bound {
                Some(d) => {
                    self.start = Some(d);
                },
                None => {},
            }
            match end_bound {
                Some(d) => {
                    self.end = Some(d);
                },
                None => {},
            }
            Ok(())
        } else {
            proof {
                reveal_strlit("account:");
                reveal_strlit("tag:");
                reveal_strlit("start:");
                reveal_strlit("end:");
                reveal_strlit("date:");
            }
            Err(ParseError::InvalidToken(tok.to_owned()))
        }
    }

    /// Parses a query text: space-separated tokens folded into the empty
    /// query, stopping at the first invalid one; mirrors
    /// `spec_parse_query` over the space-split pieces.
    #[verifier::rlimit(60)]
    pub fn parse_str(s: &str) -> (r: Result<Query, ParseError>)
        ensures
            ({
                let outcome = spec_parse_query(spec_split(s@, ' '));
                &&& (r is Ok <==> outcome is Ok)
                &&& (r matches Ok(q) ==> Ok::<QueryView, ParseErrorView>(q@) == outcome)
                &&& (r matches Err(e) ==> Err::<QueryView, ParseErrorView>(e@) == outcome)
            }),
    {
        let tokens = split_on(s, ' ');
        let ghost tv = tokens.deep_view();
        let mut q = Query::default();
        let n = tokens.len();
        let mut i: usize = 0;
        proof {
            assert(tv.take(0) =~= Seq::<Seq<char>>::empty());
        }
        while i < n
            invariant
                i <= n,
                n == tokens.len(),
                tv == tokens.deep_view(),
                tv == spec_split(s@, ' '),
                tv.len() == n,
                spec_parse_query(tv.take(i as int)) == Ok::<QueryView, ParseErrorView>(q@),
            decreases n - i,
        {
            proof {
                assert(tv.take(i + 1).drop_last() =~= tv.take(i as int));
                assert(tv.take(i + 1).last() == tv[i as int]);
            }
            let tok = &tokens[i];
            proof {
                assert(tok@ == tv[i as int]);
            }
            if !tok.as_str().is_empty() {
                match q.apply(tok.as_str()) {
                    Ok(_) => {},
                    Err(e) => {
                        proof {
                            assert(spec_parse_query(tv.take(i + 1)) == Err::<
                                QueryView,
                                ParseErrorView,
                            >(e@));
                            lemma_parse_query_err_persists(tv, i as int, tv.len() as int);
                            assert(tv.take(tv.len() as int) =~= tv);
                        }
                        return Err(e);
                    },
                }
            }
            i += 1;
        }
        proof {
            assert(tv.take(n as int) =~= tv);
        }
        Ok(q)
    }

    /// Does the record match? Its day must lie in the range, some posting
    /// must touch one of the accounts when any are named, and it must
    /// carry one of the tags when any are named.
    pub open spec fn spec_matches(q: QueryView, rv: RecordView) -> bool {
        &&& (match q.start {
            Some(s) => day_of_micros(rv.timestamp) >= s,
            None => true,
        })
        &&& (match q.end {
            Some(e) => day_of_micros(rv.timestamp) <= e,
            None => true,
        })
        &&& (q.accounts.len() == 0 || exists|i: int|
            0 <= i < q.accounts.len() && posting_touches(
                record_postings(rv),
                #[trigger] q.accounts[i],
            ))
        &&& (q.tags.len() == 0 || exists|i: int, j: int|
            #![auto]
            0 <= i < rv.tags.len() && 0 <= j < q.tags.len() && rv.tags[i] == q.tags[j])
    }

    /// Decides whether the record matches; mirrors `spec_matches`.
    pub fn matches(&self, rec: &Record) -> (r: bool)
        ensures
            r == Query::spec_matches(self@, rec@),
    {
        let day = crate::balance::day_of_timestamp(rec.timestamp);
        match self.start {
            Some(s) => {
                if day < s {
                    return false;
                }
            },
            None => {},
        }
        match self.end {
            Some(e) => {
                if day > e {
                    return false;
                }
            },
            None => {},
        }
        if self.accounts.len() > 0 {
            let ps = rec.postings();
            let ghost psv = record_postings(rec@);
            let n = self.accounts.len();
            let mut i: usize = 0;
            while i < n
                invariant
                    i <= n,
                    n == self.accounts.len(),
                    self@.accounts.len() == n,
                    ps.deep_view() == psv,
                    psv == record_postings(rec@),
                    (match self@.start {
                        Some(s) => day_of_micros(rec@.timestamp) >= s,
                        None => true,
                    }),
                    (match self@.end {
                        Some(e) => day_of_micros(rec@.timestamp) <= e,
                        None => true,
                    }),
                    forall|ii: int|
                        0 <= ii < i ==> !posting_touches(psv, #[trigger] self@.accounts[ii]),
                decreases n - i,
            {
                proof {
                    assert(self.accounts@[i as int]@ == self@.accounts[i as int]);
                }
                if touches_account(&ps, self.accounts[i].as_str()) {
                    assert(posting_touches(psv, self@.accounts[i as int]));
                    assert(exists|ii: int|
                        0 <= ii < self@.accounts.len() && posting_touches(
                            record_postings(rec@),
                            #[trigger] self@.accounts[ii],
                        ));
                    let tags_ok = self.tags_hit(rec);
                    return tags_ok;
                }
                i += 1;
            }
            return false;
        }
        self.tags_hit(rec)
    }

    /// Does the record carry one of the query's tags, or are none named?
    fn tags_hit(&self, rec: &Record) -> (r: bool)
        ensures
            r == (self@.tags.len() == 0 || exists|i: int, j: int|
                #![auto]
                0 <= i < rec@.tags.len() && 0 <= j < self@.tags.len() && rec@.tags[i]
                    == self@.tags[j]),
    {
        if self.tags.len() == 0 {
            return true;
        }
        let n = rec.tags.len();
        let mut i: usize = 0;
        while i < n
            invariant
                i <= n,
                n == rec.tags.len(),
                rec@.tags.len() == n,
                forall|ii: int, j: int|
                    #![auto]
                    0 <= ii < i && 0 <= j < self@.tags.len() ==> rec@.tags[ii] != self@.tags[j],
            decreases n - i,
        {
            if text_among(&self.tags, rec.tags[i].as_str()) {
                proof {
                    let j = choose|j: int|
                        0 <= j < self@.tags.len() && self@.tags[j] == rec@.tags[i as int];
                    assert(rec@.tags[i as int] == self@.tags[j]);
                }
                return true;
            }
            i += 1;
        }
        false
    }

    /// Copies the records the query matches, in ledger order.
    pub fn filter(&self, ledger: &Ledger) -> (r: Vec<Record>)
        ensures
            r.deep_view() == filter_matching(ledger@, self@),
    {
        let recs = ledger.records();
        let n = recs.len();
        let mut out: Vec<Record> = Vec::new();
        let mut i: usize = 0;
        proof {
            assert(ledger@.take(0) =~= Seq::<RecordView>::empty());
            assert(out.deep_view() =~= filter_matching(ledger@.take(0), self@));
        }
        while i < n
            invariant
                i <= n,
                n == recs.len(),
                recs.deep_view() == ledger@,
                out.deep_view() == filter_matching(ledger@.take(i as int), self@),
            decreases n - i,
        {
            proof {
                assert(ledger@.take(i + 1).drop_last() =~= ledger@.take(i as int));
                assert(ledger@.take(i + 1).last() == ledger@[i as int]);
            }
            let ghost before = out.deep_view();
            if self.matches(&recs[i]) {
                out.push(recs[i].clone());
                proof {
                    assert(out.deep_view() =~= before.push(ledger@[i as int]));
                }
            }
            i += 1;
        }
        proof {
            assert(ledger@.take(n as int) =~= ledger@);
        }
        out
    }
}

/// The records the query matches, in order.
pub open spec fn filter_matching(s: Seq<RecordView>, q: QueryView) -> Seq<RecordView>
    decreases s.len(),
{
    if s.len() == 0 {
        Seq::empty()
    } else {
        filter_matching(s.drop_last(), q) + (if Query::spec_matches(q, s.last()) {
            seq![s.last()]
        } else {
            Seq::empty()
        })
    }
}

impl core::str::FromStr for Query {
    type Err = ParseError;

    fn from_str(s: &str) -> Result<Query, ParseError> {
        Query::parse_str(s)
    }
}

} // verus!
