//! The row wire format: how records and status marks are written as rows
//! of text cells, and read back when replaying a remote sheet.

use vstd::prelude::*;
use vstd::string::*;

use crate::account::spec_account_of;
use crate::hashing::{hash_row, spec_hash_row, strings_view};
use crate::jsontext::{parse_splits_text, spec_parse_splits, splits_json, splits_to_json};
use crate::numtext::{dec_digits, dec_to_u64, id_chars, id_to_text, spec_parse_id, spec_parse_u64,
    text_to_id, u64_to_dec};
use crate::outside::{format_rfc3339, parse_rfc3339, parsed_rfc3339, rfc3339_of};
use crate::port::SpreadsheetError;
use crate::record::{Posting, PostingView, Record, RecordView};
use crate::textutil::{spec_join, spec_split, split_on};

verus! {

/// Decimal digits of a signed number, a minus sign leading when negative.
pub open spec fn dec_i64_chars(n: i64) -> Seq<char> {
    if n < 0 {
        seq!['-'] + dec_digits((-(n as int)) as nat)
    } else {
        dec_digits(n as nat)
    }
}

/// Writes a signed number in decimal.
pub fn i64_to_dec(n: i64) -> (r: String)
    ensures
        r@ == dec_i64_chars(n),
{
    if n >= 0 {
        u64_to_dec(n as u64)
    } else {
        proof {
            reveal_strlit("-");
        }
        let mut r = String::new();
        r.append("-");
        let mag: u64 = ((-(n + 1)) as u64) + 1;
        let d = u64_to_dec(mag);
        r.append(d.as_str());
        proof {
            assert(mag as int == -(n as int));
            assert(r@ =~= dec_i64_chars(n));
        }
        r
    }
}

/// The timestamp column's text: the RFC 3339 rendering for every instant
/// whose year has four digits — the range the RFC 3339 parser reads back —
/// plain microseconds for the rest.
pub open spec fn ts_text(ts: i64) -> Seq<char> {
    if -62_167_219_200_000_000 <= ts <= 253_402_300_799_999_999 {
        rfc3339_of(ts)
    } else {
        dec_i64_chars(ts)
    }
}

/// Writes the timestamp column.
pub fn timestamp_text(ts: i64) -> (r: String)
    ensures
        r@ == ts_text(ts),
{
    if -62_167_219_200_000_000 <= ts && ts <= 253_402_300_799_999_999 {
        match format_rfc3339(ts) {
            Some(s) => s,
            None => {
                proof {
                    assert(false);
                }
                String::new()
            },
        }
    } else {
        i64_to_dec(ts)
    }
}

/// The text of an optional cell: the text, or the empty cell.
pub open spec fn opt_text(v: Option<Seq<char>>) -> Seq<char> {
    match v {
        Some(t) => t,
        None => Seq::empty(),
    }
}

/// The row a record is written as: twelve ordered cells.
pub open spec fn record_row(rv: RecordView) -> Seq<Seq<char>> {
    seq![
        id_chars(rv.id),
        ts_text(rv.timestamp),
        rv.description,
        spec_join(rv.debit_account, ':'),
        spec_join(rv.credit_account, ':'),
        dec_digits(rv.amount as nat),
        rv.currency,
        (match rv.reference_id {
            Some(id) => id_chars(id),
            None => Seq::empty(),
        }),
        opt_text(rv.external_reference),
        spec_join(rv.tags, ','),
        (if rv.splits.len() == 0 {
            Seq::empty()
        } else {
            splits_json(rv.splits)
        }),
        opt_text(rv.transaction_description),
    ]
}

/// The status row a record's cleared mark is written as.
pub open spec fn status_row_view(id: u128, cleared: bool) -> Seq<Seq<char>> {
    seq!["status"@, id_chars(id), (if cleared {
        "true"@
    } else {
        "false"@
    })]
}

/// Writes a record's cleared mark as a status row.
pub fn status_row_for(id: u128, cleared: bool) -> (r: Vec<String>)
    ensures
        strings_view(r@) == status_row_view(id, cleared),
{
    let mut r: Vec<String> = Vec::new();
    proof {
        reveal_strlit("status");
        reveal_strlit("true");
        reveal_strlit("false");
    }
    r.push("status".to_owned());
    r.push(id_to_text(id));
    if cleared {
        r.push("true".to_owned());
    } else {
        r.push("false".to_owned());
    }
    proof {
        assert(strings_view(r@) =~= status_row_view(id, cleared));
    }
    r
}

impl Record {
    /// Writes the record as a row for tabular storage.
    pub fn to_row(&self) -> (r: Vec<String>)
        ensures
            strings_view(r@) == record_row(self@),
    {
        let mut r: Vec<String> = Vec::new();
        r.push(id_to_text(self.id));
        r.push(timestamp_text(self.timestamp));
        r.push(self.description.clone());
        r.push(self.debit_account.to_text());
        r.push(self.credit_account.to_text());
        r.push(u64_to_dec(self.amount));
        r.push(self.currency.clone());
        match &self.reference_id {
            Some(id) => {
                r.push(id_to_text(*id));
            },
            None => {
                r.push(String::new());
            },
        }
        match &self.external_reference {
            Some(x) => {
                r.push(x.clone());
            },
            None => {
                r.push(String::new());
            },
        }
        proof {
            reveal_strlit(",");
        }
        r.push(crate::textutil::join_with(&self.tags, ","));
        if self.splits.len() == 0 {
            r.push(String::new());
        } else {
            r.push(splits_to_json(&self.splits));
        }
        match &self.transaction_description {
            Some(x) => {
                r.push(x.clone());
            },
            None => {
                r.push(String::new());
            },
        }
        proof {
            assert(strings_view(r@) =~= record_row(self@));
        }
        r
    }

    /// Writes the record as a row with the row hash appended: the digest
    /// over the twelve cells, salted by `signature`.
    pub fn to_row_hashed(&self, signature: &str) -> (r: Vec<String>)
        ensures
            strings_view(r@) == record_row(self@).push(
                spec_hash_row(record_row(self@), signature@),
            ),
    {
        let mut row = self.to_row();
        let sl = row.as_slice();
        let h = hash_row(sl, signature);
        row.push(h);
        proof {
            assert(strings_view(row@) =~= record_row(self@).push(
                spec_hash_row(record_row(self@), signature@),
            ));
        }
        row
    }

    /// Writes the record's cleared mark as a status row.
    pub fn status_row(&self) -> (r: Vec<String>)
        ensures
            strings_view(r@) == status_row_view(self@.id, self@.cleared),
    {
        status_row_for(self.id, self.cleared)
    }
}

/// Can this row be read back as a record? Every cell the reader interprets
/// must parse.
pub open spec fn row_parses(row: Seq<Seq<char>>) -> bool {
    &&& row.len() >= 10
    &&& spec_parse_id(row[0]) is Some
    &&& parsed_rfc3339(row[1]) is Some
    &&& spec_parse_u64(row[5]) is Some
    &&& (row[7].len() == 0 || spec_parse_id(row[7]) is Some)
    &&& (row.len() <= 10 || row[10].len() == 0 || spec_parse_splits(row[10]) is Some)
}

/// The record a well-formed row denotes. Status is never read from record
/// rows: a replayed record starts uncleared.
pub open spec fn parsed_record(row: Seq<Seq<char>>) -> RecordView {
    RecordView {
        id: spec_parse_id(row[0])->0,
        timestamp: parsed_rfc3339(row[1])->0,
        description: row[2],
        debit_account: spec_account_of(row[3]),
        credit_account: spec_account_of(row[4]),
        amount: spec_parse_u64(row[5])->0,
        currency: row[6],
        splits: if row.len() > 10 && row[10].len() > 0 {
            spec_parse_splits(row[10])->0
        } else {
            Seq::empty()
        },
        reference_id: if row[7].len() == 0 {
            None
        } else {
            Some(spec_parse_id(row[7])->0)
        },
        external_reference: if row[8].len() == 0 {
            None
        } else {
            Some(row[8])
        },
        tags: if row[9].len() == 0 {
            Seq::empty()
        } else {
            spec_split(row[9], ',')
        },
        transaction_description: if row.len() > 11 && row[11].len() > 0 {
            Some(row[11])
        } else {
            None
        },
        cleared: false,
    }
}

/// Reads a record row back: succeeds exactly when every interpreted cell
/// parses, and then returns exactly the record the row denotes.
pub fn record_from_row(row: &Vec<String>) -> (r: Result<Record, SpreadsheetError>)
    ensures
        r is Ok <==> row_parses(strings_view(row@)),
        r matches Ok(rec) ==> rec@ == parsed_record(strings_view(row@)),
        r matches Err(e) ==> e@ is Permanent,
{
    let ghost rv = strings_view(row@);
    if row.len() < 10 {
        return Err(SpreadsheetError::Permanent("invalid row".to_owned()));
    }
    let id = match text_to_id(row[0].as_str()) {
        Some(v) => v,
        None => {
            return Err(SpreadsheetError::Permanent("invalid record id".to_owned()));
        },
    };
    let timestamp = match parse_rfc3339(row[1].as_str()) {
        Some(v) => v,
        None => {
            return Err(SpreadsheetError::Permanent("invalid timestamp".to_owned()));
        },
    };
    let amount = match dec_to_u64(row[5].as_str()) {
        Some(v) => v,
        None => {
            return Err(SpreadsheetError::Permanent("invalid amount".to_owned()));
        },
    };
    let reference_id = if row[7].as_str().is_empty() {
        None
    } else {
        match text_to_id(row[7].as_str()) {
            Some(v) => Some(v),
            None => {
                return Err(SpreadsheetError::Permanent("invalid reference id".to_owned()));
            },
        }
    };
    let splits: Vec<Posting> = if row.len() > 10 && !row[10].as_str().is_empty() {
        match parse_splits_text(row[10].as_str()) {
            Some(ps) => ps,
            None => {
                return Err(SpreadsheetError::Permanent("invalid splits".to_owned()));
            },
        }
    } else {
        Vec::new()
    };
    let external_reference = if row[8].as_str().is_empty() {
        None
    } else {
        Some(row[8].clone())
    };
    let tags: Vec<String> = if row[9].as_str().is_empty() {
        Vec::new()
    } else {
        split_on(row[9].as_str(), ',')
    };
    let transaction_description = if row.len() > 11 && !row[11].as_str().is_empty() {
        Some(row[11].clone())
    } else {
        None
    };
    let rec = Record {
        id,
        timestamp,
        description: row[2].clone(),
        debit_account: crate::account::Account::parse_str(row[3].as_str()),
        credit_account: crate::account::Account::parse_str(row[4].as_str()),
        amount,
        currency: row[6].clone(),
        splits,
        reference_id,
        external_reference,
        tags,
        transaction_description,
        cleared: false,
    };
    proof {
        assert(rv[0] == row@[0]@ && rv[1] == row@[1]@ && rv[2] == row@[2]@ && rv[3] == row@[3]@
            && rv[4] == row@[4]@ && rv[5] == row@[5]@ && rv[6] == row@[6]@ && rv[7] == row@[7]@
            && rv[8] == row@[8]@ && rv[9] == row@[9]@);
        assert(rec@.tags =~= parsed_record(rv).tags);
        assert(rec@.splits =~= parsed_record(rv).splits);
        assert(rec@.external_reference == parsed_record(rv).external_reference);
        assert(rec@.transaction_description == parsed_record(rv).transaction_description);
        assert(rec@ == parsed_record(rv));
    }
    Ok(rec)
}

/// Tags that the comma-joined cell can carry and give back: none holds a
/// comma, and they are not the single empty tag.
pub open spec fn tags_wf(tags: Seq<Seq<char>>) -> bool {
    &&& forall|i: int, j: int|
        0 <= i < tags.len() && 0 <= j < tags[i].len() ==> #[trigger] tags[i][j] != ','
    &&& !(tags.len() == 1 && tags[0].len() == 0)
}

/// A record the row format can write and read back unchanged: its account
/// paths hold no colon, its tags no comma, neither is the single empty
/// segment, its optional texts are not present-but-empty, and it is not
/// yet cleared (status travels in status rows, not record rows).
pub open spec fn row_round_wf(rv: RecordView) -> bool {
    &&& crate::jsontext::account_path_wf(rv.debit_account)
    &&& crate::jsontext::account_path_wf(rv.credit_account)
    &&& crate::jsontext::postings_wf(rv.splits)
    &&& tags_wf(rv.tags)
    &&& rv.external_reference != Some(Seq::<char>::empty())
    &&& rv.transaction_description != Some(Seq::<char>::empty())
    &&& rv.cleared == false
}

/// The join of one or more non-comma tags, other than the single empty
/// tag, is never the empty cell.
proof fn lemma_tags_join_nonempty(tags: Seq<Seq<char>>)
    requires
        tags.len() >= 1,
        !(tags.len() == 1 && tags[0].len() == 0),
    ensures
        spec_join(tags, ',').len() > 0,
{
    if tags.len() == 1 {
        assert(spec_join(tags, ',') == tags[0]);
    } else {
        assert(spec_join(tags, ',') == spec_join(tags.drop_last(), ',') + seq![',']
            + tags.last());
    }
}

/// A record written as a row reads back as the very same record, for every
/// record the format can round (`row_round_wf`) whose written timestamp
/// the calendar backend parses back to the same instant — which the
/// formatting wrapper's contract guarantees for every instant whose year
/// has four digits, the whole range the timestamp column renders as
/// RFC 3339.
pub proof fn lemma_record_row_roundtrip(rv: RecordView)
    requires
        row_round_wf(rv),
        parsed_rfc3339(ts_text(rv.timestamp)) == Some(rv.timestamp),
    ensures
        row_parses(record_row(rv)),
        parsed_record(record_row(rv)) == rv,
{
    let row = record_row(rv);
    assert(row.len() == 12);
    crate::numtext::lemma_id_roundtrip(rv.id);
    crate::numtext::lemma_dec_roundtrip(rv.amount);
    crate::account::lemma_account_text_roundtrip(rv.debit_account);
    crate::account::lemma_account_text_roundtrip(rv.credit_account);
    assert(spec_join(rv.debit_account, ':').len() > 0 ==> spec_account_of(
        spec_join(rv.debit_account, ':'),
    ) == rv.debit_account);
    if spec_join(rv.debit_account, ':').len() == 0 {
        lemma_join_empty_means_no_parts(rv.debit_account);
    }
    if spec_join(rv.credit_account, ':').len() == 0 {
        lemma_join_empty_means_no_parts(rv.credit_account);
    }
    match rv.reference_id {
        Some(refid) => {
            crate::numtext::lemma_id_roundtrip(refid);
            assert(row[7].len() == 36);
        },
        None => {
            assert(row[7].len() == 0);
        },
    }
    if rv.splits.len() > 0 {
        crate::jsontext::lemma_splits_roundtrip(rv.splits);
        lemma_splits_json_nonempty_len(rv.splits);
    }
    if rv.tags.len() == 0 {
        assert(spec_join(rv.tags, ',') == Seq::<char>::empty());
        assert(parsed_record(row).tags =~= rv.tags);
    } else {
        lemma_tags_join_nonempty(rv.tags);
        crate::textutil::lemma_split_join(rv.tags, ',');
    }
    match rv.external_reference {
        Some(x) => {
            if x.len() == 0 {
                assert(x =~= Seq::<char>::empty());
            }
            assert(x.len() > 0);
        },
        None => {},
    }
    match rv.transaction_description {
        Some(x) => {
            if x.len() == 0 {
                assert(x =~= Seq::<char>::empty());
            }
            assert(x.len() > 0);
        },
        None => {},
    }
    assert(parsed_record(row).debit_account == rv.debit_account);
    assert(parsed_record(row).credit_account == rv.credit_account);
    assert(parsed_record(row).splits == rv.splits);
    assert(parsed_record(row) == rv);
}

/// A non-empty splits column: the array brackets alone make it so.
proof fn lemma_splits_json_nonempty_len(ps: Seq<PostingView>)
    ensures
        crate::jsontext::splits_json(ps).len() >= 2,
{
}

/// Account paths that join to the empty text are the empty path.
proof fn lemma_join_empty_means_no_parts(parts: Seq<Seq<char>>)
    requires
        spec_join(parts, ':').len() == 0,
        !(parts.len() == 1 && parts[0].len() == 0),
    ensures
        parts.len() == 0,
        spec_account_of(spec_join(parts, ':')) == parts,
{
    if parts.len() == 1 {
        assert(spec_join(parts, ':') == parts[0]);
    } else if parts.len() > 1 {
        assert(spec_join(parts, ':') == spec_join(parts.drop_last(), ':') + seq![':']
            + parts.last());
    }
    assert(spec_account_of(Seq::<char>::empty()) =~= Seq::<Seq<char>>::empty());
    assert(spec_account_of(spec_join(parts, ':')) =~= parts);
}

/// The characters of every cell of every row.
pub open spec fn rows_view(rows: Seq<Vec<String>>) -> Seq<Seq<Seq<char>>> {
    Seq::new(rows.len(), |i: int| crate::hashing::strings_view(rows[i]@))
}

/// Is this a status row? Its first cell is the literal marker.
pub open spec fn is_status_row(row: Seq<Seq<char>>) -> bool {
    row.len() >= 1 && row[0] == "status"@
}

/// What a status row denotes: the record and its cleared mark, when the
/// row has at least three cells and they parse.
pub open spec fn parsed_status(row: Seq<Seq<char>>) -> Option<(u128, bool)> {
    if row.len() >= 3 && spec_parse_id(row[1]) is Some && (row[2] == "true"@ || row[2]
        == "false"@) {
        Some((spec_parse_id(row[1])->0, row[2] == "true"@))
    } else {
        None
    }
}

/// Does the row begin with the status marker?
pub fn row_is_status(row: &Vec<String>) -> (r: bool)
    ensures
        r == is_status_row(strings_view(row@)),
{
    proof {
        reveal_strlit("status");
    }
    if row.len() == 0 {
        return false;
    }
    crate::textutil::str_eq(row[0].as_str(), "status")
}

/// Reads a status row back; mirrors `parsed_status`.
pub fn status_from_row(row: &Vec<String>) -> (r: Option<(u128, bool)>)
    ensures
        r == parsed_status(strings_view(row@)),
{
    proof {
        reveal_strlit("true");
        reveal_strlit("false");
    }
    if row.len() < 3 {
        return None;
    }
    let id = match text_to_id(row[1].as_str()) {
        Some(v) => v,
        None => {
            return None;
        },
    };
    if crate::textutil::str_eq(row[2].as_str(), "true") {
        Some((id, true))
    } else if crate::textutil::str_eq(row[2].as_str(), "false") {
        Some((id, false))
    } else {
        None
    }
}

} // verus!
