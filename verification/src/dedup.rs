//! Import deduplication: records whose hashed rows already stand in the
//! target sheet are dropped before appending.

use vstd::prelude::*;
use vstd::string::*;

use crate::hashing::{spec_hash_row, strings_view};
use crate::port::{CloudSpreadsheetService, SpreadsheetError};
use crate::record::{Record, RecordView};
use crate::rows::record_row;
use crate::rows::rows_view;
use crate::textutil::str_eq;

verus! {

/// Does some text in `hs` equal `h`?
pub open spec fn contains_text(hs: Seq<Seq<char>>, h: Seq<char>) -> bool {
    exists|j: int| 0 <= j < hs.len() && hs[j] == h
}

/// The stored hashes of the existing rows: each non-empty row's last cell,
/// the first row (a header) skipped.
pub open spec fn existing_hashes(rows: Seq<Seq<Seq<char>>>) -> Seq<Seq<char>>
    decreases rows.len(),
{
    if rows.len() <= 1 {
        Seq::empty()
    } else {
        existing_hashes(rows.drop_last()) + (if rows.last().len() > 0 {
            seq![rows.last().last()]
        } else {
            Seq::empty()
        })
    }
}

/// A record's row with its trailing hash.
pub open spec fn hashed_row_of(rv: RecordView, signature: Seq<char>) -> Seq<Seq<char>> {
    record_row(rv).push(spec_hash_row(record_row(rv), signature))
}

/// The hashed rows of the records whose hash is not already stored, in
/// record order.
pub open spec fn spec_filter_new(
    records: Seq<RecordView>,
    hashes: Seq<Seq<char>>,
    signature: Seq<char>,
) -> Seq<Seq<Seq<char>>>
    decreases records.len(),
{
    if records.len() == 0 {
        Seq::empty()
    } else {
        spec_filter_new(records.drop_last(), hashes, signature) + (if contains_text(
            hashes,
            spec_hash_row(record_row(records.last()), signature),
        ) {
            Seq::empty()
        } else {
            seq![hashed_row_of(records.last(), signature)]
        })
    }
}

/// Does some stored hash equal `h`?
fn text_in(hs: &Vec<String>, h: &str) -> (r: bool)
    ensures
        r == contains_text(hs.deep_view(), h@),
{
    let n = hs.len();
    let mut i: usize = 0;
    while i < n
        invariant
            i <= n,
            n == hs.len(),
            forall|j: int| 0 <= j < i ==> hs.deep_view()[j] != h@,
        decreases n - i,
    {
        if str_eq(hs[i].as_str(), h) {
            assert(hs.deep_view()[i as int] == h@);
            return true;
        }
        i += 1;
    }
    false
}

/// Collects the stored hashes of the existing rows, the header skipped.
fn collect_hashes(rows: &Vec<Vec<String>>) -> (r: Vec<String>)
    ensures
        r.deep_view() == existing_hashes(rows_view(rows@)),
{
    let ghost rv = rows_view(rows@);
    let n = rows.len();
    let mut out: Vec<String> = Vec::new();
    let mut i: usize = 1;
    if n == 0 {
        proof {
            assert(existing_hashes(rv) =~= Seq::<Seq<char>>::empty());
            assert(out.deep_view() =~= Seq::<Seq<char>>::empty());
        }
        return out;
    }
    proof {
        assert(existing_hashes(rv.take(1)) =~= Seq::<Seq<char>>::empty()) by {
            assert(rv.take(1).len() == 1);
        }
        assert(out.deep_view() =~= Seq::<Seq<char>>::empty());
    }
    while i < n
        invariant
            1 <= i <= n,
            n == rows.len(),
            rv == rows_view(rows@),
            rv.len() == n,
            out.deep_view() == existing_hashes(rv.take(i as int)),
        decreases n - i,
    {
        proof {
            assert(rv.take(i + 1).drop_last() =~= rv.take(i as int));
            assert(rv.take(i + 1).last() == rv[i as int]);
            assert(strings_view(rows@[i as int]@) =~= rv[i as int]);
        }
        let row = &rows[i];
        let ghost before = out.deep_view();
        if row.len() > 0 {
            out.push(row[row.len() - 1].clone());
            proof {
                assert(out.deep_view() =~= before.push(rv[i as int].last()));
            }
        }
        proof {
            assert(out.deep_view() =~= existing_hashes(rv.take(i + 1)));
        }
        i += 1;
    }
    proof {
        assert(rv.take(n as int) =~= rv);
    }
    out
}

/// Turns the records into hashed rows, dropping each record whose hash is
/// among the stored ones.
pub fn filter_against(
    records: Vec<Record>,
    existing: &Vec<String>,
    signature: &str,
) -> (r: Vec<Vec<String>>)
    ensures
        rows_view(r@) == spec_filter_new(records.deep_view(), existing.deep_view(), signature@),
{
    let ghost dv = records.deep_view();
    let mut records = records;
    let mut out: Vec<Vec<String>> = Vec::new();
    let n0 = records.len();
    let mut i: usize = 0;
    proof {
        assert(dv.len() == n0);
        assert(dv.take(0) =~= Seq::<RecordView>::empty());
        assert(rows_view(out@) =~= spec_filter_new(dv.take(0), existing.deep_view(), signature@));
        assert(records.deep_view() =~= dv.skip(0));
    }
    while records.len() > 0
        invariant
            i + records.len() == n0,
            dv.len() == n0,
            records.deep_view() == dv.skip(i as int),
            rows_view(out@) == spec_filter_new(dv.take(i as int), existing.deep_view(), signature@),
        decreases records.len(),
    {
        let ghost before = records.deep_view();
        let rec = records.remove(0);
        proof {
            assert(rec@ == before[0]);
            assert(before[0] == dv[i as int]);
            assert(records.deep_view() =~= dv.skip(i + 1)) by {
                assert(records.deep_view() =~= before.drop_first());
            }
            assert(dv.take(i + 1).drop_last() =~= dv.take(i as int));
            assert(dv.take(i + 1).last() == dv[i as int]);
        }
        let row = rec.to_row_hashed(signature);
        let m = row.len();
        proof {
            assert(strings_view(row@) == hashed_row_of(rec@, signature@));
            assert(m == record_row(rec@).len() + 1);
            assert(strings_view(row@).last() == spec_hash_row(record_row(rec@), signature@));
            assert(row@[m - 1]@ == strings_view(row@).last());
        }
        let keep = !text_in(existing, row[m - 1].as_str());
        let ghost outv = rows_view(out@);
        if keep {
            out.push(row);
            proof {
                assert(rows_view(out@) =~= outv.push(hashed_row_of(rec@, signature@)));
            }
        }
        proof {
            assert(rows_view(out@) =~= spec_filter_new(
                dv.take(i + 1),
                existing.deep_view(),
                signature@,
            ));
        }
        i += 1;
    }
    proof {
        assert(dv.take(i as int) =~= dv);
    }
    out
}

/// Lists the target sheet and drops the records already present there,
/// identified by the hash in each stored row's last cell; the remaining
/// records come back as rows ready to append. `filter_against` pins what is
/// returned for whatever row listing the backend handed back.
pub fn filter_new_records<S: CloudSpreadsheetService>(
    adapter: &mut S,
    sheet_id: &str,
    records: Vec<Record>,
    signature: &str,
) -> Result<Vec<Vec<String>>, SpreadsheetError> {
    let rows = match adapter.list_rows(sheet_id) {
        Ok(rows) => rows,
        Err(e) => {
            return Err(e);
        },
    };
    let existing = collect_hashes(&rows);
    Ok(filter_against(records, &existing, signature))
}

} // verus!
