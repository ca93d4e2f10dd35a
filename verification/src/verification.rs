//! Tamper detection: recomputing row hashes against the signature and
//! reporting the rows whose stored hash no longer matches.

use vstd::prelude::*;
use vstd::slice::slice_subrange;
use vstd::string::*;

use crate::hashing::{hash_row, spec_hash_row, strings_view};
use crate::port::{CloudSpreadsheetService, SpreadsheetError};
use crate::rows::rows_view;
use crate::textutil::str_eq;

verus! {

/// Is this row's stored hash wrong? Short rows and status rows are never
/// counted; any other row must end in the hash of its preceding cells.
pub open spec fn row_mismatched(row: Seq<Seq<char>>, signature: Seq<char>) -> bool {
    &&& row.len() >= 2
    &&& row[0] != "status"@
    &&& row.last() != spec_hash_row(row.take(row.len() - 1), signature)
}

/// The 0-based indices of the rows whose stored hash does not match, in
/// ascending order.
pub open spec fn spec_mismatches(rows: Seq<Seq<Seq<char>>>, signature: Seq<char>) -> Seq<int>
    decreases rows.len(),
{
    if rows.len() == 0 {
        Seq::empty()
    } else {
        spec_mismatches(rows.drop_last(), signature) + (if row_mismatched(rows.last(), signature) {
            seq![rows.len() - 1]
        } else {
            Seq::empty()
        })
    }
}

/// Recomputes every row's hash and returns the indices of the mismatched
/// rows: exactly the rows edited or corrupted after being written, since
/// forging a matching hash requires the signature.
pub fn mismatched_rows(rows: &Vec<Vec<String>>, signature: &str) -> (r: Vec<usize>)
    ensures
        r@.map_values(|x: usize| x as int) == spec_mismatches(rows_view(rows@), signature@),
{
    let ghost rv = rows_view(rows@);
    let n = rows.len();
    let mut out: Vec<usize> = Vec::new();
    let mut i: usize = 0;
    proof {
        assert(rv.take(0) =~= Seq::<Seq<Seq<char>>>::empty());
        assert(out@.map_values(|x: usize| x as int) =~= spec_mismatches(rv.take(0), signature@));
        reveal_strlit("status");
    }
    while i < n
        invariant
            i <= n,
            n == rows.len(),
            rv == rows_view(rows@),
            rv.len() == n,
            out@.map_values(|x: usize| x as int) == spec_mismatches(rv.take(i as int), signature@),
        decreases n - i,
    {
        proof {
            reveal_strlit("status");
            assert(rv.take(i + 1).drop_last() =~= rv.take(i as int));
            assert(rv.take(i + 1).last() == rv[i as int]);
        }
        let row = &rows[i];
        proof {
            assert(strings_view(row@) =~= rv[i as int]);
        }
        let mut bad = false;
        if row.len() >= 2 && !str_eq(row[0].as_str(), "status") {
            let m = row.len();
            let sl = row.as_slice();
            let body = slice_subrange(sl, 0, m - 1);
            let computed = hash_row(body, signature);
            proof {
                assert(strings_view(body@) =~= rv[i as int].take(rv[i as int].len() - 1));
            }
            if !str_eq(computed.as_str(), row[m - 1].as_str()) {
                bad = true;
            }
            proof {
                assert(row@[m - 1]@ == rv[i as int].last());
                assert(bad == row_mismatched(rv[i as int], signature@));
            }
        }
        if bad {
            let ghost before = out@;
            out.push(i);
            proof {
                assert(out@.map_values(|x: usize| x as int) =~= before.map_values(
                    |x: usize| x as int,
                ).push(i as int));
            }
        }
        proof {
            assert(out@.map_values(|x: usize| x as int) =~= spec_mismatches(
                rv.take(i + 1),
                signature@,
            ));
        }
        i += 1;
    }
    proof {
        assert(rv.take(n as int) =~= rv);
    }
    out
}

/// The mismatched indices come out strictly ascending, each naming a row.
pub proof fn lemma_mismatches_ascending(rows: Seq<Seq<Seq<char>>>, signature: Seq<char>)
    ensures
        forall|i: int, j: int|
            0 <= i < j < spec_mismatches(rows, signature).len() ==> #[trigger] spec_mismatches(
                rows,
                signature,
            )[i] < #[trigger] spec_mismatches(rows, signature)[j],
        forall|i: int|
            0 <= i < spec_mismatches(rows, signature).len() ==> 0 <= #[trigger] spec_mismatches(
                rows,
                signature,
            )[i] < rows.len(),
    decreases rows.len(),
{
    if rows.len() > 0 {
        lemma_mismatches_ascending(rows.drop_last(), signature);
        let prev = spec_mismatches(rows.drop_last(), signature);
        let cur = spec_mismatches(rows, signature);
        if row_mismatched(rows.last(), signature) {
            assert(cur == prev + seq![rows.len() - 1]);
            assert(forall|i: int| 0 <= i < prev.len() ==> cur[i] == prev[i]);
            assert(cur[cur.len() - 1] == rows.len() - 1);
        } else {
            assert(cur =~= prev);
        }
    }
}

/// Lists the sheet's rows and reports the mismatched ones: whatever row
/// listing the backend handed back, the result is `mismatched_rows` of it,
/// so the indices come out strictly ascending with no repeats.
pub fn verify_sheet<S: CloudSpreadsheetService>(
    adapter: &mut S,
    sheet_id: &str,
    signature: &str,
) -> (r: Result<Vec<usize>, SpreadsheetError>)
    ensures
        r matches Ok(v) ==> forall|i: int, j: int|
            0 <= i < j < v@.len() ==> #[trigger] v@[i] < #[trigger] v@[j],
{
    let rows = match adapter.list_rows(sheet_id) {
        Ok(rows) => rows,
        Err(e) => {
            return Err(e);
        },
    };
    let out = mismatched_rows(&rows, signature);
    proof {
        lemma_mismatches_ascending(rows_view(rows@), signature@);
        let m = spec_mismatches(rows_view(rows@), signature@);
        assert forall|i: int, j: int| 0 <= i < j < out@.len() implies #[trigger] out@[i]
            < #[trigger] out@[j] by {
            assert(out@.map_values(|x: usize| x as int)[i] == out@[i] as int);
            assert(out@.map_values(|x: usize| x as int)[j] == out@[j] as int);
            assert(m[i] < m[j]);
        }
    }
    Ok(out)
}

} // verus!
