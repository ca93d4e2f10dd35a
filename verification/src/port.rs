//! The storage port: the one seam between the ledger core and any tabular
//! backend, and an in-memory adapter that implements it.

use vstd::prelude::*;
use vstd::string::*;

use crate::numtext::{dec_digits, u64_to_dec};
use crate::textutil::{str_eq, string_eq};

verus! {

/// Errors a storage backend can raise.
#[derive(Debug)]
pub enum SpreadsheetError {
    /// The requested sheet does not exist.
    SheetNotFound,
    /// The requested row does not exist.
    RowNotFound,
    /// Failed to share the sheet with the given recipient.
    ShareFailed,
    /// A temporary error that may succeed when retried.
    Transient(String),
    /// A non-recoverable error returned by the service.
    Permanent(String),
    /// An unspecified error occurred.
    Unknown,
}

/// The mathematical value of a storage error.
pub ghost enum SpreadsheetErrorView {
    SheetNotFound,
    RowNotFound,
    ShareFailed,
    Transient(Seq<char>),
    Permanent(Seq<char>),
    Unknown,
}

impl View for SpreadsheetError {
    type V = SpreadsheetErrorView;

    open spec fn view(&self) -> SpreadsheetErrorView {
        match self {
            SpreadsheetError::SheetNotFound => SpreadsheetErrorView::SheetNotFound,
            SpreadsheetError::RowNotFound => SpreadsheetErrorView::RowNotFound,
            SpreadsheetError::ShareFailed => SpreadsheetErrorView::ShareFailed,
            SpreadsheetError::Transient(m) => SpreadsheetErrorView::Transient(m@),
            SpreadsheetError::Permanent(m) => SpreadsheetErrorView::Permanent(m@),
            SpreadsheetError::Unknown => SpreadsheetErrorView::Unknown,
        }
    }
}

impl SpreadsheetError {
    /// Only transient errors may be retried.
    pub fn is_retryable(&self) -> (r: bool)
        ensures
            r == (self@ is Transient),
    {
        match self {
            SpreadsheetError::Transient(_) => true,
            _ => false,
        }
    }

    /// Character-level equality of two errors.
    pub fn matches(&self, other: &SpreadsheetError) -> (r: bool)
        ensures
            r == (self@ == other@),
    {
        match (self, other) {
            (SpreadsheetError::SheetNotFound, SpreadsheetError::SheetNotFound) => true,
            (SpreadsheetError::RowNotFound, SpreadsheetError::RowNotFound) => true,
            (SpreadsheetError::ShareFailed, SpreadsheetError::ShareFailed) => true,
            (SpreadsheetError::Transient(a), SpreadsheetError::Transient(b)) => string_eq(a, b),
            (SpreadsheetError::Permanent(a), SpreadsheetError::Permanent(b)) => string_eq(a, b),
            (SpreadsheetError::Unknown, SpreadsheetError::Unknown) => true,
            _ => false,
        }
    }
}

impl Clone for SpreadsheetError {
    /// Cloning keeps the variant and its message.
    fn clone(&self) -> (r: SpreadsheetError)
        ensures
            r@ == self@,
    {
        match self {
            SpreadsheetError::SheetNotFound => SpreadsheetError::SheetNotFound,
            SpreadsheetError::RowNotFound => SpreadsheetError::RowNotFound,
            SpreadsheetError::ShareFailed => SpreadsheetError::ShareFailed,
            SpreadsheetError::Transient(m) => SpreadsheetError::Transient(m.clone()),
            SpreadsheetError::Permanent(m) => SpreadsheetError::Permanent(m.clone()),
            SpreadsheetError::Unknown => SpreadsheetError::Unknown,
        }
    }
}

impl PartialEq for SpreadsheetError {
    fn eq(&self, other: &SpreadsheetError) -> (r: bool)
        ensures
            r == (self@ == other@),
    {
        self.matches(other)
    }
}

impl Eq for SpreadsheetError {

}

impl vstd::std_specs::cmp::PartialEqSpecImpl for SpreadsheetError {
    open spec fn obeys_eq_spec() -> bool {
        true
    }

    open spec fn eq_spec(&self, other: &SpreadsheetError) -> bool {
        self@ == other@
    }
}

/// Abstraction over tabular storage backends: create sheets, append rows,
/// read them back, share. Concrete backends live outside the library; the
/// in-memory adapter below and the two decorators implement it here.
pub trait CloudSpreadsheetService {
    /// Creates a new sheet and returns its identifier.
    fn create_sheet(&mut self, title: &str) -> Result<String, SpreadsheetError>;

    /// Appends one row to the sheet.
    fn append_row(&mut self, sheet_id: &str, values: Vec<String>) -> Result<
        (),
        SpreadsheetError,
    >;

    /// Appends several rows to the sheet.
    fn append_rows(&mut self, sheet_id: &str, rows: Vec<Vec<String>>) -> Result<
        (),
        SpreadsheetError,
    >;

    /// Reads the row at `index`.
    fn read_row(&mut self, sheet_id: &str, index: usize) -> Result<Vec<String>, SpreadsheetError>;

    /// Lists all rows of the sheet.
    fn list_rows(&mut self, sheet_id: &str) -> Result<Vec<Vec<String>>, SpreadsheetError>;

    /// Shares the sheet with the given recipient.
    fn share_sheet(&mut self, sheet_id: &str, email: &str) -> Result<(), SpreadsheetError>;
}

/// Appends every row of `rows` to `dst`, in order.
fn push_all_rows(dst: &mut Vec<Vec<String>>, rows: Vec<Vec<String>>)
    ensures
        final(dst).deep_view() == old(dst).deep_view() + rows.deep_view(),
{
    let ghost base = dst.deep_view();
    let ghost rdv = rows.deep_view();
    let mut rows = rows;
    let n = rows.len();
    let mut k: usize = 0;
    proof {
        assert(rdv.take(0) =~= Seq::<Seq<Seq<char>>>::empty());
        assert(base + rdv.take(0) =~= base);
        assert(rows.deep_view() =~= rdv.skip(0));
    }
    while rows.len() > 0
        invariant
            k + rows.len() == n,
            rdv.len() == n,
            rows.deep_view() == rdv.skip(k as int),
            dst.deep_view() == base + rdv.take(k as int),
        decreases rows.len(),
    {
        let ghost before = rows.deep_view();
        let row = rows.remove(0);
        proof {
            assert(row.deep_view() == before[0]);
            assert(before[0] == rdv[k as int]);
            assert(rows.deep_view() =~= rdv.skip(k + 1)) by {
                assert(rows.deep_view() =~= before.drop_first());
            }
        }
        let ghost dbefore = dst.deep_view();
        dst.push(row);
        proof {
            assert(dst.deep_view() =~= dbefore.push(rdv[k as int]));
            assert(base + rdv.take(k as int) + seq![rdv[k as int]] =~= base + rdv.take(k + 1));
        }
        k += 1;
    }
    proof {
        assert(rdv.take(n as int) =~= rdv);
    }
}

/// Does the sheet-link marker stand at the front of `s`?
pub open spec fn marker_here(s: Seq<char>) -> bool {
    s.len() >= 3 && s.subrange(0, 3) == "/d/"@
}

/// Index of the first sheet-link marker in `s`, or -1 when absent.
pub open spec fn first_marker(s: Seq<char>) -> int
    decreases s.len(),
{
    if s.len() < 3 {
        -1
    } else if marker_here(s) {
        0
    } else {
        let r = first_marker(s.drop_first());
        if r < 0 {
            -1
        } else {
            r + 1
        }
    }
}

/// What a pasted sheet link denotes: the piece after the first "/d/" up to
/// the next slash; text without the marker is already an identifier.
pub open spec fn spec_sheet_id_of(s: Seq<char>) -> Seq<char> {
    let i = first_marker(s);
    if i < 0 {
        s
    } else {
        let rest = s.skip(i + 3);
        let e = crate::textutil::first_sep(rest, '/');
        if e < 0 {
            rest
        } else {
            rest.take(e)
        }
    }
}

/// `first_marker` really is the least marker position, or -1 when none.
proof fn lemma_first_marker(s: Seq<char>)
    ensures
        first_marker(s) == -1 ==> (forall|j: int|
            0 <= j <= s.len() - 3 ==> !marker_here(#[trigger] s.skip(j))),
        first_marker(s) >= 0 ==> {
            &&& first_marker(s) <= s.len() - 3
            &&& marker_here(s.skip(first_marker(s)))
            &&& forall|j: int| 0 <= j < first_marker(s) ==> !marker_here(#[trigger] s.skip(j))
        },
    decreases s.len(),
{
    if s.len() >= 3 && !marker_here(s) {
        lemma_first_marker(s.drop_first());
        let t = s.drop_first();
        assert(s.skip(0) =~= s);
        assert(forall|j: int| 1 <= j <= s.len() ==> s.skip(j) =~= t.skip(j - 1));
        let r = first_marker(t);
        if r >= 0 {
            assert(s.skip(r + 1) =~= t.skip(r));
            assert(forall|j: int| 1 <= j < r + 1 ==> s.skip(j) =~= t.skip(j - 1));
        } else {
            assert(forall|j: int| 1 <= j <= s.len() - 3 ==> s.skip(j) =~= t.skip(j - 1));
        }
    } else if s.len() < 3 {
    } else {
        assert(s.skip(0) =~= s);
    }
}

/// Extracts the sheet identifier from a pasted link: the piece after the
/// first "/d/" up to the next slash, or the whole text when no marker is
/// present.
pub fn parse_sheet_id(input: &str) -> (r: String)
    ensures
        r@ == spec_sheet_id_of(input@),
{
    let n = input.unicode_len();
    let ghost sv = input@;
    let mut i: usize = 0;
    let mut start: usize = n;
    let mut found = false;
    proof {
        lemma_first_marker(sv);
    }
    while n - i >= 3 && !found
        invariant
            i <= n,
            n == sv.len(),
            sv == input@,
            !found ==> forall|j: int| 0 <= j < i ==> !marker_here(#[trigger] sv.skip(j)),
            found ==> i <= n - 3 && marker_here(sv.skip(i as int)) && start == i + 3 && (forall|
                j: int,
            |
                0 <= j < i ==> !marker_here(#[trigger] sv.skip(j))),
        decreases n - i + (if found {
            0int
        } else {
            1int
        }),
    {
        if input.get_char(i) == '/' && input.get_char(i + 1) == 'd' && input.get_char(i + 2)
            == '/' {
            proof {
                reveal_strlit("/d/");
                assert(sv.skip(i as int).subrange(0, 3) =~= sv.subrange(i as int, i + 3));
                assert(sv.subrange(i as int, i + 3) =~= seq!['/', 'd', '/']);
                assert("/d/"@ =~= seq!['/', 'd', '/']);
            }
            start = i + 3;
            found = true;
        } else {
            proof {
                reveal_strlit("/d/");
                if marker_here(sv.skip(i as int)) {
                    assert(sv.skip(i as int).subrange(0, 3) =~= sv.subrange(i as int, i + 3));
                    assert(sv.subrange(i as int, i + 3) == "/d/"@);
                    assert(sv.subrange(i as int, i + 3)[0] == sv[i as int]);
                    assert(sv.subrange(i as int, i + 3)[1] == sv[i + 1]);
                    assert(sv.subrange(i as int, i + 3)[2] == sv[i + 2]);
                    assert("/d/"@ =~= seq!['/', 'd', '/']);
                    assert(false);
                }
            }
            i += 1;
        }
    }
    if !found {
        proof {
            assert forall|j: int| 0 <= j <= sv.len() - 3 implies !marker_here(
                #[trigger] sv.skip(j),
            ) by {
                if marker_here(sv.skip(j)) {
                    assert(j < i);
                }
            }
            if first_marker(sv) >= 0 {
                assert(!marker_here(sv.skip(first_marker(sv))));
            }
        }
        return input.to_owned();
    }
    proof {
        let f = first_marker(sv);
        if f == -1 {
            assert(!marker_here(sv.skip(i as int)));
        }
        if f < i {
            assert(!marker_here(sv.skip(f)));
        }
        if f > i {
            assert(!marker_here(sv.skip(i as int)));
        }
        assert(f == i);
    }
    let rest = input.substring_char(start, n);
    let ghost restv = sv.skip(start as int);
    proof {
        assert(rest@ =~= restv);
    }
    let m = rest.unicode_len();
    let mut k: usize = 0;
    while k < m
        invariant
            k <= m,
            m == rest@.len(),
            sv == input@,
            first_marker(sv) >= 0,
            start == first_marker(sv) + 3,
            restv == sv.skip(start as int),
            rest@ == restv,
            forall|j: int| 0 <= j < k ==> restv[j] != '/',
        decreases m - k,
    {
        if rest.get_char(k) == '/' {
            proof {
                crate::textutil::lemma_first_sep(restv, '/');
                let e = crate::textutil::first_sep(restv, '/');
                if e == -1 {
                    assert(restv[k as int] != '/');
                }
                if e < k {
                    assert(restv[e] != '/');
                }
                if e > k {
                    assert(restv[k as int] != '/');
                }
                assert(e == k);
            }
            let piece = rest.substring_char(0, k);
            proof {
                assert(piece@ =~= restv.take(k as int));
            }
            return piece.to_owned();
        }
        k += 1;
    }
    proof {
        crate::textutil::lemma_first_sep(restv, '/');
        let e = crate::textutil::first_sep(restv, '/');
        if e >= 0 {
            assert(restv[e] != '/');
        }
    }
    rest.to_owned()
}

/// One stored sheet of the in-memory adapter.
#[derive(Debug)]
struct Sheet {
    id: String,
    rows: Vec<Vec<String>>,
}

/// The mathematical value of one stored sheet.
pub ghost struct SheetView {
    pub id: Seq<char>,
    pub rows: Seq<Seq<Seq<char>>>,
}

impl View for Sheet {
    type V = SheetView;

    closed spec fn view(&self) -> SheetView {
        SheetView { id: self.id@, rows: self.rows.deep_view() }
    }
}

impl DeepView for Sheet {
    type V = SheetView;

    closed spec fn deep_view(&self) -> SheetView {
        self@
    }
}

/// The rows of the first sheet carrying `id`, if any.
pub open spec fn sheets_lookup(sheets: Seq<SheetView>, id: Seq<char>) -> Option<Seq<Seq<Seq<char>>>>
    decreases sheets.len(),
{
    if sheets.len() == 0 {
        None
    } else if sheets[0].id == id {
        Some(sheets[0].rows)
    } else {
        sheets_lookup(sheets.drop_first(), id)
    }
}

/// The sheets with the rows of the first sheet carrying `id` replaced.
pub open spec fn sheets_update(
    sheets: Seq<SheetView>,
    id: Seq<char>,
    rows: Seq<Seq<Seq<char>>>,
) -> Seq<SheetView>
    decreases sheets.len(),
{
    if sheets.len() == 0 {
        sheets
    } else if sheets[0].id == id {
        sheets.update(0, SheetView { id, rows })
    } else {
        seq![sheets[0]] + sheets_update(sheets.drop_first(), id, rows)
    }
}

/// The name of the `n`-th created sheet.
pub open spec fn sheet_name(n: int) -> Seq<char> {
    "sheet"@ + dec_digits(n as nat)
}

/// The mathematical value of the in-memory adapter.
pub ghost struct AdapterView {
    pub sheets: Seq<SheetView>,
    pub next_id: int,
}

/// In-memory storage: a list of sheets held in program memory, useful as a
/// stand-in backend and for exercising everything built over the port.
#[derive(Debug)]
pub struct GoogleSheetsAdapter {
    sheets: Vec<Sheet>,
    next_id: usize,
}

impl View for GoogleSheetsAdapter {
    type V = AdapterView;

    closed spec fn view(&self) -> AdapterView {
        AdapterView { sheets: self.sheets.deep_view(), next_id: self.next_id as int }
    }
}

impl Default for GoogleSheetsAdapter {
    /// A fresh adapter with no sheets.
    fn default() -> (a: GoogleSheetsAdapter)
        ensures
            a@.sheets == Seq::<SheetView>::empty(),
            a@.next_id == 1,
    {
        GoogleSheetsAdapter::new()
    }
}

impl GoogleSheetsAdapter {
    /// Creates a fresh adapter with no sheets.
    pub fn new() -> (a: GoogleSheetsAdapter)
        ensures
            a@.sheets == Seq::<SheetView>::empty(),
            a@.next_id == 1,
    {
        let a = GoogleSheetsAdapter { sheets: Vec::new(), next_id: 1 };
        proof {
            assert(a@.sheets =~= Seq::<SheetView>::empty());
        }
        a
    }

    /// Index of the first sheet carrying `id`, or the sheet count.
    fn find_sheet(&self, sheet_id: &str) -> (r: usize)
        ensures
            r <= self@.sheets.len(),
            r < self@.sheets.len() ==> self@.sheets[r as int].id == sheet_id@ && sheets_lookup(
                self@.sheets,
                sheet_id@,
            ) == Some(self@.sheets[r as int].rows),
            r == self@.sheets.len() ==> sheets_lookup(self@.sheets, sheet_id@) is None,
            forall|j: int| 0 <= j < r ==> (#[trigger] self@.sheets[j]).id != sheet_id@,
    {
        let n = self.sheets.len();
        let mut i: usize = 0;
        while i < n
            invariant
                i <= n,
                n == self.sheets.len(),
                self@.sheets.len() == n,
                forall|j: int| 0 <= j < i ==> (#[trigger] self@.sheets[j]).id != sheet_id@,
            decreases n - i,
        {
            if str_eq(self.sheets[i].id.as_str(), sheet_id) {
                proof {
                    assert(self@.sheets[i as int].id == sheet_id@);
                    lemma_lookup_at(self@.sheets, sheet_id@, i as int);
                }
                return i;
            }
            i += 1;
        }
        proof {
            lemma_lookup_none(self@.sheets, sheet_id@);
        }
        n
    }
}

impl CloudSpreadsheetService for GoogleSheetsAdapter {
    /// Creates a sheet under a fresh name; the title is not recorded.
    fn create_sheet(&mut self, title: &str) -> (r: Result<String, SpreadsheetError>)
        ensures
            r is Ok <==> old(self)@.next_id < usize::MAX,
            r matches Ok(id) ==> {
                &&& id@ == sheet_name(old(self)@.next_id)
                &&& final(self)@.sheets == old(self)@.sheets.push(
                    SheetView { id: id@, rows: Seq::empty() },
                )
                &&& final(self)@.next_id == old(self)@.next_id + 1
            },
            r is Err ==> final(self)@ == old(self)@,
    {
        let _ = title;
        if self.next_id == usize::MAX {
            return Err(SpreadsheetError::Unknown);
        }
        proof {
            reveal_strlit("sheet");
        }
        let mut id = String::new();
        id.append("sheet");
        let num = u64_to_dec(self.next_id as u64);
        id.append(num.as_str());
        proof {
            assert(id@ =~= sheet_name(self@.next_id));
        }
        let ghost prev = self@.sheets;
        let out = id.clone();
        self.sheets.push(Sheet { id, rows: Vec::new() });
        self.next_id = self.next_id + 1;
        proof {
            assert(self@.sheets =~= prev.push(
                SheetView { id: out@, rows: Seq::<Seq<Seq<char>>>::empty() },
            )) by {
                assert(self@.sheets.last().rows =~= Seq::<Seq<Seq<char>>>::empty());
                assert(self@.sheets.last() == (SheetView {
                    id: out@,
                    rows: Seq::<Seq<Seq<char>>>::empty(),
                }));
            }
        }
        Ok(out)
    }

    /// Appends one row to the named sheet; fails with `SheetNotFound`, and
    /// changes nothing, exactly when the sheet is absent.
    fn append_row(&mut self, sheet_id: &str, values: Vec<String>) -> (r: Result<
        (),
        SpreadsheetError,
    >)
        ensures
            r is Ok <==> sheets_lookup(old(self)@.sheets, sheet_id@) is Some,
            r is Ok ==> final(self)@.sheets == sheets_update(
                old(self)@.sheets,
                sheet_id@,
                sheets_lookup(old(self)@.sheets, sheet_id@)->0.push(values.deep_view()),
            ) && final(self)@.next_id == old(self)@.next_id,
            r is Err ==> final(self)@ == old(self)@ && r == Err::<(), SpreadsheetError>(
                SpreadsheetError::SheetNotFound,
            ),
    {
        let i = self.find_sheet(sheet_id);
        if i == self.sheets.len() {
            return Err(SpreadsheetError::SheetNotFound);
        }
        let ghost prev = self@.sheets;
        let ghost vdv = values.deep_view();
        proof {
            lemma_update_at(prev, sheet_id@, i as int, prev[i as int].rows.push(vdv));
        }
        let mut entry = self.sheets.remove(i);
        let ghost oldrows = entry@.rows;
        let ghost mid = self.sheets.deep_view();
        proof {
            assert(mid =~= prev.remove(i as int));
        }
        entry.rows.push(values);
        proof {
            assert(entry@.rows =~= oldrows.push(vdv));
        }
        let ghost ev = entry@;
        self.sheets.insert(i, entry);
        proof {
            assert(self.sheets.deep_view() =~= mid.insert(i as int, ev));
            assert(mid.insert(i as int, ev) =~= prev.update(
                i as int,
                SheetView { id: sheet_id@, rows: oldrows.push(vdv) },
            ));
        }
        Ok(())
    }

    /// Appends several rows at once; fails with `SheetNotFound`, and
    /// changes nothing, exactly when the sheet is absent.
    fn append_rows(&mut self, sheet_id: &str, rows: Vec<Vec<String>>) -> (r: Result<
        (),
        SpreadsheetError,
    >)
        ensures
            r is Ok <==> sheets_lookup(old(self)@.sheets, sheet_id@) is Some,
            r is Ok ==> final(self)@.sheets == sheets_update(
                old(self)@.sheets,
                sheet_id@,
                sheets_lookup(old(self)@.sheets, sheet_id@)->0 + rows.deep_view(),
            ) && final(self)@.next_id == old(self)@.next_id,
            r is Err ==> final(self)@ == old(self)@ && r == Err::<(), SpreadsheetError>(
                SpreadsheetError::SheetNotFound,
            ),
    {
        let i = self.find_sheet(sheet_id);
        if i == self.sheets.len() {
            return Err(SpreadsheetError::SheetNotFound);
        }
        let ghost prev = self@.sheets;
        let ghost rdv = rows.deep_view();
        proof {
            lemma_update_at(prev, sheet_id@, i as int, prev[i as int].rows + rdv);
        }
        let mut entry = self.sheets.remove(i);
        let ghost oldrows = entry@.rows;
        let ghost mid = self.sheets.deep_view();
        proof {
            assert(mid =~= prev.remove(i as int));
        }
        push_all_rows(&mut entry.rows, rows);
        proof {
            assert(entry@.rows == oldrows + rdv);
        }
        let ghost ev = entry@;
        self.sheets.insert(i, entry);
        proof {
            assert(self.sheets.deep_view() =~= mid.insert(i as int, ev));
            assert(mid.insert(i as int, ev) =~= prev.update(
                i as int,
                SheetView { id: sheet_id@, rows: oldrows + rdv },
            ));
        }
        Ok(())
    }

    /// Reads the row at `index`; fails with `SheetNotFound` when the sheet
    /// is absent and `RowNotFound` when the index is out of range. The
    /// adapter itself never changes.
    fn read_row(&mut self, sheet_id: &str, index: usize) -> (r: Result<
        Vec<String>,
        SpreadsheetError,
    >)
        ensures
            final(self)@ == old(self)@,
            ({
                let found = sheets_lookup(old(self)@.sheets, sheet_id@);
                match found {
                    None => r == Err::<Vec<String>, SpreadsheetError>(
                        SpreadsheetError::SheetNotFound,
                    ),
                    Some(rows) => {
                        if index < rows.len() {
                            r matches Ok(row) && row.deep_view() == rows[index as int]
                        } else {
                            r == Err::<Vec<String>, SpreadsheetError>(SpreadsheetError::RowNotFound)
                        }
                    },
                }
            }),
    {
        let i = self.find_sheet(sheet_id);
        if i == self.sheets.len() {
            return Err(SpreadsheetError::SheetNotFound);
        }
        let sheet = &self.sheets[i];
        if index < sheet.rows.len() {
            let row = crate::record::clone_strings(&sheet.rows[index]);
            proof {
                assert(sheet.rows[index as int].deep_view() == sheet@.rows[index as int]);
            }
            Ok(row)
        } else {
            Err(SpreadsheetError::RowNotFound)
        }
    }

    /// Lists all rows; fails with `SheetNotFound`, and changes nothing,
    /// exactly when the sheet is absent.
    fn list_rows(&mut self, sheet_id: &str) -> (r: Result<Vec<Vec<String>>, SpreadsheetError>)
        ensures
            final(self)@ == old(self)@,
            r is Ok <==> sheets_lookup(old(self)@.sheets, sheet_id@) is Some,
            r matches Ok(rows) ==> Some(rows.deep_view()) == sheets_lookup(
                old(self)@.sheets,
                sheet_id@,
            ),
            r is Err ==> r == Err::<Vec<Vec<String>>, SpreadsheetError>(
                SpreadsheetError::SheetNotFound,
            ),
    {
        let i = self.find_sheet(sheet_id);
        if i == self.sheets.len() {
            return Err(SpreadsheetError::SheetNotFound);
        }
        let sheet = &self.sheets[i];
        let n = sheet.rows.len();
        let mut out: Vec<Vec<String>> = Vec::new();
        let mut k: usize = 0;
        while k < n
            invariant
                k <= n,
                n == sheet.rows.len(),
                out.len() == k,
                forall|j: int| 0 <= j < k ==> out.deep_view()[j] == sheet.rows.deep_view()[j],
            decreases n - k,
        {
            let ghost before = out.deep_view();
            out.push(crate::record::clone_strings(&sheet.rows[k]));
            proof {
                assert forall|j: int| 0 <= j < k + 1 implies out.deep_view()[j]
                    == sheet.rows.deep_view()[j] by {
                    if j < k {
                        assert(out.deep_view()[j] == before[j]);
                    } else {
                        assert(out.deep_view()[j] == out@[j].deep_view());
                    }
                }
            }
            k += 1;
        }
        proof {
            assert(out.deep_view() =~= sheet.rows.deep_view());
            assert(sheet@.rows == sheet.rows.deep_view());
        }
        Ok(out)
    }

    /// Shares succeed exactly when the sheet exists; the recipient is not
    /// recorded. Nothing changes either way.
    fn share_sheet(&mut self, sheet_id: &str, email: &str) -> (r: Result<(), SpreadsheetError>)
        ensures
            final(self)@ == old(self)@,
            r is Ok <==> sheets_lookup(old(self)@.sheets, sheet_id@) is Some,
            r is Err ==> r == Err::<(), SpreadsheetError>(SpreadsheetError::ShareFailed),
    {
        let _ = email;
        let i = self.find_sheet(sheet_id);
        if i == self.sheets.len() {
            Err(SpreadsheetError::ShareFailed)
        } else {
            Ok(())
        }
    }
}

/// When the first index carrying `id` is `k`, the lookup returns its rows.
proof fn lemma_lookup_at(sheets: Seq<SheetView>, id: Seq<char>, k: int)
    requires
        0 <= k < sheets.len(),
        sheets[k].id == id,
        forall|j: int| 0 <= j < k ==> (#[trigger] sheets[j]).id != id,
    ensures
        sheets_lookup(sheets, id) == Some(sheets[k].rows),
    decreases k,
{
    if k > 0 {
        let t = sheets.drop_first();
        assert(forall|j: int| 0 <= j < t.len() ==> t[j] == sheets[j + 1]);
        assert(forall|j: int| 0 <= j < k - 1 ==> (#[trigger] t[j]).id != id) by {
            assert(forall|j: int| 0 <= j < k - 1 ==> t[j] == sheets[j + 1]);
        }
        lemma_lookup_at(t, id, k - 1);
    }
}

/// When no sheet carries `id`, the lookup returns nothing.
proof fn lemma_lookup_none(sheets: Seq<SheetView>, id: Seq<char>)
    requires
        forall|j: int| 0 <= j < sheets.len() ==> (#[trigger] sheets[j]).id != id,
    ensures
        sheets_lookup(sheets, id) is None,
    decreases sheets.len(),
{
    if sheets.len() > 0 {
        let t = sheets.drop_first();
        assert(forall|j: int| 0 <= j < t.len() ==> t[j] == sheets[j + 1]);
        lemma_lookup_none(t, id);
    }
}

/// Updating at the first index carrying `id` is `sheets_update`.
proof fn lemma_update_at(sheets: Seq<SheetView>, id: Seq<char>, k: int, rows: Seq<Seq<Seq<char>>>)
    requires
        0 <= k < sheets.len(),
        sheets[k].id == id,
        forall|j: int| 0 <= j < k ==> (#[trigger] sheets[j]).id != id,
    ensures
        sheets_update(sheets, id, rows) == sheets.update(k, SheetView { id, rows }),
    decreases k,
{
    if k == 0 {
    } else {
        let t = sheets.drop_first();
        assert(forall|j: int| 0 <= j < t.len() ==> t[j] == sheets[j + 1]);
        assert(forall|j: int| 0 <= j < k - 1 ==> (#[trigger] t[j]).id != id) by {
            assert(forall|j: int| 0 <= j < k - 1 ==> t[j] == sheets[j + 1]);
        }
        lemma_update_at(t, id, k - 1, rows);
        assert(seq![sheets[0]] + t.update(k - 1, SheetView { id, rows }) =~= sheets.update(
            k,
            SheetView { id, rows },
        ));
    }
}

} // verus!
