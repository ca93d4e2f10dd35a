use std::cell::RefCell;
use std::rc::Rc;

use rusty_ledger::account::Account;
use rusty_ledger::port::{CloudSpreadsheetService, GoogleSheetsAdapter, SpreadsheetError};
use rusty_ledger::record::Record;
use rusty_ledger::sharing::{AccessError, Permission, SharedLedger};

fn acct(s: &str) -> Account {
    Account::parse_str(s)
}

struct CountingAdapter {
    inner: GoogleSheetsAdapter,
    append_calls: Rc<RefCell<usize>>,
}

impl CountingAdapter {
    fn new(append_calls: Rc<RefCell<usize>>) -> Self {
        Self {
            inner: GoogleSheetsAdapter::new(),
            append_calls,
        }
    }
}

impl CloudSpreadsheetService for CountingAdapter {
    fn create_sheet(&mut self, title: &str) -> Result<String, SpreadsheetError> {
        self.inner.create_sheet(title)
    }

    fn append_row(&mut self, sheet_id: &str, values: Vec<String>) -> Result<(), SpreadsheetError> {
        *self.append_calls.borrow_mut() += 1;
        self.inner.append_row(sheet_id, values)
    }

    fn append_rows(
        &mut self,
        sheet_id: &str,
        rows: Vec<Vec<String>>,
    ) -> Result<(), SpreadsheetError> {
        *self.append_calls.borrow_mut() += rows.len();
        self.inner.append_rows(sheet_id, rows)
    }

    fn read_row(&mut self, sheet_id: &str, index: usize) -> Result<Vec<String>, SpreadsheetError> {
        self.inner.read_row(sheet_id, index)
    }

    fn list_rows(&mut self, sheet_id: &str) -> Result<Vec<Vec<String>>, SpreadsheetError> {
        self.inner.list_rows(sheet_id)
    }

    fn share_sheet(&mut self, sheet_id: &str, email: &str) -> Result<(), SpreadsheetError> {
        self.inner.share_sheet(sheet_id, email)
    }
}

#[test]
fn commit_invokes_append_row() {
    let counter = Rc::new(RefCell::new(0));
    let adapter = CountingAdapter::new(Rc::clone(&counter));
    let ledger = SharedLedger::new(adapter, "owner@example.com").unwrap();

    let record = Record::new(
        "desc".into(),
        acct("cash"),
        acct("revenue"),
        1,
        "USD".into(),
        None,
        None,
        vec![],
    )
    .unwrap();

    ledger.commit("owner@example.com", record).unwrap();

    assert_eq!(*counter.borrow(), 1);
}

#[derive(Default)]
struct FailingShare;

impl CloudSpreadsheetService for FailingShare {
    fn create_sheet(&mut self, _title: &str) -> Result<String, SpreadsheetError> {
        Ok("sheet1".into())
    }

    fn append_row(&mut self, _sheet_id: &str, _values: Vec<String>) -> Result<(), SpreadsheetError> {
        Err(SpreadsheetError::Unknown)
    }

    fn append_rows(
        &mut self,
        _sheet_id: &str,
        _rows: Vec<Vec<String>>,
    ) -> Result<(), SpreadsheetError> {
        Err(SpreadsheetError::Unknown)
    }

    fn read_row(&mut self, _sheet_id: &str, _index: usize) -> Result<Vec<String>, SpreadsheetError> {
        Err(SpreadsheetError::Unknown)
    }

    fn list_rows(&mut self, _sheet_id: &str) -> Result<Vec<Vec<String>>, SpreadsheetError> {
        Err(SpreadsheetError::Unknown)
    }

    fn share_sheet(&mut self, _sheet_id: &str, _email: &str) -> Result<(), SpreadsheetError> {
        Err(SpreadsheetError::ShareFailed)
    }
}

#[test]
fn share_with_returns_access_error() {
    let adapter = FailingShare;
    let ledger = SharedLedger::new(adapter, "owner@example.com").unwrap();
    let err = ledger
        .share_with("owner@example.com", "user@example.com", Permission::Read)
        .unwrap_err();
    assert_eq!(err, AccessError::ShareFailed);
}

#[derive(Default)]
struct FailingCreate;

impl CloudSpreadsheetService for FailingCreate {
    fn create_sheet(&mut self, _title: &str) -> Result<String, SpreadsheetError> {
        Err(SpreadsheetError::Permanent("boom".into()))
    }

    fn append_row(&mut self, _sheet_id: &str, _values: Vec<String>) -> Result<(), SpreadsheetError> {
        Err(SpreadsheetError::Unknown)
    }

    fn append_rows(
        &mut self,
        _sheet_id: &str,
        _rows: Vec<Vec<String>>,
    ) -> Result<(), SpreadsheetError> {
        Err(SpreadsheetError::Unknown)
    }

    fn read_row(&mut self, _sheet_id: &str, _index: usize) -> Result<Vec<String>, SpreadsheetError> {
        Err(SpreadsheetError::Unknown)
    }

    fn list_rows(&mut self, _sheet_id: &str) -> Result<Vec<Vec<String>>, SpreadsheetError> {
        Err(SpreadsheetError::Unknown)
    }

    fn share_sheet(&mut self, _sheet_id: &str, _email: &str) -> Result<(), SpreadsheetError> {
        Err(SpreadsheetError::Unknown)
    }
}

#[test]
fn new_propagates_spreadsheet_error() {
    let adapter = FailingCreate;
    let res = SharedLedger::new(adapter, "owner@example.com");
    let err = match res {
        Ok(_) => panic!("expected error"),
        Err(e) => e,
    };
    assert_eq!(err, SpreadsheetError::Permanent("boom".into()));
}

#[test]
fn from_sheet_loads_existing_rows() {
    let mut adapter = GoogleSheetsAdapter::new();
    let sheet = adapter.create_sheet("ledger").unwrap();
    let record = Record::new(
        "desc".into(),
        acct("cash"),
        acct("revenue"),
        2,
        "USD".into(),
        None,
        None,
        vec!["tag".into()],
    )
    .unwrap();
    adapter.append_row(&sheet, record.to_row()).unwrap();

    let ledger = SharedLedger::from_sheet(adapter, &sheet, "owner@example.com").unwrap();
    let records = ledger.records("owner@example.com").unwrap();
    assert_eq!(records.len(), 1);
    assert_eq!(records[0], record);
}

#[derive(Default)]
struct FailingList;

impl CloudSpreadsheetService for FailingList {
    fn create_sheet(&mut self, _title: &str) -> Result<String, SpreadsheetError> {
        Ok("sheet1".into())
    }

    fn append_row(&mut self, _sheet_id: &str, _values: Vec<String>) -> Result<(), SpreadsheetError> {
        Err(SpreadsheetError::Unknown)
    }

    fn append_rows(
        &mut self,
        _sheet_id: &str,
        _rows: Vec<Vec<String>>,
    ) -> Result<(), SpreadsheetError> {
        Err(SpreadsheetError::Unknown)
    }

    fn read_row(&mut self, _sheet_id: &str, _index: usize) -> Result<Vec<String>, SpreadsheetError> {
        Err(SpreadsheetError::Unknown)
    }

    fn list_rows(&mut self, _sheet_id: &str) -> Result<Vec<Vec<String>>, SpreadsheetError> {
        Err(SpreadsheetError::SheetNotFound)
    }

    fn share_sheet(&mut self, _sheet_id: &str, _email: &str) -> Result<(), SpreadsheetError> {
        Err(SpreadsheetError::Unknown)
    }
}

#[test]
fn from_sheet_propagates_errors() {
    let adapter = FailingList;
    let res = SharedLedger::from_sheet(adapter, "missing", "owner@example.com");
    let err = res.err().unwrap();
    assert_eq!(err, SpreadsheetError::SheetNotFound);
}

#[test]
fn cleared_status_persists() {
    let adapter = GoogleSheetsAdapter::new();
    let ledger = SharedLedger::new(adapter, "owner@example.com").unwrap();
    ledger
        .share_with("owner@example.com", "writer@example.com", Permission::Write)
        .unwrap();

    let record = Record::new(
        "desc".into(),
        acct("cash"),
        acct("revenue"),
        1,
        "USD".into(),
        None,
        None,
        vec![],
    )
    .unwrap();
    let id = record.id;
    ledger.commit("writer@example.com", record).unwrap();
    ledger.mark_cleared("writer@example.com", id).unwrap();

    let (adapter, sheet) = ledger.into_parts();
    let ledger2 = SharedLedger::from_sheet(adapter, &sheet, "owner@example.com").unwrap();
    let rec = ledger2.get_record("owner@example.com", id).unwrap();
    assert!(rec.cleared);
}

#[test]
fn mark_pending_overrides_earlier_cleared() {
    let adapter = GoogleSheetsAdapter::new();
    let ledger = SharedLedger::new(adapter, "owner@example.com").unwrap();
    let record = Record::new(
        "desc".into(),
        acct("cash"),
        acct("revenue"),
        1,
        "USD".into(),
        None,
        None,
        vec![],
    )
    .unwrap();
    let id = record.id;
    ledger.commit("owner@example.com", record).unwrap();
    ledger.mark_cleared("owner@example.com", id).unwrap();
    ledger.mark_pending("owner@example.com", id).unwrap();

    let (adapter, sheet) = ledger.into_parts();
    let ledger2 = SharedLedger::from_sheet(adapter, &sheet, "owner@example.com").unwrap();
    let rec = ledger2.get_record("owner@example.com", id).unwrap();
    assert!(!rec.cleared);
}

#[test]
fn adjustments_survive_a_rebuild() {
    let adapter = GoogleSheetsAdapter::new();
    let ledger = SharedLedger::new(adapter, "owner@example.com").unwrap();

    let original = Record::new(
        "orig".into(),
        acct("cash"),
        acct("revenue"),
        10,
        "USD".into(),
        None,
        None,
        vec![],
    )
    .unwrap();
    let orig_id = original.id;
    ledger.commit("owner@example.com", original).unwrap();

    let adj = Record::new(
        "adj".into(),
        acct("revenue"),
        acct("cash"),
        2,
        "USD".into(),
        None,
        None,
        vec![],
    )
    .unwrap();
    let adj_id = adj.id;
    ledger
        .apply_adjustment("owner@example.com", orig_id, adj)
        .unwrap();

    let (adapter, sheet) = ledger.into_parts();
    let rebuilt = SharedLedger::from_sheet(adapter, &sheet, "owner@example.com").unwrap();
    let records = rebuilt.records("owner@example.com").unwrap();
    assert_eq!(records.len(), 2);
    let adj_back = rebuilt.get_record("owner@example.com", adj_id).unwrap();
    assert_eq!(adj_back.reference_id, Some(orig_id));
}

#[test]
fn rows_from_any_writer_verify_with_the_ledger_signature() {
    let adapter = GoogleSheetsAdapter::new();
    let ledger = SharedLedger::new(adapter, "owner@example.com").unwrap();
    ledger
        .share_with("owner@example.com", "writer@example.com", Permission::Write)
        .unwrap();

    let record = Record::new(
        "desc".into(),
        acct("cash"),
        acct("revenue"),
        1,
        "USD".into(),
        None,
        None,
        vec![],
    )
    .unwrap();
    ledger.commit("writer@example.com", record).unwrap();

    let signature =
        rusty_ledger::hashing::generate_signature("owner@example.com", None).unwrap();
    let (mut adapter, sheet) = ledger.into_parts();
    let bad = rusty_ledger::verification::verify_sheet(&mut adapter, &sheet, &signature).unwrap();
    assert!(bad.is_empty());
}

#[test]
fn password_folds_into_the_ledger_signature() {
    let adapter = GoogleSheetsAdapter::new();
    let ledger =
        SharedLedger::new_with_password(adapter, "owner@example.com", Some("hunter")).unwrap();
    let record = Record::new(
        "desc".into(),
        acct("cash"),
        acct("revenue"),
        3,
        "USD".into(),
        None,
        None,
        vec![],
    )
    .unwrap();
    ledger.commit("owner@example.com", record).unwrap();

    let good =
        rusty_ledger::hashing::generate_signature("owner@example.com", Some("hunter")).unwrap();
    let wrong = rusty_ledger::hashing::generate_signature("owner@example.com", None).unwrap();
    let (mut adapter, sheet) = ledger.into_parts();
    let bad = rusty_ledger::verification::verify_sheet(&mut adapter, &sheet, &good).unwrap();
    assert!(bad.is_empty());
    let bad = rusty_ledger::verification::verify_sheet(&mut adapter, &sheet, &wrong).unwrap();
    assert_eq!(bad, vec![0]);
}

#[test]
fn a_blank_owner_name_is_refused() {
    let adapter = GoogleSheetsAdapter::new();
    let res = SharedLedger::new(adapter, "   ");
    assert!(matches!(res, Err(SpreadsheetError::Permanent(_))));
}
