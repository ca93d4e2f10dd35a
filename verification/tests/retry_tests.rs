use std::cell::RefCell;
use std::rc::Rc;

use rusty_ledger::port::{CloudSpreadsheetService, SpreadsheetError};
use rusty_ledger::retry::RetryingService;

struct FlakyAdapter {
    fail_times: usize,
    calls: Rc<RefCell<usize>>,
}

impl FlakyAdapter {
    fn new(fail_times: usize, calls: Rc<RefCell<usize>>) -> Self {
        Self { fail_times, calls }
    }
}

impl CloudSpreadsheetService for FlakyAdapter {
    fn create_sheet(&mut self, _title: &str) -> Result<String, SpreadsheetError> {
        let mut c = self.calls.borrow_mut();
        *c += 1;
        if *c <= self.fail_times {
            Err(SpreadsheetError::Transient("network".into()))
        } else {
            Ok(format!("sheet{c}"))
        }
    }

    fn append_row(&mut self, _sheet_id: &str, _values: Vec<String>) -> Result<(), SpreadsheetError> {
        Err(SpreadsheetError::Unknown)
    }

    fn append_rows(
        &mut self,
        _sheet_id: &str,
        _rows: Vec<Vec<String>>,
    ) -> Result<(), SpreadsheetError> {
        Err(SpreadsheetError::Unknown)
    }

    fn read_row(&mut self, _sheet_id: &str, _index: usize) -> Result<Vec<String>, SpreadsheetError> {
        Err(SpreadsheetError::Unknown)
    }

    fn list_rows(&mut self, _sheet_id: &str) -> Result<Vec<Vec<String>>, SpreadsheetError> {
        Err(SpreadsheetError::Unknown)
    }

    fn share_sheet(&mut self, _sheet_id: &str, _email: &str) -> Result<(), SpreadsheetError> {
        Err(SpreadsheetError::Unknown)
    }
}

#[test]
fn retries_and_succeeds() {
    let calls = Rc::new(RefCell::new(0));
    let adapter = FlakyAdapter::new(2, Rc::clone(&calls));
    let mut retry = RetryingService::new(adapter, 3, 1);
    let id = retry.create_sheet("test").unwrap();
    assert_eq!(id, "sheet3");
    assert_eq!(*calls.borrow(), 3);
}

#[test]
fn gives_up_after_max_retries() {
    let calls = Rc::new(RefCell::new(0));
    let adapter = FlakyAdapter::new(5, Rc::clone(&calls));
    let mut retry = RetryingService::new(adapter, 3, 1);
    let err = retry.create_sheet("test").unwrap_err();
    assert!(matches!(err, SpreadsheetError::Transient(_)));
    assert_eq!(*calls.borrow(), 4);
}

struct AlwaysPermanent {
    calls: Rc<RefCell<usize>>,
}

impl CloudSpreadsheetService for AlwaysPermanent {
    fn create_sheet(&mut self, _title: &str) -> Result<String, SpreadsheetError> {
        *self.calls.borrow_mut() += 1;
        Err(SpreadsheetError::Permanent("broken".into()))
    }

    fn append_row(&mut self, _sheet_id: &str, _values: Vec<String>) -> Result<(), SpreadsheetError> {
        Err(SpreadsheetError::Unknown)
    }

    fn append_rows(
        &mut self,
        _sheet_id: &str,
        _rows: Vec<Vec<String>>,
    ) -> Result<(), SpreadsheetError> {
        Err(SpreadsheetError::Unknown)
    }

    fn read_row(&mut self, _sheet_id: &str, _index: usize) -> Result<Vec<String>, SpreadsheetError> {
        Err(SpreadsheetError::Unknown)
    }

    fn list_rows(&mut self, _sheet_id: &str) -> Result<Vec<Vec<String>>, SpreadsheetError> {
        Err(SpreadsheetError::Unknown)
    }

    fn share_sheet(&mut self, _sheet_id: &str, _email: &str) -> Result<(), SpreadsheetError> {
        Err(SpreadsheetError::Unknown)
    }
}

#[test]
fn permanent_errors_are_not_retried() {
    let calls = Rc::new(RefCell::new(0));
    let adapter = AlwaysPermanent { calls: Rc::clone(&calls) };
    let mut retry = RetryingService::new(adapter, 3, 1);
    let err = retry.create_sheet("test").unwrap_err();
    assert_eq!(err, SpreadsheetError::Permanent("broken".into()));
    assert_eq!(*calls.borrow(), 1);
}

#[test]
fn backoff_delay_doubles_and_saturates() {
    assert_eq!(rusty_ledger::retry::retry_delay_ms(5, 0), 5);
    assert_eq!(rusty_ledger::retry::retry_delay_ms(5, 1), 10);
    assert_eq!(rusty_ledger::retry::retry_delay_ms(5, 3), 40);
    assert_eq!(rusty_ledger::retry::retry_delay_ms(u64::MAX, 1), u64::MAX);
    assert_eq!(rusty_ledger::retry::retry_delay_ms(0, 10), 0);
}
