use rusty_ledger::account::Account;
use rusty_ledger::hashing::generate_signature;
use rusty_ledger::port::{CloudSpreadsheetService, GoogleSheetsAdapter};
use rusty_ledger::record::Record;
use rusty_ledger::verification::verify_sheet;

fn acct(s: &str) -> Account {
    Account::parse_str(s)
}

#[test]
fn detect_no_tampering() {
    let mut adapter = GoogleSheetsAdapter::new();
    let sheet = adapter.create_sheet("test").unwrap();
    let sig = generate_signature("ledger", None).unwrap();
    let record = Record::new(
        "coffee".into(),
        acct("cash"),
        acct("revenue"),
        5,
        "USD".into(),
        None,
        None,
        vec![],
    )
    .unwrap();
    adapter
        .append_row(&sheet, record.to_row_hashed(&sig))
        .unwrap();
    let res = verify_sheet(&mut adapter, &sheet, &sig).unwrap();
    assert!(res.is_empty());
}

#[test]
fn detect_tampering() {
    let mut adapter = GoogleSheetsAdapter::new();
    let sheet = adapter.create_sheet("test").unwrap();
    let sig = generate_signature("ledger", None).unwrap();
    let record = Record::new(
        "coffee".into(),
        acct("cash"),
        acct("revenue"),
        5,
        "USD".into(),
        None,
        None,
        vec![],
    )
    .unwrap();
    let mut row = record.to_row_hashed(&sig);
    adapter.append_row(&sheet, row.clone()).unwrap();
    // tamper second row by modifying description without updating hash
    row[2] = "tea".into();
    adapter.append_row(&sheet, row).unwrap();
    let res = verify_sheet(&mut adapter, &sheet, &sig).unwrap();
    assert_eq!(res, vec![1]);
}

#[test]
fn status_rows_are_not_verified() {
    let mut adapter = GoogleSheetsAdapter::new();
    let sheet = adapter.create_sheet("test").unwrap();
    let sig = generate_signature("ledger", None).unwrap();
    adapter
        .append_row(
            &sheet,
            vec!["status".into(), "not-a-real-id".into(), "true".into()],
        )
        .unwrap();
    let res = verify_sheet(&mut adapter, &sheet, &sig).unwrap();
    assert!(res.is_empty());
}
