use rusty_ledger::account::Account;
use rusty_ledger::port::GoogleSheetsAdapter;
use rusty_ledger::record::Record;
use rusty_ledger::sharing::{AccessError, Permission, SharedLedger};

fn acct(s: &str) -> Account {
    Account::parse_str(s)
}

fn simple_record(desc: &str, amount: u64) -> Record {
    Record::new(
        desc.into(),
        acct("cash"),
        acct("revenue"),
        amount,
        "USD".into(),
        None,
        None,
        vec![],
    )
    .unwrap()
}

#[test]
fn reader_cannot_write() {
    let adapter = GoogleSheetsAdapter::new();
    let ledger = SharedLedger::new(adapter, "owner@example.com").unwrap();
    ledger
        .share_with("owner@example.com", "reader@example.com", Permission::Read)
        .unwrap();

    let record = simple_record("desc", 1);
    let err = ledger.commit("reader@example.com", record).unwrap_err();
    assert_eq!(err, AccessError::Unauthorized);
}

#[test]
fn writer_can_write() {
    let adapter = GoogleSheetsAdapter::new();
    let ledger = SharedLedger::new(adapter, "owner@example.com").unwrap();
    ledger
        .share_with("owner@example.com", "writer@example.com", Permission::Write)
        .unwrap();

    let record = simple_record("desc", 2);
    ledger.commit("writer@example.com", record).unwrap();

    assert_eq!(ledger.records("writer@example.com").unwrap().len(), 1);
}

#[test]
fn access_is_required_for_reads() {
    let adapter = GoogleSheetsAdapter::new();
    let ledger = SharedLedger::new(adapter, "owner@example.com").unwrap();

    let record = simple_record("desc", 3);
    let id = record.id;
    ledger.commit("owner@example.com", record).unwrap();

    let err = ledger.get_record("unknown@example.com", id).unwrap_err();
    assert_eq!(err, AccessError::Unauthorized);
}

#[test]
fn reader_can_read_but_not_adjust_or_share() {
    let adapter = GoogleSheetsAdapter::new();
    let ledger = SharedLedger::new(adapter, "owner@example.com").unwrap();
    ledger
        .share_with("owner@example.com", "reader@example.com", Permission::Read)
        .unwrap();

    let record = simple_record("original", 5);
    let id = record.id;
    ledger.commit("owner@example.com", record).unwrap();

    assert_eq!(ledger.records("reader@example.com").unwrap().len(), 1);
    assert!(ledger.get_record("reader@example.com", id).is_ok());

    let adj = simple_record("adjust", 1);
    let err = ledger
        .apply_adjustment("reader@example.com", id, adj)
        .unwrap_err();
    assert_eq!(err, AccessError::Unauthorized);

    let err = ledger.set_cleared("reader@example.com", id, true).unwrap_err();
    assert_eq!(err, AccessError::Unauthorized);

    let err = ledger
        .share_with("reader@example.com", "other@example.com", Permission::Read)
        .unwrap_err();
    assert_eq!(err, AccessError::Unauthorized);
}
