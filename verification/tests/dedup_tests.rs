use rusty_ledger::account::Account;
use rusty_ledger::dedup::filter_new_records;
use rusty_ledger::numtext::id_to_text;
use rusty_ledger::port::{CloudSpreadsheetService, GoogleSheetsAdapter};
use rusty_ledger::record::Record;

#[test]
fn filter_new_records_skips_duplicates() {
    let mut adapter = GoogleSheetsAdapter::new();
    let sheet_id = adapter.create_sheet("test").unwrap();
    let signature = "";

    let header: Vec<String> = vec![
        "id",
        "timestamp",
        "description",
        "debit_account",
        "credit_account",
        "amount",
        "currency",
        "reference_id",
        "external_reference",
        "tags",
        "splits",
        "transaction_description",
        "hash",
    ]
    .into_iter()
    .map(String::from)
    .collect();
    adapter.append_row(&sheet_id, header).unwrap();

    let r1 = Record::new(
        "Coffee".to_string(),
        Account::parse_str("expenses:food"),
        Account::parse_str("cash"),
        35,
        "USD".to_string(),
        None,
        None,
        vec![],
    )
    .unwrap();
    let r2 = Record::new(
        "Tea".to_string(),
        Account::parse_str("expenses:food"),
        Account::parse_str("cash"),
        2,
        "USD".to_string(),
        None,
        None,
        vec![],
    )
    .unwrap();

    let existing = r1.to_row_hashed(signature);
    adapter.append_row(&sheet_id, existing).unwrap();

    let rows =
        filter_new_records(&mut adapter, &sheet_id, vec![r1.clone(), r2.clone()], signature)
            .unwrap();
    assert_eq!(rows.len(), 1);
    assert_eq!(rows[0][0], id_to_text(r2.id));
}
