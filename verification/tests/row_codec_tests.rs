use rusty_ledger::account::Account;
use rusty_ledger::numtext::{id_to_text, text_to_id, u64_to_dec};
use rusty_ledger::record::{Posting, Record};
use rusty_ledger::rows::{record_from_row, status_from_row};

fn acct(s: &str) -> Account {
    Account::parse_str(s)
}

#[test]
fn record_row_roundtrip() {
    let record = Record::new(
        "lunch & \"coffee\"".into(),
        acct("expenses:food"),
        acct("assets:cash"),
        1250,
        "USD".into(),
        Some(7),
        Some("INV-1".into()),
        vec!["food".into(), "out".into()],
    )
    .unwrap();

    let row = record.to_row();
    assert_eq!(row.len(), 12);
    let parsed = record_from_row(&row).unwrap();
    assert_eq!(parsed, record);
}

#[test]
fn record_row_roundtrip_with_splits() {
    let postings = vec![
        Posting {
            debit_account: acct("expenses:food"),
            credit_account: acct("assets:cash"),
            amount: 3,
        },
        Posting {
            debit_account: acct("expenses:tips"),
            credit_account: acct("assets:cash"),
            amount: 1,
        },
    ];
    let record = Record::new_split(
        "dinner".into(),
        postings,
        "EUR".into(),
        None,
        None,
        vec![],
    )
    .unwrap();
    let row = record.to_row();
    let parsed = record_from_row(&row).unwrap();
    assert_eq!(parsed, record);
    assert_eq!(parsed.splits.len(), 1);
}

#[test]
fn short_rows_are_rejected() {
    let row: Vec<String> = vec!["a".into(), "b".into()];
    assert!(record_from_row(&row).is_err());
}

#[test]
fn malformed_id_is_rejected() {
    let record = Record::new(
        "x".into(),
        acct("a"),
        acct("b"),
        1,
        "USD".into(),
        None,
        None,
        vec![],
    )
    .unwrap();
    let mut row = record.to_row();
    row[0] = "not-an-id".into();
    let err = record_from_row(&row).unwrap_err();
    assert!(matches!(
        err,
        rusty_ledger::port::SpreadsheetError::Permanent(_)
    ));
}

#[test]
fn id_text_roundtrip() {
    let id: u128 = 0x0011_2233_4455_6677_8899_aabb_ccdd_eeff;
    let text = id_to_text(id);
    assert_eq!(text, "00112233-4455-6677-8899-aabbccddeeff");
    assert_eq!(text_to_id(&text), Some(id));
    assert_eq!(text_to_id("00112233-4455-6677-8899-AABBCCDDEEFF"), Some(id));
    assert_eq!(text_to_id("not an id"), None);
}

#[test]
fn id_text_matches_uuid_formatting() {
    let id: u128 = uuid::Uuid::new_v4().as_u128();
    assert_eq!(id_to_text(id), uuid::Uuid::from_u128(id).to_string());
}

#[test]
fn amount_text_roundtrip() {
    assert_eq!(u64_to_dec(0), "0");
    assert_eq!(u64_to_dec(120500), "120500");
    assert_eq!(rusty_ledger::numtext::dec_to_u64("120500"), Some(120500));
    assert_eq!(rusty_ledger::numtext::dec_to_u64(""), None);
    assert_eq!(rusty_ledger::numtext::dec_to_u64("12x"), None);
    assert_eq!(
        rusty_ledger::numtext::dec_to_u64("18446744073709551615"),
        Some(u64::MAX)
    );
    assert_eq!(rusty_ledger::numtext::dec_to_u64("18446744073709551616"), None);
}

#[test]
fn timestamp_text_is_rfc3339() {
    let record = Record::new(
        "x".into(),
        acct("a"),
        acct("b"),
        1,
        "USD".into(),
        None,
        None,
        vec![],
    )
    .unwrap();
    let row = record.to_row();
    let parsed = chrono::DateTime::parse_from_rfc3339(&row[1]).unwrap();
    assert_eq!(parsed.timestamp_micros(), record.timestamp);
}

#[test]
fn status_row_roundtrip() {
    let mut record = Record::new(
        "x".into(),
        acct("a"),
        acct("b"),
        1,
        "USD".into(),
        None,
        None,
        vec![],
    )
    .unwrap();
    record.cleared = true;
    let row = record.status_row();
    assert_eq!(row[0], "status");
    assert_eq!(status_from_row(&row), Some((record.id, true)));

    let bad: Vec<String> = vec!["status".into(), "nope".into(), "true".into()];
    assert_eq!(status_from_row(&bad), None);
}

#[test]
fn splits_json_shape() {
    let postings = vec![Posting {
        debit_account: acct("a:b"),
        credit_account: acct("c"),
        amount: 42,
    }];
    let record = Record::new_split(
        "s".into(),
        postings,
        "USD".into(),
        None,
        None,
        vec![],
    )
    .unwrap();
    let mut with_split = record.clone();
    with_split.splits.push(Posting {
        debit_account: acct("x"),
        credit_account: acct("y"),
        amount: 7,
    });
    let row = with_split.to_row();
    let parsed: serde_json::Value = serde_json::from_str(&row[10]).unwrap();
    assert_eq!(parsed[0]["debit_account"], "x");
    assert_eq!(parsed[0]["credit_account"], "y");
    assert_eq!(parsed[0]["amount"], 7);
}
