use chrono::{NaiveDate, TimeZone, Utc};
use rusty_ledger::account::Account;
use rusty_ledger::ledger::Ledger;
use rusty_ledger::query::{civil_day_number, parse_date_text, ParseError, Query};
use rusty_ledger::record::Record;

fn acct(s: &str) -> Account {
    Account::parse_str(s)
}

fn day_of(y: i32, m: u32, d: u32) -> i64 {
    Utc.with_ymd_and_hms(y, m, d, 0, 0, 0)
        .unwrap()
        .timestamp_micros()
        / 86_400_000_000
}

#[test]
fn parse_simple_tokens() {
    let q = Query::parse_str("account:cash tag:food start:2024-01-01 end:2024-01-31").unwrap();
    assert_eq!(q.accounts, vec!["cash"]);
    assert_eq!(q.tags, vec!["food"]);
    assert_eq!(q.start, Some(day_of(2024, 1, 1)));
    assert_eq!(q.end, Some(day_of(2024, 1, 31)));
}

#[test]
fn parse_date_range_token() {
    let q = Query::parse_str("date:2024-01-01..2024-02-01").unwrap();
    assert_eq!(q.start, Some(day_of(2024, 1, 1)));
    assert_eq!(q.end, Some(day_of(2024, 2, 1)));

    let open_start = Query::parse_str("date:..2024-02-01").unwrap();
    assert_eq!(open_start.start, None);
    assert_eq!(open_start.end, Some(day_of(2024, 2, 1)));
}

#[test]
fn parse_rejects_unknown_tokens_and_bad_dates() {
    let err = Query::parse_str("bogus").unwrap_err();
    assert_eq!(err, ParseError::InvalidToken("bogus".into()));

    let err = Query::parse_str("start:2024-13-01").unwrap_err();
    assert_eq!(err, ParseError::InvalidDate("2024-13-01".into()));

    let err = Query::parse_str("date:2024-01-01").unwrap_err();
    assert_eq!(err, ParseError::InvalidToken("date:2024-01-01".into()));
}

#[test]
fn day_numbers_agree_with_the_calendar() {
    for (y, m, d) in [
        (1970u64, 1u64, 1u64),
        (2000, 2, 29),
        (2024, 1, 5),
        (2024, 12, 31),
        (1999, 3, 1),
    ] {
        let expected = NaiveDate::from_ymd_opt(y as i32, m as u32, d as u32)
            .unwrap()
            .signed_duration_since(NaiveDate::from_ymd_opt(1970, 1, 1).unwrap())
            .num_days();
        assert_eq!(civil_day_number(y, m, d), expected);
    }
    assert_eq!(parse_date_text("2024-01-05"), Some(day_of(2024, 1, 5)));
    assert_eq!(parse_date_text("2023-02-29"), None);
    assert_eq!(parse_date_text("2024-1-05"), None);
}

#[test]
fn filter_records_by_tag() {
    let mut ledger = Ledger::new();
    let mut rec = Record::new(
        "coffee".into(),
        acct("expenses"),
        acct("cash"),
        3,
        "USD".into(),
        None,
        None,
        vec!["food".into()],
    )
    .unwrap();
    rec.timestamp = Utc
        .with_ymd_and_hms(2024, 1, 5, 0, 0, 0)
        .unwrap()
        .timestamp_micros();
    ledger.commit(rec);
    let mut rec2 = Record::new(
        "rent".into(),
        acct("expenses"),
        acct("cash"),
        100,
        "USD".into(),
        None,
        None,
        vec!["rent".into()],
    )
    .unwrap();
    rec2.timestamp = Utc
        .with_ymd_and_hms(2024, 1, 10, 0, 0, 0)
        .unwrap()
        .timestamp_micros();
    ledger.commit(rec2);

    let q = Query::parse_str("tag:food start:2024-01-01 end:2024-01-07").unwrap();
    let res = q.filter(&ledger);
    assert_eq!(res.len(), 1);
    assert_eq!(res[0].description, "coffee");
}

#[test]
fn filter_by_account_matches_any_posting() {
    let mut ledger = Ledger::new();
    ledger.commit(
        Record::new(
            "groceries".into(),
            acct("expenses:food"),
            acct("assets:cash"),
            10,
            "USD".into(),
            None,
            None,
            vec![],
        )
        .unwrap(),
    );
    ledger.commit(
        Record::new(
            "salary".into(),
            acct("assets:bank"),
            acct("income"),
            50,
            "USD".into(),
            None,
            None,
            vec![],
        )
        .unwrap(),
    );
    let q = Query::parse_str("account:assets:cash").unwrap();
    let res = q.filter(&ledger);
    assert_eq!(res.len(), 1);
    assert_eq!(res[0].description, "groceries");
}
