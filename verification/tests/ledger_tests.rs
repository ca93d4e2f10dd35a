use chrono::TimeZone;
use chrono::Utc;
use rusty_ledger::account::Account;
use rusty_ledger::ledger::{Ledger, LedgerError};
use rusty_ledger::prices::{PriceDatabase, Rate};
use rusty_ledger::record::{Posting, Record, RecordError};

fn acct(s: &str) -> Account {
    Account::parse_str(s)
}

#[test]
fn records_are_appended() {
    let mut ledger = Ledger::new();
    ledger.commit(
        Record::new(
            "data".into(),
            acct("cash"),
            acct("revenue"),
            1,
            "USD".into(),
            None,
            None,
            vec![],
        )
        .unwrap(),
    );
    assert_eq!(ledger.records().len(), 1);
}

#[test]
fn append_and_iterate() {
    let mut ledger = Ledger::default();
    ledger.commit(
        Record::new(
            "first".into(),
            acct("cash"),
            acct("revenue"),
            1,
            "USD".into(),
            None,
            None,
            vec![],
        )
        .unwrap(),
    );
    ledger.commit(
        Record::new(
            "second".into(),
            acct("cash"),
            acct("revenue"),
            2,
            "USD".into(),
            None,
            None,
            vec![],
        )
        .unwrap(),
    );

    let amounts: Vec<u64> = ledger.records().iter().map(|r| r.amount).collect();
    assert_eq!(amounts, vec![1, 2]);
}

#[test]
fn record_creation_sets_fields() {
    let record = Record::new(
        "desc".into(),
        acct("cash"),
        acct("revenue"),
        5,
        "USD".into(),
        None,
        None,
        vec![],
    )
    .unwrap();

    assert!(record.timestamp <= Utc::now().timestamp_micros());
    assert!(record.reference_id.is_none());
}

#[test]
fn committed_record_can_be_retrieved() {
    let mut ledger = Ledger::new();
    let record = Record::new(
        "desc".into(),
        acct("cash"),
        acct("revenue"),
        3,
        "USD".into(),
        None,
        None,
        vec![],
    )
    .unwrap();
    let id = record.id;
    ledger.commit(record);

    let stored = ledger.get_record(id).unwrap();
    assert_eq!(stored.amount, 3);
}

#[test]
fn committed_records_are_immutable() {
    let mut ledger = Ledger::new();
    let record = Record::new(
        "desc".into(),
        acct("cash"),
        acct("revenue"),
        4,
        "USD".into(),
        None,
        None,
        vec![],
    )
    .unwrap();
    let id = record.id;
    ledger.commit(record);

    let err = ledger
        .modify_record(
            id,
            Record::new(
                "new".into(),
                acct("cash"),
                acct("revenue"),
                5,
                "USD".into(),
                None,
                None,
                vec![],
            )
            .unwrap(),
        )
        .unwrap_err();
    assert_eq!(err, LedgerError::ImmutableRecord);

    let err = ledger.delete_record(id).unwrap_err();
    assert_eq!(err, LedgerError::ImmutableRecord);
}

#[test]
fn adjustment_chaining() {
    let mut ledger = Ledger::new();

    let original = Record::new(
        "orig".into(),
        acct("cash"),
        acct("revenue"),
        10,
        "USD".into(),
        None,
        None,
        vec![],
    )
    .unwrap();
    let orig_id = original.id;
    ledger.commit(original);

    let adj1 = Record::new(
        "adj1".into(),
        acct("revenue"),
        acct("cash"),
        2,
        "USD".into(),
        None,
        None,
        vec![],
    )
    .unwrap();
    let adj1_id = adj1.id;
    ledger.apply_adjustment(orig_id, adj1).unwrap();

    let adj2 = Record::new(
        "adj2".into(),
        acct("cash"),
        acct("revenue"),
        1,
        "USD".into(),
        None,
        None,
        vec![],
    )
    .unwrap();
    let adj2_id = adj2.id;
    ledger.apply_adjustment(adj1_id, adj2).unwrap();

    let history = ledger.adjustment_history(orig_id);
    assert_eq!(history.len(), 2);
    assert_eq!(history[0].reference_id, Some(orig_id));
    assert_eq!(history[1].reference_id, Some(adj1_id));

    let history_adj1 = ledger.adjustment_history(adj1_id);
    assert_eq!(history_adj1.len(), 1);
    assert_eq!(history_adj1[0].id, adj2_id);
}

#[test]
fn adjustment_requires_existing_record() {
    let mut ledger = Ledger::new();
    let adj = Record::new(
        "adj".into(),
        acct("cash"),
        acct("revenue"),
        1,
        "USD".into(),
        None,
        None,
        vec![],
    )
    .unwrap();

    let missing: u128 = 0x1234_5678_9abc_def0_1234_5678_9abc_def0;
    let err = ledger.apply_adjustment(missing, adj).unwrap_err();
    assert_eq!(err, LedgerError::RecordNotFound);
}

#[test]
fn record_creation_rejects_identical_accounts() {
    let err = Record::new(
        "desc".into(),
        acct("cash"),
        acct("cash"),
        1,
        "USD".into(),
        None,
        None,
        vec![],
    )
    .unwrap_err();
    assert_eq!(err, RecordError::SameAccount);
}

#[test]
fn record_creation_rejects_nonpositive_amounts() {
    let zero_err = Record::new(
        "zero".into(),
        acct("cash"),
        acct("revenue"),
        0,
        "USD".into(),
        None,
        None,
        vec![],
    )
    .unwrap_err();
    assert_eq!(zero_err, RecordError::NonPositiveAmount);
}

#[test]
fn record_creation_validates_currency() {
    let valid = Record::new(
        "ok".into(),
        acct("cash"),
        acct("revenue"),
        1,
        "USD".into(),
        None,
        None,
        vec![],
    );
    assert!(valid.is_ok());

    let invalid = Record::new(
        "bad".into(),
        acct("cash"),
        acct("revenue"),
        1,
        "ZZZ".into(),
        None,
        None,
        vec![],
    )
    .unwrap_err();
    assert_eq!(invalid, RecordError::UnsupportedCurrency("ZZZ".into()));
}

#[test]
fn account_balance_after_commits() {
    let mut ledger = Ledger::new();
    ledger.commit(
        Record::new(
            "first".into(),
            acct("cash"),
            acct("revenue"),
            2,
            "USD".into(),
            None,
            None,
            vec![],
        )
        .unwrap(),
    );
    ledger.commit(
        Record::new(
            "second".into(),
            acct("cash"),
            acct("revenue"),
            3,
            "USD".into(),
            None,
            None,
            vec![],
        )
        .unwrap(),
    );

    let prices = PriceDatabase::new();
    assert_eq!(ledger.account_balance("cash", "USD", &prices), 5);
    assert_eq!(ledger.account_balance("revenue", "USD", &prices), -5);
}

#[test]
fn account_balance_with_adjustments() {
    let mut ledger = Ledger::new();

    let original = Record::new(
        "orig".into(),
        acct("cash"),
        acct("revenue"),
        10,
        "USD".into(),
        None,
        None,
        vec![],
    )
    .unwrap();
    let orig_id = original.id;
    ledger.commit(original);

    let adj1 = Record::new(
        "adj1".into(),
        acct("revenue"),
        acct("cash"),
        2,
        "USD".into(),
        None,
        None,
        vec![],
    )
    .unwrap();
    let adj1_id = adj1.id;
    ledger.apply_adjustment(orig_id, adj1).unwrap();

    let adj2 = Record::new(
        "adj2".into(),
        acct("cash"),
        acct("revenue"),
        1,
        "USD".into(),
        None,
        None,
        vec![],
    )
    .unwrap();
    ledger.apply_adjustment(adj1_id, adj2).unwrap();

    let prices = PriceDatabase::new();
    assert_eq!(ledger.account_balance("cash", "USD", &prices), 9);
    assert_eq!(ledger.account_balance("revenue", "USD", &prices), -9);
}

#[test]
fn account_balance_converts_currencies() {
    let mut ledger = Ledger::new();
    let ts = Utc
        .with_ymd_and_hms(2024, 1, 1, 0, 0, 0)
        .unwrap()
        .timestamp_micros();
    let mut eur = Record::new(
        "eur".into(),
        acct("cash"),
        acct("rev"),
        10,
        "EUR".into(),
        None,
        None,
        vec![],
    )
    .unwrap();
    eur.timestamp = ts;
    ledger.commit(eur);
    let mut usd = Record::new(
        "usd".into(),
        acct("cash"),
        acct("rev"),
        10,
        "USD".into(),
        None,
        None,
        vec![],
    )
    .unwrap();
    usd.timestamp = ts;
    ledger.commit(usd);

    let mut prices = PriceDatabase::new();
    let day = ts / 86_400_000_000;
    prices.add_rate(day, "EUR", "USD", Rate { num: 2, den: 1 });
    prices.add_rate(day, "USD", "EUR", Rate { num: 1, den: 2 });

    assert_eq!(ledger.account_balance("cash", "USD", &prices), 30);
    assert_eq!(ledger.account_balance("cash", "EUR", &prices), 15);
}

#[test]
fn account_tree_balance_nested_accounts() {
    let mut ledger = Ledger::new();
    ledger.commit(
        Record::new(
            "check".into(),
            acct("Assets:Bank:Checking"),
            acct("income"),
            5,
            "USD".into(),
            None,
            None,
            vec![],
        )
        .unwrap(),
    );
    ledger.commit(
        Record::new(
            "save".into(),
            acct("Assets:Bank:Savings"),
            acct("income"),
            2,
            "USD".into(),
            None,
            None,
            vec![],
        )
        .unwrap(),
    );
    let prices = PriceDatabase::new();
    let parent = acct("Assets:Bank");
    assert_eq!(ledger.account_tree_balance(&parent, "USD", &prices), 7);
}

#[test]
fn missing_rate_contributes_nothing() {
    let mut ledger = Ledger::new();
    ledger.commit(
        Record::new(
            "eur".into(),
            acct("cash"),
            acct("rev"),
            10,
            "EUR".into(),
            None,
            None,
            vec![],
        )
        .unwrap(),
    );
    ledger.commit(
        Record::new(
            "usd".into(),
            acct("cash"),
            acct("rev"),
            4,
            "USD".into(),
            None,
            None,
            vec![],
        )
        .unwrap(),
    );
    let prices = PriceDatabase::new();
    assert_eq!(ledger.account_balance("cash", "USD", &prices), 4);
}

#[test]
fn rate_lookup_takes_last_known_rate() {
    let mut prices = PriceDatabase::new();
    prices.add_rate(10, "EUR", "USD", Rate { num: 3, den: 1 });
    prices.add_rate(20, "EUR", "USD", Rate { num: 5, den: 1 });
    assert_eq!(prices.get_rate(9, "EUR", "USD"), None);
    assert_eq!(prices.get_rate(10, "EUR", "USD"), Some(Rate { num: 3, den: 1 }));
    assert_eq!(prices.get_rate(15, "EUR", "USD"), Some(Rate { num: 3, den: 1 }));
    assert_eq!(prices.get_rate(25, "EUR", "USD"), Some(Rate { num: 5, den: 1 }));
    assert_eq!(prices.get_rate(25, "USD", "EUR"), None);
}

#[test]
fn split_record_balances_every_posting() {
    let postings = vec![
        Posting { debit_account: acct("cash"), credit_account: acct("revenue"), amount: 3 },
        Posting { debit_account: acct("cash"), credit_account: acct("fees"), amount: 2 },
    ];
    let rec = Record::new_split("split".into(), postings, "USD".into(), None, None, vec![])
        .unwrap();
    assert_eq!(rec.amount, 3);
    assert_eq!(rec.splits.len(), 1);
    let mut ledger = Ledger::new();
    ledger.commit(rec);
    let prices = PriceDatabase::new();
    assert_eq!(ledger.account_balance("cash", "USD", &prices), 5);
    assert_eq!(ledger.account_balance("revenue", "USD", &prices), -3);
    assert_eq!(ledger.account_balance("fees", "USD", &prices), -2);
}

#[test]
fn new_split_rejects_empty_postings() {
    let err = Record::new_split("none".into(), vec![], "USD".into(), None, None, vec![])
        .unwrap_err();
    assert_eq!(err, RecordError::NonPositiveAmount);
}

#[test]
fn account_prefix_containment() {
    let parent = acct("Assets:Bank");
    let child = acct("Assets:Bank:Checking");
    let other = acct("Assets:Cash");
    assert!(child.starts_with(&parent));
    assert!(parent.starts_with(&parent));
    assert!(!parent.starts_with(&child));
    assert!(!other.starts_with(&parent));
    assert_eq!(child.to_text(), "Assets:Bank:Checking");
}

#[test]
fn all_rates_lists_by_day() {
    let mut prices = PriceDatabase::new();
    prices.add_rate(20, "EUR", "USD", Rate { num: 5, den: 1 });
    prices.add_rate(10, "EUR", "USD", Rate { num: 3, den: 1 });
    prices.add_rate(20, "USD", "EUR", Rate { num: 1, den: 5 });
    let rates = prices.all_rates();
    assert_eq!(rates.len(), 3);
    assert_eq!(rates[0], (10, "EUR".to_string(), "USD".to_string(), Rate { num: 3, den: 1 }));
    assert_eq!(rates[1].0, 20);
    assert_eq!(rates[1].1, "EUR");
    assert_eq!(rates[2].1, "USD");
}
