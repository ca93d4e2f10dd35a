use base64::Engine;
use rusty_ledger::account::Account;
use rusty_ledger::hashing::{generate_signature, hash_row};
use rusty_ledger::record::Record;
use sha2::Digest;

fn acct(s: &str) -> Account {
    Account::parse_str(s)
}

#[test]
fn test_signature_name_only() {
    let sig = generate_signature("alice", None).unwrap();
    assert_eq!(
        sig,
        base64::engine::general_purpose::STANDARD.encode("alice".as_bytes())
    );
}

#[test]
fn test_signature_name_and_password() {
    let sig = generate_signature("alice", Some("secret")).unwrap();
    assert_eq!(
        sig,
        base64::engine::general_purpose::STANDARD.encode("alice:secret".as_bytes())
    );
}

#[test]
fn test_signature_empty_password() {
    let sig = generate_signature("alice", Some("")).unwrap();
    assert_eq!(
        sig,
        base64::engine::general_purpose::STANDARD.encode("alice".as_bytes())
    );
}

#[test]
fn test_signature_special_characters() {
    let sig = generate_signature("álîçè", Some("päßwørd!@#")).unwrap();
    assert_eq!(
        sig,
        base64::engine::general_purpose::STANDARD.encode("álîçè:päßwørd!@#".as_bytes())
    );
}

#[test]
fn test_signature_empty_name() {
    let err = generate_signature("", Some("pw")).unwrap_err();
    assert!(err.contains("Name must not be empty"));
}

#[test]
fn test_signature_name_whitespace() {
    let err = generate_signature("   ", None).unwrap_err();
    assert!(err.contains("Name must not be empty"));
}

#[test]
fn test_hash_changes_on_data_or_signature() {
    let sig1 = generate_signature("ledger", None).unwrap();
    let sig2 = generate_signature("ledger2", None).unwrap();
    let values = vec!["a".to_string(), "b".to_string()];
    let h1 = hash_row(&values, &sig1);
    let mut values2 = values.clone();
    values2[0] = "c".into();
    let h2 = hash_row(&values2, &sig1);
    assert_ne!(h1, h2);
    let h3 = hash_row(&values, &sig2);
    assert_ne!(h1, h3);
}

#[test]
fn test_hash_ignores_hash_column() {
    let sig = generate_signature("ledger", None).unwrap();
    let values: Vec<String> = vec!["x".into(), "y".into()];
    let mut row = values.clone();
    let h1 = hash_row(&row, &sig);
    row.push("otherhash".into());
    let h2 = hash_row(&row[..row.len() - 1], &sig);
    assert_eq!(h1, h2);
}

#[test]
fn hash_row_matches_reference_digest() {
    // One cell "a" under signature "sig": the digest runs over the cell's
    // bytes, a zero terminator, then the signature's bytes.
    let h = hash_row(&vec!["a".to_string()], "sig");
    let digest = sha2::Sha256::digest(b"a\x00sig");
    let mut expected = String::new();
    for b in digest.iter() {
        expected.push_str(&format!("{:02x}", b));
    }
    assert_eq!(h, expected);
}

#[test]
fn hash_changes_on_field_or_signature() {
    let record = Record::new(
        "desc".into(),
        acct("cash"),
        acct("revenue"),
        1,
        "USD".into(),
        None,
        None,
        vec![],
    )
    .unwrap();
    let sig1 = generate_signature("ledger", None).unwrap();
    let sig2 = generate_signature("ledger2", Some("pw")).unwrap();
    let row = record.to_row();
    let h1 = hash_row(&row, &sig1);
    let mut row_changed = row.clone();
    row_changed[2] = "other".into();
    let h2 = hash_row(&row_changed, &sig1);
    assert_ne!(h1, h2);
    let h3 = hash_row(&row, &sig2);
    assert_ne!(h1, h3);
}

#[test]
fn hash_column_ignored() {
    let record = Record::new(
        "desc".into(),
        acct("cash"),
        acct("revenue"),
        1,
        "USD".into(),
        None,
        None,
        vec![],
    )
    .unwrap();
    let sig = generate_signature("ledger", None).unwrap();
    let row = record.to_row();
    let hashed = record.to_row_hashed(&sig);
    assert_eq!(hashed.len(), row.len() + 1);
    assert_eq!(hash_row(&row, &sig), hashed[hashed.len() - 1]);
}

#[test]
fn to_row_hashed_appends_hash() {
    let record = Record::new(
        "desc".into(),
        acct("cash"),
        acct("revenue"),
        2,
        "USD".into(),
        None,
        None,
        vec![],
    )
    .unwrap();
    let sig = generate_signature("ledger", None).unwrap();
    let hashed = record.to_row_hashed(&sig);
    let body = &hashed[..hashed.len() - 1];
    assert_eq!(hash_row(body, &sig), hashed[hashed.len() - 1]);
}
