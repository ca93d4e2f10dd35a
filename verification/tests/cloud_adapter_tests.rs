use rusty_ledger::port::{parse_sheet_id, CloudSpreadsheetService, GoogleSheetsAdapter, SpreadsheetError};

#[test]
fn create_append_and_list_rows() {
    let mut adapter = GoogleSheetsAdapter::new();
    let id = adapter.create_sheet("test").unwrap();

    adapter
        .append_row(&id, vec!["a".into(), "b".into()])
        .unwrap();
    adapter
        .append_row(&id, vec!["c".into(), "d".into()])
        .unwrap();

    let rows = adapter.list_rows(&id).unwrap();
    assert_eq!(rows.len(), 2);
    assert_eq!(rows[0], vec!["a", "b"]);
}

#[test]
fn reading_nonexistent_sheet_fails() {
    let mut adapter = GoogleSheetsAdapter::new();
    let err = adapter.read_row("missing", 0).unwrap_err();
    assert_eq!(err, SpreadsheetError::SheetNotFound);
}

#[test]
fn reading_nonexistent_row_fails() {
    let mut adapter = GoogleSheetsAdapter::new();
    let id = adapter.create_sheet("test").unwrap();

    let err = adapter.read_row(&id, 1).unwrap_err();
    assert_eq!(err, SpreadsheetError::RowNotFound);
}

#[test]
fn sharing_nonexistent_sheet_fails() {
    let mut adapter = GoogleSheetsAdapter::new();
    let err = adapter
        .share_sheet("missing", "user@example.com")
        .unwrap_err();
    assert_eq!(err, SpreadsheetError::ShareFailed);
}

#[test]
fn append_rows_lands_all_rows() {
    let mut adapter = GoogleSheetsAdapter::new();
    let id = adapter.create_sheet("test").unwrap();
    adapter
        .append_rows(&id, vec![vec!["a".into()], vec!["b".into()]])
        .unwrap();
    let rows = adapter.list_rows(&id).unwrap();
    assert_eq!(rows, vec![vec!["a".to_string()], vec!["b".to_string()]]);
}

#[test]
fn created_sheets_get_distinct_names() {
    let mut adapter = GoogleSheetsAdapter::new();
    let first = adapter.create_sheet("one").unwrap();
    let second = adapter.create_sheet("two").unwrap();
    assert_eq!(first, "sheet1");
    assert_eq!(second, "sheet2");
    assert_ne!(first, second);
}

#[test]
fn sheet_links_reduce_to_ids() {
    assert_eq!(
        parse_sheet_id("https://docs.google.com/spreadsheets/d/abc123/edit#gid=0"),
        "abc123"
    );
    assert_eq!(parse_sheet_id("plain-id"), "plain-id");
    assert_eq!(parse_sheet_id("x/d/tail"), "tail");
}
