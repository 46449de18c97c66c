use pagedb::pager::{apply_writes_to_file, PAGE_SIZE};
use pagedb::row::{Row, ROW_SIZE};
use pagedb::table::{execute_insert, execute_select, execute_statement, Cursor, ExecuteResult,
    Table, TABLE_MAX_ROWS};
use pagedb::tokenizer::{Statement, StatementType};

fn insert_stmt(id: u32, username: &str, email: &str) -> Statement {
    Statement {
        stype: StatementType::Insert,
        row_to_insert: Row { id, username: String::from(username), email: String::from(email) },
    }
}

fn insert(table: &mut Table, id: u32) -> ExecuteResult {
    let stmt = insert_stmt(id, &format!("user{}", id), &format!("user{}@example.com", id));
    execute_insert(table, &stmt)
}

fn field_text(s: &str) -> &str {
    s.trim_end_matches('\0')
}

#[test]
fn empty_table_selects_nothing() {
    let mut table = Table::db_open(Vec::new());
    let (res, rows) = execute_select(&mut table);
    assert!(res == ExecuteResult::Success);
    assert!(rows.is_empty());
}

#[test]
fn insert_then_select_preserves_order() {
    let mut table = Table::db_open(Vec::new());
    for id in [1u32, 2, 3] {
        assert!(insert(&mut table, id) == ExecuteResult::Success);
    }
    let (res, rows) = execute_select(&mut table);
    assert!(res == ExecuteResult::Success);
    assert_eq!(rows.len(), 3);
    for (i, expected_id) in [1u32, 2, 3].iter().enumerate() {
        let row = rows[i].as_ref().expect("row decodes");
        assert_eq!(row.id, *expected_id);
        assert_eq!(field_text(&row.username), format!("user{}", expected_id));
        assert_eq!(field_text(&row.email), format!("user{}@example.com", expected_id));
    }
}

#[test]
fn execute_statement_dispatches() {
    let mut table = Table::db_open(Vec::new());
    let stmt = insert_stmt(10, "ann", "ann@example.com");
    let (res, rows) = execute_statement(&mut table, &stmt);
    assert!(res == ExecuteResult::Success);
    assert!(rows.is_empty());
    let select = Statement { stype: StatementType::Select, row_to_insert: Row::new() };
    let (res2, rows2) = execute_statement(&mut table, &select);
    assert!(res2 == ExecuteResult::Success);
    assert_eq!(rows2.len(), 1);
    assert_eq!(rows2[0].as_ref().unwrap().id, 10);
}

#[test]
fn capacity_is_enforced_at_1400_rows() {
    assert_eq!(TABLE_MAX_ROWS, 1400);
    let mut table = Table::db_open(Vec::new());
    for id in 0..TABLE_MAX_ROWS as u32 {
        assert!(insert(&mut table, id) == ExecuteResult::Success);
    }
    assert!(insert(&mut table, 9999) == ExecuteResult::TableFull);
    let (_, rows) = execute_select(&mut table);
    assert_eq!(rows.len(), TABLE_MAX_ROWS);
    assert_eq!(rows[0].as_ref().unwrap().id, 0);
    assert_eq!(rows[TABLE_MAX_ROWS - 1].as_ref().unwrap().id, 1399);
}

#[test]
fn persistence_round_trip() {
    let mut table = Table::db_open(Vec::new());
    for id in 1..=20u32 {
        assert!(insert(&mut table, id) == ExecuteResult::Success);
    }
    let writes = table.db_close();
    let file = apply_writes_to_file(Vec::new(), &writes);
    assert_eq!(file.len(), PAGE_SIZE + 6 * ROW_SIZE);
    let mut reopened = Table::db_open(file);
    let (res, rows) = execute_select(&mut reopened);
    assert!(res == ExecuteResult::Success);
    assert_eq!(rows.len(), 20);
    for (i, row) in rows.iter().enumerate() {
        let row = row.as_ref().expect("row decodes");
        assert_eq!(row.id, i as u32 + 1);
        assert_eq!(field_text(&row.username), format!("user{}", i + 1));
    }
}

#[test]
fn partial_final_page_flushes_exactly_the_committed_rows() {
    let mut table = Table::db_open(Vec::new());
    for id in 0..15u32 {
        assert!(insert(&mut table, id) == ExecuteResult::Success);
    }
    let writes = table.db_close();
    let file = apply_writes_to_file(Vec::new(), &writes);
    assert_eq!(file.len(), PAGE_SIZE + ROW_SIZE);
    assert_eq!(file.len(), 4096 + 291);
}

#[test]
fn corrupt_row_fails_alone() {
    let mut table = Table::db_open(Vec::new());
    for id in 0..3u32 {
        assert!(insert(&mut table, id) == ExecuteResult::Success);
    }
    let writes = table.db_close();
    let mut file = apply_writes_to_file(Vec::new(), &writes);
    // invalid UTF-8 inside the second row's email field
    file[ROW_SIZE + 40] = 0xFF;
    let mut reopened = Table::db_open(file);
    let (res, rows) = execute_select(&mut reopened);
    assert!(res == ExecuteResult::Success);
    assert_eq!(rows.len(), 3);
    assert_eq!(rows[0].as_ref().unwrap().id, 0);
    assert!(rows[1].is_none());
    assert_eq!(rows[2].as_ref().unwrap().id, 2);
}

#[test]
fn reopen_ignores_partial_trailing_row() {
    let row = Row { id: 77, username: String::from("kim"), email: String::from("kim@example.com") };
    let mut file = row.serialize_row();
    file.extend(vec![5u8; 9]);
    let mut table = Table::db_open(file);
    let (_, rows) = execute_select(&mut table);
    assert_eq!(rows.len(), 1);
    assert_eq!(rows[0].as_ref().unwrap().id, 77);
}

#[test]
fn cursor_walks_the_row_sequence() {
    let mut table = Table::db_open(Vec::new());
    for id in 0..2u32 {
        assert!(insert(&mut table, id) == ExecuteResult::Success);
    }
    let mut cursor = Cursor::from_start(&table);
    assert!(!cursor.end_of_table);
    assert_eq!(cursor.row_num, 0);
    let bytes = cursor.get_value(&mut table);
    assert_eq!(bytes.len(), ROW_SIZE);
    assert_eq!(Row::deserialize_row(&bytes).unwrap().id, 0);
    cursor.advance(&table);
    assert!(!cursor.end_of_table);
    cursor.advance(&table);
    assert!(cursor.end_of_table);
    let end = Cursor::from_end(&table);
    assert_eq!(end.row_num, 2);
    assert!(end.end_of_table);
}

#[test]
fn close_writes_land_at_page_offsets() {
    let mut table = Table::db_open(Vec::new());
    for id in 0..15u32 {
        assert!(insert(&mut table, id) == ExecuteResult::Success);
    }
    let writes = table.db_close();
    assert_eq!(writes.len(), 2);
    assert_eq!(writes[0].offset, 0);
    assert_eq!(writes[0].data.len(), PAGE_SIZE);
    assert_eq!(writes[1].offset, PAGE_SIZE);
    assert_eq!(writes[1].data.len(), ROW_SIZE);
}

#[test]
fn page_slack_inflates_the_derived_count_past_fourteen_full_pages() {
    // 196 rows fill exactly 14 pages; the 14 * 22 slack bytes then amount to
    // more than one whole row, so reopening derives 197 rows, the last one a
    // zero-filled slot
    let mut table = Table::db_open(Vec::new());
    for id in 0..196u32 {
        assert!(insert(&mut table, id) == ExecuteResult::Success);
    }
    let writes = table.db_close();
    let file = apply_writes_to_file(Vec::new(), &writes);
    assert_eq!(file.len(), 14 * PAGE_SIZE);
    let mut reopened = Table::db_open(file);
    let (_, rows) = execute_select(&mut reopened);
    assert_eq!(rows.len(), 197);
    assert_eq!(rows[195].as_ref().unwrap().id, 195);
    let phantom = rows[196].as_ref().unwrap();
    assert_eq!(phantom.id, 0);
    assert!(phantom.username.bytes().all(|b| b == 0));
}
