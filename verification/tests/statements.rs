use pagedb::table::{execute_select, Table};
use pagedb::tokenizer::{do_meta_command, MetaCommandResult, PrepareResult, Statement,
    StatementType};
use pagedb::InputBuffer;

fn line(text: &str) -> InputBuffer {
    InputBuffer { buffer: String::from(text) }
}

fn prepare(text: &str) -> (PrepareResult, Statement) {
    let mut stmt = Statement::new();
    let r = stmt.prepare_statement(&line(text));
    (r, stmt)
}

#[test]
fn select_line_prepares_a_select() {
    let (r, stmt) = prepare("select");
    assert!(r == PrepareResult::Success);
    assert!(stmt.stype == StatementType::Select);
}

#[test]
fn insert_line_prepares_the_payload() {
    let (r, stmt) = prepare("insert 1 alice alice@example.com");
    assert!(r == PrepareResult::Success);
    assert!(stmt.stype == StatementType::Insert);
    assert_eq!(stmt.row_to_insert.id, 1);
    assert_eq!(stmt.row_to_insert.username, "alice");
    assert_eq!(stmt.row_to_insert.email, "alice@example.com");
}

#[test]
fn insert_allows_extra_whitespace_and_arguments() {
    let (r, stmt) = prepare("insert   7   bob   bob@example.com   extra");
    assert!(r == PrepareResult::Success);
    assert_eq!(stmt.row_to_insert.id, 7);
    assert_eq!(stmt.row_to_insert.username, "bob");
}

#[test]
fn insert_with_missing_arguments_is_a_syntax_error() {
    let (r, _) = prepare("insert");
    assert!(r == PrepareResult::SyntaxError);
    let (r2, _) = prepare("insert 1 alice");
    assert!(r2 == PrepareResult::SyntaxError);
}

#[test]
fn insert_with_bad_id_is_a_syntax_error() {
    let (r, _) = prepare("insert abc alice alice@example.com");
    assert!(r == PrepareResult::SyntaxError);
    let (r2, _) = prepare("insert -1 alice alice@example.com");
    assert!(r2 == PrepareResult::SyntaxError);
    let (r3, _) = prepare("insert + alice alice@example.com");
    assert!(r3 == PrepareResult::SyntaxError);
}

#[test]
fn id_bounds_match_u32() {
    let (r, stmt) = prepare("insert 4294967295 max max@example.com");
    assert!(r == PrepareResult::Success);
    assert_eq!(stmt.row_to_insert.id, u32::MAX);
    let (r2, _) = prepare("insert 4294967296 over over@example.com");
    assert!(r2 == PrepareResult::SyntaxError);
    let (r3, stmt3) = prepare("insert +42 plus plus@example.com");
    assert!(r3 == PrepareResult::Success);
    assert_eq!(stmt3.row_to_insert.id, 42);
}

#[test]
fn oversized_fields_are_rejected_before_the_codec() {
    let long_username = "u".repeat(33);
    let (r, _) = prepare(&format!("insert 1 {} a@example.com", long_username));
    assert!(r == PrepareResult::SyntaxError);
    let long_email = "e".repeat(256);
    let (r2, _) = prepare(&format!("insert 1 alice {}", long_email));
    assert!(r2 == PrepareResult::SyntaxError);
    // the rejection reaches no table: a fresh table stays empty
    let mut table = Table::db_open(Vec::new());
    let (_, rows) = execute_select(&mut table);
    assert_eq!(rows.len(), 0);
}

#[test]
fn fields_at_the_limit_are_accepted() {
    let username = "u".repeat(32);
    let email = "e".repeat(255);
    let (r, stmt) = prepare(&format!("insert 1 {} {}", username, email));
    assert!(r == PrepareResult::Success);
    assert_eq!(stmt.row_to_insert.username, username);
    assert_eq!(stmt.row_to_insert.email, email);
}

#[test]
fn field_length_is_measured_in_bytes() {
    // eleven two-byte characters: 22 bytes, within the 32-byte slot
    let short = "é".repeat(11);
    let (r, _) = prepare(&format!("insert 1 {} a@example.com", short));
    assert!(r == PrepareResult::Success);
    // seventeen two-byte characters: 34 bytes, over the 32-byte slot
    let long = "é".repeat(17);
    let (r2, _) = prepare(&format!("insert 1 {} a@example.com", long));
    assert!(r2 == PrepareResult::SyntaxError);
}

#[test]
fn unrecognized_keyword_is_reported() {
    let (r, _) = prepare("delete 1");
    assert!(r == PrepareResult::UnrecognizedStatement);
    let (r2, _) = prepare("");
    assert!(r2 == PrepareResult::UnrecognizedStatement);
    let (r3, _) = prepare("selectx");
    assert!(r3 == PrepareResult::UnrecognizedStatement);
}

#[test]
fn insert_prefix_is_checked_on_the_raw_line() {
    // the first six characters alone decide: a glued first token still
    // counts as an insert line
    let (r, stmt) = prepare("insertx 3 carl carl@example.com");
    assert!(r == PrepareResult::Success);
    assert!(stmt.stype == StatementType::Insert);
    assert_eq!(stmt.row_to_insert.id, 3);
}

#[test]
fn meta_command_recognizes_exit_alone() {
    assert!(do_meta_command(&line(".exit")) == MetaCommandResult::CommandSuccess);
    assert!(do_meta_command(&line(".quit")) == MetaCommandResult::CommandUnrecognizedCommand);
    assert!(do_meta_command(&line(".exit ")) == MetaCommandResult::CommandUnrecognizedCommand);
}

#[test]
fn input_buffer_starts_empty() {
    let b = InputBuffer::new();
    assert!(b.buffer.is_empty());
}

#[test]
fn statement_new_is_an_empty_select() {
    let stmt = Statement::new();
    assert!(stmt.stype == StatementType::Select);
    assert_eq!(stmt.row_to_insert.id, 0);
    assert!(stmt.row_to_insert.username.is_empty());
}
