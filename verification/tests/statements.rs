use cstack_db::constants::{COLUMN_EMAIL_SIZE, COLUMN_USERNAME_SIZE, ROW_SIZE};
use cstack_db::errors::{ExecuteError, MetaCommandError, PrepareError};
use cstack_db::row::{Row, VarChar};
use cstack_db::vm::{do_meta_command, prepare_insert, prepare_statement, read_input, MetaCommand, Statement};

fn text(bytes: &[u8]) -> String {
    let end = bytes.iter().rposition(|b| *b != 0).map(|i| i + 1).unwrap_or(0);
    String::from_utf8_lossy(&bytes[..end]).to_string()
}

#[test]
fn prepare_insert_reads_the_three_columns() {
    let row = prepare_insert("insert 1 user1 person1@example.com").unwrap();
    assert_eq!(row.id, 1);
    assert_eq!(row.id(), 1);
    assert_eq!(text(row.username.as_bytes()), "user1");
    assert_eq!(text(row.email.as_bytes()), "person1@example.com");
    assert_eq!(row.username.as_bytes().len(), COLUMN_USERNAME_SIZE);
    assert_eq!(row.email.as_bytes().len(), COLUMN_EMAIL_SIZE);
}

#[test]
fn prepare_insert_accepts_any_whitespace_between_words() {
    let row = prepare_insert("  insert\t42   bob\u{3000}bob@x.org  ").unwrap();
    assert_eq!(row.id, 42);
    assert_eq!(text(row.username.as_bytes()), "bob");
    assert_eq!(text(row.email.as_bytes()), "bob@x.org");
}

#[test]
fn prepare_insert_accepts_an_explicit_plus_sign_and_the_largest_id() {
    assert_eq!(prepare_insert("insert +7 a b").unwrap().id, 7);
    assert_eq!(prepare_insert("insert 4294967295 a b").unwrap().id, u32::MAX);
}

#[test]
fn prepare_insert_refuses_a_negative_id() {
    assert!(matches!(prepare_insert("insert -1 cstack foo@bar.com"), Err(PrepareError::NegativeId)));
}

#[test]
fn prepare_insert_refuses_an_id_above_u32() {
    assert!(matches!(prepare_insert("insert 4294967296 a b"), Err(PrepareError::SyntaxError)));
}

#[test]
fn prepare_insert_refuses_missing_or_extra_words() {
    assert!(matches!(prepare_insert("insert"), Err(PrepareError::SyntaxError)));
    assert!(matches!(prepare_insert("insert 1"), Err(PrepareError::SyntaxError)));
    assert!(matches!(prepare_insert("insert 1 a"), Err(PrepareError::SyntaxError)));
    assert!(matches!(prepare_insert("insert 1 a b c"), Err(PrepareError::SyntaxError)));
    assert!(matches!(prepare_insert("insert x a b"), Err(PrepareError::SyntaxError)));
    assert!(matches!(prepare_insert("inserted 1 a b"), Err(PrepareError::SyntaxError)));
}

#[test]
fn prepare_insert_accepts_columns_of_the_maximum_length() {
    let username = "a".repeat(COLUMN_USERNAME_SIZE);
    let email = "a".repeat(COLUMN_EMAIL_SIZE);
    let row = prepare_insert(&format!("insert 1 {username} {email}")).unwrap();
    assert_eq!(text(row.username.as_bytes()), username);
    assert_eq!(text(row.email.as_bytes()), email);
}

#[test]
fn prepare_insert_refuses_columns_that_are_too_long() {
    let username = "a".repeat(COLUMN_USERNAME_SIZE + 1);
    let email = "a".repeat(COLUMN_EMAIL_SIZE + 1);
    assert!(matches!(prepare_insert(&format!("insert 1 {username} b")), Err(PrepareError::StringTooLong)));
    assert!(matches!(prepare_insert(&format!("insert 1 a {email}")), Err(PrepareError::StringTooLong)));
}

#[test]
fn prepare_statement_dispatches_on_the_keyword() {
    assert!(matches!(prepare_statement("select"), Ok(Statement::Select)));
    assert!(matches!(prepare_statement("select anything"), Ok(Statement::Select)));
    match prepare_statement("insert 3 c c@c") {
        Ok(Statement::Insert(row)) => assert_eq!(row.id, 3),
        _ => panic!("expected an insert"),
    }
    assert!(matches!(prepare_statement("insert -3 c c@c"), Err(PrepareError::NegativeId)));
    match prepare_statement("update 1") {
        Err(PrepareError::Unrecognized(s)) => assert_eq!(s, "update 1"),
        _ => panic!("expected an unrecognized keyword"),
    }
}

#[test]
fn meta_commands_are_recognized_exactly() {
    assert!(matches!(do_meta_command(".exit"), Ok(MetaCommand::Exit)));
    assert!(matches!(do_meta_command(".constants"), Ok(MetaCommand::Constants)));
    assert!(matches!(do_meta_command(".btree"), Ok(MetaCommand::BTree)));
    match do_meta_command(".exits") {
        Err(MetaCommandError::Unrecognized(s)) => assert_eq!(s, ".exits"),
        _ => panic!("expected an unrecognized command"),
    }
    assert!(matches!(do_meta_command(".foo"), Err(MetaCommandError::Unrecognized(_))));
}

#[test]
fn read_input_passes_a_line_on() {
    assert_eq!(read_input(Some(Ok("select".to_string()))), Ok("select".to_string()));
    assert_eq!(read_input(Some(Err(()))), Err("Error reading input".to_string()));
    assert_eq!(read_input(None), Err("Error reading input".to_string()));
}

#[test]
fn only_a_full_table_and_a_duplicate_key_are_not_fatal() {
    assert!(!ExecuteError::TableFull.is_fatal());
    assert!(!ExecuteError::DuplicateKey.is_fatal());
    assert!(ExecuteError::PageNotFound.is_fatal());
}

#[test]
fn a_row_decodes_from_its_encoding() {
    let username = VarChar::<COLUMN_USERNAME_SIZE>::try_from("alice").unwrap();
    let email = VarChar::<COLUMN_EMAIL_SIZE>::try_from("alice@example.com").unwrap();
    let row = Row::new(0x01020304, username, email);
    let bytes = row.serialize_row();
    assert_eq!(bytes.len(), ROW_SIZE);
    assert_eq!(&bytes[..4], &[1, 2, 3, 4]);
    assert_eq!(&bytes[4..9], b"alice");
    let back = Row::deserialize_row(&bytes).unwrap();
    assert_eq!(back.id, 0x01020304);
    assert_eq!(back.username.as_bytes(), row.username.as_bytes());
    assert_eq!(back.email.as_bytes(), row.email.as_bytes());
}

#[test]
fn a_short_buffer_decodes_to_nothing() {
    assert!(Row::deserialize_row(&[0u8; ROW_SIZE - 1]).is_none());
}

#[test]
fn a_column_is_zero_padded_and_refuses_long_text() {
    let v = VarChar::<4>::try_from("ab").unwrap();
    assert_eq!(v.as_bytes(), &[b'a', b'b', 0, 0]);
    assert!(matches!(VarChar::<4>::try_from("abcde"), Err(PrepareError::StringTooLong)));
    assert_eq!(VarChar::<4>::try_from("abcd").unwrap().as_bytes(), b"abcd");
}

#[test]
fn the_text_of_a_column_drops_the_padding_only() {
    let v = VarChar::<8>::try_from("a\0b").unwrap();
    assert_eq!(v.text_bytes(), b"a\0b".to_vec());
    assert_eq!(VarChar::<8>::try_from("").unwrap().text_bytes(), Vec::<u8>::new());
    assert_eq!(VarChar::<3>::try_from("xyz").unwrap().text_bytes(), b"xyz".to_vec());
}
