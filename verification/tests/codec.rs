use pagedb::row::{Row, EMAIL_SIZE, ROW_SIZE, USERNAME_SIZE};

fn row(id: u32, username: &str, email: &str) -> Row {
    Row { id, username: String::from(username), email: String::from(email) }
}

#[test]
fn serialize_layout_is_fixed_width() {
    let r = row(1, "alice", "alice@example.com");
    let bytes = r.serialize_row();
    assert_eq!(bytes.len(), ROW_SIZE);
    assert_eq!(ROW_SIZE, 291);
    assert_eq!(&bytes[0..4], &[1u8, 0, 0, 0]);
    assert_eq!(&bytes[4..9], b"alice");
    assert!(bytes[9..4 + USERNAME_SIZE].iter().all(|b| *b == 0));
    assert_eq!(&bytes[36..53], b"alice@example.com");
    assert!(bytes[53..].iter().all(|b| *b == 0));
}

#[test]
fn serialize_id_is_little_endian() {
    let r = row(0x01020304, "u", "e");
    let bytes = r.serialize_row();
    assert_eq!(&bytes[0..4], &[0x04u8, 0x03, 0x02, 0x01]);
}

#[test]
fn round_trip_keeps_id_and_pads_text() {
    let r = row(42, "bob", "bob@example.com");
    let bytes = r.serialize_row();
    let back = Row::deserialize_row(&bytes).expect("decode");
    assert_eq!(back.id, 42);
    let mut expected_username = String::from("bob");
    expected_username.push_str(&"\0".repeat(USERNAME_SIZE - 3));
    assert_eq!(back.username, expected_username);
    let mut expected_email = String::from("bob@example.com");
    expected_email.push_str(&"\0".repeat(EMAIL_SIZE - 15));
    assert_eq!(back.email, expected_email);
}

#[test]
fn round_trip_full_width_fields() {
    let u = "u".repeat(USERNAME_SIZE);
    let e = "e".repeat(EMAIL_SIZE);
    let r = row(7, &u, &e);
    let bytes = r.serialize_row();
    let back = Row::deserialize_row(&bytes).expect("decode");
    assert_eq!(back.username, u);
    assert_eq!(back.email, e);
}

#[test]
fn deserialize_short_buffer_is_none() {
    let bytes = vec![0u8; ROW_SIZE - 1];
    assert!(Row::deserialize_row(&bytes).is_none());
}

#[test]
fn deserialize_invalid_utf8_is_none() {
    let r = row(5, "eve", "eve@example.com");
    let mut bytes = r.serialize_row();
    bytes[6] = 0xFF;
    assert!(Row::deserialize_row(&bytes).is_none());
    let mut bytes2 = r.serialize_row();
    bytes2[40] = 0xFF;
    assert!(Row::deserialize_row(&bytes2).is_none());
}

#[test]
fn deserialize_reads_only_first_row() {
    let r = row(9, "zoe", "zoe@example.com");
    let mut bytes = r.serialize_row();
    bytes.extend(vec![0xFFu8; 10]);
    let back = Row::deserialize_row(&bytes).expect("decode");
    assert_eq!(back.id, 9);
}

#[test]
fn new_row_is_empty() {
    let r = Row::new();
    assert_eq!(r.id, 0);
    assert!(r.username.is_empty());
    assert!(r.email.is_empty());
}
