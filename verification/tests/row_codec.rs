use resql::error::Error;
use resql::row::{Row, ROW_SIZE};

fn sample() -> Row {
    Row { id: 1, username: "user1".to_string(), email: "person1@example.com".to_string() }
}

#[test]
fn serialize_has_row_size() {
    assert_eq!(ROW_SIZE, 292);
    assert_eq!(sample().serialize().len(), ROW_SIZE);
}

#[test]
fn serialize_writes_id_little_endian() {
    let row = Row { id: 0x0102_0304, username: String::new(), email: String::new() };
    let bytes = row.serialize();
    assert_eq!(&bytes[0..4], &[0x04, 0x03, 0x02, 0x01]);
}

#[test]
fn serialize_pads_text_with_zeros() {
    let bytes = sample().serialize();
    assert_eq!(&bytes[4..9], b"user1");
    assert!(bytes[9..36].iter().all(|b| *b == 0));
    assert_eq!(&bytes[36..55], b"person1@example.com");
    assert!(bytes[55..292].iter().all(|b| *b == 0));
}

#[test]
fn deserialize_keeps_padding() {
    let row = Row::deserialize(&sample().serialize()).unwrap();
    assert_eq!(row.id, 1);
    assert_eq!(row.username.len(), 32);
    assert_eq!(row.email.len(), 256);
    assert_eq!(row.username.trim_matches('\0'), "user1");
    assert_eq!(row.email.trim_matches('\0'), "person1@example.com");
}

#[test]
fn deserialize_rejects_short_buffer() {
    assert_eq!(Row::deserialize(&[0u8; 291]), Err(Error::Decode));
}

#[test]
fn deserialize_rejects_invalid_utf8() {
    let mut bytes = sample().serialize();
    bytes[4] = 0xff;
    assert_eq!(Row::deserialize(&bytes), Err(Error::Decode));
    let mut bytes = sample().serialize();
    bytes[40] = 0xc0;
    assert_eq!(Row::deserialize(&bytes), Err(Error::Decode));
}

#[test]
fn fits_checks_both_limits() {
    let mut row = sample();
    assert!(row.fits());
    row.username = "n".repeat(31);
    row.email = "e".repeat(255);
    assert!(row.fits());
    row.username = "n".repeat(32);
    assert!(!row.fits());
    row.username = "n".repeat(31);
    row.email = "e".repeat(256);
    assert!(!row.fits());
}
