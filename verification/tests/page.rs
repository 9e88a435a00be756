//! Pages, overflow pages, values and filters.

use boogy_db::filter::Filter;
use boogy_db::overflow::{
    append_overflow_trailer, build_overflow_page, decode_overflow_trailer, has_overflow,
    read_overflow_payload, OVERFLOW_MARKER,
};
use boogy_db::page::Page;
use boogy_db::value::{ColumnDef, Type, Value};

#[test]
fn test_leaf_page_creation() {
    let page = Page::new_leaf();
    assert!(page.is_leaf());
    assert!(!page.is_branch());
    assert_eq!(page.num_rows(), 0);
    assert!(page.verify_checksum());
}

#[test]
fn test_branch_page_creation() {
    let page = Page::new_branch();
    assert!(page.is_branch());
    assert!(!page.is_leaf());
    assert!(page.verify_checksum());
}

#[test]
fn test_checksum_detects_corruption() {
    let mut page = Page::new_leaf();
    page.update_checksum();
    assert!(page.verify_checksum());
    // Corrupt one byte
    page.data[100] ^= 0xFF;
    assert!(!page.verify_checksum());
}

#[test]
fn test_from_bytes_validates() {
    let page = Page::new_leaf();
    let result = Page::from_bytes(page.data);
    assert!(result.is_ok());

    let mut bad = page.data;
    bad[0] = 0xFF; // corrupt magic
    let result = Page::from_bytes(bad);
    assert!(result.is_err());
}

#[test]
fn test_row_offsets() {
    let mut page = Page::new_leaf();
    page.set_row_offset(0, 500);
    page.set_row_offset(1, 600);
    assert_eq!(page.row_offset(0), 500);
    assert_eq!(page.row_offset(1), 600);
}

#[test]
fn has_overflow_positive() {
    let mut buf = vec![0u8; 20];
    // Place the marker at the correct position
    append_overflow_trailer(&mut buf, 42, 1000);
    assert!(has_overflow(&buf));
}

#[test]
fn has_overflow_negative() {
    let buf = vec![0u8; 20];
    assert!(!has_overflow(&buf));
}

#[test]
fn has_overflow_too_short() {
    let buf = vec![OVERFLOW_MARKER; 5]; // shorter than OVERFLOW_TRAILER_SIZE
    assert!(!has_overflow(&buf));
}

#[test]
fn trailer_roundtrip() {
    let mut buf = vec![1, 2, 3, 4, 5]; // inline data
    append_overflow_trailer(&mut buf, 99, 8192);
    assert!(has_overflow(&buf));

    let (inline_len, first_page, remaining) = decode_overflow_trailer(&buf);
    assert_eq!(inline_len, 5);
    assert_eq!(first_page, 99);
    assert_eq!(remaining, 8192);
}

#[test]
fn page_build_and_read() {
    let payload = b"hello overflow world!";
    let page = build_overflow_page(payload, 7);

    assert!(page.is_overflow());
    assert!(page.verify_checksum());
    assert_eq!(page.overflow_payload_len() as usize, payload.len());
    assert_eq!(page.overflow_next(), 7);

    let recovered = read_overflow_payload(&page);
    assert_eq!(recovered, payload);
}

#[test]
fn column_def_default_and_dropped_fields() {
    // Builder sets default correctly; dropped stays false.
    let col = ColumnDef::new("x", Type::Integer).default(Value::Integer(5));
    assert_eq!(col.default, Some(Value::Integer(5)));
    assert!(!col.dropped);

    // new() alone yields default == None and dropped == false.
    let col2 = ColumnDef::new("y", Type::Text);
    assert_eq!(col2.default, None);
    assert!(!col2.dropped);
}

#[test]
fn test_filter_eq() {
    let f = Filter::eq("name", Value::from("alice"));
    assert!(f.matches(&Value::Text("alice".into())));
    assert!(!f.matches(&Value::Text("bob".into())));
}

#[test]
fn test_filter_gt_integer() {
    let f = Filter::gt("age", Value::from(18i64));
    assert!(f.matches(&Value::Integer(21)));
    assert!(!f.matches(&Value::Integer(18)));
    assert!(!f.matches(&Value::Integer(10)));
}

#[test]
fn test_filter_null() {
    let f = Filter::eq("x", Value::Null);
    assert!(f.matches(&Value::Null));
    assert!(!f.matches(&Value::Integer(0)));
}
