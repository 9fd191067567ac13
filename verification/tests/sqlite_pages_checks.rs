use rc_carve::validate::sqlite_pages::{schema_rootpage, varint};

#[test]
fn varints_follow_the_sqlite_encoding() {
    assert_eq!(varint(&[0x05], 0), Some((5, 1)));
    assert_eq!(varint(&[0x81, 0x00], 0), Some((128, 2)));
    assert_eq!(varint(&[0xFF; 9], 0), Some((u64::MAX, 9)));
    assert_eq!(varint(&[0x81], 0), None, "runs off the end");
}

#[test]
fn a_schema_row_yields_its_root_page() {
    // header: 6 bytes; types: text(5)=22, text(1)=14, text(1)=14, int8=1, text(0)=13
    let mut rec = vec![6u8, 22, 14, 14, 1, 13];
    rec.extend_from_slice(b"table");
    rec.push(b't');
    rec.push(b't');
    rec.push(7);
    assert_eq!(schema_rootpage(&rec), Some(7));
}
