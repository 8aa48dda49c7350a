use theban_db::{Bitmap, DBError, Object, Range, DB};

#[test]
pub fn test_serialize_objects() {
    let mut db = DB::new();
    let tbl = "foo".to_string();
    db.insert_object(&tbl, Range::new(3, 4), Object { data: "foo".into() });
    db.insert_object(&tbl, Range::new(4, 5), Object { data: "foo".into() });
    db.insert_object(&tbl, Range::new(5, 6), Object { data: "foo".into() });

    let bin = db.serialize().unwrap();
    let db2 = DB::deserialize(bin).unwrap();
    let db2_keys = db2
        .query_object(&tbl, Range::new(0, 100))
        .unwrap()
        .iter()
        .map(|(r, _)| r.clone())
        .collect::<Vec<Range>>();
    let db1_keys = db
        .query_object(&tbl, Range::new(0, 100))
        .unwrap()
        .iter()
        .map(|(r, _)| r.clone())
        .collect::<Vec<Range>>();
    assert_eq!(db1_keys, db2_keys);
}

#[test]
pub fn test_serialize_bitmaps() {
    let mut db = DB::new();

    let tbl = "too".to_string();

    db.insert_bitmap(&tbl, Range::new(5, 7), Bitmap::new(1, "goo".into()));
    db.insert_bitmap(&tbl, Range::new(6, 8), Bitmap::new(1, "bar".into()));

    let bin = db.serialize().unwrap();

    let db2 = DB::deserialize(bin).unwrap();
    let db2_values = db2
        .query_bitmap(&tbl, Range::new(6, 7))
        .unwrap()
        .iter()
        .map(|(_, b)| b.data.as_slice().to_vec())
        .collect::<Vec<Vec<u8>>>();

    let db1_values = db
        .query_bitmap(&tbl, Range::new(6, 7))
        .unwrap()
        .iter()
        .map(|(_, b)| b.data.as_slice().to_vec())
        .collect::<Vec<Vec<u8>>>();
    assert_eq!(db1_values, db2_values);
    assert_eq!(db1_values, vec![b"ba".to_vec()]);
}

#[test]
fn serialized_bytes_follow_the_layout() {
    let mut db = DB::new();
    db.insert_object(&"a".to_string(), Range::new(1, 2), Object::new(b"xy".to_vec()));
    let bin = db.serialize().unwrap();
    assert_eq!(
        bin,
        vec![0x92, 0x81, 0xa1, b'a', 0x93, 0x01, 0x02, 0xa2, b'x', b'y', 0x81, 0xa1, b'a', 0x90]
    );
}

#[test]
fn serialized_bitmap_and_wide_integers() {
    let mut db = DB::new();
    db.insert_bitmap(&"b".to_string(), Range::new(300, 300), Bitmap::new(2, vec![7, 8]));
    db.insert_object(&"b".to_string(), Range::new(70000, 5_000_000_000), Object::new(vec![]));
    let bin = db.serialize().unwrap();
    let mut expected = vec![0x92, 0x81, 0xa1, b'b', 0x93];
    expected.extend_from_slice(&[0xce, 0x00, 0x01, 0x11, 0x70]);
    expected.extend_from_slice(&[0xcf, 0x00, 0x00, 0x00, 0x01, 0x2a, 0x05, 0xf2, 0x00]);
    expected.push(0xa0);
    expected.extend_from_slice(&[0x81, 0xa1, b'b', 0x93, 0xcd, 0x01, 0x2c, 0xcd, 0x01, 0x2c]);
    expected.extend_from_slice(&[0x92, 0x02, 0xa2, 7, 8]);
    assert_eq!(bin, expected);
    let back = DB::deserialize(bin).unwrap();
    assert_eq!(back.serialize().unwrap(), expected);
}

#[test]
fn round_trip_keeps_tables_ranges_and_bytes() {
    let mut db = DB::new();
    db.insert_object(&"zeta".to_string(), Range::new(1, 2), Object::new(vec![1, 2, 3]));
    db.insert_object(&"alpha".to_string(), Range::new(0, 0), Object::new(vec![]));
    db.insert_object(&"alpha".to_string(), Range::new(0, 0), Object::new(vec![9]));
    db.insert_bitmap(&"alpha".to_string(), Range::new(10, 11), Bitmap::new(3, vec![1, 2, 3, 4, 5, 6]));
    db.insert_bitmap(&"mid".to_string(), Range::new(4, 4), Bitmap::new(1, vec![42]));
    let bin = db.serialize().unwrap();
    let back = DB::deserialize(bin.clone()).unwrap();
    assert_eq!(back.serialize().unwrap(), bin);
    for t in ["alpha", "mid", "zeta"] {
        let t = t.to_string();
        let a = db.query_object(&t, Range::new(0, u64::MAX)).unwrap();
        let b = back.query_object(&t, Range::new(0, u64::MAX)).unwrap();
        assert_eq!(
            a.iter().map(|(r, o)| (*r, o.data.clone())).collect::<Vec<_>>(),
            b.iter().map(|(r, o)| (*r, o.data.clone())).collect::<Vec<_>>()
        );
        let a = db.query_bitmap(&t, Range::new(0, 100)).unwrap();
        let b = back.query_bitmap(&t, Range::new(0, 100)).unwrap();
        assert_eq!(
            a.iter().map(|(r, s)| (*r, s.to_bitmap())).collect::<Vec<_>>(),
            b.iter().map(|(r, s)| (*r, s.to_bitmap())).collect::<Vec<_>>()
        );
    }
    assert!(back.query_object(&"other".to_string(), Range::new(0, 1)).is_none());
}

#[test]
fn empty_database_round_trips() {
    let db = DB::new();
    let bin = db.serialize().unwrap();
    assert_eq!(bin, vec![0x92, 0x80, 0x80]);
    let back = DB::deserialize(bin).unwrap();
    assert!(back.query_object(&"a".to_string(), Range::new(0, 1)).is_none());
}

#[test]
fn loose_integers_are_accepted() {
    let bin = vec![0x92, 0x81, 0xa1, b'a', 0x93, 0xd0, 0x01, 0xcc, 0x02, 0xa0, 0x81, 0xa1, b'a', 0x90];
    let db = DB::deserialize(bin).unwrap();
    let keys = db
        .query_object(&"a".to_string(), Range::new(0, 9))
        .unwrap()
        .iter()
        .map(|(r, _)| *r)
        .collect::<Vec<Range>>();
    assert_eq!(keys, vec![Range::new(1, 2)]);
}

#[test]
fn index_length_is_divided_by_three() {
    let bin = vec![0x92, 0x81, 0xa1, b'a', 0x94, 0x01, 0x02, 0xa0, 0x81, 0xa1, b'a', 0x90];
    assert!(DB::deserialize(bin).is_ok());
}

fn error_of(bin: Vec<u8>) -> DBError {
    match DB::deserialize(bin) {
        Ok(_) => panic!("decoding should fail"),
        Err(e) => e,
    }
}

#[test]
fn decode_rejects_wrong_top_level_length() {
    assert!(matches!(error_of(vec![0x93, 0x80, 0x80, 0x80]), DBError::FileFormat(_)));
}

#[test]
fn decode_rejects_truncated_input() {
    assert!(matches!(error_of(vec![]), DBError::ParseValue(_)));
    assert!(matches!(error_of(vec![0x92, 0x81]), DBError::ParseValue(_)));
    assert!(matches!(error_of(vec![0x92, 0x81, 0xa3, b'a']), DBError::FileFormat(_)));
}

#[test]
fn decode_rejects_invalid_utf8_names() {
    assert!(matches!(error_of(vec![0x92, 0x81, 0xa1, 0xff, 0x90, 0x81, 0xa1, 0xff, 0x90]), DBError::UTF8(_)));
}

#[test]
fn decode_rejects_negative_integers() {
    let bin = vec![0x92, 0x81, 0xa1, b'a', 0x93, 0xff, 0x02, 0xa0, 0x81, 0xa1, b'a', 0x90];
    assert!(matches!(error_of(bin), DBError::ParseValue(_)));
}

#[test]
fn decode_rejects_reversed_ranges() {
    let bin = vec![0x92, 0x81, 0xa1, b'a', 0x93, 0x03, 0x02, 0xa0, 0x81, 0xa1, b'a', 0x90];
    assert!(matches!(error_of(bin), DBError::FileFormat(_)));
}

#[test]
fn decode_rejects_bitmaps_of_the_wrong_length() {
    let bin = vec![0x92, 0x81, 0xa1, b'a', 0x90, 0x81, 0xa1, b'a', 0x93, 0x01, 0x02, 0x92, 0x01, 0xa1, 0x00];
    assert!(matches!(error_of(bin), DBError::FileFormat(_)));
    let bin = vec![0x92, 0x81, 0xa1, b'a', 0x90, 0x81, 0xa1, b'a', 0x93, 0x01, 0x02, 0x93, 0x01, 0xa2, 0x00, 0x00];
    assert!(matches!(error_of(bin), DBError::FileFormat(_)));
}

#[test]
fn decode_rejects_collections_with_different_tables() {
    let bin = vec![0x92, 0x81, 0xa1, b'a', 0x90, 0x81, 0xa1, b'b', 0x90];
    assert!(matches!(error_of(bin), DBError::FileFormat(_)));
}

#[test]
fn names_out_of_order_are_put_in_order() {
    let bin = vec![0x92, 0x82, 0xa1, b'b', 0x90, 0xa1, b'a', 0x90, 0x82, 0xa1, b'b', 0x90, 0xa1, b'a', 0x90];
    let db = DB::deserialize(bin).unwrap();
    assert_eq!(
        db.serialize().unwrap(),
        vec![0x92, 0x82, 0xa1, b'a', 0x90, 0xa1, b'b', 0x90, 0x82, 0xa1, b'a', 0x90, 0xa1, b'b', 0x90]
    );
}

#[test]
fn a_repeated_name_keeps_the_last_table_read() {
    let bin = vec![
        0x92, 0x82, 0xa1, b'a', 0x93, 0x01, 0x01, 0xa1, b'x', 0xa1, b'a', 0x93, 0x02, 0x02, 0xa1, b'y',
        0x81, 0xa1, b'a', 0x90,
    ];
    let db = DB::deserialize(bin).unwrap();
    let got = db
        .query_object(&"a".to_string(), Range::new(0, 9))
        .unwrap()
        .iter()
        .map(|(r, o)| (*r, o.data.clone()))
        .collect::<Vec<_>>();
    assert_eq!(got, vec![(Range::new(2, 2), b"y".to_vec())]);
}

#[test]
fn entries_out_of_order_are_filed_in_key_order() {
    let bin = vec![0x92, 0x81, 0xa1, b'a', 0x96, 0x05, 0x06, 0xa0, 0x01, 0x02, 0xa0, 0x81, 0xa1, b'a', 0x90];
    let db = DB::deserialize(bin).unwrap();
    let keys = db
        .query_object(&"a".to_string(), Range::new(0, 9))
        .unwrap()
        .iter()
        .map(|(r, _)| *r)
        .collect::<Vec<Range>>();
    assert_eq!(keys, vec![Range::new(1, 2), Range::new(5, 6)]);
}

#[test]
fn error_messages_are_kept() {
    let e = error_of(vec![0x93, 0x80, 0x80, 0x80]);
    assert!(!e.message().is_empty());
}
