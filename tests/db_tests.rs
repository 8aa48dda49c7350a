use theban_db::{Bitmap, Object, Range, DB};

fn query_bitmap_test(db: &mut DB, tbl: &String, rng: Range) -> Vec<(Range, Bitmap)> {
    return db
        .query_bitmap(&tbl, rng)
        .unwrap()
        .iter()
        .map(|(r, data)| (r.clone(), data.to_bitmap()))
        .collect::<Vec<(Range, Bitmap)>>();
}

fn object_keys(db: &DB, tbl: &String, rng: Range) -> Vec<Range> {
    db.query_object(tbl, rng).unwrap().iter().map(|(r, _)| r.clone()).collect::<Vec<Range>>()
}

#[test]
fn test_ranges() {
    let mut db = DB::new();
    let tbl = "foo".to_string();
    db.insert_object(&tbl, Range::new(3, 4), Object { data: "foo".into() });
    db.insert_object(&tbl, Range::new(4, 5), Object { data: "foo".into() });
    db.insert_object(&tbl, Range::new(5, 6), Object { data: "foo".into() });
    let mut is = db
        .query_object(&tbl, Range::new(4, 4))
        .unwrap()
        .iter()
        .map(|(r, _)| r.clone())
        .collect::<Vec<Range>>();
    assert_eq!(is, vec![Range::new(3, 4), Range::new(4, 5)]);
    db.delete_all_objects(&tbl, Range::new(3, 4));
    is = db
        .query_object(&tbl, Range::new(0, 100))
        .unwrap()
        .iter()
        .map(|(r, _)| r.clone())
        .collect::<Vec<Range>>();
    assert_eq!(is, vec![Range::new(5, 6)]);

    assert!(db.query_object(&"bar".to_string(), Range::new(0, 100)).is_none());
}

#[test]
fn test_bitmaps_insert() {
    let mut db = DB::new();
    let tbl = "tbl".to_string();

    db.insert_bitmap(&tbl, Range::new(2, 7), Bitmap { entry_size: 1, data: "foofoo".into() });

    db.insert_bitmap(&tbl, Range::new(5, 10), Bitmap { entry_size: 1, data: "barbar".into() });

    let is = query_bitmap_test(&mut db, &tbl, Range::new(0, 50));
    assert_eq!(is, vec![(Range::new(2, 10), Bitmap { entry_size: 1, data: "foobarbar".into() })]);

    db.insert_bitmap(&tbl, Range::new(7, 9), Bitmap { entry_size: 1, data: "goo".into() });

    let is = query_bitmap_test(&mut db, &tbl, Range::new(0, 50));
    assert_eq!(is, vec![(Range::new(2, 10), Bitmap { entry_size: 1, data: "foobagoor".into() })]);

    db.insert_bitmap(&tbl, Range::new(7, 9), Bitmap { entry_size: 2, data: "googoo".into() });

    let is = query_bitmap_test(&mut db, &tbl, Range::new(0, 50));
    assert_eq!(
        is,
        vec![
            (Range::new(2, 10), Bitmap { entry_size: 1, data: "foobagoor".into() }),
            (Range::new(7, 9), Bitmap { entry_size: 2, data: "googoo".into() })
        ]
    );

    let is = query_bitmap_test(&mut db, &tbl, Range::new(0, 3));
    assert_eq!(is, vec![(Range::new(2, 3), Bitmap { entry_size: 1, data: "fo".into() }),]);

    db.delete_bitmap(&tbl, 1, Range::new(0, 1000));
    db.delete_bitmap(&tbl, 2, Range::new(0, 1000));
    db.delete_bitmap(&tbl, 3, Range::new(0, 1000));

    let is = query_bitmap_test(&mut db, &tbl, Range::new(0, 1000));
    assert_eq!(is, vec![]);

    db.insert_bitmap(&tbl, Range::new(0, 10), Bitmap { entry_size: 1, data: "googooazabu".into() });
    db.delete_bitmap(&tbl, 1, Range::new(2, 3));
    let is = query_bitmap_test(&mut db, &tbl, Range::new(0, 1000));

    assert_eq!(
        is,
        vec![
            (Range::new(0, 1), Bitmap { entry_size: 1, data: "go".into() }),
            (Range::new(4, 10), Bitmap { entry_size: 1, data: "ooazabu".into() }),
        ]
    );

    db.delete_bitmap(&tbl, 1, Range::new(0, 0));
    let is = query_bitmap_test(&mut db, &tbl, Range::new(0, 1000));

    assert_eq!(
        is,
        vec![
            (Range::new(1, 1), Bitmap { entry_size: 1, data: "o".into() }),
            (Range::new(4, 10), Bitmap { entry_size: 1, data: "ooazabu".into() }),
        ]
    );
}

#[test]
fn objects_with_equal_keys_coexist() {
    let mut db = DB::new();
    let tbl = "t".to_string();
    db.insert_object(&tbl, Range::new(1, 2), Object::new(vec![1]));
    db.insert_object(&tbl, Range::new(1, 2), Object::new(vec![2]));
    let got = db
        .query_object(&tbl, Range::new(0, 9))
        .unwrap()
        .iter()
        .map(|(r, o)| (r.clone(), o.data.clone()))
        .collect::<Vec<(Range, Vec<u8>)>>();
    assert_eq!(got, vec![(Range::new(1, 2), vec![1]), (Range::new(1, 2), vec![2])]);
    db.delete_object(&tbl, Range::new(1, 2));
    let got = db
        .query_object(&tbl, Range::new(0, 9))
        .unwrap()
        .iter()
        .map(|(_, o)| o.data.clone())
        .collect::<Vec<Vec<u8>>>();
    assert_eq!(got, vec![vec![2]]);
}

#[test]
fn insert_then_query_finds_the_object() {
    let mut db = DB::new();
    let tbl = "t".to_string();
    db.insert_object(&tbl, Range::new(10, 20), Object::new(vec![7, 8]));
    db.insert_object(&tbl, Range::new(30, 40), Object::new(vec![9]));
    for q in [Range::new(0, 10), Range::new(20, 25), Range::new(15, 15), Range::new(0, 100)] {
        let got = db.query_object(&tbl, q).unwrap();
        assert!(got.iter().any(|(r, o)| *r == Range::new(10, 20) && o.data == vec![7, 8]));
    }
    assert_eq!(object_keys(&db, &tbl, Range::new(21, 29)), vec![]);
}

#[test]
fn objects_query_in_key_order() {
    let mut db = DB::new();
    let tbl = "t".to_string();
    db.insert_object(&tbl, Range::new(5, 9), Object::new(vec![]));
    db.insert_object(&tbl, Range::new(1, 3), Object::new(vec![]));
    db.insert_object(&tbl, Range::new(1, 2), Object::new(vec![]));
    assert_eq!(
        object_keys(&db, &tbl, Range::new(0, 100)),
        vec![Range::new(1, 2), Range::new(1, 3), Range::new(5, 9)]
    );
}

#[test]
fn delete_object_of_missing_key_or_table_does_nothing() {
    let mut db = DB::new();
    let tbl = "t".to_string();
    db.insert_object(&tbl, Range::new(1, 2), Object::new(vec![1]));
    db.delete_object(&tbl, Range::new(1, 3));
    db.delete_object(&"other".to_string(), Range::new(1, 2));
    db.delete_all_objects(&"other".to_string(), Range::new(0, 9));
    assert_eq!(object_keys(&db, &tbl, Range::new(0, 9)), vec![Range::new(1, 2)]);
    assert!(db.query_object(&"other".to_string(), Range::new(0, 9)).is_none());
}

#[test]
fn tables_are_created_for_both_kinds() {
    let mut db = DB::new();
    let tbl = "t".to_string();
    db.insert_object(&tbl, Range::new(1, 2), Object::new(vec![1]));
    assert_eq!(query_bitmap_test(&mut db, &tbl, Range::new(0, 9)), vec![]);
    let other = "u".to_string();
    db.insert_bitmap(&other, Range::new(1, 1), Bitmap::new(1, vec![5]));
    assert_eq!(object_keys(&db, &other, Range::new(0, 9)), vec![]);
}

#[test]
fn adjacent_bitmaps_merge() {
    let mut db = DB::new();
    let tbl = "t".to_string();
    db.insert_bitmap(&tbl, Range::new(0, 1), Bitmap::new(2, vec![1, 2, 3, 4]));
    db.insert_bitmap(&tbl, Range::new(2, 2), Bitmap::new(2, vec![5, 6]));
    assert_eq!(
        query_bitmap_test(&mut db, &tbl, Range::new(0, 9)),
        vec![(Range::new(0, 2), Bitmap::new(2, vec![1, 2, 3, 4, 5, 6]))]
    );
}

#[test]
fn bitmaps_with_a_gap_of_one_key_stay_apart() {
    let mut db = DB::new();
    let tbl = "t".to_string();
    db.insert_bitmap(&tbl, Range::new(0, 1), Bitmap::new(1, vec![1, 2]));
    db.insert_bitmap(&tbl, Range::new(3, 3), Bitmap::new(1, vec![3]));
    assert_eq!(
        query_bitmap_test(&mut db, &tbl, Range::new(0, 9)),
        vec![(Range::new(0, 1), Bitmap::new(1, vec![1, 2])), (Range::new(3, 3), Bitmap::new(1, vec![3]))]
    );
}

#[test]
fn bridging_insert_merges_both_neighbours_and_zero_fills_nothing() {
    let mut db = DB::new();
    let tbl = "t".to_string();
    db.insert_bitmap(&tbl, Range::new(0, 1), Bitmap::new(1, vec![1, 2]));
    db.insert_bitmap(&tbl, Range::new(4, 5), Bitmap::new(1, vec![5, 6]));
    db.insert_bitmap(&tbl, Range::new(2, 3), Bitmap::new(1, vec![3, 4]));
    assert_eq!(
        query_bitmap_test(&mut db, &tbl, Range::new(0, 9)),
        vec![(Range::new(0, 5), Bitmap::new(1, vec![1, 2, 3, 4, 5, 6]))]
    );
}

#[test]
fn equal_ranges_of_different_entry_sizes_are_independent() {
    let mut db = DB::new();
    let tbl = "t".to_string();
    db.insert_bitmap(&tbl, Range::new(3, 4), Bitmap::new(1, vec![1, 2]));
    db.insert_bitmap(&tbl, Range::new(3, 4), Bitmap::new(2, vec![3, 4, 5, 6]));
    assert_eq!(
        query_bitmap_test(&mut db, &tbl, Range::new(0, 9)),
        vec![(Range::new(3, 4), Bitmap::new(1, vec![1, 2])), (Range::new(3, 4), Bitmap::new(2, vec![3, 4, 5, 6]))]
    );
    db.delete_bitmap(&tbl, 2, Range::new(3, 4));
    assert_eq!(
        query_bitmap_test(&mut db, &tbl, Range::new(0, 9)),
        vec![(Range::new(3, 4), Bitmap::new(1, vec![1, 2]))]
    );
}

#[test]
fn hole_just_after_the_first_key_keeps_that_key() {
    let mut db = DB::new();
    let tbl = "t".to_string();
    db.insert_bitmap(&tbl, Range::new(0, 5), Bitmap::new(1, vec![0, 1, 2, 3, 4, 5]));
    db.delete_bitmap(&tbl, 1, Range::new(1, 3));
    assert_eq!(
        query_bitmap_test(&mut db, &tbl, Range::new(0, 9)),
        vec![(Range::new(0, 0), Bitmap::new(1, vec![0])), (Range::new(4, 5), Bitmap::new(1, vec![4, 5]))]
    );
}

#[test]
fn delete_leaves_other_entry_sizes_and_touching_bitmaps() {
    let mut db = DB::new();
    let tbl = "t".to_string();
    db.insert_bitmap(&tbl, Range::new(0, 2), Bitmap::new(1, vec![1, 2, 3]));
    db.insert_bitmap(&tbl, Range::new(0, 2), Bitmap::new(2, vec![1, 1, 2, 2, 3, 3]));
    db.delete_bitmap(&tbl, 1, Range::new(3, 9));
    db.delete_bitmap(&tbl, 1, Range::new(2, 2));
    assert_eq!(
        query_bitmap_test(&mut db, &tbl, Range::new(0, 9)),
        vec![
            (Range::new(0, 1), Bitmap::new(1, vec![1, 2])),
            (Range::new(0, 2), Bitmap::new(2, vec![1, 1, 2, 2, 3, 3]))
        ]
    );
}

#[test]
fn bitmap_query_windows_entries_of_wide_bitmaps() {
    let mut db = DB::new();
    let tbl = "t".to_string();
    db.insert_bitmap(&tbl, Range::new(10, 13), Bitmap::new(2, vec![0, 1, 2, 3, 4, 5, 6, 7]));
    assert_eq!(
        query_bitmap_test(&mut db, &tbl, Range::new(11, 12)),
        vec![(Range::new(11, 12), Bitmap::new(2, vec![2, 3, 4, 5]))]
    );
    assert_eq!(query_bitmap_test(&mut db, &tbl, Range::new(14, 20)), vec![]);
    assert!(db.query_bitmap(&"none".to_string(), Range::new(0, 1)).is_none());
}

#[test]
fn bitmaps_of_one_size_never_touch_and_always_fit() {
    let mut db = DB::new();
    let tbl = "t".to_string();
    let mut seed: u64 = 12345;
    let mut next = || {
        seed = seed.wrapping_mul(6364136223846793005).wrapping_add(1442695040888963407);
        seed >> 33
    };
    for step in 0..300u64 {
        let min = next() % 60;
        let len = next() % 8 + 1;
        let es = next() % 2 + 1;
        let r = Range::new(min, min + len - 1);
        if next() % 3 == 0 {
            db.delete_bitmap(&tbl, es, r);
        } else {
            let data = (0..len * es).map(|i| (i + step) as u8).collect::<Vec<u8>>();
            db.insert_bitmap(&tbl, r, Bitmap::new(es, data.clone()));
            let got = query_bitmap_test(&mut db, &tbl, r);
            assert!(got.iter().any(|(g, b)| *g == r && b.entry_size == es && b.data == data));
        }
        let all = query_bitmap_test(&mut db, &tbl, Range::new(0, 1000));
        for (i, (ri, bi)) in all.iter().enumerate() {
            assert_eq!(bi.data.len() as u64, bi.entry_size * (ri.max - ri.min + 1));
            for (j, (rj, bj)) in all.iter().enumerate() {
                if i != j && bi.entry_size == bj.entry_size {
                    assert!(ri.max + 1 < rj.min || rj.max + 1 < ri.min);
                }
            }
        }
    }
}
