//! What the operations of the database do together.

use boogy_db::btree::BTreeReader;
use boogy_db::crypto::Cipher;
use boogy_db::db::{BoogyDb, Durability, LogRecord};
use boogy_db::error::BoogyError;
use boogy_db::filter::{Filter, FindOptions, Sort};
use boogy_db::log::{decode_log, encode_log};
use boogy_db::names::{mappings_of, parse_vector_mapping_table, validate_path, vector_mapping_table};
use boogy_db::page::Page;
use boogy_db::row::{encode_row, extract_column};
use boogy_db::table::TableRegistry;
use boogy_db::transaction::Transaction;
use boogy_db::value::{integer_of_real, real_of_integer, ColumnDef, Type, Value};

fn fresh() -> BoogyDb {
    BoogyDb::open(Vec::new(), &Vec::new()).unwrap()
}

fn numbers() -> BoogyDb {
    let mut db = fresh();
    db.create_table("t", &[ColumnDef::new("v", Type::Integer), ColumnDef::new("s", Type::Text)])
        .unwrap();
    db
}

fn write_back(images: &mut Vec<[u8; 4096]>, changed: Vec<(u32, [u8; 4096])>) {
    for (page_no, image) in changed {
        while images.len() <= page_no as usize {
            images.push([0; 4096]);
        }
        images[page_no as usize] = image;
    }
}

fn value_of(db: &BoogyDb, id: u64, column: &str) -> Option<Value> {
    db.get("t", id).unwrap().unwrap().get(column)
}

fn asking(filters: Vec<Filter>) -> FindOptions {
    FindOptions { filters, ..Default::default() }
}

#[test]
fn rows_are_read_back_and_others_stay() {
    let mut db = numbers();
    let a = db.insert("t", &[("v", Value::Integer(1)), ("s", Value::from("one"))]).unwrap();
    let b = db.insert("t", &[("v", Value::Integer(2))]).unwrap();
    assert_eq!(value_of(&db, a, "v"), Some(Value::Integer(1)));
    assert_eq!(value_of(&db, a, "s"), Some(Value::from("one")));
    assert_eq!(value_of(&db, b, "s"), None);
    assert!(db.update("t", a, &[("v", Value::Integer(7))]).unwrap());
    assert_eq!(value_of(&db, a, "v"), Some(Value::Integer(7)));
    assert_eq!(value_of(&db, a, "s"), Some(Value::from("one")));
    assert_eq!(value_of(&db, b, "v"), Some(Value::Integer(2)));
    assert!(db.delete("t", a).unwrap());
    assert!(!db.delete("t", a).unwrap());
    assert!(!db.update("t", a, &[("v", Value::Integer(7))]).unwrap());
    assert!(db.get("t", a).unwrap().is_none());
    assert_eq!(value_of(&db, b, "v"), Some(Value::Integer(2)));
    assert_eq!(db.count("t", &vec![]).unwrap(), 1);
}

#[test]
fn an_index_finds_what_a_scan_finds() {
    let mut plain = numbers();
    let mut indexed = numbers();
    indexed.create_index("t", "by_v", "v").unwrap();
    indexed.create_index("t", "by_s", "s").unwrap();
    for db in [&mut plain, &mut indexed] {
        for i in 0..300i64 {
            let s = format!("text {}", i % 13);
            db.insert("t", &[("v", Value::Integer(i % 7)), ("s", Value::from(s.as_str()))]).unwrap();
        }
        db.update_where(
            "t",
            &[Filter::eq("v", Value::Integer(3))],
            &[("v", Value::Integer(100)), ("s", Value::from("moved"))],
        )
        .unwrap();
        db.delete_where("t", &[Filter::eq("s", Value::from("text 5"))]).unwrap();
    }
    for f in [
        vec![Filter::eq("v", Value::Integer(4))],
        vec![Filter::eq("v", Value::Integer(3))],
        vec![Filter::eq("v", Value::Integer(100))],
        vec![Filter::eq("s", Value::from("text 1"))],
        vec![Filter::eq("s", Value::from("moved"))],
        vec![Filter::eq("v", Value::Integer(4)), Filter::gt("s", Value::from("text 3"))],
        vec![Filter::ge("v", Value::Integer(5)), Filter::eq("s", Value::from("text 2"))],
    ] {
        let again: Vec<Filter> = f
            .iter()
            .map(|x| Filter { column: x.column.clone(), op: x.op, value: x.value.clone() })
            .collect();
        let n = plain.count("t", &f).unwrap();
        assert_eq!(n, indexed.count("t", &f).unwrap());
        let a = plain.find("t", &asking(f)).unwrap();
        let b = indexed.find("t", &asking(again)).unwrap();
        let ids = |r: &boogy_db::query::FindResult| -> Vec<u64> {
            r.rows.iter().map(|x| x.id).collect()
        };
        assert_eq!(ids(&a), ids(&b));
        assert_eq!(a.rows.len() as u64, n);
    }
    indexed.drop_index("t", "by_v").unwrap();
    assert!(matches!(indexed.drop_index("t", "by_v"), Err(BoogyError::IndexNotFound(_))));
    assert_eq!(
        indexed.count("t", &vec![Filter::eq("v", Value::Integer(4))]).unwrap(),
        plain.count("t", &vec![Filter::eq("v", Value::Integer(4))]).unwrap()
    );
}

#[test]
fn long_rows_are_stored_across_pages() {
    let mut db = numbers();
    let long = "x".repeat(20_000);
    let id = db.insert("t", &[("s", Value::from(long.as_str())), ("v", Value::Integer(5))]).unwrap();
    assert_eq!(value_of(&db, id, "s"), Some(Value::Text(long)));
    assert_eq!(value_of(&db, id, "v"), Some(Value::Integer(5)));
    db.set_max_row_size(100);
    assert_eq!(db.max_row_size(), 100);
    match db.insert("t", &[("s", Value::Text("y".repeat(200)))]) {
        Err(BoogyError::RowTooLarge(n)) => assert!(n > 200),
        _ => panic!("the row is too large"),
    }
}

#[test]
fn errors_name_their_cause() {
    let mut db = numbers();
    match db.insert("nope", &[]) {
        Err(BoogyError::TableNotFound(t)) => assert_eq!(t, "nope"),
        _ => panic!("the table does not exist"),
    }
    match db.create_table("t", &[]) {
        Err(BoogyError::TableExists(t)) => assert_eq!(t, "t"),
        _ => panic!("the table exists"),
    }
    db.insert_with_id("t", 5, &[("v", Value::Integer(1))]).unwrap();
    match db.insert_with_id("t", 5, &[("v", Value::Integer(1))]) {
        Err(BoogyError::DuplicateKey(k)) => assert_eq!(k, 5),
        _ => panic!("the row exists"),
    }
    db.create_index("t", "by_v", "v").unwrap();
    assert!(matches!(db.create_index("t", "by_v", "v"), Err(BoogyError::IndexExists(_))));
    assert!(db.create_index("t", "by_x", "x").is_err());
    assert!(matches!(
        db.insert("t", &[("v", Value::from("text"))]),
        Err(BoogyError::TypeMismatch(_))
    ));
    assert!(matches!(db.drop_table("nope"), Err(BoogyError::TableNotFound(_))));
    assert_eq!(BoogyError::TableNotFound("a".into()).message(), "table 'a' not found");
    assert_eq!(BoogyError::DuplicateKey(5).message(), "duplicate key 5");
    assert_eq!(
        BoogyError::VectorDimensionMismatch { expected: 3, got: 2 }.message(),
        "vector dimension mismatch: expected 3, got 2"
    );
    assert_eq!(
        BoogyError::RowTooLarge(70).message(),
        "row too large: 70 bytes exceeds maximum"
    );
}

#[test]
fn transactions_commit_as_a_whole_or_leave_no_trace() {
    for acid in [true, false] {
        let mut db = numbers();
        db.set_acid(acid);
        assert_eq!(db.is_acid(), acid);
        let kept = db.insert("t", &[("v", Value::Integer(1))]).unwrap();
        {
            let mut tx = db.begin().unwrap();
            let id = tx.insert("t", &[("v", Value::Integer(2))]).unwrap();
            tx.insert_with_id("t", 50, &[("v", Value::Integer(3))]).unwrap();
            assert_eq!(tx.get("t", id).unwrap().unwrap().get("v"), Some(Value::Integer(2)));
            assert!(tx.update("t", kept, &[("v", Value::Integer(9))]).unwrap());
            assert!(tx.delete("t", id).unwrap());
            assert_eq!(tx.count("t", &vec![]).unwrap(), 2);
            tx.commit().unwrap();
        }
        assert_eq!(value_of(&db, kept, "v"), Some(Value::Integer(9)));
        assert_eq!(value_of(&db, 50, "v"), Some(Value::Integer(3)));
        assert_eq!(db.count("t", &vec![]).unwrap(), 2);
    }
    // An uncommitted transaction changes nothing.
    let mut db = numbers();
    db.set_acid(true);
    db.insert("t", &[("v", Value::Integer(1))]).unwrap();
    {
        let mut tx = db.begin().unwrap();
        assert!(matches!(tx, Transaction::Acid(_)));
        tx.insert("t", &[("v", Value::Integer(2))]).unwrap();
        tx.update_where("t", &[], &[("v", Value::Integer(8))]).unwrap();
        tx.delete_where("t", &[Filter::gt("v", Value::Integer(100))]).unwrap();
        tx.insert_many("t", &[vec![("v", Value::Integer(3))], vec![("v", Value::Integer(4))]])
            .unwrap();
        assert_eq!(tx.find("t", &asking(vec![])).unwrap().rows.len(), 4);
    }
    assert_eq!(db.count("t", &vec![]).unwrap(), 1);
    assert_eq!(value_of(&db, 1, "v"), Some(Value::Integer(1)));
    assert_eq!(db.insert("t", &[("v", Value::Integer(5))]).unwrap(), 2);
}

#[test]
fn many_rows_are_changed_at_once() {
    for acid in [true, false] {
        let mut db = numbers();
        db.set_acid(acid);
        db.create_index("t", "by_v", "v").unwrap();
        let rows: Vec<Vec<(&str, Value)>> =
            (0..200).map(|i| vec![("v", Value::Integer(i % 10))]).collect();
        let ids = db.insert_many("t", &rows).unwrap();
        assert_eq!(ids, (1..=200).collect::<Vec<u64>>());
        let n = db
            .update_where(
                "t",
                &[Filter::lt("v", Value::Integer(3))],
                &[("v", Value::Integer(50)), ("s", Value::from("changed"))],
            )
            .unwrap();
        // Without a transaction only columns that a row has are replaced.
        assert_eq!(n, 60);
        assert_eq!(db.count("t", &vec![Filter::eq("v", Value::Integer(50))]).unwrap(), 60);
        assert_eq!(db.count("t", &vec![Filter::eq("v", Value::Integer(1))]).unwrap(), 0);
        assert_eq!(db.delete_where("t", &[Filter::ge("v", Value::Integer(8))]).unwrap(), 100);
        assert_eq!(db.count("t", &vec![]).unwrap(), 100);
    }
}

#[test]
fn the_log_restores_what_was_committed() {
    let mut db = numbers();
    db.set_durability(Durability::Immediate);
    db.create_index("t", "by_v", "v").unwrap();
    for i in 0..50 {
        db.insert("t", &[("v", Value::Integer(i))]).unwrap();
    }
    db.delete("t", 7).unwrap();
    let (log, sync) = db.take_log();
    assert!(sync);
    assert!(!log.is_empty());
    // Nothing but the log survives.
    let mut again = BoogyDb::open(Vec::new(), &log).unwrap();
    let at = again.tables().position("t").unwrap();
    let meta = &again.tables().snapshot()[at];
    let reader = BTreeReader::new(again.page_file(), meta.root_page);
    assert_eq!(reader.scan_all().unwrap().len(), 49);
    assert!(again.get("t", 7).unwrap().is_none());
    assert_eq!(again.get("t", 8).unwrap().unwrap().get("v"), Some(Value::Integer(7)));
    again.insert_with_id("t", 60, &[("v", Value::Integer(1000))]).unwrap();
    assert_eq!(again.insert("t", &[("v", Value::Integer(1))]).unwrap(), 61);

    db.set_durability(Durability::Never);
    db.insert("t", &[("v", Value::Integer(1))]).unwrap();
    assert!(db.take_log().0.is_empty());
}

#[test]
fn records_are_redone_in_their_order() {
    let mut a = Page::new_leaf();
    a.set_num_rows(1);
    a.update_checksum();
    let mut b = Page::new_leaf();
    b.set_num_rows(2);
    b.update_checksum();
    let log = vec![
        LogRecord { table_id: 1, page_no: 0, image: a.data },
        LogRecord { table_id: 1, page_no: 0, image: b.data },
    ];
    let db = BoogyDb::open(Vec::new(), &log).unwrap();
    assert_eq!(db.page_file().read_page(0).unwrap().num_rows(), 2);
}

#[test]
fn encrypted_tables_are_locked_until_their_key_is_given() {
    let key = [9u8; 32];
    let mut images: Vec<[u8; 4096]> = Vec::new();
    {
        let mut db = fresh();
        db.create_table_encrypted("t", &[ColumnDef::new("v", Type::Integer)], &key).unwrap();
        for i in 0..100 {
            db.insert("t", &[("v", Value::Integer(i))]).unwrap();
        }
        let changed = db.shutdown().unwrap();
        write_back(&mut images, changed);
    }
    {
        let mut db = BoogyDb::open(images.clone(), &Vec::new()).unwrap();
        assert!(matches!(db.get("t", 1), Err(BoogyError::TableLocked(_))));
        assert!(db.unlock_table("t", &[1u8; 32]).is_err());
        assert!(matches!(db.unlock_table("nope", &key), Err(BoogyError::TableNotFound(_))));
        db.unlock_table("t", &key).unwrap();
        assert_eq!(db.get("t", 100).unwrap().unwrap().get("v"), Some(Value::Integer(99)));
        assert_eq!(db.count("t", &vec![Filter::eq("v", Value::Integer(5))]).unwrap(), 1);
    }
}

#[test]
fn sealed_bytes_are_not_the_plain_ones() {
    let cipher = Cipher::new(&[3u8; 32]);
    let plain = b"attack at dawn".to_vec();
    let sealed = cipher.encrypt_bytes(&plain).unwrap();
    assert_eq!(sealed.len(), plain.len() + 28);
    assert_ne!(&sealed[12..26], &plain[..]);
    assert_eq!(cipher.decrypt_bytes(&sealed).unwrap(), plain);
    assert!(matches!(cipher.decrypt_bytes(&sealed[..11]), Err(BoogyError::DecryptionFailed(_))));
    assert!(Cipher::new(&[4u8; 32]).decrypt_bytes(&sealed).is_err());
    let fixed = cipher.encrypt_bytes_with(&[0u8; 12], &plain).unwrap();
    assert_eq!(fixed, cipher.encrypt_bytes_with(&[0u8; 12], &plain).unwrap());
    assert_eq!(&fixed[..12], &[0u8; 12]);
}

#[test]
fn checksums_are_those_of_the_bytes_before_them() {
    let mut page = Page::new_leaf();
    page.set_num_rows(17);
    page.update_checksum();
    let stored = u32::from_le_bytes([
        page.data[4092],
        page.data[4093],
        page.data[4094],
        page.data[4095],
    ]);
    assert_eq!(stored, crc32fast::hash(&page.data[..4092]));
}

#[test]
fn results_are_sorted_and_paged() {
    let mut db = numbers();
    for (v, s) in [(2, "b"), (1, "z"), (2, "a"), (3, "c")] {
        db.insert("t", &[("v", Value::Integer(v)), ("s", Value::from(s))]).unwrap();
    }
    let opts = FindOptions {
        sort: vec![Sort::desc("v"), Sort::asc("s")],
        offset: Some(1),
        limit: Some(2),
        include_total: true,
        ..Default::default()
    };
    let r = db.find("t", &opts).unwrap();
    let ids: Vec<u64> = r.rows.iter().map(|x| x.id).collect();
    assert_eq!(ids, vec![3, 1]);
    assert_eq!(r.total, Some(4));
}

#[test]
fn paths_and_names_are_taken_apart() {
    assert!(validate_path("data/my.boogy").is_ok());
    assert!(validate_path("data/..hidden").is_ok());
    assert!(matches!(validate_path("data/../etc"), Err(BoogyError::Io(_))));
    assert!(validate_path("..").is_err());
    assert!(validate_path("a\0b").is_err());
    assert_eq!(vector_mapping_table("docs", "emb"), "__vec_docs_emb");
    assert_eq!(
        parse_vector_mapping_table("__vec_docs_emb_2"),
        Some(("docs".to_string(), "emb_2".to_string()))
    );
    assert_eq!(parse_vector_mapping_table("docs"), None);
    assert_eq!(parse_vector_mapping_table("__vec_docs_"), None);
    let mut db = fresh();
    db.create_table("m", &[ColumnDef::new("node_id", Type::Integer)]).unwrap();
    db.insert_with_id("m", 9, &[("node_id", Value::Integer(4))]).unwrap();
    db.insert_with_id("m", 11, &[("node_id", Value::Null)]).unwrap();
    let rows = db.find("m", &asking(vec![])).unwrap().rows;
    assert_eq!(mappings_of(&rows), vec![(9, 4)]);
}

#[test]
fn numbers_are_converted_like_doubles() {
    assert_eq!(real_of_integer(3), 3.0f64.to_bits());
    assert_eq!(real_of_integer(-7), (-7.0f64).to_bits());
    for i in [0, 1, -1, i64::MAX, i64::MIN, (1 << 53) + 1, 123456789012345678] {
        assert_eq!(real_of_integer(i), (i as f64).to_bits());
    }
    for f in [0.0, -0.0, 2.9, -2.9, 1e300, -1e300, f64::NAN, f64::INFINITY] {
        assert_eq!(integer_of_real(f.to_bits()), f as i64);
    }
}

#[test]
fn values_compare_across_types() {
    let half = Value::Real(1.5f64.to_bits());
    assert!(Filter::lt("x", half.clone()).matches(&Value::Integer(1)));
    assert!(Filter::gt("x", half.clone()).matches(&Value::Integer(2)));
    assert!(Filter::eq("x", Value::Integer(2)).matches(&Value::Real(2.0f64.to_bits())));
    assert!(!Filter::eq("x", Value::from("2")).matches(&Value::Integer(2)));
    assert!(!Filter::ne("x", Value::from("2")).matches(&Value::Integer(2)));
    assert!(Filter::le("x", Value::Boolean(true)).matches(&Value::Boolean(false)));
    assert!(Filter::gt("x", Value::Blob(vec![1, 2])).matches(&Value::Blob(vec![1, 3])));
}

#[test]
fn registries_hand_out_numbers() {
    let mut r = TableRegistry::new();
    let first = r.next_table_id();
    r.register("a".to_string(), vec![ColumnDef::new("x", Type::Integer)], 7);
    r.register("b".to_string(), Vec::new(), 8);
    assert_eq!(r.len(), 2);
    assert_eq!(r.get("a").unwrap().table_id, first);
    assert_eq!(r.get("b").unwrap().table_id, first + 1);
    assert_eq!(r.get("a").unwrap().col_id("x"), Some(0));
    assert_eq!(r.get("a").unwrap().col_type("x"), Some(Type::Integer));
    assert!(r.remove("a").is_some());
    assert!(r.get("a").is_none());
}

#[test]
fn columns_of_a_row_are_found_by_their_numbers() {
    let a = Value::Integer(5);
    let b = Value::Blob(vec![1, 2, 3]);
    let row = encode_row(3, &[(7, &b), (2, &a)]);
    assert_eq!(extract_column(&row, 2).unwrap(), Some(Value::Integer(5)));
    assert_eq!(extract_column(&row, 7).unwrap(), Some(Value::Blob(vec![1, 2, 3])));
    assert_eq!(extract_column(&row, 3).unwrap(), None);
    // The number of the row, the number of columns, then the column table.
    assert_eq!(&row[..8], &3u64.to_le_bytes());
    assert_eq!(&row[8..10], &2u16.to_le_bytes());
    assert_eq!(&row[10..12], &2u16.to_le_bytes());
}

#[test]
fn logs_are_written_and_read_as_bytes() {
    let mut image = [0u8; 4096];
    image[0] = 1;
    image[4095] = 2;
    let records = vec![
        LogRecord { table_id: 3, page_no: 0x01020304, image },
        LogRecord { table_id: 4, page_no: 9, image: [7; 4096] },
    ];
    let mut raw = encode_log(&records);
    assert_eq!(raw.len(), 2 * 4104);
    assert_eq!(&raw[..8], &[3, 0, 0, 0, 4, 3, 2, 1]);
    raw.extend_from_slice(&[5; 4103]);
    let back = decode_log(&raw);
    assert_eq!(back.len(), 2);
    assert_eq!((back[0].table_id, back[0].page_no), (3, 0x01020304));
    assert_eq!(back[0].image, image);
    assert_eq!((back[1].table_id, back[1].page_no), (4, 9));
    assert_eq!(back[1].image, [7; 4096]);
    assert!(decode_log(&[]).is_empty());
}

#[test]
fn a_database_is_the_same_after_it_was_shut_down() {
    let mut db = numbers();
    let rows: Vec<Vec<(&str, Value)>> = (0..1000)
        .map(|i| vec![("v", Value::Integer(i)), ("s", Value::from("some text"))])
        .collect();
    let ids = db.insert_many("t", &rows).unwrap();
    assert_eq!(ids, (1..=1000).collect::<Vec<u64>>());
    db.insert("t", &[("s", Value::from("x".repeat(9000).as_str()))]).unwrap();
    db.create_index("t", "by_v", "v").unwrap();
    let mut images = Vec::new();
    write_back(&mut images, db.shutdown().unwrap());
    let mut again = BoogyDb::open(images, &Vec::new()).unwrap();
    assert_eq!(again.count("t", &vec![]).unwrap(), 1001);
    for id in [1, 500, 1000] {
        assert_eq!(value_of(&again, id, "v"), Some(Value::Integer(id as i64 - 1)));
    }
    assert_eq!(value_of(&again, 1001, "s"), Some(Value::from("x".repeat(9000).as_str())));
    let found = again.find("t", &asking(vec![Filter::eq("v", Value::Integer(77))])).unwrap();
    assert_eq!(found.rows.len(), 1);
    assert_eq!(found.rows[0].id, 78);
    assert_eq!(again.insert("t", &[]).unwrap(), 1002);
}

#[test]
fn columns_that_a_row_had_not_are_set_where_filters_match() {
    let mut db = fresh();
    db.create_table("t", &[ColumnDef::new("a", Type::Integer), ColumnDef::new("b", Type::Integer)])
        .unwrap();
    let id = db.insert("t", &[("a", Value::Integer(1))]).unwrap();
    let n = db.update_where(
        "t",
        &[Filter::eq("a", Value::Integer(1))],
        &[("b", Value::Integer(5))],
    );
    assert_eq!(n.unwrap(), 1);
    assert_eq!(value_of(&db, id, "b"), Some(Value::Integer(5)));
    assert_eq!(value_of(&db, id, "a"), Some(Value::Integer(1)));
}

#[test]
fn rows_that_grow_over_the_limit_are_refused() {
    let mut db = numbers();
    let id = db.insert("t", &[("s", Value::from("a"))]).unwrap();
    db.set_max_row_size(50);
    let long = "x".repeat(100);
    for acid in [false, true] {
        db.set_acid(acid);
        let r = db.update("t", id, &[("s", Value::from(long.as_str()))]);
        assert!(matches!(r, Err(BoogyError::RowTooLarge(119))));
        let filter = [Filter::eq("s", Value::from("a"))];
        let r = db.update_where("t", &filter, &[("s", Value::from(long.as_str()))]);
        assert!(matches!(r, Err(BoogyError::RowTooLarge(119))));
        assert_eq!(value_of(&db, id, "s"), Some(Value::from("a")));
    }
}

#[test]
fn an_index_is_built_from_the_rows_that_are_there() {
    let mut db = numbers();
    for i in 0..200i64 {
        db.insert("t", &[("v", Value::Integer(i % 5))]).unwrap();
    }
    let before = db.find("t", &asking(vec![Filter::eq("v", Value::Integer(3))])).unwrap();
    db.create_index("t", "by_v", "v").unwrap();
    let after = db.find("t", &asking(vec![Filter::eq("v", Value::Integer(3))])).unwrap();
    let ids = |f: &boogy_db::query::FindResult| f.rows.iter().map(|r| r.id).collect::<Vec<u64>>();
    assert_eq!(ids(&before).len(), 40);
    assert_eq!(ids(&before), ids(&after));
}

#[test]
fn equality_with_null_and_between_numbers_is_the_same_with_an_index() {
    let mut plain = numbers();
    let mut indexed = numbers();
    indexed.create_index("t", "by_v", "v").unwrap();
    for db in [&mut plain, &mut indexed] {
        db.insert("t", &[("v", Value::Integer(1))]).unwrap();
        db.insert("t", &[("v", Value::Integer(2))]).unwrap();
        db.insert("t", &[("s", Value::from("none"))]).unwrap();
        let found = |value: Value| {
            let f = db.find("t", &asking(vec![Filter::eq("v", value)])).unwrap();
            f.rows.iter().map(|r| r.id).collect::<Vec<u64>>()
        };
        assert_eq!(found(Value::Null), vec![3]);
        assert_eq!(found(Value::Real(1.5f64.to_bits())), Vec::<u64>::new());
        assert_eq!(found(Value::Real(2f64.to_bits())), vec![2]);
        assert_eq!(found(Value::Integer(1)), vec![1]);
        assert_eq!(db.count("t", &vec![Filter::eq("v", Value::Null)]).unwrap(), 1);
        let half = Filter::eq("v", Value::Real(1.5f64.to_bits()));
        assert_eq!(db.count("t", &vec![half]).unwrap(), 0);
    }
}

#[test]
fn a_failed_operation_leaves_a_transaction_as_it_was() {
    let mut db = numbers();
    db.set_acid(true);
    db.set_max_row_size(60);
    match db.begin().unwrap() {
        Transaction::Acid(mut tx) => {
            tx.insert("t", &[("v", Value::Integer(1))]).unwrap();
            let long = "x".repeat(100);
            assert!(tx.insert("t", &[("s", Value::from(long.as_str()))]).is_err());
            let many = vec![
                vec![("v", Value::Integer(2))],
                vec![("s", Value::from(long.as_str()))],
            ];
            assert!(tx.insert_many("t", &many).is_err());
            assert_eq!(tx.insert("t", &[("v", Value::Integer(3))]).unwrap(), 2);
            tx.commit().unwrap();
        }
        Transaction::Light(_) => panic!("ACID mode is on"),
    }
    assert_eq!(db.count("t", &vec![]).unwrap(), 2);
    assert_eq!(value_of(&db, 2, "v"), Some(Value::Integer(3)));
}

#[test]
fn a_row_with_a_column_out_of_reach_is_refused() {
    let mut db = fresh();
    db.create_table("t", &[ColumnDef::new("a", Type::Text), ColumnDef::new("b", Type::Text)])
        .unwrap();
    let long = "x".repeat(70000);
    for acid in [false, true] {
        db.set_acid(acid);
        // The last column may be long; nothing can stand behind it.
        let id = db.insert("t", &[("b", Value::from(long.as_str()))]).unwrap();
        assert_eq!(value_of(&db, id, "b"), Some(Value::from(long.as_str())));
        let r = db.insert("t", &[("a", Value::from(long.as_str())), ("b", Value::from("y"))]);
        assert!(matches!(r, Err(BoogyError::RowTooLarge(_))));
        let r = db.update("t", id, &[("a", Value::from(long.as_str()))]);
        assert!(matches!(r, Err(BoogyError::RowTooLarge(_))));
        let r = db.update_where("t", &[], &[("a", Value::from(long.as_str()))]);
        assert!(matches!(r, Err(BoogyError::RowTooLarge(_))));
        assert_eq!(value_of(&db, id, "a"), None);
        assert_eq!(value_of(&db, id, "b"), Some(Value::from(long.as_str())));
    }
    assert_eq!(db.count("t", &vec![]).unwrap(), 2);
}
