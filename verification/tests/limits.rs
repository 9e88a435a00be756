//! How much pages, rows and index keys hold.

use boogy_db::btree::BTreeReader;
use boogy_db::btree_node::{
    find_overflow_split_point, write_leaf_range, write_leaf_with_insert,
    write_leaf_with_replacements,
};
use boogy_db::btree_writer::BTreeWriter;
use boogy_db::db::BoogyDb;
use boogy_db::error::BoogyError;
use boogy_db::file::PageFile;
use boogy_db::filter::{Filter, FindOptions};
use boogy_db::overflow::{build_overflow_page, read_overflow_payload, OVERFLOW_PAYLOAD_MAX};
use boogy_db::page::Page;
use boogy_db::transaction::Transaction;
use boogy_db::value::{ColumnDef, Type, Value};

/// A row of a given length.
fn row_of(id: u64, len: usize) -> Vec<u8> {
    let mut row = id.to_le_bytes().to_vec();
    row.resize(len, 1);
    row
}

/// A leaf with rows of given lengths.
fn leaf_of(lens: &[usize]) -> Page {
    let mut leaf = Page::new_leaf();
    for (i, len) in lens.iter().enumerate() {
        let before = leaf.duplicate();
        write_leaf_with_insert(&mut leaf, &before, i, &row_of(10 * i as u64, *len));
    }
    leaf.set_next_leaf(7);
    leaf.set_prev_leaf(5);
    leaf
}

fn texts() -> BoogyDb {
    let mut db = BoogyDb::open(Vec::new(), &Vec::new()).unwrap();
    db.create_table("t", &[ColumnDef::new("s", Type::Text), ColumnDef::new("v", Type::Integer)])
        .unwrap();
    db
}

fn text(c: &str, n: usize) -> Value {
    Value::Text(c.repeat(n))
}

fn ids(db: &BoogyDb, filter: Filter) -> Vec<u64> {
    let opts = FindOptions { filters: vec![filter], ..Default::default() };
    db.find("t", &opts).unwrap().rows.iter().map(|r| r.id).collect()
}

#[test]
fn rows_may_end_where_the_checksum_starts() {
    let leaf = leaf_of(&[2000, 2068]);
    assert_eq!(leaf.free_space_offset(), 16 + 4 + 4068);
    let mut page = Page::new_leaf();
    // 16 bytes of header, two offsets, and 4072 bytes of rows end at 4092.
    let longer = row_of(10, 2072);
    assert!(write_leaf_with_replacements(&mut page, &leaf, &[(1, longer.as_slice())]));
    assert_eq!(page.free_space_offset(), 4092);
    assert_eq!((page.next_leaf(), page.prev_leaf()), (7, 5));
    assert!(page.verify_checksum());
    let mut untouched = Page::new_leaf();
    let before = untouched.data;
    let too_long = row_of(10, 2073);
    assert!(!write_leaf_with_replacements(&mut untouched, &leaf, &[(1, too_long.as_slice())]));
    assert_eq!(untouched.data, before);
}

#[test]
fn a_leaf_is_split_so_that_both_parts_end_before_the_checksum() {
    let leaf = leaf_of(&[2000, 1990, 10]);
    let new = row_of(15, 60);
    let mid = find_overflow_split_point(&leaf, 2, &new);
    assert_eq!(mid, 3);
    let mut left = Page::new_leaf();
    write_leaf_range(&mut left, &leaf, 2, &new, 0, mid);
    assert_eq!(left.num_rows(), 3);
    assert_eq!(left.free_space_offset(), 16 + 6 + 4050);
    let mut right = Page::new_leaf();
    write_leaf_range(&mut right, &leaf, 2, &new, mid, 4);
    assert_eq!((right.num_rows(), right.free_space_offset()), (1, 28));
}

#[test]
fn an_overflow_page_holds_all_bytes_up_to_its_checksum() {
    assert_eq!(OVERFLOW_PAYLOAD_MAX, 4076);
    let payload: Vec<u8> = (0..4076u32).map(|i| (i % 251) as u8).collect();
    let page = build_overflow_page(&payload, 9);
    assert!(page.verify_checksum());
    assert_eq!(page.overflow_next(), 9);
    assert_eq!(read_overflow_payload(&page), payload.as_slice());
}

#[test]
fn rows_that_fit_into_a_page_stay_in_one() {
    let mut guard = PageFile::open(Vec::new()).begin_write();
    let mut root = BTreeWriter::create(&mut guard).unwrap();
    let mut tree = BTreeWriter::new(root);
    let long = row_of(1, 4074);
    root = tree.insert(&mut guard, 1, &long).unwrap();
    let page = guard.read_page(root).unwrap();
    assert_eq!((page.num_rows(), page.free_space_offset()), (1, 4092));
    // The next row gives the tree a second leaf and a root, and no overflow page.
    let next = row_of(2, 3000);
    root = tree.insert(&mut guard, 2, &next).unwrap();
    let pf = guard.commit().0;
    assert_eq!(pf.page_count(), 3);
    let reader = BTreeReader::new(&pf, root);
    assert_eq!(reader.search(1).unwrap(), Some(long));
    assert_eq!(reader.search(2).unwrap(), Some(next));
}

#[test]
fn pages_that_are_to_be_encrypted_end_earlier() {
    let mut guard = PageFile::open(Vec::new()).begin_write();
    guard.set_sealed(true);
    let mut root = BTreeWriter::create(&mut guard).unwrap();
    let mut tree = BTreeWriter::new(root);
    let mut rows: Vec<Vec<u8>> = Vec::new();
    for (i, len) in [4050usize, 4051, 300, 2500, 2500, 9000, 17, 4050].iter().enumerate() {
        rows.push(row_of(i as u64, *len));
        root = tree.insert(&mut guard, i as u64, &rows[i]).unwrap();
    }
    let pf = guard.commit().0;
    for n in 0..pf.page_count() {
        let page = pf.read_page(n).unwrap();
        assert!(page.data[4068..4092].iter().all(|b| *b == 0));
    }
    let reader = BTreeReader::new(&pf, root);
    for (i, row) in rows.iter().enumerate() {
        assert_eq!(reader.search(i as u64).unwrap().as_ref(), Some(row));
    }
}

#[test]
fn encrypted_rows_of_all_lengths_are_given_back() {
    let key = [9u8; 32];
    let mut db = BoogyDb::open(Vec::new(), &Vec::new()).unwrap();
    let columns = [ColumnDef::new("s", Type::Text)];
    db.create_table_encrypted("t", &columns, &key).unwrap();
    db.create_table("plain", &columns).unwrap();
    let lens = [1usize, 1990, 2010, 2600, 3990, 4030, 4040, 4060, 4100, 9000, 13000];
    for table in ["t", "plain"] {
        for len in lens {
            db.insert(table, &[("s", text("k", len))]).unwrap();
        }
    }
    let mut images: Vec<[u8; 4096]> = Vec::new();
    for (page_no, image) in db.shutdown().unwrap() {
        while images.len() <= page_no as usize {
            images.push([0; 4096]);
        }
        images[page_no as usize] = image;
    }
    let mut again = BoogyDb::open(images, &Vec::new()).unwrap();
    again.unlock_table("t", &key).unwrap();
    for table in ["t", "plain"] {
        for (i, len) in lens.iter().enumerate() {
            let row = again.get(table, i as u64 + 1).unwrap().unwrap();
            assert_eq!(row.get("s"), Some(text("k", *len)));
        }
    }
}

#[test]
fn an_index_takes_long_texts() {
    let mut db = texts();
    db.create_index("t", "by_s", "s").unwrap();
    for i in 0..40usize {
        let c = ["a", "b", "c", "d"][i % 4];
        db.insert("t", &[("s", text(c, 1400 + 10 * i))]).unwrap();
    }
    for i in 0..40usize {
        let c = ["a", "b", "c", "d"][i % 4];
        assert_eq!(ids(&db, Filter::eq("s", text(c, 1400 + 10 * i))), vec![i as u64 + 1]);
    }
    assert!(db.delete("t", 7).unwrap());
    assert_eq!(ids(&db, Filter::eq("s", text("c", 1460))), Vec::<u64>::new());
}

#[test]
fn a_key_that_an_index_cannot_hold_changes_nothing() {
    let mut db = texts();
    db.create_index("t", "by_s", "s").unwrap();
    db.insert("t", &[("s", Value::from("one")), ("v", Value::Integer(1))]).unwrap();
    db.insert("t", &[("s", Value::from("two")), ("v", Value::Integer(2))]).unwrap();
    let long = text("x", 2100);
    assert!(matches!(db.insert("t", &[("s", long.clone())]), Err(BoogyError::PageFull)));
    assert!(matches!(
        db.insert_with_id("t", 50, &[("s", long.clone())]),
        Err(BoogyError::PageFull)
    ));
    assert!(matches!(
        db.insert_with_id("t", 1, &[("s", long.clone())]),
        Err(BoogyError::DuplicateKey(1))
    ));
    assert!(matches!(
        db.insert_many("t", &[vec![("s", Value::from("three"))], vec![("s", long.clone())]]),
        Err(BoogyError::PageFull)
    ));
    assert!(matches!(db.update("t", 1, &[("s", long.clone())]), Err(BoogyError::PageFull)));
    assert!(matches!(
        db.update_where("t", &[Filter::ge("v", Value::Integer(1))], &[("s", long.clone())]),
        Err(BoogyError::PageFull)
    ));
    assert_eq!(db.count("t", &vec![]).unwrap(), 2);
    assert_eq!(ids(&db, Filter::eq("s", Value::from("one"))), vec![1]);
    assert_eq!(ids(&db, Filter::eq("s", Value::from("two"))), vec![2]);
    assert_eq!(ids(&db, Filter::eq("s", Value::from("three"))), Vec::<u64>::new());
    db.set_acid(true);
    match db.begin().unwrap() {
        Transaction::Acid(mut tx) => {
            tx.insert("t", &[("s", Value::from("four"))]).unwrap();
            assert!(matches!(tx.insert("t", &[("s", long.clone())]), Err(BoogyError::PageFull)));
            assert!(matches!(tx.update("t", 2, &[("s", long.clone())]), Err(BoogyError::PageFull)));
            tx.commit().unwrap();
        }
        Transaction::Light(_) => panic!("ACID mode is on"),
    }
    assert_eq!(db.count("t", &vec![]).unwrap(), 3);
    assert_eq!(ids(&db, Filter::eq("s", Value::from("two"))), vec![2]);
}

#[test]
fn an_index_is_not_created_on_texts_that_it_cannot_hold() {
    let mut db = texts();
    db.insert("t", &[("s", Value::from("short")), ("v", Value::Integer(1))]).unwrap();
    db.insert("t", &[("s", text("y", 2500)), ("v", Value::Integer(2))]).unwrap();
    assert!(matches!(db.create_index("t", "by_s", "s"), Err(BoogyError::PageFull)));
    assert_eq!(ids(&db, Filter::eq("s", text("y", 2500))), vec![2]);
    db.create_index("t", "by_v", "v").unwrap();
    assert!(db.delete("t", 2).unwrap());
    db.create_index("t", "by_s", "s").unwrap();
    assert_eq!(ids(&db, Filter::eq("s", Value::from("short"))), vec![1]);
}

#[test]
fn an_index_changes_no_answer() {
    let mut db = texts();
    for i in 0..120i64 {
        let s = format!("text {}", i % 11);
        let mut data = vec![("s", Value::from(s.as_str()))];
        if i % 3 > 0 {
            data.push(("v", Value::Integer(i % 5)));
        }
        db.insert("t", &data).unwrap();
    }
    let ask = |db: &BoogyDb, filter: Filter| {
        let opts = FindOptions {
            filters: vec![filter],
            include_total: true,
            offset: Some(2),
            limit: Some(5),
            ..Default::default()
        };
        let found = db.find("t", &opts).unwrap();
        (found.rows.iter().map(|r| r.id).collect::<Vec<u64>>(), found.total)
    };
    let filters = || vec![
        Filter::eq("v", Value::Integer(2)),
        Filter::eq("v", Value::Integer(77)),
        Filter::eq("s", Value::from("text 4")),
        Filter::gt("v", Value::Integer(3)),
    ];
    let before: Vec<_> = filters().into_iter().map(|f| ask(&db, f)).collect();
    assert_eq!(before[0].1, Some(16));
    db.create_index("t", "by_v", "v").unwrap();
    db.create_index("t", "by_s", "s").unwrap();
    let after: Vec<_> = filters().into_iter().map(|f| ask(&db, f)).collect();
    assert_eq!(before, after);
}

#[test]
fn rows_that_match_are_updated_or_reported_once() {
    let mut guard = PageFile::open(Vec::new()).begin_write();
    let root = BTreeWriter::create(&mut guard).unwrap();
    let mut tree = BTreeWriter::new(root);
    for i in 0..60u64 {
        tree.insert(&mut guard, i, &row_of(i, 100 + 10 * i as usize)).unwrap();
    }
    let chosen = |row: &[u8]| row[0] % 2 == 0;
    let renew = |row: &[u8]| {
        let mut new = row.to_vec();
        new.resize(row.len() + 40, 2);
        new
    };
    let old = tree.scan_all_w(&guard).unwrap();
    let (updated, moved) = tree.update_matching(&mut guard, chosen, renew).unwrap();
    assert!(!updated.is_empty() && !moved.is_empty());
    let mut seen: Vec<u64> = updated.iter().chain(moved.iter()).map(|c| c.0).collect();
    seen.sort();
    assert_eq!(seen, (0..60u64).filter(|i| i % 2 == 0).collect::<Vec<u64>>());
    for (id, was, new) in updated.iter().chain(moved.iter()) {
        assert_eq!(*was, row_of(*id, 100 + 10 * *id as usize));
        assert_eq!(*new, renew(was));
    }
    let now = tree.scan_all_w(&guard).unwrap();
    assert_eq!(now.len(), old.len());
    for (a, b) in old.iter().zip(now.iter()) {
        assert_eq!(a.0, b.0);
        match updated.iter().find(|c| c.0 == a.0) {
            Some(c) => assert_eq!(b.1, c.2),
            None => assert_eq!(b.1, a.1),
        }
    }
}
