//! What survives a crash, a reopened file and a missing key.

use boogy_db::db::BoogyDb;
use boogy_db::error::BoogyError;
use boogy_db::filter::{Filter, FindOptions};
use boogy_db::page::Page;
use boogy_db::transaction::Transaction;
use boogy_db::value::{ColumnDef, Type, Value};

fn fresh() -> BoogyDb {
    BoogyDb::open(Vec::new(), &Vec::new()).unwrap()
}

fn text_of(n: usize) -> Value {
    Value::Text("x".repeat(n))
}

fn images_of(mut db: BoogyDb) -> Vec<[u8; 4096]> {
    let mut images: Vec<[u8; 4096]> = Vec::new();
    for (page_no, image) in db.shutdown().unwrap() {
        while images.len() <= page_no as usize {
            images.push([0; 4096]);
        }
        images[page_no as usize] = image;
    }
    images
}

fn ids(db: &BoogyDb, table: &str, filter: Filter) -> Vec<u64> {
    let opts = FindOptions { filters: vec![filter], ..Default::default() };
    db.find(table, &opts).unwrap().rows.iter().map(|r| r.id).collect()
}

#[test]
fn a_crash_keeps_roots_counts_and_next_numbers() {
    let mut db = fresh();
    db.create_table("t", &[ColumnDef::new("v", Type::Integer), ColumnDef::new("s", Type::Text)])
        .unwrap();
    db.create_index("t", "by_v", "v").unwrap();
    // Enough rows to give the tree and the index new roots after the table was created.
    for i in 0..400 {
        db.insert("t", &[("v", Value::Integer(i % 10)), ("s", text_of(60))]).unwrap();
    }
    db.delete("t", 5).unwrap();
    let (log, _) = db.take_log();
    let mut again = BoogyDb::open(Vec::new(), &log).unwrap();
    assert_eq!(again.count("t", &vec![]).unwrap(), 399);
    assert!(again.get("t", 5).unwrap().is_none());
    assert_eq!(again.get("t", 400).unwrap().unwrap().get("v"), Some(Value::Integer(9)));
    assert_eq!(ids(&again, "t", Filter::eq("v", Value::Integer(3))).len(), 40);
    assert_eq!(again.insert("t", &[("v", Value::Integer(0))]).unwrap(), 401);
}

#[test]
fn a_committed_transaction_survives_a_crash() {
    let mut db = fresh();
    db.create_table("a", &[ColumnDef::new("v", Type::Integer)]).unwrap();
    db.create_table("b", &[ColumnDef::new("v", Type::Integer)]).unwrap();
    db.set_acid(true);
    match db.begin().unwrap() {
        Transaction::Acid(mut tx) => {
            tx.insert("a", &[("v", Value::Integer(1))]).unwrap();
            tx.insert("b", &[("v", Value::Integer(2))]).unwrap();
            tx.commit().unwrap();
        }
        Transaction::Light(_) => panic!("ACID mode is on"),
    }
    let (log, _) = db.take_log();
    let again = BoogyDb::open(Vec::new(), &log).unwrap();
    assert_eq!(again.get("a", 1).unwrap().unwrap().get("v"), Some(Value::Integer(1)));
    assert_eq!(again.get("b", 1).unwrap().unwrap().get("v"), Some(Value::Integer(2)));
    assert_eq!(again.count("b", &vec![]).unwrap(), 1);
}

#[test]
fn the_key_of_an_empty_encrypted_table_fits_after_reopening() {
    let key = [7u8; 32];
    let mut db = fresh();
    db.create_table_encrypted("t", &[ColumnDef::new("v", Type::Integer)], &key).unwrap();
    let mut again = BoogyDb::open(images_of(db), &Vec::new()).unwrap();
    assert!(matches!(again.unlock_table("t", &[8u8; 32]), Err(BoogyError::InvalidKey(_))));
    again.unlock_table("t", &key).unwrap();
    assert_eq!(again.insert("t", &[("v", Value::Integer(1))]).unwrap(), 1);
}

#[test]
fn unlocking_gives_back_full_pages_indexes_and_long_rows() {
    let key = [7u8; 32];
    let mut db = fresh();
    let columns = [ColumnDef::new("v", Type::Integer), ColumnDef::new("s", Type::Text)];
    db.create_table_encrypted("t", &columns, &key).unwrap();
    db.create_table("plain", &columns).unwrap();
    db.create_index("t", "by_v", "v").unwrap();
    for i in 0..300usize {
        let s = text_of(1 + i % 97);
        db.insert("t", &[("v", Value::Integer(i as i64)), ("s", s)]).unwrap();
    }
    db.insert("t", &[("v", Value::Integer(7)), ("s", text_of(20000))]).unwrap();
    db.insert("plain", &[("v", Value::Integer(1))]).unwrap();
    let images = images_of(db);
    let mut again = BoogyDb::open(images, &Vec::new()).unwrap();
    // The other table can be used while this one is locked.
    assert!(matches!(again.get("t", 1), Err(BoogyError::TableLocked(_))));
    assert_eq!(ids(&again, "plain", Filter::eq("v", Value::Integer(1))), vec![1]);
    again.insert("plain", &[("v", Value::Integer(2))]).unwrap();
    again.unlock_table("t", &key).unwrap();
    for i in 0..300usize {
        let row = again.get("t", i as u64 + 1).unwrap().unwrap();
        assert_eq!(row.get("s"), Some(text_of(1 + i % 97)));
    }
    assert_eq!(again.get("t", 301).unwrap().unwrap().get("s"), Some(text_of(20000)));
    assert_eq!(ids(&again, "t", Filter::eq("v", Value::Integer(7))), vec![8, 301]);
    again.update("t", 8, &[("v", Value::Integer(1000))]).unwrap();
    assert_eq!(ids(&again, "t", Filter::eq("v", Value::Integer(7))), vec![301]);
    assert_eq!(ids(&again, "plain", Filter::eq("v", Value::Integer(2))), vec![2]);
}

#[test]
fn a_transaction_over_tables_keeps_each_key_to_its_table() {
    let (one, two) = ([1u8; 32], [2u8; 32]);
    let columns = [ColumnDef::new("v", Type::Integer)];
    let mut db = fresh();
    db.create_table_encrypted("a", &columns, &one).unwrap();
    db.create_table_encrypted("b", &columns, &two).unwrap();
    db.create_table("c", &columns).unwrap();
    db.set_acid(true);
    match db.begin().unwrap() {
        Transaction::Acid(mut tx) => {
            tx.insert("a", &[("v", Value::Integer(1))]).unwrap();
            tx.insert("b", &[("v", Value::Integer(2))]).unwrap();
            tx.insert("c", &[("v", Value::Integer(3))]).unwrap();
            tx.commit().unwrap();
        }
        Transaction::Light(_) => panic!("ACID mode is on"),
    }
    let (log, _) = db.take_log();
    for mut again in [
        BoogyDb::open(Vec::new(), &log).unwrap(),
        BoogyDb::open(images_of(db), &Vec::new()).unwrap(),
    ] {
        assert_eq!(again.get("c", 1).unwrap().unwrap().get("v"), Some(Value::Integer(3)));
        again.unlock_table("a", &one).unwrap();
        assert!(matches!(again.unlock_table("b", &one), Err(BoogyError::InvalidKey(_))));
        again.unlock_table("b", &two).unwrap();
        assert_eq!(again.get("a", 1).unwrap().unwrap().get("v"), Some(Value::Integer(1)));
        assert_eq!(again.get("b", 1).unwrap().unwrap().get("v"), Some(Value::Integer(2)));
    }
}

#[test]
fn one_changed_byte_shows_in_the_checksum() {
    let mut page = Page::new_leaf();
    page.set_num_rows(3);
    page.update_checksum();
    // The remainder of a division by the polynomial, one bit at a time.
    let mut c: u32 = 0xFFFF_FFFF;
    for b in &page.data[..4092] {
        c ^= *b as u32;
        for _ in 0..8 {
            c = if c & 1 == 1 { (c >> 1) ^ 0xEDB8_8320 } else { c >> 1 };
        }
    }
    assert_eq!(&page.data[4092..], &(!c).to_le_bytes());
    assert!(page.verify_checksum());
    for i in [4usize, 16, 2000, 4091, 4092, 4095] {
        let before = page.data[i];
        page.data[i] ^= 0x40;
        assert!(!page.verify_checksum());
        page.data[i] = before;
    }
    assert!(page.verify_checksum());
}
