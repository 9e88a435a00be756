//! The database.

use boogy_db::btree::BTreeReader;
use boogy_db::db::{BoogyDb, Durability};
use boogy_db::filter::{Filter, FindOptions, Sort};
use boogy_db::transaction::TransactionCtx;
use boogy_db::value::{ColumnDef, Type, Value};

/// The page images that a database is opened from and written back to.
struct Disk {
    images: Vec<[u8; 4096]>,
}

impl Disk {
    fn new() -> Disk {
        Disk { images: Vec::new() }
    }

    fn open(&self) -> BoogyDb {
        BoogyDb::open(self.images.clone(), &Vec::new()).unwrap()
    }

    fn close(&mut self, mut db: BoogyDb) {
        for (page_no, image) in db.shutdown().unwrap() {
            while self.images.len() <= page_no as usize {
                self.images.push([0; 4096]);
            }
            self.images[page_no as usize] = image;
        }
    }
}

#[test]
fn test_insert_and_get() {
    let mut db = Disk::new().open();
    db.create_table("users", &[ColumnDef::new("name", Type::Text)]).unwrap();
    let id = db.insert("users", &[("name", Value::Text("alice".into()))]).unwrap();
    let row = db.get("users", id).unwrap().unwrap();
    assert_eq!(row.get("name").unwrap(), Value::Text("alice".into()));
}

#[test]
fn test_insert_returns_sequential_ids() {
    let mut db = Disk::new().open();
    db.create_table("t", &[ColumnDef::new("v", Type::Integer)]).unwrap();
    let id1 = db.insert("t", &[("v", Value::Integer(1))]).unwrap();
    let id2 = db.insert("t", &[("v", Value::Integer(2))]).unwrap();
    let id3 = db.insert("t", &[("v", Value::Integer(3))]).unwrap();
    assert_eq!(id1, 1);
    assert_eq!(id2, 2);
    assert_eq!(id3, 3);
}

#[test]
fn test_insert_with_id() {
    let mut db = Disk::new().open();
    db.create_table("t", &[ColumnDef::new("v", Type::Integer)]).unwrap();
    db.insert_with_id("t", 100, &[("v", Value::Integer(42))]).unwrap();
    let row = db.get("t", 100).unwrap().unwrap();
    assert_eq!(row.id, 100);
    assert_eq!(row.get("v").unwrap(), Value::Integer(42));
    // next auto-id should be past 100
    let id = db.insert("t", &[("v", Value::Integer(99))]).unwrap();
    assert_eq!(id, 101);
}

#[test]
fn test_update() {
    let mut db = Disk::new().open();
    db.create_table("users", &[ColumnDef::new("name", Type::Text)]).unwrap();
    let id = db.insert("users", &[("name", Value::Text("alice".into()))]).unwrap();
    db.update("users", id, &[("name", Value::Text("bob".into()))]).unwrap();
    let row = db.get("users", id).unwrap().unwrap();
    assert_eq!(row.get("name").unwrap(), Value::Text("bob".into()));
}

#[test]
fn db_test_delete() {
    let mut db = Disk::new().open();
    db.create_table("users", &[ColumnDef::new("name", Type::Text)]).unwrap();
    let id = db.insert("users", &[("name", Value::Text("alice".into()))]).unwrap();
    assert!(db.delete("users", id).unwrap());
    assert!(db.get("users", id).unwrap().is_none());
}

#[test]
fn test_table_not_found() {
    let mut db = Disk::new().open();
    assert!(db.insert("nope", &[]).is_err());
}

#[test]
fn test_get_not_found() {
    let mut db = Disk::new().open();
    db.create_table("t", &[ColumnDef::new("x", Type::Integer)]).unwrap();
    assert!(db.get("t", 999).unwrap().is_none());
}

#[test]
fn test_count() {
    let mut db = Disk::new().open();
    db.create_table("t", &[ColumnDef::new("v", Type::Integer)]).unwrap();
    db.insert("t", &[("v", Value::Integer(1))]).unwrap();
    db.insert("t", &[("v", Value::Integer(2))]).unwrap();
    assert_eq!(db.count("t", &vec![]).unwrap(), 2);
}

#[test]
fn test_find_with_filter() {
    let mut db = Disk::new().open();
    db.create_table("t", &[ColumnDef::new("v", Type::Integer)]).unwrap();
    db.insert("t", &[("v", Value::Integer(1))]).unwrap();
    db.insert("t", &[("v", Value::Integer(2))]).unwrap();
    db.insert("t", &[("v", Value::Integer(3))]).unwrap();
    let opts = FindOptions {
        filters: vec![Filter::gt("v", Value::from(1i64))],
        include_total: true,
        ..Default::default()
    };
    let result = db.find("t", &opts).unwrap();
    assert_eq!(result.total, Some(2));
    assert_eq!(result.rows.len(), 2);
}

#[test]
fn test_find_with_sort_and_pagination() {
    let mut db = Disk::new().open();
    db.create_table("t", &[ColumnDef::new("v", Type::Integer)]).unwrap();
    for i in 0..10 {
        db.insert("t", &[("v", Value::Integer(i))]).unwrap();
    }
    let opts = FindOptions {
        sort: vec![Sort::desc("v")],
        limit: Some(3),
        offset: Some(0),
        include_total: true,
        ..Default::default()
    };
    let result = db.find("t", &opts).unwrap();
    assert_eq!(result.total, Some(10));
    assert_eq!(result.rows.len(), 3);
    assert_eq!(result.rows[0].get("v").unwrap(), Value::Integer(9));
}

#[test]
fn test_transaction() {
    let mut db = Disk::new().open();
    db.create_table("a", &[ColumnDef::new("v", Type::Integer)]).unwrap();
    db.create_table("b", &[ColumnDef::new("v", Type::Integer)]).unwrap();
    {
        let mut tx = TransactionCtx { db: &mut db };
        tx.insert("a", &[("v", Value::Integer(1))]).unwrap();
        tx.insert("b", &[("v", Value::Integer(2))]).unwrap();
    }
    db.flush_transaction().unwrap();
    assert_eq!(db.count("a", &vec![]).unwrap(), 1);
    assert_eq!(db.count("b", &vec![]).unwrap(), 1);
}

#[test]
fn test_many_inserts() {
    let mut db = Disk::new().open();
    db.create_table("t", &[ColumnDef::new("v", Type::Integer)]).unwrap();
    for i in 0..100 {
        db.insert("t", &[("v", Value::Integer(i))]).unwrap();
    }
    assert_eq!(db.count("t", &vec![]).unwrap(), 100);
}

// --- New tests for WAL, persistence, and durability ---

#[test]
fn test_data_persists_across_reopen() {
    let mut disk = Disk::new();
    {
        let mut db = disk.open();
        db.create_table("users", &[ColumnDef::new("name", Type::Text)]).unwrap();
        db.insert("users", &[("name", Value::Text("alice".into()))]).unwrap();
        db.insert("users", &[("name", Value::Text("bob".into()))]).unwrap();
        disk.close(db);
    }
    {
        let mut db = disk.open();
        let count = db.count("users", &vec![]).unwrap();
        assert_eq!(count, 2);
        disk.close(db);
    }
}

#[test]
fn test_multiple_tables_persist() {
    let mut disk = Disk::new();
    {
        let mut db = disk.open();
        db.create_table("users", &[ColumnDef::new("name", Type::Text)]).unwrap();
        db.create_table("posts", &[
            ColumnDef::new("title", Type::Text),
            ColumnDef::new("likes", Type::Integer),
        ]).unwrap();
        db.insert("users", &[("name", Value::Text("alice".into()))]).unwrap();
        db.insert("posts", &[
            ("title", Value::Text("hello".into())),
            ("likes", Value::Integer(5)),
        ]).unwrap();
        db.insert("posts", &[
            ("title", Value::Text("world".into())),
            ("likes", Value::Integer(10)),
        ]).unwrap();
        disk.close(db);
    }
    {
        let mut db = disk.open();
        assert_eq!(db.count("users", &vec![]).unwrap(), 1);
        assert_eq!(db.count("posts", &vec![]).unwrap(), 2);

        // Verify data is correct
        let opts = FindOptions {
            filters: vec![Filter::eq("title", Value::from("world"))],
            ..Default::default()
        };
        let result = db.find("posts", &opts).unwrap();
        assert_eq!(result.rows.len(), 1);
        assert_eq!(
            result.rows[0].get("likes").unwrap(),
            Value::Integer(10)
        );
        disk.close(db);
    }
}

#[test]
fn test_durability_immediate() {
    let mut disk = Disk::new();
    {
        let mut db = disk.open();
        db.set_durability(Durability::Immediate);
        db.create_table("t", &[ColumnDef::new("v", Type::Integer)]).unwrap();
        db.insert("t", &[("v", Value::Integer(1))]).unwrap();
        db.insert("t", &[("v", Value::Integer(2))]).unwrap();
        disk.close(db);
    }
    {
        let mut db = disk.open();
        assert_eq!(db.count("t", &vec![]).unwrap(), 2);
        disk.close(db);
    }
}

#[test]
fn test_durability_none() {
    let mut db = Disk::new().open();
    db.set_durability(Durability::Never);
    db.create_table("t", &[ColumnDef::new("v", Type::Integer)]).unwrap();
    db.insert("t", &[("v", Value::Integer(1))]).unwrap();
    assert_eq!(db.count("t", &vec![]).unwrap(), 1);
}

#[test]
fn test_drop_table_persists() {
    let mut disk = Disk::new();
    {
        let mut db = disk.open();
        db.create_table("a", &[ColumnDef::new("v", Type::Integer)]).unwrap();
        db.create_table("b", &[ColumnDef::new("v", Type::Integer)]).unwrap();
        db.insert("a", &[("v", Value::Integer(1))]).unwrap();
        db.insert("b", &[("v", Value::Integer(2))]).unwrap();
        db.drop_table("a").unwrap();
        disk.close(db);
    }
    {
        let mut db = disk.open();
        assert!(db.get("a", 1).is_err()); // table "a" should not exist
        assert_eq!(db.count("b", &vec![]).unwrap(), 1);
        disk.close(db);
    }
}

#[test]
fn test_reopen_and_continue_inserting() {
    let mut disk = Disk::new();
    {
        let mut db = disk.open();
        db.create_table("t", &[ColumnDef::new("v", Type::Integer)]).unwrap();
        for i in 0..5 {
            db.insert("t", &[("v", Value::Integer(i))]).unwrap();
        }
        disk.close(db);
    }
    {
        let mut db = disk.open();
        assert_eq!(db.count("t", &vec![]).unwrap(), 5);
        for i in 5..10 {
            db.insert("t", &[("v", Value::Integer(i))]).unwrap();
        }
        assert_eq!(db.count("t", &vec![]).unwrap(), 10);
        disk.close(db);
    }
    {
        let mut db = disk.open();
        assert_eq!(db.count("t", &vec![]).unwrap(), 10);
        disk.close(db);
    }
}

#[test]
fn test_next_rowid_persists_across_reopen() {
    let mut disk = Disk::new();
    {
        let mut db = disk.open();
        db.create_table("t", &[ColumnDef::new("v", Type::Integer)]).unwrap();
        let id1 = db.insert("t", &[("v", Value::Integer(1))]).unwrap();
        let id2 = db.insert("t", &[("v", Value::Integer(2))]).unwrap();
        assert_eq!(id1, 1);
        assert_eq!(id2, 2);
        disk.close(db);
    }
    {
        let mut db = disk.open();
        // After reopen, next rowid should continue from where we left off
        let id3 = db.insert("t", &[("v", Value::Integer(3))]).unwrap();
        assert_eq!(id3, 3);
        disk.close(db);
    }
}

#[test]
fn test_scan_all_matches_count() {
    let mut db = Disk::new().open();
    db.create_table("t", &[ColumnDef::new("v", Type::Text)]).unwrap();

    for i in 0..100 {
        db.insert("t", &[("v", Value::Text(format!("val_{}", i % 10)))]).unwrap();
    }

    // Verify scan_all matches cached row_count
    let at = db.tables().position("t").unwrap();
    let root = db.tables().snapshot()[at].root_page;
    let reader = BTreeReader::new(db.page_file(), root);
    let all = reader.scan_all().unwrap();
    assert_eq!(all.len(), 100);
}

#[test]
fn test_index_basic_roundtrip() {
    let mut db = Disk::new().open();
    db.create_table("t", &[ColumnDef::new("v", Type::Text)]).unwrap();
    db.create_index("t", "idx_v", "v").unwrap();
    let _id = db.insert("t", &[("v", Value::Text("hello".into()))]).unwrap();
    let opts = FindOptions {
        filters: vec![Filter::eq("v", Value::from("hello"))],
        include_total: true,
        ..Default::default()
    };
    let result = db.find("t", &opts).unwrap();
    assert_eq!(result.total, Some(1));
    assert_eq!(result.rows.len(), 1);
}

#[test]
fn test_index_populated_on_create() {
    let mut db = Disk::new().open();
    db.create_table("t", &[ColumnDef::new("v", Type::Integer)]).unwrap();
    // Insert rows BEFORE creating the index.
    db.insert("t", &[("v", Value::Integer(10))]).unwrap();
    db.insert("t", &[("v", Value::Integer(20))]).unwrap();
    db.insert("t", &[("v", Value::Integer(30))]).unwrap();
    // Index creation should backfill existing rows.
    db.create_index("t", "idx_v", "v").unwrap();
    let opts = FindOptions {
        filters: vec![Filter::eq("v", Value::from(20i64))],
        include_total: true,
        ..Default::default()
    };
    let result = db.find("t", &opts).unwrap();
    assert_eq!(result.total, Some(1));
    assert_eq!(result.rows.len(), 1);
    assert_eq!(result.rows[0].get("v").unwrap(), Value::Integer(20));
}

#[test]
fn test_index_maintained_on_delete() {
    let mut db = Disk::new().open();
    db.create_table("t", &[ColumnDef::new("v", Type::Text)]).unwrap();
    db.create_index("t", "idx_v", "v").unwrap();
    let id1 = db.insert("t", &[("v", Value::Text("a".into()))]).unwrap();
    let _id2 = db.insert("t", &[("v", Value::Text("b".into()))]).unwrap();
    db.delete("t", id1).unwrap();
    let opts = FindOptions {
        filters: vec![Filter::eq("v", Value::from("a"))],
        ..Default::default()
    };
    let result = db.find("t", &opts).unwrap();
    assert_eq!(result.rows.len(), 0);
}

#[test]
fn test_index_maintained_on_update() {
    let mut db = Disk::new().open();
    db.create_table("t", &[ColumnDef::new("v", Type::Text)]).unwrap();
    db.create_index("t", "idx_v", "v").unwrap();
    let id = db.insert("t", &[("v", Value::Text("old".into()))]).unwrap();
    db.update("t", id, &[("v", Value::Text("new".into()))]).unwrap();
    // Old value should not be found.
    let opts_old = FindOptions {
        filters: vec![Filter::eq("v", Value::from("old"))],
        ..Default::default()
    };
    let result = db.find("t", &opts_old).unwrap();
    assert_eq!(result.rows.len(), 0);
    // New value should be found.
    let opts_new = FindOptions {
        filters: vec![Filter::eq("v", Value::from("new"))],
        ..Default::default()
    };
    let result = db.find("t", &opts_new).unwrap();
    assert_eq!(result.rows.len(), 1);
}

#[test]
fn test_index_type_enforcement() {
    let mut db = Disk::new().open();
    db.create_table("t", &[ColumnDef::new("v", Type::Integer)]).unwrap();
    db.create_index("t", "idx_v", "v").unwrap();
    // Inserting wrong type should fail.
    let result = db.insert("t", &[("v", Value::Text("hello".into()))]);
    assert!(result.is_err());
    // Null should be fine (not indexed).
    let result = db.insert("t", &[("v", Value::Null)]);
    assert!(result.is_ok());
}

#[test]
fn test_find_short_circuits_at_limit() {
    let mut db = Disk::new().open();
    db.set_durability(Durability::Never);
    db.create_table("t", &[ColumnDef::new("v", Type::Integer)]).unwrap();
    for i in 0..1000 {
        db.insert("t", &[("v", Value::Integer(i % 10))]).unwrap();
    }

    // Without include_total
    let result = db.find("t", &FindOptions {
        filters: vec![Filter::eq("v", Value::from(5i64))],
        limit: Some(5),
        ..Default::default()
    }).unwrap();
    assert_eq!(result.rows.len(), 5);
    assert_eq!(result.total, None);

    // With include_total
    let result = db.find("t", &FindOptions {
        filters: vec![Filter::eq("v", Value::from(5i64))],
        limit: Some(5),
        include_total: true,
        ..Default::default()
    }).unwrap();
    assert_eq!(result.rows.len(), 5);
    assert_eq!(result.total, Some(100));
}

#[test]
fn test_count_uses_index() {
    let mut db = Disk::new().open();
    db.set_durability(Durability::Never);
    db.create_table("t", &[ColumnDef::new("v", Type::Text)]).unwrap();
    db.create_index("t", "idx_v", "v").unwrap();
    for i in 0..100 {
        db.insert("t", &[("v", Value::Text(format!("val_{}", i % 5)))]).unwrap();
    }
    assert_eq!(db.count("t", &vec![Filter::eq("v", Value::from("val_2"))]).unwrap(), 20);
}
