//! Rows in a tree of pages.

use boogy_db::btree::BTreeReader;
use boogy_db::btree_writer::BTreeWriter;
use boogy_db::file::PageFile;
use boogy_db::row;
use boogy_db::value::Value;

fn make_row(rowid: u64, name: &str) -> Vec<u8> {
    row::encode_row(rowid, &[(0, &Value::Text(name.into()))])
}

#[test]
fn test_insert_and_search() {
    let mut pf = PageFile::open(Vec::new());

    let root;
    {
        let mut guard = pf.begin_write();
        root = BTreeWriter::create(&mut guard).unwrap();
        let mut tree = BTreeWriter::new(root);
        let row = make_row(1, "alice");
        tree.insert(&mut guard, 1, &row).unwrap();
        pf = guard.commit().0;
    }

    let reader = BTreeReader::new(&pf, root);
    let found = reader.search(1).unwrap();
    assert!(found.is_some());
    let decoded = row::decode_row(&found.unwrap()).unwrap();
    assert_eq!(decoded.id, 1);
    assert_eq!(decoded.columns[0].1, Value::Text("alice".into()));
}

#[test]
fn test_search_not_found() {
    let mut pf = PageFile::open(Vec::new());

    let root;
    {
        let mut guard = pf.begin_write();
        root = BTreeWriter::create(&mut guard).unwrap();
        pf = guard.commit().0;
    }

    let reader = BTreeReader::new(&pf, root);
    assert!(reader.search(999).unwrap().is_none());
}

#[test]
fn test_duplicate_key_rejected() {
    let mut pf = PageFile::open(Vec::new());

    let mut guard = pf.begin_write();
    let root = BTreeWriter::create(&mut guard).unwrap();
    let mut tree = BTreeWriter::new(root);

    let row = make_row(1, "alice");
    tree.insert(&mut guard, 1, &row).unwrap();
    assert!(tree.insert(&mut guard, 1, &row).is_err());
    pf = guard.commit().0;
}

#[test]
fn test_many_inserts_trigger_split() {
    let mut pf = PageFile::open(Vec::new());

    let mut root;
    {
        let mut guard = pf.begin_write();
        root = BTreeWriter::create(&mut guard).unwrap();

        for i in 0..100u64 {
            let row = make_row(i, &format!("name_{i}"));
            let mut tree = BTreeWriter::new(root);
            root = tree.insert(&mut guard, i, &row).unwrap();
        }
        pf = guard.commit().0;
    }

    // Verify all rows are findable
    let reader = BTreeReader::new(&pf, root);
    for i in 0..100u64 {
        assert!(reader.search(i).unwrap().is_some(), "missing: {i}");
    }
}

#[test]
fn btree_test_delete() {
    let mut pf = PageFile::open(Vec::new());

    let root;
    {
        let mut guard = pf.begin_write();
        root = BTreeWriter::create(&mut guard).unwrap();
        let mut tree = BTreeWriter::new(root);

        let row = make_row(1, "alice");
        tree.insert(&mut guard, 1, &row).unwrap();
        assert!(tree.delete(&mut guard, 1).unwrap());
        pf = guard.commit().0;
    }

    let reader = BTreeReader::new(&pf, root);
    assert!(reader.search(1).unwrap().is_none());

    // Try deleting again — already deleted
    {
        let mut guard = pf.begin_write();
        let mut tree = BTreeWriter::new(root);
        assert!(!tree.delete(&mut guard, 1).unwrap());
        pf = guard.commit().0;
    }
}

#[test]
fn test_scan_all() {
    let mut pf = PageFile::open(Vec::new());

    let mut root;
    {
        let mut guard = pf.begin_write();
        root = BTreeWriter::create(&mut guard).unwrap();

        for i in 0..20u64 {
            let row = make_row(i, &format!("name_{i}"));
            let mut tree = BTreeWriter::new(root);
            root = tree.insert(&mut guard, i, &row).unwrap();
        }
        pf = guard.commit().0;
    }

    let reader = BTreeReader::new(&pf, root);
    let all = reader.scan_all().unwrap();
    assert_eq!(all.len(), 20);
}

#[test]
fn test_delete_matching() {
    let mut pf = PageFile::open(Vec::new());

    let mut root;
    {
        let mut guard = pf.begin_write();
        root = BTreeWriter::create(&mut guard).unwrap();

        // Insert 100 rows with values 0-9 (cycling).
        for i in 0..100u64 {
            let val = (i % 10) as i64;
            let row = row::encode_row(i, &[(0, &Value::Integer(val))]);
            let mut tree = BTreeWriter::new(root);
            root = tree.insert(&mut guard, i, &row).unwrap();
        }
        pf = guard.commit().0;
    }

    // Delete all rows with value == 5.
    {
        let mut guard = pf.begin_write();
        let mut tree = BTreeWriter::new(root);
        let deleted = tree.delete_matching(&mut guard, |data: &[u8]| {
            if let Ok(Some(val)) = row::extract_column(data, 0) {
                val == Value::Integer(5)
            } else {
                false
            }
        })
        .unwrap();
        assert_eq!(deleted.len(), 10);
        root = tree.root_page();
        pf = guard.commit().0;
    }

    // Verify 90 remain and none have value 5.
    let reader = BTreeReader::new(&pf, root);
    let all = reader.scan_all().unwrap();
    assert_eq!(all.len(), 90);
    for (_, bytes) in &all {
        let val = row::extract_column(bytes, 0).unwrap().unwrap();
        assert_ne!(val, Value::Integer(5));
    }
}

#[test]
fn test_update_matching() {
    let mut pf = PageFile::open(Vec::new());

    let mut root;
    {
        let mut guard = pf.begin_write();
        root = BTreeWriter::create(&mut guard).unwrap();

        // Insert 100 rows: even rows get "active", odd rows get "idle".
        for i in 0..100u64 {
            let status = if i % 2 == 0 { "active" } else { "idle" };
            let row = row::encode_row(i, &[(0, &Value::Text(status.into()))]);
            let mut tree = BTreeWriter::new(root);
            root = tree.insert(&mut guard, i, &row).unwrap();
        }
        pf = guard.commit().0;
    }

    // Update all "active" rows to "archived".
    {
        let mut guard = pf.begin_write();
        let mut tree = BTreeWriter::new(root);
        let (updated, overflow) = tree
            .update_matching(&mut guard,
                |data| {
                    if let Ok(Some(val)) = row::extract_column(data, 0) {
                        val == Value::Text("active".into())
                    } else {
                        false
                    }
                },
                |old_bytes: &[u8]| {
                    let decoded = row::decode_row(old_bytes).unwrap();
                    row::encode_row(decoded.id, &[(0, &Value::Text("archived".into()))])
                },
            )
            .unwrap();
        assert_eq!(updated.len(), 50);
        assert_eq!(overflow.len(), 0);
        root = tree.root_page();
        pf = guard.commit().0;
    }

    // Verify: 50 archived, 50 idle, 0 active.
    let reader = BTreeReader::new(&pf, root);
    let all = reader.scan_all().unwrap();
    assert_eq!(all.len(), 100);
    let mut archived = 0;
    let mut idle = 0;
    let mut active = 0;
    for (_, bytes) in &all {
        if let Ok(Some(val)) = row::extract_column(bytes, 0) {
            match val {
                Value::Text(s) if s == "archived" => archived += 1,
                Value::Text(s) if s == "idle" => idle += 1,
                Value::Text(s) if s == "active" => active += 1,
                _ => {}
            }
        }
    }
    assert_eq!(archived, 50);
    assert_eq!(idle, 50);
    assert_eq!(active, 0);
}

#[test]
fn test_500_sequential_inserts_separate_tree_instances() {
    let mut pf = PageFile::open(Vec::new());

    let mut root;
    {
        let mut guard = pf.begin_write();
        root = BTreeWriter::create(&mut guard).unwrap();

        for i in 0..500u64 {
            let row = row::encode_row(i, &[(0, &Value::Integer(i as i64))]);
            let mut tree = BTreeWriter::new(root);
            root = tree.insert(&mut guard, i, &row).unwrap();
        }
        pf = guard.commit().0;
    }

    // Verify all rows are findable
    let reader = BTreeReader::new(&pf, root);
    for i in 0..500u64 {
        let result = reader.search(i).unwrap();
        assert!(result.is_some(), "missing row at i={i}");
    }
}

// --- delete_matching edge cases ---

#[test]
fn test_delete_matching_empty_table() {
    let mut pf = PageFile::open(Vec::new());

    let root;
    {
        let mut guard = pf.begin_write();
        root = BTreeWriter::create(&mut guard).unwrap();
        pf = guard.commit().0;
    }

    {
        let mut guard = pf.begin_write();
        let mut tree = BTreeWriter::new(root);
        let deleted = tree.delete_matching(&mut guard, |_data: &[u8]| true).unwrap();
        assert!(deleted.is_empty());
        pf = guard.commit().0;
    }
}

#[test]
fn test_delete_matching_all_rows() {
    let mut pf = PageFile::open(Vec::new());

    let mut root;
    {
        let mut guard = pf.begin_write();
        root = BTreeWriter::create(&mut guard).unwrap();
        for i in 0..20u64 {
            let row = row::encode_row(i, &[(0, &Value::Integer(i as i64))]);
            let mut tree = BTreeWriter::new(root);
            root = tree.insert(&mut guard, i, &row).unwrap();
        }
        pf = guard.commit().0;
    }

    // Delete ALL rows
    {
        let mut guard = pf.begin_write();
        let mut tree = BTreeWriter::new(root);
        let deleted = tree.delete_matching(&mut guard, |_data: &[u8]| true).unwrap();
        assert_eq!(deleted.len(), 20);
        root = tree.root_page();
        pf = guard.commit().0;
    }

    // Verify empty
    let reader = BTreeReader::new(&pf, root);
    let all = reader.scan_all().unwrap();
    assert_eq!(all.len(), 0);
}

#[test]
fn test_delete_matching_no_rows_match() {
    let mut pf = PageFile::open(Vec::new());

    let mut root;
    {
        let mut guard = pf.begin_write();
        root = BTreeWriter::create(&mut guard).unwrap();
        for i in 0..10u64 {
            let row = row::encode_row(i, &[(0, &Value::Integer(i as i64))]);
            let mut tree = BTreeWriter::new(root);
            root = tree.insert(&mut guard, i, &row).unwrap();
        }
        pf = guard.commit().0;
    }

    // Nothing matches
    {
        let mut guard = pf.begin_write();
        let mut tree = BTreeWriter::new(root);
        let deleted = tree.delete_matching(&mut guard, |_data: &[u8]| false).unwrap();
        assert!(deleted.is_empty());
        root = tree.root_page();
        pf = guard.commit().0;
    }

    // All rows still there
    let reader = BTreeReader::new(&pf, root);
    let all = reader.scan_all().unwrap();
    assert_eq!(all.len(), 10);
}

// --- update_matching edge cases ---

#[test]
fn test_update_matching_empty_table() {
    let mut pf = PageFile::open(Vec::new());

    let root;
    {
        let mut guard = pf.begin_write();
        root = BTreeWriter::create(&mut guard).unwrap();
        pf = guard.commit().0;
    }

    {
        let mut guard = pf.begin_write();
        let mut tree = BTreeWriter::new(root);
        let (updated, overflow) = tree.update_matching(&mut guard,
            |_: &[u8]| true,
            |old: &[u8]| old.to_vec(),
        ).unwrap();
        assert!(updated.is_empty());
        assert!(overflow.is_empty());
        pf = guard.commit().0;
    }
}

#[test]
fn test_update_matching_no_rows_match() {
    let mut pf = PageFile::open(Vec::new());

    let mut root;
    {
        let mut guard = pf.begin_write();
        root = BTreeWriter::create(&mut guard).unwrap();
        for i in 0..10u64 {
            let row = row::encode_row(i, &[(0, &Value::Integer(i as i64))]);
            let mut tree = BTreeWriter::new(root);
            root = tree.insert(&mut guard, i, &row).unwrap();
        }
        pf = guard.commit().0;
    }

    {
        let mut guard = pf.begin_write();
        let mut tree = BTreeWriter::new(root);
        let (updated, overflow) = tree.update_matching(&mut guard,
            |_: &[u8]| false,
            |old: &[u8]| old.to_vec(),
        ).unwrap();
        assert!(updated.is_empty());
        assert!(overflow.is_empty());
        pf = guard.commit().0;
    }
}

#[test]
fn test_update_matching_overflow() {
    // Force overflow by making rows much larger
    let mut pf = PageFile::open(Vec::new());

    let mut root;
    {
        let mut guard = pf.begin_write();
        root = BTreeWriter::create(&mut guard).unwrap();
        // Insert rows with small values
        for i in 0..5u64 {
            let row = row::encode_row(i, &[(0, &Value::Text("x".into()))]);
            let mut tree = BTreeWriter::new(root);
            root = tree.insert(&mut guard, i, &row).unwrap();
        }
        pf = guard.commit().0;
    }

    // Update all rows to have very large values that won't fit in the page
    {
        let mut guard = pf.begin_write();
        let mut tree = BTreeWriter::new(root);
        let big_text = "x".repeat(2000);
        let (updated, overflow) = tree.update_matching(&mut guard,
            |_: &[u8]| true,
            |old_bytes: &[u8]| {
                let decoded = row::decode_row(old_bytes).unwrap();
                row::encode_row(decoded.id, &[(0, &Value::Text(big_text.clone()))])
            },
        ).unwrap();
        // All should overflow since the page can't hold 5 * 2000+ bytes
        assert_eq!(updated.len() + overflow.len(), 5);
        pf = guard.commit().0;
    }
}

// --- multi_get_sorted tests ---

#[test]
fn test_multi_get_sorted_basic() {
    let mut pf = PageFile::open(Vec::new());

    let mut root;
    {
        let mut guard = pf.begin_write();
        root = BTreeWriter::create(&mut guard).unwrap();
        for i in 0..50u64 {
            let row = row::encode_row(i, &[(0, &Value::Integer(i as i64))]);
            let mut tree = BTreeWriter::new(root);
            root = tree.insert(&mut guard, i, &row).unwrap();
        }
        pf = guard.commit().0;
    }

    let reader = BTreeReader::new(&pf, root);
    let results = reader.multi_get_sorted(&[5, 10, 25, 49]).unwrap();
    assert_eq!(results.len(), 4);
    assert_eq!(row::extract_id(&results[0]).unwrap(), 5);
    assert_eq!(row::extract_id(&results[1]).unwrap(), 10);
    assert_eq!(row::extract_id(&results[2]).unwrap(), 25);
    assert_eq!(row::extract_id(&results[3]).unwrap(), 49);
}

#[test]
fn test_multi_get_sorted_empty_input() {
    let mut pf = PageFile::open(Vec::new());

    let root;
    {
        let mut guard = pf.begin_write();
        root = BTreeWriter::create(&mut guard).unwrap();
        pf = guard.commit().0;
    }

    let reader = BTreeReader::new(&pf, root);
    let results = reader.multi_get_sorted(&[]).unwrap();
    assert!(results.is_empty());
}

#[test]
fn test_multi_get_sorted_missing_keys() {
    let mut pf = PageFile::open(Vec::new());

    let mut root;
    {
        let mut guard = pf.begin_write();
        root = BTreeWriter::create(&mut guard).unwrap();
        for i in (0..20u64).step_by(2) {
            let row = row::encode_row(i, &[(0, &Value::Integer(i as i64))]);
            let mut tree = BTreeWriter::new(root);
            root = tree.insert(&mut guard, i, &row).unwrap();
        }
        pf = guard.commit().0;
    }

    let reader = BTreeReader::new(&pf, root);
    // Ask for some keys that exist and some that don't
    let results = reader.multi_get_sorted(&[0, 1, 4, 5, 18, 19]).unwrap();
    // Only even numbers exist: 0, 4, 18
    assert_eq!(results.len(), 3);
}

// --- scan_all on empty tree ---

#[test]
fn test_scan_all_empty() {
    let mut pf = PageFile::open(Vec::new());

    let root;
    {
        let mut guard = pf.begin_write();
        root = BTreeWriter::create(&mut guard).unwrap();
        pf = guard.commit().0;
    }

    let reader = BTreeReader::new(&pf, root);
    let all = reader.scan_all().unwrap();
    assert!(all.is_empty());
}

// --- insert, delete, re-insert the same key ---

#[test]
fn test_delete_and_reinsert() {
    let mut pf = PageFile::open(Vec::new());

    let root;
    {
        let mut guard = pf.begin_write();
        root = BTreeWriter::create(&mut guard).unwrap();
        let mut tree = BTreeWriter::new(root);
        let row = make_row(1, "alice");
        tree.insert(&mut guard, 1, &row).unwrap();
        assert!(tree.delete(&mut guard, 1).unwrap());

        // Re-insert the same key with different data
        let row = make_row(1, "bob");
        tree.insert(&mut guard, 1, &row).unwrap();
        pf = guard.commit().0;
    }

    let reader = BTreeReader::new(&pf, root);
    let found = reader.search(1).unwrap().unwrap();
    let decoded = row::decode_row(&found).unwrap();
    assert_eq!(decoded.columns[0].1, Value::Text("bob".into()));
}

#[test]
fn rows_that_end_like_a_trailer_are_read_back() {
    let mut guard = PageFile::open(Vec::new()).begin_write();
    let root = BTreeWriter::create(&mut guard).unwrap();
    let row = row::encode_row(1, &[(0, &Value::Integer(-1)), (1, &Value::Boolean(true))]);
    let mut tree = BTreeWriter::new(root);
    let root = tree.insert(&mut guard, 1, &row).unwrap();
    let pf = guard.commit().0;
    let found = BTreeReader::new(&pf, root).search(1).unwrap().unwrap();
    assert_eq!(found, row);
}

#[test]
fn a_long_row_fits_between_others() {
    let of = |id: u64, n: usize| make_row(id, &"x".repeat(n));
    let mut guard = PageFile::open(Vec::new()).begin_write();
    let mut root = BTreeWriter::create(&mut guard).unwrap();
    for (id, n) in [(10u64, 2981usize), (20, 481), (30, 481), (15, 2981)] {
        root = BTreeWriter::new(root).insert(&mut guard, id, &of(id, n)).unwrap();
    }
    let pf = guard.commit().0;
    let reader = BTreeReader::new(&pf, root);
    for (id, n) in [(10u64, 2981usize), (15, 2981), (20, 481), (30, 481)] {
        assert_eq!(reader.search(id).unwrap().unwrap(), of(id, n));
    }
}
