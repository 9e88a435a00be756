//! Index keys and trees of index keys.

use boogy_db::error::BoogyError;
use boogy_db::file::PageFile;
use boogy_db::index::{
    encode_composite_index_key, encode_composite_value_prefix, encode_index_key,
    encode_index_key_integer, encode_index_key_real, encode_index_key_text, encode_integer_prefix,
    encode_real_prefix, encode_text_prefix, encode_value_prefix, extract_rowid,
};
use boogy_db::index_tree::{IndexTreeReader, IndexTreeWriter};
use boogy_db::value::{Type, Value};

fn real_key(v: f64, rowid: u64) -> Vec<u8> {
    encode_index_key_real(v.to_bits(), rowid)
}

fn real_prefix(v: f64) -> Vec<u8> {
    encode_real_prefix(v.to_bits())
}

// --- Key encoding tests ---

#[test]
fn test_composite_key_orders_lexicographically_by_column() {
    // (Integer, Integer) composite. Keys must sort by col1 then col2 then rowid.
    let types = [Type::Integer, Type::Integer];
    let k = |a: i64, b: i64, rid: u64|
        encode_composite_index_key(&types, &[Value::Integer(a), Value::Integer(b)], rid).unwrap();
    let mut keys = vec![k(5, 9, 1), k(5, 2, 2), k(4, 100, 3), k(5, 9, 0)];
    keys.sort();
    // Expected order: (4,100,r3) < (5,2,r2) < (5,9,r0) < (5,9,r1)
    assert_eq!(keys, vec![k(4,100,3), k(5,2,2), k(5,9,0), k(5,9,1)]);
}

#[test]
fn test_composite_key_text_then_integer() {
    let types = [Type::Text, Type::Integer];
    let k = |s: &str, n: i64, rid: u64|
        encode_composite_index_key(&types, &[Value::Text(s.into()), Value::Integer(n)], rid).unwrap();
    let mut keys = vec![k("bob", 1, 1), k("alice", 9, 2), k("alice", 1, 3)];
    keys.sort();
    assert_eq!(keys, vec![k("alice",1,3), k("alice",9,2), k("bob",1,1)]);
}

#[test]
fn test_composite_key_null_component_not_indexed() {
    let types = [Type::Integer, Type::Integer];
    // A null in any key component → None (consistent with single-column null handling).
    assert!(encode_composite_index_key(&types, &[Value::Integer(1), Value::Null], 1).is_none());
}

#[test]
fn test_composite_prefix_is_key_without_rowid() {
    let types = [Type::Integer, Type::Integer];
    let full = encode_composite_index_key(&types, &[Value::Integer(5), Value::Integer(9)], 7).unwrap();
    let prefix = encode_composite_value_prefix(&types, &[Value::Integer(5), Value::Integer(9)]).unwrap();
    assert!(full.starts_with(&prefix));
    assert_eq!(full.len(), prefix.len() + 8); // rowid is 8 bytes appended
}

#[test]
fn test_integer_key_sort_order() {
    // Negative < zero < positive under byte comparison
    let k_neg = encode_index_key_integer(-100, 1);
    let k_zero = encode_index_key_integer(0, 1);
    let k_pos = encode_index_key_integer(100, 1);

    assert!(k_neg < k_zero, "negative should sort before zero");
    assert!(k_zero < k_pos, "zero should sort before positive");
}

#[test]
fn test_integer_key_same_value_different_rowids() {
    let k1 = encode_index_key_integer(42, 1);
    let k2 = encode_index_key_integer(42, 2);
    let k3 = encode_index_key_integer(42, 100);

    assert!(k1 < k2);
    assert!(k2 < k3);
}

#[test]
fn test_integer_key_wide_range() {
    let k_min = encode_index_key_integer(i64::MIN, 1);
    let k_neg1 = encode_index_key_integer(-1, 1);
    let k_zero = encode_index_key_integer(0, 1);
    let k_pos1 = encode_index_key_integer(1, 1);
    let k_max = encode_index_key_integer(i64::MAX, 1);

    assert!(k_min < k_neg1);
    assert!(k_neg1 < k_zero);
    assert!(k_zero < k_pos1);
    assert!(k_pos1 < k_max);
}

#[test]
fn test_text_key_sort_order() {
    let k_a = encode_index_key_text("apple", 1).unwrap();
    let k_b = encode_index_key_text("banana", 1).unwrap();
    let k_c = encode_index_key_text("cherry", 1).unwrap();

    assert!(k_a < k_b, "apple should sort before banana");
    assert!(k_b < k_c, "banana should sort before cherry");
}

#[test]
fn test_text_key_same_value_different_rowids() {
    let k1 = encode_index_key_text("hello", 1).unwrap();
    let k2 = encode_index_key_text("hello", 2).unwrap();
    let k3 = encode_index_key_text("hello", 999).unwrap();

    assert!(k1 < k2);
    assert!(k2 < k3);
}

#[test]
fn test_text_key_prefix_ordering() {
    // "ab" < "abc" because after matching "ab", the next byte of the
    // shorter key is 0x00 (null terminator) while "abc" has 'c' (0x63).
    let k_short = encode_index_key_text("ab", 1).unwrap();
    let k_long = encode_index_key_text("abc", 1).unwrap();
    assert!(k_short < k_long);
}

#[test]
fn test_real_key_sort_order() {
    let k_neg = real_key(-1.5, 1);
    let k_zero = real_key(0.0, 1);
    let k_pos = real_key(1.5, 1);

    assert!(k_neg < k_zero, "negative should sort before zero");
    assert!(k_zero < k_pos, "zero should sort before positive");
}

#[test]
fn test_real_key_wide_range() {
    let k_neg_inf = real_key(f64::NEG_INFINITY, 1);
    let k_neg = real_key(-1000.0, 1);
    let k_neg_zero = real_key(-0.0, 1);
    let k_zero = real_key(0.0, 1);
    let k_pos = real_key(1000.0, 1);
    let k_pos_inf = real_key(f64::INFINITY, 1);

    assert!(k_neg_inf < k_neg);
    assert!(k_neg < k_neg_zero);
    // -0.0 and +0.0 should sort to the same position (or at least be adjacent)
    assert!(k_neg_zero <= k_zero);
    assert!(k_zero < k_pos);
    assert!(k_pos < k_pos_inf);
}

#[test]
fn test_real_key_same_value_different_rowids() {
    let k1 = real_key(3.14, 1);
    let k2 = real_key(3.14, 2);
    assert!(k1 < k2);
}

// --- Prefix matching tests ---

#[test]
fn test_integer_prefix_matching() {
    let prefix = encode_integer_prefix(42);
    let key1 = encode_index_key_integer(42, 1);
    let key2 = encode_index_key_integer(42, 100);
    let key3 = encode_index_key_integer(43, 1);

    assert!(key1.starts_with(&prefix));
    assert!(key2.starts_with(&prefix));
    assert!(!key3.starts_with(&prefix));
}

#[test]
fn test_text_prefix_matching() {
    let prefix = encode_text_prefix("hello");
    let key1 = encode_index_key_text("hello", 1).unwrap();
    let key2 = encode_index_key_text("hello", 999).unwrap();
    let key3 = encode_index_key_text("world", 1).unwrap();

    assert!(key1.starts_with(&prefix));
    assert!(key2.starts_with(&prefix));
    assert!(!key3.starts_with(&prefix));
}

#[test]
fn test_real_prefix_matching() {
    let prefix = real_prefix(3.14);
    let key1 = real_key(3.14, 1);
    let key2 = real_key(3.14, 50);
    let key3 = real_key(2.71, 1);

    assert!(key1.starts_with(&prefix));
    assert!(key2.starts_with(&prefix));
    assert!(!key3.starts_with(&prefix));
}

// --- Extract rowid tests ---

#[test]
fn test_extract_rowid_integer() {
    let key = encode_index_key_integer(42, 12345);
    assert_eq!(extract_rowid(Type::Integer, &key), 12345);
}

#[test]
fn test_extract_rowid_real() {
    let key = real_key(3.14, 99999);
    assert_eq!(extract_rowid(Type::Real, &key), 99999);
}

#[test]
fn test_extract_rowid_text() {
    let key = encode_index_key_text("hello", 42).unwrap();
    assert_eq!(extract_rowid(Type::Text, &key), 42);
}

// --- encode_index_key dispatch tests ---

#[test]
fn test_encode_index_key_null_returns_none() {
    assert!(encode_index_key(Type::Integer, &Value::Null, 1).is_none());
    assert!(encode_index_key(Type::Text, &Value::Null, 1).is_none());
    assert!(encode_index_key(Type::Real, &Value::Null, 1).is_none());
}

#[test]
fn test_encode_index_key_type_dispatch() {
    let int_key = encode_index_key(Type::Integer, &Value::Integer(42), 1);
    assert!(int_key.is_some());
    assert_eq!(int_key.unwrap().len(), 16);

    let real_key = encode_index_key(Type::Real, &Value::Real(3.14f64.to_bits()), 1);
    assert!(real_key.is_some());
    assert_eq!(real_key.unwrap().len(), 16);

    let text_key = encode_index_key(Type::Text, &Value::Text("hi".into()), 1);
    assert!(text_key.is_some());
    // "hi" (2 bytes) + 0x00 (1 byte) + rowid (8 bytes) = 11
    assert_eq!(text_key.unwrap().len(), 11);
}

// --- IndexTree tests ---

#[test]
fn test_index_tree_insert_and_scan_prefix() {
    let mut pf = PageFile::open(Vec::new());

    let mut root;
    {
        let mut guard = pf.begin_write();
        root = IndexTreeWriter::create(&mut guard).unwrap();

        // Insert keys for value=42, rowids 1,2,3
        for rowid in 1..=3u64 {
            let key = encode_index_key_integer(42, rowid);
            let mut tree = IndexTreeWriter::new(root);
            root = tree.insert(&mut guard, &key).unwrap();
        }

        // Also insert value=99, rowid=10
        {
            let key = encode_index_key_integer(99, 10);
            let mut tree = IndexTreeWriter::new(root);
            root = tree.insert(&mut guard, &key).unwrap();
        }
        pf = guard.commit().0;
    }

    // Scan prefix for value=42
    let prefix = encode_integer_prefix(42);
    let reader = IndexTreeReader::new(&pf, root);
    let results = reader.scan_prefix(&prefix).unwrap();
    assert_eq!(results.len(), 3);

    // Verify rowids
    for (i, key) in results.iter().enumerate() {
        let rowid = extract_rowid(Type::Integer, key);
        assert_eq!(rowid, (i + 1) as u64);
    }

    // Scan prefix for value=99
    let prefix = encode_integer_prefix(99);
    let results = reader.scan_prefix(&prefix).unwrap();
    assert_eq!(results.len(), 1);
    assert_eq!(extract_rowid(Type::Integer, &results[0]), 10);
}

#[test]
fn test_index_tree_delete() {
    let mut pf = PageFile::open(Vec::new());

    let mut root;
    {
        let mut guard = pf.begin_write();
        root = IndexTreeWriter::create(&mut guard).unwrap();

        // Insert 3 keys
        for rowid in 1..=3u64 {
            let key = encode_index_key_integer(42, rowid);
            let mut tree = IndexTreeWriter::new(root);
            root = tree.insert(&mut guard, &key).unwrap();
        }

        // Delete middle key (rowid=2)
        {
            let key = encode_index_key_integer(42, 2);
            let mut tree = IndexTreeWriter::new(root);
            assert!(tree.delete(&mut guard, &key).unwrap());
        }
        pf = guard.commit().0;
    }

    // Verify only 2 remain
    let prefix = encode_integer_prefix(42);
    let reader = IndexTreeReader::new(&pf, root);
    let results = reader.scan_prefix(&prefix).unwrap();
    assert_eq!(results.len(), 2);
    assert_eq!(extract_rowid(Type::Integer, &results[0]), 1);
    assert_eq!(extract_rowid(Type::Integer, &results[1]), 3);
}

#[test]
fn test_index_tree_delete_nonexistent() {
    let mut pf = PageFile::open(Vec::new());

    let root;
    {
        let mut guard = pf.begin_write();
        root = IndexTreeWriter::create(&mut guard).unwrap();
        pf = guard.commit().0;
    }

    let mut guard = pf.begin_write();
    let key = encode_index_key_integer(42, 1);
    let mut tree = IndexTreeWriter::new(root);
    assert!(!tree.delete(&mut guard, &key).unwrap());
    pf = guard.commit().0;
}

#[test]
fn test_index_tree_many_inserts_trigger_splits() {
    let mut pf = PageFile::open(Vec::new());

    let mut root;
    {
        let mut guard = pf.begin_write();
        root = IndexTreeWriter::create(&mut guard).unwrap();

        // Insert 200 keys -- enough to trigger multiple splits.
        for i in 0..200u64 {
            let key = encode_index_key_integer(i as i64, i);
            let mut tree = IndexTreeWriter::new(root);
            root = tree.insert(&mut guard, &key).unwrap();
        }
        pf = guard.commit().0;
    }

    // Verify all keys are findable via scan_prefix
    let reader = IndexTreeReader::new(&pf, root);
    for i in 0..200u64 {
        let prefix = encode_integer_prefix(i as i64);
        let results = reader.scan_prefix(&prefix).unwrap();
        assert_eq!(results.len(), 1, "missing key for value {i}");
        assert_eq!(extract_rowid(Type::Integer, &results[0]), i);
    }
}

#[test]
fn test_index_tree_many_same_value_inserts() {
    let mut pf = PageFile::open(Vec::new());

    let mut root;
    {
        let mut guard = pf.begin_write();
        root = IndexTreeWriter::create(&mut guard).unwrap();

        // 150 rows all with the same column value (42), different rowids
        for rowid in 0..150u64 {
            let key = encode_index_key_integer(42, rowid);
            let mut tree = IndexTreeWriter::new(root);
            root = tree.insert(&mut guard, &key).unwrap();
        }
        pf = guard.commit().0;
    }

    // scan_prefix should return all 150
    let prefix = encode_integer_prefix(42);
    let reader = IndexTreeReader::new(&pf, root);
    let results = reader.scan_prefix(&prefix).unwrap();
    assert_eq!(results.len(), 150);

    // Verify sorted by rowid
    for (i, key) in results.iter().enumerate() {
        assert_eq!(extract_rowid(Type::Integer, key), i as u64);
    }
}

#[test]
fn test_index_tree_with_text_keys() {
    let mut pf = PageFile::open(Vec::new());

    let mut root;
    {
        let mut guard = pf.begin_write();
        root = IndexTreeWriter::create(&mut guard).unwrap();

        let words = ["apple", "banana", "cherry", "apple", "banana"];
        for (rowid, word) in words.iter().enumerate() {
            let key = encode_index_key_text(word, rowid as u64).unwrap();
            let mut tree = IndexTreeWriter::new(root);
            root = tree.insert(&mut guard, &key).unwrap();
        }
        pf = guard.commit().0;
    }

    let reader = IndexTreeReader::new(&pf, root);

    // Scan for "apple" -- should get rowids 0, 3
    let prefix = encode_text_prefix("apple");
    let results = reader.scan_prefix(&prefix).unwrap();
    assert_eq!(results.len(), 2);
    assert_eq!(extract_rowid(Type::Text, &results[0]), 0);
    assert_eq!(extract_rowid(Type::Text, &results[1]), 3);

    // Scan for "banana" -- should get rowids 1, 4
    let prefix = encode_text_prefix("banana");
    let results = reader.scan_prefix(&prefix).unwrap();
    assert_eq!(results.len(), 2);
    assert_eq!(extract_rowid(Type::Text, &results[0]), 1);
    assert_eq!(extract_rowid(Type::Text, &results[1]), 4);
}

#[test]
fn test_index_tree_text_many_inserts_trigger_splits() {
    let mut pf = PageFile::open(Vec::new());

    let mut root;
    {
        let mut guard = pf.begin_write();
        root = IndexTreeWriter::create(&mut guard).unwrap();

        // Insert 100 different text values.
        for i in 0..100u64 {
            let text = format!("item_{:04}", i);
            let key = encode_index_key_text(&text, i).unwrap();
            let mut tree = IndexTreeWriter::new(root);
            root = tree.insert(&mut guard, &key).unwrap();
        }
        pf = guard.commit().0;
    }

    // Verify each is findable
    let reader = IndexTreeReader::new(&pf, root);
    for i in 0..100u64 {
        let text = format!("item_{:04}", i);
        let prefix = encode_text_prefix(&text);
        let results = reader.scan_prefix(&prefix).unwrap();
        assert_eq!(results.len(), 1, "missing key for text {text}");
        assert_eq!(extract_rowid(Type::Text, &results[0]), i);
    }
}

#[test]
fn test_index_tree_delete_after_splits() {
    let mut pf = PageFile::open(Vec::new());

    let mut root;
    {
        let mut guard = pf.begin_write();
        root = IndexTreeWriter::create(&mut guard).unwrap();

        // Insert enough to cause splits
        for i in 0..100u64 {
            let key = encode_index_key_integer(i as i64, i);
            let mut tree = IndexTreeWriter::new(root);
            root = tree.insert(&mut guard, &key).unwrap();
        }
        pf = guard.commit().0;
    }

    // Delete every other key
    {
        let mut guard = pf.begin_write();
        for i in (0..100u64).step_by(2) {
            let key = encode_index_key_integer(i as i64, i);
            let mut tree = IndexTreeWriter::new(root);
            assert!(tree.delete(&mut guard, &key).unwrap(), "should find key {i}");
        }
        pf = guard.commit().0;
    }

    // Verify only odd keys remain
    let reader = IndexTreeReader::new(&pf, root);
    for i in 0..100u64 {
        let prefix = encode_integer_prefix(i as i64);
        let results = reader.scan_prefix(&prefix).unwrap();
        if i % 2 == 0 {
            assert_eq!(results.len(), 0, "key {i} should be deleted");
        } else {
            assert_eq!(results.len(), 1, "key {i} should still exist");
        }
    }
}

#[test]
fn test_encode_value_prefix_returns_none_for_null() {
    assert!(encode_value_prefix(Type::Integer, &Value::Null).is_none());
    assert!(encode_value_prefix(Type::Text, &Value::Null).is_none());
    assert!(encode_value_prefix(Type::Real, &Value::Null).is_none());
}

#[test]
fn test_index_tree_real_keys_with_splits() {
    let mut pf = PageFile::open(Vec::new());

    let mut root;
    {
        let mut guard = pf.begin_write();
        root = IndexTreeWriter::create(&mut guard).unwrap();

        // Insert real-valued keys including negatives
        let values: Vec<f64> = (-50..50).map(|i| i as f64 * 0.1).collect();
        for (rowid, &val) in values.iter().enumerate() {
            let key = real_key(val, rowid as u64);
            let mut tree = IndexTreeWriter::new(root);
            root = tree.insert(&mut guard, &key).unwrap();
        }
        pf = guard.commit().0;
    }

    // Verify each is findable
    let reader = IndexTreeReader::new(&pf, root);
    let values: Vec<f64> = (-50..50).map(|i| i as f64 * 0.1).collect();
    for (rowid, &val) in values.iter().enumerate() {
        let prefix = real_prefix(val);
        let results = reader.scan_prefix(&prefix).unwrap();
        assert!(
            !results.is_empty(),
            "missing key for real value {val} (rowid {rowid})"
        );
        let found_rowid = extract_rowid(Type::Real, &results[0]);
        assert_eq!(found_rowid, rowid as u64);
    }
}

// --- count_prefix / scan_prefix_limit tests ---

fn extract_rowid_integer(key: &[u8]) -> u64 {
    extract_rowid(Type::Integer, key)
}

#[test]
fn test_count_prefix() {
    let mut pf = PageFile::open(Vec::new());

    let root;
    {
        let mut guard = pf.begin_write();
        root = IndexTreeWriter::create(&mut guard).unwrap();
        let mut tree = IndexTreeWriter::new(root);

        for rowid in 1..=5u64 {
            let key = encode_index_key_integer(42, rowid);
            tree.insert(&mut guard, &key).unwrap();
        }
        for rowid in 1..=3u64 {
            let key = encode_index_key_integer(99, rowid);
            tree.insert(&mut guard, &key).unwrap();
        }
        pf = guard.commit().0;
    }

    let reader = IndexTreeReader::new(&pf, root);
    let prefix_42 = encode_integer_prefix(42);
    assert_eq!(reader.count_prefix(&prefix_42).unwrap(), 5);
    let prefix_99 = encode_integer_prefix(99);
    assert_eq!(reader.count_prefix(&prefix_99).unwrap(), 3);
    let prefix_0 = encode_integer_prefix(0);
    assert_eq!(reader.count_prefix(&prefix_0).unwrap(), 0);
}

#[test]
fn test_count_prefix_text() {
    let mut pf = PageFile::open(Vec::new());

    let root;
    {
        let mut guard = pf.begin_write();
        root = IndexTreeWriter::create(&mut guard).unwrap();
        let mut tree = IndexTreeWriter::new(root);

        for rowid in 1..=10u64 {
            tree.insert(&mut guard, &encode_index_key_text("alice", rowid).unwrap()).unwrap();
        }
        for rowid in 1..=7u64 {
            tree.insert(&mut guard, &encode_index_key_text("bob", rowid).unwrap()).unwrap();
        }
        pf = guard.commit().0;
    }

    let reader = IndexTreeReader::new(&pf, root);
    assert_eq!(reader.count_prefix(&encode_text_prefix("alice")).unwrap(), 10);
    assert_eq!(reader.count_prefix(&encode_text_prefix("bob")).unwrap(), 7);
    assert_eq!(reader.count_prefix(&encode_text_prefix("charlie")).unwrap(), 0);
}

#[test]
fn test_scan_prefix_limit() {
    let mut pf = PageFile::open(Vec::new());

    let root;
    {
        let mut guard = pf.begin_write();
        root = IndexTreeWriter::create(&mut guard).unwrap();
        let mut tree = IndexTreeWriter::new(root);

        for rowid in 1..=100u64 {
            tree.insert(&mut guard, &encode_index_key_integer(42, rowid)).unwrap();
        }
        pf = guard.commit().0;
    }

    let reader = IndexTreeReader::new(&pf, root);

    // Limit to 5
    let prefix = encode_integer_prefix(42);
    let results = reader.scan_prefix_limit(&prefix, 5).unwrap();
    assert_eq!(results.len(), 5);
    // Should be first 5 rowids
    assert_eq!(extract_rowid_integer(&results[0]), 1);
    assert_eq!(extract_rowid_integer(&results[4]), 5);

    // Limit higher than available
    let results = reader.scan_prefix_limit(&prefix, 200).unwrap();
    assert_eq!(results.len(), 100);
}

// --- Composite key edge cases ---

#[test]
fn test_integer_key_extreme_negative() {
    let k_min = encode_index_key_integer(i64::MIN, 1);
    let k_min_plus1 = encode_index_key_integer(i64::MIN + 1, 1);
    assert!(k_min < k_min_plus1, "i64::MIN should sort before i64::MIN+1");
}

#[test]
fn test_integer_key_around_zero() {
    let k_neg1 = encode_index_key_integer(-1, 1);
    let k_zero = encode_index_key_integer(0, 1);
    let k_pos1 = encode_index_key_integer(1, 1);
    assert!(k_neg1 < k_zero);
    assert!(k_zero < k_pos1);
}

#[test]
fn test_text_key_empty_string() {
    let k_empty = encode_index_key_text("", 1).unwrap();
    let k_a = encode_index_key_text("a", 1).unwrap();
    // Empty string: just null terminator + rowid
    assert!(k_empty < k_a, "empty string should sort before 'a'");
}

#[test]
fn test_text_key_empty_string_different_rowids() {
    let k1 = encode_index_key_text("", 1).unwrap();
    let k2 = encode_index_key_text("", 2).unwrap();
    assert!(k1 < k2);
}

#[test]
fn test_text_key_long_value() {
    // Long text value that would exceed branch key truncation limit (36 bytes)
    let long_text = "a".repeat(100);
    let k = encode_index_key_text(&long_text, 1).unwrap();
    // Should be: 100 bytes text + 1 null terminator + 8 rowid = 109 bytes
    assert_eq!(k.len(), 100 + 1 + 8);
    assert_eq!(extract_rowid(Type::Text, &k), 1);
}

#[test]
fn test_text_key_unicode() {
    let k_emoji = encode_index_key_text("hello", 1).unwrap();
    let k_z = encode_index_key_text("zzz", 1).unwrap();
    // Both should round-trip through extract_rowid
    assert_eq!(extract_rowid(Type::Text, &k_emoji), 1);
    assert_eq!(extract_rowid(Type::Text, &k_z), 1);
}

#[test]
fn test_real_key_negative_zero_vs_positive_zero() {
    let k_neg_zero = real_key(-0.0, 1);
    let k_pos_zero = real_key(0.0, 1);
    // -0.0 and +0.0 should be adjacent in sort order
    assert!(k_neg_zero <= k_pos_zero);
}

#[test]
fn test_real_key_very_small_positive() {
    let k_tiny = real_key(f64::MIN_POSITIVE, 1);
    let k_zero = real_key(0.0, 1);
    let k_one = real_key(1.0, 1);
    assert!(k_zero < k_tiny);
    assert!(k_tiny < k_one);
}

#[test]
fn test_integer_key_rowid_max() {
    // Test with u64::MAX rowid
    let k = encode_index_key_integer(42, u64::MAX);
    assert_eq!(extract_rowid(Type::Integer, &k), u64::MAX);
}

#[test]
fn test_integer_key_rowid_zero() {
    let k = encode_index_key_integer(42, 0);
    assert_eq!(extract_rowid(Type::Integer, &k), 0);
}

#[test]
fn test_encode_index_key_cross_type_coercion() {
    // Integer column with Real value -> coerced
    let key = encode_index_key(Type::Integer, &Value::Real(42.0f64.to_bits()), 1);
    assert!(key.is_some());

    // Real column with Integer value -> coerced
    let key = encode_index_key(Type::Real, &Value::Integer(42), 1);
    assert!(key.is_some());

    // Unsupported type combination -> None
    let key = encode_index_key(Type::Text, &Value::Integer(42), 1);
    assert!(key.is_none());

    let key = encode_index_key(Type::Integer, &Value::Text("42".into()), 1);
    assert!(key.is_none());
}

#[test]
fn test_encode_value_prefix_cross_type_coercion() {
    // Integer column with Real value
    let prefix = encode_value_prefix(Type::Integer, &Value::Real(42.0f64.to_bits()));
    assert!(prefix.is_some());

    // Real column with Integer value
    let prefix = encode_value_prefix(Type::Real, &Value::Integer(42));
    assert!(prefix.is_some());
}

// --- IndexTree with long text keys that trigger branch truncation ---

#[test]
fn test_index_tree_long_text_keys_trigger_splits() {
    let mut pf = PageFile::open(Vec::new());

    let mut root;
    {
        let mut guard = pf.begin_write();
        root = IndexTreeWriter::create(&mut guard).unwrap();

        // Insert keys with long text values (exceeding the 36-byte branch key limit)
        for i in 0..50u64 {
            let text = format!("long_key_value_that_exceeds_branch_limit_{:04}", i);
            let key = encode_index_key_text(&text, i).unwrap();
            let mut tree = IndexTreeWriter::new(root);
            root = tree.insert(&mut guard, &key).unwrap();
        }
        pf = guard.commit().0;
    }

    let reader = IndexTreeReader::new(&pf, root);
    for i in 0..50u64 {
        let text = format!("long_key_value_that_exceeds_branch_limit_{:04}", i);
        let prefix = encode_text_prefix(&text);
        let results = reader.scan_prefix(&prefix).unwrap();
        assert_eq!(results.len(), 1, "missing key for text '{text}'");
        assert_eq!(extract_rowid(Type::Text, &results[0]), i);
    }
}

#[test]
fn test_scan_prefix_empty_tree() {
    let mut pf = PageFile::open(Vec::new());

    let root;
    {
        let mut guard = pf.begin_write();
        root = IndexTreeWriter::create(&mut guard).unwrap();
        pf = guard.commit().0;
    }

    let reader = IndexTreeReader::new(&pf, root);
    let prefix = encode_integer_prefix(42);
    let results = reader.scan_prefix(&prefix).unwrap();
    assert!(results.is_empty());
}

#[test]
fn test_count_prefix_empty_tree() {
    let mut pf = PageFile::open(Vec::new());

    let root;
    {
        let mut guard = pf.begin_write();
        root = IndexTreeWriter::create(&mut guard).unwrap();
        pf = guard.commit().0;
    }

    let reader = IndexTreeReader::new(&pf, root);
    let prefix = encode_integer_prefix(42);
    assert_eq!(reader.count_prefix(&prefix).unwrap(), 0);
}

#[test]
fn long_keys_are_told_apart() {
    let mut guard = PageFile::open(Vec::new()).begin_write();
    let mut root = IndexTreeWriter::create(&mut guard).unwrap();
    let text = |i: u64| format!("long_key_value_that_exceeds_branch_limit_{:04}", i);
    for i in 0..100u64 {
        let key = encode_index_key_text(&text(i), i).unwrap();
        let mut tree = IndexTreeWriter::new(root);
        root = tree.insert(&mut guard, &key).unwrap();
    }
    for i in (0..100u64).step_by(3) {
        let key = encode_index_key_text(&text(i), i).unwrap();
        assert!(IndexTreeWriter::new(root).delete(&mut guard, &key).unwrap());
    }
    let pf = guard.commit().0;
    let reader = IndexTreeReader::new(&pf, root);
    for i in 0..100u64 {
        let found = reader.scan_prefix(&encode_text_prefix(&text(i))).unwrap();
        let ids: Vec<u64> = found.iter().map(|k| extract_rowid(Type::Text, k)).collect();
        assert_eq!(ids, if i % 3 == 0 { vec![] } else { vec![i] });
    }
    let prefix = encode_text_prefix(&text(1));
    assert!(reader.scan_prefix_limit(&prefix, 0).unwrap().is_empty());
    assert_eq!(reader.scan_prefix_limit(&prefix, 1).unwrap().len(), 1);
    assert_eq!(reader.scan_prefix_limit(&prefix, 2).unwrap().len(), 1);
}

#[test]
fn a_key_that_is_there_is_stored_once_more() {
    let mut guard = PageFile::open(Vec::new()).begin_write();
    let root = IndexTreeWriter::create(&mut guard).unwrap();
    let mut tree = IndexTreeWriter::new(root);
    assert_eq!(tree.insert(&mut guard, b"ant").unwrap(), root);
    assert_eq!(tree.insert(&mut guard, b"bee").unwrap(), root);
    assert_eq!(tree.insert(&mut guard, b"ant").unwrap(), root);
    let mut pf = guard.commit().0;
    let keys = IndexTreeReader::new(&pf, root).scan_prefix(b"").unwrap();
    assert_eq!(keys, vec![b"ant".to_vec(), b"ant".to_vec(), b"bee".to_vec()]);
    guard = pf.begin_write();
    assert!(tree.delete(&mut guard, b"ant").unwrap());
    pf = guard.commit().0;
    let left = IndexTreeReader::new(&pf, root).scan_prefix(b"").unwrap();
    assert_eq!(left, vec![b"ant".to_vec(), b"bee".to_vec()]);
}

#[test]
fn a_full_leaf_is_split_for_a_key_that_is_there() {
    let mut guard = PageFile::open(Vec::new()).begin_write();
    let mut root = IndexTreeWriter::create(&mut guard).unwrap();
    let mut tree = IndexTreeWriter::new(root);
    for c in [1u8, 2, 3, 4] {
        root = tree.insert(&mut guard, &[c; 1000]).unwrap();
    }
    let old_root = root;
    root = tree.insert(&mut guard, &[2u8; 1000]).unwrap();
    assert!(root != old_root);
    let refused = tree.insert(&mut guard, &[2u8; 2019]);
    assert!(matches!(refused, Err(BoogyError::PageFull)));
    let pf = guard.commit().0;
    assert_eq!(pf.page_count(), 3);
    let next = pf.read_page(old_root).unwrap().next_leaf();
    let cells = pf.read_page(old_root).unwrap().num_rows() + pf.read_page(next).unwrap().num_rows();
    assert_eq!(cells, 5);
}
