//! Vector collections.

use boogy_db::error::BoogyError;
use boogy_db::filter::Filter;
use boogy_db::value::{ColumnDef, Type, Value};
use boogy_db::vector::catalog::VectorCatalog;
use boogy_db::vector::collection::VectorCollection;
use boogy_db::vector::types::{
    DistanceMetric, VectorCollectionOptions, VectorResult, VectorSearchOptions,
};
use boogy_db::vector::wal::VectorWal;

fn bits(v: &[f32]) -> Vec<u32> {
    v.iter().map(|x| x.to_bits()).collect()
}

/// Squared distance; distances that are not negative are ordered like their bits.
fn distance(a: &[u32], b: &[u32]) -> i64 {
    let d: f32 = a
        .iter()
        .zip(b)
        .map(|(x, y)| {
            let t = f32::from_bits(*x) - f32::from_bits(*y);
            t * t
        })
        .sum();
    d.to_bits() as i64
}

fn as_float(d: i64) -> f32 {
    f32::from_bits(d as u32)
}

fn assign_layer(m: u32, rng_value: f64) -> u32 {
    (-rng_value.ln() / (m as f64).ln()).floor() as u32
}

fn draw(col: &mut VectorCollection) -> u32 {
    let x = col.next_rng();
    assign_layer(8, (x as f64) / (u64::MAX as f64))
}

fn put(col: &mut VectorCollection, rowid: u64, v: &[f32]) -> Result<u32, BoogyError> {
    let layer = draw(col);
    col.insert(rowid, &bits(v), layer, &distance)
}

fn find(col: &VectorCollection, q: &[f32], k: u32) -> Vec<VectorResult> {
    let none: Option<&fn(u64) -> bool> = None;
    col.search(&bits(q), k, 50, &distance, none).unwrap()
}

fn test_options(dims: u32) -> VectorCollectionOptions {
    VectorCollectionOptions {
        dimensions: dims,
        metric: DistanceMetric::Euclidean,
        m: 8,
        ef_construction: 50,
    }
}

fn make_collection(dims: u32) -> VectorCollection {
    VectorCollection::create(&test_options(dims), None).unwrap()
}

#[test]
fn test_create_insert_search() {
    let mut col = make_collection(3);

    // Insert 3 orthogonal vectors.
    put(&mut col, 100, &[1.0, 0.0, 0.0]).unwrap();
    put(&mut col, 200, &[0.0, 1.0, 0.0]).unwrap();
    put(&mut col, 300, &[0.0, 0.0, 1.0]).unwrap();

    // Search near [1, 0.1, 0].
    let results = find(&col, &[1.0, 0.1, 0.0], 3);
    assert!(!results.is_empty(), "search should return results");
    assert_eq!(
        results[0].rowid, 100,
        "closest to [1,0.1,0] should be rowid 100, got {}",
        results[0].rowid
    );
}

#[test]
fn test_delete_and_search() {
    let mut col = make_collection(3);

    put(&mut col, 100, &[1.0, 0.0, 0.0]).unwrap();
    put(&mut col, 200, &[0.0, 1.0, 0.0]).unwrap();
    put(&mut col, 300, &[0.0, 0.0, 1.0]).unwrap();

    // Delete middle vector.
    col.delete(200).unwrap();

    let results = find(&col, &[0.0, 1.0, 0.0], 3);
    let rowids: Vec<u64> = results.iter().map(|r| r.rowid).collect();
    assert!(
        !rowids.contains(&200),
        "deleted rowid 200 should not appear: {rowids:?}"
    );
}

#[test]
fn test_update_vector() {
    let mut col = make_collection(3);

    // Two vectors far apart.
    put(&mut col, 100, &[1.0, 0.0, 0.0]).unwrap();
    put(&mut col, 200, &[0.0, 0.0, 1.0]).unwrap();

    // Update rowid 200 to be near rowid 100.
    let layer = draw(&mut col);
    col.update(200, &bits(&[0.9, 0.0, 0.0]), layer, &distance).unwrap();

    let results = find(&col, &[1.0, 0.0, 0.0], 2);
    assert_eq!(results.len(), 2);
    let rowids: Vec<u64> = results.iter().map(|r| r.rowid).collect();
    assert!(rowids.contains(&100));
    assert!(rowids.contains(&200));
    // Both should be close to query.
    for r in &results {
        let d = as_float(r.distance);
        assert!(d < 0.02, "distance {} too large after update", d);
    }
}

#[test]
fn test_dimension_mismatch() {
    let mut col = make_collection(3);

    let err = put(&mut col, 100, &[1.0, 2.0]).unwrap_err();
    match err {
        BoogyError::VectorDimensionMismatch { expected: 3, got: 2 } => {}
        other => panic!("expected VectorDimensionMismatch, got: {other:?}"),
    }
}

#[test]
fn test_persistence_and_wal_replay() {
    let image;
    let log;
    // Create and insert.
    {
        let mut col = VectorCollection::create(&test_options(3), None).unwrap();
        put(&mut col, 100, &[1.0, 0.0, 0.0]).unwrap();
        put(&mut col, 200, &[0.0, 1.0, 0.0]).unwrap();
        put(&mut col, 300, &[0.0, 0.0, 1.0]).unwrap();
        image = col.vecfile.flush().unwrap();
        col.checkpoint();
        log = col.wal.log.clone();
    }

    // Reopen and rebuild mappings.
    {
        let mut col = VectorCollection::open(&image, log, None).unwrap();
        col.rebuild_mappings(&vec![(100, 0), (200, 1), (300, 2)]);

        let results = find(&col, &[1.0, 0.1, 0.0], 3);
        assert!(!results.is_empty(), "search after reopen should return results");
        assert_eq!(
            results[0].rowid, 100,
            "closest should be rowid 100 after reopen"
        );
    }
}

#[test]
fn test_empty_search() {
    let col = make_collection(3);

    let results = find(&col, &[1.0, 0.0, 0.0], 5);
    assert!(results.is_empty(), "empty collection search should return empty vec");
}

#[test]
fn the_log_alone_restores_what_the_file_lost() {
    let mut col = make_collection(2);
    let old = col.vecfile.flush().unwrap();
    put(&mut col, 1, &[0.0, 1.0]).unwrap();
    put(&mut col, 2, &[1.0, 1.0]).unwrap();
    put(&mut col, 3, &[2.0, 1.0]).unwrap();
    let opened = VectorCollection::open(&old, col.wal.log.clone(), None).unwrap();
    assert!(opened.wal.is_empty());
    assert_eq!(opened.vecfile.flush().unwrap(), col.vecfile.flush().unwrap());

    // A delete is replayed in the same way.
    let before = col.vecfile.flush().unwrap();
    col.checkpoint();
    col.delete(2).unwrap();
    let opened = VectorCollection::open(&before, col.wal.log.clone(), None).unwrap();
    assert_eq!(opened.vecfile.flush().unwrap(), col.vecfile.flush().unwrap());
}

#[test]
fn encrypted_collections_are_opened_with_their_key_only() {
    let key = [7u8; 32];
    let mut col = VectorCollection::create(&test_options(2), Some(&key)).unwrap();
    let old = col.vecfile.flush().unwrap();
    put(&mut col, 1, &[0.5, 0.25]).unwrap();
    let sealed = col.vecfile.flush().unwrap();
    assert!(col.vecfile.is_encrypted());
    assert_ne!(&sealed[..4], b"BVEC");
    assert!(VectorCollection::open(&sealed, Vec::new(), None).is_err());
    assert!(VectorCollection::open(&sealed, Vec::new(), Some(&[8u8; 32])).is_err());
    let opened = VectorCollection::open(&old, col.wal.log.clone(), Some(&key)).unwrap();
    assert_eq!(opened.vecfile.read_vector(0), &bits(&[0.5, 0.25])[..]);
    let log = VectorWal::open(col.wal.log.clone(), Some(&key));
    assert_eq!(log.read_committed().unwrap().len(), 1);
}

#[test]
fn collections_refuse_bad_options() {
    for (d, m) in [(0, 8), (4097, 8), (3, 0), (3, 129)] {
        let mut o = test_options(d);
        o.m = m;
        match VectorCollection::create(&o, None) {
            Err(BoogyError::VectorError(_)) => {}
            _ => panic!("options {d}, {m} should be refused"),
        }
    }
    assert!(VectorCollection::create(&test_options(4096), None).is_ok());
}

#[test]
fn a_row_has_one_vector() {
    let mut col = make_collection(1);
    put(&mut col, 9, &[1.0]).unwrap();
    assert!(matches!(put(&mut col, 9, &[2.0]), Err(BoogyError::VectorError(_))));
    assert!(matches!(col.delete(8), Err(BoogyError::VectorError(_))));
    assert_eq!(col.len(), 1);
    assert!(!col.is_empty());
    assert_eq!(col.node_id_for_rowid(9), Some(0));
    assert_eq!(col.node_id_for_rowid(8), None);
    assert_eq!(col.dimensions(), 1);
    assert_eq!(col.metric(), DistanceMetric::Euclidean);
    col.delete(9).unwrap();
    assert!(col.is_empty());
    assert!(find(&col, &[1.0], 1).is_empty());
}

#[test]
fn a_deleted_node_is_used_again() {
    let mut col = make_collection(1);
    for i in 0..4u64 {
        put(&mut col, i, &[i as f32]).unwrap();
    }
    col.delete(1).unwrap();
    col.delete(2).unwrap();
    assert_eq!(put(&mut col, 10, &[7.0]).unwrap(), 2);
    assert_eq!(put(&mut col, 11, &[8.0]).unwrap(), 1);
    assert_eq!(put(&mut col, 12, &[9.0]).unwrap(), 4);
    assert_eq!(col.vecfile.read_vector(2), &bits(&[7.0])[..]);
}

#[test]
fn random_numbers_follow_from_the_seed() {
    let mut col = make_collection(1);
    let mut x: u64 = 0x5DEECE66D;
    for _ in 0..5 {
        x ^= x << 13;
        x ^= x >> 7;
        x ^= x << 17;
        assert_eq!(col.next_rng(), x);
    }
}

#[test]
fn a_search_finds_only_rows_that_are_allowed() {
    let mut col = make_collection(1);
    for i in 0..20u64 {
        put(&mut col, i, &[i as f32]).unwrap();
    }
    let odd = |rowid: u64| rowid % 2 == 1;
    let found = col.search(&bits(&[6.0]), 4, 50, &distance, Some(&odd)).unwrap();
    let mut ids: Vec<u64> = found.iter().map(|r| r.rowid).collect();
    ids.sort();
    assert_eq!(ids, vec![3, 5, 7, 9]);
    assert_eq!(as_float(found[0].distance), 1.0);
}

fn database() -> boogy_db::db::BoogyDb {
    let mut db = boogy_db::db::BoogyDb::open(Vec::new(), &Vec::new()).unwrap();
    db.create_table("docs", &[ColumnDef::new("kind", Type::Text)]).unwrap();
    for i in 0..6 {
        let kind = if i % 2 == 0 { "even" } else { "odd" };
        db.insert("docs", &[("kind", Value::from(kind))]).unwrap();
    }
    db
}

#[test]
fn vectors_belong_to_rows_of_a_table() {
    let mut db = database();
    let mut cat = VectorCatalog::new();
    db.create_vector_collection(&mut cat, "docs", "emb", &test_options(1), None).unwrap();
    for id in 1..=6u64 {
        db.vector_insert(&mut cat, "docs", "emb", id, &bits(&[id as f32]), 0, &distance).unwrap();
    }
    assert_eq!(db.count("__vec_docs_emb", &vec![]).unwrap(), 6);
    let row = db.get("__vec_docs_emb", 3).unwrap().unwrap();
    assert_eq!(row.get("node_id").unwrap(), Value::Integer(2));

    let mut options = VectorSearchOptions::new(3);
    let found = db
        .vector_search(&cat, "docs", "emb", &bits(&[3.0]), &options, &distance)
        .unwrap();
    assert_eq!(found[0].rowid, 3);
    assert_eq!(found.len(), 3);

    // Row 3 is "even", the first row being number 1.
    options.filter = Some(Filter::eq("kind", Value::from("odd")));
    let found = db
        .vector_search(&cat, "docs", "emb", &bits(&[3.0]), &options, &distance)
        .unwrap();
    let mut ids: Vec<u64> = found.iter().map(|r| r.rowid).collect();
    ids.sort();
    assert_eq!(ids, vec![2, 4, 6]);

    db.vector_update(&mut cat, "docs", "emb", 1, &bits(&[9.0]), 0, &distance).unwrap();
    db.vector_delete(&mut cat, "docs", "emb", 6).unwrap();
    assert_eq!(db.count("__vec_docs_emb", &vec![]).unwrap(), 5);
    options.filter = None;
    let found = db
        .vector_search(&cat, "docs", "emb", &bits(&[9.0]), &options, &distance)
        .unwrap();
    assert_eq!(found[0].rowid, 1);
}

#[test]
fn collections_are_reopened_from_their_table_of_nodes() {
    let mut db = database();
    let mut cat = VectorCatalog::new();
    db.create_vector_collection(&mut cat, "docs", "emb", &test_options(1), None).unwrap();
    let items: Vec<(u64, Vec<u32>, u32)> = (1..=4).map(|i| (i, bits(&[i as f32]), 0)).collect();
    db.vector_insert_batch(&mut cat, "docs", "emb", &items, &distance).unwrap();
    let image = cat.entries[0].collection.vecfile.flush().unwrap();

    let tables = db.vector_mapping_tables();
    assert_eq!(tables.len(), 1);
    assert_eq!(tables[0].1, "docs");
    assert_eq!(tables[0].2, "emb");
    let mut again = VectorCatalog::new();
    db.reopen_vector_collection(&mut again, &tables[0].0, "docs", "emb", &image, Vec::new(), None)
        .unwrap();
    let found = db
        .vector_search(&again, "docs", "emb", &bits(&[4.0]), &VectorSearchOptions::new(1), &distance)
        .unwrap();
    assert_eq!(found[0].rowid, 4);

    let mut third = VectorCatalog::new();
    db.open_vector_collection(&mut third, "docs", "emb", &image, Vec::new(), None).unwrap();
    db.vector_rebuild_mappings(&mut third, "docs", "emb", &vec![(2, 1)]).unwrap();
    assert_eq!(third.entries[0].collection.len(), 1);
}

#[test]
fn collections_that_are_missing_are_named() {
    let mut db = database();
    let mut cat = VectorCatalog::new();
    let o = test_options(1);
    match db.create_vector_collection(&mut cat, "nope", "emb", &o, None) {
        Err(BoogyError::TableNotFound(t)) => assert_eq!(t, "nope"),
        _ => panic!("the table does not exist"),
    }
    db.create_vector_collection(&mut cat, "docs", "emb", &o, None).unwrap();
    match db.create_vector_collection(&mut cat, "docs", "emb", &o, None) {
        Err(BoogyError::VectorCollectionExists(t)) => assert_eq!(t, "docs.emb"),
        _ => panic!("the collection exists"),
    }
    match db.vector_insert(&mut cat, "docs", "emb", 77, &bits(&[1.0]), 0, &distance) {
        Err(BoogyError::RowNotFound(t)) => assert_eq!(t, "77"),
        _ => panic!("the row does not exist"),
    }
    match db.vector_insert(&mut cat, "docs", "other", 1, &bits(&[1.0]), 0, &distance) {
        Err(BoogyError::VectorCollectionNotFound(t)) => assert_eq!(t, "docs.other"),
        _ => panic!("the collection does not exist"),
    }
    db.drop_vector_collection(&mut cat, "docs", "emb").unwrap();
    assert!(matches!(
        db.vector_delete(&mut cat, "docs", "emb", 1),
        Err(BoogyError::VectorCollectionNotFound(_))
    ));
    assert!(db.get("__vec_docs_emb", 1).is_err());
}

#[test]
fn a_replayed_insert_takes_its_node_off_the_free_list() {
    let mut col = VectorCollection::create(&test_options(2), None).unwrap();
    for i in 0..4u64 {
        put(&mut col, i, &[i as f32, 0.0]).unwrap();
    }
    col.delete(2).unwrap();
    let before = col.vecfile.flush().unwrap();
    col.checkpoint();
    let node = put(&mut col, 9, &[5.0, 5.0]).unwrap();
    assert_eq!(col.vecfile.header().free_list_head, None);
    let opened = VectorCollection::open(&before, col.wal.log.clone(), None).unwrap();
    assert_eq!(opened.vecfile.header().free_list_head, None);
    assert_eq!(opened.vecfile.header().free_list_len, 0);
    assert!(node < opened.vecfile.header().node_count);
    assert_eq!(opened.vecfile.flush().unwrap(), col.vecfile.flush().unwrap());
}
