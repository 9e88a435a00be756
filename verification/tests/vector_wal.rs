//! The log of a vector collection.

use boogy_db::vector::wal::{VectorWal, WalEntry};

fn bits(v: &[f32]) -> Vec<u32> {
    v.iter().map(|x| x.to_bits()).collect()
}

#[test]
fn test_append_and_read_committed() {
    let mut wal = VectorWal::open(Vec::new(), None);

    let entries = vec![
        WalEntry::InsertVector { node_id: 1, layer: 0, vector: bits(&[0.1, 0.2, 0.3]) },
        WalEntry::SetNeighbors { node_id: 1, layer: 0, neighbors: vec![2, 3, 4] },
        WalEntry::UpdateHeader { entry_point: 1, node_count: 1, max_layer: 0 },
    ];
    wal.append_committed(&entries).unwrap();

    let txns = wal.read_committed().unwrap();
    assert_eq!(txns.len(), 1);
    assert_eq!(txns[0].len(), 3);

    assert_eq!(
        txns[0][0],
        WalEntry::InsertVector { node_id: 1, layer: 0, vector: bits(&[0.1, 0.2, 0.3]) }
    );
    assert_eq!(
        txns[0][1],
        WalEntry::SetNeighbors { node_id: 1, layer: 0, neighbors: vec![2, 3, 4] }
    );
    assert_eq!(
        txns[0][2],
        WalEntry::UpdateHeader { entry_point: 1, node_count: 1, max_layer: 0 }
    );
}

#[test]
fn test_uncommitted_transaction_discarded() {
    let mut wal = VectorWal::open(Vec::new(), None);

    // First transaction: committed.
    wal.append_committed(&vec![WalEntry::DeleteNode { node_id: 42 }])
    .unwrap();

    // Second transaction: not committed (no Commit appended).
    wal.append(&WalEntry::InsertVector {
        node_id: 99,
        layer: 0,
        vector: bits(&[1.0, 2.0]),
    })
    .unwrap();

    let txns = wal.read_committed().unwrap();
    assert_eq!(txns.len(), 1, "only the committed transaction should be returned");
    assert_eq!(txns[0].len(), 1);
    assert_eq!(txns[0][0], WalEntry::DeleteNode { node_id: 42 });
}

#[test]
fn test_truncate() {
    let mut wal = VectorWal::open(Vec::new(), None);

    wal.append_committed(&vec![WalEntry::DeleteNode { node_id: 1 }])
    .unwrap();
    assert!(!wal.is_empty());

    wal.truncate();
    assert!(wal.is_empty());

    let txns = wal.read_committed().unwrap();
    assert!(txns.is_empty());
}

#[test]
fn test_empty_wal() {
    let wal = VectorWal::open(Vec::new(), None);

    assert!(wal.is_empty());

    let txns = wal.read_committed().unwrap();
    assert!(txns.is_empty());
}

#[test]
fn test_multiple_transactions() {
    let mut wal = VectorWal::open(Vec::new(), None);

    // Transaction 1.
    wal.append_committed(&vec![
            WalEntry::InsertVector { node_id: 10, layer: 0, vector: bits(&[1.0, 0.0]) },
            WalEntry::UpdateHeader { entry_point: 10, node_count: 1, max_layer: 0 },
        ])
    .unwrap();

    // Transaction 2.
    wal.append_committed(&vec![
            WalEntry::InsertVector { node_id: 20, layer: 1, vector: bits(&[0.0, 1.0]) },
            WalEntry::SetNeighbors { node_id: 20, layer: 0, neighbors: vec![10] },
            WalEntry::UpdateHeader { entry_point: 10, node_count: 2, max_layer: 1 },
        ])
    .unwrap();

    let txns = wal.read_committed().unwrap();
    assert_eq!(txns.len(), 2);

    assert_eq!(txns[0].len(), 2);
    assert_eq!(
        txns[0][0],
        WalEntry::InsertVector { node_id: 10, layer: 0, vector: bits(&[1.0, 0.0]) }
    );
    assert_eq!(
        txns[0][1],
        WalEntry::UpdateHeader { entry_point: 10, node_count: 1, max_layer: 0 }
    );

    assert_eq!(txns[1].len(), 3);
    assert_eq!(
        txns[1][0],
        WalEntry::InsertVector { node_id: 20, layer: 1, vector: bits(&[0.0, 1.0]) }
    );
    assert_eq!(
        txns[1][1],
        WalEntry::SetNeighbors { node_id: 20, layer: 0, neighbors: vec![10] }
    );
    assert_eq!(
        txns[1][2],
        WalEntry::UpdateHeader { entry_point: 10, node_count: 2, max_layer: 1 }
    );
}
