//! The file of a vector collection.

use boogy_db::vector::types::DistanceMetric;
use boogy_db::vector::vecfile::VecFile;

fn bits(v: &[f32]) -> Vec<u32> {
    v.iter().map(|x| x.to_bits()).collect()
}

fn make_file(dims: u32, m: u32, cap: u32) -> VecFile {
    VecFile::create(dims, DistanceMetric::Cosine, m, 200, cap, None).unwrap()
}

#[test]
fn test_create_and_reopen() {
    let image;
    {
        let vf =
            VecFile::create(4, DistanceMetric::Euclidean, 8, 100, 16, None).unwrap();
        assert_eq!(vf.header().dimensions, 4);
        assert_eq!(vf.header().metric, DistanceMetric::Euclidean);
        assert_eq!(vf.header().m, 8);
        assert_eq!(vf.header().ef_construction, 100);
        assert_eq!(vf.header().node_capacity, 16);
        assert_eq!(vf.header().node_count, 0);
        assert_eq!(vf.header().entry_point, None);
        assert_eq!(vf.header().free_list_head, None);
        assert_eq!(vf.header().graph_data_len, 0);
        image = vf.flush().unwrap();
    }

    {
        let vf = VecFile::open(&image, None).unwrap();
        assert_eq!(vf.header().dimensions, 4);
        assert_eq!(vf.header().metric, DistanceMetric::Euclidean);
        assert_eq!(vf.header().m, 8);
        assert_eq!(vf.header().ef_construction, 100);
        assert_eq!(vf.header().node_capacity, 16);
        assert_eq!(vf.header().node_count, 0);
        assert_eq!(vf.header().entry_point, None);
        assert_eq!(vf.header().free_list_head, None);
        assert_eq!(vf.header().graph_data_len, 0);
    }
}

#[test]
fn test_vector_read_write() {
    let mut vf = make_file(4, 4, 16);

    let node = vf.allocate_node().unwrap();
    let vec_in = [1.0f32, 2.0, 3.0, 4.0];
    vf.write_vector(node, &bits(&vec_in));
    let vec_out = vf.read_vector(node);
    assert_eq!(vec_out, &bits(&vec_in)[..]);
}

#[test]
fn test_free_list_reuse() {
    let mut vf = make_file(4, 4, 16);

    let n0 = vf.allocate_node().unwrap();
    let n1 = vf.allocate_node().unwrap();
    assert_eq!(n0, 0);
    assert_eq!(n1, 1);
    assert_eq!(vf.header().node_count, 2);

    vf.free_node(n0);
    assert_eq!(vf.header().free_list_head, Some(0));
    assert_eq!(vf.header().free_list_len, 1);
    assert!(vf.is_deleted(n0));

    let n2 = vf.allocate_node().unwrap();
    assert_eq!(n2, 0, "should reuse node 0 from free list");
    assert_eq!(vf.header().free_list_head, None);
    assert_eq!(vf.header().free_list_len, 0);
    assert!(!vf.is_deleted(n2));
}

#[test]
fn test_graph_record_neighbors() {
    let mut vf = make_file(4, 4, 16);

    let node = vf.allocate_node().unwrap();

    // Allocate a graph record with max_layer = 1.
    vf.allocate_graph_record(node, 1).unwrap();

    assert_eq!(vf.read_node_max_layer(node), Some(1));

    // Layer 0: capacity 2*M = 8.
    let l0_neighbors = vec![1u32, 2, 3];
    vf.write_neighbors(node, 0, &l0_neighbors);
    let got0 = vf.read_neighbors(node, 0);
    assert_eq!(got0, l0_neighbors);

    // Layer 1: capacity M = 4.
    let l1_neighbors = vec![5u32, 6];
    vf.write_neighbors(node, 1, &l1_neighbors);
    let got1 = vf.read_neighbors(node, 1);
    assert_eq!(got1, l1_neighbors);

    // Verify layer 0 still intact after writing layer 1.
    assert_eq!(vf.read_neighbors(node, 0), l0_neighbors);
}

#[test]
fn test_grow_preserves_data() {
    let cap = 4u32;
    let dims = 3u32;
    let m = 2u32;
    let mut vf =
        VecFile::create(dims, DistanceMetric::DotProduct, m, 50, cap, None).unwrap();

    // Fill capacity: allocate all 4 nodes, write vectors + graph records.
    for i in 0..cap {
        let node = vf.allocate_node().unwrap();
        assert_eq!(node, i);
        let v = [i as f32, i as f32 + 1.0, i as f32 + 2.0];
        vf.write_vector(node, &bits(&v));
        vf.allocate_graph_record(node, 0).unwrap();
        vf.write_neighbors(node, 0, &vec![i.wrapping_sub(1).min(cap)]);
    }

    // Allocate one more — triggers grow().
    let extra = vf.allocate_node().unwrap();
    assert_eq!(extra, cap); // should be node #4 (new count = 5)
    assert_eq!(vf.header().node_capacity, cap * 2);

    // Verify old vectors survive.
    for i in 0..cap {
        let got = vf.read_vector(i);
        let expected = [i as f32, i as f32 + 1.0, i as f32 + 2.0];
        assert_eq!(got, &bits(&expected)[..], "vector {i} corrupted after grow");
    }

    // Verify old graph records survive.
    for i in 0..cap {
        assert_eq!(vf.read_node_max_layer(i), Some(0), "node {i} max_layer lost");
    }

    // Flush + reopen to verify persistence.
    let image = vf.flush().unwrap();
    let vf2 = VecFile::open(&image, None).unwrap();
    assert_eq!(vf2.header().node_capacity, cap * 2);
    assert_eq!(vf2.header().node_count, cap + 1);
    for i in 0..cap {
        let got = vf2.read_vector(i);
        let expected = [i as f32, i as f32 + 1.0, i as f32 + 2.0];
        assert_eq!(got, &bits(&expected)[..], "vector {i} corrupted after reopen");
    }
}
