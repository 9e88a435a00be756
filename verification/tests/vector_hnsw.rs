//! The graph of a vector collection.

use boogy_db::vector::hnsw::{
    insert, prune_neighbors, search, search_layer, search_upper_layers, select_neighbors,
    InsertResult,
};

/// Distances that are not negative are ordered like their bits.
fn key(d: f32) -> i64 {
    d.to_bits() as i64
}

fn euclidean(a: &[f32], b: &[f32]) -> f32 {
    a.iter().zip(b).map(|(x, y)| (x - y) * (x - y)).sum()
}

struct TestGraph {
    vectors: Vec<Vec<f32>>,
    /// neighbors[node][layer] -> neighbor ids
    neighbors: Vec<Vec<Vec<u32>>>,
    deleted: Vec<bool>,
}

impl TestGraph {
    fn new() -> Self {
        TestGraph {
            vectors: Vec::new(),
            neighbors: Vec::new(),
            deleted: Vec::new(),
        }
    }

    fn add_node(&mut self, vector: Vec<f32>, num_layers: u32) -> u32 {
        let id = self.vectors.len() as u32;
        self.vectors.push(vector);
        let mut layers = Vec::new();
        for _ in 0..=num_layers {
            layers.push(Vec::new());
        }
        self.neighbors.push(layers);
        self.deleted.push(false);
        id
    }

    fn set_neighbors(&mut self, node: u32, layer: u32, neighbors: Vec<u32>) {
        let n = node as usize;
        let l = layer as usize;
        while self.neighbors[n].len() <= l {
            self.neighbors[n].push(Vec::new());
        }
        self.neighbors[n][l] = neighbors;
    }

    fn apply_insert(&mut self, result: &InsertResult) {
        for (node_id, layer, neighbor_list) in &result.connections {
            self.set_neighbors(*node_id, *layer, neighbor_list.clone());
        }
    }

    fn read_neighbors(&self, id: u32, layer: u32) -> Vec<u32> {
        let n = id as usize;
        let l = layer as usize;
        if n < self.neighbors.len() && l < self.neighbors[n].len() {
            self.neighbors[n][l].clone()
        } else {
            Vec::new()
        }
    }

    fn is_deleted(&self, id: u32) -> bool {
        self.deleted.get(id as usize).copied().unwrap_or(false)
    }

    fn from(&self, query: &[f32], id: u32) -> i64 {
        key(euclidean(query, &self.vectors[id as usize]))
    }

    fn between(&self, a: u32, b: u32) -> i64 {
        key(euclidean(&self.vectors[a as usize], &self.vectors[b as usize]))
    }

    /// Nodes on a line, inserted one after the other at layer 0.
    fn line(n: u32) -> (TestGraph, u32, u32) {
        let mut graph = TestGraph::new();
        for i in 0..n {
            graph.add_node(vec![i as f32, 0.0], 0);
        }
        let mut entry_point: Option<u32> = None;
        let mut max_layer = 0u32;
        for i in 0..n {
            let query = graph.vectors[i as usize].clone();
            let result = insert(
                i,
                0, // all at layer 0 for simplicity
                entry_point,
                max_layer,
                4,
                16,
                &|id: u32| graph.from(&query, id),
                &|a: u32, b: u32| graph.between(a, b),
                &|id: u32, layer: u32| graph.read_neighbors(id, layer),
                &|id: u32| graph.is_deleted(id),
            );
            graph.apply_insert(&result);
            if let Some(ep) = result.new_entry_point {
                entry_point = Some(ep);
            }
            if let Some(ml) = result.new_max_layer {
                max_layer = ml;
            }
        }
        (graph, entry_point.unwrap(), max_layer)
    }

    fn search(&self, query: &[f32], k: u32, ep: u32, max_layer: u32) -> Vec<u32> {
        search(
            k,
            16,
            ep,
            max_layer,
            &|id: u32| self.from(query, id),
            &|id: u32, layer: u32| self.read_neighbors(id, layer),
            &|id: u32| self.is_deleted(id),
            &|_: u32| true,
        )
        .neighbors
        .iter()
        .map(|r| r.0)
        .collect()
    }
}

#[test]
fn test_select_neighbors() {
    let candidates = vec![
        (0, key(5.0)),
        (1, key(1.0)),
        (2, key(3.0)),
        (3, key(0.5)),
        (4, key(2.0)),
    ];
    let selected = select_neighbors(&candidates, 3);
    // Should pick the 3 closest: node 3 (0.5), node 1 (1.0), node 4 (2.0)
    assert_eq!(selected, vec![3, 1, 4]);
}

#[test]
fn test_search_layer_basic() {
    // 5 nodes on a line: [0,0], [1,0], [2,0], [3,0], [4,0]
    // Connected as a chain: 0-1-2-3-4
    let mut graph = TestGraph::new();
    for i in 0..5 {
        graph.add_node(vec![i as f32, 0.0], 0);
    }
    graph.set_neighbors(0, 0, vec![1]);
    graph.set_neighbors(1, 0, vec![0, 2]);
    graph.set_neighbors(2, 0, vec![1, 3]);
    graph.set_neighbors(3, 0, vec![2, 4]);
    graph.set_neighbors(4, 0, vec![3]);

    let query = vec![2.5, 0.0];
    let results = search_layer(
        &[0],
        10,
        0,
        &|id: u32| graph.from(&query, id),
        &|id: u32, layer: u32| graph.read_neighbors(id, layer),
        &|id: u32| graph.is_deleted(id),
        &|_: u32| true,
    );

    // Should find nodes 2 and 3 as closest (distance 0.25 each)
    assert!(results.len() >= 2);
    let ids: Vec<u32> = results.iter().map(|r| r.0).collect();
    assert!(ids.contains(&2), "results should contain node 2: {ids:?}");
    assert!(ids.contains(&3), "results should contain node 3: {ids:?}");
    // Verify sorted by distance
    for w in results.windows(2) {
        assert!(w[0].1 <= w[1].1, "results not sorted: {:?}", results);
    }
}

#[test]
fn test_insert_first_node() {
    let graph = TestGraph::new();
    let result = insert(
        0,
        0,
        None, // no entry point yet
        0,
        16,
        200,
        &|id: u32| graph.from(&[1.0, 2.0], id),
        &|a: u32, b: u32| graph.between(a, b),
        &|id: u32, layer: u32| graph.read_neighbors(id, layer),
        &|id: u32| graph.is_deleted(id),
    );
    assert_eq!(result.new_entry_point, Some(0));
    assert_eq!(result.node_id, 0);
}

#[test]
fn test_insert_and_search_small_graph() {
    let (graph, entry_point, max_layer) = TestGraph::line(20);

    // Search for [10.5, 0]
    let ids = graph.search(&[10.5, 0.0], 5, entry_point, max_layer);
    assert!(
        ids.contains(&10),
        "search near [10.5, 0] should find node 10, got: {ids:?}"
    );
    assert!(
        ids.contains(&11),
        "search near [10.5, 0] should find node 11, got: {ids:?}"
    );
}

#[test]
fn test_deleted_nodes_skipped() {
    let (mut graph, entry_point, max_layer) = TestGraph::line(10);

    // Delete node 5
    graph.deleted[5] = true;

    // Search near [5, 0]
    let ids = graph.search(&[5.0, 0.0], 3, entry_point, max_layer);
    assert!(
        !ids.contains(&5),
        "deleted node 5 should not appear in results: {ids:?}"
    );
    // Should still find neighbors of node 5
    assert!(!ids.is_empty(), "should still return some results");
}

#[test]
fn pruning_leaves_out_deleted_nodes_and_keeps_the_closest() {
    let mut graph = TestGraph::new();
    for i in 0..6 {
        graph.add_node(vec![i as f32, 0.0], 0);
    }
    graph.deleted[1] = true;
    let kept = prune_neighbors(
        0,
        &vec![5, 4, 3, 2, 1],
        2,
        &|a: u32, b: u32| graph.between(a, b),
        &|id: u32| graph.is_deleted(id),
    );
    assert_eq!(kept, vec![2, 3]);
}

#[test]
fn walking_down_ends_at_a_local_minimum() {
    let mut graph = TestGraph::new();
    for i in 0..5 {
        graph.add_node(vec![i as f32, 0.0], 1);
    }
    graph.set_neighbors(0, 1, vec![1]);
    graph.set_neighbors(1, 1, vec![0, 2]);
    graph.set_neighbors(2, 1, vec![1, 4]);
    let reached = search_upper_layers(
        0,
        1,
        0,
        &|id: u32| graph.from(&[3.0, 0.0], id),
        &|id: u32, layer: u32| graph.read_neighbors(id, layer),
        &|id: u32| graph.is_deleted(id),
    );
    // Nodes 2 and 4 are equally far; the walk does not go on to an equal one.
    assert_eq!(reached, 2);
}

#[test]
fn a_narrow_beam_keeps_the_nearest() {
    let (graph, entry_point, _) = TestGraph::line(10);
    let found = search_layer(
        &[entry_point],
        2,
        0,
        &|id: u32| graph.from(&[0.0, 0.0], id),
        &|id: u32, layer: u32| graph.read_neighbors(id, layer),
        &|id: u32| graph.is_deleted(id),
        &|id: u32| id != 0,
    );
    let ids: Vec<u32> = found.iter().map(|r| r.0).collect();
    assert_eq!(ids, vec![1, 2]);
}

#[test]
fn a_node_above_all_others_becomes_the_entry_point() {
    let (mut graph, entry_point, max_layer) = TestGraph::line(3);
    let node = graph.add_node(vec![1.2, 0.0], 2);
    let query = graph.vectors[node as usize].clone();
    let result = insert(
        node,
        2,
        Some(entry_point),
        max_layer,
        4,
        16,
        &|id: u32| graph.from(&query, id),
        &|a: u32, b: u32| graph.between(a, b),
        &|id: u32, layer: u32| graph.read_neighbors(id, layer),
        &|id: u32| graph.is_deleted(id),
    );
    assert_eq!(result.new_entry_point, Some(node));
    assert_eq!(result.new_max_layer, Some(2));
    assert_eq!(result.connections[0].0, node);
    assert_eq!(result.connections[0].1, 0);
    assert_eq!(result.connections[0].2[0], 1);
}

#[test]
fn a_new_node_has_one_entry_per_layer_and_its_neighbors_point_back() {
    let mut graph = TestGraph::new();
    let mut entry_point: Option<u32> = None;
    let mut max_layer = 0u32;
    let m = 3u32;
    let levels = [2u32, 0, 1, 3, 0, 2, 1, 0, 0, 1];
    for (i, level) in levels.iter().enumerate() {
        let node = graph.add_node(vec![(i * 7 % 10) as f32, i as f32], *level);
        let query = graph.vectors[node as usize].clone();
        let result = insert(
            node,
            *level,
            entry_point,
            max_layer,
            m,
            16,
            &|id: u32| graph.from(&query, id),
            &|a: u32, b: u32| graph.between(a, b),
            &|id: u32, layer: u32| graph.read_neighbors(id, layer),
            &|id: u32| graph.is_deleted(id),
        );
        if entry_point.is_some() {
            for layer in 0..=(*level).min(max_layer) {
                let own: Vec<&(u32, u32, Vec<u32>)> = result
                    .connections
                    .iter()
                    .filter(|c| c.0 == node && c.1 == layer)
                    .collect();
                assert_eq!(own.len(), 1);
                assert!(own[0].2.len() <= m as usize && !own[0].2.contains(&node));
                for x in &own[0].2 {
                    assert!(result.connections.iter().any(|c| c.0 == *x && c.1 == layer));
                }
            }
            for c in &result.connections {
                assert!(c.1 <= (*level).min(max_layer));
                assert!(c.2.len() <= if c.1 == 0 { 2 * m as usize } else { m as usize });
            }
            assert_eq!(result.new_max_layer.is_some(), *level > max_layer);
        }
        graph.apply_insert(&result);
        if let Some(ep) = result.new_entry_point {
            entry_point = Some(ep);
        }
        if let Some(ml) = result.new_max_layer {
            max_layer = ml;
        }
    }
}

#[test]
fn only_nodes_that_can_be_reached_are_found() {
    let mut graph = TestGraph::new();
    for i in 0..5 {
        graph.add_node(vec![i as f32, 0.0], 0);
    }
    graph.set_neighbors(0, 0, vec![1]);
    graph.set_neighbors(1, 0, vec![2]);
    graph.set_neighbors(3, 0, vec![4, 0]);
    let query = vec![4.0f32, 0.0];
    let found = search_layer(
        &[0],
        10,
        0,
        &|id: u32| graph.from(&query, id),
        &|id: u32, layer: u32| graph.read_neighbors(id, layer),
        &|id: u32| graph.is_deleted(id),
        &|_: u32| true,
    );
    let ids: Vec<u32> = found.iter().map(|r| r.0).collect();
    assert_eq!(ids, vec![2, 1, 0]);
}
