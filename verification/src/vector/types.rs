//! Options and metrics of vector collections.

use crate::filter::Filter;
use vstd::prelude::*;

verus! {

/// Distance metric for vector similarity search.
#[derive(Debug, Clone, Copy, PartialEq, Eq, Structural)]
pub enum DistanceMetric {
    /// Cosine distance (1 - cosine similarity). Range [0, 2].
    Cosine,
    /// Euclidean (L2) distance. Range [0, inf).
    Euclidean,
    /// Negative dot product (lower = more similar). Range (-inf, inf).
    DotProduct,
}

/// The number under which a metric is stored.
pub open spec fn metric_tag(metric: DistanceMetric) -> u8 {
    match metric {
        DistanceMetric::Cosine => 0,
        DistanceMetric::Euclidean => 1,
        DistanceMetric::DotProduct => 2,
    }
}

impl DistanceMetric {
    pub fn to_tag(self) -> (t: u8)
        ensures
            t == metric_tag(self),
    {
        match self {
            DistanceMetric::Cosine => 0,
            DistanceMetric::Euclidean => 1,
            DistanceMetric::DotProduct => 2,
        }
    }

    pub fn from_tag(tag: u8) -> (r: Option<DistanceMetric>)
        ensures
            r matches Some(m) ==> metric_tag(m) == tag,
            r is None <==> tag > 2,
    {
        match tag {
            0 => Some(DistanceMetric::Cosine),
            1 => Some(DistanceMetric::Euclidean),
            2 => Some(DistanceMetric::DotProduct),
            _ => None,
        }
    }
}

/// Metrics have different tags.
pub proof fn metric_tags_differ(a: DistanceMetric, b: DistanceMetric)
    ensures
        metric_tag(a) == metric_tag(b) <==> a == b,
{
}

/// Options for creating a vector collection.
pub struct VectorCollectionOptions {
    pub dimensions: u32,
    pub metric: DistanceMetric,
    /// Max connections per node per layer. Layer 0 gets twice as many.
    pub m: u32,
    /// Beam width during insert.
    pub ef_construction: u32,
}

impl Default for VectorCollectionOptions {
    fn default() -> (o: VectorCollectionOptions)
        ensures
            o.dimensions == 0,
            o.metric == DistanceMetric::Cosine,
            o.m == 16,
            o.ef_construction == 200,
    {
        VectorCollectionOptions {
            dimensions: 0,
            metric: DistanceMetric::Cosine,
            m: 16,
            ef_construction: 200,
        }
    }
}

impl VectorCollectionOptions {
    pub fn new(dimensions: u32, metric: DistanceMetric) -> (o: VectorCollectionOptions)
        ensures
            o.dimensions == dimensions,
            o.metric == metric,
            o.m == 16,
            o.ef_construction == 200,
    {
        VectorCollectionOptions { dimensions, metric, m: 16, ef_construction: 200 }
    }
}

/// Options for vector search queries.
pub struct VectorSearchOptions {
    pub k: u32,
    /// Beam width during search.
    pub ef_search: u32,
    /// Optional filter on the rows that the vectors belong to.
    pub filter: Option<Filter>,
}

impl Default for VectorSearchOptions {
    fn default() -> (o: VectorSearchOptions)
        ensures
            o.k == 10,
            o.ef_search == 10,
            o.filter is None,
    {
        VectorSearchOptions { k: 10, ef_search: 10, filter: None }
    }
}

impl VectorSearchOptions {
    pub fn new(k: u32) -> (o: VectorSearchOptions)
        ensures
            o.k == k,
            o.ef_search == if k > 10 {
                k
            } else {
                10
            },
            o.ef_search >= k && o.ef_search >= 10 && (o.ef_search == k || o.ef_search == 10),
            o.filter is None,
    {
        let ef_search: u32 = if k > 10 {
            k
        } else {
            10
        };
        VectorSearchOptions { k, ef_search, filter: None }
    }
}

/// A single search result: a row, and the key by which its distance is ordered.
#[derive(Debug, Clone, Copy)]
pub struct VectorResult {
    pub rowid: u64,
    pub distance: i64,
}

}
