use std::collections::hash_map::DefaultHasher;
use std::hash::{Hash, Hasher};

use aresadb::float::{float_key, float_key32, float_less};
use aresadb::order::{order_by, Direction};
use aresadb::storage::vector::{DistanceMetric, VectorNodeBuilder, VectorSearch};
use aresadb::storage::vector_index::{
    LayerSearch, VectorIndex, VectorIndexError, EF_CONSTRUCTION,
};
use aresadb::storage::{Node, NodeId, Timestamp};
use aresadb::tally::tally;

fn bits(v: &[f32]) -> Vec<u32> {
    v.iter().map(|x| x.to_bits()).collect()
}

fn floats(v: &[u32]) -> Vec<f32> {
    v.iter().map(|x| f32::from_bits(*x)).collect()
}

fn cosine(a: &[f32], b: &[f32]) -> f64 {
    let dot: f64 = a.iter().zip(b).map(|(x, y)| *x as f64 * *y as f64).sum();
    let na: f64 = a.iter().map(|x| (*x as f64).powi(2)).sum::<f64>().sqrt();
    let nb: f64 = b.iter().map(|x| (*x as f64).powi(2)).sum::<f64>().sqrt();
    dot / (na * nb)
}

fn euclidean(a: &[f32], b: &[f32]) -> f64 {
    a.iter().zip(b).map(|(x, y)| (*x as f64 - *y as f64).powi(2)).sum::<f64>().sqrt()
}

fn random_vector(dim: usize, seed: u64) -> Vec<f32> {
    (0..dim)
        .map(|i| {
            let mut hasher = DefaultHasher::new();
            seed.hash(&mut hasher);
            i.hash(&mut hasher);
            let h = hasher.finish();
            (h as f64 / u64::MAX as f64 * 2.0 - 1.0) as f32
        })
        .collect()
}

fn distance(index: &VectorIndex, slot: usize, query: &[f32]) -> i64 {
    let v = floats(index.vector(slot).unwrap());
    float_key((1.0 - cosine(&v, query)).to_bits())
}

fn walk(index: &VectorIndex, entry: usize, query: &[f32], ef: usize) -> Vec<(usize, i64)> {
    let mut search = LayerSearch::new(index, entry, distance(index, entry, query), ef);
    while let Some(slot) = search.next(index) {
        search.note(index, distance(index, slot, query));
    }
    search.finish(index)
}

fn insert(index: &mut VectorIndex, id: NodeId, vector: Vec<f32>) -> Result<(), VectorIndexError> {
    let near = match index.begin_insert(vector.len())? {
        Some(entry) => walk(index, entry, &vector, EF_CONSTRUCTION),
        None => Vec::new(),
    };
    index.insert(id, bits(&vector), 0, &near);
    Ok(())
}

fn search(
    index: &VectorIndex,
    query: &[f32],
    k: usize,
) -> Result<Vec<(NodeId, i64)>, VectorIndexError> {
    match index.search(query.len(), k)? {
        Some((entry, ef)) => {
            let found = walk(index, entry, query, ef);
            Ok(index.nearest(&found, k))
        }
        None => Ok(Vec::new()),
    }
}

#[test]
fn test_index_insert_search() {
    let mut index = VectorIndex::new(64);

    for i in 0..100 {
        insert(&mut index, NodeId::new(), random_vector(64, i)).ok().unwrap();
    }

    assert_eq!(index.len(), 100);

    let query = random_vector(64, 42);
    let results = search(&index, &query, 10).ok().unwrap();

    assert!(results.len() <= 10);
    assert!(!results.is_empty());
    for i in 1..results.len() {
        assert!(results[i].1 >= results[i - 1].1);
    }
}

#[test]
fn test_index_remove() {
    let mut index = VectorIndex::new(32);

    let id1 = NodeId::new();
    let id2 = NodeId::new();

    insert(&mut index, id1, random_vector(32, 1)).ok().unwrap();
    insert(&mut index, id2, random_vector(32, 2)).ok().unwrap();

    assert_eq!(index.len(), 2);

    assert!(index.remove(&id1));
    assert_eq!(index.len(), 1);

    assert!(!index.remove(&id1));
}

#[test]
fn test_index_empty() {
    let index = VectorIndex::new(16);
    assert!(index.is_empty());

    let results = search(&index, &random_vector(16, 0), 10).ok().unwrap();
    assert!(results.is_empty());
}

#[test]
fn test_dimension_mismatch() {
    let mut index = VectorIndex::new(32);

    let wrong_dim_vector = vec![0.1f32; 64];

    match insert(&mut index, NodeId::new(), wrong_dim_vector) {
        Err(e) => assert!(e.message().contains("32") && e.message().contains("64")),
        Ok(()) => panic!("Expected a mismatch"),
    }
    assert!(search(&index, &[1.0], 1).is_err());
}

#[test]
fn test_index_stats() {
    let mut index = VectorIndex::new(16);

    for i in 0..50 {
        insert(&mut index, NodeId::new(), random_vector(16, i)).ok().unwrap();
    }

    let stats = index.stats();
    assert_eq!(stats.num_vectors, 50);
    assert_eq!(stats.dimension, 16);
    let average = stats.total_connections as f64 / stats.num_vectors as f64;
    assert!(average >= 0.0);
}

#[test]
fn test_search_accuracy() {
    let mut index = VectorIndex::new(8);

    let target_id = NodeId::new();
    let target_vector = vec![1.0, 0.0, 0.0, 0.0, 0.0, 0.0, 0.0, 0.0];
    insert(&mut index, target_id, target_vector.clone()).ok().unwrap();

    for i in 0..20 {
        insert(&mut index, NodeId::new(), random_vector(8, i)).ok().unwrap();
    }

    let results = search(&index, &target_vector, 1).ok().unwrap();
    assert!(!results.is_empty());
    assert!(results[0].0.same(&target_id));
}

#[test]
fn a_removed_vector_is_not_found() {
    let mut index = VectorIndex::with_params(2, 8, 4, DistanceMetric::Cosine);
    assert_eq!(index.max_connections(), 8);
    let ids: Vec<NodeId> = (0..4).map(|_| NodeId::new()).collect();
    let vectors = [[1.0, 0.0], [0.9, 0.1], [0.0, 1.0], [0.5, 0.5]];
    for (id, v) in ids.iter().zip(vectors) {
        insert(&mut index, *id, v.to_vec()).ok().unwrap();
    }
    assert!(search(&index, &[1.0, 0.0], 1).ok().unwrap()[0].0.same(&ids[0]));
    assert!(index.remove(&ids[0]));
    assert!(search(&index, &[1.0, 0.0], 1).ok().unwrap()[0].0.same(&ids[1]));
}

fn scores(nodes: &[Node], query: &[f32]) -> Vec<Option<i64>> {
    nodes
        .iter()
        .map(|n| {
            n.get("embedding").and_then(|v| v.as_vector()).map(|v| {
                float_key(cosine(&floats(v), query).to_bits())
            })
        })
        .collect()
}

fn distances(nodes: &[Node], query: &[f32]) -> Vec<f64> {
    nodes
        .iter()
        .map(|n| euclidean(&floats(n.get("embedding").unwrap().as_vector().unwrap()), query))
        .collect()
}

fn doc(text: &str, v: &[f32]) -> Node {
    VectorNodeBuilder::new("doc").text("content", text).embedding("embedding", bits(v)).build()
}

#[test]
fn test_vector_search_cosine() {
    let search = VectorSearch::new(DistanceMetric::Cosine);
    assert_eq!(search.metric, DistanceMetric::Cosine);
    let nodes = vec![
        doc("Hello world", &[1.0, 0.0, 0.0]),
        doc("Goodbye world", &[0.0, 1.0, 0.0]),
        doc("Different", &[-1.0, 0.0, 0.0]),
    ];

    let query = vec![1.0, 0.0, 0.0];
    assert_eq!(VectorSearch::candidates(&nodes, "embedding"), vec![0, 1, 2]);
    let results = VectorSearch::search(&scores(&nodes, &query), 3);

    assert_eq!(results.len(), 3);
    let best = floats(nodes[results[0]].get("embedding").unwrap().as_vector().unwrap());
    assert!(cosine(&best, &query) > 0.99);
    assert_eq!(results, vec![0, 1, 2]);
}

#[test]
fn test_vector_search_euclidean() {
    let nodes = vec![doc("", &[0.0, 0.0]), doc("", &[1.0, 0.0]), doc("", &[10.0, 10.0])];

    let far = distances(&nodes, &[0.0, 0.0]);
    let scores: Vec<Option<i64>> =
        far.iter().map(|d| Some(float_key((1.0 / (1.0 + d)).to_bits()))).collect();
    let results = VectorSearch::search(&scores, 2);

    assert_eq!(results.len(), 2);
    assert!(far[results[0]] < 0.01);
}

#[test]
fn test_radius_search() {
    let nodes = vec![doc("", &[0.0, 0.0]), doc("", &[0.5, 0.0]), doc("", &[10.0, 10.0])];

    let keys: Vec<Option<i64>> = distances(&nodes, &[0.0, 0.0])
        .iter()
        .map(|d| Some(float_key(d.to_bits())))
        .collect();
    let results = VectorSearch::search_radius(&keys, float_key(1.0f64.to_bits()));

    assert_eq!(results.len(), 2);
    assert_eq!(results, vec![0, 1]);
}

#[test]
fn keys_run_as_numbers_do() {
    let numbers = [-1.0e9, -2.5, -1.0e-9, 0.0, 1.0e-9, 0.5, 2.0, 7.0e12];
    for pair in numbers.windows(2) {
        let (a, b): (f64, f64) = (pair[0], pair[1]);
        assert!(float_key(a.to_bits()) < float_key(b.to_bits()));
        assert!(float_less(a.to_bits(), b.to_bits()));
        assert!(!float_less(b.to_bits(), a.to_bits()));
        assert!(float_key32((a as f32).to_bits()) < float_key32((b as f32).to_bits()));
    }
    assert_eq!(float_key((-0.0f64).to_bits()), float_key(0.0f64.to_bits()));
}

#[test]
fn sorting_is_stable() {
    let keys = [3, 1, 3, 2, 1];
    assert_eq!(order_by(&keys, Direction::Ascending), vec![1, 4, 3, 0, 2]);
    assert_eq!(order_by(&keys, Direction::Descending), vec![0, 2, 3, 1, 4]);
    assert!(order_by(&[], Direction::Ascending).is_empty());
}

#[test]
fn words_are_tallied() {
    let words: Vec<String> = "b a b".split(' ').map(|s| s.to_string()).collect();
    let mut counts = tally(&words);
    counts.sort();
    assert_eq!(counts, vec![("a".to_string(), 1), ("b".to_string(), 2)]);
}

#[test]
fn a_built_node_has_what_it_was_given() {
    let id = NodeId { uuid: [7; 16] };
    let node = VectorNodeBuilder::new("doc")
        .text("title", "T")
        .embedding("e", bits(&[1.0]))
        .build_at(id, Timestamp { millis: 5 });
    assert_eq!(node.id, id);
    assert_eq!(node.node_type, "doc");
    assert_eq!(node.get("title").and_then(|v| v.as_str()), Some("T"));
    assert_eq!(node.get("e").and_then(|v| v.vector_dimension()), Some(1));
    assert_eq!(node.created_at.millis, 5);
    assert_eq!(node.updated_at.millis, 5);
}
