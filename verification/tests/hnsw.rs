use std::collections::HashSet;

use vesto::error::VestoError;
use vesto::flat::VestoFlatIndex;
use vesto::hnsw::HNSWGraph;
use vesto::hnsw_index::{VestoHNSWIndex, VestoHNSWIndexExtraParams};
use vesto::metrics::MetricsName;
use vesto::params::{JsonParams, JsonScalar};
use vesto::store::VestoStore;
use vesto::types::EntityId;

fn bits(v: &[f32]) -> Vec<u32> {
    v.iter().map(|x| x.to_bits()).collect()
}

fn floats(v: &[u32]) -> Vec<f32> {
    v.iter().map(|x| f32::from_bits(*x)).collect()
}

fn kernel(m: MetricsName, a: &[u32], b: &[u32]) -> Result<u32, VestoError> {
    let a = floats(a);
    let b = floats(b);
    match m {
        MetricsName::Cosine => {
            if a.len() != b.len() {
                return Err(VestoError::DimensionMismatch { expected: a.len(), received: b.len() });
            }
            let an = a.iter().map(|x| x * x).sum::<f32>().sqrt();
            let bn = b.iter().map(|x| x * x).sum::<f32>().sqrt();
            if an == 0.0 || bn == 0.0 {
                return Err(VestoError::ZeroVector);
            }
            let ab: f32 = a.iter().zip(b.iter()).map(|(x, y)| x * y).sum();
            Ok((1.0 - ab / (an * bn)).to_bits())
        }
        MetricsName::L2 => {
            assert_eq!(a.len(), b.len());
            let s: f32 = a.iter().zip(b.iter()).map(|(x, y)| (x - y) * (x - y)).sum();
            Ok(s.sqrt().to_bits())
        }
    }
}

fn random_level() -> usize {
    let m_l = 1.0 / (16f32).ln();
    (-(1.0 - rand::random::<f32>()).ln() * m_l).floor() as usize
}

#[test]
fn finds_obvious_nearest() {
    let mut store = VestoStore::new(2);
    let ids = store
        .insert(vec![
            bits(&[1.0, 0.0]),
            bits(&[0.9, 0.1]),
            bits(&[0.0, 1.0]),
            bits(&[0.0, 0.9]),
        ])
        .unwrap();

    let mut hnsw = VestoHNSWIndex::new("h", MetricsName::L2, None);
    hnsw.insert(ids.clone(), Some(&store), None, &kernel, &random_level).unwrap();

    let query = bits(&[0.95, 0.08]);
    let results = hnsw.search(&store, &query, 2, None, &kernel).unwrap();
    assert_eq!(results[0].1, ids[1]);
}

#[test]
fn heuristic_favors_diversity_over_closest_pair() {
    let mut store = VestoStore::new(2);
    let ids = store
        .insert(vec![bits(&[1.0, 0.0]), bits(&[1.0, 0.2]), bits(&[0.0, 1.05])])
        .unwrap();
    let query = bits(&[0.0, 0.0]);

    let mut graph = HNSWGraph::new(MetricsName::L2, false, false, false);

    let simple: HashSet<_> = graph
        .select_neighbors(&store, &kernel, &query, &ids, 2, None, None)
        .unwrap()
        .into_iter()
        .map(|(_, id)| id)
        .collect();
    assert_eq!(simple, HashSet::from([ids[0], ids[1]]));

    graph.set_use_heuristic_selection(true);
    let heuristic: HashSet<_> = graph
        .select_neighbors(&store, &kernel, &query, &ids, 2, None, None)
        .unwrap()
        .into_iter()
        .map(|(_, id)| id)
        .collect();
    assert_eq!(heuristic, HashSet::from([ids[0], ids[2]]));
}

#[test]
fn hnsw_recall_vs_bruteforce() {
    let dim = 10;
    let n = 1000;
    let mut store = VestoStore::new(dim);

    let vecs: Vec<Vec<u32>> = (0..n)
        .map(|_| (0..dim).map(|_| rand::random::<f32>().to_bits()).collect())
        .collect();
    let ids = store.insert(vecs).unwrap();

    let mut flat = VestoFlatIndex::new("flat", MetricsName::L2);
    flat.insert(ids.clone()).unwrap();
    let mut hnsw = VestoHNSWIndex::new("hnsw", MetricsName::L2, None);
    let t = std::time::Instant::now();
    hnsw.insert(ids.clone(), Some(&store), None, &kernel, &random_level).unwrap();
    println!("hnsw build: {:?}", t.elapsed());

    let k = 10;
    let mut hits = 0;
    let mut total = 0;
    for &qid in ids.iter().take(30) {
        let q = store.get(&qid).unwrap();
        let truth: HashSet<_> = flat
            .search(&store, &kernel, &q, k)
            .unwrap()
            .into_iter()
            .map(|(_, id)| id)
            .collect();
        let got: HashSet<_> = hnsw
            .search(&store, &q, k, None, &kernel)
            .unwrap()
            .into_iter()
            .map(|(_, id)| id)
            .collect();
        hits += truth.intersection(&got).count();
        total += truth.len();
    }
    let recall = hits as f32 / total as f32;
    println!("recall@{k} = {recall:.3}");
    assert!(recall > 0.8, "recall too low: {recall}");
}

#[test]
fn empty_hnsw_index_reports_empty_index() {
    let store = VestoStore::new(2);
    let hnsw = VestoHNSWIndex::new("h", MetricsName::L2, None);
    assert!(hnsw.is_empty());
    assert_eq!(hnsw.len(), 0);
    let r = hnsw.search(&store, &bits(&[0.0, 0.0]), 3, None, &kernel);
    assert!(matches!(r, Err(VestoError::EmptyIndex)));
}

#[test]
fn hnsw_insert_without_store_is_refused() {
    let mut hnsw = VestoHNSWIndex::new("h", MetricsName::L2, None);
    let r = hnsw.insert(vec![EntityId(0)], None, None, &kernel, &random_level);
    match r {
        Err(VestoError::RequiredParameterMissing { param }) => assert_eq!(param, "store"),
        _ => panic!("expected a missing store"),
    }
}

#[test]
fn levels_shape_the_graph() {
    let mut store = VestoStore::new(1);
    let ids = store.insert(vec![bits(&[0.0]), bits(&[1.0]), bits(&[2.0])]).unwrap();
    let mut hnsw = VestoHNSWIndex::new("h", MetricsName::L2, None);
    hnsw.insert(vec![ids[0]], Some(&store), None, &kernel, &|| 2usize).unwrap();
    assert_eq!(hnsw.len(), 3);
    hnsw.insert(vec![ids[1]], Some(&store), None, &kernel, &|| 0usize).unwrap();
    assert_eq!(hnsw.len(), 3);
    hnsw.insert(vec![ids[2]], Some(&store), None, &kernel, &|| 4usize).unwrap();
    assert_eq!(hnsw.len(), 5);
    let r = hnsw.search(&store, &bits(&[1.9]), 1, None, &kernel).unwrap();
    assert_eq!(r[0].1, ids[2]);
}

#[test]
fn json_params_override_the_tuning() {
    let hnsw = VestoHNSWIndex::new(
        "h",
        MetricsName::L2,
        Some(VestoHNSWIndexExtraParams {
            max_connections: 4,
            max_connections_per_layer: 5,
            ef_construction: 6,
            use_heuristic_selection: false,
            extend_candidates: Some(true),
            keep_pruned_connections: None,
        }),
    );
    let none = hnsw.extract_from_json_params(None);
    assert_eq!(none.max_connections, 4);
    assert_eq!(none.max_connections_per_layer, 5);
    assert_eq!(none.ef_construction, 6);
    assert!(!none.use_heuristic_selection);
    assert_eq!(none.extend_candidates, None);
    let params = JsonParams {
        fields: vec![
            ("ef_construction".to_string(), JsonScalar::UInt(40)),
            ("max_connections".to_string(), JsonScalar::Other),
            ("use_heuristic_selection".to_string(), JsonScalar::Bool(true)),
            ("keep_pruned_connections".to_string(), JsonScalar::Bool(false)),
            ("ef_construction".to_string(), JsonScalar::UInt(99)),
        ],
    };
    let p = hnsw.extract_from_json_params(Some(&params));
    assert_eq!(p.ef_construction, 40);
    assert_eq!(p.max_connections, 4);
    assert_eq!(p.max_connections_per_layer, 5);
    assert!(p.use_heuristic_selection);
    assert_eq!(p.extend_candidates, None);
    assert_eq!(p.keep_pruned_connections, Some(false));
}

#[test]
fn graph_neighbourhoods_after_inserts() {
    let mut store = VestoStore::new(1);
    let ids = store.insert(vec![bits(&[0.0]), bits(&[1.0])]).unwrap();
    let mut graph = HNSWGraph::new(MetricsName::L2, true, false, true);
    graph.insert(&store, &kernel, ids[0], 16, 16, 100, 0, None, None).unwrap();
    assert_eq!(graph.entry_point(), Some(ids[0]));
    assert_eq!(graph.num_layers(), 1);
    assert!(graph.neighbourhood(&ids[0], 0).is_empty());
    graph.insert(&store, &kernel, ids[1], 16, 16, 100, 0, None, None).unwrap();
    assert_eq!(graph.neighbourhood(&ids[1], 0), &[ids[0]]);
    assert_eq!(graph.neighbourhood(&ids[0], 0), &[ids[1]]);
    assert!(graph.neighbourhood(&EntityId(9), 0).is_empty());
    let near = graph.nearest_element(&store, &kernel, &vec![ids[0], ids[1]], &bits(&[0.8])).unwrap();
    assert_eq!(near, Some((1, ids[1])));
}

#[test]
fn heuristic_keeps_order_and_refills_from_discards() {
    let mut store = VestoStore::new(2);
    // distances to the origin: 1.0, 1.2 (next to the first), 2.0 (far side), 3.0
    let ids = store
        .insert(vec![bits(&[1.0, 0.0]), bits(&[1.2, 0.0]), bits(&[0.0, 2.0]), bits(&[0.0, -3.0])])
        .unwrap();
    let query = bits(&[0.0, 0.0]);
    let graph = HNSWGraph::new(MetricsName::L2, true, false, false);
    let cands = vec![ids[3], ids[1], ids[2], ids[0]];

    let kept = graph
        .select_neighbors_heuristic(&store, &kernel, &query, cands.clone(), 4, 0, false, false)
        .unwrap();
    let kept_ids: Vec<EntityId> = kept.iter().map(|(_, id)| *id).collect();
    assert_eq!(kept_ids, vec![ids[0], ids[2], ids[3]]);
    assert_eq!(f32::from_bits(kept[0].0), 1.0);

    let refilled = graph
        .select_neighbors_heuristic(&store, &kernel, &query, cands.clone(), 4, 0, false, true)
        .unwrap();
    let refilled_ids: Vec<EntityId> = refilled.iter().map(|(_, id)| *id).collect();
    assert_eq!(refilled_ids, vec![ids[0], ids[2], ids[3], ids[1]]);

    let capped = graph
        .select_neighbors_heuristic(&store, &kernel, &query, cands, 1, 0, false, true)
        .unwrap();
    assert_eq!(capped.len(), 1);
    assert_eq!(capped[0].1, ids[0]);
}

#[test]
fn layer_search_finds_each_entity_once() {
    let mut store = VestoStore::new(2);
    let ids = store.insert(vec![bits(&[0.0, 0.0]), bits(&[1.0, 0.0])]).unwrap();
    let mut graph = HNSWGraph::new(MetricsName::L2, false, false, false);
    graph.insert(&store, &kernel, ids[0], 16, 16, 100, 0, None, None).unwrap();
    graph.insert(&store, &kernel, ids[1], 16, 16, 100, 0, None, None).unwrap();
    let w = graph.search_layer(&store, &kernel, &bits(&[0.0, 0.0]), &vec![ids[0]], 2, 0).unwrap();
    let found: HashSet<EntityId> = w.iter().copied().collect();
    assert_eq!(w.len(), 2);
    assert_eq!(found, HashSet::from([ids[0], ids[1]]));
}

#[test]
fn knn_search_returns_the_nearest_not_a_diverse_pick() {
    let mut store = VestoStore::new(2);
    let ids = store
        .insert(vec![bits(&[1.0, 0.0]), bits(&[1.0, 0.2]), bits(&[0.0, 1.05])])
        .unwrap();
    let mut idx = VestoHNSWIndex::new("h", MetricsName::L2, None);
    idx.insert(ids.clone(), Some(&store), None, &kernel, &|| 0).unwrap();
    let r = idx.search(&store, &bits(&[0.0, 0.0]), 2, None, &kernel).unwrap();
    let got: Vec<EntityId> = r.iter().map(|(_, id)| *id).collect();
    assert_eq!(got, vec![ids[0], ids[1]]);
}

#[test]
fn extended_candidates_are_not_taken_twice() {
    let mut store = VestoStore::new(1);
    let ids = store.insert(vec![bits(&[1.0]), bits(&[2.0]), bits(&[3.0])]).unwrap();
    let mut graph = HNSWGraph::new(MetricsName::L2, false, false, false);
    for id in &ids {
        graph.insert(&store, &kernel, *id, 16, 16, 100, 0, None, None).unwrap();
    }
    let r = graph
        .select_neighbors_heuristic(&store, &kernel, &bits(&[0.0]), ids.clone(), 10, 0, true, true)
        .unwrap();
    let got: Vec<EntityId> = r.iter().map(|(_, id)| *id).collect();
    assert_eq!(got.len(), 3);
    let set: HashSet<EntityId> = got.iter().copied().collect();
    assert_eq!(set.len(), 3);
}

#[test]
fn inserted_graph_lists_are_sets_within_their_caps() {
    let mut store = VestoStore::new(2);
    let mut vs = Vec::new();
    for i in 0..30u32 {
        vs.push(bits(&[(i % 6) as f32, (i / 6) as f32 * 0.7]));
    }
    let ids = store.insert(vs).unwrap();
    for heuristic in [false, true] {
        let mut graph = HNSWGraph::new(MetricsName::L2, heuristic, false, true);
        for (n, id) in ids.iter().enumerate() {
            graph.insert(&store, &kernel, *id, 2, 3, 10, n % 3, None, None).unwrap();
        }
        assert_eq!(graph.num_layers(), 3);
        for l in 0..graph.num_layers() {
            for id in &ids {
                let nb = graph.neighbourhood(id, l);
                let set: HashSet<EntityId> = nb.iter().copied().collect();
                assert_eq!(set.len(), nb.len());
                assert!(!set.contains(id));
                assert!(nb.len() <= if l == 0 { 4 } else { 3 });
                assert!(nb.iter().all(|x| ids.contains(x)));
            }
        }
    }
}

#[test]
fn hnsw_index_is_empty_until_an_id_goes_in() {
    let mut store = VestoStore::new(1);
    let ids = store.insert(vec![bits(&[0.0])]).unwrap();
    let mut idx = VestoHNSWIndex::new("h", MetricsName::L2, None);
    assert!(idx.is_empty());
    idx.insert(vec![], Some(&store), None, &kernel, &|| 0usize).unwrap();
    assert!(idx.is_empty());
    assert!(idx.insert(ids.clone(), None, None, &kernel, &|| 0usize).is_err());
    assert!(idx.is_empty());
    idx.insert(ids, Some(&store), None, &kernel, &|| 0usize).unwrap();
    assert!(!idx.is_empty());
}
