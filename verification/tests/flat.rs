use vesto::error::VestoError;
use vesto::flat::VestoFlatIndex;
use vesto::metrics::MetricsName;
use vesto::store::VestoStore;
use vesto::types::EntityId;

fn bits(v: &[f32]) -> Vec<u32> {
    v.iter().map(|x| x.to_bits()).collect()
}

fn floats(v: &[u32]) -> Vec<f32> {
    v.iter().map(|x| f32::from_bits(*x)).collect()
}

fn kernel(m: MetricsName, a: &[u32], b: &[u32]) -> Result<u32, VestoError> {
    let a = floats(a);
    let b = floats(b);
    match m {
        MetricsName::Cosine => {
            if a.len() != b.len() {
                return Err(VestoError::DimensionMismatch { expected: a.len(), received: b.len() });
            }
            let an = a.iter().map(|x| x * x).sum::<f32>().sqrt();
            let bn = b.iter().map(|x| x * x).sum::<f32>().sqrt();
            if an == 0.0 || bn == 0.0 {
                return Err(VestoError::ZeroVector);
            }
            let ab: f32 = a.iter().zip(b.iter()).map(|(x, y)| x * y).sum();
            Ok((1.0 - ab / (an * bn)).to_bits())
        }
        MetricsName::L2 => {
            assert_eq!(a.len(), b.len());
            let s: f32 = a.iter().zip(b.iter()).map(|(x, y)| (x - y) * (x - y)).sum();
            Ok(s.sqrt().to_bits())
        }
    }
}

#[test]
fn search_returns_best_match() {
    println!("Vector data: Vesto");
    let mut index = VestoFlatIndex::new("test", MetricsName::Cosine);
    let mut store = VestoStore::new(3);
    let ids = store
        .insert(vec![
            bits(&[1.0, 0.0, 0.0]),
            bits(&[0.9, 0.1, 0.0]),
            bits(&[0.0, 1.0, 0.0]),
            bits(&[0.0, 0.0, 1.0]),
        ])
        .unwrap();
    index.insert(ids).unwrap();
    let results = index.search(&store, &kernel, &bits(&[1.0, 0.1, 0.0]), 2).unwrap();
    assert_eq!(results[0].1, EntityId(1));
}

#[test]
fn flat_search_is_sorted_and_cut_at_top_k() {
    let mut index = VestoFlatIndex::new("f", MetricsName::L2);
    let mut store = VestoStore::new(1);
    let ids = store.insert(vec![bits(&[5.0]), bits(&[1.0]), bits(&[3.0]), bits(&[2.0])]).unwrap();
    index.insert(ids).unwrap();
    assert_eq!(index.len(), 4);
    assert!(!index.is_empty());
    let r = index.search(&store, &kernel, &bits(&[0.0]), 3).unwrap();
    let got: Vec<u64> = r.iter().map(|(_, id)| id.0).collect();
    assert_eq!(got, vec![1, 3, 2]);
    assert_eq!(f32::from_bits(r[0].0), 1.0);
    let all = index.search(&store, &kernel, &bits(&[0.0]), 10).unwrap();
    assert_eq!(all.len(), 4);
}

#[test]
fn flat_search_keeps_insertion_order_on_ties() {
    let mut index = VestoFlatIndex::new("f", MetricsName::L2);
    let mut store = VestoStore::new(1);
    let ids = store.insert(vec![bits(&[1.0]), bits(&[-1.0]), bits(&[1.0])]).unwrap();
    index.insert(ids).unwrap();
    let r = index.search(&store, &kernel, &bits(&[0.0]), 3).unwrap();
    let got: Vec<u64> = r.iter().map(|(_, id)| id.0).collect();
    assert_eq!(got, vec![0, 1, 2]);
}

#[test]
fn flat_search_skips_unknown_ids_and_reports_metric_errors() {
    let mut index = VestoFlatIndex::new("f", MetricsName::Cosine);
    let mut store = VestoStore::new(2);
    let ids = store.insert(vec![bits(&[1.0, 0.0])]).unwrap();
    index.insert(vec![EntityId(42)]).unwrap();
    index.insert(ids).unwrap();
    let r = index.search(&store, &kernel, &bits(&[1.0, 0.0]), 5).unwrap();
    assert_eq!(r.len(), 1);
    assert_eq!(r[0].1, EntityId(0));
    let zero = index.search(&store, &kernel, &bits(&[0.0, 0.0]), 5);
    assert!(matches!(zero, Err(VestoError::ZeroVector)));
}

#[test]
fn new_flat_index_is_empty() {
    let index = VestoFlatIndex::new("name", MetricsName::L2);
    assert!(index.is_empty());
    assert_eq!(index.len(), 0);
    assert_eq!(index.name(), "name");
    assert_eq!(index.metric_name(), MetricsName::L2);
}
