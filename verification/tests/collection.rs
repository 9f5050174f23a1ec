use vesto::collection::Collection;
use vesto::error::VestoError;
use vesto::flat::VestoFlatIndex;
use vesto::index::VestoIndex;
use vesto::metrics::MetricsName;
use vesto::types::{EntityId, MetaValue, Metadata};
use vesto::vector_field::VectorField;
use vesto::Vesto;

fn bits(v: &[f32]) -> Vec<u32> {
    v.iter().map(|x| x.to_bits()).collect()
}

fn floats(v: &[u32]) -> Vec<f32> {
    v.iter().map(|x| f32::from_bits(*x)).collect()
}

fn kernel(m: MetricsName, a: &[u32], b: &[u32]) -> Result<u32, VestoError> {
    let a = floats(a);
    let b = floats(b);
    match m {
        MetricsName::Cosine => {
            let an = a.iter().map(|x| x * x).sum::<f32>().sqrt();
            let bn = b.iter().map(|x| x * x).sum::<f32>().sqrt();
            if an == 0.0 || bn == 0.0 {
                return Err(VestoError::ZeroVector);
            }
            let ab: f32 = a.iter().zip(b.iter()).map(|(x, y)| x * y).sum();
            Ok((1.0 - ab / (an * bn)).to_bits())
        }
        MetricsName::L2 => {
            let s: f32 = a.iter().zip(b.iter()).map(|(x, y)| (x - y) * (x - y)).sum();
            Ok(s.sqrt().to_bits())
        }
    }
}

fn level() -> usize {
    0
}

fn meta(tag: &str) -> Metadata {
    Metadata { fields: vec![("tag".to_string(), MetaValue::Text(tag.to_string()))] }
}

#[test]
fn collection_insert_and_search_with_metadata() {
    let mut c = Collection::new("docs");
    assert_eq!(c.name(), "docs");
    c.create_index_by_type("emb", "flat_idx", "FLAT", "l2", 2).unwrap();
    c.create_index_by_type("emb", "hnsw_idx", "Hnsw", "L2", 2).unwrap();
    let ids = c
        .insert("emb", vec![bits(&[0.0, 0.0]), bits(&[1.0, 1.0]), bits(&[5.0, 5.0])], Some(vec![meta("a"), meta("b"), meta("c")]), &kernel, &level)
        .unwrap();
    assert_eq!(ids, vec![EntityId(0), EntityId(1), EntityId(2)]);
    let r = c.search("emb", "flat_idx", &bits(&[0.9, 0.9]), 2, true, &kernel).unwrap();
    assert_eq!(r.len(), 2);
    assert_eq!(r[0].1, bits(&[1.0, 1.0]));
    assert!(matches!(&r[0].2, Some(m) if matches!(&m.fields[0].1, MetaValue::Text(s) if s == "b")));
    let h = c.search("emb", "hnsw_idx", &bits(&[4.0, 4.0]), 1, false, &kernel).unwrap();
    assert_eq!(h[0].1, bits(&[5.0, 5.0]));
    assert!(h[0].2.is_none());
}

#[test]
fn collection_errors() {
    let mut c = Collection::new("docs");
    assert!(matches!(
        c.insert("emb", vec![bits(&[0.0])], None, &kernel, &level),
        Err(VestoError::KeyNotFound)
    ));
    c.add_vector_field("emb", 1).unwrap();
    assert!(matches!(c.add_vector_field("emb", 1), Err(VestoError::DuplicateVectorField)));
    assert!(matches!(
        c.insert("emb", vec![bits(&[0.0])], Some(vec![]), &kernel, &level),
        Err(VestoError::MetadataLengthMismatch)
    ));
    assert!(matches!(
        c.insert("emb", vec![bits(&[0.0, 1.0])], None, &kernel, &level),
        Err(VestoError::DimensionMismatch { expected: 1, received: 2 })
    ));
    assert!(matches!(c.search("nope", "i", &bits(&[0.0]), 1, false, &kernel), Err(VestoError::KeyNotFound)));
    assert!(matches!(c.search("emb", "i", &bits(&[0.0]), 1, false, &kernel), Err(VestoError::KeyNotFound)));
    assert!(matches!(c.create_index_by_type("emb", "i", "ivf", "l2", 1), Err(VestoError::UnknownIndexType)));
    c.create_index_by_type("emb", "i", "flat", "l2", 1).unwrap();
    assert!(matches!(c.create_index_by_type("emb", "i", "hnsw", "l2", 1), Err(VestoError::DuplicateIndex)));
}

#[test]
fn add_index_adds_and_reports_bad_header() {
    let mut c = Collection::new("docs");
    let idx = VestoIndex::Flat(VestoFlatIndex::new("f", MetricsName::L2));
    assert!(matches!(c.add_index("emb", idx, 1), Err(VestoError::BadHeader)));
    let again = VestoIndex::Flat(VestoFlatIndex::new("f", MetricsName::L2));
    assert!(matches!(c.add_index("emb", again, 1), Err(VestoError::DuplicateIndex)));
    c.insert("emb", vec![bits(&[2.0])], None, &kernel, &level).unwrap();
    let r = c.search("emb", "f", &bits(&[0.0]), 5, false, &kernel).unwrap();
    assert_eq!(r.len(), 1);
}

#[test]
fn vector_field_indexes_get_new_vectors() {
    let mut f = VectorField::new("v", 1);
    assert_eq!(f.name(), "v");
    f.create_index_by_type("i".to_string(), "flat".to_string(), MetricsName::L2).unwrap();
    let ids = f.insert(vec![bits(&[3.0]), bits(&[1.0])], &kernel, &level).unwrap();
    assert_eq!(ids.len(), 2);
    let r = f.search("i", &bits(&[0.0]), 1, &kernel).unwrap();
    assert_eq!(r[0].1, EntityId(1));
    assert_eq!(r[0].2, bits(&[1.0]));
    assert_eq!(f.store().len(), 2);
}

#[test]
fn vesto_registers_collections_once() {
    let mut v = Vesto::new();
    assert_eq!(v.len(), 0);
    v.add_collection(Collection::new("a")).unwrap();
    v.add_collection(Collection::new("b")).unwrap();
    assert!(matches!(v.add_collection(Collection::new("a")), Err(VestoError::DuplicateCollection)));
    assert_eq!(v.len(), 2);
    assert_eq!(v.get_collection("b").unwrap().name(), "b");
    assert!(v.get_collection("c").is_none());
    let c = v.get_collection_mut("a").unwrap();
    c.add_vector_field("x", 1).unwrap();
    assert!(matches!(v.get_collection_mut("a").unwrap().add_vector_field("x", 1), Err(VestoError::DuplicateVectorField)));
}

#[test]
fn index_errors_reach_the_caller_after_storing() {
    let mut c = Collection::new("docs");
    c.create_index_by_type("emb", "h", "hnsw", "cosine", 2).unwrap();
    c.create_index_by_type("emb", "f", "flat", "cosine", 2).unwrap();
    let r = c.insert("emb", vec![bits(&[0.0, 0.0]), bits(&[1.0, 0.0])], Some(vec![meta("z"), meta("x")]), &kernel, &level);
    assert!(matches!(r, Err(VestoError::ZeroVector)));
    let field = c.vector_field("emb").unwrap();
    assert_eq!(field.store().len(), 2);
    assert_eq!(field.store().next_id(), 2);
    // the indexes are updated in the order they were created, so the flat
    // index, created after the failing one, did not get the new ids
    let s = c.search("emb", "f", &bits(&[1.0, 0.0]), 5, true, &kernel).unwrap();
    assert_eq!(s.len(), 0);
}

#[test]
fn search_results_carry_vectors_scores_and_only_recorded_metadata() {
    let mut c = Collection::new("docs");
    c.create_index_by_type("emb", "f", "flat", "l2", 1).unwrap();
    c.insert("emb", vec![bits(&[3.0])], None, &kernel, &level).unwrap();
    c.insert("emb", vec![bits(&[1.0])], Some(vec![meta("one")]), &kernel, &level).unwrap();
    let r = c.search("emb", "f", &bits(&[0.0]), 5, true, &kernel).unwrap();
    assert_eq!(r.len(), 2);
    assert_eq!(f32::from_bits(r[0].0), 1.0);
    assert_eq!(r[0].1, bits(&[1.0]));
    assert!(r[0].2.is_some());
    assert_eq!(f32::from_bits(r[1].0), 3.0);
    assert!(r[1].2.is_none());
    assert!(c.vector_field("other").is_none());
}
