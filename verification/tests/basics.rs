use vesto::error::VestoError;
use vesto::metrics::{metric_from_lowercase, parse_metric_from_str, score_key, total_less, float_less, Metric, MetricsName};
use vesto::params::{JsonParams, JsonScalar};
use vesto::ranking::{rank_top_k, sort_by_score};
use vesto::types::{EntityId, MetaValue, Metadata};

#[test]
fn metric_names_ignore_case() {
    assert_eq!(parse_metric_from_str("l2"), MetricsName::L2);
    assert_eq!(parse_metric_from_str("L2"), MetricsName::L2);
    assert_eq!(parse_metric_from_str("cosine"), MetricsName::Cosine);
    assert_eq!(parse_metric_from_str("anything"), MetricsName::Cosine);
    assert_eq!(parse_metric_from_str(""), MetricsName::Cosine);
    assert_eq!(metric_from_lowercase("l2"), MetricsName::L2);
    assert_eq!(metric_from_lowercase("L2"), MetricsName::Cosine);
    assert_eq!(Metric::new(MetricsName::L2).name(), MetricsName::L2);
}

#[test]
fn score_order_is_the_float_total_order() {
    let vals = [f32::NEG_INFINITY, -2.0, -0.0, 0.0, 1.0, 3.5, f32::INFINITY];
    for i in 0..vals.len() {
        for j in 0..vals.len() {
            let a = vals[i].to_bits();
            let b = vals[j].to_bits();
            assert_eq!(total_less(a, b), vals[i].total_cmp(&vals[j]).is_lt());
            assert_eq!(float_less(a, b), vals[i] < vals[j]);
        }
    }
    assert!(!float_less(f32::NAN.to_bits(), 1.0f32.to_bits()));
    assert!(!float_less((-0.0f32).to_bits(), 0.0f32.to_bits()));
    assert!(total_less((-0.0f32).to_bits(), 0.0f32.to_bits()));
    assert_eq!(score_key(0.0f32.to_bits()), 0x8000_0000);
}

#[test]
fn ranking_is_stable_and_cut() {
    let items = vec![
        (3.0f32.to_bits(), EntityId(0)),
        (1.0f32.to_bits(), EntityId(1)),
        (3.0f32.to_bits(), EntityId(2)),
        ((-1.0f32).to_bits(), EntityId(3)),
    ];
    let sorted = sort_by_score(&items);
    let order: Vec<u64> = sorted.iter().map(|(_, id)| id.0).collect();
    assert_eq!(order, vec![3, 1, 0, 2]);
    let top = rank_top_k(&items, 2);
    let order: Vec<u64> = top.iter().map(|(_, id)| id.0).collect();
    assert_eq!(order, vec![3, 1]);
    assert_eq!(rank_top_k(&items, 0).len(), 0);
    assert_eq!(rank_top_k(&items, 9).len(), 4);
}

#[test]
fn json_params_lookup() {
    let p = JsonParams {
        fields: vec![
            ("a".to_string(), JsonScalar::UInt(7)),
            ("b".to_string(), JsonScalar::Bool(true)),
            ("c".to_string(), JsonScalar::Other),
        ],
    };
    assert_eq!(p.get_u64("a"), Some(7));
    assert_eq!(p.get_u64("b"), None);
    assert_eq!(p.get_bool("b"), Some(true));
    assert_eq!(p.get_bool("c"), None);
    assert!(p.get("d").is_none());
    assert!(JsonParams::empty().get("a").is_none());
}

#[test]
fn error_messages() {
    assert_eq!(
        VestoError::DimensionMismatch { expected: 3, received: 12 }.message(),
        "Dimension mismatch: expected 3, got 12."
    );
    assert_eq!(VestoError::ZeroVector.message(), "Cannot compute with zero vector.");
    assert_eq!(VestoError::KeyNotFound.message(), "Key Not Found");
    assert_eq!(VestoError::EmptyIndex.message(), "Empty Index");
    assert_eq!(
        VestoError::RequiredParameterMissing { param: "store".to_string() }.message(),
        "Required parameter \"store\" is missing."
    );
}

#[test]
fn metadata_copies_keep_their_content() {
    let m = Metadata {
        fields: vec![
            ("t".to_string(), MetaValue::Text("x".to_string())),
            ("i".to_string(), MetaValue::Int(-3)),
            ("f".to_string(), MetaValue::Float(1.5f32.to_bits())),
            ("b".to_string(), MetaValue::Bool(true)),
        ],
    };
    let c = m.duplicate();
    assert_eq!(c.fields.len(), 4);
    assert_eq!(c.fields[0].0, "t");
    assert!(matches!(&c.fields[0].1, MetaValue::Text(s) if s == "x"));
    assert!(matches!(c.fields[1].1, MetaValue::Int(-3)));
    assert!(matches!(c.fields[3].1, MetaValue::Bool(true)));
}
