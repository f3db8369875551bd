//! Metrics, and what is asked of a vector before its distance is taken.

use pg_am_hnsw::graph::{check_pair, check_shape, find_nonfinite, is_finite, is_zero};
use pg_am_hnsw::{HnswError, Metric, NeighborSelection};

fn bits(v: &[f32]) -> Vec<u32> {
    v.iter().map(|x| x.to_bits()).collect()
}

#[test]
fn codes_go_both_ways() {
    for m in [Metric::L2, Metric::Cosine, Metric::InnerProduct] {
        assert_eq!(Metric::from_discriminant(m.discriminant()).unwrap(), m);
    }
    for s in [NeighborSelection::Heuristic, NeighborSelection::Simple] {
        assert_eq!(NeighborSelection::from_discriminant(s.discriminant()).unwrap(), s);
    }
    assert!(matches!(Metric::from_discriminant(9), Err(HnswError::Corrupted(_))));
    assert!(matches!(
        NeighborSelection::from_discriminant(9),
        Err(HnswError::Corrupted(_))
    ));
}

#[test]
fn finite_is_decided_on_the_bits() {
    for x in [0.0f32, -0.0, 1.5, f32::MAX, f32::MIN, f32::MIN_POSITIVE, 1e-45] {
        assert!(is_finite(x.to_bits()), "{x}");
    }
    for x in [f32::NAN, -f32::NAN, f32::INFINITY, f32::NEG_INFINITY] {
        assert!(!is_finite(x.to_bits()), "{x}");
    }
    assert_eq!(find_nonfinite(&bits(&[1.0, f32::NAN, f32::INFINITY])), Some(1));
    assert_eq!(find_nonfinite(&bits(&[1.0, 2.0])), None);
}

#[test]
fn both_zeros_are_zero() {
    assert!(is_zero(&bits(&[0.0, -0.0])));
    assert!(!is_zero(&bits(&[0.0, 1e-45])));
}

#[test]
fn pairs_are_checked_in_order() {
    let err = check_pair(&bits(&[1.0, 2.0]), &bits(&[f32::NAN])).unwrap_err();
    assert!(err.to_string().contains("dimension mismatch: 2 vs 1"), "{}", err.to_string());
    let err = check_pair(&[], &[]).unwrap_err();
    assert!(err.to_string().contains("dim = 0"), "{}", err.to_string());
    let err = check_pair(&bits(&[1.0, 2.0]), &bits(&[1.0, f32::NEG_INFINITY])).unwrap_err();
    assert!(err.to_string().contains("non-finite"), "{}", err.to_string());
    check_pair(&bits(&[1.0]), &bits(&[2.0])).unwrap();
    assert!(matches!(check_shape(2, 1), Err(HnswError::InvalidArgument(_))));
    assert!(matches!(check_shape(0, 0), Err(HnswError::InvalidArgument(_))));
    check_shape(3, 3).unwrap();
}

#[test]
fn only_the_cosine_refuses_a_zero_vector() {
    let zero = bits(&[0.0, 0.0]);
    Metric::L2.check_vector(&zero).unwrap();
    Metric::InnerProduct.check_vector(&zero).unwrap();
    assert!(matches!(
        Metric::Cosine.check_vector(&zero),
        Err(HnswError::ZeroVector)
    ));
}
