//! Behaviour of the variable-precision hypervector surface.

use embeddenator::{DimensionalConfig, HyperVec};

#[test]
fn test_hypervec_bundle_commutative() {
    let config = DimensionalConfig::new_default();
    let a = HyperVec::from_dense(config.clone_config(), &[1, 0, -1, 1, 0]);
    let b = HyperVec::from_dense(config.clone_config(), &[0, 1, -1, 0, 1]);

    let ab = a.bundle(&b);
    let ba = b.bundle(&a);

    assert_eq!(ab.dimensions.len(), ba.dimensions.len());
    for (dim, tryte) in &ab.dimensions {
        assert_eq!(tryte.to_i64(), ba.get(*dim));
    }
}

#[test]
fn test_hypervec_bind_self_inverse() {
    let config = DimensionalConfig::new_default();
    let mut a = HyperVec::new(config.clone_config());
    a.set(0, 1);
    a.set(1, -1);
    a.set(2, 1);

    let aa = a.bind(&a);

    for (_, tryte) in &aa.dimensions {
        assert_eq!(tryte.to_i64(), 1, "Self-bind should produce +1");
    }
}

#[test]
fn test_hypervec_permute_inverse() {
    let config = DimensionalConfig::compact();
    let mut a = HyperVec::new(config.clone_config());
    a.set(0, 1);
    a.set(100, -1);
    a.set(500, 1);

    let permuted = a.permute(1000);
    let recovered = permuted.inverse_permute(1000);

    assert_eq!(a.get(0), recovered.get(0));
    assert_eq!(a.get(100), recovered.get(100));
    assert_eq!(a.get(500), recovered.get(500));
}

#[test]
fn hypervec_get_reads_dense_values() {
    let config = DimensionalConfig::compact();
    let a = HyperVec::from_dense(config.clone_config(), &[3, 0, -2]);
    assert_eq!(a.get(0), 3);
    assert_eq!(a.get(1), 0);
    assert_eq!(a.get(2), -2);
    assert_eq!(a.get(3), 0);
    assert_eq!(a.nnz(), 2);
}

#[test]
fn hypervec_bundle_saturates_digitwise() {
    let config = DimensionalConfig::new_default();
    let a = HyperVec::from_dense(config.clone_config(), &[4]);
    let b = HyperVec::from_dense(config.clone_config(), &[4]);
    // 4 is (+1, +1, 0) in balanced ternary digits; the digit-wise sign
    // of the doubled digits is the same digit string, so value 4 again.
    assert_eq!(a.bundle(&b).get(0), 4);
}

#[test]
fn hypervec_bundle_cancels_opposites() {
    let config = DimensionalConfig::new_default();
    let a = HyperVec::from_dense(config.clone_config(), &[5, 2]);
    let b = HyperVec::from_dense(config.clone_config(), &[-5, 0]);
    let r = a.bundle(&b);
    assert_eq!(r.get(0), 0);
    assert_eq!(r.get(1), 2);
    assert_eq!(r.nnz(), 1);
}

#[test]
fn hypervec_set_overwrites_and_clears() {
    let config = DimensionalConfig::new_default();
    let mut a = HyperVec::new(config.clone_config());
    a.set(7, 5);
    assert_eq!(a.get(7), 5);
    a.set(7, -2);
    assert_eq!(a.get(7), -2);
    assert_eq!(a.nnz(), 1);
    a.set(7, 0);
    assert_eq!(a.get(7), 0);
    assert_eq!(a.nnz(), 0);
}
