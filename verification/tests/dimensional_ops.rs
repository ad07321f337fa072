//! Variable-depth tryte checks.

use embeddenator::dimensional::{Trit, Tryte};

#[test]
fn test_trit_multiplication() {
    assert_eq!(Trit::Pos.mul(Trit::Pos), Trit::Pos);
    assert_eq!(Trit::Pos.mul(Trit::Neg), Trit::Neg);
    assert_eq!(Trit::Neg.mul(Trit::Neg), Trit::Pos);
    assert_eq!(Trit::Zero.mul(Trit::Pos), Trit::Zero);
}

#[test]
fn test_tryte_roundtrip() {
    let test_values = [0i64, 1, -1, 42, -42, 100, -100, 364, -364];
    for &value in &test_values {
        let tryte = Tryte::from_i64(value, 6);
        let decoded = tryte.to_i64();
        assert_eq!(value, decoded, "Roundtrip failed for {}", value);
    }
}

#[test]
fn test_tryte_max_values() {
    assert_eq!(Tryte::max_value(6), 364);
    assert_eq!(Tryte::min_value(6), -364);
    assert_eq!(Tryte::max_value(8), 3280);
}

#[test]
fn test_tryte_bundle_and_dot() {
    let a = Tryte::from_i64(5, 4);
    let b = Tryte::from_i64(-5, 4);
    let bundled = a.bundle(&b);
    assert_eq!(bundled.to_i64(), 0, "Opposite digits cancel");
    let dotted = a.dot(&a);
    assert_eq!(dotted, a.norm_squared(), "Self-dot counts non-zero digits");
}

#[test]
fn tryte_dot_uses_min_depth() {
    let a = embeddenator::Tryte::from_i64(4, 3);
    let b = embeddenator::Tryte::from_i64(4, 6);
    // Digits of 4 are (+1, +1, 0); the longer operand's tail is zero,
    // so the sum over the shared depth is 1 + 1 + 0 = 2.
    assert_eq!(a.dot(&b), 2);
    assert_eq!(b.dot(&a), 2);
}
