//! Trit, tryte and word algebra checks.

use embeddenator::ternary::{ParityTrit, Trit, Tryte3, Word6};

#[test]
fn test_trit_multiplication_truth_table() {
    assert_eq!(Trit::N.mul(Trit::N), Trit::P, "N x N = P");
    assert_eq!(Trit::N.mul(Trit::Z), Trit::Z, "N x Z = Z");
    assert_eq!(Trit::N.mul(Trit::P), Trit::N, "N x P = N");
    assert_eq!(Trit::Z.mul(Trit::N), Trit::Z, "Z x N = Z");
    assert_eq!(Trit::Z.mul(Trit::Z), Trit::Z, "Z x Z = Z");
    assert_eq!(Trit::Z.mul(Trit::P), Trit::Z, "Z x P = Z");
    assert_eq!(Trit::P.mul(Trit::N), Trit::N, "P x N = N");
    assert_eq!(Trit::P.mul(Trit::Z), Trit::Z, "P x Z = Z");
    assert_eq!(Trit::P.mul(Trit::P), Trit::P, "P x P = P");
}

#[test]
fn test_trit_self_inverse() {
    assert_eq!(Trit::P.mul(Trit::P), Trit::P, "P is self-inverse");
    assert_eq!(Trit::N.mul(Trit::N), Trit::P, "N is self-inverse");
}

#[test]
fn test_trit_multiplication_commutative() {
    let all = [Trit::N, Trit::Z, Trit::P];
    for &a in &all {
        for &b in &all {
            assert_eq!(a.mul(b), b.mul(a), "Commutativity: {:?} x {:?}", a, b);
        }
    }
}

#[test]
fn test_trit_multiplication_associative() {
    let all = [Trit::N, Trit::Z, Trit::P];
    for &a in &all {
        for &b in &all {
            for &c in &all {
                assert_eq!(
                    a.mul(b).mul(c),
                    a.mul(b.mul(c)),
                    "Associativity: ({:?} x {:?}) x {:?}",
                    a,
                    b,
                    c
                );
            }
        }
    }
}

#[test]
fn test_trit_negation() {
    assert_eq!(Trit::N.neg(), Trit::P);
    assert_eq!(Trit::Z.neg(), Trit::Z);
    assert_eq!(Trit::P.neg(), Trit::N);
    let all = [Trit::N, Trit::Z, Trit::P];
    for &t in &all {
        assert_eq!(t.neg().neg(), t, "Double negation of {:?}", t);
    }
}

#[test]
fn test_trit_add_with_carry_complete() {
    let expected: [((Trit, Trit, Trit), (Trit, Trit)); 27] = [
        ((Trit::N, Trit::N, Trit::N), (Trit::Z, Trit::N)),
        ((Trit::N, Trit::Z, Trit::N), (Trit::P, Trit::N)),
        ((Trit::N, Trit::P, Trit::N), (Trit::N, Trit::Z)),
        ((Trit::Z, Trit::N, Trit::N), (Trit::P, Trit::N)),
        ((Trit::Z, Trit::Z, Trit::N), (Trit::N, Trit::Z)),
        ((Trit::Z, Trit::P, Trit::N), (Trit::Z, Trit::Z)),
        ((Trit::P, Trit::N, Trit::N), (Trit::N, Trit::Z)),
        ((Trit::P, Trit::Z, Trit::N), (Trit::Z, Trit::Z)),
        ((Trit::P, Trit::P, Trit::N), (Trit::P, Trit::Z)),
        ((Trit::N, Trit::N, Trit::Z), (Trit::P, Trit::N)),
        ((Trit::N, Trit::Z, Trit::Z), (Trit::N, Trit::Z)),
        ((Trit::N, Trit::P, Trit::Z), (Trit::Z, Trit::Z)),
        ((Trit::Z, Trit::N, Trit::Z), (Trit::N, Trit::Z)),
        ((Trit::Z, Trit::Z, Trit::Z), (Trit::Z, Trit::Z)),
        ((Trit::Z, Trit::P, Trit::Z), (Trit::P, Trit::Z)),
        ((Trit::P, Trit::N, Trit::Z), (Trit::Z, Trit::Z)),
        ((Trit::P, Trit::Z, Trit::Z), (Trit::P, Trit::Z)),
        ((Trit::P, Trit::P, Trit::Z), (Trit::N, Trit::P)),
        ((Trit::N, Trit::N, Trit::P), (Trit::N, Trit::Z)),
        ((Trit::N, Trit::Z, Trit::P), (Trit::Z, Trit::Z)),
        ((Trit::N, Trit::P, Trit::P), (Trit::P, Trit::Z)),
        ((Trit::Z, Trit::N, Trit::P), (Trit::Z, Trit::Z)),
        ((Trit::Z, Trit::Z, Trit::P), (Trit::P, Trit::Z)),
        ((Trit::Z, Trit::P, Trit::P), (Trit::N, Trit::P)),
        ((Trit::P, Trit::N, Trit::P), (Trit::P, Trit::Z)),
        ((Trit::P, Trit::Z, Trit::P), (Trit::N, Trit::P)),
        ((Trit::P, Trit::P, Trit::P), (Trit::Z, Trit::P)),
    ];
    for ((a, b, c), (expected_sum, expected_carry)) in expected {
        let (sum, carry) = a.add_with_carry(b, c);
        assert_eq!(
            (sum, carry),
            (expected_sum, expected_carry),
            "add_with_carry({:?}, {:?}, {:?})",
            a,
            b,
            c
        );
    }
}

#[test]
fn test_tryte3_roundtrip() {
    for v in Tryte3::MIN_VALUE..=Tryte3::MAX_VALUE {
        let tryte = Tryte3::from_i8(v).unwrap_or_else(|| panic!("Should create tryte for {}", v));
        let decoded = tryte.to_i8();
        assert_eq!(v, decoded, "Roundtrip failed for {}", v);
    }
}

#[test]
fn test_tryte3_pack_unpack() {
    for packed in 0..27u8 {
        let tryte = Tryte3::unpack(packed).expect("Should unpack");
        let repacked = tryte.pack();
        assert_eq!(packed, repacked, "Pack/unpack failed for {}", packed);
    }
}

#[test]
fn test_tryte3_bind_self_inverse() {
    for v in Tryte3::MIN_VALUE..=Tryte3::MAX_VALUE {
        let tryte = Tryte3::from_i8(v).unwrap();
        let bound = tryte.mul(tryte);
        for i in 0..3 {
            if tryte.trits[i].is_nonzero() {
                assert_eq!(
                    bound.trits[i],
                    Trit::P,
                    "Self-bind trit {} should be P for value {}",
                    i,
                    v
                );
            }
        }
    }
}

#[test]
fn test_word6_roundtrip() {
    let test_values = [0, 1, -1, 13, -13, 100, -100, 364, -364];
    for &v in &test_values {
        let word = Word6::from_i16(v).unwrap_or_else(|| panic!("Should create word for {}", v));
        let decoded = word.to_i16();
        assert_eq!(v, decoded, "Roundtrip failed for {}", v);
    }
}

#[test]
fn test_word6_pack_unpack() {
    for packed in (0..729u16).step_by(7) {
        let word = Word6::unpack(packed).expect("Should unpack");
        let repacked = word.pack();
        assert_eq!(packed, repacked, "Pack/unpack failed for {}", packed);
    }
}

#[test]
fn test_parity_detection() {
    let trits = vec![Trit::P, Trit::N, Trit::P, Trit::Z, Trit::N];
    let parity = ParityTrit::compute(&trits);
    assert!(parity.verify(&trits), "Parity should verify");
    let mut corrupted = trits.clone();
    corrupted[0] = Trit::N;
    assert!(!parity.verify(&corrupted), "Parity should fail on corrupted data");
}

#[test]
fn test_word6_unpack_rejects_out_of_range() {
    assert!(Word6::unpack(729).is_none());
    assert!(Tryte3::unpack(27).is_none());
    assert!(Tryte3::from_i8(14).is_none());
    assert!(Tryte3::from_i8(-14).is_none());
    assert!(Word6::from_i16(365).is_none());
    assert!(Word6::from_i16(-365).is_none());
}
