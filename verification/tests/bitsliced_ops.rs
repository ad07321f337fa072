//! Bitsliced vector, carry-save and soft-ternary checks.

use embeddenator::soft::SoftTernaryVec;
use embeddenator::ternary::Trit;
use embeddenator::{BitslicedTritVec, CarrySaveBundle, SparseVec};

#[test]
fn test_get_set() {
    let mut v = BitslicedTritVec::new_zero(100);
    v.set(0, Trit::P);
    v.set(1, Trit::N);
    v.set(63, Trit::P);
    v.set(64, Trit::N);
    v.set(99, Trit::P);
    assert_eq!(v.get(0), Trit::P);
    assert_eq!(v.get(1), Trit::N);
    assert_eq!(v.get(2), Trit::Z);
    assert_eq!(v.get(63), Trit::P);
    assert_eq!(v.get(64), Trit::N);
    assert_eq!(v.get(99), Trit::P);
    assert_eq!(v.nnz(), 5);
}

#[test]
fn test_bind() {
    let mut a = BitslicedTritVec::new_zero(10);
    let mut b = BitslicedTritVec::new_zero(10);
    a.set(0, Trit::P);
    b.set(0, Trit::P);
    a.set(1, Trit::P);
    b.set(1, Trit::N);
    a.set(2, Trit::N);
    b.set(2, Trit::N);
    a.set(3, Trit::P);
    b.set(3, Trit::Z);
    let c = a.bind(&b);
    assert_eq!(c.get(0), Trit::P);
    assert_eq!(c.get(1), Trit::N);
    assert_eq!(c.get(2), Trit::P);
    assert_eq!(c.get(3), Trit::Z);
}

#[test]
fn test_bundle() {
    let mut a = BitslicedTritVec::new_zero(10);
    let mut b = BitslicedTritVec::new_zero(10);
    a.set(0, Trit::P);
    b.set(0, Trit::P);
    a.set(1, Trit::P);
    b.set(1, Trit::N);
    a.set(2, Trit::P);
    b.set(2, Trit::Z);
    a.set(3, Trit::N);
    b.set(3, Trit::N);
    let c = a.bundle(&b);
    assert_eq!(c.get(0), Trit::P);
    assert_eq!(c.get(1), Trit::Z);
    assert_eq!(c.get(2), Trit::P);
    assert_eq!(c.get(3), Trit::N);
}

#[test]
fn test_dot() {
    let mut a = BitslicedTritVec::new_zero(10);
    let mut b = BitslicedTritVec::new_zero(10);
    a.set(0, Trit::P);
    b.set(0, Trit::P);
    a.set(1, Trit::P);
    b.set(1, Trit::N);
    a.set(2, Trit::N);
    b.set(2, Trit::N);
    assert_eq!(a.dot(&b), 1);
}

#[test]
fn test_sparse_roundtrip() {
    let sparse = SparseVec { pos: vec![0, 5, 63, 64, 127], neg: vec![1, 10, 100] };
    let bitsliced = BitslicedTritVec::from_sparse(&sparse, 200);
    let back = bitsliced.to_sparse();
    assert_eq!(back.pos, sparse.pos);
    assert_eq!(back.neg, sparse.neg);
}

#[test]
fn test_carry_save_bundle() {
    let dim = 100;
    let mut acc = CarrySaveBundle::new(dim);
    for _ in 0..3 {
        let mut v = BitslicedTritVec::new_zero(dim);
        v.set(0, Trit::P);
        acc.accumulate(&v);
    }
    let result = acc.finalize();
    assert_eq!(result.get(0), Trit::P);
}

#[test]
fn test_permute_optimized_equivalence() {
    let dim = 1024;
    let sparse = SparseVec {
        pos: vec![0, 63, 64, 127, 128, 500, 1023],
        neg: vec![1, 62, 65, 126, 129, 501],
    };
    let v = BitslicedTritVec::from_sparse(&sparse, dim);
    for shift in [0, 1, 63, 64, 65, 128, 512, 1024] {
        let naive = v.permute(shift);
        let optimized = v.permute_optimized(shift);
        let check_positions = [0, 1, 62, 63, 64, 65, 126, 127, 128, 500, 501, 1022, 1023];
        for &i in &check_positions {
            assert_eq!(
                naive.get(i),
                optimized.get(i),
                "Mismatch at i={} for shift={}",
                i,
                shift
            );
        }
        assert_eq!(naive.nnz(), optimized.nnz(), "nnz mismatch for shift={}", shift);
    }
}

#[test]
fn test_permute_optimized_unaligned_fallback() {
    let dim = 1000;
    let sparse = SparseVec { pos: vec![0, 500, 999], neg: vec![1, 501] };
    let v = BitslicedTritVec::from_sparse(&sparse, dim);
    let result = v.permute_optimized(123);
    assert_eq!(result.nnz(), v.nnz());
    assert_eq!(result.len(), dim);
}

#[test]
fn test_permute_optimized_word_boundary() {
    let dim = 256;
    let mut v = BitslicedTritVec::new_zero(dim);
    v.set(0, Trit::P);
    v.set(63, Trit::N);
    v.set(64, Trit::P);
    v.set(127, Trit::N);
    v.set(128, Trit::P);
    v.set(191, Trit::N);
    v.set(192, Trit::P);
    v.set(255, Trit::N);
    let shifted = v.permute_optimized(64);
    assert_eq!(shifted.get(0), Trit::P, "pos 0 should have src value from 192");
    assert_eq!(shifted.get(64), Trit::P, "pos 64 should have src value from 0");
    assert_eq!(shifted.get(128), Trit::P, "pos 128 should have src value from 64");
}

#[test]
fn test_permute_optimized_bit_shift() {
    let dim = 128;
    let mut v = BitslicedTritVec::new_zero(dim);
    v.set(0, Trit::P);
    v.set(32, Trit::N);
    v.set(64, Trit::P);
    v.set(96, Trit::N);
    let shifted = v.permute_optimized(32);
    assert_eq!(shifted.get(0), Trit::N, "pos 0 should have src value from 96");
    assert_eq!(shifted.get(32), Trit::P, "pos 32 should have src value from 0");
}

#[test]
fn test_packed_interleaved_roundtrip() {
    let sparse = SparseVec { pos: vec![0, 31, 32, 63, 64, 150], neg: vec![1, 30, 33, 99] };
    let bitsliced = BitslicedTritVec::from_sparse(&sparse, 200);
    let packed = bitsliced.to_packed();
    let back = BitslicedTritVec::from_packed(&packed);
    assert_eq!(back.len(), bitsliced.len());
    for i in 0..200 {
        assert_eq!(back.get(i), bitsliced.get(i), "lane {} changed in packed roundtrip", i);
    }
}

#[test]
fn test_soft_get_set() {
    let mut v = SoftTernaryVec::new_zero(100);
    v.set(0, 3, false);
    v.set(1, 7, true);
    v.set(50, 1, false);
    v.set(99, 4, true);
    assert_eq!(v.get(0), (3, false));
    assert_eq!(v.get(1), (7, true));
    assert_eq!(v.get(50), (1, false));
    assert_eq!(v.get(99), (4, true));
    assert_eq!(v.get(2), (0, false));
    assert_eq!(v.get_signed(0), 3);
    assert_eq!(v.get_signed(1), -7);
    assert_eq!(v.get_signed(2), 0);
}

#[test]
fn test_soft_from_bitsliced() {
    let mut hard = BitslicedTritVec::new_zero(100);
    hard.set(0, Trit::P);
    hard.set(1, Trit::N);
    hard.set(50, Trit::P);
    let soft = SoftTernaryVec::from_bitsliced(&hard);
    assert_eq!(soft.get(0), (1, false));
    assert_eq!(soft.get(1), (1, true));
    assert_eq!(soft.get(2), (0, false));
    assert_eq!(soft.get(50), (1, false));
}

#[test]
fn test_soft_accumulate() {
    let mut soft = SoftTernaryVec::new_zero(100);
    for _ in 0..3 {
        let mut hard = BitslicedTritVec::new_zero(100);
        hard.set(0, Trit::P);
        soft.accumulate(&hard);
    }
    assert_eq!(soft.get(0), (3, false));
    let mut hard = BitslicedTritVec::new_zero(100);
    hard.set(0, Trit::N);
    soft.accumulate(&hard);
    assert_eq!(soft.get(0), (2, false));
}

#[test]
fn test_soft_saturation() {
    let mut soft = SoftTernaryVec::new_zero(100);
    for _ in 0..10 {
        let mut hard = BitslicedTritVec::new_zero(100);
        hard.set(0, Trit::P);
        soft.accumulate(&hard);
    }
    assert_eq!(soft.get(0), (7, false));
}

#[test]
fn test_soft_harden() {
    let mut soft = SoftTernaryVec::new_zero(100);
    soft.set(0, 3, false);
    soft.set(1, 5, true);
    soft.set(2, 1, false);
    soft.set(3, 0, false);
    let hard = soft.harden(2);
    assert_eq!(hard.get(0), Trit::P);
    assert_eq!(hard.get(1), Trit::N);
    assert_eq!(hard.get(2), Trit::Z);
    assert_eq!(hard.get(3), Trit::Z);
    let hard = soft.harden(1);
    assert_eq!(hard.get(2), Trit::P);
}

#[test]
fn test_soft_bundle() {
    let mut a = SoftTernaryVec::new_zero(100);
    let mut b = SoftTernaryVec::new_zero(100);
    a.set(0, 3, false);
    b.set(0, 4, false);
    a.set(1, 5, false);
    b.set(1, 3, true);
    let result = a.soft_bundle(&b);
    assert_eq!(result.get(0), (7, false));
    assert_eq!(result.get(1), (2, false));
}

#[test]
fn test_dot_with_hard() {
    let mut soft = SoftTernaryVec::new_zero(100);
    soft.set(0, 3, false);
    soft.set(1, 2, true);
    let mut hard = BitslicedTritVec::new_zero(100);
    hard.set(0, Trit::P);
    hard.set(1, Trit::P);
    assert_eq!(soft.dot_with_hard(&hard), 1);
    assert_eq!(soft.dot_with_hard_fast(&hard), 1);
    hard.set(1, Trit::N);
    assert_eq!(soft.dot_with_hard(&hard), 5);
    assert_eq!(soft.dot_with_hard_fast(&hard), 5);
}

#[test]
fn soft_ternary_test_nnz() {
    let mut soft = SoftTernaryVec::new_zero(100);
    soft.set(0, 3, false);
    soft.set(1, 1, true);
    soft.set(50, 7, false);
    assert_eq!(soft.nnz(), 3);
}
