//! Hybrid dispatcher checks: representation choice and cross-form
//! agreement.

use embeddenator::{
    BitslicedTritVec, BlockSparseTritVec, HybridTritVec, SparseVec, DIM, MIN_BLOCK_SPARSE_DIM,
};

fn cosine_hybrid(a: &HybridTritVec, b: &HybridTritVec, dim: usize) -> f64 {
    let d = a.dot(b, dim) as f64;
    let na = a.nnz(dim) as f64;
    let nb = b.nnz(dim) as f64;
    if na == 0.0 || nb == 0.0 {
        return 0.0;
    }
    d / (na.sqrt() * nb.sqrt())
}

fn cosine_sparse(a: &SparseVec, b: &SparseVec) -> f64 {
    let d = a.dot(b) as f64;
    let na = a.nnz() as f64;
    let nb = b.nnz() as f64;
    if na == 0.0 || nb == 0.0 {
        return 0.0;
    }
    d / (na.sqrt() * nb.sqrt())
}

#[test]
fn test_density_selection() {
    let sparse = SparseVec { pos: vec![0, 100], neg: vec![50] };
    let hybrid = HybridTritVec::from_sparse(sparse, 10000);
    assert!(hybrid.is_sparse());
    let dense_pos: Vec<usize> = (0..500).collect();
    let dense_neg: Vec<usize> = (500..1000).collect();
    let dense = SparseVec { pos: dense_pos, neg: dense_neg };
    let hybrid = HybridTritVec::from_sparse(dense, 10000);
    assert!(hybrid.is_bitsliced());
}

#[test]
fn test_bind_equivalence() {
    let a = SparseVec { pos: vec![0, 10, 100], neg: vec![5, 50] };
    let b = SparseVec { pos: vec![0, 5, 100], neg: vec![10, 50] };
    let sparse_result = a.bind(&b);
    let ha = HybridTritVec::from_sparse(a.clone(), DIM);
    let hb = HybridTritVec::from_sparse(b.clone(), DIM);
    let hybrid_result = ha.bind(&hb, DIM);
    let sparse_from_hybrid = hybrid_result.to_sparse(DIM);
    assert_eq!(sparse_result.pos, sparse_from_hybrid.pos);
    assert_eq!(sparse_result.neg, sparse_from_hybrid.neg);
}

#[test]
fn test_bundle_equivalence() {
    let a = SparseVec { pos: vec![0, 10, 100], neg: vec![5, 50] };
    let b = SparseVec { pos: vec![0, 5, 100], neg: vec![10, 50] };
    let sparse_result = a.bundle(&b);
    let ha = HybridTritVec::from_sparse(a.clone(), DIM);
    let hb = HybridTritVec::from_sparse(b.clone(), DIM);
    let hybrid_result = ha.bundle(&hb, DIM);
    let sparse_from_hybrid = hybrid_result.to_sparse(DIM);
    assert_eq!(sparse_result.pos, sparse_from_hybrid.pos);
    assert_eq!(sparse_result.neg, sparse_from_hybrid.neg);
}

#[test]
fn test_cosine_equivalence() {
    let a = SparseVec { pos: vec![0, 10, 100], neg: vec![5, 50] };
    let b = SparseVec { pos: vec![0, 5, 100], neg: vec![10, 50] };
    let sparse_cos = cosine_sparse(&a, &b);
    let ha = HybridTritVec::from_sparse(a, DIM);
    let hb = HybridTritVec::from_sparse(b, DIM);
    let hybrid_cos = cosine_hybrid(&ha, &hb, DIM);
    assert!((sparse_cos - hybrid_cos).abs() < 1e-10);
}

#[test]
fn test_cross_representation_bind() {
    let sparse_vec = SparseVec { pos: vec![0, 10, 100], neg: vec![5, 50] };
    let ha = HybridTritVec::from_sparse(sparse_vec.clone(), DIM);
    assert!(ha.is_sparse());
    let hb = HybridTritVec::from_bitsliced(BitslicedTritVec::from_sparse(&sparse_vec, DIM));
    assert!(hb.is_bitsliced());
    let result = ha.bind(&hb, DIM);
    let result_sparse = result.to_sparse(DIM);
    assert!(result_sparse.neg.is_empty());
    assert_eq!(result_sparse.pos.len(), sparse_vec.pos.len() + sparse_vec.neg.len());
}

#[test]
fn hybrid_test_bundle_many() {
    let vecs: Vec<SparseVec> = (0..5)
        .map(|i| SparseVec { pos: vec![i * 10, i * 10 + 1], neg: vec![i * 10 + 5] })
        .collect();
    let hybrids: Vec<HybridTritVec> =
        vecs.iter().map(|v| HybridTritVec::from_sparse(v.clone(), DIM)).collect();
    let result = HybridTritVec::bundle_many(&hybrids, DIM);
    assert!(result.is_bitsliced());
    assert!(result.nnz(DIM) > 0);
}

#[test]
fn test_small_dimension_stays_sparse() {
    let dense = SparseVec { pos: (0..100).collect(), neg: (100..200).collect() };
    let hybrid = HybridTritVec::from_sparse(dense, 200);
    assert!(hybrid.is_sparse(), "Small dim should stay sparse regardless of density");
}

#[test]
fn hybrid_test_negate() {
    let sparse = SparseVec { pos: vec![0, 10], neg: vec![5, 50] };
    let hybrid = HybridTritVec::from_sparse(sparse.clone(), DIM);
    let negated = hybrid.negate(DIM);
    let negated_sparse = negated.to_sparse(DIM);
    assert_eq!(negated_sparse.pos, sparse.neg);
    assert_eq!(negated_sparse.neg, sparse.pos);
}

#[test]
fn test_permute_hybrid() {
    let sparse = SparseVec { pos: vec![0, 100], neg: vec![50] };
    let hybrid = HybridTritVec::from_sparse(sparse.clone(), DIM);
    let permuted = hybrid.permute(100, DIM);
    assert_eq!(permuted.nnz(DIM), hybrid.nnz(DIM));
}

#[test]
fn test_block_sparse_selection_large_dim() {
    let large_dim = MIN_BLOCK_SPARSE_DIM;
    let sparse = SparseVec { pos: vec![0, 1000, 50000], neg: vec![500, 75000] };
    let hybrid = HybridTritVec::from_sparse(sparse, large_dim);
    assert!(hybrid.is_block_sparse(), "Large dim with low density should use block-sparse");
}

#[test]
fn test_block_sparse_not_selected_below_threshold() {
    let moderate_dim = 50_000;
    let sparse = SparseVec { pos: vec![0, 100], neg: vec![50] };
    let hybrid = HybridTritVec::from_sparse(sparse, moderate_dim);
    assert!(!hybrid.is_block_sparse(), "Moderate dim should not use block-sparse");
    assert!(hybrid.is_sparse());
}

#[test]
fn test_block_sparse_bind() {
    let large_dim = MIN_BLOCK_SPARSE_DIM;
    let a = SparseVec { pos: vec![0, 64, 1000], neg: vec![32, 500] };
    let b = SparseVec { pos: vec![0, 32, 1000], neg: vec![64, 500] };
    let ha = HybridTritVec::from_sparse(a.clone(), large_dim);
    let hb = HybridTritVec::from_sparse(b.clone(), large_dim);
    assert!(ha.is_block_sparse());
    assert!(hb.is_block_sparse());
    let result = ha.bind(&hb, large_dim);
    assert!(result.is_block_sparse());
    let result_sparse = result.to_sparse(DIM);
    assert!(result_sparse.pos.contains(&0));
    assert!(result_sparse.neg.contains(&64));
    assert!(result_sparse.neg.contains(&32));
    assert!(result_sparse.pos.contains(&500));
}

#[test]
fn test_block_sparse_bundle() {
    let large_dim = MIN_BLOCK_SPARSE_DIM;
    let a = SparseVec { pos: vec![0, 100], neg: vec![200] };
    let b = SparseVec { pos: vec![0, 200], neg: vec![100] };
    let ha = HybridTritVec::from_sparse(a, large_dim);
    let hb = HybridTritVec::from_sparse(b, large_dim);
    let result = ha.bundle(&hb, large_dim);
    assert!(result.is_block_sparse());
    let result_sparse = result.to_sparse(DIM);
    assert!(result_sparse.pos.contains(&0));
    assert!(!result_sparse.pos.contains(&100));
    assert!(!result_sparse.neg.contains(&100));
    assert!(!result_sparse.pos.contains(&200));
    assert!(!result_sparse.neg.contains(&200));
}

#[test]
fn test_block_sparse_cosine() {
    let large_dim = MIN_BLOCK_SPARSE_DIM;
    let sparse = SparseVec { pos: vec![0, 100, 1000], neg: vec![50, 500] };
    let ha = HybridTritVec::from_sparse(sparse.clone(), large_dim);
    let hb = HybridTritVec::from_sparse(sparse.clone(), large_dim);
    let cos = cosine_hybrid(&ha, &hb, large_dim);
    assert!((cos - 1.0).abs() < 1e-10, "Self-similarity should be 1.0, got {}", cos);
}

#[test]
fn test_block_sparse_dot() {
    let large_dim = MIN_BLOCK_SPARSE_DIM;
    let a = SparseVec { pos: vec![0, 100], neg: vec![200] };
    let b = SparseVec { pos: vec![0, 200], neg: vec![100] };
    let ha = HybridTritVec::from_sparse(a, large_dim);
    let hb = HybridTritVec::from_sparse(b, large_dim);
    let dot = ha.dot(&hb, large_dim);
    assert_eq!(dot, -1);
}

#[test]
fn test_block_sparse_negate() {
    let large_dim = MIN_BLOCK_SPARSE_DIM;
    let sparse = SparseVec { pos: vec![0, 100], neg: vec![50, 500] };
    let hybrid = HybridTritVec::from_sparse(sparse.clone(), large_dim);
    assert!(hybrid.is_block_sparse());
    let negated = hybrid.negate(large_dim);
    assert!(negated.is_block_sparse());
    let negated_sparse = negated.to_sparse(DIM);
    assert_eq!(negated_sparse.pos, sparse.neg);
    assert_eq!(negated_sparse.neg, sparse.pos);
}

#[test]
fn test_block_sparse_permute() {
    let large_dim = MIN_BLOCK_SPARSE_DIM;
    let sparse = SparseVec { pos: vec![0, 100], neg: vec![50] };
    let hybrid = HybridTritVec::from_sparse(sparse, large_dim);
    assert!(hybrid.is_block_sparse());
    let permuted = hybrid.permute(64, large_dim);
    assert_eq!(permuted.nnz(large_dim), hybrid.nnz(large_dim));
}

#[test]
fn test_cross_representation_block_sparse_and_sparse() {
    let large_dim = MIN_BLOCK_SPARSE_DIM;
    let sparse_vec = SparseVec { pos: vec![0, 100], neg: vec![50] };
    let ha = HybridTritVec::from_sparse(sparse_vec.clone(), large_dim);
    assert!(ha.is_block_sparse());
    let hb = HybridTritVec::from_sparse(sparse_vec.clone(), 200);
    assert!(hb.is_sparse());
    let result = ha.bind(&hb, large_dim);
    assert!(result.is_block_sparse());
    let result_sparse = result.to_sparse(DIM);
    assert!(result_sparse.neg.is_empty());
}

#[test]
fn test_cross_representation_block_sparse_and_bitsliced() {
    let large_dim = MIN_BLOCK_SPARSE_DIM;
    let sparse_vec = SparseVec { pos: vec![0, 100], neg: vec![50] };
    let ha = HybridTritVec::from_sparse(sparse_vec.clone(), large_dim);
    assert!(ha.is_block_sparse());
    let hb = HybridTritVec::from_bitsliced(BitslicedTritVec::from_sparse(&sparse_vec, large_dim));
    assert!(hb.is_bitsliced());
    let result = ha.bind(&hb, large_dim);
    assert!(result.is_block_sparse());
    let hb_small = HybridTritVec::from_bitsliced(BitslicedTritVec::from_sparse(&sparse_vec, 1000));
    let ha_small = HybridTritVec::from_sparse(sparse_vec.clone(), 200);
    let result_small = ha_small.bind(&hb_small, 1000);
    assert!(result_small.is_bitsliced());
}

#[test]
fn test_to_block_sparse_conversion() {
    let dim = 10000;
    let sparse = SparseVec { pos: vec![0, 100], neg: vec![50] };
    let h_sparse = HybridTritVec::from_sparse(sparse.clone(), dim);
    let bs1 = h_sparse.to_block_sparse(dim);
    assert_eq!(bs1.nnz(), 3);
    let h_bitsliced = HybridTritVec::from_bitsliced(BitslicedTritVec::from_sparse(&sparse, dim));
    let bs2 = h_bitsliced.to_block_sparse(dim);
    assert_eq!(bs2.nnz(), 3);
    let h_blocksparse =
        HybridTritVec::from_block_sparse(BlockSparseTritVec::from_sparse(&sparse, dim));
    let bs3 = h_blocksparse.to_block_sparse(dim);
    assert_eq!(bs3.nnz(), 3);
}

#[test]
fn test_from_block_sparse_constructor() {
    let dim = MIN_BLOCK_SPARSE_DIM;
    let sparse = SparseVec { pos: vec![0, 100], neg: vec![50] };
    let block_sparse = BlockSparseTritVec::from_sparse(&sparse, dim);
    let hybrid = HybridTritVec::from_block_sparse(block_sparse);
    assert!(hybrid.is_block_sparse());
    assert_eq!(hybrid.nnz(dim), 3);
}

#[test]
fn test_block_sparse_from_trait() {
    let dim = MIN_BLOCK_SPARSE_DIM;
    let sparse = SparseVec { pos: vec![0, 100], neg: vec![50] };
    let block_sparse = BlockSparseTritVec::from_sparse(&sparse, dim);
    let hybrid = HybridTritVec::from_block_sparse(block_sparse);
    assert!(hybrid.is_block_sparse());
}

#[test]
fn test_block_sparse_density_and_nnz() {
    let dim = MIN_BLOCK_SPARSE_DIM;
    let sparse = SparseVec { pos: vec![0, 100, 1000, 5000], neg: vec![50, 500] };
    let hybrid = HybridTritVec::from_sparse(sparse, dim);
    assert!(hybrid.is_block_sparse());
    assert_eq!(hybrid.nnz(dim), 6);
    let density = hybrid.nnz(dim) as f64 / dim as f64;
    let expected_density = 6.0 / dim as f64;
    assert!((density - expected_density).abs() < 1e-15);
}

#[test]
fn from_sparse_follows_the_dispatch_policy() {
    let mut small = SparseVec::new();
    small.pos = vec![1, 2, 3];
    assert!(HybridTritVec::from_sparse(small.clone(), 100).is_sparse());
    // Large and very sparse: block-sparse.
    assert!(HybridTritVec::from_sparse(small.clone(), 200_000).is_block_sparse());
    // Mid-size, sparse below a half percent: stays sparse.
    assert!(HybridTritVec::from_sparse(small.clone(), 1_000).is_sparse());
    // Mid-size and dense: bitsliced.
    let mut dense = SparseVec::new();
    dense.pos = (0..200usize).collect();
    assert!(HybridTritVec::from_sparse(dense, 300).is_bitsliced());
}
