//! Block and block-sparse vector checks.

use embeddenator::{Block, BlockError, BlockSparseTritVec, SparseVec};

fn cosine_bsv(a: &BlockSparseTritVec, b: &BlockSparseTritVec) -> f64 {
    let d = a.dot(b) as f64;
    let na = a.nnz() as f64;
    let nb = b.nnz() as f64;
    if na == 0.0 || nb == 0.0 {
        return 0.0;
    }
    d / (na.sqrt() * nb.sqrt())
}

#[test]
fn test_block_zero() {
    let b = Block::zero();
    assert!(b.is_zero());
    assert!(b.is_valid());
    assert_eq!(b.nnz(), 0);
}

#[test]
fn test_block_is_valid() {
    assert!(Block::new(0xFF, 0).is_valid());
    assert!(Block::new(0, 0xFF).is_valid());
    assert!(Block::new(0xF0, 0x0F).is_valid());
    let invalid = Block { pos: 0x01, neg: 0x01 };
    assert!(!invalid.is_valid());
}

#[test]
fn test_block_nnz() {
    assert_eq!(Block::zero().nnz(), 0);
    assert_eq!(Block::new(0xFF, 0).nnz(), 8);
    assert_eq!(Block::new(0, 0xFF).nnz(), 8);
    assert_eq!(Block::new(0xF0, 0x0F).nnz(), 8);
    assert_eq!(Block::new(u64::MAX, 0).nnz(), 64);
}

#[test]
fn test_block_bind() {
    let a = Block::new(0b1111, 0);
    let b = Block::new(0b1111, 0);
    let r = a.bind(&b);
    assert_eq!(r.pos, 0b1111);
    assert_eq!(r.neg, 0);
    let a = Block::new(0, 0b1111);
    let b = Block::new(0, 0b1111);
    let r = a.bind(&b);
    assert_eq!(r.pos, 0b1111);
    assert_eq!(r.neg, 0);
    let a = Block::new(0b1111, 0);
    let b = Block::new(0, 0b1111);
    let r = a.bind(&b);
    assert_eq!(r.pos, 0);
    assert_eq!(r.neg, 0b1111);
    let a = Block::new(0b1100, 0b0011);
    let b = Block::new(0b1010, 0b0101);
    let r = a.bind(&b);
    assert_eq!(r.pos, 0b1001);
    assert_eq!(r.neg, 0b0110);
}

#[test]
fn test_block_bundle() {
    let a = Block::new(0b1111, 0);
    let b = Block::new(0b1111, 0);
    let r = a.bundle(&b);
    assert_eq!(r.pos, 0b1111);
    assert_eq!(r.neg, 0);
    let a = Block::new(0, 0b1111);
    let b = Block::new(0, 0b1111);
    let r = a.bundle(&b);
    assert_eq!(r.pos, 0);
    assert_eq!(r.neg, 0b1111);
    let a = Block::new(0b1111, 0);
    let b = Block::new(0, 0b1111);
    let r = a.bundle(&b);
    assert_eq!(r.pos, 0);
    assert_eq!(r.neg, 0);
    let a = Block::new(0b1111, 0);
    let b = Block::zero();
    let r = a.bundle(&b);
    assert_eq!(r.pos, 0b1111);
    assert_eq!(r.neg, 0);
}

#[test]
fn test_block_dot() {
    let a = Block::new(0xFF, 0);
    let b = Block::new(0xFF, 0);
    assert_eq!(a.dot(&b), 8);
    let a = Block::new(0, 0xFF);
    let b = Block::new(0, 0xFF);
    assert_eq!(a.dot(&b), 8);
    let a = Block::new(0xFF, 0);
    let b = Block::new(0, 0xFF);
    assert_eq!(a.dot(&b), -8);
    let a = Block::new(0b1100, 0b0011);
    let b = Block::new(0b1010, 0b0101);
    assert_eq!(a.dot(&b), 0);
}

#[test]
fn test_block_get_set_trit() {
    let mut b = Block::zero();
    b.set_trit(0, 1);
    assert_eq!(b.get_trit(0), 1);
    b.set_trit(1, -1);
    assert_eq!(b.get_trit(1), -1);
    b.set_trit(2, 0);
    assert_eq!(b.get_trit(2), 0);
    b.set_trit(0, -1);
    assert_eq!(b.get_trit(0), -1);
}

#[test]
fn test_block_negate() {
    let b = Block::new(0xFF00, 0x00FF);
    let n = b.negate();
    assert_eq!(n.pos, 0x00FF);
    assert_eq!(n.neg, 0xFF00);
}

#[test]
fn test_new_empty() {
    let v = BlockSparseTritVec::new(1_000_000);
    assert_eq!(v.dim(), 1_000_000);
    assert_eq!(v.nnz(), 0);
    assert_eq!(v.block_count(), 0);
    assert!(v.is_valid());
}

#[test]
fn test_insert_and_get_block() {
    let mut v = BlockSparseTritVec::new(1000);
    v.insert_block(5, Block::new(0xFF, 0));
    v.insert_block(10, Block::new(0, 0xFF));
    v.insert_block(2, Block::new(0xF0, 0x0F));
    assert_eq!(v.block_count(), 3);
    assert!(v.is_valid());
    let ids: Vec<u32> = v.blocks.iter().map(|(id, _)| *id).collect();
    assert_eq!(ids, vec![2, 5, 10]);
    assert_eq!(v.get_block(5).unwrap().pos, 0xFF);
    assert!(v.get_block(999).is_none());
}

#[test]
fn test_insert_zero_block_removes() {
    let mut v = BlockSparseTritVec::new(1000);
    v.insert_block(5, Block::new(0xFF, 0));
    assert_eq!(v.block_count(), 1);
    v.insert_block(5, Block::zero());
    assert_eq!(v.block_count(), 0);
}

#[test]
fn test_remove_block() {
    let mut v = BlockSparseTritVec::new(1000);
    v.insert_block(5, Block::new(0xFF, 0));
    v.insert_block(10, Block::new(0, 0xFF));
    let removed = v.remove_block(5);
    assert!(removed.is_some());
    assert_eq!(removed.unwrap().pos, 0xFF);
    assert_eq!(v.block_count(), 1);
    assert!(v.remove_block(999).is_none());
}

#[test]
fn test_from_sparse() {
    let sparse = SparseVec { pos: vec![0, 1, 64, 128], neg: vec![2, 65] };
    let v = BlockSparseTritVec::from_sparse(&sparse, 1000);
    assert_eq!(v.dim(), 1000);
    assert_eq!(v.block_count(), 3);
    assert!(v.is_valid());
    let b0 = v.get_block(0).unwrap();
    assert_eq!(b0.pos, 0b011);
    assert_eq!(b0.neg, 0b100);
    let b1 = v.get_block(1).unwrap();
    assert_eq!(b1.pos, 0b01);
    assert_eq!(b1.neg, 0b10);
}

#[test]
fn test_to_sparse_roundtrip() {
    let original = SparseVec { pos: vec![0, 63, 64, 127, 1000], neg: vec![1, 62, 65, 126, 1001] };
    let block = BlockSparseTritVec::from_sparse(&original, 10000);
    let recovered = block.to_sparse();
    assert_eq!(recovered.pos.len(), original.pos.len());
    assert_eq!(recovered.neg.len(), original.neg.len());
    let mut orig_pos = original.pos.clone();
    let mut orig_neg = original.neg.clone();
    orig_pos.sort();
    orig_neg.sort();
    assert_eq!(recovered.pos, orig_pos);
    assert_eq!(recovered.neg, orig_neg);
}

#[test]
fn test_bitsliced_roundtrip() {
    let mut pos = vec![0u64; 4];
    let mut neg = vec![0u64; 4];
    pos[0] = 0xFF;
    pos[2] = 0xF0F0;
    neg[1] = 0xAA;
    neg[3] = 0x5555;
    let dense = embeddenator::BitslicedTritVec::from_raw(256, pos.clone(), neg.clone());
    let sparse = BlockSparseTritVec::from_bitsliced(&dense);
    let recovered = sparse.to_bitsliced();
    assert_eq!(recovered.len(), dense.len());
    assert_eq!(recovered.pos_plane(), dense.pos_plane());
    assert_eq!(recovered.neg_plane(), dense.neg_plane());
}

#[test]
fn block_sparse_test_nnz() {
    let mut v = BlockSparseTritVec::new(1000);
    assert_eq!(v.nnz(), 0);
    v.insert_block(0, Block::new(0xFF, 0));
    assert_eq!(v.nnz(), 8);
    v.insert_block(1, Block::new(0xF0, 0x0F));
    assert_eq!(v.nnz(), 16);
}

#[test]
fn test_validate_overlap() {
    let mut v = BlockSparseTritVec::new(1000);
    v.blocks.push((0, Block { pos: 0x01, neg: 0x01 }));
    assert!(!v.is_valid());
    let err = v.validate().unwrap_err();
    match err {
        BlockError::Overlap { block_id, overlap } => {
            assert_eq!(block_id, 0);
            assert_eq!(overlap, 0x01);
        }
        _ => panic!("Expected overlap rejection"),
    }
}

#[test]
fn test_validate_unsorted() {
    let mut v = BlockSparseTritVec::new(1000);
    v.blocks.push((10, Block::new(0xFF, 0)));
    v.blocks.push((5, Block::new(0xFF, 0)));
    assert!(!v.is_valid());
    let err = v.validate().unwrap_err();
    match err {
        BlockError::UnsortedBlocks { index } => {
            assert_eq!(index, 1);
        }
        _ => panic!("Expected unsorted rejection"),
    }
}

#[test]
fn test_validate_zero_block() {
    let mut v = BlockSparseTritVec::new(1000);
    v.blocks.push((3, Block::new(0, 0)));
    assert!(!v.is_valid());
    let err = v.validate().unwrap_err();
    match err {
        BlockError::EmptyBlock { block_id } => {
            assert_eq!(block_id, 3);
        }
        _ => panic!("Expected zero-block rejection"),
    }
}

#[test]
fn test_bind_both_have_block() {
    let dim = 1000;
    let mut v1 = BlockSparseTritVec::new(dim);
    let mut v2 = BlockSparseTritVec::new(dim);
    v1.insert_block(0, Block::new(0xFF, 0));
    v2.insert_block(0, Block::new(0xFF, 0));
    let bound = v1.bind(&v2);
    assert_eq!(bound.block_count(), 1);
    assert_eq!(bound.get_block(0).unwrap().pos, 0xFF);
}

#[test]
fn test_bind_one_missing() {
    let dim = 1000;
    let mut v1 = BlockSparseTritVec::new(dim);
    let v2 = BlockSparseTritVec::new(dim);
    v1.insert_block(0, Block::new(0xFF, 0));
    let bound = v1.bind(&v2);
    assert_eq!(bound.block_count(), 0);
}

#[test]
fn test_bind_interleaved() {
    let dim = 1000;
    let mut v1 = BlockSparseTritVec::new(dim);
    let mut v2 = BlockSparseTritVec::new(dim);
    v1.insert_block(0, Block::new(0xFF, 0));
    v1.insert_block(2, Block::new(0xF0, 0x0F));
    v2.insert_block(1, Block::new(0x0F, 0xF0));
    v2.insert_block(2, Block::new(0x0F, 0xF0));
    let bound = v1.bind(&v2);
    assert_eq!(bound.block_count(), 1);
    let b = bound.get_block(2).unwrap();
    assert_eq!(b.pos, 0);
    assert_eq!(b.neg, 0xFF);
}

#[test]
fn test_bundle_both_have_block() {
    let dim = 1000;
    let mut v1 = BlockSparseTritVec::new(dim);
    let mut v2 = BlockSparseTritVec::new(dim);
    v1.insert_block(0, Block::new(0xFF, 0));
    v2.insert_block(0, Block::new(0xFF, 0));
    let bundled = v1.bundle(&v2);
    assert_eq!(bundled.block_count(), 1);
    assert_eq!(bundled.get_block(0).unwrap().pos, 0xFF);
}

#[test]
fn test_bundle_one_missing() {
    let dim = 1000;
    let mut v1 = BlockSparseTritVec::new(dim);
    let v2 = BlockSparseTritVec::new(dim);
    v1.insert_block(0, Block::new(0xFF, 0));
    let bundled = v1.bundle(&v2);
    assert_eq!(bundled.block_count(), 1);
    assert_eq!(bundled.get_block(0).unwrap().pos, 0xFF);
}

#[test]
fn test_bundle_cancellation() {
    let dim = 1000;
    let mut v1 = BlockSparseTritVec::new(dim);
    let mut v2 = BlockSparseTritVec::new(dim);
    v1.insert_block(0, Block::new(0xFF, 0));
    v2.insert_block(0, Block::new(0, 0xFF));
    let bundled = v1.bundle(&v2);
    assert_eq!(bundled.block_count(), 0);
}

#[test]
fn test_bundle_interleaved() {
    let dim = 1000;
    let mut v1 = BlockSparseTritVec::new(dim);
    let mut v2 = BlockSparseTritVec::new(dim);
    v1.insert_block(0, Block::new(0xFF, 0));
    v1.insert_block(2, Block::new(0xAA, 0x55));
    v2.insert_block(1, Block::new(0x0F, 0xF0));
    v2.insert_block(3, Block::new(0x11, 0x22));
    let bundled = v1.bundle(&v2);
    assert_eq!(bundled.block_count(), 4);
    let ids: Vec<u32> = bundled.blocks.iter().map(|(id, _)| *id).collect();
    assert_eq!(ids, vec![0, 1, 2, 3]);
}

#[test]
fn test_dot_product() {
    let dim = 1000;
    let mut v1 = BlockSparseTritVec::new(dim);
    let mut v2 = BlockSparseTritVec::new(dim);
    v1.insert_block(0, Block::new(0xFF, 0));
    v2.insert_block(0, Block::new(0xFF, 0));
    assert_eq!(v1.dot(&v2), 8);
    v1.insert_block(1, Block::new(0xFF, 0));
    v2.insert_block(1, Block::new(0, 0xFF));
    assert_eq!(v1.dot(&v2), 0);
}

#[test]
fn test_dot_non_overlapping() {
    let dim = 1000;
    let mut v1 = BlockSparseTritVec::new(dim);
    let mut v2 = BlockSparseTritVec::new(dim);
    v1.insert_block(0, Block::new(0xFF, 0));
    v2.insert_block(1, Block::new(0xFF, 0));
    assert_eq!(v1.dot(&v2), 0);
}

#[test]
fn test_cosine_similarity() {
    let dim = 1000;
    let mut v1 = BlockSparseTritVec::new(dim);
    let mut v2 = BlockSparseTritVec::new(dim);
    v1.insert_block(0, Block::new(0xFF, 0));
    v2.insert_block(0, Block::new(0xFF, 0));
    let cos = cosine_bsv(&v1, &v2);
    assert!((cos - 1.0).abs() < 0.001);
    let mut v3 = BlockSparseTritVec::new(dim);
    v3.insert_block(1, Block::new(0xFF, 0));
    let cos = cosine_bsv(&v1, &v3);
    assert!(cos.abs() < 0.001);
}

#[test]
fn block_sparse_test_negate() {
    let dim = 1000;
    let mut v = BlockSparseTritVec::new(dim);
    v.insert_block(0, Block::new(0xFF, 0));
    v.insert_block(1, Block::new(0, 0xAA));
    let neg = v.negate();
    assert_eq!(neg.get_block(0).unwrap().pos, 0);
    assert_eq!(neg.get_block(0).unwrap().neg, 0xFF);
    assert_eq!(neg.get_block(1).unwrap().pos, 0xAA);
    assert_eq!(neg.get_block(1).unwrap().neg, 0);
}

#[test]
fn block_sparse_test_bundle_many() {
    let dim = 1000;
    let vectors: Vec<BlockSparseTritVec> = (0..4)
        .map(|i| {
            let mut v = BlockSparseTritVec::new(dim);
            v.insert_block(0, Block::new(1u64 << i, 0));
            v
        })
        .collect();
    let bundled = BlockSparseTritVec::bundle_many(&vectors).unwrap();
    assert_eq!(bundled.block_count(), 1);
    let b = bundled.get_block(0).unwrap();
    assert_eq!(b.pos, 0b1111);
}

#[test]
fn test_bundle_many_empty() {
    let vectors: Vec<BlockSparseTritVec> = vec![];
    assert!(BlockSparseTritVec::bundle_many(&vectors).is_none());
}

#[test]
fn test_bundle_many_single() {
    let mut v = BlockSparseTritVec::new(1000);
    v.insert_block(0, Block::new(0xFF, 0));
    let bundled = BlockSparseTritVec::bundle_many(&[v.clone()]).unwrap();
    assert_eq!(bundled, v);
}

#[test]
fn test_large_dimension() {
    let dim = 1_000_000_000;
    let mut v = BlockSparseTritVec::new(dim);
    v.insert_block(0, Block::new(0xFF, 0));
    v.insert_block(1000, Block::new(0xAA, 0x55));
    v.insert_block(15_000_000, Block::new(0xF0F0, 0x0F0F));
    assert_eq!(v.dim(), dim);
    assert_eq!(v.block_count(), 3);
    assert!(v.is_valid());
}

#[test]
fn test_bind_preserves_sparsity() {
    let dim = 1_000_000;
    let mut v1 = BlockSparseTritVec::new(dim);
    let mut v2 = BlockSparseTritVec::new(dim);
    for i in 0..100 {
        v1.insert_block(i * 10, Block::new(0xFFFF_FFFF, 0));
        v2.insert_block(i * 10 + 5, Block::new(0xFFFF_FFFF, 0));
    }
    let bound = v1.bind(&v2);
    assert_eq!(bound.block_count(), 0);
}

#[test]
fn test_equality() {
    let mut v1 = BlockSparseTritVec::new(1000);
    let mut v2 = BlockSparseTritVec::new(1000);
    v1.insert_block(0, Block::new(0xFF, 0));
    v2.insert_block(0, Block::new(0xFF, 0));
    assert_eq!(v1, v2);
    v2.insert_block(1, Block::new(0x01, 0));
    assert_ne!(v1, v2);
}

#[test]
fn test_compact() {
    let mut v = BlockSparseTritVec::new(1000);
    v.blocks.push((0, Block::zero()));
    v.blocks.push((1, Block::new(0xFF, 0)));
    v.blocks.push((2, Block::zero()));
    assert_eq!(v.block_count(), 3);
    v.compact();
    assert_eq!(v.block_count(), 1);
    assert_eq!(v.blocks[0].0, 1);
}
