//! End-to-end scenarios: encoding round trips, corrections, the engram
//! store, the envelope, retrieval and the algebraic laws on concrete
//! values.

use embeddenator::correction::{apply_correction, build_correction, CorrectionType};
use embeddenator::embrfs::EmbrFS;
use embeddenator::kernel_interop::rerank_top_k_by_cosine;
use embeddenator::{CorrectionStore, ChunkCorrection, KernelInteropError, ReversibleVSAConfig, SparseVec, DIM};
use sha2::{Digest, Sha256};
use std::collections::HashMap;

fn cosine(a: &SparseVec, b: &SparseVec) -> f64 {
    let d = a.dot(b) as f64;
    let na = a.nnz() as f64;
    let nb = b.nnz() as f64;
    if na == 0.0 || nb == 0.0 {
        return 0.0;
    }
    d / (na.sqrt() * nb.sqrt())
}

#[test]
fn sparse_bind_is_commutative_and_self_inverse_on_nonzero_lanes() {
    let a = SparseVec { pos: vec![1, 2, 3], neg: vec![4, 5, 6] };
    let b = SparseVec { pos: vec![2, 3, 7], neg: vec![5, 6, 8] };
    let ab = a.bind(&b);
    let ba = b.bind(&a);
    assert_eq!(ab.pos, ba.pos);
    assert_eq!(ab.neg, ba.neg);
    // On the shared support the signs multiply: lanes 2 and 3 agree
    // positively, lanes 5 and 6 agree negatively, and lanes present in
    // only one operand multiply with zero.
    assert_eq!(ab.pos, vec![2, 3, 5, 6]);
    assert!(ab.neg.is_empty());
    let aa = a.bind(&a);
    assert_eq!(aa.pos.len(), a.pos.len() + a.neg.len());
    assert!(aa.neg.is_empty());
}

#[test]
fn cosine_of_identical_vectors_is_one() {
    let cfg = ReversibleVSAConfig::default();
    let v = SparseVec::encode_data(b"hello", &cfg, None);
    assert!(v.nnz() > 0);
    let c = cosine(&v, &v);
    assert!((c - 1.0).abs() < 1e-12, "self-cosine was {}", c);
}

#[test]
fn permute_round_trip_on_sparse_vectors() {
    let cfg = ReversibleVSAConfig::default();
    let v = SparseVec::encode_data(b"test data", &cfg, None);
    let back = v.permute(123).inverse_permute(123);
    assert_eq!(back.pos, v.pos);
    assert_eq!(back.neg, v.neg);
}

#[test]
fn bundle_is_commutative_as_signed_lane_sets() {
    let a = SparseVec { pos: vec![1, 2, 3], neg: vec![4, 5, 6] };
    let b = SparseVec { pos: vec![2, 3, 7], neg: vec![5, 6, 8] };
    let ab = a.bundle(&b);
    let ba = b.bundle(&a);
    assert_eq!(ab.pos, ba.pos);
    assert_eq!(ab.neg, ba.neg);
}

#[test]
fn bundle_sum_many_is_order_independent() {
    let a = SparseVec { pos: vec![1, 2], neg: vec![3] };
    let b = SparseVec { pos: vec![2, 4], neg: vec![1] };
    let c = SparseVec { pos: vec![1, 5], neg: vec![2] };
    let fwd = SparseVec::bundle_sum_many(&[a.clone(), b.clone(), c.clone()]);
    let rev = SparseVec::bundle_sum_many(&[c, b, a]);
    assert_eq!(fwd.pos, rev.pos);
    assert_eq!(fwd.neg, rev.neg);
}

#[test]
fn bundle_hybrid_many_matches_summed_form() {
    let a = SparseVec { pos: vec![1, 2], neg: vec![3] };
    let b = SparseVec { pos: vec![2, 4], neg: vec![1] };
    let both = [a.clone(), b.clone()];
    let summed = SparseVec::bundle_sum_many(&both);
    let hybrid = SparseVec::bundle_hybrid_many(&both);
    assert_eq!(summed.pos, hybrid.pos);
    assert_eq!(summed.neg, hybrid.neg);
}

#[test]
fn thin_keeps_a_subset_of_the_lanes() {
    let v = SparseVec { pos: vec![1, 2, 3, 4], neg: vec![10, 11] };
    let thinned = v.thin(3);
    assert_eq!(thinned.pos.len() + thinned.neg.len(), 3);
    for x in &thinned.pos {
        assert!(v.pos.contains(x));
    }
    for x in &thinned.neg {
        assert!(v.neg.contains(x));
    }
    let untouched = v.thin(10);
    assert_eq!(untouched.pos, v.pos);
    assert_eq!(untouched.neg, v.neg);
}

#[test]
fn encoder_decode_with_correction_is_exact() {
    let cfg = ReversibleVSAConfig::default();
    let data: Vec<u8> = (0..=255u8).cycle().take(1000).collect();
    let encoded = SparseVec::encode_data(&data, &cfg, Some("some/path.bin"));
    let raw = encoded.decode_data(&cfg, Some("some/path.bin"), data.len());
    assert_eq!(raw.len(), data.len());
    let kind = build_correction(&data, &raw);
    let restored = apply_correction(&kind, raw);
    assert_eq!(restored, data, "correction must make the decode exact");
}

#[test]
fn encoder_is_deterministic_and_empty_input_gives_empty_vector() {
    let cfg = ReversibleVSAConfig::default();
    let a = SparseVec::encode_data(b"same bytes", &cfg, Some("p"));
    let b = SparseVec::encode_data(b"same bytes", &cfg, Some("p"));
    assert_eq!(a.pos, b.pos);
    assert_eq!(a.neg, b.neg);
    let empty = SparseVec::encode_data(b"", &cfg, Some("p"));
    assert_eq!(empty.nnz(), 0);
    let keyed = SparseVec::encode_data(b"same bytes", &cfg, Some("other"));
    assert!(keyed.pos != a.pos || keyed.neg != a.neg, "path key should move lanes");
}

#[test]
fn correction_kinds_cover_clean_diff_and_exact() {
    let original = vec![7u8; 64];
    let clean = build_correction(&original, &original);
    assert!(matches!(clean, CorrectionType::Clean));
    let mut slightly_off = original.clone();
    slightly_off[3] = 9;
    let diff = build_correction(&original, &slightly_off);
    assert!(matches!(diff, CorrectionType::Diff(_)));
    let very_off = vec![1u8; 64];
    let exact = build_correction(&original, &very_off);
    assert!(matches!(exact, CorrectionType::Exact(_)));
    let restored = apply_correction(&exact, very_off);
    assert_eq!(restored, original);
}

#[test]
fn correction_store_counts_kinds() {
    let mut store = CorrectionStore::new();
    store.insert(0, ChunkCorrection { kind: CorrectionType::Clean, digest: vec![0u8; 32] });
    store.insert(1, ChunkCorrection { kind: CorrectionType::Exact(vec![1]), digest: vec![0u8; 32] });
    store.insert(2, ChunkCorrection { kind: CorrectionType::Diff(vec![(0, 1)]), digest: vec![0u8; 32] });
    assert_eq!(store.len(), 3);
    let stats = store.stats();
    assert_eq!(stats.clean, 1);
    assert_eq!(stats.exact, 1);
    assert_eq!(stats.diff, 1);
    assert!(store.get(1).is_some());
    assert!(store.get(9).is_none());
}

#[test]
fn ingest_then_extract_is_bit_exact() {
    // Three files: 1 KiB of pseudo-random binary, 2 KiB of text, 8 KiB of
    // pseudo-random binary under a subdirectory.
    let mut seed = 0x9e3779b97f4a7c15u64;
    let mut rand_bytes = |n: usize| -> Vec<u8> {
        let mut out = Vec::with_capacity(n);
        for _ in 0..n {
            seed = seed.wrapping_mul(6364136223846793005).wrapping_add(1442695040888963407);
            out.push((seed >> 33) as u8);
        }
        out
    };
    let a_bin = rand_bytes(1024);
    let b_txt: Vec<u8> = "All the lines of text here are plain UTF-8.\n"
        .bytes()
        .cycle()
        .take(2048)
        .collect();
    let c_bin = rand_bytes(8192);
    let files: Vec<(&str, Vec<u8>)> = vec![
        ("a.bin", a_bin),
        ("b.txt", b_txt),
        ("sub/c.bin", c_bin),
    ];

    let mut fs = EmbrFS::new();
    for (path, data) in &files {
        fs.ingest_bytes(path, data);
    }
    assert_eq!(fs.manifest.files.len(), 3);

    for (idx, (path, data)) in files.iter().enumerate() {
        let entry = &fs.manifest.files[idx];
        assert_eq!(entry.path, *path);
        assert_eq!(entry.size, data.len());
        let out = EmbrFS::extract_file_bytes(
            &fs.engram,
            &fs.config,
            entry.path.as_str(),
            entry.size,
            &entry.chunks,
        )
        .expect("extraction must succeed for ingested files");
        assert_eq!(&out, data, "file {} must extract bit-exactly", path);
        let mut hasher = Sha256::new();
        hasher.update(&out);
        let out_digest = hasher.finalize();
        let mut hasher2 = Sha256::new();
        hasher2.update(data);
        let src_digest = hasher2.finalize();
        assert_eq!(out_digest, src_digest, "digests must match for {}", path);
    }
}

#[test]
fn extraction_surfaces_missing_and_mismatched_chunks() {
    let mut fs = EmbrFS::new();
    fs.ingest_bytes("one.bin", &[1, 2, 3, 4]);
    let entry_chunks = fs.manifest.files[0].chunks.clone();
    // A chunk id outside the codebook is a typed error.
    let missing = EmbrFS::extract_file_bytes(&fs.engram, &fs.config, "one.bin", 4, &vec![77]);
    assert!(missing.is_err());
    // Tampering with a correction digest is caught.
    let record = fs.engram.corrections.get(entry_chunks[0]).unwrap().clone();
    let mut bad = record;
    bad.digest = vec![0u8; 32];
    let mut tampered = CorrectionStore::new();
    tampered.insert(entry_chunks[0], bad);
    let engram = embeddenator::Engram {
        root: SparseVec::new(),
        codebook: fs.engram.codebook,
        corrections: tampered,
    };
    let out = EmbrFS::extract_file_bytes(&engram, &fs.config, "one.bin", 4, &entry_chunks);
    assert!(out.is_err(), "digest mismatch must be fatal");
}

#[test]
fn rerank_orders_by_exact_cosine_and_flags_missing_ids() {
    let cfg = ReversibleVSAConfig::default();
    let query = SparseVec::encode_data(b"the query", &cfg, None);
    let near = query.clone();
    let far = SparseVec::encode_data(b"something else entirely", &cfg, None);
    let mut store: HashMap<usize, SparseVec> = HashMap::new();
    store.insert(1, near);
    store.insert(2, far);
    let ranked = rerank_top_k_by_cosine(&store, &query, &vec![2, 1], 2).unwrap();
    assert_eq!(ranked.len(), 2);
    assert_eq!(ranked[0].id, 1, "the identical vector must rank first");
    let err = rerank_top_k_by_cosine(&store, &query, &vec![1, 99], 2).unwrap_err();
    assert_eq!(err, KernelInteropError::MissingVector(99));
    let top1 = rerank_top_k_by_cosine(&store, &query, &vec![2, 1], 1).unwrap();
    assert_eq!(top1.len(), 1);
    assert_eq!(top1[0].id, 1);
}

#[test]
fn from_data_is_a_similarity_surface_only() {
    let v = SparseVec::from_data(b"hello");
    assert_eq!(v.pos.len(), DIM / 100);
    assert_eq!(v.neg.len(), DIM / 100);
    let w = SparseVec::from_data(b"hello");
    assert_eq!(v.pos, w.pos);
    assert_eq!(v.neg, w.neg);
}

#[test]
fn rerank_with_zero_k_ignores_missing_candidates() {
    let store: HashMap<usize, SparseVec> = HashMap::new();
    let query = SparseVec::encode_data(b"query", &ReversibleVSAConfig::new_default(), None);
    let out = rerank_top_k_by_cosine(&store, &query, &vec![7usize, 8], 0).unwrap();
    assert!(out.is_empty());
}

#[test]
fn well_formed_check_screens_vectors() {
    let good = SparseVec::encode_data(b"abc", &ReversibleVSAConfig::new_default(), None);
    assert!(good.is_well_formed());
    let unsorted = SparseVec { pos: vec![5, 3], neg: vec![] };
    assert!(!unsorted.is_well_formed());
    let overlapping = SparseVec { pos: vec![3], neg: vec![3] };
    assert!(!overlapping.is_well_formed());
    let out_of_range = SparseVec { pos: vec![1_000_000], neg: vec![] };
    assert!(!out_of_range.is_well_formed());
}

#[test]
fn thin_is_reproducible() {
    let v = SparseVec::encode_data(b"reproducible thinning input", &ReversibleVSAConfig::new_default(), None);
    let a = v.thin(5);
    let b = v.thin(5);
    assert_eq!(a.pos, b.pos);
    assert_eq!(a.neg, b.neg);
    assert_eq!(a.pos.len() + a.neg.len(), 5);
}
