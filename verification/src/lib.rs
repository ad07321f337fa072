//! Holographic content-addressed storage on balanced-ternary hyperdimensional
//! vectors.
//!
//! The crate is organised in layers: single-trit algebra (`ternary`,
//! `dimensional`), whole-vector representations (`sparse`, `bitsliced`,
//! `packed`, `block_sparse`, `soft`, `hybrid`), the reversible byte encoder
//! with its correction store (`encoder`, `correction`), the envelope framing
//! for persisted artifacts (`envelope`), the engram/manifest layer (`embrfs`),
//! the in-memory mount tree (`fuse_shim`), and the retrieval seam
//! (`kernel_interop`).

pub mod bitsliced;
pub mod block_sparse;
pub mod correction;
pub mod dimensional;
pub mod embrfs;
pub mod fuse_shim;
pub mod encoder;
pub mod envelope;
pub mod hashing;
pub mod hybrid;
pub mod kernel_interop;
pub mod packed;
pub mod soft;
pub mod sparse;
pub mod ternary;

pub use bitsliced::BitslicedTritVec;
pub use block_sparse::Block;
pub use block_sparse::BlockError;
pub use block_sparse::BlockSparseTritVec;
pub use correction::ChunkCorrection;
pub use dimensional::{DimensionalConfig, HyperVec, TritDepthConfig, Tryte};
pub use correction::CorrectionStats;
pub use correction::CorrectionStore;
pub use correction::CorrectionType;
pub use correction::ReconstructionVerifier;
pub use embrfs::EmbrFS;
pub use embrfs::Engram;
pub use embrfs::FileEntry;
pub use embrfs::Manifest;
pub use embrfs::DEFAULT_CHUNK_SIZE;
pub use fuse_shim::EngramFS;
pub use fuse_shim::EngramFSBuilder;
pub use fuse_shim::FileAttr;
pub use fuse_shim::FileKind;
pub use hybrid::HybridTritVec;
pub use hybrid::DENSITY_THRESHOLD_PER;
pub use hybrid::MIN_BITSLICED_DIM;
pub use hybrid::MIN_BLOCK_SPARSE_DIM;
pub use kernel_interop::rerank_top_k_by_cosine;
pub use kernel_interop::CandidateGenerator;
pub use kernel_interop::KernelInteropError;
pub use kernel_interop::RerankedResult;
pub use kernel_interop::SparseVecBackend;
pub use kernel_interop::VectorStore;
pub use encoder::ReversibleVSAConfig;
pub use envelope::CompressionCodec;
pub use envelope::EnvelopeError;
pub use envelope::PayloadKind;
pub use packed::PackedTritVec;
pub use soft::CarrySaveBundle;
pub use soft::SoftTernaryVec;
pub use sparse::SparseVec;
pub use sparse::DIM;
pub use ternary::Trit;
