//! The hybrid dispatcher: one vector type that owns a sparse, bitsliced
//! or block-sparse representation and picks per operand pair.
//!
//! Representation choice follows dimension and density: small dimensions
//! stay sparse, very large sparse dimensions go block-sparse, dense
//! vectors go bitsliced. Binary operations on mixed representations
//! promote both sides; whatever the path taken, the lane-level contract
//! is the same, so the representations agree wherever they can hold the
//! same logical vector.

use vstd::prelude::*;

use crate::bitsliced::BitslicedTritVec;
use crate::block_sparse::{bsv_lane, BlockSparseTritVec};
use crate::sparse::{SparseVec, DIM};

verus! {

/// Density threshold numerator for the sparse-to-bitsliced crossover:
/// sparse wins below one lane in two hundred.
pub const DENSITY_THRESHOLD_PER: usize = 200;

/// Minimum dimension for bitsliced storage to pay off.
pub const MIN_BITSLICED_DIM: usize = 256;

/// Minimum dimension for block-sparse storage to pay off.
pub const MIN_BLOCK_SPARSE_DIM: usize = 100000;

/// Density threshold numerator for block-sparse: below one lane in one
/// hundred at large dimensions.
pub const BLOCK_SPARSE_THRESHOLD_PER: usize = 100;

/// A ternary vector in whichever representation suits it.
#[derive(Clone, Debug)]
pub enum HybridTritVec {
    /// Sorted index-pair representation for low densities.
    Sparse(SparseVec),
    /// Dense bit-plane representation.
    Bitsliced(BitslicedTritVec),
    /// Sorted 64-lane blocks for very large dimensions.
    BlockSparse(BlockSparseTritVec),
}

impl HybridTritVec {
    /// Well-formedness at a given logical dimension.
    pub open spec fn wf(self, dim: int) -> bool {
        match self {
            HybridTritVec::Sparse(s) => s.wf(),
            HybridTritVec::Bitsliced(b) => b.wf() && b.len == dim,
            HybridTritVec::BlockSparse(bs) => bs.wf() && bs.dim == dim && dim <= (u32::MAX as int)
                * 64,
        }
    }

    /// The trit at lane `x`, whatever the representation.
    pub open spec fn hlane(self, x: int) -> int {
        match self {
            HybridTritVec::Sparse(s) => if 0 <= x {
                s.lane(x as usize)
            } else {
                0
            },
            HybridTritVec::Bitsliced(b) => b.trit_at(x),
            HybridTritVec::BlockSparse(bs) => bsv_lane(bs, x),
        }
    }

    /// Build from a sparse vector, choosing the representation by
    /// dimension and density.
    pub fn from_sparse(sparse: SparseVec, dim: usize) -> (r: HybridTritVec)
        requires
            sparse.wf(),
            dim <= (u32::MAX as int) * 64,
        ensures
            r.wf(dim as int),
            forall|x: int| 0 <= x < dim ==> r.hlane(x) == sparse.lane(x as usize),
            dim < MIN_BITSLICED_DIM ==> r is Sparse,
            dim >= MIN_BLOCK_SPARSE_DIM && sparse.spec_nnz() * BLOCK_SPARSE_THRESHOLD_PER < dim
                ==> r is BlockSparse,
            MIN_BITSLICED_DIM <= dim && !(dim >= MIN_BLOCK_SPARSE_DIM && sparse.spec_nnz()
                * BLOCK_SPARSE_THRESHOLD_PER < dim) && sparse.spec_nnz() * DENSITY_THRESHOLD_PER
                < dim ==> r is Sparse,
            MIN_BITSLICED_DIM <= dim && !(dim >= MIN_BLOCK_SPARSE_DIM && sparse.spec_nnz()
                * BLOCK_SPARSE_THRESHOLD_PER < dim) && sparse.spec_nnz() * DENSITY_THRESHOLD_PER
                >= dim ==> r is Bitsliced,
    {
        let nnz = sparse.nnz();
        if dim < MIN_BITSLICED_DIM {
            HybridTritVec::Sparse(sparse)
        } else if dim >= MIN_BLOCK_SPARSE_DIM && nnz * BLOCK_SPARSE_THRESHOLD_PER < dim {
            HybridTritVec::BlockSparse(BlockSparseTritVec::from_sparse(&sparse, dim))
        } else if nnz * DENSITY_THRESHOLD_PER < dim {
            HybridTritVec::Sparse(sparse)
        } else {
            HybridTritVec::Bitsliced(BitslicedTritVec::from_sparse(&sparse, dim))
        }
    }

    /// Wrap a bitsliced vector; it stays bitsliced.
    pub fn from_bitsliced(bitsliced: BitslicedTritVec) -> (r: HybridTritVec)
        requires
            bitsliced.wf(),
        ensures
            r.wf(bitsliced.len as int),
            r is Bitsliced,
            forall|x: int| 0 <= x < bitsliced.len ==> r.hlane(x) == bitsliced.trit_at(x),
    {
        HybridTritVec::Bitsliced(bitsliced)
    }

    /// Wrap a block-sparse vector; it stays block-sparse.
    pub fn from_block_sparse(block_sparse: BlockSparseTritVec) -> (r: HybridTritVec)
        requires
            block_sparse.wf(),
            block_sparse.dim <= (u32::MAX as int) * 64,
        ensures
            r.wf(block_sparse.dim as int),
            r is BlockSparse,
            forall|x: int|
                0 <= x < block_sparse.dim ==> r.hlane(x) == bsv_lane(block_sparse, x),
    {
        HybridTritVec::BlockSparse(block_sparse)
    }

    /// The empty vector, sparse.
    pub fn new_empty() -> (r: HybridTritVec)
        ensures
            r is Sparse,
            forall|x: int| r.hlane(x) == 0,
    {
        HybridTritVec::Sparse(SparseVec::new())
    }

    /// The zero vector of a dimension, in the representation that fits.
    pub fn new_zero(dim: usize) -> (r: HybridTritVec)
        requires
            dim <= (u32::MAX as int) * 64,
        ensures
            r.wf(dim as int),
            forall|x: int| 0 <= x < dim ==> r.hlane(x) == 0,
    {
        if dim < MIN_BITSLICED_DIM {
            HybridTritVec::Sparse(SparseVec::new())
        } else if dim >= MIN_BLOCK_SPARSE_DIM {
            let r = HybridTritVec::BlockSparse(BlockSparseTritVec::new(dim));
            proof {
                assert forall|x: int| 0 <= x < dim implies r.hlane(x) == 0 by {}
            }
            r
        } else {
            HybridTritVec::Bitsliced(BitslicedTritVec::new_zero(dim))
        }
    }

    /// Whether the sparse representation is in use.
    pub fn is_sparse(&self) -> (r: bool)
        ensures
            r == (*self is Sparse),
    {
        match self {
            HybridTritVec::Sparse(_) => true,
            _ => false,
        }
    }

    /// Whether the bitsliced representation is in use.
    pub fn is_bitsliced(&self) -> (r: bool)
        ensures
            r == (*self is Bitsliced),
    {
        match self {
            HybridTritVec::Bitsliced(_) => true,
            _ => false,
        }
    }

    /// Whether the block-sparse representation is in use.
    pub fn is_block_sparse(&self) -> (r: bool)
        ensures
            r == (*self is BlockSparse),
    {
        match self {
            HybridTritVec::BlockSparse(_) => true,
            _ => false,
        }
    }

    /// The number of non-zero lanes.
    pub fn nnz(&self, dim: usize) -> (r: usize)
        requires
            self.wf(dim as int),
            dim <= (u32::MAX as int) * 64,
        ensures
            match *self {
                HybridTritVec::Sparse(s) => r as int == s.spec_nnz(),
                HybridTritVec::Bitsliced(b) => r as int == b.nnz_upto(b.len as int),
                HybridTritVec::BlockSparse(bs) => bs.blocks@.len() * 64 <= usize::MAX
                    ==> r as int == crate::block_sparse::bsv_nnz_upto(
                    bs.blocks@,
                    bs.blocks@.len() as int,
                ),
            },
    {
        match self {
            HybridTritVec::Sparse(s) => s.nnz(),
            HybridTritVec::Bitsliced(b) => b.nnz(),
            HybridTritVec::BlockSparse(bs) => {
                if bs.block_count() <= usize::MAX / 64 {
                    proof {
                        vstd::arithmetic::div_mod::lemma_fundamental_div_mod(
                            usize::MAX as int,
                            64,
                        );
                        assert((bs.blocks@.len() as int) * 64 <= (usize::MAX as int / 64) * 64)
                            by (nonlinear_arith)
                            requires
                                bs.blocks@.len() as int <= usize::MAX as int / 64,
                        ;
                    }
                    bs.nnz()
                } else {
                    usize::MAX
                }
            },
        }
    }

    /// Force the dense bitsliced representation.
    pub fn to_bitsliced(&self, dim: usize) -> (r: BitslicedTritVec)
        requires
            self.wf(dim as int),
        ensures
            r.wf(),
            r.len == dim,
            forall|x: int| 0 <= x < dim ==> r.trit_at(x) == self.hlane(x),
    {
        match self {
            HybridTritVec::Sparse(s) => BitslicedTritVec::from_sparse(s, dim),
            HybridTritVec::Bitsliced(b) => b.clone_vec(),
            HybridTritVec::BlockSparse(bs) => bs.to_bitsliced(),
        }
    }

    /// Force the sparse representation; the dimension must fit the sparse
    /// lane space.
    pub fn to_sparse(&self, dim: usize) -> (r: SparseVec)
        requires
            self.wf(dim as int),
            dim <= DIM,
        ensures
            r.wf(),
            forall|x: int| 0 <= x < dim ==> r.lane(x as usize) == self.hlane(x),
            forall|x: usize| r.pos@.contains(x) || r.neg@.contains(x) ==> x < dim,
    {
        let b = self.to_bitsliced(dim);
        let r = b.to_sparse();
        proof {
            assert forall|x: int| 0 <= x < dim implies r.lane(x as usize) == self.hlane(x) by {
                let xu = x as usize;
                if r.pos@.contains(xu) {
                } else if r.neg@.contains(xu) {
                }
            }
            assert forall|x: usize| r.pos@.contains(x) || r.neg@.contains(x) implies x < dim by {}
        }
        r
    }

    /// Force the block-sparse representation.
    pub fn to_block_sparse(&self, dim: usize) -> (r: BlockSparseTritVec)
        requires
            self.wf(dim as int),
            dim <= (u32::MAX as int) * 64,
        ensures
            r.wf(),
            r.dim == dim,
            forall|x: int| 0 <= x < dim ==> bsv_lane(r, x) == self.hlane(x),
    {
        match self {
            HybridTritVec::Sparse(s) => {
                let r = BlockSparseTritVec::from_sparse(s, dim);
                r
            },
            HybridTritVec::Bitsliced(b) => {
                let r = BlockSparseTritVec::from_bitsliced(b);
                proof {
                    lemma_from_bitsliced_lane(*b, r, dim as int);
                }
                r
            },
            HybridTritVec::BlockSparse(bs) => {
                let r = bs.clone_vec();
                r
            },
        }
    }

    /// A reference to the bitsliced representation, if in use.
    pub fn as_bitsliced_ref(&self) -> (r: Option<&BitslicedTritVec>)
        ensures
            (r is Some) == (*self is Bitsliced),
            r is Some ==> *r->0 == self->Bitsliced_0,
    {
        match self {
            HybridTritVec::Bitsliced(b) => Some(b),
            _ => None,
        }
    }

    /// A reference to the block-sparse representation, if in use.
    pub fn as_block_sparse_ref(&self) -> (r: Option<&BlockSparseTritVec>)
        ensures
            (r is Some) == (*self is BlockSparse),
            r is Some ==> *r->0 == self->BlockSparse_0,
    {
        match self {
            HybridTritVec::BlockSparse(bs) => Some(bs),
            _ => None,
        }
    }

    /// Bind: lane-wise trit multiplication, the same at every lane no
    /// matter which representations meet.
    pub fn bind(&self, other: &HybridTritVec, dim: usize) -> (r: HybridTritVec)
        requires
            self.wf(dim as int),
            other.wf(dim as int),
            dim <= (u32::MAX as int) * 64,
        ensures
            r.wf(dim as int),
            forall|x: int| 0 <= x < dim ==> r.hlane(x) == self.hlane(x) * other.hlane(x),
    {
        match (self, other) {
            (HybridTritVec::Sparse(a), HybridTritVec::Sparse(b)) => {
                let result = a.bind(b);
                proof {
                    lemma_sparse_bind_lane(*a, *b, result);
                }
                let r = HybridTritVec::from_sparse(result, dim);
                r
            },
            (HybridTritVec::BlockSparse(_), _) | (_, HybridTritVec::BlockSparse(_)) => {
                let ab = self.to_bitsliced(dim);
                let bb = other.to_bitsliced(dim);
                let dense = ab.bind(&bb);
                if dim >= MIN_BLOCK_SPARSE_DIM {
                    let bsr = BlockSparseTritVec::from_bitsliced(&dense);
                    proof {
                        lemma_from_bitsliced_lane(dense, bsr, dim as int);
                    }
                    HybridTritVec::BlockSparse(bsr)
                } else {
                    HybridTritVec::Bitsliced(dense)
                }
            },
            _ => {
                let ab = self.to_bitsliced(dim);
                let bb = other.to_bitsliced(dim);
                HybridTritVec::Bitsliced(ab.bind(&bb))
            },
        }
    }

    /// Bundle: lane-wise saturating addition with conflict cancel, the
    /// same at every lane no matter which representations meet.
    pub fn bundle(&self, other: &HybridTritVec, dim: usize) -> (r: HybridTritVec)
        requires
            self.wf(dim as int),
            other.wf(dim as int),
            dim <= (u32::MAX as int) * 64,
        ensures
            r.wf(dim as int),
            forall|x: int|
                0 <= x < dim ==> r.hlane(x) == crate::ternary::Trit::add_saturating_spec(
                    crate::bitsliced::trit_of_value(self.hlane(x)),
                    crate::bitsliced::trit_of_value(other.hlane(x)),
                ).value(),
    {
        match (self, other) {
            (HybridTritVec::Sparse(a), HybridTritVec::Sparse(b)) => {
                let result = a.bundle(b);
                proof {
                    lemma_sparse_bundle_lane(*a, *b, result);
                }
                let r = HybridTritVec::from_sparse(result, dim);
                r
            },
            (HybridTritVec::BlockSparse(_), _) | (_, HybridTritVec::BlockSparse(_)) => {
                let ab = self.to_bitsliced(dim);
                let bb = other.to_bitsliced(dim);
                let dense = ab.bundle(&bb);
                if dim >= MIN_BLOCK_SPARSE_DIM {
                    let bsr = BlockSparseTritVec::from_bitsliced(&dense);
                    proof {
                        lemma_from_bitsliced_lane(dense, bsr, dim as int);
                    }
                    HybridTritVec::BlockSparse(bsr)
                } else {
                    HybridTritVec::Bitsliced(dense)
                }
            },
            _ => {
                let ab = self.to_bitsliced(dim);
                let bb = other.to_bitsliced(dim);
                HybridTritVec::Bitsliced(ab.bundle(&bb))
            },
        }
    }

    /// The exact ternary dot product, the same for every representation
    /// pair.
    pub fn dot(&self, other: &HybridTritVec, dim: usize) -> (r: i64)
        requires
            self.wf(dim as int),
            other.wf(dim as int),
            dim <= i32::MAX,
        ensures
            r as int == hybrid_dot_upto(*self, *other, dim as int),
    {
        let ab = self.to_bitsliced(dim);
        let bb = other.to_bitsliced(dim);
        let d = ab.dot(&bb);
        proof {
            lemma_dot_transfer(ab, bb, *self, *other, dim as int);
        }
        d as i64
    }

    /// Negate every lane.
    pub fn negate(&self, dim: usize) -> (r: HybridTritVec)
        requires
            self.wf(dim as int),
            dim <= (u32::MAX as int) * 64,
        ensures
            r.wf(dim as int),
            forall|x: int| 0 <= x < dim ==> #[trigger] r.hlane(x) == -self.hlane(x),
    {
        match self {
            HybridTritVec::Sparse(s) => {
                let r = SparseVec {
                    pos: crate::sparse::clone_index_vec(&s.neg),
                    neg: crate::sparse::clone_index_vec(&s.pos),
                };
                proof {
                    assert forall|x: int| 0 <= x < dim implies #[trigger] (HybridTritVec::Sparse(
                        r,
                    )).hlane(x) == -self.hlane(x) by {}
                }
                HybridTritVec::Sparse(r)
            },
            HybridTritVec::Bitsliced(b) => {
                let r = b.negate();
                proof {
                    assert forall|x: int| 0 <= x < dim implies #[trigger] (
                    HybridTritVec::Bitsliced(r)).hlane(x) == -self.hlane(x) by {}
                }
                HybridTritVec::Bitsliced(r)
            },
            HybridTritVec::BlockSparse(bs) => {
                let r = bs.negate();
                proof {
                    assert forall|x: int| 0 <= x < dim implies #[trigger] bsv_lane(r, x)
                        == -bsv_lane(*bs, x) by {
                        vstd::arithmetic::div_mod::lemma_mod_bound(x, 64);
                        vstd::arithmetic::div_mod::lemma_div_pos_is_pos(x, 64);
                        crate::bitsliced::lemma_const_words();
                        let id = (x / 64) as u32;
                        assert(r.spec_block(id) == crate::block_sparse::spec_find(r.blocks@, id));
                        assert(bs.spec_block(id) == crate::block_sparse::spec_find(
                            bs.blocks@,
                            id,
                        ));
                        if bs.spec_block(id) is Some {
                            crate::block_sparse::lemma_find_some_member(bs.blocks@, id);
                        }
                    }
                }
                HybridTritVec::BlockSparse(r)
            },
        }
    }

    /// The summed vote per lane over a list of vectors.
    pub open spec fn hybrid_lane_sum(vecs: Seq<HybridTritVec>, x: int) -> int
        decreases vecs.len(),
    {
        if vecs.len() == 0 {
            0
        } else {
            Self::hybrid_lane_sum(vecs.drop_last(), x) + vecs.last().hlane(x)
        }
    }

    /// Bundle many vectors at once in the order-independent form: each
    /// lane of the result carries the sign of the summed votes.
    pub fn bundle_many(vecs: &Vec<HybridTritVec>, dim: usize) -> (r: HybridTritVec)
        requires
            forall|k: int| 0 <= k < vecs@.len() ==> (#[trigger] vecs@[k]).wf(dim as int),
            dim <= (u32::MAX as int) * 64,
            vecs@.len() <= 0xffff_ffff_ffff_ffff,
        ensures
            r is Bitsliced,
            r.wf(dim as int),
            forall|x: int|
                0 <= x < dim ==> #[trigger] r.hlane(x) == crate::soft::sgn(
                    Self::hybrid_lane_sum(vecs@, x),
                ),
    {
        let n = vecs.len();
        let mut votes: Vec<i128> = Vec::new();
        for d in 0..dim
            invariant
                votes@.len() == d,
                forall|k: int| 0 <= k < d ==> votes@[k] == 0,
        {
            votes.push(0);
        }
        proof {
            assert forall|x: int| 0 <= x < dim implies votes@[x] == Self::hybrid_lane_sum(
                vecs@.take(0),
                x,
            ) by {
                assert(vecs@.take(0) =~= Seq::<HybridTritVec>::empty());
            }
        }
        for k in 0..n
            invariant
                n == vecs@.len(),
                n <= 0xffff_ffff_ffff_ffff,
                dim <= (u32::MAX as int) * 64,
                forall|m: int| 0 <= m < n ==> (#[trigger] vecs@[m]).wf(dim as int),
                votes@.len() == dim,
                forall|x: int|
                    0 <= x < dim ==> #[trigger] votes@[x] == Self::hybrid_lane_sum(
                        vecs@.take(k as int),
                        x,
                    ),
                forall|x: int| 0 <= x < dim ==> -(k as int) <= #[trigger] votes@[x] <= k as int,
        {
            let bv = vecs[k].to_bitsliced(dim);
            for x in 0..dim
                invariant
                    n == vecs@.len(),
                    n <= 0xffff_ffff_ffff_ffff,
                    k < n,
                    bv.wf(),
                    bv.len == dim,
                    forall|t: int| 0 <= t < dim ==> bv.trit_at(t) == vecs@[k as int].hlane(t),
                    votes@.len() == dim,
                    forall|t: int|
                        x <= t < dim ==> #[trigger] votes@[t] == Self::hybrid_lane_sum(
                            vecs@.take(k as int),
                            t,
                        ),
                    forall|t: int|
                        0 <= t < x ==> #[trigger] votes@[t] == Self::hybrid_lane_sum(
                            vecs@.take(k as int),
                            t,
                        ) + vecs@[k as int].hlane(t),
                    forall|t: int|
                        x <= t < dim ==> -(k as int) <= #[trigger] votes@[t] <= k as int,
                    forall|t: int|
                        0 <= t < x ==> -(k as int) - 1 <= #[trigger] votes@[t] <= k as int + 1,
            {
                let t = bv.get(x);
                let c = votes[x];
                votes.set(x, c + t.to_i8() as i128);
            }
            proof {
                assert forall|x: int| 0 <= x < dim implies #[trigger] votes@[x]
                    == Self::hybrid_lane_sum(vecs@.take(k + 1), x) by {
                    assert(vecs@.take(k + 1).drop_last() =~= vecs@.take(k as int));
                    assert(vecs@.take(k + 1).last() == vecs@[k as int]);
                }
            }
        }
        proof {
            assert(vecs@.take(n as int) =~= vecs@);
        }
        // Threshold by sign into a dense vector.
        let mut out = BitslicedTritVec::new_zero(dim);
        for x in 0..dim
            invariant
                votes@.len() == dim,
                out.wf(),
                out.len == dim,
                forall|t: int|
                    0 <= t < dim ==> #[trigger] votes@[t] == Self::hybrid_lane_sum(vecs@, t),
                forall|t: int|
                    0 <= t < x ==> out.trit_at(t) == crate::soft::sgn(
                        Self::hybrid_lane_sum(vecs@, t),
                    ),
                forall|t: int| x <= t < dim ==> out.trit_at(t) == 0,
        {
            let c = votes[x];
            if c > 0 {
                out.set(x, crate::ternary::Trit::P);
            } else if c < 0 {
                out.set(x, crate::ternary::Trit::N);
            }
        }
        HybridTritVec::Bitsliced(out)
    }

    /// The lane product over a list of vectors; one over the empty list.
    pub open spec fn hybrid_lane_prod(vecs: Seq<HybridTritVec>, x: int) -> int
        decreases vecs.len(),
    {
        if vecs.len() == 0 {
            1
        } else {
            Self::hybrid_lane_prod(vecs.drop_last(), x) * vecs.last().hlane(x)
        }
    }

    /// Bind many vectors in sequence: each lane of the result is the
    /// product of the lanes; the empty list gives the zero vector.
    pub fn bind_many(vecs: &Vec<HybridTritVec>, dim: usize) -> (r: HybridTritVec)
        requires
            forall|k: int| 0 <= k < vecs@.len() ==> (#[trigger] vecs@[k]).wf(dim as int),
            dim <= (u32::MAX as int) * 64,
        ensures
            r is Bitsliced,
            r.wf(dim as int),
            vecs@.len() == 0 ==> forall|x: int| 0 <= x < dim ==> r.hlane(x) == 0,
            vecs@.len() > 0 ==> forall|x: int|
                0 <= x < dim ==> #[trigger] r.hlane(x) == Self::hybrid_lane_prod(vecs@, x),
    {
        let n = vecs.len();
        if n == 0 {
            return HybridTritVec::Bitsliced(BitslicedTritVec::new_zero(dim));
        }
        let mut acc = vecs[0].to_bitsliced(dim);
        proof {
            assert forall|x: int| 0 <= x < dim implies acc.trit_at(x) == Self::hybrid_lane_prod(
                vecs@.take(1),
                x,
            ) by {
                assert(vecs@.take(1).drop_last() =~= Seq::<HybridTritVec>::empty());
                assert(vecs@.take(1).last() == vecs@[0]);
                assert(Self::hybrid_lane_prod(Seq::<HybridTritVec>::empty(), x) == 1);
                assert(1 * vecs@[0].hlane(x) == vecs@[0].hlane(x)) by (nonlinear_arith);
            }
        }
        for k in 1..n
            invariant
                n == vecs@.len(),
                dim <= (u32::MAX as int) * 64,
                forall|m: int| 0 <= m < n ==> (#[trigger] vecs@[m]).wf(dim as int),
                acc.wf(),
                acc.len == dim,
                forall|x: int|
                    0 <= x < dim ==> acc.trit_at(x) == Self::hybrid_lane_prod(
                        vecs@.take(k as int),
                        x,
                    ),
        {
            let bv = vecs[k].to_bitsliced(dim);
            let next = acc.bind(&bv);
            proof {
                assert forall|x: int| 0 <= x < dim implies next.trit_at(x)
                    == Self::hybrid_lane_prod(vecs@.take(k + 1), x) by {
                    assert(vecs@.take(k + 1).drop_last() =~= vecs@.take(k as int));
                    assert(vecs@.take(k + 1).last() == vecs@[k as int]);
                }
            }
            acc = next;
        }
        proof {
            assert(vecs@.take(n as int) =~= vecs@);
        }
        HybridTritVec::Bitsliced(acc)
    }

    /// Cyclic permutation by `shift` lanes within the dimension, through
    /// the dense representation.
    pub fn permute(&self, shift: usize, dim: usize) -> (r: HybridTritVec)
        requires
            self.wf(dim as int),
            dim <= (u32::MAX as int) * 64,
        ensures
            r.wf(dim as int),
            dim > 0 ==> forall|x: int|
                0 <= x < dim ==> #[trigger] r.hlane(x) == self.hlane(
                    crate::bitsliced::src_lane(x, shift as int, dim as int),
                ),
    {
        let b = self.to_bitsliced(dim);
        let p = b.permute(shift);
        proof {
            if dim > 0 {
                assert forall|x: int|
                    0 <= x < dim implies 0 <= #[trigger] crate::bitsliced::src_lane(
                    x,
                    shift as int,
                    dim as int,
                ) < dim by {
                    vstd::arithmetic::div_mod::lemma_mod_bound(
                        x + dim - ((shift as int) % (dim as int)),
                        dim as int,
                    );
                    vstd::arithmetic::div_mod::lemma_mod_bound(shift as int, dim as int);
                }
            }
        }
        if dim >= MIN_BLOCK_SPARSE_DIM {
            let bsr = BlockSparseTritVec::from_bitsliced(&p);
            proof {
                lemma_from_bitsliced_lane(p, bsr, dim as int);
            }
            HybridTritVec::BlockSparse(bsr)
        } else {
            HybridTritVec::Bitsliced(p)
        }
    }
}

/// The hybrid dot product over the first `k` lanes.
pub open spec fn hybrid_dot_upto(a: HybridTritVec, b: HybridTritVec, k: int) -> int
    decreases k,
{
    if k <= 0 {
        0
    } else {
        hybrid_dot_upto(a, b, k - 1) + a.hlane(k - 1) * b.hlane(k - 1)
    }
}

/// The dense dot equals the hybrid dot when the dense vectors carry the
/// hybrid lanes.
proof fn lemma_dot_transfer(
    ab: BitslicedTritVec,
    bb: BitslicedTritVec,
    a: HybridTritVec,
    b: HybridTritVec,
    k: int,
)
    requires
        forall|x: int| 0 <= x < k ==> ab.trit_at(x) == a.hlane(x),
        forall|x: int| 0 <= x < k ==> bb.trit_at(x) == b.hlane(x),
        k >= 0,
    ensures
        crate::bitsliced::dot_upto(ab, bb, k) == hybrid_dot_upto(a, b, k),
    decreases k,
{
    if k > 0 {
        lemma_dot_transfer(ab, bb, a, b, k - 1);
    }
}

/// Sparse bind computes lane products.
proof fn lemma_sparse_bind_lane(a: SparseVec, b: SparseVec, r: SparseVec)
    requires
        a.wf(),
        b.wf(),
        r.is_bind_of(a, b),
    ensures
        forall|x: usize| #[trigger] r.lane(x) == a.lane(x) * b.lane(x),
{
    assert forall|x: usize| #[trigger] r.lane(x) == a.lane(x) * b.lane(x) by {}
}

/// Sparse bundle computes saturating lane sums.
proof fn lemma_sparse_bundle_lane(a: SparseVec, b: SparseVec, r: SparseVec)
    requires
        a.wf(),
        b.wf(),
        r.is_bundle_of(a, b),
    ensures
        forall|x: usize|
            #[trigger] r.lane(x) == crate::ternary::Trit::add_saturating_spec(
                crate::bitsliced::trit_of_value(a.lane(x)),
                crate::bitsliced::trit_of_value(b.lane(x)),
            ).value(),
{
    assert forall|x: usize| #[trigger] r.lane(x) == crate::ternary::Trit::add_saturating_spec(
        crate::bitsliced::trit_of_value(a.lane(x)),
        crate::bitsliced::trit_of_value(b.lane(x)),
    ).value() by {}
}

/// The blocks of a well-formed block-sparse vector grouped from a dense
/// vector carry the dense lanes.
proof fn lemma_from_bitsliced_lane(dense: BitslicedTritVec, r: BlockSparseTritVec, dim: int)
    requires
        dense.wf(),
        dense.len == dim,
        dim <= (u32::MAX as int) * 64,
        forall|id: u32|
            #[trigger] r.spec_block(id) == if 0 <= id < dense.pos@.len() && !(
            dense.pos@[id as int] == 0 && dense.neg@[id as int] == 0) {
                Some(
                    crate::block_sparse::Block {
                        pos: dense.pos@[id as int],
                        neg: dense.neg@[id as int],
                    },
                )
            } else {
                Option::<crate::block_sparse::Block>::None
            },
    ensures
        forall|x: int| 0 <= x < dim ==> bsv_lane(r, x) == dense.trit_at(x),
{
    assert forall|x: int| 0 <= x < dim implies bsv_lane(r, x) == dense.trit_at(x) by {
        vstd::arithmetic::div_mod::lemma_mod_bound(x, 64);
        vstd::arithmetic::div_mod::lemma_div_pos_is_pos(x, 64);
        crate::bitsliced::lemma_same_words(dense.pos@.len() as int, dim);
        crate::bitsliced::lemma_div_below(x, dense.pos@.len() as int);
        let w = x / 64;
        let t = x % 64;
        assert(r.spec_block((x / 64) as u32) == crate::block_sparse::spec_find(
            r.blocks@,
            (x / 64) as u32,
        ));
        // The lane index splits as word and bit, and block ids fit.
        assert(w <= u32::MAX) by {
            vstd::arithmetic::div_mod::lemma_div_is_ordered(x, (u32::MAX as int) * 64 - 1, 64);
            vstd::arithmetic::div_mod::lemma_fundamental_div_mod_converse(
                (u32::MAX as int) * 64 - 1,
                64,
                (u32::MAX as int) - 1,
                63,
            );
        }
        assert((x / 64) as u32 as int == w);
        crate::bitsliced::lemma_const_words();
        assert(x == w * 64 + t) by {
            vstd::arithmetic::div_mod::lemma_fundamental_div_mod(x, 64);
        }
        assert(crate::bitsliced::plane_bit(dense.pos@, x) == crate::bitsliced::bitof(
            dense.pos@[w],
            t,
        ));
        assert(crate::bitsliced::plane_bit(dense.neg@, x) == crate::bitsliced::bitof(
            dense.neg@[w],
            t,
        ));
    }
}

} // verus!
