//! Block-sparse ternary vectors for very large dimensions: a sorted list
//! of 64-lane blocks, each a pair of bit-planes, keyed by block id.
//!
//! Only non-zero blocks are stored. Bind, bundle and dot walk the two
//! sorted block lists with a two-pointer merge; their contracts say, block
//! id by block id, exactly which block the result holds.

use vstd::prelude::*;

use crate::bitsliced::{bitof, lemma_bitwise_ops, lemma_clear_bit, lemma_const_words, lemma_set_bit};
use crate::sparse::{sorted_strict, SparseVec};

verus! {

/// Why a block-sparse vector failed validation.
#[derive(Clone, Copy, Debug, PartialEq, Eq, Structural)]
pub enum BlockError {
    /// A block has a lane set in both planes.
    Overlap {
        /// The id of the offending block.
        block_id: u32,
        /// The mask of lanes set in both planes.
        overlap: u64,
    },
    /// A stored block is all-zero; zero blocks must not be stored.
    EmptyBlock {
        /// The id of the offending block.
        block_id: u32,
    },
    /// The block list is not strictly increasing.
    UnsortedBlocks {
        /// The index of the offending entry.
        index: usize,
    },
    /// Two vectors of different logical dimension met in an operation.
    DimensionMismatch {
        /// The dimension of the left operand.
        expected: usize,
        /// The dimension of the right operand.
        got: usize,
    },
}

/// A block of 64 lanes: one word per plane.
#[derive(Clone, Copy, Debug, PartialEq, Eq, Structural)]
pub struct Block {
    /// Lanes with value +1.
    pub pos: u64,
    /// Lanes with value −1.
    pub neg: u64,
}

impl Block {
    /// No lane carries both signs.
    pub open spec fn wf(self) -> bool {
        forall|t: int| 0 <= t < 64 ==> !(bitof(self.pos, t) && #[trigger] bitof(self.neg, t))
    }

    /// The trit at lane `t` of this block.
    pub open spec fn trit_at(self, t: int) -> int {
        if bitof(self.pos, t) {
            1
        } else if bitof(self.neg, t) {
            -1
        } else {
            0
        }
    }

    /// The bind of two blocks, as a value.
    pub open spec fn bind_spec(a: Block, b: Block) -> Block {
        Block { pos: (a.pos & b.pos) | (a.neg & b.neg), neg: (a.pos & b.neg) | (a.neg & b.pos) }
    }

    /// The bundle of two blocks, as a value.
    pub open spec fn bundle_spec(a: Block, b: Block) -> Block {
        Block { pos: (a.pos & !b.neg) | (b.pos & !a.neg), neg: (a.neg & !b.pos) | (b.neg & !a.pos) }
    }

    /// The all-zero block.
    pub fn zero() -> (r: Block)
        ensures
            r == (Block { pos: 0u64, neg: 0u64 }),
            r.wf(),
    {
        proof {
            lemma_const_words();
        }
        Block { pos: 0, neg: 0 }
    }

    /// A block from its two planes, which must not overlap.
    pub fn new(pos: u64, neg: u64) -> (r: Block)
        requires
            pos & neg == 0,
        ensures
            r.pos == pos,
            r.neg == neg,
            r.wf(),
    {
        proof {
            lemma_overlap_wf(pos, neg);
        }
        Block { pos, neg }
    }

    /// Whether every lane is zero.
    pub fn is_zero(&self) -> (r: bool)
        ensures
            r == (self.pos == 0 && self.neg == 0),
    {
        self.pos == 0 && self.neg == 0
    }

    /// Whether no lane carries both signs.
    pub fn is_valid(&self) -> (r: bool)
        ensures
            r == self.wf(),
    {
        for t in 0..64u32
            invariant
                forall|k: int|
                    0 <= k < t ==> !(bitof(self.pos, k) && #[trigger] bitof(self.neg, k)),
        {
            proof {
                crate::bitsliced::lemma_read_bit(self.pos, t as u64);
                crate::bitsliced::lemma_read_bit(self.neg, t as u64);
            }
            if (self.pos >> (t as u64)) & 1 == 1 && (self.neg >> (t as u64)) & 1 == 1 {
                return false;
            }
        }
        true
    }

    /// Count the non-zero lanes.
    pub fn nnz(&self) -> (r: u32)
        ensures
            r as int == block_nnz_upto(*self, 64),
            r <= 64,
    {
        let mut r: u32 = 0;
        for t in 0..64u32
            invariant
                r as int == block_nnz_upto(*self, t as int),
                r <= t,
        {
            if self.get_trit(t as u8) != 0 {
                r = r + 1;
            }
        }
        r
    }

    /// Bind: lane-wise trit multiplication.
    pub fn bind(&self, other: &Block) -> (r: Block)
        requires
            self.wf(),
            other.wf(),
        ensures
            r == Block::bind_spec(*self, *other),
            r.wf(),
            forall|t: int| 0 <= t < 64 ==> r.trit_at(t) == self.trit_at(t) * other.trit_at(t),
    {
        let r = Block {
            pos: (self.pos & other.pos) | (self.neg & other.neg),
            neg: (self.pos & other.neg) | (self.neg & other.pos),
        };
        proof {
            lemma_bitwise_ops(self.pos, other.pos);
            lemma_bitwise_ops(self.neg, other.neg);
            lemma_bitwise_ops(self.pos, other.neg);
            lemma_bitwise_ops(self.neg, other.pos);
            lemma_bitwise_ops(self.pos & other.pos, self.neg & other.neg);
            lemma_bitwise_ops(self.pos & other.neg, self.neg & other.pos);
        }
        r
    }

    /// Bundle: lane-wise saturating addition with conflict cancel.
    pub fn bundle(&self, other: &Block) -> (r: Block)
        requires
            self.wf(),
            other.wf(),
        ensures
            r == Block::bundle_spec(*self, *other),
            r.wf(),
            forall|t: int|
                0 <= t < 64 ==> r.trit_at(t) == crate::ternary::Trit::add_saturating_spec(
                    crate::bitsliced::trit_of_value(self.trit_at(t)),
                    crate::bitsliced::trit_of_value(other.trit_at(t)),
                ).value(),
    {
        let r = Block {
            pos: (self.pos & !other.neg) | (other.pos & !self.neg),
            neg: (self.neg & !other.pos) | (other.neg & !self.pos),
        };
        proof {
            lemma_bitwise_ops(other.neg, other.neg);
            lemma_bitwise_ops(self.neg, self.neg);
            lemma_bitwise_ops(other.pos, other.pos);
            lemma_bitwise_ops(self.pos, self.pos);
            lemma_bitwise_ops(self.pos, !other.neg);
            lemma_bitwise_ops(other.pos, !self.neg);
            lemma_bitwise_ops(self.neg, !other.pos);
            lemma_bitwise_ops(other.neg, !self.pos);
            lemma_bitwise_ops(self.pos & !other.neg, other.pos & !self.neg);
            lemma_bitwise_ops(self.neg & !other.pos, other.neg & !self.pos);
        }
        r
    }

    /// The exact ternary dot product of the two blocks.
    pub fn dot(&self, other: &Block) -> (r: i32)
        requires
            self.wf(),
            other.wf(),
        ensures
            r as int == block_dot_upto(*self, *other, 64),
            -64 <= r <= 64,
    {
        let mut acc: i32 = 0;
        for t in 0..64u32
            invariant
                self.wf(),
                other.wf(),
                acc as int == block_dot_upto(*self, *other, t as int),
                -(t as int) <= acc as int <= t as int,
        {
            let a = self.get_trit(t as u8);
            let b = other.get_trit(t as u8);
            let prod: i32 = if a == 0 || b == 0 {
                0
            } else if a == b {
                1
            } else {
                -1
            };
            proof {
                assert(prod as int == (a as int) * (b as int)) by (nonlinear_arith)
                    requires
                        -1 <= a <= 1,
                        -1 <= b <= 1,
                        prod == (if a == 0 || b == 0 {
                            0int
                        } else if a == b {
                            1int
                        } else {
                            -1int
                        }),
                ;
            }
            acc = acc + prod;
        }
        acc
    }

    /// Swap the planes: every lane negates.
    pub fn negate(&self) -> (r: Block)
        requires
            self.wf(),
        ensures
            r.pos == self.neg,
            r.neg == self.pos,
            r.wf(),
            forall|t: int| 0 <= t < 64 ==> r.trit_at(t) == -self.trit_at(t),
    {
        Block { pos: self.neg, neg: self.pos }
    }

    /// The trit at lane `bit`, as −1, 0 or +1.
    pub fn get_trit(&self, bit: u8) -> (r: i8)
        requires
            bit < 64,
        ensures
            r as int == self.trit_at(bit as int),
            -1 <= r <= 1,
    {
        proof {
            crate::bitsliced::lemma_read_bit(self.pos, bit as u64);
            crate::bitsliced::lemma_read_bit(self.neg, bit as u64);
        }
        if (self.pos >> (bit as u64)) & 1 == 1 {
            1
        } else if (self.neg >> (bit as u64)) & 1 == 1 {
            -1
        } else {
            0
        }
    }

    /// Set the trit at lane `bit`.
    pub fn set_trit(&mut self, bit: u8, value: i8)
        requires
            bit < 64,
            -1 <= value <= 1,
            old(self).wf(),
        ensures
            final(self).wf(),
            forall|t: int|
                0 <= t < 64 ==> final(self).trit_at(t) == (if t == bit {
                    value as int
                } else {
                    old(self).trit_at(t)
                }),
    {
        let b = bit as u64;
        proof {
            lemma_clear_bit(self.pos, b);
            lemma_clear_bit(self.neg, b);
            lemma_set_bit(self.pos & !(1u64 << b), b);
            lemma_set_bit(self.neg & !(1u64 << b), b);
        }
        let cp = self.pos & !(1u64 << b);
        let cn = self.neg & !(1u64 << b);
        if value == 1 {
            self.pos = cp | (1u64 << b);
            self.neg = cn;
        } else if value == -1 {
            self.pos = cp;
            self.neg = cn | (1u64 << b);
        } else {
            self.pos = cp;
            self.neg = cn;
        }
    }
}

/// A zero overlap word means no lane has both signs, and conversely.
proof fn lemma_overlap_wf(pos: u64, neg: u64)
    ensures
        pos & neg == 0 ==> forall|t: int|
            0 <= t < 64 ==> !(bitof(pos, t) && #[trigger] bitof(neg, t)),
{
    if pos & neg == 0 {
        lemma_bitwise_ops(pos, neg);
        lemma_const_words();
        assert forall|t: int| 0 <= t < 64 implies !(bitof(pos, t) && #[trigger] bitof(
            neg,
            t,
        )) by {
            assert(!bitof(0u64, t));
            assert(bitof(pos & neg, t) == (bitof(pos, t) && bitof(neg, t)));
        }
    }
}

/// The count of non-zero lanes among the first `k` of a block.
pub open spec fn block_nnz_upto(b: Block, k: int) -> int
    decreases k,
{
    if k <= 0 {
        0
    } else {
        block_nnz_upto(b, k - 1) + if b.trit_at(k - 1) == 0 {
            0int
        } else {
            1int
        }
    }
}

/// The dot product over the first `k` lanes of two blocks.
pub open spec fn block_dot_upto(a: Block, b: Block, k: int) -> int
    decreases k,
{
    if k <= 0 {
        0
    } else {
        block_dot_upto(a, b, k - 1) + a.trit_at(k - 1) * b.trit_at(k - 1)
    }
}

/// The block stored under an id, if any.
pub open spec fn spec_find(blocks: Seq<(u32, Block)>, id: u32) -> Option<Block>
    decreases blocks.len(),
{
    if blocks.len() == 0 {
        None
    } else if blocks.last().0 == id {
        Some(blocks.last().1)
    } else {
        spec_find(blocks.drop_last(), id)
    }
}

/// The ids of a block list are strictly increasing.
pub open spec fn sorted_blocks(blocks: Seq<(u32, Block)>) -> bool {
    forall|i: int, j: int| 0 <= i < j < blocks.len() ==> blocks[i].0 < blocks[j].0
}

/// Appending an entry with a fresh id extends the lookup by that entry.
proof fn lemma_find_push(blocks: Seq<(u32, Block)>, id: u32, blk: Block, q: u32)
    ensures
        spec_find(blocks.push((id, blk)), q) == if q == id {
            Some(blk)
        } else {
            spec_find(blocks, q)
        },
{
    let s = blocks.push((id, blk));
    assert(s.last() == (id, blk));
    assert(s.drop_last() =~= blocks);
}

/// An id above every stored id is not found.
proof fn lemma_find_none_above(blocks: Seq<(u32, Block)>, q: u32)
    requires
        forall|k: int| 0 <= k < blocks.len() ==> (#[trigger] blocks[k]).0 < q,
    ensures
        spec_find(blocks, q) == Option::<Block>::None,
    decreases blocks.len(),
{
    if blocks.len() > 0 {
        assert(blocks.last() == blocks[blocks.len() - 1]);
        lemma_find_none_above(blocks.drop_last(), q);
    }
}

/// A found block is one of the entries.
pub(crate) proof fn lemma_find_some_member(blocks: Seq<(u32, Block)>, q: u32)
    requires
        spec_find(blocks, q) is Some,
    ensures
        exists|k: int|
            0 <= k < blocks.len() && (#[trigger] blocks[k]) == (q, spec_find(blocks, q)->0),
    decreases blocks.len(),
{
    if blocks.len() > 0 {
        if blocks.last().0 == q {
            assert(blocks[blocks.len() - 1] == (q, spec_find(blocks, q)->0));
        } else {
            lemma_find_some_member(blocks.drop_last(), q);
            let k = choose|k: int|
                0 <= k < blocks.len() - 1 && (#[trigger] blocks.drop_last()[k]) == (
                q,
                spec_find(blocks.drop_last(), q)->0,
            );
            assert(blocks[k] == blocks.drop_last()[k]);
        }
    }
}

/// The entry at an index is what the lookup finds, in a sorted list.
proof fn lemma_find_at_index(blocks: Seq<(u32, Block)>, k: int)
    requires
        sorted_blocks(blocks),
        0 <= k < blocks.len(),
    ensures
        spec_find(blocks, blocks[k].0) == Some(blocks[k].1),
    decreases blocks.len(),
{
    if blocks.len() > 0 {
        if k == blocks.len() - 1 {
            assert(blocks.last() == blocks[k]);
        } else {
            assert(blocks[k].0 < blocks.last().0);
            lemma_find_at_index(blocks.drop_last(), k);
            assert(blocks.drop_last()[k] == blocks[k]);
        }
    }
}

/// A block-sparse ternary vector.
#[derive(Clone, Debug, PartialEq, Eq)]
pub struct BlockSparseTritVec {
    /// Logical dimension.
    pub dim: usize,
    /// Non-zero blocks, sorted by block id.
    pub blocks: Vec<(u32, Block)>,
}

impl BlockSparseTritVec {
    /// Well-formedness: ids strictly increasing, every block free of
    /// doubly-signed lanes, and no stored block all zero.
    pub open spec fn wf(self) -> bool {
        &&& sorted_blocks(self.blocks@)
        &&& forall|k: int| 0 <= k < self.blocks@.len() ==> (#[trigger] self.blocks@[k]).1.wf()
        &&& forall|k: int|
            0 <= k < self.blocks@.len() ==> !((#[trigger] self.blocks@[k]).1.pos == 0
                && self.blocks@[k].1.neg == 0)
    }

    /// The block stored under `block_id`, if any.
    pub open spec fn spec_block(self, block_id: u32) -> Option<Block> {
        spec_find(self.blocks@, block_id)
    }

    /// An empty vector of the given dimension.
    pub fn new(dim: usize) -> (r: BlockSparseTritVec)
        ensures
            r.wf(),
            r.dim == dim,
            r.blocks@.len() == 0,
            forall|id: u32| r.spec_block(id) is None,
    {
        BlockSparseTritVec { dim, blocks: Vec::new() }
    }

    /// An empty vector with room for `block_capacity` blocks.
    pub fn with_capacity(dim: usize, block_capacity: usize) -> (r: BlockSparseTritVec)
        ensures
            r.wf(),
            r.dim == dim,
            r.blocks@.len() == 0,
            forall|id: u32| r.spec_block(id) is None,
    {
        BlockSparseTritVec { dim, blocks: Vec::with_capacity(block_capacity) }
    }

    /// A verified copy of the vector.
    pub fn clone_vec(&self) -> (r: BlockSparseTritVec)
        ensures
            r.dim == self.dim,
            r.blocks@ == self.blocks@,
    {
        clone_bsv_entries(self)
    }

    /// The logical dimension.
    pub fn dim(&self) -> (r: usize)
        ensures
            r == self.dim,
    {
        self.dim
    }

    /// The number of stored blocks.
    pub fn block_count(&self) -> (r: usize)
        ensures
            r == self.blocks@.len(),
    {
        self.blocks.len()
    }

    /// The stored blocks.
    pub fn blocks(&self) -> (r: &[(u32, Block)])
        ensures
            r@ == self.blocks@,
    {
        self.blocks.as_slice()
    }

    /// Count the non-zero lanes over all blocks.
    pub fn nnz(&self) -> (r: usize)
        requires
            self.wf(),
            self.blocks@.len() * 64 <= usize::MAX,
        ensures
            r as int == bsv_nnz_upto(self.blocks@, self.blocks@.len() as int),
            r <= 64 * self.blocks@.len(),
    {
        let mut r: usize = 0;
        let n = self.blocks.len();
        for k in 0..n
            invariant
                self.wf(),
                n == self.blocks@.len(),
                n * 64 <= usize::MAX,
                r as int == bsv_nnz_upto(self.blocks@, k as int),
                r <= 64 * k,
        {
            let c = self.blocks[k].1.nnz();
            proof {
                lemma_block_nnz_bound(self.blocks@[k as int].1, 64);
            }
            r = r + c as usize;
        }
        r
    }

    /// The block stored under an id, if any.
    pub fn get_block(&self, block_id: u32) -> (r: Option<&Block>)
        requires
            self.wf(),
        ensures
            match r {
                Some(b) => self.spec_block(block_id) == Some(*b),
                None => self.spec_block(block_id) is None,
            },
    {
        let n = self.blocks.len();
        for k in 0..n
            invariant
                self.wf(),
                n == self.blocks@.len(),
                forall|m: int| 0 <= m < k ==> (#[trigger] self.blocks@[m]).0 != block_id,
        {
            if self.blocks[k].0 == block_id {
                proof {
                    lemma_find_at_index(self.blocks@, k as int);
                }
                return Some(&self.blocks[k].1);
            }
        }
        proof {
            if self.spec_block(block_id) is Some {
                lemma_find_some_member(self.blocks@, block_id);
            }
        }
        None
    }

    /// Insert or replace the block under an id; inserting the zero block
    /// removes any stored block instead.
    pub fn insert_block(&mut self, block_id: u32, block: Block)
        requires
            old(self).wf(),
            block.wf(),
        ensures
            final(self).wf(),
            final(self).dim == old(self).dim,
            final(self).spec_block(block_id) == if block.pos == 0 && block.neg == 0 {
                Option::<Block>::None
            } else {
                Some(block)
            },
            forall|id: u32|
                id != block_id ==> final(self).spec_block(id) == old(self).spec_block(id),
    {
        let n = self.blocks.len();
        let mut out: Vec<(u32, Block)> = Vec::new();
        let drop_it = block.is_zero();
        let ghost target: Option<Block> = if block.pos == 0 && block.neg == 0 {
            Option::<Block>::None
        } else {
            Some(block)
        };
        let mut placed = false;
        assert(self.blocks@.take(0) =~= Seq::<(u32, Block)>::empty());
        for k in 0..n
            invariant
                self.wf(),
                *self == *old(self),
                block.wf(),
                n == self.blocks@.len(),
                drop_it == (block.pos == 0 && block.neg == 0),
                target == if block.pos == 0 && block.neg == 0 {
                    Option::<Block>::None
                } else {
                    Some(block)
                },
                sorted_blocks(out@),
                forall|m: int| 0 <= m < out@.len() ==> (#[trigger] out@[m]).1.wf(),
                forall|m: int|
                    0 <= m < out@.len() ==> !((#[trigger] out@[m]).1.pos == 0 && out@[m].1.neg
                        == 0),
                k < n ==> forall|m: int|
                    0 <= m < out@.len() ==> (#[trigger] out@[m]).0 < self.blocks@[k as int].0,
                !placed ==> out@ == self.blocks@.take(k as int),
                !placed ==> forall|j: int|
                    0 <= j < k ==> (#[trigger] self.blocks@[j]).0 < block_id,
                placed ==> exists|j: int| 0 <= j < k && (#[trigger] self.blocks@[j]).0 >= block_id,
                placed ==> forall|id: u32|
                    id != block_id ==> #[trigger] spec_find(out@, id) == spec_find(
                        self.blocks@.take(k as int),
                        id,
                    ),
                placed ==> spec_find(out@, block_id) == target,
        {
            let (id, b) = self.blocks[k];
            proof {
                lemma_take_entry(self.blocks@, k as int);
                if placed {
                    let j = choose|j: int|
                        0 <= j < k && (#[trigger] self.blocks@[j]).0 >= block_id;
                    assert(self.blocks@[j].0 < self.blocks@[k as int].0);
                }
            }
            if id < block_id {
                // placed is impossible here: an earlier id at or above
                // block_id would exceed this one.
                let ghost prev = out@;
                out.push((id, b));
                proof {
                    assert(out@ =~= self.blocks@.take(k + 1));
                }
            } else if id == block_id {
                if !drop_it {
                    let ghost prev = out@;
                    out.push((block_id, block));
                    proof {
                        lemma_find_push_all(prev, out@, block_id, block);
                        assert forall|id2: u32| id2 != block_id implies #[trigger] spec_find(
                            out@,
                            id2,
                        ) == spec_find(self.blocks@.take(k + 1), id2) by {
                            lemma_find_none_of_prefix(self.blocks@, k as int, id2, block_id);
                        }
                    }
                } else {
                    proof {
                        lemma_find_none_above(out@, block_id);
                        assert forall|id2: u32| id2 != block_id implies #[trigger] spec_find(
                            out@,
                            id2,
                        ) == spec_find(self.blocks@.take(k + 1), id2) by {
                            lemma_find_none_of_prefix(self.blocks@, k as int, id2, block_id);
                        }
                    }
                }
                placed = true;
            } else {
                if !placed {
                    if !drop_it {
                        let ghost prev = out@;
                        out.push((block_id, block));
                        proof {
                            lemma_find_push_all(prev, out@, block_id, block);
                        }
                    } else {
                        proof {
                            lemma_find_none_above(out@, block_id);
                        }
                    }
                    placed = true;
                }
                let ghost mid = out@;
                out.push((id, b));
                proof {
                    lemma_find_push_all(mid, out@, id, b);
                }
            }
        }
        proof {
            assert(self.blocks@.take(n as int) =~= self.blocks@);
        }
        if !placed {
            if !drop_it {
                let ghost prev = out@;
                out.push((block_id, block));
                proof {
                    lemma_find_push_all(prev, out@, block_id, block);
                }
            } else {
                proof {
                    lemma_find_none_above(out@, block_id);
                }
            }
        }
        self.blocks = out;
    }
}

/// A prefix whose next entry is `block_id` finds other ids the same with
/// or without that entry.
proof fn lemma_find_none_of_prefix(blocks: Seq<(u32, Block)>, k: int, q: u32, block_id: u32)
    requires
        0 <= k < blocks.len(),
        blocks[k].0 == block_id,
        q != block_id,
    ensures
        spec_find(blocks.take(k + 1), q) == spec_find(blocks.take(k), q),
{
    assert(blocks.take(k + 1).last() == blocks[k]);
    assert(blocks.take(k + 1).drop_last() =~= blocks.take(k));
}

/// The count of non-zero lanes over the first `k` blocks.
pub open spec fn bsv_nnz_upto(blocks: Seq<(u32, Block)>, k: int) -> int
    decreases k,
{
    if k <= 0 {
        0
    } else {
        bsv_nnz_upto(blocks, k - 1) + block_nnz_upto(blocks[k - 1].1, 64)
    }
}

/// The lane count of a block prefix is bounded by the prefix length.
proof fn lemma_block_nnz_bound(b: Block, k: int)
    requires
        k >= 0,
    ensures
        0 <= block_nnz_upto(b, k) <= k,
    decreases k,
{
    if k > 0 {
        lemma_block_nnz_bound(b, k - 1);
    }
}

/// The prefix entry at an index.
proof fn lemma_take_entry(blocks: Seq<(u32, Block)>, k: int)
    requires
        0 <= k < blocks.len(),
    ensures
        forall|id: u32|
            #[trigger] spec_find(blocks.take(k + 1), id) == if blocks[k].0 == id {
                Some(blocks[k].1)
            } else {
                spec_find(blocks.take(k), id)
            },
{
    assert forall|id: u32|
        #[trigger] spec_find(blocks.take(k + 1), id) == (if blocks[k].0 == id {
            Some(blocks[k].1)
        } else {
            spec_find(blocks.take(k), id)
        }) by {
        assert(blocks.take(k + 1).last() == blocks[k]);
        assert(blocks.take(k + 1).drop_last() =~= blocks.take(k));
    }
}

/// Push extends lookup at every id.
proof fn lemma_find_push_all(prev: Seq<(u32, Block)>, cur: Seq<(u32, Block)>, id: u32, blk: Block)
    requires
        cur == prev.push((id, blk)),
    ensures
        forall|q: u32|
            #[trigger] spec_find(cur, q) == if q == id {
                Some(blk)
            } else {
                spec_find(prev, q)
            },
{
    assert forall|q: u32|
        #[trigger] spec_find(cur, q) == (if q == id {
            Some(blk)
        } else {
            spec_find(prev, q)
        }) by {
        lemma_find_push(prev, id, blk, q);
    }
}


/// Whether every id below both fronts has been fully merged.
pub open spec fn decided(
    a: Seq<(u32, Block)>,
    b: Seq<(u32, Block)>,
    i: int,
    j: int,
    id: u32,
) -> bool {
    (i == a.len() || id < a[i].0) && (j == b.len() || id < b[j].0)
}

/// In a sorted list, ids found below the front are found in the prefix.
proof fn lemma_find_skip_beyond(blocks: Seq<(u32, Block)>, i: int, q: u32)
    requires
        0 <= i <= blocks.len(),
        forall|m: int| i <= m < blocks.len() ==> (#[trigger] blocks[m]).0 > q,
    ensures
        spec_find(blocks, q) == spec_find(blocks.take(i), q),
    decreases blocks.len() - i,
{
    if i == blocks.len() {
        assert(blocks.take(i) =~= blocks);
    } else {
        assert(blocks.last().0 > q);
        assert(blocks.last() == blocks[blocks.len() - 1]);
        if i == blocks.len() - 1 {
            assert(blocks.drop_last() =~= blocks.take(i));
        } else {
            assert(blocks.drop_last() =~= blocks.take(blocks.len() - 1));
            lemma_find_skip_beyond(blocks.take(blocks.len() - 1), i, q);
            assert(blocks.take(blocks.len() - 1).take(i) =~= blocks.take(i));
        }
    }
}

/// The full lookup of an id below both fronts splits into prefix lookups.
proof fn lemma_find_decided(
    a: Seq<(u32, Block)>,
    i: int,
    q: u32,
)
    requires
        sorted_blocks(a),
        0 <= i <= a.len(),
        i == a.len() || q < a[i].0,
    ensures
        spec_find(a, q) == spec_find(a.take(i), q),
{
    assert forall|m: int| i <= m < a.len() implies (#[trigger] a[m]).0 > q by {
        if m > i {
            assert(a[i].0 < a[m].0);
        }
    }
    lemma_find_skip_beyond(a, i, q);
}

/// The bind of two block-sparse vectors, block by block: only ids present
/// in both contribute, and all-zero results are dropped.
pub open spec fn bind_target(x: Option<Block>, y: Option<Block>) -> Option<Block> {
    match (x, y) {
        (Some(xb), Some(yb)) => {
            let r = Block::bind_spec(xb, yb);
            if r.pos == 0 && r.neg == 0 {
                None
            } else {
                Some(r)
            }
        },
        _ => None,
    }
}

/// The bundle of two block-sparse vectors, block by block: unmatched
/// blocks flow through, matched blocks bundle, and all-zero results are
/// dropped.
pub open spec fn bundle_target(x: Option<Block>, y: Option<Block>) -> Option<Block> {
    match (x, y) {
        (Some(xb), Some(yb)) => {
            let r = Block::bundle_spec(xb, yb);
            if r.pos == 0 && r.neg == 0 {
                None
            } else {
                Some(r)
            }
        },
        (Some(xb), None) => Some(xb),
        (None, Some(yb)) => Some(yb),
        (None, None) => None,
    }
}

/// The dot product as a sum over the first list's blocks against the
/// matching blocks of the second.
pub open spec fn dot_pairs(a: Seq<(u32, Block)>, b: Seq<(u32, Block)>) -> int
    decreases a.len(),
{
    if a.len() == 0 {
        0
    } else {
        dot_pairs(a.drop_last(), b) + match spec_find(b, a.last().0) {
            Some(bb) => block_dot_upto(a.last().1, bb, 64),
            None => 0,
        }
    }
}

impl BlockSparseTritVec {
    /// Bind two block-sparse vectors: lane-wise trit multiplication, by a
    /// two-pointer merge over the sorted block lists.
    pub fn bind(&self, other: &BlockSparseTritVec) -> (r: BlockSparseTritVec)
        requires
            self.wf(),
            other.wf(),
            self.dim == other.dim,
        ensures
            r.wf(),
            r.dim == self.dim,
            forall|id: u32|
                #[trigger] r.spec_block(id) == bind_target(
                    self.spec_block(id),
                    other.spec_block(id),
                ),
    {
        let na = self.blocks.len();
        let nb = other.blocks.len();
        let mut out: Vec<(u32, Block)> = Vec::new();
        let mut i: usize = 0;
        let mut j: usize = 0;
        proof {
            assert forall|id: u32| decided(self.blocks@, other.blocks@, 0, 0, id) implies
                #[trigger] spec_find(out@, id) == bind_target(
                spec_find(self.blocks@, id),
                spec_find(other.blocks@, id),
            ) by {
                lemma_find_decided(self.blocks@, 0, id);
                lemma_find_decided(other.blocks@, 0, id);
                assert(self.blocks@.take(0) =~= Seq::<(u32, Block)>::empty());
                assert(other.blocks@.take(0) =~= Seq::<(u32, Block)>::empty());
            }
        }
        while i < na || j < nb
            invariant
                self.wf(),
                other.wf(),
                na == self.blocks@.len(),
                nb == other.blocks@.len(),
                i <= na,
                j <= nb,
                sorted_blocks(out@),
                forall|m: int| 0 <= m < out@.len() ==> (#[trigger] out@[m]).1.wf(),
                forall|m: int|
                    0 <= m < out@.len() ==> !((#[trigger] out@[m]).1.pos == 0 && out@[m].1.neg
                        == 0),
                i < na ==> forall|m: int|
                    0 <= m < out@.len() ==> (#[trigger] out@[m]).0 < self.blocks@[i as int].0,
                j < nb ==> forall|m: int|
                    0 <= m < out@.len() ==> (#[trigger] out@[m]).0 < other.blocks@[j as int].0,
                i < na ==> forall|m: int|
                    0 <= m < j ==> (#[trigger] other.blocks@[m]).0 < self.blocks@[i as int].0,
                j < nb ==> forall|m: int|
                    0 <= m < i ==> (#[trigger] self.blocks@[m]).0 < other.blocks@[j as int].0,
                forall|id: u32|
                    decided(self.blocks@, other.blocks@, i as int, j as int, id)
                        ==> #[trigger] spec_find(out@, id) == bind_target(
                        spec_find(self.blocks@, id),
                        spec_find(other.blocks@, id),
                    ),
            decreases (na - i) + (nb - j),
        {
            let ghost oi = i as int;
            let ghost oj = j as int;
            let ghost prev = out@;
            let ghost av = self.blocks@;
            let ghost bv = other.blocks@;
            if j >= nb || (i < na && self.blocks[i].0 < other.blocks[j].0) {
                let (ida, _ba) = self.blocks[i];
                i = i + 1;
                proof {
                    lemma_merge_step_none(av, bv, oi, oj, i as int, oj, out@);
                }
            } else if i >= na || (j < nb && other.blocks[j].0 < self.blocks[i].0) {
                let (idb, _bb) = other.blocks[j];
                j = j + 1;
                proof {
                    lemma_merge_step_none(bv, av, oj, oi, j as int, oi, out@);
                    assert forall|id: u32| decided(av, bv, i as int, j as int, id) implies
                        #[trigger] spec_find(out@, id) == bind_target(
                        spec_find(av, id),
                        spec_find(bv, id),
                    ) by {
                        assert(decided(bv, av, j as int, i as int, id));
                    }
                }
            } else {
                let (ida, ba) = self.blocks[i];
                let (_idb, bb) = other.blocks[j];
                let merged = ba.bind(&bb);
                if !merged.is_zero() {
                    out.push((ida, merged));
                    proof {
                        lemma_find_push_all(prev, out@, ida, merged);
                    }
                }
                i = i + 1;
                j = j + 1;
                proof {
                    lemma_merge_step_match(av, bv, oi, oj, out@, prev, merged);
                }
            }
        }
        let r = BlockSparseTritVec { dim: self.dim, blocks: out };
        proof {
            assert forall|id: u32| #[trigger] r.spec_block(id) == bind_target(
                self.spec_block(id),
                other.spec_block(id),
            ) by {
                assert(decided(self.blocks@, other.blocks@, na as int, nb as int, id));
            }
        }
        r
    }
}

/// After skipping an unmatched front block of `a`, every newly decided id
/// still looks up to no merged block.
proof fn lemma_merge_step_none(
    a: Seq<(u32, Block)>,
    b: Seq<(u32, Block)>,
    oi: int,
    oj: int,
    ni: int,
    nj: int,
    outv: Seq<(u32, Block)>,
)
    requires
        sorted_blocks(a),
        sorted_blocks(b),
        0 <= oi < a.len(),
        ni == oi + 1,
        nj == oj,
        0 <= oj <= b.len(),
        oj == b.len() || a[oi].0 < b[oj].0,
        forall|m: int| 0 <= m < outv.len() ==> (#[trigger] outv[m]).0 < a[oi].0,
        forall|m: int| 0 <= m < oj ==> (#[trigger] b[m]).0 < a[oi].0,
    ensures
        forall|id: u32|
            decided(a, b, ni, nj, id) && !decided(a, b, oi, oj, id)
                ==> spec_find(b, id) == Option::<Block>::None && #[trigger] spec_find(outv, id)
                == Option::<Block>::None && spec_find(a, id) == (if id == a[oi].0 {
                Some(a[oi].1)
            } else {
                Option::<Block>::None
            }),
{
    assert forall|id: u32|
        decided(a, b, ni, nj, id) && !decided(a, b, oi, oj, id) implies spec_find(b, id)
        == Option::<Block>::None && #[trigger] spec_find(outv, id) == Option::<Block>::None
        && spec_find(a, id) == (if id == a[oi].0 {
        Some(a[oi].1)
    } else {
        Option::<Block>::None
    }) by {
        // The newly decided ids sit at or above the skipped front id.
        assert(a[oi].0 <= id);
        assert(spec_find(b, id) == Option::<Block>::None) by {
            lemma_find_decided(b, oj, id);
            assert forall|k: int| 0 <= k < b.take(oj).len() implies (#[trigger] b.take(oj)[k]).0
                != id by {
                assert(b.take(oj)[k] == b[k]);
            }
            lemma_find_absent(b.take(oj), id);
        }
        assert(spec_find(outv, id) == Option::<Block>::None) by {
            lemma_find_absent(outv, id);
        }
        if id == a[oi].0 {
            lemma_find_at_index(a, oi);
        } else {
            lemma_find_decided(a, ni, id);
            assert forall|k: int| 0 <= k < a.take(ni).len() implies (#[trigger] a.take(ni)[k]).0
                != id by {
                assert(a.take(ni)[k] == a[k]);
                if k < oi {
                    assert(a[k].0 < a[oi].0);
                }
            }
            lemma_find_absent(a.take(ni), id);
        }
    }
}

/// An id that matches no stored id is not found.
proof fn lemma_find_absent(blocks: Seq<(u32, Block)>, q: u32)
    requires
        forall|k: int| 0 <= k < blocks.len() ==> (#[trigger] blocks[k]).0 != q,
    ensures
        spec_find(blocks, q) == Option::<Block>::None,
    decreases blocks.len(),
{
    if blocks.len() > 0 {
        assert(blocks.last() == blocks[blocks.len() - 1]);
        lemma_find_absent(blocks.drop_last(), q);
    }
}

/// After merging two equal front blocks, every newly decided id looks up
/// to the merged block exactly when it is that id and non-zero.
proof fn lemma_merge_step_match(
    a: Seq<(u32, Block)>,
    b: Seq<(u32, Block)>,
    oi: int,
    oj: int,
    outv: Seq<(u32, Block)>,
    prev: Seq<(u32, Block)>,
    merged: Block,
)
    requires
        sorted_blocks(a),
        sorted_blocks(b),
        0 <= oi < a.len(),
        0 <= oj < b.len(),
        a[oi].0 == b[oj].0,
        forall|m: int| 0 <= m < prev.len() ==> (#[trigger] prev[m]).0 < a[oi].0,
        (merged.pos == 0 && merged.neg == 0) ==> outv == prev,
        !(merged.pos == 0 && merged.neg == 0) ==> outv == prev.push((a[oi].0, merged)),
    ensures
        spec_find(a, a[oi].0) == Some(a[oi].1),
        spec_find(b, a[oi].0) == Some(b[oj].1),
        forall|id: u32|
            decided(a, b, oi + 1, oj + 1, id) && !decided(a, b, oi, oj, id) && id != a[oi].0
                ==> #[trigger] spec_find(outv, id) == Option::<Block>::None && spec_find(a, id)
                == Option::<Block>::None && spec_find(b, id) == Option::<Block>::None,
        spec_find(outv, a[oi].0) == (if merged.pos == 0 && merged.neg == 0 {
            Option::<Block>::None
        } else {
            Some(merged)
        }),
{
    lemma_find_at_index(a, oi);
    lemma_find_at_index(b, oj);
    if merged.pos == 0 && merged.neg == 0 {
        lemma_find_absent(outv, a[oi].0);
        assert(spec_find(outv, a[oi].0) is None);
    } else {
        lemma_find_push_all(prev, outv, a[oi].0, merged);
    }
    assert forall|id: u32|
        decided(a, b, oi + 1, oj + 1, id) && !decided(a, b, oi, oj, id) && id != a[
        oi].0 implies #[trigger] spec_find(outv, id) == Option::<Block>::None && spec_find(a, id)
        == Option::<Block>::None && spec_find(b, id) == Option::<Block>::None by {
        assert(id > a[oi].0);
        assert(spec_find(a, id) is None) by {
            lemma_find_decided(a, oi + 1, id);
            assert forall|k: int| 0 <= k < a.take(oi + 1).len() implies (#[trigger] a.take(
                oi + 1,
            )[k]).0 != id by {
                assert(a.take(oi + 1)[k] == a[k]);
                if k < oi {
                    assert(a[k].0 < a[oi].0);
                }
            }
            lemma_find_absent(a.take(oi + 1), id);
        }
        assert(spec_find(b, id) is None) by {
            lemma_find_decided(b, oj + 1, id);
            assert forall|k: int| 0 <= k < b.take(oj + 1).len() implies (#[trigger] b.take(
                oj + 1,
            )[k]).0 != id by {
                assert(b.take(oj + 1)[k] == b[k]);
                if k < oj {
                    assert(b[k].0 < b[oj].0);
                }
            }
            lemma_find_absent(b.take(oj + 1), id);
        }
        assert(spec_find(outv, id) is None) by {
            if merged.pos == 0 && merged.neg == 0 {
                lemma_find_absent(outv, id);
            } else {
                lemma_find_push_all(prev, outv, a[oi].0, merged);
                lemma_find_absent(prev, id);
            }
        }
    }
}


impl BlockSparseTritVec {
    /// Bundle two block-sparse vectors: unmatched blocks flow through,
    /// matched blocks combine with conflict cancel, all-zero results drop.
    pub fn bundle(&self, other: &BlockSparseTritVec) -> (r: BlockSparseTritVec)
        requires
            self.wf(),
            other.wf(),
            self.dim == other.dim,
        ensures
            r.wf(),
            r.dim == self.dim,
            forall|id: u32|
                #[trigger] r.spec_block(id) == bundle_target(
                    self.spec_block(id),
                    other.spec_block(id),
                ),
    {
        let na = self.blocks.len();
        let nb = other.blocks.len();
        let mut out: Vec<(u32, Block)> = Vec::new();
        let mut i: usize = 0;
        let mut j: usize = 0;
        proof {
            assert forall|id: u32| decided(self.blocks@, other.blocks@, 0, 0, id) implies
                #[trigger] spec_find(out@, id) == bundle_target(
                spec_find(self.blocks@, id),
                spec_find(other.blocks@, id),
            ) by {
                lemma_find_decided(self.blocks@, 0, id);
                lemma_find_decided(other.blocks@, 0, id);
                assert(self.blocks@.take(0) =~= Seq::<(u32, Block)>::empty());
                assert(other.blocks@.take(0) =~= Seq::<(u32, Block)>::empty());
            }
        }
        while i < na || j < nb
            invariant
                self.wf(),
                other.wf(),
                na == self.blocks@.len(),
                nb == other.blocks@.len(),
                i <= na,
                j <= nb,
                sorted_blocks(out@),
                forall|m: int| 0 <= m < out@.len() ==> (#[trigger] out@[m]).1.wf(),
                forall|m: int|
                    0 <= m < out@.len() ==> !((#[trigger] out@[m]).1.pos == 0 && out@[m].1.neg
                        == 0),
                i < na ==> forall|m: int|
                    0 <= m < out@.len() ==> (#[trigger] out@[m]).0 < self.blocks@[i as int].0,
                j < nb ==> forall|m: int|
                    0 <= m < out@.len() ==> (#[trigger] out@[m]).0 < other.blocks@[j as int].0,
                i < na ==> forall|m: int|
                    0 <= m < j ==> (#[trigger] other.blocks@[m]).0 < self.blocks@[i as int].0,
                j < nb ==> forall|m: int|
                    0 <= m < i ==> (#[trigger] self.blocks@[m]).0 < other.blocks@[j as int].0,
                forall|id: u32|
                    decided(self.blocks@, other.blocks@, i as int, j as int, id)
                        ==> #[trigger] spec_find(out@, id) == bundle_target(
                        spec_find(self.blocks@, id),
                        spec_find(other.blocks@, id),
                    ),
            decreases (na - i) + (nb - j),
        {
            let ghost oi = i as int;
            let ghost oj = j as int;
            let ghost prev = out@;
            let ghost av = self.blocks@;
            let ghost bv = other.blocks@;
            if j >= nb || (i < na && self.blocks[i].0 < other.blocks[j].0) {
                let (ida, ba) = self.blocks[i];
                out.push((ida, ba));
                i = i + 1;
                proof {
                    lemma_merge_step_none(av, bv, oi, oj, i as int, oj, prev);
                    lemma_find_push_all(prev, out@, ida, ba);
                    lemma_find_at_index(av, oi);
                }
            } else if i >= na || (j < nb && other.blocks[j].0 < self.blocks[i].0) {
                let (idb, bb) = other.blocks[j];
                out.push((idb, bb));
                j = j + 1;
                proof {
                    lemma_merge_step_none(bv, av, oj, oi, j as int, oi, prev);
                    lemma_find_push_all(prev, out@, idb, bb);
                    lemma_find_at_index(bv, oj);
                    assert forall|id: u32| decided(av, bv, i as int, j as int, id) implies
                        #[trigger] spec_find(out@, id) == bundle_target(
                        spec_find(av, id),
                        spec_find(bv, id),
                    ) by {
                        assert(decided(bv, av, j as int, i as int, id));
                    }
                }
            } else {
                let (ida, ba) = self.blocks[i];
                let (_idb, bb) = other.blocks[j];
                let merged = ba.bundle(&bb);
                if !merged.is_zero() {
                    out.push((ida, merged));
                    proof {
                        lemma_find_push_all(prev, out@, ida, merged);
                    }
                }
                i = i + 1;
                j = j + 1;
                proof {
                    lemma_merge_step_match(av, bv, oi, oj, out@, prev, merged);
                }
            }
        }
        let r = BlockSparseTritVec { dim: self.dim, blocks: out };
        proof {
            assert forall|id: u32| #[trigger] r.spec_block(id) == bundle_target(
                self.spec_block(id),
                other.spec_block(id),
            ) by {
                assert(decided(self.blocks@, other.blocks@, na as int, nb as int, id));
            }
        }
        r
    }

    /// The exact ternary dot product: only matching block ids contribute.
    pub fn dot(&self, other: &BlockSparseTritVec) -> (r: i64)
        requires
            self.wf(),
            other.wf(),
            self.dim == other.dim,
            self.blocks@.len() * 64 <= i64::MAX,
        ensures
            r as int == dot_pairs(self.blocks@, other.blocks@),
    {
        let na = self.blocks.len();
        let nb = other.blocks.len();
        let mut acc: i64 = 0;
        let mut i: usize = 0;
        let mut j: usize = 0;
        proof {
            assert(self.blocks@.take(0) =~= Seq::<(u32, Block)>::empty());
        }
        while i < na || j < nb
            invariant
                self.wf(),
                other.wf(),
                na == self.blocks@.len(),
                nb == other.blocks@.len(),
                na * 64 <= i64::MAX,
                i <= na,
                j <= nb,
                i < na ==> forall|m: int|
                    0 <= m < j ==> (#[trigger] other.blocks@[m]).0 < self.blocks@[i as int].0,
                j < nb ==> forall|m: int|
                    0 <= m < i ==> (#[trigger] self.blocks@[m]).0 < other.blocks@[j as int].0,
                acc as int == dot_pairs(self.blocks@.take(i as int), other.blocks@),
                -64 * (i as int) <= acc as int <= 64 * (i as int),
            decreases (na - i) + (nb - j),
        {
            let ghost oi = i as int;
            let ghost oj = j as int;
            let ghost av = self.blocks@;
            let ghost bv = other.blocks@;
            if j >= nb || (i < na && self.blocks[i].0 < other.blocks[j].0) {
                let (ida, _ba) = self.blocks[i];
                i = i + 1;
                proof {
                    lemma_merge_step_none(av, bv, oi, oj, i as int, oj, Seq::empty());
                    assert(av.take(oi + 1).drop_last() =~= av.take(oi));
                    assert(av.take(oi + 1).last() == av[oi]);
                    assert(spec_find(Seq::<(u32, Block)>::empty(), av[oi].0)
                        == Option::<Block>::None);
                    assert(spec_find(bv, av[oi].0) is None) by {
                        assert(decided(av, bv, i as int, oj, av[oi].0) && !decided(
                            av,
                            bv,
                            oi,
                            oj,
                            av[oi].0,
                        ));
                    }
                }
            } else if i >= na || (j < nb && other.blocks[j].0 < self.blocks[i].0) {
                j = j + 1;
                proof {
                    assert(dot_pairs(av.take(oi), bv) == acc as int);
                }
            } else {
                let (ida, ba) = self.blocks[i];
                let (_idb, bb) = other.blocks[j];
                let d = ba.dot(&bb);
                proof {
                    lemma_find_at_index(bv, oj);
                    assert(av.take(oi + 1).drop_last() =~= av.take(oi));
                    assert(av.take(oi + 1).last() == av[oi]);
                }
                acc = acc + d as i64;
                i = i + 1;
                j = j + 1;
            }
        }
        proof {
            assert(self.blocks@.take(na as int) =~= self.blocks@);
        }
        acc
    }

    /// Negate every block: each lane's sign flips.
    pub fn negate(&self) -> (r: BlockSparseTritVec)
        requires
            self.wf(),
        ensures
            r.wf(),
            r.dim == self.dim,
            forall|id: u32|
                #[trigger] r.spec_block(id) == match self.spec_block(id) {
                    Some(b) => Some(Block { pos: b.neg, neg: b.pos }),
                    None => Option::<Block>::None,
                },
    {
        let n = self.blocks.len();
        let mut out: Vec<(u32, Block)> = Vec::new();
        proof {
            assert(self.blocks@.take(0) =~= Seq::<(u32, Block)>::empty());
            assert forall|id: u32| #[trigger] spec_find(
                self.blocks@.take(0),
                id,
            ) is None by {}
        }
        for k in 0..n
            invariant
                self.wf(),
                n == self.blocks@.len(),
                out@.len() == k,
                forall|m: int| 0 <= m < k ==> #[trigger] out@[m] == (
                    self.blocks@[m].0,
                    Block { pos: self.blocks@[m].1.neg, neg: self.blocks@[m].1.pos },
                ),
                sorted_blocks(out@),
                forall|m: int| 0 <= m < out@.len() ==> (#[trigger] out@[m]).1.wf(),
                forall|m: int|
                    0 <= m < out@.len() ==> !((#[trigger] out@[m]).1.pos == 0 && out@[m].1.neg
                        == 0),
                forall|id: u32|
                    #[trigger] spec_find(out@, id) == match spec_find(
                        self.blocks@.take(k as int),
                        id,
                    ) {
                        Some(b) => Some(Block { pos: b.neg, neg: b.pos }),
                        None => Option::<Block>::None,
                    },
        {
            let (id, b) = self.blocks[k];
            let nb = b.negate();
            let ghost prev = out@;
            out.push((id, nb));
            proof {
                lemma_find_push_all(prev, out@, id, nb);
                lemma_take_entry(self.blocks@, k as int);
            }
        }
        proof {
            assert(self.blocks@.take(n as int) =~= self.blocks@);
        }
        BlockSparseTritVec { dim: self.dim, blocks: out }
    }

    /// Whether the stored blocks satisfy every representation invariant:
    /// strictly increasing ids, no doubly-signed lane, no all-zero block.
    pub fn is_valid(&self) -> (r: bool)
        ensures
            r == self.wf(),
    {
        let n = self.blocks.len();
        for k in 0..n
            invariant
                n == self.blocks@.len(),
                forall|m: int| 0 <= m < k ==> (#[trigger] self.blocks@[m]).1.wf(),
                forall|m: int|
                    0 <= m < k ==> !((#[trigger] self.blocks@[m]).1.pos == 0
                        && self.blocks@[m].1.neg == 0),
                forall|m1: int, m2: int|
                    0 <= m1 < m2 < k ==> self.blocks@[m1].0 < self.blocks@[m2].0,
        {
            let (id, b) = self.blocks[k];
            if !b.is_valid() {
                return false;
            }
            if b.is_zero() {
                return false;
            }
            if k > 0 && self.blocks[k - 1].0 >= id {
                return false;
            }
            proof {
                assert forall|m1: int, m2: int|
                    0 <= m1 < m2 < k + 1 implies self.blocks@[m1].0 < self.blocks@[m2].0 by {
                    if m2 == k && m1 < k - 1 {
                        assert(self.blocks@[m1].0 < self.blocks@[k - 1].0);
                    }
                }
            }
        }
        true
    }

    /// Validate, reporting the first broken invariant: a doubly-signed
    /// lane in some block, a stored all-zero block, or an out-of-order
    /// block id. `Ok` coincides exactly with `is_valid`.
    pub fn validate(&self) -> (r: Result<(), BlockError>)
        ensures
            r is Ok <==> self.wf(),
            r matches Err(BlockError::Overlap { block_id, overlap }) ==> overlap != 0 && exists|
                m: int,
            |
                0 <= m < self.blocks@.len() && (#[trigger] self.blocks@[m]).0 == block_id
                    && self.blocks@[m].1.pos & self.blocks@[m].1.neg == overlap,
            r matches Err(BlockError::EmptyBlock { block_id }) ==> exists|m: int|
                0 <= m < self.blocks@.len() && (#[trigger] self.blocks@[m]).0 == block_id
                    && self.blocks@[m].1.pos == 0 && self.blocks@[m].1.neg == 0,
            r matches Err(BlockError::UnsortedBlocks { index }) ==> 0 < index
                < self.blocks@.len() && self.blocks@[index - 1].0 >= self.blocks@[index as int].0,
    {
        let n = self.blocks.len();
        for k in 0..n
            invariant
                n == self.blocks@.len(),
                forall|m: int| 0 <= m < k ==> (#[trigger] self.blocks@[m]).1.wf(),
                forall|m: int|
                    0 <= m < k ==> !((#[trigger] self.blocks@[m]).1.pos == 0
                        && self.blocks@[m].1.neg == 0),
        {
            let (id, b) = self.blocks[k];
            if !b.is_valid() {
                let overlap = b.pos & b.neg;
                proof {
                    lemma_bitwise_ops(b.pos, b.neg);
                    lemma_const_words();
                    assert(exists|t: int|
                        0 <= t < 64 && bitof(b.pos, t) && #[trigger] bitof(b.neg, t));
                    let t = choose|t: int|
                        0 <= t < 64 && bitof(b.pos, t) && #[trigger] bitof(b.neg, t);
                    assert(bitof(overlap, t));
                }
                return Err(BlockError::Overlap { block_id: id, overlap });
            }
            if b.is_zero() {
                return Err(BlockError::EmptyBlock { block_id: id });
            }
        }
        if n == 0 {
            return Ok(());
        }
        for k in 1..n
            invariant
                1 <= n == self.blocks@.len(),
                forall|m: int| 0 <= m < n ==> (#[trigger] self.blocks@[m]).1.wf(),
                forall|m: int|
                    0 <= m < n ==> !((#[trigger] self.blocks@[m]).1.pos == 0
                        && self.blocks@[m].1.neg == 0),
                forall|m1: int, m2: int|
                    0 <= m1 < m2 < k ==> self.blocks@[m1].0 < self.blocks@[m2].0,
        {
            if self.blocks[k - 1].0 >= self.blocks[k].0 {
                return Err(BlockError::UnsortedBlocks { index: k });
            }
            proof {
                assert forall|m1: int, m2: int|
                    0 <= m1 < m2 < k + 1 implies self.blocks@[m1].0 < self.blocks@[m2].0 by {
                    if m2 == k && m1 < k - 1 {
                        assert(self.blocks@[m1].0 < self.blocks@[k - 1].0);
                    }
                }
            }
        }
        Ok(())
    }

    /// Remove and return the block stored under an id.
    pub fn remove_block(&mut self, block_id: u32) -> (r: Option<Block>)
        requires
            old(self).wf(),
        ensures
            final(self).wf(),
            final(self).dim == old(self).dim,
            r == old(self).spec_block(block_id),
            final(self).spec_block(block_id) is None,
            forall|id: u32|
                id != block_id ==> final(self).spec_block(id) == old(self).spec_block(id),
    {
        let found: Option<Block> = match self.get_block(block_id) {
            Some(b) => Some(*b),
            None => None,
        };
        proof {
            lemma_const_words();
        }
        self.insert_block(block_id, Block { pos: 0, neg: 0 });
        found
    }

    /// Drop any all-zero blocks from a list that is otherwise well formed.
    pub fn compact(&mut self)
        requires
            sorted_blocks(old(self).blocks@),
            forall|m: int|
                0 <= m < old(self).blocks@.len() ==> (#[trigger] old(self).blocks@[m]).1.wf(),
        ensures
            final(self).wf(),
            final(self).dim == old(self).dim,
            forall|id: u32|
                #[trigger] final(self).spec_block(id) == match old(self).spec_block(id) {
                    Some(b) => if b.pos == 0 && b.neg == 0 {
                        Option::<Block>::None
                    } else {
                        Some(b)
                    },
                    None => Option::<Block>::None,
                },
    {
        let n = self.blocks.len();
        let mut out: Vec<(u32, Block)> = Vec::new();
        proof {
            assert(self.blocks@.take(0) =~= Seq::<(u32, Block)>::empty());
        }
        for k in 0..n
            invariant
                sorted_blocks(self.blocks@),
                forall|m: int|
                    0 <= m < self.blocks@.len() ==> (#[trigger] self.blocks@[m]).1.wf(),
                *self == *old(self),
                n == self.blocks@.len(),
                sorted_blocks(out@),
                forall|m: int| 0 <= m < out@.len() ==> (#[trigger] out@[m]).1.wf(),
                forall|m: int|
                    0 <= m < out@.len() ==> !((#[trigger] out@[m]).1.pos == 0 && out@[m].1.neg
                        == 0),
                k < n ==> forall|m: int|
                    0 <= m < out@.len() ==> (#[trigger] out@[m]).0 < self.blocks@[k as int].0,
                forall|id: u32|
                    #[trigger] spec_find(out@, id) == match spec_find(
                        self.blocks@.take(k as int),
                        id,
                    ) {
                        Some(b) => if b.pos == 0 && b.neg == 0 {
                            Option::<Block>::None
                        } else {
                            Some(b)
                        },
                        None => Option::<Block>::None,
                    },
        {
            let (id, b) = self.blocks[k];
            let ghost prev = out@;
            proof {
                lemma_take_entry(self.blocks@, k as int);
            }
            if !b.is_zero() {
                out.push((id, b));
                proof {
                    lemma_find_push_all(prev, out@, id, b);
                }
            } else {
                proof {
                    lemma_find_absent(out@, id);
                }
            }
        }
        proof {
            assert(self.blocks@.take(n as int) =~= self.blocks@);
        }
        self.blocks = out;
    }
}


/// The trit a block-sparse vector carries at lane `x`.
pub open spec fn bsv_lane(v: BlockSparseTritVec, x: int) -> int {
    match spec_find(v.blocks@, (x / 64) as u32) {
        Some(b) => b.trit_at(x % 64),
        None => 0,
    }
}

impl BlockSparseTritVec {
    /// Group the lanes of a dense bitsliced vector into non-zero blocks.
    pub fn from_bitsliced(v: &crate::bitsliced::BitslicedTritVec) -> (r: BlockSparseTritVec)
        requires
            v.wf(),
            v.len@ <= (u32::MAX as int) * 64,
        ensures
            r.wf(),
            r.dim == v.len@,
            forall|id: u32|
                #[trigger] r.spec_block(id) == if 0 <= id < v.pos@.len() && !(v.pos@[id as int]
                    == 0 && v.neg@[id as int] == 0) {
                    Some(Block { pos: v.pos@[id as int], neg: v.neg@[id as int] })
                } else {
                    Option::<Block>::None
                },
    {
        let words = v.pos_plane().len();
        let mut out: Vec<(u32, Block)> = Vec::new();
        proof {
            assert forall|id: u32| #[trigger] spec_find(out@, id) is None by {
                lemma_find_absent(out@, id);
            }
        }
        for w in 0..words
            invariant
                v.wf(),
                v.len@ <= (u32::MAX as int) * 64,
                words == v.pos@.len(),
                words == v.neg@.len(),
                sorted_blocks(out@),
                forall|m: int| 0 <= m < out@.len() ==> (#[trigger] out@[m]).1.wf(),
                forall|m: int|
                    0 <= m < out@.len() ==> !((#[trigger] out@[m]).1.pos == 0 && out@[m].1.neg
                        == 0),
                forall|m: int| 0 <= m < out@.len() ==> (#[trigger] out@[m]).0 < w,
                forall|id: u32|
                    #[trigger] spec_find(out@, id) == if 0 <= id < w && !(v.pos@[id as int] == 0
                        && v.neg@[id as int] == 0) {
                        Some(Block { pos: v.pos@[id as int], neg: v.neg@[id as int] })
                    } else {
                        Option::<Block>::None
                    },
        {
            // Word indices fit in a block id.
            proof {
                crate::bitsliced::lemma_bv_word_wf(*v, w as int);
                assert(words * 64 >= v.len@ && v.len@ <= usize::MAX);
            }
            let p = v.pos_plane()[w];
            let q = v.neg_plane()[w];
            let ghost prev = out@;
            if !(p == 0 && q == 0) {
                assert(w <= u32::MAX as usize) by {
                    lemma_word_index_fits(v.pos@.len() as int, v.len@ as int, w as int);
                }
                assert(w as u32 as int == w as int);
                out.push((w as u32, Block { pos: p, neg: q }));
                proof {
                    lemma_find_push_all(prev, out@, w as u32, Block { pos: p, neg: q });
                }
            } else {
                proof {
                    assert forall|id: u32| 0 <= id < w + 1 implies #[trigger] spec_find(out@, id)
                        == (if 0 <= id < w && !(v.pos@[id as int] == 0 && v.neg@[id as int] == 0) {
                        Some(Block { pos: v.pos@[id as int], neg: v.neg@[id as int] })
                    } else {
                        Option::<Block>::None
                    }) by {}
                }
            }
        }
        BlockSparseTritVec { dim: v.len(), blocks: out }
    }

    /// Spread the stored blocks into a dense bitsliced vector, lane by
    /// lane. Lanes outside the dimension are dropped.
    pub fn to_bitsliced(&self) -> (r: crate::bitsliced::BitslicedTritVec)
        requires
            self.wf(),
            self.dim <= (u32::MAX as int) * 64,
        ensures
            r.wf(),
            r.len@ == self.dim,
            forall|x: int| 0 <= x < self.dim ==> r.trit_at(x) == bsv_lane(*self, x),
    {
        let dim = self.dim;
        let mut out = crate::bitsliced::BitslicedTritVec::new_zero(dim);
        for i in 0..dim
            invariant
                self.wf(),
                out.wf(),
                dim == self.dim,
                dim <= (u32::MAX as int) * 64,
                out.len@ == dim,
                forall|x: int| 0 <= x < i ==> out.trit_at(x) == bsv_lane(*self, x),
                forall|x: int| i <= x < dim ==> out.trit_at(x) == 0,
        {
            proof {
                lemma_lane_block_fits(i as int, dim as int);
                vstd::arithmetic::div_mod::lemma_mod_bound(i as int, 64);
            }
            let bid = (i / 64) as u32;
            let t = (i % 64) as u8;
            let tv: i8 = match self.get_block(bid) {
                Some(b) => b.get_trit(t),
                None => 0,
            };
            if tv != 0 {
                let trit = crate::ternary::Trit::from_i8_exact(tv).unwrap();
                out.set(i, trit);
            }
            proof {
                assert(out.trit_at(i as int) == bsv_lane(*self, i as int));
            }
        }
        out
    }

    /// Group a sparse vector's lanes into blocks; indices at or past the
    /// dimension are dropped.
    pub fn from_sparse(sparse: &SparseVec, dim: usize) -> (r: BlockSparseTritVec)
        requires
            sparse.wf(),
            dim <= (u32::MAX as int) * 64,
        ensures
            r.wf(),
            r.dim == dim,
            forall|x: int| 0 <= x < dim ==> bsv_lane(r, x) == sparse.lane(x as usize),
    {
        let mut out = BlockSparseTritVec::new(dim);
        let np = sparse.pos.len();
        proof {
            assert(sparse.pos@.take(0) =~= Seq::<usize>::empty());
        }
        for j in 0..np
            invariant
                sparse.wf(),
                out.wf(),
                out.dim == dim,
                dim <= (u32::MAX as int) * 64,
                np == sparse.pos@.len(),
                forall|x: int|
                    0 <= x < dim ==> bsv_lane(out, x) == (
                    if sparse.pos@.take(j as int).contains(x as usize) {
                        1int
                    } else {
                        0int
                    }),
        {
            let idx = sparse.pos[j];
            proof {
                crate::sparse::lemma_take_succ_contains(sparse.pos@, j as int);
                assert(!sparse.pos@.take(j as int).contains(idx)) by {
                    if sparse.pos@.take(j as int).contains(idx) {
                        let k = choose|k: int|
                            0 <= k < j && #[trigger] sparse.pos@.take(j as int)[k] == idx;
                        assert(sparse.pos@[k] < sparse.pos@[j as int]);
                    }
                }
            }
            if idx < dim {
                set_lane(&mut out, idx, 1);
            }
        }
        proof {
            assert(sparse.pos@.take(np as int) =~= sparse.pos@);
        }
        let nn = sparse.neg.len();
        proof {
            assert(sparse.neg@.take(0) =~= Seq::<usize>::empty());
        }
        for j in 0..nn
            invariant
                sparse.wf(),
                out.wf(),
                out.dim == dim,
                dim <= (u32::MAX as int) * 64,
                nn == sparse.neg@.len(),
                forall|x: int|
                    0 <= x < dim ==> bsv_lane(out, x) == (if sparse.pos@.contains(x as usize) {
                        1int
                    } else if sparse.neg@.take(j as int).contains(x as usize) {
                        -1int
                    } else {
                        0int
                    }),
        {
            let idx = sparse.neg[j];
            proof {
                crate::sparse::lemma_take_succ_contains(sparse.neg@, j as int);
                assert(!sparse.neg@.take(j as int).contains(idx)) by {
                    if sparse.neg@.take(j as int).contains(idx) {
                        let k = choose|k: int|
                            0 <= k < j && #[trigger] sparse.neg@.take(j as int)[k] == idx;
                        assert(sparse.neg@[k] < sparse.neg@[j as int]);
                    }
                }
                assert(!sparse.pos@.contains(idx)) by {
                    assert(sparse.neg@.contains(idx));
                }
            }
            if idx < dim {
                set_lane(&mut out, idx, -1);
            }
        }
        proof {
            assert(sparse.neg@.take(nn as int) =~= sparse.neg@);
        }
        out
    }

    /// Collapse to a sparse vector: the sorted lists of +1 and −1 lanes.
    pub fn to_sparse(&self) -> (r: SparseVec)
        requires
            self.wf(),
            self.dim <= crate::sparse::DIM,
        ensures
            r.wf(),
            forall|x: usize|
                #[trigger] r.pos@.contains(x) <==> (x < self.dim && bsv_lane(*self, x as int)
                    == 1),
            forall|x: usize|
                #[trigger] r.neg@.contains(x) <==> (x < self.dim && bsv_lane(*self, x as int)
                    == -1),
    {
        let mut pos: Vec<usize> = Vec::new();
        let mut neg: Vec<usize> = Vec::new();
        let n = self.dim;
        for i in 0..n
            invariant
                self.wf(),
                n == self.dim,
                n <= crate::sparse::DIM,
                sorted_strict(pos@),
                sorted_strict(neg@),
                forall|k: int| 0 <= k < pos@.len() ==> #[trigger] pos@[k] < i,
                forall|k: int| 0 <= k < neg@.len() ==> #[trigger] neg@[k] < i,
                forall|x: usize|
                    #[trigger] pos@.contains(x) <==> (x < i && bsv_lane(*self, x as int) == 1),
                forall|x: usize|
                    #[trigger] neg@.contains(x) <==> (x < i && bsv_lane(*self, x as int) == -1),
        {
            let ghost ppos = pos@;
            let ghost pneg = neg@;
            let bid = i / 64;
            let t = (i % 64) as u8;
            proof {
                vstd::arithmetic::div_mod::lemma_mod_bound(i as int, 64);
                vstd::arithmetic::div_mod::lemma_div_pos_is_pos(i as int, 64);
                vstd::arithmetic::div_mod::lemma_div_nonincreasing(i as int, 64);
            }
            let tv: i8 = match self.get_block(bid as u32) {
                Some(b) => b.get_trit(t),
                None => 0,
            };
            if tv == 1 {
                pos.push(i);
                proof {
                    crate::sparse::lemma_push_contains(ppos, pos@, i);
                    assert(forall|k: int| 0 <= k < ppos.len() ==> pos@[k] == ppos[k]);
                    assert(pos@.last() == i);
                }
            } else if tv == -1 {
                neg.push(i);
                proof {
                    crate::sparse::lemma_push_contains(pneg, neg@, i);
                    assert(forall|k: int| 0 <= k < pneg.len() ==> neg@[k] == pneg[k]);
                    assert(neg@.last() == i);
                }
            }
        }
        let r = SparseVec { pos, neg };
        proof {
            assert forall|x: usize| !(r.pos@.contains(x) && #[trigger] r.neg@.contains(x)) by {}
            assert forall|k: int| 0 <= k < r.pos@.len() implies r.pos@[k] < crate::sparse::DIM by {
                assert(r.pos@.contains(r.pos@[k]));
            }
            assert forall|k: int| 0 <= k < r.neg@.len() implies r.neg@[k] < crate::sparse::DIM by {
                assert(r.neg@.contains(r.neg@[k]));
            }
        }
        r
    }

    /// Bundle a list of vectors of one dimension by a sequential pairwise
    /// fold; `None` on an empty list. The pairwise conflict-cancel fold is
    /// order-dependent, so the fold order is fixed as given.
    pub fn bundle_many(vectors: &[BlockSparseTritVec]) -> (r: Option<BlockSparseTritVec>)
        requires
            forall|k: int| 0 <= k < vectors@.len() ==> (#[trigger] vectors@[k]).wf(),
            forall|k: int|
                0 <= k < vectors@.len() ==> (#[trigger] vectors@[k]).dim == vectors@[0].dim,
        ensures
            r is Some <==> vectors@.len() > 0,
            vectors@.len() > 0 ==> r->0.wf() && r->0.dim == vectors@[0].dim,
            vectors@.len() == 1 ==> r->0.blocks@ == vectors@[0].blocks@ && r->0.dim
                == vectors@[0].dim,
    {
        if vectors.len() == 0 {
            return None;
        }
        let mut acc = clone_bsv_entries(&vectors[0]);
        let n = vectors.len();
        if n == 1 {
            return Some(acc);
        }
        for k in 1..n
            invariant
                n == vectors@.len(),
                forall|m: int| 0 <= m < n ==> (#[trigger] vectors@[m]).wf(),
                forall|m: int| 0 <= m < n ==> (#[trigger] vectors@[m]).dim == vectors@[0].dim,
                acc.wf(),
                acc.dim == vectors@[0].dim,
        {
            acc = acc.bundle(&vectors[k]);
        }
        Some(acc)
    }
}

/// Word indices of a dimension that fits the block-id space stay within
/// 32 bits.
proof fn lemma_word_index_fits(words: int, len: int, w: int)
    requires
        words == (len + 63) / 64,
        0 <= len <= (u32::MAX as int) * 64,
        0 <= w < words,
    ensures
        w <= u32::MAX,
{
    vstd::arithmetic::div_mod::lemma_fundamental_div_mod(len + 63, 64);
    vstd::arithmetic::div_mod::lemma_mod_bound(len + 63, 64);
    assert(64 * words <= len + 63);
}

/// Set one lane of a block-sparse vector.
fn set_lane(v: &mut BlockSparseTritVec, idx: usize, value: i8)
    requires
        old(v).wf(),
        idx < old(v).dim,
        old(v).dim <= (u32::MAX as int) * 64,
        value == 1 || value == -1,
    ensures
        final(v).wf(),
        final(v).dim == old(v).dim,
        forall|x: int|
            0 <= x < old(v).dim ==> bsv_lane(*final(v), x) == (if x == idx {
                value as int
            } else {
                bsv_lane(*old(v), x)
            }),
{
    let bid_wide = idx / 64;
    let t = (idx % 64) as u8;
    proof {
        vstd::arithmetic::div_mod::lemma_mod_bound(idx as int, 64);
        vstd::arithmetic::div_mod::lemma_div_pos_is_pos(idx as int, 64);
        vstd::arithmetic::div_mod::lemma_div_nonincreasing(idx as int, 64);
    }
    proof {
        lemma_lane_block_fits(idx as int, v.dim as int);
    }
    let bid = bid_wide as u32;
    let mut blk: Block = match v.get_block(bid) {
        Some(b) => *b,
        None => Block { pos: 0, neg: 0 },
    };
    proof {
        if v.spec_block(bid) is None {
            lemma_const_words();
        } else {
            lemma_find_some_member(v.blocks@, bid);
        }
        assert(blk.wf());
    }
    blk.set_trit(t, value);
    proof {
        // The written lane is non-zero, so the block is non-zero.
        assert(blk.trit_at(t as int) != 0);
        assert(!(blk.pos == 0 && blk.neg == 0)) by {
            if blk.pos == 0 && blk.neg == 0 {
                lemma_const_words();
                assert(!bitof(0u64, t as int));
                assert(!bitof(blk.pos, t as int) && !bitof(blk.neg, t as int));
                assert(blk.trit_at(t as int) == 0);
            }
        }
    }
    let ghost oldv = *v;
    v.insert_block(bid, blk);
    proof {
        assert forall|x: int|
            0 <= x < oldv.dim implies bsv_lane(*v, x) == (if x == idx as int {
            value as int
        } else {
            bsv_lane(oldv, x)
        }) by {
            vstd::arithmetic::div_mod::lemma_mod_bound(x, 64);
            vstd::arithmetic::div_mod::lemma_div_pos_is_pos(x, 64);
            vstd::arithmetic::div_mod::lemma_fundamental_div_mod(x, 64);
            vstd::arithmetic::div_mod::lemma_fundamental_div_mod(idx as int, 64);
            vstd::arithmetic::div_mod::lemma_mod_bound(idx as int, 64);
            lemma_lane_block_fits(x, oldv.dim as int);
            lemma_lane_block_fits(idx as int, oldv.dim as int);
            lemma_const_words();
            assert(bid as int == idx as int / 64);
            if (x / 64) as u32 == bid {
                assert(x / 64 == idx as int / 64);
                if x != idx {
                    assert(x % 64 != idx as int % 64);
                    assert(bsv_lane(*v, x) == blk.trit_at(x % 64));
                    if oldv.spec_block(bid) is Some {
                        assert(bsv_lane(oldv, x) == oldv.spec_block(bid)->0.trit_at(x % 64));
                    } else {
                        assert(bsv_lane(oldv, x) == 0);
                        assert(!bitof(0u64, x % 64));
                    }
                } else {
                    assert(bsv_lane(*v, x) == blk.trit_at(idx as int % 64));
                }
            } else {
                assert(v.spec_block((x / 64) as u32) == oldv.spec_block((x / 64) as u32));
            }
        }
    }
}

/// Lane indices below a dimension within the block-id space give block
/// ids that fit in 32 bits.
proof fn lemma_lane_block_fits(x: int, dim: int)
    requires
        0 <= x < dim,
        dim <= (u32::MAX as int) * 64,
    ensures
        0 <= x / 64 <= u32::MAX,
{
    vstd::arithmetic::div_mod::lemma_div_pos_is_pos(x, 64);
    vstd::arithmetic::div_mod::lemma_div_is_ordered(x, (u32::MAX as int) * 64 - 1, 64);
    vstd::arithmetic::div_mod::lemma_fundamental_div_mod_converse(
        (u32::MAX as int) * 64 - 1,
        64,
        (u32::MAX as int) - 1,
        63,
    );
}

/// A copy of a block-sparse vector.
fn clone_bsv_entries(v: &BlockSparseTritVec) -> (r: BlockSparseTritVec)
    ensures
        r.dim == v.dim,
        r.blocks@ == v.blocks@,
{
    let mut blocks: Vec<(u32, Block)> = Vec::new();
    let n = v.blocks.len();
    for k in 0..n
        invariant
            n == v.blocks@.len(),
            blocks@ == v.blocks@.take(k as int),
    {
        blocks.push(v.blocks[k]);
        proof {
            assert(blocks@ =~= v.blocks@.take(k + 1));
        }
    }
    proof {
        assert(v.blocks@.take(n as int) =~= v.blocks@);
    }
    BlockSparseTritVec { dim: v.dim, blocks }
}

} // verus!
