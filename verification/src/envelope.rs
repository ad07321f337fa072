//! The tagged binary envelope around persisted artifacts.
//!
//! A wrapped artifact starts with the four magic bytes `EDN1`, one payload
//! kind byte, one codec byte, two reserved zero bytes, and the payload
//! length as a little-endian 64-bit integer; the payload follows. Anything
//! shorter than the 16-byte header, or not starting with the magic, is
//! passed through as legacy raw bytes.

use vstd::prelude::*;

verus! {

/// What a wrapped payload holds.
#[derive(Clone, Copy, Debug, PartialEq, Eq, Structural)]
pub enum PayloadKind {
    /// A serialised engram record.
    EngramBincode,
    /// A serialised sub-engram record.
    SubEngramBincode,
    /// A serialised correction store.
    Corrections,
    /// A serialised hierarchical manifest tree.
    HierarchicalManifest,
}

impl PayloadKind {
    /// The kind's tag byte in the header.
    pub open spec fn spec_byte(self) -> u8 {
        match self {
            PayloadKind::EngramBincode => 1,
            PayloadKind::SubEngramBincode => 2,
            PayloadKind::Corrections => 3,
            PayloadKind::HierarchicalManifest => 4,
        }
    }

    /// The kind a tag byte names, if any.
    pub open spec fn spec_from_byte(b: u8) -> Option<PayloadKind> {
        if b == 1 {
            Some(PayloadKind::EngramBincode)
        } else if b == 2 {
            Some(PayloadKind::SubEngramBincode)
        } else if b == 3 {
            Some(PayloadKind::Corrections)
        } else if b == 4 {
            Some(PayloadKind::HierarchicalManifest)
        } else {
            None
        }
    }

    /// The kind's tag byte.
    pub fn to_byte(self) -> (r: u8)
        ensures
            r == self.spec_byte(),
    {
        match self {
            PayloadKind::EngramBincode => 1,
            PayloadKind::SubEngramBincode => 2,
            PayloadKind::Corrections => 3,
            PayloadKind::HierarchicalManifest => 4,
        }
    }

    /// Parse a tag byte.
    pub fn from_byte(b: u8) -> (r: Option<PayloadKind>)
        ensures
            r == PayloadKind::spec_from_byte(b),
    {
        if b == 1 {
            Some(PayloadKind::EngramBincode)
        } else if b == 2 {
            Some(PayloadKind::SubEngramBincode)
        } else if b == 3 {
            Some(PayloadKind::Corrections)
        } else if b == 4 {
            Some(PayloadKind::HierarchicalManifest)
        } else {
            None
        }
    }
}

/// How the payload bytes are encoded. Only the identity codec is defined.
#[derive(Clone, Copy, Debug, PartialEq, Eq, Structural)]
pub enum CompressionCodec {
    /// The payload is stored as-is; codec byte zero.
    Uncompressed,
}

impl CompressionCodec {
    /// The codec's tag byte.
    pub fn to_byte(self) -> (r: u8)
        ensures
            r == 0,
    {
        0
    }
}

/// Why an envelope was rejected.
#[derive(Clone, Copy, Debug, PartialEq, Eq, Structural)]
pub enum EnvelopeError {
    /// The kind byte names no known payload kind.
    UnknownKind(u8),
    /// The kind byte names a kind other than the expected one.
    UnexpectedKind(u8),
    /// The codec byte names no known codec.
    UnknownCodec(u8),
    /// The header length does not match the payload length.
    SizeMismatch(u64),
}

impl EnvelopeError {
    /// A short description of the rejection.
    pub fn message(&self) -> (r: String)
        ensures
            r@ == match *self {
                EnvelopeError::UnknownKind(_) => "unknown envelope payload kind"@,
                EnvelopeError::UnexpectedKind(_) => "unexpected envelope payload kind"@,
                EnvelopeError::UnknownCodec(_) => "unknown envelope compression codec"@,
                EnvelopeError::SizeMismatch(_) => "envelope size mismatch"@,
            },
    {
        match self {
            EnvelopeError::UnknownKind(_) => "unknown envelope payload kind".to_owned(),
            EnvelopeError::UnexpectedKind(_) => "unexpected envelope payload kind".to_owned(),
            EnvelopeError::UnknownCodec(_) => "unknown envelope compression codec".to_owned(),
            EnvelopeError::SizeMismatch(_) => "envelope size mismatch".to_owned(),
        }
    }
}

/// Byte `i` of the little-endian encoding of `n`.
pub open spec fn le_byte(n: u64, i: int) -> u8 {
    ((n >> ((8 * i) as u64)) & 0xffu64) as u8
}

/// The value the eight header length bytes carry.
pub open spec fn le64_val(b: Seq<u8>) -> int {
    b[0] + 0x100 * b[1] + 0x1_0000 * b[2] + 0x100_0000 * b[3] + 0x1_0000_0000 * b[4]
        + 0x100_0000_0000 * b[5] + 0x1_0000_0000_0000 * b[6] + 0x100_0000_0000_0000 * b[7]
}

/// The envelope bytes around a payload.
pub open spec fn spec_wrap(kind: PayloadKind, payload: Seq<u8>) -> Seq<u8> {
    seq![
        0x45u8,
        0x44u8,
        0x4eu8,
        0x31u8,
        kind.spec_byte(),
        0u8,
        0u8,
        0u8,
        le_byte(payload.len() as u64, 0),
        le_byte(payload.len() as u64, 1),
        le_byte(payload.len() as u64, 2),
        le_byte(payload.len() as u64, 3),
        le_byte(payload.len() as u64, 4),
        le_byte(payload.len() as u64, 5),
        le_byte(payload.len() as u64, 6),
        le_byte(payload.len() as u64, 7),
    ] + payload
}

/// Whether the bytes begin with the envelope magic `EDN1`.
pub open spec fn has_magic(b: Seq<u8>) -> bool {
    b.len() >= 4 && b[0] == 0x45u8 && b[1] == 0x44u8 && b[2] == 0x4eu8 && b[3] == 0x31u8
}

/// Wrap a payload in an envelope with the identity codec.
pub fn wrap(kind: PayloadKind, codec: CompressionCodec, payload: &[u8]) -> (r: Vec<u8>)
    ensures
        r@ == spec_wrap(kind, payload@),
{
    let mut r: Vec<u8> = Vec::new();
    r.push(0x45);
    r.push(0x44);
    r.push(0x4e);
    r.push(0x31);
    r.push(kind.to_byte());
    r.push(codec.to_byte());
    r.push(0);
    r.push(0);
    let n: u64 = payload.len() as u64;
    let mut i: usize = 0;
    while i < 8
        invariant
            n == payload@.len(),
            i <= 8,
            r@.len() == 8 + i,
            r@[0] == 0x45u8 && r@[1] == 0x44u8 && r@[2] == 0x4eu8 && r@[3] == 0x31u8,
            r@[4] == kind.spec_byte() && r@[5] == 0u8 && r@[6] == 0u8 && r@[7] == 0u8,
            forall|k: int| 0 <= k < i ==> r@[8 + k] == le_byte(n, k),
        decreases 8 - i,
    {
        let b: u8 = ((n >> ((8 * i) as u64)) & 0xff) as u8;
        r.push(b);
        i = i + 1;
    }
    let m = payload.len();
    for j in 0..m
        invariant
            n == payload@.len(),
            m == payload@.len(),
            r@.len() == 16 + j,
            r@[0] == 0x45u8 && r@[1] == 0x44u8 && r@[2] == 0x4eu8 && r@[3] == 0x31u8,
            r@[4] == kind.spec_byte() && r@[5] == 0u8 && r@[6] == 0u8 && r@[7] == 0u8,
            forall|k: int| 0 <= k < 8 ==> r@[8 + k] == le_byte(n, k),
            forall|k: int| 0 <= k < j ==> r@[16 + k] == payload@[k],
    {
        r.push(payload[j]);
    }
    proof {
        assert(r@ =~= spec_wrap(kind, payload@));
    }
    r
}

/// Unwrap an envelope, expecting a payload kind. Anything shorter than the
/// header, or without the magic, is returned whole as legacy raw bytes.
/// Otherwise the kind must be known and expected, the codec known, and the
/// header length must match the payload; the payload bytes are returned.
pub fn unwrap_auto(expected: PayloadKind, bytes: &[u8]) -> (r: Result<Vec<u8>, EnvelopeError>)
    ensures
        (bytes@.len() < 16 || !has_magic(bytes@)) ==> (r is Ok && r->Ok_0@ == bytes@),
        bytes@.len() >= 16 && has_magic(bytes@) ==> {
            let kb = bytes@[4];
            let cb = bytes@[5];
            let ln = le64_val(bytes@.subrange(8, 16));
            if PayloadKind::spec_from_byte(kb) is None {
                r == Result::<Vec<u8>, EnvelopeError>::Err(EnvelopeError::UnknownKind(kb))
            } else if PayloadKind::spec_from_byte(kb) != Some(expected) {
                r == Result::<Vec<u8>, EnvelopeError>::Err(EnvelopeError::UnexpectedKind(kb))
            } else if cb != 0 {
                r == Result::<Vec<u8>, EnvelopeError>::Err(EnvelopeError::UnknownCodec(cb))
            } else if ln != bytes@.len() - 16 {
                r is Err && r->Err_0 is SizeMismatch
            } else {
                r is Ok && r->Ok_0@ == bytes@.subrange(16, bytes@.len() as int)
            }
        },
{
    if bytes.len() < 16 {
        return Ok(crate::correction::bytes_of_slice(bytes));
    }
    if !(bytes[0] == 0x45 && bytes[1] == 0x44 && bytes[2] == 0x4e && bytes[3] == 0x31) {
        return Ok(crate::correction::bytes_of_slice(bytes));
    }
    let kb = bytes[4];
    let cb = bytes[5];
    let kind = match PayloadKind::from_byte(kb) {
        None => {
            return Err(EnvelopeError::UnknownKind(kb));
        },
        Some(k) => k,
    };
    let same = match (kind, expected) {
        (PayloadKind::EngramBincode, PayloadKind::EngramBincode) => true,
        (PayloadKind::SubEngramBincode, PayloadKind::SubEngramBincode) => true,
        (PayloadKind::Corrections, PayloadKind::Corrections) => true,
        (PayloadKind::HierarchicalManifest, PayloadKind::HierarchicalManifest) => true,
        _ => false,
    };
    if !same {
        return Err(EnvelopeError::UnexpectedKind(kb));
    }
    if cb != 0 {
        return Err(EnvelopeError::UnknownCodec(cb));
    }
    let mut ln: u64 = 0;
    let mut i: usize = 0;
    while i < 8
        invariant
            bytes@.len() >= 16,
            i <= 8,
            ln as int == le64_prefix(bytes@.subrange(8, 16), i as int),
            (ln as int) < pow256(i as int),
        decreases 8 - i,
    {
        proof {
            lemma_pow256_values();
            assert(bytes@.subrange(8, 16)[i as int] == bytes@[8 + i]);
            let bi = bytes@[8 + i] as int;
            let w = pow256(i as int);
            assert(pow256(i as int + 1) == 0x100 * w);
            assert(bi * w <= 255 * w && bi * w >= 0 && (ln as int) + bi * w < pow256(
                i as int + 1,
            )) by (nonlinear_arith)
                requires
                    0 <= bi <= 255,
                    w >= 1,
                    (ln as int) < pow256(i as int),
                    pow256(i as int) == w,
                    pow256(i as int + 1) == 0x100 * w,
            ;
            assert(255 * w <= 255 * 0x100_0000_0000_0000) by (nonlinear_arith)
                requires
                    1 <= w <= 0x100_0000_0000_0000,
            ;
        }
        ln = ln + (bytes[8 + i] as u64) * byte_weight(i);
        i = i + 1;
    }
    proof {
        lemma_le64_prefix_val(bytes@.subrange(8, 16));
    }
    let body_len = bytes.len() - 16;
    if ln != body_len as u64 {
        return Err(EnvelopeError::SizeMismatch(ln));
    }
    let mut out: Vec<u8> = Vec::new();
    let total = bytes.len();
    let mut j: usize = 16;
    while j < total
        invariant
            total == bytes@.len(),
            16 <= j <= total,
            out@.len() == j - 16,
            forall|k: int| 0 <= k < j - 16 ==> out@[k] == bytes@[16 + k],
        decreases total - j,
    {
        out.push(bytes[j]);
        j = j + 1;
    }
    proof {
        assert(out@ =~= bytes@.subrange(16, bytes@.len() as int));
    }
    Ok(out)
}

/// The value of the first `k` little-endian bytes.
pub open spec fn le64_prefix(b: Seq<u8>, k: int) -> int
    decreases k,
{
    if k <= 0 {
        0
    } else {
        le64_prefix(b, k - 1) + b[k - 1] * pow256(k - 1)
    }
}

/// 256 to the `i`-th power, for the byte weights of the length field.
pub open spec fn pow256(i: int) -> int
    decreases i,
{
    if i <= 0 {
        1
    } else {
        0x100 * pow256(i - 1)
    }
}

/// The exec weight of little-endian byte `i`.
fn byte_weight(i: usize) -> (r: u64)
    requires
        i < 8,
    ensures
        r as int == pow256(i as int),
{
    proof {
        lemma_pow256_values();
    }
    if i == 0 {
        1
    } else if i == 1 {
        0x100
    } else if i == 2 {
        0x1_0000
    } else if i == 3 {
        0x100_0000
    } else if i == 4 {
        0x1_0000_0000
    } else if i == 5 {
        0x100_0000_0000
    } else if i == 6 {
        0x1_0000_0000_0000
    } else {
        0x100_0000_0000_0000
    }
}

/// The byte weights, written out.
proof fn lemma_pow256_values()
    ensures
        pow256(0) == 1,
        pow256(1) == 0x100,
        pow256(2) == 0x1_0000,
        pow256(3) == 0x100_0000,
        pow256(4) == 0x1_0000_0000,
        pow256(5) == 0x100_0000_0000,
        pow256(6) == 0x1_0000_0000_0000,
        pow256(7) == 0x100_0000_0000_0000,
        pow256(8) == 0x1_0000_0000_0000_0000,
        forall|i: int| 0 <= i < 8 ==> 1 <= #[trigger] pow256(i) <= 0x100_0000_0000_0000,
{
    assert(pow256(0) == 1);
    assert(pow256(1) == 0x100);
    assert(pow256(2) == 0x1_0000);
    assert(pow256(3) == 0x100_0000);
    assert(pow256(4) == 0x1_0000_0000);
    assert(pow256(5) == 0x100_0000_0000);
    assert(pow256(6) == 0x1_0000_0000_0000);
    assert(pow256(7) == 0x100_0000_0000_0000);
    assert(pow256(8) == 0x1_0000_0000_0000_0000);
    assert forall|i: int| 0 <= i < 8 implies 1 <= #[trigger] pow256(i)
        <= 0x100_0000_0000_0000 by {
        if i == 0 {
        } else if i == 1 {
        } else if i == 2 {
        } else if i == 3 {
        } else if i == 4 {
        } else if i == 5 {
        } else if i == 6 {
        } else {
            assert(i == 7);
        }
    }
}

/// The eight-byte prefix sum is the little-endian value.
proof fn lemma_le64_prefix_val(b: Seq<u8>)
    ensures
        le64_prefix(b, 8) == le64_val(b),
{
    lemma_pow256_values();
    assert(le64_prefix(b, 0) == 0);
    assert(le64_prefix(b, 1) == le64_prefix(b, 0) + b[0] * pow256(0));
    assert(le64_prefix(b, 2) == le64_prefix(b, 1) + b[1] * pow256(1));
    assert(le64_prefix(b, 3) == le64_prefix(b, 2) + b[2] * pow256(2));
    assert(le64_prefix(b, 4) == le64_prefix(b, 3) + b[3] * pow256(3));
    assert(le64_prefix(b, 5) == le64_prefix(b, 4) + b[4] * pow256(4));
    assert(le64_prefix(b, 6) == le64_prefix(b, 5) + b[5] * pow256(5));
    assert(le64_prefix(b, 7) == le64_prefix(b, 6) + b[6] * pow256(6));
    assert(le64_prefix(b, 8) == le64_prefix(b, 7) + b[7] * pow256(7));
}

/// The little-endian bytes of a 64-bit value read back as that value, and
/// the value fits in eight bytes.
pub proof fn lemma_le64_roundtrip(n: u64)
    ensures
        le64_val(
            seq![
                le_byte(n, 0),
                le_byte(n, 1),
                le_byte(n, 2),
                le_byte(n, 3),
                le_byte(n, 4),
                le_byte(n, 5),
                le_byte(n, 6),
                le_byte(n, 7),
            ],
        ) == n,
{
    let b0 = le_byte(n, 0);
    let b1 = le_byte(n, 1);
    let b2 = le_byte(n, 2);
    let b3 = le_byte(n, 3);
    let b4 = le_byte(n, 4);
    let b5 = le_byte(n, 5);
    let b6 = le_byte(n, 6);
    let b7 = le_byte(n, 7);
    assert(b0 + 0x100 * b1 + 0x1_0000 * b2 + 0x100_0000 * b3 + 0x1_0000_0000 * b4
        + 0x100_0000_0000 * b5 + 0x1_0000_0000_0000 * b6 + 0x100_0000_0000_0000 * b7 == n) by {
        assert(((n >> 0u64) & 0xffu64) < 256 && ((n >> 8u64) & 0xffu64) < 256 && ((n >> 16u64)
            & 0xffu64) < 256 && ((n >> 24u64) & 0xffu64) < 256 && ((n >> 32u64) & 0xffu64) < 256
            && ((n >> 40u64) & 0xffu64) < 256 && ((n >> 48u64) & 0xffu64) < 256 && ((n >> 56u64)
            & 0xffu64) < 256) by (bit_vector);
        assert(((n >> 0u64) & 0xffu64) + 0x100 * ((n >> 8u64) & 0xffu64) + 0x1_0000 * ((n >> 16u64)
            & 0xffu64) + 0x100_0000 * ((n >> 24u64) & 0xffu64) + 0x1_0000_0000 * ((n >> 32u64)
            & 0xffu64) + 0x100_0000_0000 * ((n >> 40u64) & 0xffu64) + 0x1_0000_0000_0000 * ((n
            >> 48u64) & 0xffu64) + 0x100_0000_0000_0000 * ((n >> 56u64) & 0xffu64) == n)
            by (bit_vector);
        assert(b0 == ((n >> 0u64) & 0xffu64) as u8 && b1 == ((n >> 8u64) & 0xffu64) as u8 && b2
            == ((n >> 16u64) & 0xffu64) as u8 && b3 == ((n >> 24u64) & 0xffu64) as u8 && b4 == ((n
            >> 32u64) & 0xffu64) as u8 && b5 == ((n >> 40u64) & 0xffu64) as u8 && b6 == ((n
            >> 48u64) & 0xffu64) as u8 && b7 == ((n >> 56u64) & 0xffu64) as u8);
    }
}

/// Unwrapping a wrapped payload returns the payload: the envelope header
/// built for a kind passes every check that `unwrap_auto` makes for that
/// kind.
pub proof fn lemma_envelope_roundtrip(kind: PayloadKind, payload: Seq<u8>)
    requires
        payload.len() <= u64::MAX,
    ensures
        spec_wrap(kind, payload).len() == 16 + payload.len(),
        has_magic(spec_wrap(kind, payload)),
        PayloadKind::spec_from_byte(spec_wrap(kind, payload)[4]) == Some(kind),
        spec_wrap(kind, payload)[5] == 0u8,
        le64_val(spec_wrap(kind, payload).subrange(8, 16)) == payload.len(),
        spec_wrap(kind, payload).subrange(16, spec_wrap(kind, payload).len() as int) == payload,
{
    let b = spec_wrap(kind, payload);
    let n = payload.len() as u64;
    lemma_le64_roundtrip(n);
    assert(b.subrange(8, 16) =~= seq![
        le_byte(n, 0),
        le_byte(n, 1),
        le_byte(n, 2),
        le_byte(n, 3),
        le_byte(n, 4),
        le_byte(n, 5),
        le_byte(n, 6),
        le_byte(n, 7),
    ]);
    assert(b.subrange(16, b.len() as int) =~= payload);
}

} // verus!
