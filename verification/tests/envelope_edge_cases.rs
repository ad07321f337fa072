//! Envelope framing checks against hand-built headers.

use embeddenator::envelope::{unwrap_auto, wrap};
use embeddenator::{CompressionCodec, PayloadKind};

fn make_envelope(kind: u8, codec: u8, uncompressed_len: u64, payload: &[u8]) -> Vec<u8> {
    let mut out = Vec::with_capacity(16 + payload.len());
    out.extend_from_slice(b"EDN1");
    out.push(kind);
    out.push(codec);
    out.extend_from_slice(&0u16.to_le_bytes());
    out.extend_from_slice(&uncompressed_len.to_le_bytes());
    out.extend_from_slice(payload);
    out
}

#[test]
fn unwrap_auto_treats_truncated_envelope_as_legacy_bytes() {
    let truncated = b"EDN1\x01\x00".to_vec();
    let out = unwrap_auto(PayloadKind::EngramBincode, &truncated).unwrap();
    assert_eq!(out, truncated);
}

#[test]
fn unwrap_auto_rejects_unknown_kind() {
    let bytes = make_envelope(99, 0, 0, b"");
    let err = unwrap_auto(PayloadKind::EngramBincode, &bytes).unwrap_err();
    assert!(err.message().contains("unknown envelope payload kind"));
}

#[test]
fn unwrap_auto_rejects_unexpected_kind() {
    let bytes = make_envelope(PayloadKind::SubEngramBincode.to_byte(), 0, 0, b"");
    let err = unwrap_auto(PayloadKind::EngramBincode, &bytes).unwrap_err();
    assert!(err.message().contains("unexpected envelope payload kind"));
}

#[test]
fn unwrap_auto_rejects_unknown_codec() {
    let bytes = make_envelope(PayloadKind::EngramBincode.to_byte(), 99, 0, b"");
    let err = unwrap_auto(PayloadKind::EngramBincode, &bytes).unwrap_err();
    assert!(err.message().contains("unknown envelope compression codec"));
}

#[test]
fn unwrap_auto_rejects_size_mismatch_for_none_codec() {
    let bytes = make_envelope(PayloadKind::EngramBincode.to_byte(), 0, 5, b"xyz");
    let err = unwrap_auto(PayloadKind::EngramBincode, &bytes).unwrap_err();
    assert!(err.message().contains("envelope size mismatch"));
}

#[test]
fn unwrap_auto_accepts_none_codec_when_sizes_match() {
    let bytes = make_envelope(PayloadKind::EngramBincode.to_byte(), 0, 3, b"xyz");
    let out = unwrap_auto(PayloadKind::EngramBincode, &bytes).unwrap();
    assert_eq!(out, b"xyz");
}

#[test]
fn wrap_then_unwrap_returns_payload_for_every_kind() {
    let kinds = [
        PayloadKind::EngramBincode,
        PayloadKind::SubEngramBincode,
        PayloadKind::Corrections,
        PayloadKind::HierarchicalManifest,
    ];
    for kind in kinds {
        let payload = b"some payload bytes";
        let wrapped = wrap(kind, CompressionCodec::Uncompressed, payload);
        let out = unwrap_auto(kind, &wrapped).unwrap();
        assert_eq!(out, payload);
    }
}

#[test]
fn wrap_header_layout_is_exact() {
    let wrapped = wrap(PayloadKind::Corrections, CompressionCodec::Uncompressed, b"xyz");
    assert_eq!(&wrapped[0..4], b"EDN1");
    assert_eq!(wrapped[4], PayloadKind::Corrections.to_byte());
    assert_eq!(wrapped[5], 0);
    assert_eq!(&wrapped[6..8], &[0, 0]);
    assert_eq!(&wrapped[8..16], &3u64.to_le_bytes());
    assert_eq!(&wrapped[16..], b"xyz");
}
