use psd2ase_core::structure_audit::{
    ascii, block, classify_resource, digest, hex, is_large_key, issue, push_duplicates,
    validate_composite, AuditCursor,
};

#[test]
fn cursor_reports_absolute_truncation() {
    let mut cursor = AuditCursor::with_base(&[1, 2], 100);
    let error = cursor
        .take(3, "fixture")
        .expect_err("must reject truncation");
    assert!(error.contains("0x64"));
}

#[test]
fn opaque_block_keeps_wire_identity() {
    let bytes = [1, 2, 3, 4, 5];
    let record = block("opaque", 9, 14, 5, 5, 2, &[0], &bytes, "opaque");
    assert_eq!(record.sha256, digest(&bytes));
    assert_eq!(record.preview_hex, "0102030405");
    assert_eq!(record.padding_hex, "00");
}

#[test]
fn cursor_reads_fields_and_tracks_file_offsets() {
    let bytes = [0u8, 0, 0, 1, 0xff, 0xff, 0xff, 0xfe, 0, 0, 0, 0, 0, 0, 1, 0, 0x80];
    let mut cursor = AuditCursor::with_base(&bytes, 16);
    assert_eq!(cursor.u32("one").unwrap(), 1);
    assert_eq!(cursor.i32("minus two").unwrap(), -2);
    assert_eq!(cursor.u64("wide").unwrap(), 256);
    assert_eq!(cursor.absolute(), 32);
    assert_eq!(cursor.remaining(), 1);
    assert_eq!(cursor.u8("last").unwrap(), 0x80);
    assert!(cursor.u8("past end").is_err());
}

#[test]
fn padding_before_signature_finds_the_next_block() {
    let bytes = b"\0\08BIMkey ";
    let cursor = AuditCursor::new(bytes);
    assert_eq!(cursor.padding_before_signature(3), 2);
    assert_eq!(cursor.padding_before_signature(1), 0);
    let wide = AuditCursor::new(b"\08B64");
    assert_eq!(wide.padding_before_signature(4), 1);
}

#[test]
fn renderings_of_bytes() {
    assert_eq!(hex(&[0x00, 0xab, 0x7f]), "00ab7f");
    assert_eq!(ascii(b"8BIM\x00 ~\x7f"), "8BIM. ~.");
    assert_eq!(
        digest(b"abc"),
        "ba7816bf8f01cfea414140de5dae2223b00361a396177a9cb410ff61f20015ad"
    );
    assert_eq!(digest(b"").len(), 64);
}

#[test]
fn resource_classes_and_large_keys() {
    assert_eq!(classify_resource(4000, b"maniIRFR...."), "maniIRFR");
    assert_eq!(classify_resource(4000, b"mopt"), "mopt");
    assert_eq!(classify_resource(4001, b"xxxx"), "opaque_plugin");
    assert_eq!(classify_resource(1005, b"xxxx"), "standard_or_opaque");
    assert!(is_large_key("Lr16"));
    assert!(is_large_key("PxSD"));
    assert!(!is_large_key("lyid"));
    assert!(!is_large_key("Lr1"));
}

#[test]
fn duplicates_are_reported_once_per_repeat() {
    let mut findings = vec!["earlier".to_string()];
    push_duplicates("frame", &vec![3, 4, 3, 3, 5], &mut findings);
    assert_eq!(findings.len(), 3);
    assert_eq!(findings[0], "earlier");
    assert_eq!(findings[1], "duplicate frame ID 3");
    let finding = issue(12, "warning", "odd block");
    assert_eq!((finding.offset, finding.severity.as_str(), finding.message.as_str()), (12, "warning", "odd block"));
}

#[test]
fn composite_framing_checks() {
    let raw = [0u8, 0, 1, 2, 3, 4];
    assert_eq!(validate_composite(&raw, Some(0), Some(4), false, 4, 1), (Some(4), Some(4), "valid raw".to_string()));
    assert_eq!(validate_composite(&raw, Some(0), Some(3), false, 4, 1).2, "raw length mismatch");
    assert_eq!(validate_composite(&raw, None, None, false, 4, 1), (None, None, "truncated compression field".to_string()));
    let rle = [0u8, 1, 0, 1, 0, 2, 9, 9, 9];
    assert_eq!(validate_composite(&rle, Some(1), Some(8), false, 2, 1), (Some(8), Some(7), "valid RLE framing".to_string()));
    assert_eq!(validate_composite(&rle, Some(1), None, false, 3, 2).2, "truncated RLE row table");
    let zlib_empty = [0u8, 2, 0x78, 0x9c, 0x03, 0x00, 0x00, 0x00, 0x00, 0x01];
    assert_eq!(validate_composite(&zlib_empty, Some(2), Some(0), false, 1, 1), (Some(0), Some(8), "valid single zlib stream".to_string()));
    assert_eq!(validate_composite(&zlib_empty, Some(3), Some(1), false, 1, 1).2, "zlib length or trailing-data mismatch");
    let broken = [0u8, 2, 0x12, 0x34];
    assert!(validate_composite(&broken, Some(2), Some(0), false, 1, 1).2.starts_with("zlib error"));
    assert_eq!(validate_composite(&raw, Some(9), None, false, 1, 1).2, "unknown compression 9");
}
