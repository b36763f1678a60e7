use psd2ase_core::audit::{audit_framing, length_block_u32};
use psd2ase_core::structure_audit::{digest, AuditCursor};

fn minimal_psd(version: u16, reserved: [u8; 6], signature: &[u8; 4]) -> Vec<u8> {
    let mut bytes = Vec::new();
    bytes.extend_from_slice(signature);
    bytes.extend_from_slice(&version.to_be_bytes());
    bytes.extend_from_slice(&reserved);
    bytes.extend_from_slice(&3u16.to_be_bytes());
    bytes.extend_from_slice(&1u32.to_be_bytes());
    bytes.extend_from_slice(&1u32.to_be_bytes());
    bytes.extend_from_slice(&8u16.to_be_bytes());
    bytes.extend_from_slice(&3u16.to_be_bytes());
    bytes.extend_from_slice(&0u32.to_be_bytes());
    bytes.extend_from_slice(&0u32.to_be_bytes());
    if version == 2 {
        bytes.extend_from_slice(&0u64.to_be_bytes());
    } else {
        bytes.extend_from_slice(&0u32.to_be_bytes());
    }
    bytes.extend_from_slice(&[0, 0, 10, 20, 30]);
    bytes
}

#[test]
fn framing_of_a_minimal_psd() {
    let bytes = minimal_psd(1, [0; 6], b"8BPS");
    let framing = audit_framing(&bytes).unwrap();
    assert_eq!(framing.file_length, 43);
    assert_eq!(framing.sha256, digest(&bytes));
    assert_eq!(framing.header.signature, "8BPS");
    assert_eq!(framing.header.version, 1);
    assert_eq!(framing.header.reserved_hex, "000000000000");
    assert_eq!(framing.header.channels, 3);
    assert_eq!(framing.header.height, 1);
    assert_eq!(framing.header.width, 1);
    assert_eq!(framing.header.depth, 8);
    assert_eq!(framing.header.color_mode, 3);
    assert_eq!(framing.sections.len(), 3);
    assert_eq!(framing.sections[0].kind, "color_mode_data");
    assert_eq!((framing.sections[0].start, framing.sections[0].end), (26, 30));
    assert_eq!((framing.sections[1].start, framing.sections[1].end), (30, 34));
    assert_eq!(framing.sections[2].kind, "layer_and_mask");
    assert_eq!((framing.sections[2].start, framing.sections[2].end), (34, 38));
    assert_eq!(framing.layer_mask_data_start, 38);
    assert_eq!((framing.composite.block.start, framing.composite.block.end), (38, 43));
    assert_eq!(framing.composite.block.status, "opaque");
    assert_eq!(framing.composite.compression, Some(0));
    assert_eq!(framing.composite.expected_decoded_bytes, Some(3));
    assert_eq!(framing.composite.decoded_bytes, Some(3));
    assert_eq!(framing.composite.compressed_bytes_consumed, Some(3));
    assert_eq!(framing.composite.validation, "valid raw");
    assert!(framing.issues.is_empty());
}

#[test]
fn framing_of_a_psb_reads_an_eight_byte_layer_length() {
    let bytes = minimal_psd(2, [0; 6], b"8BPS");
    let framing = audit_framing(&bytes).unwrap();
    assert_eq!((framing.sections[2].start, framing.sections[2].end), (34, 42));
    assert_eq!(framing.layer_mask_data_start, 42);
    assert_eq!(framing.composite.block.start, 42);
    assert!(framing.issues.is_empty());
}

#[test]
fn header_findings_come_in_order() {
    let bytes = minimal_psd(3, [0, 0, 1, 0, 0, 0], b"8BPX");
    let framing = audit_framing(&bytes).unwrap();
    assert_eq!(framing.issues.len(), 3);
    assert_eq!(framing.issues[0].offset, 0);
    assert_eq!(framing.issues[0].message, "header signature is not 8BPS");
    assert_eq!(framing.issues[1].offset, 4);
    assert_eq!(framing.issues[1].message, "unsupported PSD version");
    assert_eq!(framing.issues[2].offset, 6);
    assert_eq!(framing.issues[2].severity, "warning");
    assert_eq!(framing.issues[2].message, "reserved header bytes are not zero");
}

#[test]
fn truncated_headers_and_sections_are_refused() {
    assert_eq!(audit_framing(&[0x38, 0x42]).unwrap_err(), "truncated header signature at 0x0: need 4, have 2");
    let mut bytes = minimal_psd(1, [0; 6], b"8BPS");
    bytes.truncate(28);
    assert_eq!(audit_framing(&bytes).unwrap_err(), "truncated color_mode_data length at 0x1a: need 4, have 2");
}

#[test]
fn length_blocks_describe_their_payload() {
    let data = [0u8, 0, 0, 2, 7, 8, 9];
    let mut cursor = AuditCursor::new(&data);
    let described = length_block_u32(&mut cursor, "fixture", 2).unwrap();
    assert_eq!((described.start, described.end), (0, 6));
    assert_eq!(described.declared_length, 2);
    assert_eq!(described.preview_hex, "0708");
    assert_eq!(described.alignment, 2);
    assert_eq!(described.status, "parsed");
    let mut short = AuditCursor::new(&data[..5]);
    assert_eq!(length_block_u32(&mut short, "fixture", 1).unwrap_err(), "truncated fixture at 0x4: need 2, have 1");
}
