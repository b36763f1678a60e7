use psd2ase_core::roundtrip::{
    classify_markers, decode_marker, encode_marker, inspect, inspect_detailed, read_length,
    read_u16, read_u32, scan_extra, LayerMarker, MarkerRole,
};
use psd2ase_core::InspectionError;

fn marker(version: u16, role: MarkerRole, id: u32, index: u32, count: u32) -> LayerMarker {
    LayerMarker {
        version,
        role,
        logical_layer_id: id,
        variant_index: index,
        variant_count: count,
    }
}

fn extra_with(markers: &[LayerMarker]) -> Vec<u8> {
    let mut extra = vec![0u8; 8];
    extra.extend_from_slice(&[0, 0, 0, 0]);
    for m in markers {
        extra.extend_from_slice(b"8BIMp2rt");
        extra.extend_from_slice(&20u32.to_be_bytes());
        extra.extend_from_slice(&encode_marker(*m));
    }
    extra
}

fn psd_with_layers(extras: &[Vec<u8>]) -> Vec<u8> {
    let mut records = Vec::new();
    records.extend_from_slice(&(extras.len() as i16).to_be_bytes());
    for extra in extras {
        records.extend_from_slice(&[0u8; 16]);
        records.extend_from_slice(&0u16.to_be_bytes());
        records.extend_from_slice(b"8BIMnorm");
        records.extend_from_slice(&[255, 0, 0, 0]);
        records.extend_from_slice(&(extra.len() as u32).to_be_bytes());
        records.extend_from_slice(extra);
    }
    let mut bytes = Vec::new();
    bytes.extend_from_slice(b"8BPS");
    bytes.extend_from_slice(&1u16.to_be_bytes());
    bytes.extend_from_slice(&[0; 6]);
    bytes.extend_from_slice(&4u16.to_be_bytes());
    bytes.extend_from_slice(&1u32.to_be_bytes());
    bytes.extend_from_slice(&1u32.to_be_bytes());
    bytes.extend_from_slice(&8u16.to_be_bytes());
    bytes.extend_from_slice(&3u16.to_be_bytes());
    bytes.extend_from_slice(&0u32.to_be_bytes());
    bytes.extend_from_slice(&0u32.to_be_bytes());
    bytes.extend_from_slice(&((records.len() + 4) as u32).to_be_bytes());
    bytes.extend_from_slice(&(records.len() as u32).to_be_bytes());
    bytes.extend_from_slice(&records);
    bytes
}

#[test]
fn markers_survive_encoding() {
    for m in [
        marker(1, MarkerRole::Wrapper, 9, 0, 3),
        marker(1, MarkerRole::Variant, 9, 2, 3),
        marker(2, MarkerRole::FrameGroup, 4, 1, 5),
        marker(2, MarkerRole::LayerCopy, 0xdead_beef, 5, 5),
    ] {
        let bytes = encode_marker(m);
        assert_eq!(bytes.len(), 20);
        assert_eq!(&bytes[..4], b"P2RT");
        assert_eq!(decode_marker(&bytes), Some(m));
    }
}

#[test]
fn decoding_rejects_foreign_payloads() {
    let good = encode_marker(marker(1, MarkerRole::Wrapper, 9, 0, 3));
    assert_eq!(decode_marker(&good[..19]), None);
    let mut bad_magic = good.clone();
    bad_magic[0] = b'X';
    assert_eq!(decode_marker(&bad_magic), None);
    let mut bad_pad = good.clone();
    bad_pad[7] = 1;
    assert_eq!(decode_marker(&bad_pad), None);
    let mismatched = encode_marker(marker(2, MarkerRole::Wrapper, 9, 0, 3));
    assert_eq!(decode_marker(&mismatched), None);
}

#[test]
fn undecodable_marker_block_is_recorded_as_invalid() {
    let mut extra = vec![0u8; 12];
    extra.extend_from_slice(b"8BIMp2rt");
    extra.extend_from_slice(&4u32.to_be_bytes());
    extra.extend_from_slice(&[1, 2, 3, 4]);
    let found = scan_extra(&extra);
    assert_eq!(found, vec![marker(0, MarkerRole::Wrapper, 0, 0, 0)]);
}

#[test]
fn unmarked_document_is_valid() {
    let bytes = psd_with_layers(&[extra_with(&[]), extra_with(&[])]);
    let status = inspect(&bytes).expect("valid PSD");
    assert!(!status.marked);
    assert!(status.valid);
}

#[test]
fn complete_wrapper_set_is_valid() {
    let bytes = psd_with_layers(&[
        extra_with(&[marker(1, MarkerRole::Wrapper, 5, 0, 2)]),
        extra_with(&[marker(1, MarkerRole::Variant, 5, 1, 2)]),
        extra_with(&[marker(1, MarkerRole::Variant, 5, 2, 2)]),
    ]);
    let layout = inspect_detailed(&bytes).expect("valid PSD");
    assert!(layout.status.marked);
    assert!(layout.status.valid);
    assert_eq!(layout.version, Some(1));
    assert_eq!(layout.frame_count, None);
}

#[test]
fn incomplete_wrapper_set_is_invalid() {
    let bytes = psd_with_layers(&[
        extra_with(&[marker(1, MarkerRole::Wrapper, 5, 0, 2)]),
        extra_with(&[marker(1, MarkerRole::Variant, 5, 1, 2)]),
    ]);
    let status = inspect(&bytes).expect("valid PSD");
    assert!(status.marked);
    assert!(!status.valid);
}

#[test]
fn frame_group_layout_reports_frame_count() {
    let bytes = psd_with_layers(&[
        extra_with(&[marker(2, MarkerRole::FrameGroup, 1, 1, 2)]),
        extra_with(&[marker(2, MarkerRole::FrameGroup, 2, 2, 2)]),
        extra_with(&[marker(2, MarkerRole::LayerCopy, 7, 1, 2), marker(2, MarkerRole::LayerCopy, 7, 2, 2)]),
    ]);
    let layout = inspect_detailed(&bytes).expect("valid PSD");
    assert!(layout.status.valid);
    assert_eq!(layout.version, Some(2));
    assert_eq!(layout.frame_count, Some(2));
}

#[test]
fn frame_group_layout_without_copies_is_invalid() {
    let layout = classify_markers(&vec![
        marker(2, MarkerRole::FrameGroup, 1, 1, 2),
        marker(2, MarkerRole::FrameGroup, 2, 2, 2),
    ]);
    assert!(layout.status.marked);
    assert!(!layout.status.valid);
    assert_eq!(layout.frame_count, Some(2));
}

#[test]
fn mixed_versions_are_invalid() {
    let layout = classify_markers(&vec![
        marker(1, MarkerRole::Wrapper, 5, 0, 1),
        marker(2, MarkerRole::FrameGroup, 1, 1, 1),
    ]);
    assert!(layout.status.marked);
    assert!(!layout.status.valid);
    assert_eq!(layout.version, None);
    assert_eq!(layout.frame_count, None);
}

#[test]
fn duplicate_variant_is_invalid() {
    let layout = classify_markers(&vec![
        marker(1, MarkerRole::Wrapper, 5, 0, 2),
        marker(1, MarkerRole::Variant, 5, 1, 2),
        marker(1, MarkerRole::Variant, 5, 1, 2),
        marker(1, MarkerRole::Variant, 5, 2, 2),
    ]);
    assert!(!layout.status.valid);
}

#[test]
fn invalid_header_is_a_read_error() {
    let mut bytes = psd_with_layers(&[]);
    bytes[0] = b'X';
    assert!(matches!(inspect(&bytes), Err(InspectionError::PsdRead(_))));
    let mut version = psd_with_layers(&[]);
    version[5] = 3;
    assert!(matches!(inspect(&version), Err(InspectionError::PsdRead(_))));
    assert!(matches!(inspect(&[0u8; 10]), Err(InspectionError::PsdRead(_))));
}

#[test]
fn field_readers_are_big_endian_and_bounded() {
    let bytes = [0x12u8, 0x34, 0x56, 0x78, 0, 0, 0, 0, 0, 0, 1, 0];
    assert_eq!(read_u16(&bytes, 0).unwrap(), 0x1234);
    assert_eq!(read_u32(&bytes, 0).unwrap(), 0x1234_5678);
    assert!(read_u32(&bytes, 10).is_err());
    assert_eq!(read_length(&bytes, 4, true).unwrap(), 256);
    assert_eq!(read_length(&bytes, 0, false).unwrap(), 0x1234_5678);
}

#[test]
fn one_undecodable_block_makes_a_marked_document_invalid() {
    let mut broken = vec![0u8; 12];
    broken.extend_from_slice(b"8BIMp2rt");
    broken.extend_from_slice(&4u32.to_be_bytes());
    broken.extend_from_slice(&[1, 2, 3, 4]);
    let bytes = psd_with_layers(&[
        extra_with(&[marker(1, MarkerRole::Wrapper, 5, 0, 1)]),
        extra_with(&[marker(1, MarkerRole::Variant, 5, 1, 1)]),
        broken,
    ]);
    let status = inspect(&bytes).expect("valid PSD");
    assert!(status.marked);
    assert!(!status.valid);
    let intact = psd_with_layers(&[
        extra_with(&[marker(1, MarkerRole::Wrapper, 5, 0, 1)]),
        extra_with(&[marker(1, MarkerRole::Variant, 5, 1, 1)]),
    ]);
    assert!(inspect(&intact).expect("valid PSD").valid);
}
