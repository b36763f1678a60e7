use psd2ase_core::photoshop_animation::{
    parse_animation_resource, parse_shmd, scan_layer_extra, scan_layer_records,
    scan_psd_metadata, scan_resources, AnimationFlags, AnimationParseError,
};

fn info_block(key: &[u8; 4], value: &[u8]) -> Vec<u8> {
    let mut bytes = Vec::new();
    bytes.extend_from_slice(b"8BIM");
    bytes.extend_from_slice(key);
    bytes.extend_from_slice(&(value.len() as u32).to_be_bytes());
    bytes.extend_from_slice(value);
    if value.len() % 2 == 1 {
        bytes.push(0);
    }
    bytes
}

fn shmd_record(key: &[u8; 4], value: &[u8]) -> Vec<u8> {
    let mut bytes = Vec::new();
    bytes.extend_from_slice(b"8BIM");
    bytes.extend_from_slice(key);
    bytes.extend_from_slice(&[0, 0, 0, 0]);
    bytes.extend_from_slice(&(value.len() as u32).to_be_bytes());
    bytes.extend_from_slice(value);
    if value.len() % 2 == 1 {
        bytes.push(0);
    }
    bytes
}

fn layer_extra(blocks: &[Vec<u8>]) -> Vec<u8> {
    let mut bytes = Vec::new();
    bytes.extend_from_slice(&0u32.to_be_bytes());
    bytes.extend_from_slice(&0u32.to_be_bytes());
    bytes.extend_from_slice(&[1, b'a', 0, 0]);
    for block in blocks {
        bytes.extend_from_slice(block);
    }
    bytes
}

fn layer_info(extras: &[Vec<u8>]) -> Vec<u8> {
    let mut info = Vec::new();
    info.extend_from_slice(&(-(extras.len() as i16)).to_be_bytes());
    for extra in extras {
        info.extend_from_slice(&[0u8; 16]);
        info.extend_from_slice(&1u16.to_be_bytes());
        info.extend_from_slice(&[0u8; 6]);
        info.extend_from_slice(b"8BIMnorm");
        info.extend_from_slice(&[255, 0, 0, 0]);
        info.extend_from_slice(&(extra.len() as u32).to_be_bytes());
        info.extend_from_slice(extra);
    }
    let mut section = Vec::new();
    section.extend_from_slice(&(info.len() as u32).to_be_bytes());
    section.extend_from_slice(&info);
    section
}

fn animation_resource(ands: &[u8]) -> Vec<u8> {
    let mut body = Vec::new();
    body.extend_from_slice(b"8BIMAnDs");
    body.extend_from_slice(&(ands.len() as u32).to_be_bytes());
    body.extend_from_slice(ands);
    if ands.len() % 2 == 1 {
        body.push(0);
    }
    let mut bytes = b"maniIRFR".to_vec();
    bytes.extend_from_slice(&(body.len() as u32).to_be_bytes());
    bytes.extend_from_slice(&body);
    bytes
}

fn image_resource(id: u16, data: &[u8]) -> Vec<u8> {
    let mut bytes = b"8BIM".to_vec();
    bytes.extend_from_slice(&id.to_be_bytes());
    bytes.extend_from_slice(&[0, 0]);
    bytes.extend_from_slice(&(data.len() as u32).to_be_bytes());
    bytes.extend_from_slice(data);
    if data.len() % 2 == 1 {
        bytes.push(0);
    }
    bytes
}

fn psd(resources: &[u8], layer_mask: &[u8]) -> Vec<u8> {
    let mut bytes = b"8BPS".to_vec();
    bytes.extend_from_slice(&[0, 1]);
    bytes.extend_from_slice(&[0; 20]);
    bytes.extend_from_slice(&0u32.to_be_bytes());
    bytes.extend_from_slice(&(resources.len() as u32).to_be_bytes());
    bytes.extend_from_slice(resources);
    bytes.extend_from_slice(&(layer_mask.len() as u32).to_be_bytes());
    bytes.extend_from_slice(layer_mask);
    bytes
}

#[test]
fn layer_extra_yields_id_flags_and_metadata() {
    let mut shmd = 2u32.to_be_bytes().to_vec();
    shmd.extend_from_slice(&shmd_record(b"mlst", &[1, 2, 3]));
    shmd.extend_from_slice(&shmd_record(b"mdyn", &[0, 1, 1, 4]));
    let extra = layer_extra(&[
        info_block(b"lyid", &42u32.to_be_bytes()),
        info_block(b"luni", &[9, 9, 9]),
        info_block(b"shmd", &shmd),
        info_block(b"mdyn", &[0, 1, 0, 1]),
    ]);
    let layer = scan_layer_extra(&extra).expect("well-formed extra data");
    assert_eq!(layer.id, Some(42));
    assert!(!layer.is_bounding_divider);
    let metadata = layer.shmd.expect("shmd present");
    assert_eq!(metadata.mlst_payloads, vec![vec![1, 2, 3]]);
    assert_eq!(
        metadata.flags,
        Some(AnimationFlags {
            propagate_frame_one: false,
            unify_layer_position: false,
            unify_layer_style: false,
            unify_layer_visibility: true,
        })
    );
    assert_eq!(layer.flags.map(|f| f.unify_layer_position), Some(true));
}

#[test]
fn repeated_or_malformed_blocks_are_rejected() {
    let twice = layer_extra(&[
        info_block(b"lyid", &1u32.to_be_bytes()),
        info_block(b"lyid", &2u32.to_be_bytes()),
    ]);
    assert_eq!(
        scan_layer_extra(&twice),
        Err(AnimationParseError::DuplicateId { kind: "layer".to_string(), id: 2 })
    );
    let short = layer_extra(&[info_block(b"lyid", &[1, 2])]);
    assert!(matches!(scan_layer_extra(&short), Err(AnimationParseError::InvalidData(_))));
    let mut foreign = layer_extra(&[]);
    foreign.extend_from_slice(b"XXXXlyid\0\0\0\0");
    assert!(matches!(scan_layer_extra(&foreign), Err(AnimationParseError::InvalidSignature { .. })));
    assert!(parse_shmd(&[0, 0, 0, 1]).is_err());
    assert_eq!(parse_shmd(&[0, 0, 0, 0]).expect("no records").mlst_payloads.len(), 0);
}

#[test]
fn bounding_dividers_are_left_out() {
    let divider = layer_extra(&[info_block(b"lsct", &3u32.to_be_bytes()), info_block(b"lyid", &5u32.to_be_bytes())]);
    let open_folder = layer_extra(&[info_block(b"lsct", &1u32.to_be_bytes()), info_block(b"lyid", &6u32.to_be_bytes())]);
    let layers = scan_layer_records(&layer_info(&[divider, open_folder])).expect("records");
    assert_eq!(layers.len(), 1);
    assert_eq!(layers[0].id, Some(6));
    assert!(scan_layer_records(&[]).expect("empty").is_empty());
    assert!(scan_layer_records(&[0, 0, 0, 0]).expect("zero-length info").is_empty());
    assert!(matches!(scan_layer_records(&[0, 0]), Err(AnimationParseError::Truncated { .. })));
}

#[test]
fn animation_resources_hand_out_their_descriptor() {
    assert_eq!(parse_animation_resource(b"mopt1234").expect("other plugin"), None);
    assert_eq!(parse_animation_resource(&animation_resource(&[5, 6, 7])).expect("mani"), Some(vec![5, 6, 7]));
    let mut twice = b"maniIRFR".to_vec();
    let child = info_block(b"AnDs", &[1, 2]);
    twice.extend_from_slice(&((2 * child.len()) as u32).to_be_bytes());
    twice.extend_from_slice(&child);
    twice.extend_from_slice(&child);
    assert!(matches!(parse_animation_resource(&twice), Err(AnimationParseError::InvalidData(_))));
    let mut resources = image_resource(1005, &[1, 2, 3]);
    resources.extend_from_slice(&image_resource(4000, &animation_resource(&[8, 9])));
    resources.extend_from_slice(&image_resource(4002, &animation_resource(&[1])));
    assert_eq!(scan_resources(&resources).expect("resources"), vec![(4000, vec![8, 9])]);
}

#[test]
fn document_scan_collects_descriptors_and_layers() {
    let resources = image_resource(4003, &animation_resource(&[7]));
    let extra = layer_extra(&[info_block(b"lyid", &11u32.to_be_bytes())]);
    let bytes = psd(&resources, &layer_info(&[extra]));
    let scanned = scan_psd_metadata(&bytes).expect("valid document");
    assert_eq!(scanned.animation_descriptors, vec![(4003, vec![7])]);
    assert_eq!(scanned.resource_ids, vec![4003]);
    assert_eq!(scanned.layers.len(), 1);
    assert_eq!(scanned.layers[0].id, Some(11));
    let mut empty = vec![0u8; 38];
    empty[0..4].copy_from_slice(b"8BPS");
    empty[4..6].copy_from_slice(&1u16.to_be_bytes());
    let plain = scan_psd_metadata(&empty).expect("valid empty PSD");
    assert!(plain.animation_descriptors.is_empty() && plain.layers.is_empty());
    assert!(matches!(scan_psd_metadata(b"8BPX"), Err(AnimationParseError::InvalidSignature { .. })));
}
