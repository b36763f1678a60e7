use psd2ase_core::animation_resource::{
    add_ands_trailer, append_ands_bytes, locate_ands_child, read_u32, replace_mlst_layer_id,
    truncate_ands_payload, ChildLocateError,
};

fn child(key: &[u8; 4], data: &[u8]) -> Vec<u8> {
    let mut bytes = Vec::new();
    bytes.extend_from_slice(b"8BIM");
    bytes.extend_from_slice(key);
    bytes.extend_from_slice(&(data.len() as u32).to_be_bytes());
    bytes.extend_from_slice(data);
    if data.len() % 2 == 1 {
        bytes.push(0);
    }
    bytes
}

fn resource(children: &[Vec<u8>], tail: &[u8]) -> Vec<u8> {
    let body: Vec<u8> = children.concat();
    let mut bytes = Vec::new();
    bytes.extend_from_slice(b"maniIRFR");
    bytes.extend_from_slice(&(body.len() as u32).to_be_bytes());
    bytes.extend_from_slice(&body);
    bytes.extend_from_slice(tail);
    bytes
}

#[test]
fn trailer_grows_the_descriptor_and_both_lengths() {
    let payload = resource(&[child(b"FrIn", &[1, 2, 3]), child(b"AnDs", &[9, 8, 7, 6])], &[0xee]);
    let edited = add_ands_trailer(&payload).expect("AnDs present");
    let expected = resource(&[child(b"FrIn", &[1, 2, 3]), child(b"AnDs", &[9, 8, 7, 6, 0, 0])], &[0xee]);
    assert_eq!(edited, expected);
    assert_eq!(append_ands_bytes(&payload, 2).expect("AnDs present"), expected);
}

#[test]
fn truncation_undoes_an_append() {
    let payload = resource(&[child(b"AnDs", &[1, 2, 3, 4, 5, 6])], &[]);
    let grown = append_ands_bytes(&payload, 5).expect("AnDs present");
    assert_eq!(grown.len(), payload.len() + 5);
    assert_eq!(read_u32(&grown, 8).unwrap(), read_u32(&payload, 8).unwrap() + 5);
    let restored = truncate_ands_payload(&grown, 5).expect("enough bytes");
    assert_eq!(restored, payload);
}

#[test]
fn truncation_keeps_the_rest_of_the_payload() {
    let payload = resource(&[child(b"AnDs", &[1, 2, 3, 4]), child(b"Xtra", &[5, 6])], &[]);
    let shorter = truncate_ands_payload(&payload, 2).expect("enough bytes");
    let mut expected = Vec::new();
    expected.extend_from_slice(b"maniIRFR");
    expected.extend_from_slice(&28u32.to_be_bytes());
    expected.extend_from_slice(b"8BIMAnDs");
    expected.extend_from_slice(&2u32.to_be_bytes());
    expected.extend_from_slice(&[1, 2]);
    expected.extend_from_slice(&child(b"Xtra", &[5, 6]));
    assert_eq!(shorter, expected);
    assert!(truncate_ands_payload(&payload, 5).is_err());
}

#[test]
fn malformed_resources_are_rejected() {
    assert_eq!(
        locate_ands_child(b"mopt\0\0\0\0\0\0\0\0"),
        Err(ChildLocateError::NotAnimationResource)
    );
    let missing = resource(&[child(b"FrIn", &[1, 2])], &[]);
    assert_eq!(locate_ands_child(&missing), Err(ChildLocateError::NoAndsChild));
    assert_eq!(add_ands_trailer(&missing), Err("maniIRFR has no AnDs child".to_string()));
    let mut truncated = resource(&[child(b"AnDs", &[1, 2])], &[]);
    truncated[11] += 4;
    assert_eq!(locate_ands_child(&truncated), Err(ChildLocateError::SectionTruncated));
    let mut overlong_child = resource(&[child(b"AnDs", &[1, 2])], &[0, 0, 0, 0]);
    overlong_child[23] = 4;
    assert_eq!(locate_ands_child(&overlong_child), Err(ChildLocateError::ChildTruncated));
    assert_eq!(add_ands_trailer(&overlong_child), Err("truncated child payload".to_string()));
}

#[test]
fn located_child_names_its_offset_and_length() {
    let payload = resource(&[child(b"FrIn", &[1, 2, 3]), child(b"AnDs", &[9, 8])], &[]);
    assert_eq!(locate_ands_child(&payload), Ok((28, 2, 30)));
}

#[test]
fn layer_id_is_replaced_once() {
    let mut payload = b"prefixLaIDlong".to_vec();
    payload.extend_from_slice(&7u32.to_be_bytes());
    payload.extend_from_slice(b"suffix");
    let edited = replace_mlst_layer_id(&payload, 7, 0x0102_0304).expect("one LaID");
    let mut expected = b"prefixLaIDlong".to_vec();
    expected.extend_from_slice(&[1, 2, 3, 4]);
    expected.extend_from_slice(b"suffix");
    assert_eq!(edited, expected);
}

#[test]
fn missing_or_repeated_layer_id_is_rejected() {
    let mut payload = b"LaIDlong".to_vec();
    payload.extend_from_slice(&7u32.to_be_bytes());
    let error = replace_mlst_layer_id(&payload, 8, 1).expect_err("no LaID for layer 8");
    assert!(error.contains("found 0"));
    let mut twice = payload.clone();
    twice.extend_from_slice(&payload);
    let error = replace_mlst_layer_id(&twice, 7, 1).expect_err("two LaIDs for layer 7");
    assert!(error.contains("found 2"));
}
