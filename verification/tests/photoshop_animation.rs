use psd2ase_core::photoshop_animation::{
    index_raw_layers, layer_enable_states, merge_flags, parse_mdyn, resolve_layer_states, resolve_visible_layers,
    state_for_frame, validate_input_layers, AnimationFlags, AnimationLayerInput,
    AnimationParseError, Cursor, FrameEnableState, LayerEnableStates, PhotoshopFrame,
    RawFrameRecord, RawLayer,
};

fn input(id: u32, path: &str, is_group: bool, is_container_group: bool, hidden: bool, ancestors: Vec<u32>) -> AnimationLayerInput {
    AnimationLayerInput {
        id,
        path: path.to_string(),
        is_group,
        is_container_group,
        hidden,
        ancestor_ids: ancestors,
    }
}

fn frame(id: u32) -> PhotoshopFrame {
    PhotoshopFrame { id, duration_ms: 100, dispose: None }
}

fn record(frame_id: u32, enable: Option<bool>) -> RawFrameRecord {
    RawFrameRecord { frame_id, enable }
}

#[test]
fn cursor_rejects_truncated_section() {
    let mut cursor = Cursor::new(&[0, 1]);
    let error = cursor.u32("test").expect_err("truncated input must fail");
    assert!(matches!(error, AnimationParseError::Truncated { .. }));
}

#[test]
fn cursor_rejects_length_overflow() {
    let mut cursor = Cursor::new(&[0]);
    let error = cursor
        .take(usize::MAX, "test")
        .expect_err("oversized input must fail");
    assert!(matches!(error, AnimationParseError::Truncated { .. }));
}

#[test]
fn cursor_reads_big_endian_fields_in_order() {
    let bytes = [0x38, 0x42, 0x50, 0x53, 0xff, 0xfe, 0x00, 0x00, 0x01, 0x00, 0x07];
    let mut cursor = Cursor::new(&bytes);
    cursor.expect_bytes(b"8BPS", "header").expect("signature");
    assert_eq!(cursor.i16("value").unwrap(), -2);
    assert_eq!(cursor.u32("value").unwrap(), 256);
    assert_eq!(cursor.offset(), 10);
    assert_eq!(cursor.remaining(), 1);
    assert_eq!(cursor.peek_bytes(1).unwrap(), &[7]);
    assert_eq!(cursor.u8("value").unwrap(), 7);
    assert!(matches!(cursor.u16("value"), Err(AnimationParseError::Truncated { offset: 11, .. })));
}

#[test]
fn signature_mismatch_names_expected_text_and_offset() {
    let mut cursor = Cursor::new(b"xx8BIX");
    cursor.skip(2, "lead").unwrap();
    let error = cursor.expect_bytes(b"8BIM", "signature").expect_err("mismatch");
    assert_eq!(
        error,
        AnimationParseError::InvalidSignature { expected: "8BIM".to_string(), offset: 2 }
    );
}

#[test]
fn duplicate_input_layer_ids_are_rejected() {
    let layers = vec![
        AnimationLayerInput {
            id: 7,
            path: "0".to_string(),
            is_group: false,
            is_container_group: false,
            hidden: false,
            ancestor_ids: Vec::new(),
        },
        AnimationLayerInput {
            id: 7,
            path: "1".to_string(),
            is_group: false,
            is_container_group: false,
            hidden: false,
            ancestor_ids: Vec::new(),
        },
    ];
    assert!(matches!(
        validate_input_layers(&layers),
        Err(AnimationParseError::DuplicateId { .. })
    ));
}

#[test]
fn zero_input_layer_id_is_missing() {
    let layers = vec![input(3, "0", false, false, false, vec![]), input(0, "1", false, false, false, vec![])];
    assert_eq!(
        validate_input_layers(&layers),
        Err(AnimationParseError::MissingLayerId { path: "1".to_string() })
    );
    assert_eq!(validate_input_layers(&vec![input(3, "0", false, false, false, vec![])]), Ok(()));
}

#[test]
fn missing_enable_inherits_previous_state() {
    let layer = input(7, "0", false, false, false, Vec::new());
    let records = vec![record(1, Some(false)), record(2, None)];
    let frames = vec![frame(1), frame(2)];
    let states = resolve_layer_states(&layer, Some(&records), &frames);
    assert!(!states[0].enabled);
    assert!(!states[1].enabled);
    assert!(states[0].record_present);
    assert!(states[1].record_present);
    assert!(!states[1].explicit_enable);
}

#[test]
fn missing_animation_record_does_not_inherit_visibility() {
    let layer = input(7, "0", false, false, false, Vec::new());
    let records = vec![record(1, Some(true)), record(3, Some(true))];
    let frames = vec![frame(1), frame(2), frame(3)];
    let states = resolve_layer_states(&layer, Some(&records), &frames);
    assert!(states[0].enabled);
    assert!(states[0].record_present);
    assert!(!states[1].enabled);
    assert!(!states[1].record_present);
    assert!(states[2].enabled);
    assert!(states[2].record_present);
    assert_eq!(states[2].record_index, Some(1));
}

#[test]
fn first_missing_animation_record_starts_hidden() {
    let layer = input(7, "0", false, false, false, Vec::new());
    let records = vec![record(2, Some(true))];
    let frames = vec![frame(1), frame(2)];
    let states = resolve_layer_states(&layer, Some(&records), &frames);
    assert!(!states[0].enabled);
    assert!(!states[0].record_present);
    assert!(states[1].enabled);
    assert!(states[1].record_present);
}

#[test]
fn group_record_without_enable_is_not_selected() {
    let layer = input(7, "0", true, false, false, Vec::new());
    let records = vec![record(1, Some(true)), record(2, None)];
    let frames = vec![frame(1), frame(2)];
    let states = resolve_layer_states(&layer, Some(&records), &frames);
    assert!(states[0].enabled);
    assert!(!states[1].enabled);
    assert!(states[1].record_present);
    assert!(!states[1].explicit_enable);
}

#[test]
fn container_group_record_without_enable_inherits_state() {
    let layer = input(7, "0", true, true, false, Vec::new());
    let records = vec![record(1, Some(true)), record(2, None)];
    let frames = vec![frame(1), frame(2)];
    let states = resolve_layer_states(&layer, Some(&records), &frames);
    assert!(states[0].enabled);
    assert!(states[1].enabled);
    assert!(states[1].record_present);
    assert!(!states[1].explicit_enable);
}

#[test]
fn layer_without_records_keeps_base_visibility() {
    let frames = vec![frame(1), frame(2)];
    let shown = resolve_layer_states(&input(7, "0", false, false, false, vec![]), None, &frames);
    assert!(shown.iter().all(|state| state.enabled && !state.record_present));
    let hidden = resolve_layer_states(&input(7, "0", false, false, true, vec![]), None, &frames);
    assert!(hidden.iter().all(|state| !state.enabled));
}

fn enable_states(layer_id: u32, frame_id: u32, enabled: bool) -> LayerEnableStates {
    LayerEnableStates {
        layer_id,
        frames: vec![FrameEnableState {
            frame_id,
            record_present: false,
            enabled,
            explicit_enable: false,
            record_index: None,
        }],
    }
}

#[test]
fn layer_visibility_includes_ancestors() {
    let layers = vec![
        input(1, "0", true, false, true, Vec::new()),
        input(2, "0/0", false, false, false, vec![1]),
    ];
    let states = vec![enable_states(1, 7, false), enable_states(2, 7, true)];
    assert!(resolve_visible_layers(&layers, &states, &vec![frame(7)])[0]
        .layer_ids
        .is_empty());
}

#[test]
fn visible_pixel_layers_are_listed_in_tree_order() {
    let layers = vec![
        input(1, "0", true, false, false, Vec::new()),
        input(2, "0/0", false, false, false, vec![1]),
        input(3, "1", false, false, false, Vec::new()),
    ];
    let states = vec![enable_states(1, 7, true), enable_states(2, 7, true), enable_states(3, 7, true)];
    let visible = resolve_visible_layers(&layers, &states, &vec![frame(7), frame(8)]);
    assert_eq!(visible[0].frame_id, 7);
    assert_eq!(visible[0].layer_ids, vec![2, 3]);
    assert_eq!(visible[1].frame_id, 8);
    assert!(visible[1].layer_ids.is_empty());
    assert_eq!(state_for_frame(&states[0], 8), None);
}

#[test]
fn raw_layers_need_unique_ids() {
    let layer = |id: Option<u32>| RawLayer { id, shmd: None, flags: None, is_bounding_divider: false };
    assert_eq!(index_raw_layers(&vec![layer(Some(1)), layer(Some(2))]), Ok(()));
    assert_eq!(
        index_raw_layers(&vec![layer(Some(1)), layer(None)]),
        Err(AnimationParseError::MissingLayerId { path: "<raw layer>".to_string() })
    );
    assert_eq!(
        index_raw_layers(&vec![layer(Some(4)), layer(Some(4))]),
        Err(AnimationParseError::DuplicateId { kind: "layer".to_string(), id: 4 })
    );
}

#[test]
fn mdyn_flags_and_merging() {
    let flags = parse_mdyn(&[0, 1, 0, 5]).expect("four bytes");
    assert_eq!(
        flags,
        AnimationFlags {
            propagate_frame_one: true,
            unify_layer_position: true,
            unify_layer_style: false,
            unify_layer_visibility: true,
        }
    );
    assert!(!parse_mdyn(&[0, 1, 1, 2]).unwrap().propagate_frame_one);
    assert!(matches!(parse_mdyn(&[0, 1, 0]), Err(AnimationParseError::Truncated { .. })));
    assert_eq!(merge_flags(None, flags), Ok(Some(flags)));
    assert_eq!(merge_flags(Some(flags), flags), Ok(Some(flags)));
    let other = parse_mdyn(&[0, 1, 1, 0]).unwrap();
    assert!(matches!(merge_flags(Some(flags), other), Err(AnimationParseError::InvalidData(_))));
}

#[test]
fn enable_states_carry_the_layer_id() {
    let layer = input(7, "0", false, false, true, Vec::new());
    let records = vec![record(2, Some(true))];
    let frames = vec![frame(1), frame(2)];
    let resolved = layer_enable_states(&layer, Some(&records), &frames);
    assert_eq!(resolved.layer_id, 7);
    assert_eq!(resolved.frames.len(), 2);
    assert!(!resolved.frames[0].enabled);
    assert!(resolved.frames[1].enabled);
    assert_eq!(resolved.frames[1].record_index, Some(0));
    let hidden = layer_enable_states(&layer, None, &frames);
    assert_eq!(hidden.layer_id, 7);
    assert!(!hidden.frames[0].enabled && !hidden.frames[1].enabled);
}
