use psd2ase_core::aseprite_writer::{find_layer_location, layer_path};
use psd2ase_core::model::apply_animation_states;
use psd2ase_core::model::apply_static_states;
use psd2ase_core::model::copy_rgba8_pixels;
use psd2ase_core::model::normalized_bounds;
use psd2ase_core::text::normalize_enum_name;
use psd2ase_core::logical_layers::selectors::{active_frames, find_frame_selector_groups, has_visible_pixel};
use psd2ase_core::model::collect_pixel_layer_ids;
use psd2ase_core::{NormalizedBounds, NormalizedDocument, NormalizedLayer, NormalizedLayerKind};

fn bounds() -> NormalizedBounds {
    NormalizedBounds { left: 0, top: 0, right: 1, bottom: 1 }
}

fn pixel(id: u32, enabled: &[bool]) -> NormalizedLayer {
    NormalizedLayer {
        id,
        name: format!("Pixel {id}"),
        kind: NormalizedLayerKind::Pixel,
        bounds: bounds(),
        full_opacity: true,
        blend_mode: None,
        hidden: None,
        pixels: None,
        children: Vec::new(),
        frame_enabled: enabled.to_vec(),
        opacity: None,
        frame_offsets: Vec::new(),
        frame_opacity: Vec::new(),
    }
}

fn group(id: u32, enabled: &[bool], children: Vec<NormalizedLayer>) -> NormalizedLayer {
    NormalizedLayer {
        id,
        name: format!("Group {id}"),
        kind: NormalizedLayerKind::Group,
        bounds: bounds(),
        full_opacity: true,
        blend_mode: Some("pass through".to_string()),
        hidden: None,
        pixels: None,
        children,
        frame_enabled: enabled.to_vec(),
        opacity: None,
        frame_offsets: Vec::new(),
        frame_opacity: Vec::new(),
    }
}

fn document(root_layers: Vec<NormalizedLayer>) -> NormalizedDocument {
    NormalizedDocument {
        canvas: (1, 1),
        channels: Some(4),
        bits_per_channel: Some(8),
        color_mode: Some("rgb".to_string()),
        root_layers,
        frames: Vec::new(),
        loop_mode: None,
        active_frame_index: None,
        animation_resource_ids: Vec::new(),
        animation_frame_flags: None,
    }
}

/// A root group holding one frame-selector group per frame, and a background layer.
fn animated() -> Vec<NormalizedLayer> {
    vec![
        pixel(1, &[true, true]),
        group(
            10,
            &[true, true],
            vec![
                group(11, &[true, false], vec![pixel(12, &[true, true])]),
                group(13, &[false, true], vec![pixel(14, &[true, true])]),
            ],
        ),
    ]
}

#[test]
fn visibility_follows_ancestors() {
    let layers = animated();
    let mut visible = Vec::new();
    for layer in &layers {
        layer.collect_visible_pixel_layer_ids(1, true, &mut visible);
    }
    assert_eq!(visible, vec![1, 14]);
    assert!(!layers[1].children[0].is_effectively_visible(1, true));
    assert!(!layers[0].is_effectively_visible(5, true));
    assert!(!layers[0].is_effectively_visible(0, false));
}

#[test]
fn active_frames_of_groups() {
    let layers = animated();
    assert_eq!(active_frames(&layers[1].children[0], 2), vec![0]);
    assert_eq!(active_frames(&layers[1], 2), vec![0, 1]);
    assert!(has_visible_pixel(&layers[1], 1, true));
    assert!(!has_visible_pixel(&layers[1].children[1], 0, true));
}

#[test]
fn disjoint_sibling_groups_select_frames() {
    let selectors = find_frame_selector_groups(&animated(), 2);
    assert_eq!(selectors.len(), 2);
    assert_eq!(selectors[0].id, 11);
    assert_eq!(selectors[0].parent_id, Some(10));
    assert_eq!(selectors[0].active_frames, vec![0]);
    assert_eq!(selectors[1].id, 13);
    assert_eq!(selectors[1].active_frames, vec![1]);
}

#[test]
fn overlapping_sibling_groups_are_not_selectors() {
    let layers = vec![
        group(11, &[true, true], vec![pixel(12, &[true, true])]),
        group(13, &[false, true], vec![pixel(14, &[true, true])]),
    ];
    assert!(find_frame_selector_groups(&layers, 2).is_empty());
}

#[test]
fn pixel_ids_and_lookup_in_tree_order() {
    let doc = document(animated());
    let mut ids = Vec::new();
    collect_pixel_layer_ids(&doc.root_layers, &mut ids);
    assert_eq!(ids, vec![1, 12, 14]);
    assert_eq!(doc.find_layer(13).map(|layer| layer.name.clone()), Some("Group 13".to_string()));
    assert!(doc.find_layer(99).is_none());
}

#[test]
fn enum_names_read_as_words() {
    assert_eq!(normalize_enum_name("IndexedColor"), "indexed color");
    assert_eq!(normalize_enum_name("GRAY_SCALE"), "g r a y  s c a l e");
    assert_eq!(normalize_enum_name("Rgb"), "rgb");
    assert_eq!(normalize_enum_name(""), "");
}

#[test]
fn layer_locations_carry_slash_paths() {
    let doc = document(animated());
    let location = find_layer_location(&doc, 14);
    assert_eq!(location.layer_id, Some(14));
    assert_eq!(location.path, "Group 10/Group 13/Pixel 14");
    assert_eq!(find_layer_location(&doc, 77).path, "<unknown:77>");
    let mut unnamed = pixel(5, &[true]);
    unnamed.name = String::new();
    assert_eq!(layer_path(Some(""), &unnamed), "<unnamed>");
    assert_eq!(layer_path(Some("A"), &unnamed), "A/<unnamed>");
    assert_eq!(layer_path(None, &pixel(6, &[true])), "Pixel 6");
}

#[test]
fn bounds_may_not_be_inverted() {
    let bounds = normalized_bounds(1, 2, 3, 4, "0").unwrap();
    assert_eq!(bounds, NormalizedBounds { left: 1, top: 2, right: 3, bottom: 4 });
    match normalized_bounds(5, 0, 4, 1, "0/1") {
        Err(psd2ase_core::InspectionError::Normalization(message)) => assert_eq!(message, "layer 0/1 bounds are inverted"),
        other => panic!("unexpected {other:?}"),
    }
}

#[test]
fn pixel_buffers_hold_four_bytes_per_pixel() {
    let bounds = NormalizedBounds { left: 3, top: 4, right: 5, bottom: 5 };
    let pixels = copy_rgba8_pixels(2, 1, &vec![1, 2, 3, 4, 5, 6, 7, 8], bounds, "0").unwrap();
    assert_eq!((pixels.width, pixels.height, pixels.left, pixels.top), (2, 1, 3, 4));
    assert_eq!(pixels.data, vec![1, 2, 3, 4, 5, 6, 7, 8]);
    match copy_rgba8_pixels(2, 2, &vec![0; 8], bounds, "0/2") {
        Err(psd2ase_core::InspectionError::Normalization(message)) => {
            assert_eq!(message, "pixel buffer length mismatch at 0/2: expected 16, got 8")
        }
        other => panic!("unexpected {other:?}"),
    }
    match copy_rgba8_pixels(u32::MAX, u32::MAX, &Vec::new(), bounds, "1") {
        Err(psd2ase_core::InspectionError::Normalization(message)) => {
            assert_eq!(message, "pixel dimensions overflow RGBA8 size at 1")
        }
        other => panic!("unexpected {other:?}"),
    }
}

#[test]
fn static_documents_show_every_unhidden_layer() {
    let mut layers = animated();
    layers[0].hidden = Some(true);
    apply_static_states(&mut layers);
    assert_eq!(layers[0].frame_enabled, vec![false]);
    assert_eq!(layers[1].frame_enabled, vec![true]);
    assert_eq!(layers[1].children[1].children[0].frame_enabled, vec![true]);
}

#[test]
fn animation_states_set_every_layer() {
    let mut layers = vec![group(10, &[], vec![pixel(12, &[])])];
    let states = vec![(12, vec![false, true]), (10, vec![true, true])];
    apply_animation_states(&mut layers, &states, 2).unwrap();
    assert_eq!(layers[0].frame_enabled, vec![true, true]);
    assert_eq!(layers[0].children[0].frame_enabled, vec![false, true]);
    let mut missing = vec![pixel(7, &[])];
    match apply_animation_states(&mut missing, &states, 2) {
        Err(psd2ase_core::InspectionError::Normalization(message)) => {
            assert_eq!(message, "animation state missing for normalized layer 7")
        }
        other => panic!("unexpected {other:?}"),
    }
    let mut short = vec![pixel(12, &[])];
    match apply_animation_states(&mut short, &states, 3) {
        Err(psd2ase_core::InspectionError::Normalization(message)) => {
            assert_eq!(message, "animation state length mismatch for layer 12: expected 3, got 2")
        }
        other => panic!("unexpected {other:?}"),
    }
}

#[test]
fn pixel_data_is_owned_and_keeps_origin() {
    let source: Vec<u8> = vec![1, 2, 3, 4];
    let normalized = copy_rgba8_pixels(1, 1, &source, NormalizedBounds { left: -4, top: 7, right: -3, bottom: 8 }, "test")
        .expect("valid RGBA8 data");
    assert_eq!(normalized.data, vec![1, 2, 3, 4]);
    assert_eq!((normalized.left, normalized.top), (-4, 7));
}

#[test]
fn malformed_pixel_length_is_rejected() {
    let source: Vec<u8> = vec![1, 2, 3];
    let error = copy_rgba8_pixels(1, 1, &source, NormalizedBounds { left: 0, top: 0, right: 1, bottom: 1 }, "test")
        .expect_err("short pixel data must fail");
    match error {
        psd2ase_core::InspectionError::Normalization(message) => assert!(message.contains("pixel buffer length mismatch")),
        other => panic!("unexpected error {other:?}"),
    }
}
