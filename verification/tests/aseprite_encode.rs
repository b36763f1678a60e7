use aseprite::{AsepriteFile, CelKind};
use psd2ase_core::aseprite_encoder::{encode, encode_with_linked_cels};
use psd2ase_core::aseprite_writer::{WriterError, DEFAULT_FRAME_DURATION_MS};
use psd2ase_core::conversion::{CelReuseTracker, LinkedCelMode};
use psd2ase_core::{NormalizedBounds, NormalizedDocument, NormalizedFrame, NormalizedLayer, NormalizedLayerKind, NormalizedPixels};

fn pixel_document(width: u32, height: u32, left: i32, top: i32) -> NormalizedDocument {
    NormalizedDocument {
        canvas: (width, height),
        channels: None,
        bits_per_channel: None,
        color_mode: None,
        frames: vec![NormalizedFrame { index: 0, source_id: None, duration_ms: None, dispose: None }],
        root_layers: vec![NormalizedLayer {
            id: 1,
            name: "pixel".to_string(),
            kind: NormalizedLayerKind::Pixel,
            bounds: NormalizedBounds { left, top, right: left + 1, bottom: top + 1 },
            full_opacity: true,
            blend_mode: Some("normal".to_string()),
            hidden: Some(false),
            pixels: Some(NormalizedPixels { width: 1, height: 1, left, top, data: vec![1, 2, 3, 4] }),
            children: Vec::new(),
            frame_enabled: vec![true],
            opacity: None,
            frame_offsets: Vec::new(),
            frame_opacity: Vec::new(),
        }],
        loop_mode: None,
        active_frame_index: None,
        animation_resource_ids: Vec::new(),
        animation_frame_flags: None,
    }
}

fn add_frame(document: &mut NormalizedDocument, index: u32, duration_ms: u32) {
    document.frames.push(NormalizedFrame { index, source_id: Some(index + 1), duration_ms: Some(duration_ms), dispose: None });
}

fn second_layer(document: &NormalizedDocument) -> NormalizedLayer {
    let first = &document.root_layers[0];
    NormalizedLayer {
        id: 2,
        name: "second".to_string(),
        kind: first.kind,
        bounds: first.bounds,
        full_opacity: first.full_opacity,
        blend_mode: first.blend_mode.clone(),
        hidden: first.hidden,
        pixels: first.pixels.clone(),
        children: Vec::new(),
        frame_enabled: first.frame_enabled.clone(),
        opacity: first.opacity,
        frame_offsets: first.frame_offsets.clone(),
        frame_opacity: first.frame_opacity.clone(),
    }
}

#[test]
fn encodes_static_frame_with_serialization_default() {
    let encoded = encode(&pixel_document(8, 8, -2, 3)).expect("valid normalized document");
    let file = AsepriteFile::from_reader(&encoded.bytes[..]).expect("valid Aseprite bytes");
    assert_eq!(file.frames()[0].duration_ms, DEFAULT_FRAME_DURATION_MS);
    let layer = file.layer_ref(0).expect("pixel layer");
    let cel = file.cel(layer, 0).expect("visible pixel cel");
    match &cel.kind {
        CelKind::Raw { x, y, pixels } => {
            assert_eq!((*x, *y), (-2, 3));
            assert_eq!(pixels.data, vec![1, 2, 3, 4]);
        }
        _ => panic!("expected compressed pixel cel"),
    }
}

#[test]
fn rejects_coordinates_outside_aseprite_cel_range() {
    let error = encode(&pixel_document(8, 8, i32::from(i16::MAX) + 1, 0)).expect_err("out-of-range cel coordinate must fail");
    assert!(matches!(error, WriterError::FormatLimit { .. }));
}

#[test]
fn rejects_non_contiguous_normalized_frame_indices() {
    let mut document = pixel_document(8, 8, 0, 0);
    document.frames[0].index = 1;
    let error = encode(&document).expect_err("frame indices must be contiguous");
    assert!(matches!(error, WriterError::InvalidFrameIndex { .. }));
}

#[test]
fn does_not_reuse_cels_between_frames() {
    let mut document = pixel_document(8, 8, 0, 0);
    add_frame(&mut document, 1, 100);
    document.frames[0].source_id = Some(1);
    document.root_layers[0].frame_enabled.push(false);
    let mut second = second_layer(&document);
    second.frame_enabled = vec![false, true];
    document.root_layers.push(second);

    let encoded = encode(&document).expect("valid normalized document");
    let file = AsepriteFile::from_reader(&encoded.bytes[..]).expect("valid Aseprite bytes");
    let first = file.layer_ref(0).expect("first pixel layer");
    let second = file.layer_ref(1).expect("second pixel layer");
    assert!(file.cel(first, 0).is_some());
    assert!(file.cel(first, 1).is_none());
    assert!(file.cel(second, 0).is_none());
    assert!(file.cel(second, 1).is_some());
}

#[test]
fn links_identical_pixels_on_one_layer_and_reports_reuse() {
    let mut document = pixel_document(8, 8, 0, 0);
    add_frame(&mut document, 1, 120);
    add_frame(&mut document, 2, 120);
    document.root_layers[0].frame_enabled = vec![true, true, true];

    let encoded = encode_with_linked_cels(&document, LinkedCelMode::Identical).expect("identical pixels should encode");
    assert_eq!(encoded.cel_reuse.pixel_cel_count, 1);
    assert_eq!(encoded.cel_reuse.linked_cel_count, 2);
    let file = AsepriteFile::from_reader(&encoded.bytes[..]).expect("valid Aseprite bytes");
    let layer = file.layer_ref(0).expect("pixel layer");
    assert!(matches!(&file.cel(layer, 0).unwrap().kind, CelKind::Raw { .. }));
    assert!(matches!(&file.cel(layer, 1).unwrap().kind, CelKind::Linked { source_frame: 0, .. }));
    assert!(matches!(&file.cel(layer, 2).unwrap().kind, CelKind::Linked { source_frame: 0, .. }));
    assert_eq!(&file.resolve_cel(layer, 1).unwrap().kind, &file.cel(layer, 0).unwrap().kind);
}

#[test]
fn linked_cel_keeps_frame_specific_attributes() {
    let mut document = pixel_document(8, 8, 0, 0);
    add_frame(&mut document, 1, 120);
    document.root_layers[0].frame_enabled = vec![true, true];
    document.root_layers[0].frame_offsets = vec![None, Some((4, 3))];
    document.root_layers[0].frame_opacity = vec![None, Some(128)];

    let encoded = encode_with_linked_cels(&document, LinkedCelMode::Identical).expect("identical pixels should encode");
    let file = AsepriteFile::from_reader(&encoded.bytes[..]).expect("valid Aseprite bytes");
    let layer = file.layer_ref(0).expect("pixel layer");
    let cel = file.cel(layer, 1).expect("linked cel");
    assert_eq!(cel.opacity, 128);
    assert!(matches!(&cel.kind, CelKind::Linked { x: 4, y: 3, .. }));
}

#[test]
fn off_mode_keeps_identical_pixels_independent() {
    let mut document = pixel_document(8, 8, 0, 0);
    add_frame(&mut document, 1, 120);
    document.root_layers[0].frame_enabled = vec![true, true];

    let encoded = encode(&document).expect("default mode should encode");
    assert_eq!(encoded.cel_reuse.pixel_cel_count, 2);
    assert_eq!(encoded.cel_reuse.linked_cel_count, 0);
}

#[test]
fn different_pixels_are_not_linked() {
    let mut reuse = CelReuseTracker::new(LinkedCelMode::Identical);
    let first = vec![1, 2, 3, 4];
    let second = vec![9, 2, 3, 4];
    assert_eq!(reuse.emit_cel(0, 1, 1, &first, first.clone()), None);
    assert_eq!(reuse.emit_cel(1, 1, 1, &second, second.clone()), None);
    assert_eq!(reuse.report.pixel_cel_count, 2);
    assert_eq!(reuse.report.linked_cel_count, 0);
}

#[test]
fn applies_frame_offset_to_cel_origin() {
    let mut document = pixel_document(8, 8, 14, 51);
    document.root_layers[0].frame_offsets = vec![Some((6, 2))];
    let encoded = encode(&document).expect("valid normalized document");
    let file = AsepriteFile::from_reader(&encoded.bytes[..]).expect("valid Aseprite bytes");
    let layer = file.layer_ref(0).expect("pixel layer");
    let cel = file.cel(layer, 0).expect("visible pixel cel");
    match &cel.kind {
        CelKind::Raw { x, y, .. } => assert_eq!((*x, *y), (20, 53)),
        _ => panic!("expected raw pixel cel"),
    }
}

#[test]
fn reports_unknown_blend_mode_instead_of_silently_accepting_it() {
    let mut document = pixel_document(8, 8, 0, 0);
    document.root_layers[0].blend_mode = Some("pass through".to_string());
    let encoded = encode(&document).expect("unknown blend mode has a safe fallback");
    assert!(encoded.warnings.iter().any(|warning| warning.contains("mapped to normal")));
}

#[test]
fn hidden_pixel_layer_writes_no_cel_and_a_missing_state_is_an_error() {
    let mut document = pixel_document(8, 8, 0, 0);
    document.root_layers[0].frame_enabled = vec![false];
    let encoded = encode(&document).expect("hidden layer should encode");
    assert_eq!(encoded.cel_reuse.pixel_cel_count, 0);
    let file = AsepriteFile::from_reader(&encoded.bytes[..]).expect("valid Aseprite bytes");
    assert!(!file.layers()[0].visible);

    let mut missing = pixel_document(8, 8, 0, 0);
    add_frame(&mut missing, 1, 100);
    missing.root_layers[0].frame_enabled = vec![true, true];
    let mut twin = second_layer(&missing);
    twin.id = 1;
    twin.frame_enabled = vec![true];
    missing.root_layers.push(twin);
    assert_eq!(
        encode(&missing).err(),
        Some(WriterError::InvalidPixels { layer_id: 1, message: "missing frame state 1".to_string() })
    );
}
