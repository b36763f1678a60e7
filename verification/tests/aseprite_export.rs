use aseprite::{AsepriteFile, CelKind};
use psd2ase_core::aseprite_encoder::{encode_with_plan, encode_with_plan_and_linked_cels, initialize_file};
use psd2ase_core::aseprite_export::{build_cel_layers, CelSample};
use psd2ase_core::aseprite_writer::WriterError;
use psd2ase_core::conversion::LinkedCelMode;
use psd2ase_core::information_loss::{InformationLossCode, InformationLossReport, LossDisposition};
use psd2ase_core::{
    AssociationReport, LayerWritePlan, LayerZOrderMode, LogicalLayerTrack, NormalizedBounds, NormalizedDocument, NormalizedFrame,
    NormalizedLayer, NormalizedLayerKind, NormalizedLoopMode, NormalizedPixels, PlannedCel, PlannedNode, StableOrderMode,
};

fn pixel_layer(id: u32, left: i32, top: i32, rgba: [u8; 4], frames: usize) -> NormalizedLayer {
    NormalizedLayer {
        id,
        name: format!("layer {id}"),
        kind: NormalizedLayerKind::Pixel,
        bounds: NormalizedBounds { left, top, right: left + 1, bottom: top + 1 },
        full_opacity: true,
        blend_mode: Some("normal".to_string()),
        hidden: Some(false),
        pixels: Some(NormalizedPixels { width: 1, height: 1, left, top, data: rgba.to_vec() }),
        children: Vec::new(),
        frame_enabled: vec![true; frames],
        opacity: None,
        frame_offsets: Vec::new(),
        frame_opacity: Vec::new(),
    }
}

fn document(root_layers: Vec<NormalizedLayer>, frames: u32) -> NormalizedDocument {
    NormalizedDocument {
        canvas: (16, 8),
        channels: None,
        bits_per_channel: None,
        color_mode: None,
        root_layers,
        frames: (0..frames)
            .map(|index| NormalizedFrame { index, source_id: None, duration_ms: None, dispose: None })
            .collect(),
        loop_mode: None,
        active_frame_index: None,
        animation_resource_ids: Vec::new(),
        animation_frame_flags: None,
    }
}

fn report() -> AssociationReport {
    AssociationReport {
        observation_count: 0,
        track_count: 1,
        omitted_source_layer_ids: Vec::new(),
        z_order_mode: LayerZOrderMode::Stable,
        stable_order_mode: StableOrderMode::Consensus,
        name_catalog_version: 1,
        name_diagnostics: Vec::new(),
        family_diagnostics: Vec::new(),
        exclusion_diagnostics: Vec::new(),
        z_order_diagnostics: Vec::new(),
        stable_order_diagnostics: Vec::new(),
        decisions: Vec::new(),
        warnings: Vec::new(),
    }
}

/// One track named "Hero" showing the given source layer in every listed frame.
fn plan(sources: Vec<Option<u32>>) -> LayerWritePlan {
    let cels = sources
        .iter()
        .enumerate()
        .map(|(frame, source)| {
            source.map(|id| PlannedCel { source_layer_id: id, source_frame_index: frame as u32, z_index: 0 })
        })
        .collect();
    LayerWritePlan {
        root_nodes: vec![PlannedNode::Track { track_id: 0 }],
        tracks: vec![LogicalLayerTrack {
            id: 0,
            name: "Hero".to_string(),
            representative_source_layer_id: 1,
            group_path: Vec::new(),
            cels,
        }],
        report: report(),
    }
}

fn read_back(bytes: &[u8]) -> AsepriteFile {
    AsepriteFile::from_reader(bytes).expect("valid Aseprite bytes")
}

#[test]
fn planned_export_writes_timeline_layer_and_cels() {
    let doc = document(vec![pixel_layer(1, 3, 4, [9, 8, 7, 255], 2)], 2);
    let encoded = encode_with_plan(&doc, &plan(vec![Some(1), Some(1)])).expect("plan should encode");
    assert_eq!(encoded.cel_reuse.pixel_cel_count, 2);
    assert_eq!(encoded.cel_reuse.linked_cel_count, 0);
    assert!(encoded.warnings.is_empty());
    let file = read_back(&encoded.bytes);
    assert_eq!(file.width(), 16);
    assert_eq!(file.frames().len(), 2);
    assert_eq!(file.frames()[0].duration_ms, 100);
    assert_eq!(file.layers().len(), 1);
    assert_eq!(file.layers()[0].name, "Hero");
    let layer = file.layer_ref(0).expect("layer");
    for frame in 0..2 {
        let cel = file.cel(layer, frame).expect("pixel cel");
        match &cel.kind {
            CelKind::Raw { pixels, x, y } | CelKind::Compressed { pixels, x, y, .. } => {
                assert_eq!((*x, *y), (3, 4));
                assert_eq!(pixels.data, vec![9, 8, 7, 255]);
            }
            other => panic!("expected a pixel cel, got {other:?}"),
        }
    }
}

#[test]
fn planned_export_links_identical_cels_on_request() {
    let doc = document(vec![pixel_layer(1, 0, 0, [1, 2, 3, 255], 3)], 3);
    let encoded = encode_with_plan_and_linked_cels(&doc, &plan(vec![Some(1), None, Some(1)]), LinkedCelMode::Identical)
        .expect("plan should encode");
    assert_eq!(encoded.cel_reuse.pixel_cel_count, 1);
    assert_eq!(encoded.cel_reuse.linked_cel_count, 1);
    let file = read_back(&encoded.bytes);
    let layer = file.layer_ref(0).expect("layer");
    assert!(file.cel(layer, 1).is_none());
    assert!(matches!(file.cel(layer, 2).expect("linked cel").kind, CelKind::Linked { source_frame: 0, .. }));
}

#[test]
fn planned_export_applies_frame_offsets_and_opacity() {
    let mut layer = pixel_layer(1, 10, 20, [5, 5, 5, 255], 2);
    layer.frame_offsets = vec![None, Some((4, -3))];
    layer.frame_opacity = vec![None, Some(128)];
    let doc = document(vec![layer], 2);
    let encoded = encode_with_plan(&doc, &plan(vec![Some(1), Some(1)])).expect("plan should encode");
    let file = read_back(&encoded.bytes);
    let handle = file.layer_ref(0).expect("layer");
    let cel = file.cel(handle, 1).expect("pixel cel");
    assert_eq!(cel.opacity, 128);
    match &cel.kind {
        CelKind::Raw { x, y, .. } | CelKind::Compressed { x, y, .. } => assert_eq!((*x, *y), (14, 17)),
        other => panic!("expected a pixel cel, got {other:?}"),
    }
}

#[test]
fn planned_export_rejects_a_missing_source_layer() {
    let doc = document(vec![pixel_layer(1, 0, 0, [0, 0, 0, 255], 1)], 1);
    let mut bad = plan(vec![Some(7)]);
    bad.tracks[0].representative_source_layer_id = 1;
    let result = encode_with_plan(&doc, &bad);
    assert_eq!(
        result,
        Err(WriterError::InvalidPixels { layer_id: 7, message: "planned source layer was not found".to_string() })
    );
}

#[test]
fn planned_export_rejects_cel_outside_the_coordinate_range() {
    let doc = document(vec![pixel_layer(1, 40_000, 0, [0, 0, 0, 255], 1)], 1);
    let result = encode_with_plan(&doc, &plan(vec![Some(1)]));
    assert_eq!(result, Err(WriterError::FormatLimit { field: "cel x".to_string(), value: 40_000, max: 32_767 }));
}

#[test]
fn timeline_needs_frames_and_a_sixteen_bit_canvas() {
    let empty = document(Vec::new(), 0);
    assert_eq!(
        initialize_file(&empty).err(),
        Some(WriterError::Aseprite("normalized document has no frames".to_string()))
    );
    let mut wide = document(Vec::new(), 1);
    wide.canvas = (70_000, 1);
    assert_eq!(
        initialize_file(&wide).err(),
        Some(WriterError::FormatLimit { field: "canvas width".to_string(), value: 70_000, max: 65_535 })
    );
}

#[test]
fn looping_document_gets_a_forward_tag_over_every_frame() {
    let mut doc = document(vec![pixel_layer(1, 0, 0, [0, 0, 0, 255], 3)], 3);
    doc.loop_mode = Some(NormalizedLoopMode::Finite(2));
    let encoded = encode_with_plan(&doc, &plan(vec![Some(1), Some(1), Some(1)])).expect("plan should encode");
    let file = read_back(&encoded.bytes);
    assert_eq!(file.tags().len(), 1);
    assert_eq!(file.tags()[0].name, "PSD Animation");
    assert_eq!(file.tags()[0].from_frame, 0);
    assert_eq!(file.tags()[0].to_frame, 2);
    assert_eq!(file.tags()[0].repeat, 2);
}

fn sample(value: u8, x: i16, y: i16, opacity: u8, z_index: i16) -> CelSample {
    CelSample { pixels: vec![value, value, value, 255], width: 1, height: 1, x, y, opacity, z_index }
}

fn count(report: &InformationLossReport, code: InformationLossCode) -> usize {
    report.entries.iter().filter(|entry| entry.code == code && entry.disposition == LossDisposition::Degraded).map(|entry| entry.count).sum()
}

#[test]
fn one_cel_image_becomes_one_static_layer() {
    let mut report = InformationLossReport::new();
    let mut next_id = 5;
    let samples = vec![Some(sample(1, 2, 3, 255, 0)), None, Some(sample(1, 4, 3, 100, 0))];
    let layer = build_cel_layers(0, "Body".to_string(), 200, "multiply".to_string(), true, samples, &mut report, &mut next_id);
    assert_eq!(next_id, 6);
    assert_eq!(layer.id, 5);
    assert_eq!(layer.name, "Body");
    assert_eq!(layer.kind, NormalizedLayerKind::Pixel);
    assert_eq!(layer.bounds, NormalizedBounds { left: 2, top: 3, right: 3, bottom: 4 });
    assert_eq!(layer.opacity, Some(200));
    assert!(!layer.full_opacity);
    assert_eq!(layer.blend_mode.as_deref(), Some("multiply"));
    assert_eq!(layer.frame_enabled, vec![true, false, true]);
    assert_eq!(layer.frame_offsets, vec![Some((0, 0)), None, Some((2, 0))]);
    assert_eq!(layer.frame_opacity, vec![Some(255), None, Some(100)]);
    assert!(report.entries.is_empty());
}

#[test]
fn distinct_cel_images_become_a_group_of_variants() {
    let mut report = InformationLossReport::new();
    let mut next_id = 1;
    let samples = vec![Some(sample(1, 0, 0, 255, 0)), Some(sample(2, 0, 0, 255, 3)), Some(sample(1, 1, 1, 255, 0))];
    let layer = build_cel_layers(4, "Arm".to_string(), 255, "normal".to_string(), true, samples, &mut report, &mut next_id);
    assert_eq!(next_id, 4);
    assert_eq!(layer.id, 3);
    assert_eq!(layer.kind, NormalizedLayerKind::Group);
    assert_eq!(layer.frame_enabled, vec![true, true, true]);
    let names: Vec<&str> = layer.children.iter().map(|child| child.name.as_str()).collect();
    assert_eq!(names, vec!["Arm — Cel 1", "Arm — Cel 2"]);
    assert_eq!(layer.children[0].id, 1);
    assert_eq!(layer.children[0].frame_enabled, vec![true, false, true]);
    assert_eq!(layer.children[1].frame_enabled, vec![false, true, false]);
    assert_eq!(layer.children[1].opacity, Some(255));
    assert_eq!(count(&report, InformationLossCode::CelZIndex), 1);
    assert_eq!(report.entries[0].locations[0].layer_id, Some(5));
    assert_eq!(InformationLossCode::CelZIndex.as_str(), "cel_z_index");
}

#[test]
fn layer_without_cels_becomes_a_hidden_transparent_pixel() {
    let mut report = InformationLossReport::new();
    let mut next_id = 9;
    let layer = build_cel_layers(0, "Empty".to_string(), 255, "normal".to_string(), true, vec![None, None], &mut report, &mut next_id);
    assert_eq!(next_id, 10);
    assert_eq!(layer.frame_enabled, vec![false, false]);
    assert_eq!(layer.pixels.as_ref().map(|pixels| pixels.data.clone()), Some(vec![0, 0, 0, 0]));
    assert_eq!(count(&report, InformationLossCode::EmptyPixelLayer), 1);
    assert_eq!(InformationLossCode::EmptyPixelLayer.as_str(), "empty_pixel_layer");
}
