use psd2ase_core::logical_layers::planner::{build_layer_write_plan, build_layer_write_plan_with_order_modes, sort_decisions};
use psd2ase_core::logical_layers::Observation;
use psd2ase_core::{
    AssociationDecision, AssociationDecisionStatus, AssociationExclusionKind, AssociationPhase, LayerZOrderMode,
    NormalizedBounds, NormalizedDocument, NormalizedFrame, NormalizedLayer, NormalizedLayerKind, PlannedNode,
    StableOrderMode,
};

fn pixel(id: u32, name: &str, shown: bool) -> NormalizedLayer {
    NormalizedLayer {
        id,
        name: name.to_string(),
        kind: NormalizedLayerKind::Pixel,
        bounds: NormalizedBounds { left: 0, top: 0, right: 1, bottom: 1 },
        full_opacity: true,
        blend_mode: None,
        hidden: None,
        pixels: None,
        children: Vec::new(),
        frame_enabled: vec![shown, shown],
        opacity: None,
        frame_offsets: Vec::new(),
        frame_opacity: Vec::new(),
    }
}

fn document(hero_shown: bool, sky_shown: bool) -> NormalizedDocument {
    NormalizedDocument {
        canvas: (1, 1),
        channels: Some(4),
        bits_per_channel: Some(8),
        color_mode: Some("rgb".to_string()),
        root_layers: vec![pixel(1, "Hero", hero_shown), pixel(2, "Sky", sky_shown)],
        frames: (0..2)
            .map(|index| NormalizedFrame { index, source_id: Some(index + 10), duration_ms: Some(100), dispose: None })
            .collect(),
        loop_mode: None,
        active_frame_index: None,
        animation_resource_ids: Vec::new(),
        animation_frame_flags: None,
    }
}

fn observation(frame_index: usize, source_layer_id: u32, name: &str, source_order: usize) -> Observation {
    Observation {
        frame_index,
        source_layer_id,
        source_path: format!("{source_order}"),
        name: name.to_string(),
        normalized_name: name.to_lowercase(),
        name_key: name.to_lowercase(),
        generic_name: false,
        copy_suffixes: Vec::new(),
        suffix_limit_reached: false,
        frame_container_ids: Vec::new(),
        group_path: Vec::new(),
        source_order,
        x: 0,
        y: 0,
        width: 1,
        height: 1,
        pixels: vec![9, 9, 9, 255],
    }
}

#[test]
fn one_named_layer_becomes_one_track() {
    let frames = vec![vec![observation(0, 1, "Hero", 4)], vec![observation(1, 1, "Hero", 7)]];
    let plan = build_layer_write_plan(&document(true, false), frames, 3).unwrap();
    assert_eq!(plan.tracks.len(), 1);
    assert_eq!(plan.tracks[0].name, "Hero");
    assert_eq!(plan.tracks[0].cels[0].map(|cel| cel.source_layer_id), Some(1));
    assert_eq!(plan.tracks[0].cels[1].map(|cel| cel.source_frame_index), Some(1));
    assert_eq!(plan.root_nodes, vec![PlannedNode::Track { track_id: 0 }]);
    assert_eq!(plan.report.observation_count, 2);
    assert_eq!(plan.report.track_count, 1);
    assert_eq!(plan.report.name_catalog_version, 3);
    assert_eq!(plan.report.omitted_source_layer_ids, vec![2]);
    assert_eq!(
        plan.report.warnings[0],
        "1 source pixel layers were never effectively visible and were omitted from auto association"
    );
    assert_eq!(plan.report.decisions.len(), 2);
    assert_eq!(plan.report.decisions[0].frame_index, 0);
    assert_eq!(plan.report.decisions[1].frame_index, 1);
    assert!(plan.report.z_order_diagnostics.is_empty());
}

#[test]
fn a_document_without_visible_layers_is_refused() {
    let error = build_layer_write_plan(&document(false, false), vec![Vec::new(), Vec::new()], 1).unwrap_err();
    assert_eq!(error, "automatic layer association found no effective visible pixel layers");
}

#[test]
fn auto_z_order_keeps_every_observation_placed() {
    let frames = vec![
        vec![observation(0, 1, "Hero", 0), observation(0, 2, "Sky", 1)],
        vec![observation(1, 2, "Sky", 0), observation(1, 1, "Hero", 1)],
    ];
    let plan =
        build_layer_write_plan_with_order_modes(&document(true, true), frames, 1, LayerZOrderMode::Auto, StableOrderMode::Anchor)
            .unwrap();
    assert_eq!(plan.tracks.len(), 2);
    for frame in 0..2 {
        let mut ids: Vec<u32> = plan.tracks.iter().filter_map(|track| track.cels[frame].map(|cel| cel.source_layer_id)).collect();
        ids.sort();
        assert_eq!(ids, vec![1, 2]);
    }
    assert!(plan.report.omitted_source_layer_ids.is_empty());
    assert_eq!(plan.report.z_order_diagnostics.len(), 2);
}

fn decision(frame_index: u32, source_path: &str, source_layer_id: u32) -> AssociationDecision {
    AssociationDecision {
        frame_index,
        source_layer_id,
        source_path: source_path.to_string(),
        original_name: String::new(),
        normalized_name: String::new(),
        normalized_base_name: String::new(),
        family_key: String::new(),
        copy_suffixes: Vec::new(),
        suffix_limit_reached: false,
        name_evidence_weight: 0,
        association_phase: AssociationPhase::Residual,
        same_frame_instance_count: 1,
        matching_tie: false,
        rejection_reasons: Vec::new(),
        exclusion_evidence: AssociationExclusionKind::NoRelation,
        same_frame_conflict: false,
        order_evidence_ignored: false,
        track_id: 0,
        status: AssociationDecisionStatus::Strong,
        score: 100,
        margin: 100,
        evidence: Vec::new(),
        alternatives: Vec::new(),
    }
}

#[test]
fn decisions_sort_by_frame_path_and_layer() {
    let sorted = sort_decisions(vec![
        decision(1, "0", 5),
        decision(0, "1/0", 3),
        decision(0, "1", 9),
        decision(0, "1", 2),
    ]);
    let keys: Vec<(u32, String, u32)> =
        sorted.iter().map(|d| (d.frame_index, d.source_path.clone(), d.source_layer_id)).collect();
    assert_eq!(
        keys,
        vec![(0, "1".to_string(), 2), (0, "1".to_string(), 9), (0, "1/0".to_string(), 3), (1, "0".to_string(), 5)]
    );
}

#[test]
fn every_decision_names_the_cel_it_placed() {
    let frames = vec![
        vec![observation(0, 1, "Hero", 0), observation(0, 2, "Sky", 1)],
        vec![observation(1, 2, "Sky", 0), observation(1, 1, "Hero", 1)],
    ];
    let plan = build_layer_write_plan(&document(true, true), frames, 1).unwrap();
    assert_eq!(plan.report.decisions.len(), 4);
    for decision in &plan.report.decisions {
        let cel = plan.tracks[decision.track_id].cels[decision.frame_index as usize].unwrap();
        assert_eq!(cel.source_layer_id, decision.source_layer_id);
        assert_eq!(cel.source_frame_index, decision.frame_index);
        assert!(decision.margin <= decision.score && decision.score <= 100);
    }
    for frame in 0..2u32 {
        for id in [1u32, 2] {
            assert!(plan
                .report
                .decisions
                .iter()
                .any(|decision| decision.frame_index == frame && decision.source_layer_id == id));
        }
    }
}

#[test]
fn same_frame_copies_count_their_instances() {
    let mut copy = observation(0, 2, "Hero copy", 1);
    copy.name_key = "hero".to_string();
    let mut later = observation(1, 2, "Hero copy", 1);
    later.name_key = "hero".to_string();
    let frames = vec![vec![observation(0, 1, "Hero", 0), copy], vec![observation(1, 1, "Hero", 0), later]];
    let plan = build_layer_write_plan(&document(true, true), frames, 1).unwrap();
    assert_eq!(plan.tracks.len(), 2);
    assert_eq!(plan.report.decisions.len(), 4);
    for decision in &plan.report.decisions {
        assert_eq!(decision.same_frame_instance_count, 2);
        assert!(decision.track_id < plan.tracks.len());
    }
}

fn family_layer(id: u32, name: &str, frame: usize) -> NormalizedLayer {
    let mut layer = pixel(id, name, false);
    layer.frame_enabled = (0..3).map(|index| index == frame).collect();
    layer
}

fn family_observation(frame: usize, id: u32, name: &str, suffix: Option<&str>) -> Observation {
    let mut made = observation(frame, id, name, 0);
    made.normalized_name = name.to_string();
    made.name_key = "前翅膀".to_string();
    made.copy_suffixes = suffix.map(|text| vec![text.to_string()]).unwrap_or_default();
    made.pixels = vec![1, 2, 3, 255];
    made
}

#[test]
fn copy_variants_across_frames_join_one_track() {
    let mut doc = document(true, true);
    doc.root_layers = vec![
        family_layer(1, "前翅膀", 0),
        family_layer(2, "前翅膀 拷贝 2", 1),
        family_layer(3, "前翅膀 拷贝 5", 2),
    ];
    doc.frames = (0..3)
        .map(|index| NormalizedFrame { index, source_id: Some(index + 10), duration_ms: Some(100), dispose: None })
        .collect();
    let frames = vec![
        vec![family_observation(0, 1, "前翅膀", None)],
        vec![family_observation(1, 2, "前翅膀 拷贝 2", Some("拷贝 2"))],
        vec![family_observation(2, 3, "前翅膀 拷贝 5", Some("拷贝 5"))],
    ];
    let plan = build_layer_write_plan(&doc, frames, 1).unwrap();
    assert_eq!(plan.tracks.len(), 1);
    let ids: Vec<u32> = plan.tracks[0].cels.iter().map(|cel| cel.expect("family cel").source_layer_id).collect();
    assert_eq!(ids, vec![1, 2, 3]);
    assert!(plan
        .report
        .family_diagnostics
        .iter()
        .any(|diagnostic| diagnostic.contains("前翅膀") && diagnostic.contains("3 observations")));
}

fn reordered_frames() -> Vec<Vec<Observation>> {
    vec![
        vec![observation(0, 1, "Hero", 0), observation(0, 2, "Sky", 1)],
        vec![observation(1, 2, "Sky", 0), observation(1, 1, "Hero", 1)],
    ]
}

#[test]
fn reordered_overlapping_layers_get_per_frame_z_indices() {
    let plan = build_layer_write_plan_with_order_modes(
        &document(true, true),
        reordered_frames(),
        1,
        LayerZOrderMode::Auto,
        StableOrderMode::Consensus,
    )
    .unwrap();
    assert_eq!(plan.tracks.len(), 2);
    for track in &plan.tracks {
        assert_ne!(track.cels[1].expect("cel in the second frame").z_index, 0);
    }
}

#[test]
fn strict_stable_order_refuses_an_order_tie() {
    let error = build_layer_write_plan_with_order_modes(
        &document(true, true),
        reordered_frames(),
        1,
        LayerZOrderMode::Stable,
        StableOrderMode::Strict,
    )
    .unwrap_err();
    assert!(error.contains("stable order unresolved"));
}

fn frame_container(id: u32, name: &str, frame: usize, child: NormalizedLayer) -> NormalizedLayer {
    let mut group = pixel(id, name, false);
    group.kind = NormalizedLayerKind::Group;
    group.frame_enabled = (0..2).map(|index| index == frame).collect();
    group.children = vec![child];
    group
}

#[test]
fn exclusive_frame_containers_join_copy_names_despite_a_move() {
    let mut doc = document(true, true);
    doc.root_layers = vec![
        frame_container(10, "frame 1", 0, pixel(1, "后衣摆", true)),
        frame_container(11, "frame 2", 1, pixel(2, "后衣摆 拷贝", true)),
    ];
    let mut first = observation(0, 1, "后衣摆", 0);
    first.name_key = "后衣摆".to_string();
    first.normalized_name = "后衣摆".to_string();
    first.frame_container_ids = vec![10];
    first.pixels = vec![1, 2, 3, 255];
    let mut second = observation(1, 2, "后衣摆 拷贝", 0);
    second.name_key = "后衣摆".to_string();
    second.normalized_name = "后衣摆 拷贝".to_string();
    second.copy_suffixes = vec!["拷贝".to_string()];
    second.frame_container_ids = vec![11];
    second.x = 100;
    second.pixels = vec![4, 5, 6, 255];
    let plan = build_layer_write_plan(&doc, vec![vec![first], vec![second]], 1).unwrap();
    assert_eq!(plan.tracks.len(), 1);
    assert_eq!(plan.tracks[0].cels[0].expect("frame 1 cel").source_layer_id, 1);
    assert_eq!(plan.tracks[0].cels[1].expect("frame 2 cel").source_layer_id, 2);
    let copy = plan.report.decisions.iter().find(|decision| decision.source_layer_id == 2).expect("copy decision");
    assert_eq!(copy.exclusion_evidence, AssociationExclusionKind::StructuralMutualExclusion);
    assert!(copy.order_evidence_ignored);
}
