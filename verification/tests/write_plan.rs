use psd2ase_core::logical_layers::write_plan::{build_nodes, collect_track_indices, LayerWritePlan, PlannedNode};
use psd2ase_core::logical_layers::z_order::assign_z_indices;
use psd2ase_core::logical_layers::{GroupSegment, Observation};
use psd2ase_core::{
    AssociationDecision, AssociationDecisionStatus, AssociationExclusionKind, AssociationPhase, AssociationReport,
    LayerZOrderMode, LogicalLayerTrack, PlannedCel, StableOrderMode,
};

fn segment(id: u32, name: &str) -> GroupSegment {
    GroupSegment { id, name: name.to_string(), key: name.to_lowercase() }
}

fn group_names(nodes: &[PlannedNode]) -> Vec<String> {
    nodes
        .iter()
        .map(|node| match node {
            PlannedNode::Group { name, children, .. } => format!("{}[{}]", name, group_names(children).join(",")),
            PlannedNode::Track { track_id } => track_id.to_string(),
        })
        .collect()
}

#[test]
fn groups_with_one_key_are_merged_in_first_appearance_order() {
    let paths = vec![
        vec![segment(10, "Body")],
        vec![],
        vec![segment(11, "BODY")],
        vec![segment(12, "Face"), segment(13, "Eyes")],
    ];
    let nodes = build_nodes(&paths, &vec![0, 1, 2, 3]);
    assert_eq!(group_names(&nodes), vec!["Body[0,2]", "1", "Face[Eyes[3]]"]);
    match &nodes[0] {
        PlannedNode::Group { source_layer_id, .. } => assert_eq!(*source_layer_id, Some(10)),
        PlannedNode::Track { .. } => panic!("expected a group"),
    }
}

#[test]
fn every_track_is_placed_once() {
    let paths = vec![vec![segment(1, "A")], vec![segment(2, "B")], vec![segment(1, "A")]];
    let nodes = build_nodes(&paths, &vec![2, 1, 0]);
    assert_eq!(group_names(&nodes), vec!["A[2,0]", "B[1]"]);
}

#[test]
fn tree_order_numbers_a_group_before_its_children() {
    let nodes = vec![
        PlannedNode::Track { track_id: 4 },
        PlannedNode::Group {
            name: "G".to_string(),
            source_layer_id: Some(9),
            children: vec![PlannedNode::Track { track_id: 1 }, PlannedNode::Track { track_id: 2 }],
        },
        PlannedNode::Track { track_id: 0 },
    ];
    let mut next = 0;
    let mut output = Vec::new();
    collect_track_indices(&nodes, &mut next, &mut output);
    assert_eq!(next, 5);
    assert_eq!(output, vec![(4, 0), (1, 2), (2, 3), (0, 4)]);
}

fn observation(frame_index: usize, source_layer_id: u32, source_order: usize) -> Observation {
    Observation {
        frame_index,
        source_layer_id,
        source_path: format!("0/{source_order}"),
        name: format!("L{source_layer_id}"),
        normalized_name: format!("l{source_layer_id}"),
        name_key: format!("l{source_layer_id}"),
        generic_name: false,
        copy_suffixes: Vec::new(),
        suffix_limit_reached: false,
        frame_container_ids: Vec::new(),
        group_path: Vec::new(),
        source_order,
        x: 0,
        y: 0,
        width: 1,
        height: 1,
        pixels: vec![1, 2, 3, 255],
    }
}

fn decision(frame_index: u32, source_layer_id: u32, track_id: usize) -> AssociationDecision {
    AssociationDecision {
        frame_index,
        source_layer_id,
        source_path: String::new(),
        original_name: String::new(),
        normalized_name: String::new(),
        normalized_base_name: String::new(),
        family_key: String::new(),
        copy_suffixes: Vec::new(),
        suffix_limit_reached: false,
        name_evidence_weight: 30,
        association_phase: AssociationPhase::Residual,
        same_frame_instance_count: 1,
        matching_tie: false,
        rejection_reasons: Vec::new(),
        exclusion_evidence: AssociationExclusionKind::NoRelation,
        same_frame_conflict: false,
        order_evidence_ignored: false,
        track_id,
        status: AssociationDecisionStatus::Inferred,
        score: 90,
        margin: 10,
        evidence: Vec::new(),
        alternatives: Vec::new(),
    }
}

fn report(decisions: Vec<AssociationDecision>) -> AssociationReport {
    AssociationReport {
        observation_count: decisions.len(),
        track_count: 2,
        omitted_source_layer_ids: Vec::new(),
        z_order_mode: LayerZOrderMode::Auto,
        stable_order_mode: StableOrderMode::Consensus,
        name_catalog_version: 1,
        name_diagnostics: Vec::new(),
        family_diagnostics: Vec::new(),
        exclusion_diagnostics: Vec::new(),
        z_order_diagnostics: Vec::new(),
        stable_order_diagnostics: Vec::new(),
        decisions,
        warnings: Vec::new(),
    }
}

fn track(id: usize, source: u32) -> LogicalLayerTrack {
    LogicalLayerTrack {
        id,
        name: format!("T{id}"),
        representative_source_layer_id: source,
        group_path: Vec::new(),
        cels: vec![Some(PlannedCel { source_layer_id: source, source_frame_index: 0, z_index: 0 })],
    }
}

/// Frame 0 shows the layer of track 1 below the layer of track 0, against the plan order.
fn swapped_plan() -> (LayerWritePlan, Vec<Vec<Observation>>) {
    let plan = LayerWritePlan {
        root_nodes: vec![PlannedNode::Track { track_id: 0 }, PlannedNode::Track { track_id: 1 }],
        tracks: vec![track(0, 100), track(1, 200)],
        report: report(vec![decision(0, 100, 0), decision(0, 200, 1)]),
    };
    let frames = vec![vec![observation(0, 200, 0), observation(0, 100, 1)]];
    (plan, frames)
}

#[test]
fn auto_mode_moves_cels_that_break_the_stable_order() {
    let (mut plan, frames) = swapped_plan();
    let notes = assign_z_indices(&mut plan, &frames, LayerZOrderMode::Auto).unwrap();
    assert_eq!(
        notes,
        vec![
            "frame 0 track 1 has a potential source-order change requiring z-index -1".to_string(),
            "frame 0 track 0 has a potential source-order change requiring z-index 1".to_string(),
        ]
    );
    assert_eq!(plan.tracks[0].cels[0].unwrap().z_index, 1);
    assert_eq!(plan.tracks[1].cels[0].unwrap().z_index, -1);
}

#[test]
fn stable_mode_only_reports_order_changes() {
    let (mut plan, frames) = swapped_plan();
    let notes = assign_z_indices(&mut plan, &frames, LayerZOrderMode::Stable).unwrap();
    assert_eq!(notes.len(), 2);
    assert_eq!(plan.tracks[0].cels[0].unwrap().z_index, 0);
    assert_eq!(plan.tracks[1].cels[0].unwrap().z_index, 0);
}

#[test]
fn frames_in_stable_order_need_no_shift() {
    let (mut plan, _) = swapped_plan();
    let frames = vec![vec![observation(0, 100, 0), observation(0, 200, 1)]];
    let notes = assign_z_indices(&mut plan, &frames, LayerZOrderMode::Auto).unwrap();
    assert!(notes.is_empty());
}

#[test]
fn shifts_beyond_the_z_index_range_are_errors() {
    let mut root_nodes = vec![PlannedNode::Track { track_id: 0 }];
    for _ in 0..39_999 {
        root_nodes.push(PlannedNode::Track { track_id: 7 });
    }
    root_nodes.push(PlannedNode::Track { track_id: 1 });
    let mut plan = LayerWritePlan {
        root_nodes,
        tracks: vec![track(0, 100), track(1, 200)],
        report: report(vec![decision(0, 100, 0), decision(0, 200, 1)]),
    };
    let frames = vec![vec![observation(0, 200, 0), observation(0, 100, 1)]];
    let error = assign_z_indices(&mut plan, &frames, LayerZOrderMode::Auto).unwrap_err();
    assert_eq!(error, "logical track 1 frame 0 requires z-index -40000 outside i16 range");
}
