use psd2ase_core::logical_layers::diagnostics::{
    collect_exclusion_diagnostics, collect_family_diagnostics, collect_name_diagnostics, format_copy_suffixes,
};
use psd2ase_core::logical_layers::group_paths::{choose_group_paths, flatten_redundant_common_root};
use psd2ase_core::logical_layers::{FrameContainerInfo, GroupSegment, TrackBuilder};
use psd2ase_core::{
    AssociationDecision, AssociationDecisionStatus, AssociationExclusionKind, AssociationPhase, NormalizedBounds,
    NormalizedDocument, NormalizedFrame, NormalizedLayer, NormalizedLayerKind,
};

fn layer(id: u32, kind: NormalizedLayerKind, blend_mode: Option<&str>, full_opacity: bool, children: Vec<NormalizedLayer>) -> NormalizedLayer {
    NormalizedLayer {
        id,
        name: format!("L{id}"),
        kind,
        bounds: NormalizedBounds { left: 0, top: 0, right: 1, bottom: 1 },
        full_opacity,
        blend_mode: blend_mode.map(str::to_string),
        hidden: None,
        pixels: None,
        children,
        frame_enabled: vec![true; 3],
        opacity: None,
        frame_offsets: Vec::new(),
        frame_opacity: Vec::new(),
    }
}

fn document(root_layers: Vec<NormalizedLayer>, frames: u32) -> NormalizedDocument {
    NormalizedDocument {
        canvas: (1, 1),
        channels: None,
        bits_per_channel: None,
        color_mode: None,
        root_layers,
        frames: (0..frames)
            .map(|index| NormalizedFrame { index, source_id: None, duration_ms: None, dispose: None })
            .collect(),
        loop_mode: None,
        active_frame_index: None,
        animation_resource_ids: Vec::new(),
        animation_frame_flags: None,
    }
}

fn segment(id: u32, key: &str) -> GroupSegment {
    GroupSegment { id, name: key.to_uppercase(), key: key.to_string() }
}

fn track(id: usize, group_paths: Vec<Vec<GroupSegment>>) -> TrackBuilder {
    TrackBuilder {
        id,
        name: format!("T{id}"),
        normalized_name: format!("t{id}"),
        name_key: format!("t{id}"),
        generic_name: false,
        copy_suffixes: Vec::new(),
        representative_source_layer_id: 1,
        cels: Vec::new(),
        observations: Vec::new(),
        group_paths,
    }
}

fn tree() -> Vec<NormalizedLayer> {
    vec![
        layer(10, NormalizedLayerKind::Group, Some("pass through"), true, vec![layer(1, NormalizedLayerKind::Pixel, None, true, Vec::new())]),
        layer(20, NormalizedLayerKind::Group, Some("multiply"), true, Vec::new()),
        layer(30, NormalizedLayerKind::Group, None, true, Vec::new()),
    ]
}

#[test]
fn well_supported_transparent_parent_is_kept() {
    let doc = document(tree(), 3);
    let tracks = vec![track(0, vec![vec![segment(10, "body")]; 3])];
    let mut warnings = Vec::new();
    let paths = choose_group_paths(&tracks, &doc, &mut warnings);
    assert_eq!(paths, vec![vec![segment(10, "body")]]);
    assert!(warnings.is_empty());
}

#[test]
fn weakly_supported_parent_is_dropped() {
    let doc = document(tree(), 3);
    let tracks = vec![track(0, vec![vec![segment(10, "body")]])];
    let mut warnings = Vec::new();
    let paths = choose_group_paths(&tracks, &doc, &mut warnings);
    assert_eq!(paths, vec![Vec::<GroupSegment>::new()]);
    assert!(warnings.is_empty());
}

#[test]
fn equally_supported_parents_flatten_the_track() {
    let doc = document(tree(), 1);
    let tracks = vec![track(4, vec![vec![segment(10, "body")], vec![segment(30, "face")]])];
    let mut warnings = Vec::new();
    let paths = choose_group_paths(&tracks, &doc, &mut warnings);
    assert!(paths[0].is_empty());
    assert_eq!(warnings, vec!["track 4 was flattened because persistent parent groups have equal support".to_string()]);
}

#[test]
fn minority_parent_support_flattens_the_track() {
    let doc = document(tree(), 3);
    let mut paths = vec![vec![segment(10, "body")]; 3];
    paths.push(Vec::new());
    paths.push(Vec::new());
    let tracks = vec![track(2, paths)];
    let mut warnings = Vec::new();
    let chosen = choose_group_paths(&tracks, &doc, &mut warnings);
    assert!(chosen[0].is_empty());
    assert_eq!(warnings, vec!["track 2 was flattened because its persistent parent support is below 80%".to_string()]);
}

#[test]
fn blending_groups_are_removed_and_nesting_is_flattened() {
    let doc = document(tree(), 3);
    let path = vec![segment(20, "fx"), segment(10, "body"), segment(30, "face")];
    let tracks = vec![track(1, vec![path; 3])];
    let mut warnings = Vec::new();
    let chosen = choose_group_paths(&tracks, &doc, &mut warnings);
    assert_eq!(chosen, vec![vec![segment(10, "body")]]);
    assert_eq!(
        warnings,
        vec![
            "group 20 was flattened because its compositing attributes are not transparent".to_string(),
            "nested group path for track 1 was flattened to preserve cross-layer z-order".to_string(),
        ]
    );
}

#[test]
fn common_wrapper_of_pixel_layers_is_flattened() {
    let doc = document(tree(), 3);
    let tracks = vec![track(0, vec![vec![segment(10, "body")]])];
    let mut paths = vec![vec![segment(10, "body")]];
    let mut warnings = Vec::new();
    flatten_redundant_common_root(&mut paths, &tracks, &doc, &Vec::<FrameContainerInfo>::new(), &mut warnings);
    assert_eq!(paths, vec![Vec::<GroupSegment>::new()]);
    assert_eq!(warnings, vec!["common wrapper group BODY was flattened from the auto output".to_string()]);
}

#[test]
fn differing_roots_are_kept() {
    let doc = document(tree(), 3);
    let tracks = vec![track(0, Vec::new())];
    let mut paths = vec![vec![segment(10, "body")], vec![segment(30, "face")]];
    let mut warnings = Vec::new();
    flatten_redundant_common_root(&mut paths, &tracks, &doc, &Vec::new(), &mut warnings);
    assert_eq!(paths.len(), 2);
    assert!(warnings.is_empty());
}

fn decision(status: AssociationDecisionStatus, exclusion: AssociationExclusionKind, suffixes: &[&str]) -> AssociationDecision {
    AssociationDecision {
        frame_index: 2,
        source_layer_id: 15,
        source_path: "0/1".to_string(),
        original_name: "Arm copy".to_string(),
        normalized_name: "arm copy".to_string(),
        normalized_base_name: "arm".to_string(),
        family_key: "arm".to_string(),
        copy_suffixes: suffixes.iter().map(|s| s.to_string()).collect(),
        suffix_limit_reached: false,
        name_evidence_weight: 15,
        association_phase: AssociationPhase::Residual,
        same_frame_instance_count: 1,
        matching_tie: false,
        rejection_reasons: Vec::new(),
        exclusion_evidence: exclusion,
        same_frame_conflict: false,
        order_evidence_ignored: false,
        track_id: 3,
        status,
        score: 80,
        margin: 5,
        evidence: Vec::new(),
        alternatives: Vec::new(),
    }
}

#[test]
fn copy_suffixes_are_joined() {
    assert_eq!(format_copy_suffixes(&vec!["copy".to_string(), "copy 2".to_string()]), "copy + copy 2");
    assert_eq!(format_copy_suffixes(&Vec::new()), "");
}

#[test]
fn unresolved_names_are_listed() {
    let decisions = vec![
        decision(AssociationDecisionStatus::NewTrack, AssociationExclusionKind::NoRelation, &["copy"]),
        decision(AssociationDecisionStatus::Strong, AssociationExclusionKind::NoRelation, &[]),
        decision(AssociationDecisionStatus::Ambiguous, AssociationExclusionKind::NoRelation, &[]),
    ];
    assert_eq!(
        collect_name_diagnostics(&decisions),
        vec![
            "frame 2 source 15 name \"Arm copy\" family \"arm\" -> track 3 (recognized copy suffixes: copy)".to_string(),
            "frame 2 source 15 name \"Arm copy\" family \"arm\" -> track 3 (no recognized copy suffix)".to_string(),
        ]
    );
}

#[test]
fn exclusion_evidence_is_listed() {
    let mut ignored = decision(AssociationDecisionStatus::Strong, AssociationExclusionKind::NoRelation, &[]);
    ignored.order_evidence_ignored = true;
    let decisions = vec![
        decision(AssociationDecisionStatus::Strong, AssociationExclusionKind::NoRelation, &[]),
        decision(AssociationDecisionStatus::Inferred, AssociationExclusionKind::ObservedDisjoint, &[]),
        ignored,
    ];
    assert_eq!(
        collect_exclusion_diagnostics(&decisions),
        vec![
            "frame 2 source 15 name \"Arm copy\" -> track 3 exclusion=ObservedDisjoint, same_frame_conflict=false, order_ignored=false".to_string(),
            "frame 2 source 15 name \"Arm copy\" -> track 3 exclusion=None, same_frame_conflict=false, order_ignored=true".to_string(),
        ]
    );
}

#[test]
fn families_with_copies_are_summarized() {
    let mut plain = decision(AssociationDecisionStatus::Strong, AssociationExclusionKind::NoRelation, &[]);
    plain.original_name = "Arm".to_string();
    plain.track_id = 1;
    let mut leg = decision(AssociationDecisionStatus::Strong, AssociationExclusionKind::NoRelation, &[]);
    leg.family_key = "leg".to_string();
    let mut unnamed = decision(AssociationDecisionStatus::Strong, AssociationExclusionKind::NoRelation, &["copy"]);
    unnamed.family_key = String::new();
    let decisions = vec![
        leg,
        decision(AssociationDecisionStatus::Strong, AssociationExclusionKind::NoRelation, &["copy"]),
        plain,
        unnamed,
        decision(AssociationDecisionStatus::Ambiguous, AssociationExclusionKind::NoRelation, &["copy"]),
    ];
    assert_eq!(
        collect_family_diagnostics(&decisions),
        vec![
            "family \"arm\": 3 observations -> 2 tracks; variants=[\"Arm\", \"Arm copy\"]; mappings=[\"Arm copy->3\", \"Arm->1\"]; ambiguous=1".to_string(),
        ]
    );
}
