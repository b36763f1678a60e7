use psd2ase_core::logical_layers::{
    alpha_overlap, decision, geometry_similarity, group_similarity, name_match_score,
    new_track, ratio_score, record_assignment, stable_id_order, stable_track_order,
    would_create_cycle, AssociationDecisionStatus, GroupSegment, Observation,
    ObservationSummary, PlannedCel, StableOrderMode, TrackBuilder,
};

fn overlapping_observation(
    frame_index: usize,
    source_layer_id: u32,
    name: &str,
    source_order: usize,
) -> Observation {
    Observation {
        frame_index,
        source_layer_id,
        source_path: source_layer_id.to_string(),
        name: name.to_string(),
        normalized_name: name.to_lowercase(),
        name_key: name.to_lowercase(),
        generic_name: false,
        copy_suffixes: Vec::new(),
        suffix_limit_reached: false,
        frame_container_ids: Vec::new(),
        group_path: Vec::new(),
        source_order,
        x: 0,
        y: 0,
        width: 1,
        height: 1,
        pixels: vec![1, 2, 3, 255],
    }
}

fn assign_by_name(frames: &[Vec<Observation>]) -> (Vec<TrackBuilder>, Vec<psd2ase_core::AssociationDecision>) {
    let mut tracks = vec![
        new_track(0, &frames[0][0], frames.len()),
        new_track(1, &frames[0][1], frames.len()),
    ];
    let mut decisions = Vec::new();
    for observations in frames {
        for observation in observations {
            let track_id = if observation.name == "A" { 0 } else { 1 };
            record_assignment(
                &mut tracks[track_id],
                observation,
                PlannedCel {
                    source_layer_id: observation.source_layer_id,
                    source_frame_index: observation.frame_index as u32,
                    z_index: 0,
                },
            );
            decisions.push(decision(
                observation,
                track_id,
                AssociationDecisionStatus::Strong,
                100,
                100,
                Vec::new(),
                Vec::new(),
            ));
        }
    }
    (tracks, decisions)
}

fn repeated_order_frames() -> Vec<Vec<Observation>> {
    vec![
        vec![
            overlapping_observation(0, 10, "A", 0),
            overlapping_observation(0, 11, "B", 1),
        ],
        vec![
            overlapping_observation(1, 20, "B", 0),
            overlapping_observation(1, 21, "A", 1),
        ],
        vec![
            overlapping_observation(2, 30, "B", 0),
            overlapping_observation(2, 31, "A", 1),
        ],
        vec![
            overlapping_observation(3, 40, "B", 0),
            overlapping_observation(3, 41, "A", 1),
        ],
    ]
}

#[test]
fn consensus_prefers_repeated_overlapping_order() {
    let frames = repeated_order_frames();
    let (tracks, decisions) = assign_by_name(&frames);
    let (order, diagnostics) = stable_track_order(
        &tracks,
        &frames,
        &decisions,
        &vec![0, 1],
        StableOrderMode::Consensus,
    )
    .expect("repeated order should be accepted");
    assert_eq!(order, vec![1, 0]);
    assert!(diagnostics.is_empty());
}

#[test]
fn logical_layers_consensus_prefers_repeated_overlapping_order() {
    let frames = vec![
        vec![
            overlapping_observation(0, 10, "A", 0),
            overlapping_observation(0, 11, "B", 1),
        ],
        vec![
            overlapping_observation(1, 20, "B", 0),
            overlapping_observation(1, 21, "A", 1),
        ],
        vec![
            overlapping_observation(2, 30, "B", 0),
            overlapping_observation(2, 31, "A", 1),
        ],
        vec![
            overlapping_observation(3, 40, "B", 0),
            overlapping_observation(3, 41, "A", 1),
        ],
    ];
    let (tracks, decisions) = assign_by_name(&frames);
    let (order, diagnostics) = stable_track_order(
        &tracks,
        &frames,
        &decisions,
        &vec![0, 1],
        StableOrderMode::Consensus,
    )
    .expect("repeated order should be accepted");
    assert_eq!(order, vec![1, 0]);
    assert!(diagnostics.is_empty());
}

#[test]
fn tied_support_keeps_anchor_order_or_fails_in_strict_mode() {
    let frames = vec![
        vec![
            overlapping_observation(0, 10, "A", 0),
            overlapping_observation(0, 11, "B", 1),
        ],
        vec![
            overlapping_observation(1, 20, "B", 0),
            overlapping_observation(1, 21, "A", 1),
        ],
    ];
    let (tracks, decisions) = assign_by_name(&frames);
    let (order, diagnostics) = stable_track_order(&tracks, &frames, &decisions, &vec![0, 1], StableOrderMode::Consensus)
        .expect("consensus mode keeps going");
    assert_eq!(order, vec![0, 1]);
    assert_eq!(diagnostics.len(), 1);
    assert!(diagnostics[0].contains("stable order unresolved"));
    let error = stable_track_order(&tracks, &frames, &decisions, &vec![0, 1], StableOrderMode::Strict)
        .expect_err("strict mode must reject a one-to-one order tie");
    assert!(error.contains("stable order unresolved"));
    let (anchor, notes) = stable_track_order(&tracks, &frames, &decisions, &vec![1, 0], StableOrderMode::Anchor)
        .expect("anchor mode");
    assert_eq!(anchor, vec![1, 0]);
    assert!(notes.is_empty());
}

#[test]
fn cycle_check_follows_paths() {
    let edges = vec![(0usize, 1usize), (1, 2), (3, 4)];
    assert!(would_create_cycle(&edges, 2, 0));
    assert!(would_create_cycle(&edges, 5, 5));
    assert!(!would_create_cycle(&edges, 0, 2));
    assert!(!would_create_cycle(&edges, 4, 0));
    assert!(would_create_cycle(&edges, 4, 3));
}

#[test]
fn stable_id_order_respects_edges_then_base_positions() {
    let base = vec![(0usize, 0i32), (1, 1), (2, 2), (3, 3)];
    assert_eq!(stable_id_order(&vec![0, 1, 2, 3], &vec![], &base), vec![0, 1, 2, 3]);
    assert_eq!(stable_id_order(&vec![0, 1, 2, 3], &vec![(2, 0)], &base), vec![1, 2, 0, 3]);
    assert_eq!(stable_id_order(&vec![3, 2], &vec![(0, 1)], &base), vec![2, 3]);
    assert_eq!(stable_id_order(&vec![0, 1], &vec![(0, 1), (1, 0)], &base), vec![0, 1]);
}

#[test]
fn ratios_round_to_the_nearest_tenth() {
    assert_eq!(ratio_score(0, 5), 0);
    assert_eq!(ratio_score(5, 5), 10);
    assert_eq!(ratio_score(1, 4), 3);
    assert_eq!(ratio_score(3, 4), 8);
    assert_eq!(ratio_score(1, 3), 3);
    assert_eq!(ratio_score(20, 1), 1);
    assert_eq!(ratio_score(1, 21), 0);
}

#[test]
fn geometry_and_group_scores() {
    let observation = overlapping_observation(0, 1, "A", 0);
    let same = ObservationSummary {
        frame_index: 1,
        source_order: 0,
        x: 0,
        y: 0,
        width: 1,
        height: 1,
        pixels: vec![1, 2, 3, 255],
        frame_container_ids: Vec::new(),
    };
    assert_eq!(geometry_similarity(&observation, &same), 20);
    let far = ObservationSummary { x: 40, y: -40, width: 2, ..same.clone() };
    assert_eq!(geometry_similarity(&observation, &far), 7);
    let segment = |key: &str| GroupSegment { id: 1, name: key.to_string(), key: key.to_string() };
    assert_eq!(group_similarity(&vec![], &vec![]), 20);
    assert_eq!(group_similarity(&vec![segment("a"), segment("b")], &vec![segment("a"), segment("b")]), 20);
    assert_eq!(group_similarity(&vec![segment("a"), segment("b")], &vec![segment("a")]), 12);
    assert_eq!(group_similarity(&vec![segment("a")], &vec![segment("c")]), 0);
}

#[test]
fn names_score_within_their_family() {
    let observation = overlapping_observation(0, 1, "Wing", 0);
    let track = new_track(0, &observation, 2);
    assert_eq!(name_match_score(&observation, &track), 30);
    let mut copy = overlapping_observation(1, 2, "Wing Copy", 1);
    copy.name_key = "wing".to_string();
    assert_eq!(name_match_score(&copy, &track), 15);
    copy.generic_name = true;
    assert_eq!(name_match_score(&copy, &track), 0);
}

#[test]
fn transparent_pixels_do_not_overlap() {
    let left = overlapping_observation(0, 1, "A", 0);
    let mut right = overlapping_observation(0, 2, "B", 1);
    assert!(alpha_overlap(&left, &right));
    right.pixels = vec![1, 2, 3, 0];
    assert!(!alpha_overlap(&left, &right));
    right.pixels = vec![1, 2, 3, 255];
    right.x = 1;
    assert!(!alpha_overlap(&left, &right));
}

#[test]
fn assignment_fills_the_frame_slot() {
    let observation = overlapping_observation(1, 9, "A", 3);
    let mut track = new_track(4, &overlapping_observation(0, 8, "A", 0), 3);
    assert_eq!(track.cels, vec![None, None, None]);
    let cel = PlannedCel { source_layer_id: 9, source_frame_index: 1, z_index: 0 };
    record_assignment(&mut track, &observation, cel);
    assert_eq!(track.cels, vec![None, Some(cel), None]);
    assert_eq!(track.observations.len(), 1);
    assert_eq!(track.observations[0].source_order, 3);
    assert_eq!(track.representative_source_layer_id, 8);
}
